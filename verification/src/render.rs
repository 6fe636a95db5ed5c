//! Typesetting rules: which characters are CJK and greedy line wrapping.

use vstd::prelude::*;
use crate::text::{chars_of, split_chars, split_on, join, views, trim, trim_end, trim_chars, is_whitespace,
    is_ws, string_of, lemma_split_on_nonempty, lemma_split_on_absent};
use crate::layout::{spec_columns, lemma_columns_push};

verus! {

/// CJK ideographs, kana, hangul and fullwidth forms: characters that may
/// break anywhere.
pub open spec fn spec_is_cjk(c: char) -> bool {
    let u = c as u32;
    ||| 0x2E80 <= u <= 0x9FFF
    ||| 0xF900 <= u <= 0xFAFF
    ||| 0xFF00 <= u <= 0xFFEF
    ||| 0xAC00 <= u <= 0xD7AF
}

/// True for CJK ideographs, kana, hangul and fullwidth punctuation.
pub fn is_cjk(c: char) -> (b: bool)
    ensures
        b == spec_is_cjk(c),
{
    let u = c as u32;
    (0x2E80 <= u && u <= 0x9FFF) || (0xF900 <= u && u <= 0xFAFF) || (0xFF00 <= u && u <= 0xFFEF)
        || (0xAC00 <= u && u <= 0xD7AF)
}

/// `str::split_inclusive(' ')`: pieces each ending with its space, then the
/// remainder when it is not empty.
pub open spec fn split_inclusive_space(s: Seq<char>) -> Seq<Seq<char>> {
    let ps = split_on(s, ' ');
    let n = ps.len() - 1;
    Seq::new(n as nat, |i: int| ps[i].push(' ')) + if ps[n].len() > 0 {
        seq![ps[n]]
    } else {
        Seq::<Seq<char>>::empty()
    }
}

/// Wrapping state: finished lines and the line being filled.
pub type WrapState = (Seq<Seq<char>>, Seq<char>);

/// One CJK character: starts a new line when the current one is full.
pub open spec fn cjk_char_step(st: WrapState, c: char, max: nat) -> WrapState {
    if st.1.len() >= max {
        (st.0.push(st.1), seq![c])
    } else {
        (st.0, st.1.push(c))
    }
}

/// A word that starts with a CJK character: placed character by character.
pub open spec fn cjk_word(st: WrapState, w: Seq<char>, max: nat) -> WrapState
    decreases w.len(),
{
    if w.len() == 0 {
        st
    } else {
        cjk_char_step(cjk_word(st, w.drop_last(), max), w.last(), max)
    }
}

/// Any other word: trimmed, joined by one space, moved to a new line when
/// it does not fit on a non-empty current line.
pub open spec fn latin_word(st: WrapState, w: Seq<char>, max: nat) -> WrapState {
    let t = trim(w);
    let cur = st.1;
    let joiner: nat = if cur.len() > 0 {
        1
    } else {
        0
    };
    if cur.len() + joiner + t.len() > max && cur.len() > 0 {
        (st.0.push(cur), t)
    } else {
        let c2 = if joiner == 1 && !(cur.last() == ' ') {
            cur.push(' ')
        } else {
            cur
        };
        (st.0, c2 + t)
    }
}

pub open spec fn word_step(st: WrapState, w: Seq<char>, max: nat) -> WrapState {
    let first = if w.len() > 0 {
        w[0]
    } else {
        ' '
    };
    if spec_is_cjk(first) {
        cjk_word(st, w, max)
    } else {
        latin_word(st, w, max)
    }
}

pub open spec fn words_fold(st: WrapState, ws: Seq<Seq<char>>, max: nat) -> WrapState
    decreases ws.len(),
{
    if ws.len() == 0 {
        st
    } else {
        word_step(words_fold(st, ws.drop_last(), max), ws.last(), max)
    }
}

/// Lines of one paragraph: an empty paragraph is one empty line; otherwise
/// the greedy fill of its words, the last line without trailing spaces.
pub open spec fn paragraph_lines(p: Seq<char>, max: nat) -> Seq<Seq<char>> {
    if p.len() == 0 {
        seq![Seq::<char>::empty()]
    } else {
        let st = words_fold((Seq::<Seq<char>>::empty(), Seq::<char>::empty()), split_inclusive_space(p), max);
        st.0.push(trim_end(st.1))
    }
}

pub open spec fn paragraphs_lines(ps: Seq<Seq<char>>, max: nat) -> Seq<Seq<char>>
    decreases ps.len(),
{
    if ps.len() == 0 {
        Seq::<Seq<char>>::empty()
    } else {
        paragraphs_lines(ps.drop_last(), max) + paragraph_lines(ps.last(), max)
    }
}

/// Greedy wrapping of every `\n`-separated paragraph, in order.
pub open spec fn spec_wrap_lines(text: Seq<char>, max: nat) -> Seq<Seq<char>> {
    paragraphs_lines(split_on(text, '\n'), max)
}

fn split_inclusive_exec(s: &[char]) -> (out: Vec<Vec<char>>)
    ensures
        views(out@) == split_inclusive_space(s@),
{
    let ps = split_chars(s, ' ');
    proof { lemma_split_on_nonempty(s@, ' '); }
    let n = ps.len() - 1;
    let mut out: Vec<Vec<char>> = Vec::new();
    let mut i: usize = 0;
    while i < n
        invariant
            views(ps@) == split_on(s@, ' '),
            n == ps@.len() - 1,
            i <= n,
            views(out@) == Seq::new(i as nat, |j: int| views(ps@)[j].push(' ')),
        decreases n - i,
    {
        let mut w = ps[i].clone();
        proof { assert(w@ == views(ps@)[i as int]); }
        w.push(' ');
        let ghost before = views(out@);
        out.push(w);
        assert(views(out@) =~= before.push(views(ps@)[i as int].push(' ')));
        assert(views(out@) =~= Seq::new((i + 1) as nat, |j: int| views(ps@)[j].push(' ')));
        i += 1;
    }
    let ghost before = views(out@);
    if ps[n].len() > 0 {
        let last = ps[n].clone();
        out.push(last);
        assert(views(out@) =~= before + seq![views(ps@)[n as int]]);
    } else {
        assert(views(out@) =~= before + Seq::<Seq<char>>::empty());
    }
    out
}

fn append_chars(dst: &mut Vec<char>, src: &[char])
    ensures
        final(dst)@ == old(dst)@ + src@,
{
    let mut i: usize = 0;
    while i < src.len()
        invariant
            i <= src@.len(),
            dst@ == old(dst)@ + src@.take(i as int),
        decreases src@.len() - i,
    {
        dst.push(src[i]);
        assert(src@.take(i + 1) =~= src@.take(i as int).push(src@[i as int]));
        i += 1;
    }
    assert(src@.take(src@.len() as int) =~= src@);
}

fn wrap_word(lines: &mut Vec<Vec<char>>, cur: &mut Vec<char>, w: &[char], max: usize)
    ensures
        (views(final(lines)@), final(cur)@) == word_step((views(old(lines)@), old(cur)@), w@, max as nat),
{
    let first = if w.len() > 0 { w[0] } else { ' ' };
    if is_cjk(first) {
        let mut i: usize = 0;
        while i < w.len()
            invariant
                i <= w@.len(),
                (views(lines@), cur@) == cjk_word((views(old(lines)@), old(cur)@), w@.take(i as int), max as nat),
            decreases w@.len() - i,
        {
            let ghost pre = w@.take(i + 1);
            assert(pre.drop_last() =~= w@.take(i as int));
            if cur.len() >= max {
                let mut done: Vec<char> = Vec::new();
                std::mem::swap(&mut done, cur);
                let ghost before = views(lines@);
                lines.push(done);
                assert(views(lines@) =~= before.push(done@));
            }
            cur.push(w[i]);
            proof {
                if cur@.len() == 1 {
                    assert(cur@ =~= seq![w@[i as int]]);
                }
            }
            i += 1;
        }
        assert(w@.take(w@.len() as int) =~= w@);
    } else {
        let t = trim_chars(w);
        let joiner: usize = if cur.len() > 0 { 1 } else { 0 };
        if cur.len() > 0 && (cur.len() > max || max - cur.len() < joiner || t.len() > max - cur.len() - joiner) {
            let mut done: Vec<char> = Vec::new();
                std::mem::swap(&mut done, cur);
            let ghost before = views(lines@);
            lines.push(done);
            assert(views(lines@) =~= before.push(done@));
            append_chars(cur, t.as_slice());
            assert(cur@ =~= t@);
        } else {
            if joiner == 1 && cur[cur.len() - 1] != ' ' {
                cur.push(' ');
            }
            append_chars(cur, t.as_slice());
        }
    }
}

fn trim_end_vec(v: &[char]) -> (out: String)
    ensures
        out@ == trim_end(v@),
{
    let mut m = v.len();
    assert(v@.take(m as int) =~= v@);
    while m > 0 && is_whitespace(v[m - 1])
        invariant
            m <= v@.len(),
            trim_end(v@) == trim_end(v@.take(m as int)),
        decreases m,
    {
        assert(v@.take(m as int).drop_last() =~= v@.take(m - 1));
        m -= 1;
    }
    crate::text::string_of_prefix(v, m)
}

pub open spec fn string_views(v: Seq<String>) -> Seq<Seq<char>> {
    v.map_values(|s: String| s@)
}

/// Greedy line breaking: CJK text breaks per character, other text per
/// word with single spaces between words; `\n` always breaks.
pub fn wrap_lines(text: &str, max_chars_per_line: usize) -> (out: Vec<String>)
    ensures
        string_views(out@) == spec_wrap_lines(text@, max_chars_per_line as nat),
{
    let max = max_chars_per_line;
    let tc = chars_of(text);
    let paras = split_chars(tc.as_slice(), '\n');
    let mut out: Vec<String> = Vec::new();
    let mut pi: usize = 0;
    while pi < paras.len()
        invariant
            views(paras@) == split_on(text@, '\n'),
            pi <= paras@.len(),
            string_views(out@) == paragraphs_lines(views(paras@).take(pi as int), max as nat),
        decreases paras@.len() - pi,
    {
        let p = &paras[pi];
        let ghost pv = views(paras@)[pi as int];
        assert(pv == p@);
        let ghost before = string_views(out@);
        let ghost pre = views(paras@).take(pi + 1);
        assert(pre.drop_last() =~= views(paras@).take(pi as int));
        if p.len() == 0 {
            out.push(String::new());
            assert(string_views(out@) =~= before + seq![Seq::<char>::empty()]);
        } else {
            let words = split_inclusive_exec(p.as_slice());
            let mut lines: Vec<Vec<char>> = Vec::new();
            let mut cur: Vec<char> = Vec::new();
            let mut wi: usize = 0;
            assert(views(lines@) =~= Seq::<Seq<char>>::empty());
            while wi < words.len()
                invariant
                    views(words@) == split_inclusive_space(pv),
                    wi <= words@.len(),
                    (views(lines@), cur@) == words_fold((Seq::<Seq<char>>::empty(), Seq::<char>::empty()), views(words@).take(wi as int), max as nat),
                decreases words@.len() - wi,
            {
                let ghost wpre = views(words@).take(wi + 1);
                assert(wpre.drop_last() =~= views(words@).take(wi as int));
                assert(wpre.last() == words@[wi as int]@);
                wrap_word(&mut lines, &mut cur, words[wi].as_slice(), max);
                wi += 1;
            }
            assert(views(words@).take(words@.len() as int) =~= views(words@));
            let mut li: usize = 0;
            let ghost base = string_views(out@);
            while li < lines.len()
                invariant
                    li <= lines@.len(),
                    string_views(out@) == base + views(lines@).take(li as int),
                decreases lines@.len() - li,
            {
                let s = string_of(lines[li].as_slice());
                let ghost b2 = string_views(out@);
                out.push(s);
                assert(string_views(out@) =~= b2.push(s@));
                assert(views(lines@).take(li + 1) =~= views(lines@).take(li as int).push(lines@[li as int]@));
                li += 1;
            }
            assert(views(lines@).take(lines@.len() as int) =~= views(lines@));
            let last = trim_end_vec(cur.as_slice());
            let ghost b3 = string_views(out@);
            out.push(last);
            assert(string_views(out@) =~= b3.push(last@));
            assert(paragraph_lines(pv, max as nat) =~= views(lines@).push(trim_end(cur@)));
            assert(string_views(out@) =~= before + paragraph_lines(pv, max as nat));
        }
        pi += 1;
    }
    assert(views(paras@).take(paras@.len() as int) =~= views(paras@));
    out
}


/// Placing CJK characters one by one leaves the finished lines and the
/// current line of the column split.
proof fn lemma_cjk_word_is_columns(s: Seq<char>, max: nat)
    requires
        max > 0,
    ensures
        cjk_word((Seq::<Seq<char>>::empty(), Seq::<char>::empty()), s, max)
            == (spec_columns(s, max).drop_last(), spec_columns(s, max).last()),
    decreases s.len(),
{
    let st0 = (Seq::<Seq<char>>::empty(), Seq::<char>::empty());
    if s.len() == 0 {
        assert(s =~= Seq::<char>::empty());
        assert(spec_columns(s, max) =~= seq![Seq::<char>::empty()]);
        assert(spec_columns(s, max).drop_last() =~= Seq::<Seq<char>>::empty());
    } else {
        let p = s.drop_last();
        let c = s.last();
        lemma_cjk_word_is_columns(p, max);
        lemma_columns_push(p, max, c);
        assert(p.push(c) =~= s);
        let cols = spec_columns(p, max);
        if cols.last().len() >= max {
            assert(spec_columns(s, max).drop_last() =~= cols);
        } else {
            assert(spec_columns(s, max).drop_last() =~= cols.drop_last());
        }
    }
}

/// Text of CJK characters only (no spaces, whitespace or line breaks) is
/// broken per character: the lines are the consecutive runs of `max`
/// characters, the last one holding the rest.
pub proof fn law_cjk_breaks_per_character(text: Seq<char>, max: nat)
    requires
        max > 0,
        text.len() > 0,
        forall|i: int| 0 <= i < text.len() ==> spec_is_cjk(#[trigger] text[i]) && !is_ws(text[i]),
    ensures
        spec_wrap_lines(text, max) == spec_columns(text, max),
{
    assert forall|i: int| 0 <= i < text.len() implies text[i] != '\n' && text[i] != ' ' by {
        assert(spec_is_cjk(text[i]));
    }
    lemma_split_on_absent(text, '\n');
    lemma_split_on_absent(text, ' ');
    let words = split_inclusive_space(text);
    assert(words =~= seq![text]);
    assert(spec_is_cjk(text[0]));
    let st0 = (Seq::<Seq<char>>::empty(), Seq::<char>::empty());
    assert(words_fold(st0, words, max) == word_step(words_fold(st0, words.drop_last(), max), text, max));
    assert(words.drop_last() =~= Seq::<Seq<char>>::empty());
    lemma_cjk_word_is_columns(text, max);
    let cols = spec_columns(text, max);
    lemma_columns_push(text, max, 'a');
    assert(cols.len() >= 1);
    let last = cols.last();
    assert(trim_end(last) == last) by {
        lemma_columns_members(text, max);
        if last.len() > 0 {
            assert(!is_ws(last.last()));
        }
    }
    let ps = split_on(text, '\n');
    assert(ps.drop_last() =~= Seq::<Seq<char>>::empty());
    assert(paragraphs_lines(ps, max) == paragraphs_lines(ps.drop_last(), max) + paragraph_lines(text, max));
    assert(cols.drop_last().push(last) =~= cols);
    assert(paragraphs_lines(ps, max) =~= cols);
}

/// Every character of a column comes from the text.
proof fn lemma_columns_members(s: Seq<char>, max: nat)
    requires
        max > 0,
    ensures
        forall|k: int, j: int| 0 <= k < spec_columns(s, max).len() && 0 <= j < spec_columns(s, max)[k].len()
            ==> s.contains(#[trigger] spec_columns(s, max)[k][j]),
    decreases s.len(),
{
    if s.len() > max {
        let rest = s.skip(max as int);
        lemma_columns_members(rest, max);
        let cols = spec_columns(s, max);
        assert forall|k: int, j: int| 0 <= k < cols.len() && 0 <= j < cols[k].len() implies s.contains(#[trigger] cols[k][j]) by {
            if k == 0 {
                assert(cols[0] == s.take(max as int));
                assert(s[j] == cols[k][j]);
            } else {
                assert(cols[k] == spec_columns(rest, max)[k - 1]);
                let w = choose|w: int| 0 <= w < rest.len() && rest[w] == cols[k][j];
                assert(s[w + max] == rest[w]);
            }
        }
    } else {
        let cols = spec_columns(s, max);
        assert forall|k: int, j: int| 0 <= k < cols.len() && 0 <= j < cols[k].len() implies s.contains(#[trigger] cols[k][j]) by {
            assert(cols[k] == s);
            assert(s[j] == cols[k][j]);
        }
    }
}

/// A line that fits, or holds one word only.
pub open spec fn fits_or_single_word(l: Seq<char>, max: nat) -> bool {
    l.len() <= max || !l.contains(' ')
}

/// The first word of a line: the text before its first space.
pub open spec fn first_word(l: Seq<char>) -> Seq<char> {
    split_on(l, ' ')[0]
}

/// Every break was forced: a line followed by one space and the first word
/// of the next line would be wider than `max`.
pub open spec fn breaks_forced(lines: Seq<Seq<char>>, max: nat) -> bool {
    forall|k: int| #![trigger lines[k]] 0 <= k < lines.len() - 1 ==> lines[k].len() + 1 + first_word(lines[k + 1]).len() > max
}

/// Words of visible characters that do not open with a CJK character.
pub open spec fn latin_words(words: Seq<Seq<char>>) -> bool {
    forall|i: int| 0 <= i < words.len() ==> {
        &&& (#[trigger] words[i]).len() > 0
        &&& !spec_is_cjk(words[i][0])
        &&& forall|j: int| 0 <= j < words[i].len() ==> !is_ws(#[trigger] words[i][j])
    }
}

proof fn lemma_join_extend_last(xs: Seq<Seq<char>>, a: Seq<char>, b: Seq<char>)
    ensures
        join(xs.push(a + seq![' '] + b), seq![' ']) == join(xs.push(a), seq![' ']) + seq![' '] + b,
{
    let l1 = xs.push(a + seq![' '] + b);
    let l2 = xs.push(a);
    assert(l1.drop_last() =~= xs);
    assert(l2.drop_last() =~= xs);
    if xs.len() == 0 {
        assert(join(l1, seq![' ']) == l1[0]);
        assert(join(l2, seq![' ']) == l2[0]);
        assert(join(l1, seq![' ']) =~= join(l2, seq![' ']) + seq![' '] + b);
    } else {
        assert(join(l1, seq![' ']) =~= join(l2, seq![' ']) + seq![' '] + b);
    }
}

proof fn lemma_join_push(xs: Seq<Seq<char>>, b: Seq<char>)
    requires
        xs.len() > 0,
    ensures
        join(xs.push(b), seq![' ']) == join(xs, seq![' ']) + seq![' '] + b,
{
    assert(xs.push(b).drop_last() =~= xs);
}

/// Greedy wrapping of the first `m` words (each given with its trailing
/// space, the last possibly without).
proof fn lemma_latin_fold(words: Seq<Seq<char>>, ws: Seq<Seq<char>>, max: nat, m: int)
    requires
        latin_words(words),
        ws.len() == words.len(),
        forall|i: int| 0 <= i < ws.len() ==> trim(#[trigger] ws[i]) == words[i] && ws[i][0] == words[i][0],
        forall|i: int| 0 <= i < ws.len() ==> (#[trigger] ws[i]).len() > 0,
        1 <= m <= words.len(),
    ensures
        ({
            let st = words_fold((Seq::<Seq<char>>::empty(), Seq::<char>::empty()), ws.take(m), max);
            &&& join(st.0.push(st.1), seq![' ']) == join(words.take(m), seq![' '])
            &&& st.1.len() > 0
            &&& !is_ws(st.1.last())
            &&& fits_or_single_word(st.1, max)
            &&& forall|k: int| 0 <= k < st.0.len() ==> fits_or_single_word(#[trigger] st.0[k], max)
            &&& breaks_forced(st.0.push(st.1), max)
        }),
    decreases m,
{
    let st0 = (Seq::<Seq<char>>::empty(), Seq::<char>::empty());
    let w = words[m - 1];
    assert(ws.take(m).drop_last() =~= ws.take(m - 1));
    assert(ws.take(m).last() == ws[m - 1]);
    assert(!spec_is_cjk(ws[m - 1][0]));
    assert(w.len() > 0 && !is_ws(w.last())) by {
        assert(!is_ws(w[w.len() - 1]));
    }
    assert(!w.contains(' ')) by {
        if w.contains(' ') {
            let j = choose|j: int| 0 <= j < w.len() && w[j] == ' ';
            assert(!is_ws(w[j]));
        }
    }
    if m == 1 {
        assert(ws.take(0) =~= Seq::<Seq<char>>::empty());
        let st = words_fold(st0, ws.take(m), max);
        assert(words_fold(st0, ws.take(0), max) == st0);
        assert(ws[0].len() > 0);
        assert(word_step(st0, ws[0], max) == latin_word(st0, ws[0], max));
        assert(st == word_step(words_fold(st0, ws.take(1).drop_last(), max), ws.take(1).last(), max));
        assert(st == latin_word(st0, ws[0], max));
        assert(st.0 =~= Seq::<Seq<char>>::empty());
        assert(st.1 =~= w);
        assert(words.take(1) =~= seq![w]);
        assert(st.0.push(st.1) =~= seq![w]);
    } else {
        lemma_latin_fold(words, ws, max, m - 1);
        let pst = words_fold(st0, ws.take(m - 1), max);
        let st = words_fold(st0, ws.take(m), max);
        assert(st == latin_word(pst, ws[m - 1], max));
        let cur = pst.1;
        assert(words.take(m) =~= words.take(m - 1).push(w));
        assert(words.take(m - 1).len() > 0);
        lemma_join_push(words.take(m - 1), w);
        let old_lines = pst.0.push(cur);
        if cur.len() + 1 + w.len() > max {
            assert(st.0 == pst.0.push(cur));
            assert(st.1 == w);
            lemma_join_push(pst.0.push(cur), w);
            assert forall|k: int| 0 <= k < st.0.len() implies fits_or_single_word(#[trigger] st.0[k], max) by {
                if k < pst.0.len() {
                    assert(st.0[k] == pst.0[k]);
                }
            }
            crate::text::lemma_split_on_absent(w, ' ');
            assert(first_word(w) == w);
            let nl = st.0.push(st.1);
            assert(nl == old_lines.push(w));
            assert forall|k: int| #![trigger nl[k]] 0 <= k < nl.len() - 1 implies nl[k].len() + 1 + first_word(nl[k + 1]).len() > max by {
                if k < old_lines.len() - 1 {
                    assert(nl[k] == old_lines[k]);
                    assert(nl[k + 1] == old_lines[k + 1]);
                } else {
                    assert(nl[k] == cur);
                    assert(nl[k + 1] == w);
                }
            }
        } else {
            assert(cur.last() != ' ');
            assert(st.1 == cur.push(' ') + w);
            assert(cur.push(' ') + w =~= cur + seq![' '] + w);
            lemma_join_extend_last(pst.0, cur, w);
            assert((cur + seq![' '] + w).last() == w.last());
            crate::text::lemma_split_concat(cur, w, ' ');
            crate::text::lemma_split_on_nonempty(cur, ' ');
            assert(first_word(cur + seq![' '] + w) == first_word(cur));
            let nl = st.0.push(st.1);
            assert(st.0 == pst.0);
            assert forall|k: int| #![trigger nl[k]] 0 <= k < nl.len() - 1 implies nl[k].len() + 1 + first_word(nl[k + 1]).len() > max by {
                assert(nl[k] == old_lines[k]);
                assert(old_lines[k].len() + 1 + first_word(old_lines[k + 1]).len() > max);
                if k + 1 < pst.0.len() {
                    assert(nl[k + 1] == old_lines[k + 1]);
                } else {
                    assert(nl[k + 1] == cur + seq![' '] + w);
                    assert(old_lines[k + 1] == cur);
                }
            }
        }
    }
}

/// Text of words separated by single spaces breaks between words: joining
/// the lines with spaces gives the text back, every line fits the width or
/// holds a single word, and every break was forced (the next word would not
/// have fitted).
pub proof fn law_latin_breaks_per_word(words: Seq<Seq<char>>, max: nat)
    requires
        words.len() > 0,
        latin_words(words),
    ensures
        join(spec_wrap_lines(join(words, seq![' ']), max), seq![' ']) == join(words, seq![' ']),
        forall|k: int| 0 <= k < spec_wrap_lines(join(words, seq![' ']), max).len()
            ==> fits_or_single_word(#[trigger] spec_wrap_lines(join(words, seq![' ']), max)[k], max),
        breaks_forced(spec_wrap_lines(join(words, seq![' ']), max), max),
{
    let text = join(words, seq![' ']);
    assert forall|i: int, j: int| 0 <= i < words.len() && 0 <= j < words[i].len() implies #[trigger] words[i][j] != ' ' by {
        assert(!is_ws(words[i][j]));
    }
    crate::text::lemma_split_join(words, ' ');
    lemma_join_no_newline(words);
    lemma_split_on_absent(text, '\n');
    let n = words.len();
    let ws = split_inclusive_space(text);
    assert(words.last() == words[n - 1]);
    assert(words[n - 1].len() > 0);
    assert(ws =~= Seq::new((n - 1) as nat, |i: int| words[i].push(' ')) + seq![words[n - 1]]);
    assert forall|i: int| 0 <= i < ws.len() implies trim(#[trigger] ws[i]) == words[i] && ws[i][0] == words[i][0] && ws[i].len() > 0 by {
        let w = words[i];
        assert(w.len() > 0 && !is_ws(w[0]) && !is_ws(w[w.len() - 1]));
        if i < n - 1 {
            assert(ws[i] == w.push(' '));
            crate::text::lemma_trim_drop_trailing_ws(w.push(' '));
            assert(w.push(' ').drop_last() =~= w);
            crate::text::lemma_trim_visible(w);
        } else {
            assert(ws[i] == w);
            crate::text::lemma_trim_visible(w);
        }
    }
    lemma_latin_fold(words, ws, max, n as int);
    assert(ws.take(n as int) =~= ws);
    assert(words.take(n as int) =~= words);
    assert(text.len() > 0) by {
        lemma_join_len_pos(words);
    }
    let ps = split_on(text, '\n');
    assert(ps.drop_last() =~= Seq::<Seq<char>>::empty());
    assert(paragraphs_lines(ps, max) == paragraphs_lines(ps.drop_last(), max) + paragraph_lines(text, max));
    let st = words_fold((Seq::<Seq<char>>::empty(), Seq::<char>::empty()), ws, max);
    assert(trim_end(st.1) == st.1);
    assert(spec_wrap_lines(text, max) =~= st.0.push(st.1));
    assert forall|k: int| 0 <= k < st.0.push(st.1).len() implies fits_or_single_word(#[trigger] st.0.push(st.1)[k], max) by {
        if k < st.0.len() {
            assert(st.0.push(st.1)[k] == st.0[k]);
        }
    }
}

/// Words without white space joined by spaces hold no line feed.
proof fn lemma_join_no_newline(words: Seq<Seq<char>>)
    requires
        latin_words(words),
    ensures
        forall|i: int| 0 <= i < join(words, seq![' ']).len() ==> join(words, seq![' '])[i] != '\n',
    decreases words.len(),
{
    if words.len() == 1 {
        assert forall|i: int| 0 <= i < join(words, seq![' ']).len() implies join(words, seq![' '])[i] != '\n' by {
            assert(!is_ws(words[0][i]));
        }
    } else if words.len() > 1 {
        let p = words.drop_last();
        assert(latin_words(p)) by {
            assert forall|i: int| 0 <= i < p.len() implies {
                &&& (#[trigger] p[i]).len() > 0
                &&& !spec_is_cjk(p[i][0])
                &&& forall|j: int| 0 <= j < p[i].len() ==> !is_ws(#[trigger] p[i][j])
            } by {
                assert(p[i] == words[i]);
            }
        }
        lemma_join_no_newline(p);
        let a = join(p, seq![' ']);
        let w = words.last();
        let t = join(words, seq![' ']);
        assert(t == a + seq![' '] + w);
        assert forall|i: int| 0 <= i < t.len() implies t[i] != '\n' by {
            if i < a.len() {
                assert(t[i] == a[i]);
            } else if i > a.len() {
                assert(t[i] == w[i - a.len() - 1]);
                assert(!is_ws(words[words.len() - 1][i - a.len() - 1]));
            }
        }
    }
}

proof fn lemma_join_len_pos(words: Seq<Seq<char>>)
    requires
        latin_words(words),
        words.len() > 0,
    ensures
        join(words, seq![' ']).len() > 0,
{
    if words.len() > 1 {
        assert(join(words, seq![' ']).len() == join(words.drop_last(), seq![' ']).len() + 1 + words.last().len());
    } else {
        assert(words[0].len() > 0);
    }
}

proof fn lemma_paragraphs_concat(x: Seq<Seq<char>>, y: Seq<Seq<char>>, max: nat)
    ensures
        paragraphs_lines(x + y, max) == paragraphs_lines(x, max) + paragraphs_lines(y, max),
    decreases y.len(),
{
    if y.len() == 0 {
        assert(x + y =~= x);
        assert(paragraphs_lines(y, max) =~= Seq::<Seq<char>>::empty());
        assert(paragraphs_lines(x, max) + paragraphs_lines(y, max) =~= paragraphs_lines(x, max));
    } else {
        lemma_paragraphs_concat(x, y.drop_last(), max);
        assert((x + y).drop_last() =~= x + y.drop_last());
        assert((x + y).last() == y.last());
        assert(paragraphs_lines(x + y, max) =~= paragraphs_lines(x, max) + paragraphs_lines(y, max));
    }
}

/// Every line feed breaks the text: the lines of `a`, a line feed and `b`
/// are the lines of `a` followed by the lines of `b`.
pub proof fn law_newline_breaks(a: Seq<char>, b: Seq<char>, max: nat)
    ensures
        spec_wrap_lines(a + seq!['\n'] + b, max) == spec_wrap_lines(a, max) + spec_wrap_lines(b, max),
{
    crate::text::lemma_split_concat(a, b, '\n');
    lemma_paragraphs_concat(split_on(a, '\n'), split_on(b, '\n'), max);
}

/// The visible (non-white-space) characters of a text, in order.
pub open spec fn visible(s: Seq<char>) -> Seq<char>
    decreases s.len(),
{
    if s.len() == 0 {
        Seq::<char>::empty()
    } else if is_ws(s.last()) {
        visible(s.drop_last())
    } else {
        visible(s.drop_last()).push(s.last())
    }
}

/// Lines run together without separators.
pub open spec fn concat_all(ls: Seq<Seq<char>>) -> Seq<char>
    decreases ls.len(),
{
    if ls.len() == 0 {
        Seq::<char>::empty()
    } else {
        concat_all(ls.drop_last()) + ls.last()
    }
}

proof fn lemma_visible_add(a: Seq<char>, b: Seq<char>)
    ensures
        visible(a + b) == visible(a) + visible(b),
    decreases b.len(),
{
    if b.len() == 0 {
        assert(a + b =~= a);
        assert(visible(a) + visible(b) =~= visible(a));
    } else {
        lemma_visible_add(a, b.drop_last());
        assert((a + b).drop_last() =~= a + b.drop_last());
        assert((a + b).last() == b.last());
        if !is_ws(b.last()) {
            assert(visible(a) + visible(b.drop_last()).push(b.last()) =~= (visible(a) + visible(b.drop_last())).push(b.last()));
        }
    }
}

proof fn lemma_visible_ws(c: char)
    requires
        is_ws(c),
    ensures
        visible(seq![c]) == Seq::<char>::empty(),
{
    assert(seq![c].drop_last() =~= Seq::<char>::empty());
    assert(seq![c].last() == c);
    assert(visible(Seq::<char>::empty()) == Seq::<char>::empty());
    assert(visible(seq![c]) == visible(seq![c].drop_last()));
}

proof fn lemma_visible_trim_end(s: Seq<char>)
    ensures
        visible(trim_end(s)) == visible(s),
    decreases s.len(),
{
    if s.len() > 0 && is_ws(s.last()) {
        lemma_visible_trim_end(s.drop_last());
    }
}

proof fn lemma_visible_trim_start(s: Seq<char>)
    ensures
        visible(crate::text::trim_start(s)) == visible(s),
    decreases s.len(),
{
    if s.len() > 0 && is_ws(s[0]) {
        lemma_visible_trim_start(s.drop_first());
        lemma_visible_add(seq![s[0]], s.drop_first());
        assert(seq![s[0]] + s.drop_first() =~= s);
        lemma_visible_ws(s[0]);
        assert(Seq::<char>::empty() + visible(s.drop_first()) =~= visible(s.drop_first()));
    }
}

proof fn lemma_visible_trim(s: Seq<char>)
    ensures
        visible(trim(s)) == visible(s),
{
    lemma_visible_trim_start(s);
    lemma_visible_trim_end(crate::text::trim_start(s));
}

proof fn lemma_concat_all_add(x: Seq<Seq<char>>, y: Seq<Seq<char>>)
    ensures
        concat_all(x + y) == concat_all(x) + concat_all(y),
    decreases y.len(),
{
    if y.len() == 0 {
        assert(x + y =~= x);
        assert(concat_all(x) + concat_all(y) =~= concat_all(x));
    } else {
        lemma_concat_all_add(x, y.drop_last());
        assert((x + y).drop_last() =~= x + y.drop_last());
        assert((x + y).last() == y.last());
        assert(concat_all(x + y) =~= concat_all(x) + concat_all(y));
    }
}

/// The text a wrapping state holds: its finished lines and the current one.
pub open spec fn state_text(st: WrapState) -> Seq<char> {
    concat_all(st.0) + st.1
}

proof fn lemma_cjk_word_text(st: WrapState, w: Seq<char>, max: nat)
    ensures
        state_text(cjk_word(st, w, max)) == state_text(st) + w,
    decreases w.len(),
{
    if w.len() == 0 {
        assert(state_text(st) + w =~= state_text(st));
    } else {
        lemma_cjk_word_text(st, w.drop_last(), max);
        let p = cjk_word(st, w.drop_last(), max);
        let c = w.last();
        if p.1.len() >= max {
            assert(p.0.push(p.1).drop_last() =~= p.0);
        }
        assert(state_text(cjk_char_step(p, c, max)) =~= state_text(p).push(c));
        assert(state_text(st) + w =~= (state_text(st) + w.drop_last()).push(c));
    }
}

proof fn lemma_latin_word_visible(st: WrapState, w: Seq<char>, max: nat)
    ensures
        visible(state_text(latin_word(st, w, max))) == visible(state_text(st)) + visible(w),
{
    let t = trim(w);
    let cur = st.1;
    let joiner: nat = if cur.len() > 0 {
        1
    } else {
        0
    };
    lemma_visible_trim(w);
    let r = latin_word(st, w, max);
    if cur.len() + joiner + t.len() > max && cur.len() > 0 {
        assert(st.0.push(cur).drop_last() =~= st.0);
        assert(state_text(r) =~= state_text(st) + t);
        lemma_visible_add(state_text(st), t);
    } else if joiner == 1 && !(cur.last() == ' ') {
        assert(state_text(r) =~= state_text(st) + seq![' '] + t);
        lemma_visible_add(state_text(st) + seq![' '], t);
        lemma_visible_add(state_text(st), seq![' ']);
        lemma_visible_ws(' ');
        assert(visible(state_text(st)) + Seq::<char>::empty() =~= visible(state_text(st)));
    } else {
        assert(state_text(r) =~= state_text(st) + t);
        lemma_visible_add(state_text(st), t);
    }
}

proof fn lemma_fold_visible(st: WrapState, ws: Seq<Seq<char>>, max: nat)
    ensures
        visible(state_text(words_fold(st, ws, max))) == visible(state_text(st)) + visible(concat_all(ws)),
    decreases ws.len(),
{
    if ws.len() == 0 {
        assert(visible(state_text(st)) + visible(concat_all(ws)) =~= visible(state_text(st)));
    } else {
        lemma_fold_visible(st, ws.drop_last(), max);
        let p = words_fold(st, ws.drop_last(), max);
        let w = ws.last();
        let first = if w.len() > 0 {
            w[0]
        } else {
            ' '
        };
        if spec_is_cjk(first) {
            lemma_cjk_word_text(p, w, max);
            lemma_visible_add(state_text(p), w);
        } else {
            lemma_latin_word_visible(p, w, max);
        }
        lemma_visible_add(concat_all(ws.drop_last()), w);
        assert(visible(state_text(st)) + visible(concat_all(ws.drop_last())) + visible(w)
            =~= visible(state_text(st)) + (visible(concat_all(ws.drop_last())) + visible(w)));
    }
}

proof fn lemma_join_split(s: Seq<char>, sep: char)
    ensures
        join(split_on(s, sep), seq![sep]) == s,
    decreases s.len(),
{
    if s.len() == 0 {
        assert(split_on(s, sep) =~= seq![Seq::<char>::empty()]);
        assert(s =~= Seq::<char>::empty());
    } else {
        let r = split_on(s.drop_last(), sep);
        lemma_join_split(s.drop_last(), sep);
        lemma_split_on_nonempty(s.drop_last(), sep);
        let c = s.last();
        assert(s.drop_last().push(c) =~= s);
        if c == sep {
            let u = r.push(Seq::<char>::empty());
            assert(u.drop_last() =~= r);
            assert(join(u, seq![sep]) =~= join(r, seq![sep]) + seq![sep] + Seq::<char>::empty());
            assert(join(u, seq![sep]) =~= s);
        } else {
            let u = r.update(r.len() - 1, r.last().push(c));
            if r.len() == 1 {
                assert(join(u, seq![sep]) == u[0]);
                assert(join(r, seq![sep]) == r[0]);
                assert(join(u, seq![sep]) =~= s);
            } else {
                assert(u.drop_last() =~= r.drop_last());
                assert(u.last() == r.last().push(c));
                assert(join(u, seq![sep]) =~= join(r, seq![sep]).push(c));
            }
        }
    }
}

proof fn lemma_visible_join(ps: Seq<Seq<char>>, c: char)
    requires
        is_ws(c),
    ensures
        visible(join(ps, seq![c])) == visible(concat_all(ps)),
    decreases ps.len(),
{
    if ps.len() == 1 {
        assert(ps.drop_last() =~= Seq::<Seq<char>>::empty());
        assert(concat_all(Seq::<Seq<char>>::empty()) == Seq::<char>::empty());
        assert(concat_all(ps) =~= ps[0]);
    } else if ps.len() > 1 {
        let pre = ps.drop_last();
        lemma_visible_join(pre, c);
        lemma_visible_add(join(pre, seq![c]) + seq![c], ps.last());
        lemma_visible_add(join(pre, seq![c]), seq![c]);
        lemma_visible_ws(c);
        lemma_visible_add(concat_all(pre), ps.last());
        assert(visible(join(pre, seq![c])) + Seq::<char>::empty() =~= visible(join(pre, seq![c])));
    }
}

/// Each piece followed by a space.
pub open spec fn spaced(ps: Seq<Seq<char>>, k: int) -> Seq<Seq<char>> {
    Seq::new(k as nat, |i: int| ps[i].push(' '))
}

proof fn lemma_spaced_visible(ps: Seq<Seq<char>>, k: int)
    requires
        0 <= k <= ps.len(),
    ensures
        visible(concat_all(spaced(ps, k))) == visible(concat_all(ps.take(k))),
    decreases k,
{
    if k == 0 {
        assert(spaced(ps, 0) =~= Seq::<Seq<char>>::empty());
        assert(ps.take(0) =~= Seq::<Seq<char>>::empty());
    } else {
        lemma_spaced_visible(ps, k - 1);
        let a = spaced(ps, k);
        assert(a.drop_last() =~= spaced(ps, k - 1));
        assert(a.last() == ps[k - 1].push(' '));
        assert(ps.take(k).drop_last() =~= ps.take(k - 1));
        assert(ps.take(k).last() == ps[k - 1]);
        lemma_visible_add(concat_all(a.drop_last()), a.last());
        lemma_visible_add(concat_all(ps.take(k - 1)), ps[k - 1]);
        assert(ps[k - 1].push(' ').drop_last() =~= ps[k - 1]);
        assert(visible(ps[k - 1].push(' ')) == visible(ps[k - 1]));
    }
}

proof fn lemma_pieces_visible(p: Seq<char>)
    ensures
        visible(concat_all(split_inclusive_space(p))) == visible(p),
{
    let ps = split_on(p, ' ');
    lemma_split_on_nonempty(p, ' ');
    let n = ps.len() - 1;
    let head = spaced(ps, n);
    let tail = if ps[n].len() > 0 {
        seq![ps[n]]
    } else {
        Seq::<Seq<char>>::empty()
    };
    assert(split_inclusive_space(p) =~= head + tail);
    lemma_spaced_visible(ps, n);
    lemma_concat_all_add(head, tail);
    lemma_visible_add(concat_all(head), concat_all(tail));
    if ps[n].len() > 0 {
        assert(tail.drop_last() =~= Seq::<Seq<char>>::empty());
        assert(concat_all(Seq::<Seq<char>>::empty()) == Seq::<char>::empty());
        assert(concat_all(tail) =~= ps[n]);
    } else {
        assert(ps[n] =~= Seq::<char>::empty());
    }
    assert(ps.drop_last() =~= ps.take(n));
    lemma_visible_add(concat_all(ps.take(n)), ps[n]);
    lemma_join_split(p, ' ');
    lemma_visible_join(ps, ' ');
}

proof fn lemma_paragraph_visible(p: Seq<char>, max: nat)
    ensures
        visible(concat_all(paragraph_lines(p, max))) == visible(p),
{
    if p.len() == 0 {
        let ls = seq![Seq::<char>::empty()];
        assert(ls.drop_last() =~= Seq::<Seq<char>>::empty());
        assert(concat_all(Seq::<Seq<char>>::empty()) == Seq::<char>::empty());
        assert(concat_all(ls) =~= Seq::<char>::empty());
    } else {
        let init = (Seq::<Seq<char>>::empty(), Seq::<char>::empty());
        let ws = split_inclusive_space(p);
        let st = words_fold(init, ws, max);
        lemma_fold_visible(init, ws, max);
        assert(state_text(init) =~= Seq::<char>::empty());
        assert(Seq::<char>::empty() + visible(concat_all(ws)) =~= visible(concat_all(ws)));
        let ls = st.0.push(trim_end(st.1));
        assert(ls.drop_last() =~= st.0);
        lemma_visible_add(concat_all(st.0), trim_end(st.1));
        lemma_visible_add(concat_all(st.0), st.1);
        lemma_visible_trim_end(st.1);
        lemma_pieces_visible(p);
    }
}

proof fn lemma_paragraphs_visible(ps: Seq<Seq<char>>, max: nat)
    ensures
        visible(concat_all(paragraphs_lines(ps, max))) == visible(concat_all(ps)),
    decreases ps.len(),
{
    if ps.len() > 0 {
        lemma_paragraphs_visible(ps.drop_last(), max);
        lemma_paragraph_visible(ps.last(), max);
        lemma_concat_all_add(paragraphs_lines(ps.drop_last(), max), paragraph_lines(ps.last(), max));
        lemma_visible_add(concat_all(paragraphs_lines(ps.drop_last(), max)), concat_all(paragraph_lines(ps.last(), max)));
        lemma_visible_add(concat_all(ps.drop_last()), ps.last());
    }
}

/// Wrapping keeps every visible character: the lines run together hold
/// exactly the text's non-white-space characters, in order.
pub proof fn law_wrap_keeps_visible(text: Seq<char>, max: nat)
    ensures
        visible(concat_all(spec_wrap_lines(text, max))) == visible(text),
{
    lemma_paragraphs_visible(split_on(text, '\n'), max);
    lemma_join_split(text, '\n');
    lemma_visible_join(split_on(text, '\n'), '\n');
}
} // verus!
