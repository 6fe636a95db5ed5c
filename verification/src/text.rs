//! Character-level string helpers with exact specifications.

use vstd::prelude::*;
use vstd::string::StringExecFns;

verus! {

/// Appends one character to a `String` (`String::push`).
#[verifier::external_body]
pub(crate) fn push_char(s: &mut String, c: char)
    ensures
        final(s)@ == old(s)@.push(c),
{
    s.push(c);
}

/// The characters of a string slice, in order.
pub fn chars_of(s: &str) -> (out: Vec<char>)
    ensures
        out@ == s@,
{
    let mut out: Vec<char> = Vec::new();
    for c in it: s.chars()
        invariant
            out@ == it.seq().take(it.index() as int),
            it.seq() == s@,
    {
        out.push(c);
    }
    out
}

/// Builds a `String` from a sequence of characters.
pub fn string_of(cs: &[char]) -> (out: String)
    ensures
        out@ == cs@,
{
    let mut out = String::new();
    let mut i: usize = 0;
    while i < cs.len()
        invariant
            i <= cs.len(),
            out@ == cs@.take(i as int),
        decreases cs.len() - i,
    {
        push_char(&mut out, cs[i]);
        proof { assert(cs@.take(i + 1) =~= cs@.take(i as int).push(cs@[i as int])); }
        i += 1;
    }
    proof { assert(cs@.take(cs@.len() as int) =~= cs@); }
    out
}

} // verus!

verus! {

/// Unicode `White_Space` characters, the set `char::is_whitespace` and
/// `str::trim` use.
pub open spec fn is_ws(c: char) -> bool {
    let u = c as u32;
    ||| 0x09 <= u <= 0x0D
    ||| u == 0x20
    ||| u == 0x85
    ||| u == 0xA0
    ||| u == 0x1680
    ||| 0x2000 <= u <= 0x200A
    ||| u == 0x2028
    ||| u == 0x2029
    ||| u == 0x202F
    ||| u == 0x205F
    ||| u == 0x3000
}

pub fn is_whitespace(c: char) -> (b: bool)
    ensures
        b == is_ws(c),
{
    let u = c as u32;
    (0x09 <= u && u <= 0x0D) || u == 0x20 || u == 0x85 || u == 0xA0 || u == 0x1680 || (0x2000
        <= u && u <= 0x200A) || u == 0x2028 || u == 0x2029 || u == 0x202F || u == 0x205F || u
        == 0x3000
}

/// `s` without its leading white space.
pub open spec fn trim_start(s: Seq<char>) -> Seq<char>
    decreases s.len(),
{
    if s.len() > 0 && is_ws(s[0]) {
        trim_start(s.drop_first())
    } else {
        s
    }
}

/// `s` without its trailing white space.
pub open spec fn trim_end(s: Seq<char>) -> Seq<char>
    decreases s.len(),
{
    if s.len() > 0 && is_ws(s.last()) {
        trim_end(s.drop_last())
    } else {
        s
    }
}

/// `str::trim`: white space removed at both ends.
pub open spec fn trim(s: Seq<char>) -> Seq<char> {
    trim_end(trim_start(s))
}

pub open spec fn ascii_lower(c: char) -> char {
    if 'A' <= c && c <= 'Z' {
        ((c as u32) + 32) as char
    } else {
        c
    }
}

/// `to_ascii_lowercase`: ASCII capitals mapped to small letters.
pub open spec fn lower(s: Seq<char>) -> Seq<char> {
    s.map_values(|c: char| ascii_lower(c))
}

pub fn to_ascii_lower_char(c: char) -> (r: char)
    ensures
        r == ascii_lower(c),
{
    if 'A' <= c && c <= 'Z' {
        ((c as u8) + 32) as char
    } else {
        c
    }
}

/// The trimmed characters of `s`.
pub fn trim_chars(s: &[char]) -> (out: Vec<char>)
    ensures
        out@ == trim(s@),
{
    let mut i: usize = 0;
    assert(s@.skip(0) =~= s@);
    while i < s.len() && is_whitespace(s[i])
        invariant
            i <= s.len(),
            trim_start(s@) == trim_start(s@.skip(i as int)),
        decreases s.len() - i,
    {
        assert(s@.skip(i as int).drop_first() =~= s@.skip(i + 1));
        i += 1;
    }
    let ghost mid = s@.skip(i as int);
    assert(trim_start(s@) == mid) by {
        if i == s.len() {
            assert(mid.len() == 0);
        }
    }
    let mut j: usize = s.len();
    while j > i && is_whitespace(s[j - 1])
        invariant
            i <= j <= s.len(),
            mid == s@.skip(i as int),
            trim_end(mid) == trim_end(s@.subrange(i as int, j as int)),
        decreases j,
    {
        assert(s@.subrange(i as int, j as int).drop_last() =~= s@.subrange(i as int, j - 1));
        j -= 1;
    }
    assert(s@.subrange(i as int, s@.len() as int) =~= mid);
    let mut out: Vec<char> = Vec::new();
    let mut k: usize = i;
    while k < j
        invariant
            i <= k <= j <= s.len(),
            out@ == s@.subrange(i as int, k as int),
        decreases j - k,
    {
        out.push(s[k]);
        assert(s@.subrange(i as int, k + 1) =~= s@.subrange(i as int, k as int).push(s@[k as int]));
        k += 1;
    }
    out
}

/// ASCII-lowercased copy of `s`.
pub fn lower_chars(s: &[char]) -> (out: Vec<char>)
    ensures
        out@ == lower(s@),
{
    let mut out: Vec<char> = Vec::new();
    let mut i: usize = 0;
    while i < s.len()
        invariant
            i <= s.len(),
            out@ == lower(s@.take(i as int)),
        decreases s.len() - i,
    {
        out.push(to_ascii_lower_char(s[i]));
        assert(lower(s@.take(i + 1)) =~= lower(s@.take(i as int)).push(ascii_lower(s@[i as int])));
        i += 1;
    }
    assert(s@.take(s@.len() as int) =~= s@);
    out
}

/// Character-wise equality of two character slices.
pub fn chars_eq(a: &[char], b: &[char]) -> (r: bool)
    ensures
        r == (a@ == b@),
{
    if a.len() != b.len() {
        return false;
    }
    let mut i: usize = 0;
    while i < a.len()
        invariant
            i <= a.len() == b.len(),
            forall|k: int| 0 <= k < i ==> a@[k] == b@[k],
        decreases a.len() - i,
    {
        if a[i] != b[i] {
            return false;
        }
        i += 1;
    }
    assert(a@ =~= b@);
    true
}

/// Whether the characters `key` spell the string slice `lit`.
pub fn chars_eq_str(key: &[char], lit: &str) -> (r: bool)
    ensures
        r == (key@ == lit@),
{
    let l = chars_of(lit);
    chars_eq(key, l.as_slice())
}

} // verus!

verus! {

/// `str::split` on one separator character: the pieces between separators
/// (always at least one, possibly empty).
pub open spec fn split_on(s: Seq<char>, sep: char) -> Seq<Seq<char>>
    decreases s.len(),
{
    if s.len() == 0 {
        seq![Seq::<char>::empty()]
    } else {
        let r = split_on(s.drop_last(), sep);
        if s.last() == sep {
            r.push(Seq::<char>::empty())
        } else {
            r.update(r.len() - 1, r.last().push(s.last()))
        }
    }
}

pub proof fn lemma_split_on_nonempty(s: Seq<char>, sep: char)
    ensures
        split_on(s, sep).len() >= 1,
    decreases s.len(),
{
    if s.len() > 0 {
        lemma_split_on_nonempty(s.drop_last(), sep);
    }
}

/// Text without the separator is a single piece.
pub proof fn lemma_split_on_absent(s: Seq<char>, sep: char)
    requires
        forall|i: int| 0 <= i < s.len() ==> s[i] != sep,
    ensures
        split_on(s, sep) == seq![s],
    decreases s.len(),
{
    if s.len() == 0 {
        assert(s =~= Seq::<char>::empty());
        assert(split_on(s, sep) =~= seq![s]);
    } else {
        let p = s.drop_last();
        assert forall|i: int| 0 <= i < p.len() implies p[i] != sep by {
            assert(p[i] == s[i]);
        }
        lemma_split_on_absent(p, sep);
        assert(s[s.len() - 1] != sep);
        assert(p.push(s.last()) =~= s);
        assert(split_on(s, sep) =~= seq![s]);
    }
}

/// `s` without one trailing carriage return, if it has one.
pub open spec fn strip_one_cr(s: Seq<char>) -> Seq<char> {
    if s.len() > 0 && s.last() == '\r' {
        s.drop_last()
    } else {
        s
    }
}

/// `str::lines`: the pieces before each line feed, each without a `\r`
/// right before that line feed, plus the text after the last line feed
/// when it is not empty.
pub open spec fn lines(s: Seq<char>) -> Seq<Seq<char>> {
    let ps = split_on(s, '\n');
    let n = ps.len() - 1;
    Seq::new(n as nat, |i: int| strip_one_cr(ps[i])) + if ps[n].len() > 0 {
        seq![ps[n]]
    } else {
        Seq::<Seq<char>>::empty()
    }
}

pub open spec fn views(v: Seq<Vec<char>>) -> Seq<Seq<char>> {
    v.map_values(|x: Vec<char>| x@)
}

/// The pieces of `s` between occurrences of `sep`.
pub fn split_chars(s: &[char], sep: char) -> (out: Vec<Vec<char>>)
    ensures
        views(out@) == split_on(s@, sep),
{
    let mut pieces: Vec<Vec<char>> = Vec::new();
    let mut cur: Vec<char> = Vec::new();
    let mut i: usize = 0;
    assert(s@.take(0) =~= Seq::<char>::empty());
    assert(views(pieces@).push(cur@) =~= split_on(s@.take(0), sep));
    while i < s.len()
        invariant
            i <= s.len(),
            views(pieces@).push(cur@) == split_on(s@.take(i as int), sep),
        decreases s.len() - i,
    {
        let c = s[i];
        let ghost t = s@.take(i + 1);
        assert(t.drop_last() =~= s@.take(i as int));
        assert(t.last() == c);
        if c == sep {
            let ghost before = views(pieces@);
            let done = cur;
            pieces.push(done);
            cur = Vec::new();
            assert(views(pieces@) =~= before.push(done@));
        } else {
            let ghost before = views(pieces@);
            cur.push(c);
            assert(views(pieces@).push(cur@) =~= before.push(cur@));
        }
        i += 1;
    }
    assert(s@.take(s@.len() as int) =~= s@);
    let ghost before = views(pieces@);
    pieces.push(cur);
    assert(views(pieces@) =~= before.push(cur@));
    pieces
}

/// `str::lines` over characters.
pub fn lines_of(s: &[char]) -> (out: Vec<Vec<char>>)
    ensures
        views(out@) == lines(s@),
{
    let ps = split_chars(s, '\n');
    proof { lemma_split_on_nonempty(s@, '\n'); }
    let n = ps.len() - 1;
    let mut out: Vec<Vec<char>> = Vec::new();
    let mut i: usize = 0;
    while i < n
        invariant
            views(ps@) == split_on(s@, '\n'),
            n == ps@.len() - 1,
            i <= n,
            views(out@) == Seq::new(i as nat, |j: int| strip_one_cr(views(ps@)[j])),
        decreases n - i,
    {
        let p = &ps[i];
        let mut q: Vec<char> = Vec::new();
        let m = if p.len() > 0 && p[p.len() - 1] == '\r' { p.len() - 1 } else { p.len() };
        let mut k: usize = 0;
        while k < m
            invariant
                m <= p@.len(),
                k <= m,
                q@ == p@.take(k as int),
            decreases m - k,
        {
            q.push(p[k]);
            assert(p@.take(k + 1) =~= p@.take(k as int).push(p@[k as int]));
            k += 1;
        }
        proof {
            assert(views(ps@)[i as int] == p@);
            if p@.len() > 0 && p@.last() == '\r' {
                assert(p@.take(m as int) =~= p@.drop_last());
            } else {
                assert(p@.take(m as int) =~= p@);
            }
        }
        let ghost before = views(out@);
        assert(q@ == strip_one_cr(views(ps@)[i as int]));
        out.push(q);
        assert(views(out@) =~= before.push(strip_one_cr(views(ps@)[i as int])));
        assert(views(out@) =~= Seq::new((i + 1) as nat, |j: int| strip_one_cr(views(ps@)[j])));
        i += 1;
    }
    let ghost before = views(out@);
    if ps[n].len() > 0 {
        let last = ps[n].clone();
        out.push(last);
        assert(views(out@) =~= before + seq![views(ps@)[n as int]]);
    } else {
        assert(views(out@) =~= before + Seq::<Seq<char>>::empty());
    }
    out
}

} // verus!

verus! {

/// A `String` of the first `n` characters of `cs`.
pub fn string_of_prefix(cs: &[char], n: usize) -> (out: String)
    requires
        n <= cs@.len(),
    ensures
        out@ == cs@.take(n as int),
{
    let mut out = String::new();
    let mut i: usize = 0;
    while i < n
        invariant
            n <= cs@.len(),
            i <= n,
            out@ == cs@.take(i as int),
        decreases n - i,
    {
        push_char(&mut out, cs[i]);
        assert(cs@.take(i + 1) =~= cs@.take(i as int).push(cs@[i as int]));
        i += 1;
    }
    out
}

} // verus!

verus! {

/// The parts separated by `sep` (`[..].join(sep)`).
pub open spec fn join(parts: Seq<Seq<char>>, sep: Seq<char>) -> Seq<char>
    decreases parts.len(),
{
    if parts.len() == 0 {
        Seq::<char>::empty()
    } else if parts.len() == 1 {
        parts[0]
    } else {
        join(parts.drop_last(), sep) + sep + parts.last()
    }
}

pub open spec fn string_seq_views(v: Seq<String>) -> Seq<Seq<char>> {
    v.map_values(|s: String| s@)
}

/// Owned copy of a string slice.
pub fn owned(s: &str) -> (r: String)
    ensures
        r@ == s@,
{
    s.to_string()
}

/// `parts.join(sep)`.
pub fn join_strings(parts: &Vec<String>, sep: &str) -> (out: String)
    ensures
        out@ == join(string_seq_views(parts@), sep@),
{
    let mut out = String::new();
    let mut i: usize = 0;
    while i < parts.len()
        invariant
            i <= parts@.len(),
            out@ == join(string_seq_views(parts@).take(i as int), sep@),
        decreases parts@.len() - i,
    {
        let ghost pre = string_seq_views(parts@).take(i + 1);
        assert(pre.drop_last() =~= string_seq_views(parts@).take(i as int));
        if i > 0 {
            out.append(sep);
        }
        out.append(parts[i].as_str());
        i += 1;
    }
    assert(string_seq_views(parts@).take(parts@.len() as int) =~= string_seq_views(parts@));
    out
}

} // verus!

verus! {

/// The characters of `s` from `from` up to (not including) `to`.
pub fn sub_chars(s: &[char], from: usize, to: usize) -> (out: Vec<char>)
    requires
        from <= to <= s@.len(),
    ensures
        out@ == s@.subrange(from as int, to as int),
{
    let mut out: Vec<char> = Vec::new();
    let mut k: usize = from;
    while k < to
        invariant
            from <= k <= to <= s@.len(),
            out@ == s@.subrange(from as int, k as int),
        decreases to - k,
    {
        out.push(s[k]);
        assert(s@.subrange(from as int, k + 1) =~= s@.subrange(from as int, k as int).push(s@[k as int]));
        k += 1;
    }
    out
}

/// `j` is the first position of `c` in `s`.
pub open spec fn first_index_of(s: Seq<char>, c: char, j: int) -> bool {
    &&& 0 <= j < s.len()
    &&& s[j] == c
    &&& forall|k: int| 0 <= k < j ==> s[k] != c
}

/// First position of `c` in `s` at or after `from`.
pub fn find_char_from(s: &[char], c: char, from: usize) -> (r: Option<usize>)
    requires
        from <= s@.len(),
    ensures
        match r {
            Some(j) => from <= j < s@.len() && s@[j as int] == c && forall|k: int| from <= k < j ==> s@[k] != c,
            None => forall|k: int| from <= k < s@.len() ==> s@[k] != c,
        },
{
    let mut j: usize = from;
    while j < s.len()
        invariant
            from <= j <= s@.len(),
            forall|k: int| from <= k < j ==> s@[k] != c,
        decreases s@.len() - j,
    {
        if s[j] == c {
            return Some(j);
        }
        j += 1;
    }
    None
}

} // verus!

verus! {

/// Splitting at a separator placed between two texts splits each side.
pub proof fn lemma_split_concat(a: Seq<char>, b: Seq<char>, sep: char)
    ensures
        split_on(a + seq![sep] + b, sep) == split_on(a, sep) + split_on(b, sep),
    decreases b.len(),
{
    if b.len() == 0 {
        assert(a + seq![sep] + b =~= a.push(sep));
        assert((a.push(sep)).drop_last() =~= a);
        assert(b =~= Seq::<char>::empty());
        assert(split_on(a + seq![sep] + b, sep) =~= split_on(a, sep) + split_on(b, sep));
    } else {
        let bp = b.drop_last();
        let c = b.last();
        lemma_split_concat(a, bp, sep);
        lemma_split_on_nonempty(bp, sep);
        lemma_split_on_nonempty(a, sep);
        let s = a + seq![sep] + b;
        assert(s.drop_last() =~= a + seq![sep] + bp);
        assert(s.last() == c);
        let x = split_on(a, sep);
        let y = split_on(bp, sep);
        if c == sep {
            assert(split_on(s, sep) =~= x + y.push(Seq::<char>::empty()));
        } else {
            assert(split_on(s, sep) =~= x + y.update(y.len() - 1, y.last().push(c)));
        }
    }
}

/// Joining pieces that hold no separator and splitting again gives them back.
pub proof fn lemma_split_join(parts: Seq<Seq<char>>, c: char)
    requires
        parts.len() >= 1,
        forall|i: int, j: int| 0 <= i < parts.len() && 0 <= j < parts[i].len() ==> #[trigger] parts[i][j] != c,
    ensures
        split_on(join(parts, seq![c]), c) == parts,
    decreases parts.len(),
{
    lemma_split_on_absent(parts.last(), c);
    if parts.len() == 1 {
        assert(parts =~= seq![parts[0]]);
    } else {
        let pre = parts.drop_last();
        lemma_split_join(pre, c);
        lemma_split_concat(join(pre, seq![c]), parts.last(), c);
        assert(split_on(join(parts, seq![c]), c) =~= pre + seq![parts.last()]);
        assert(pre + seq![parts.last()] =~= parts);
    }
}

/// Lines of a text after a line feed continue the lines before it.
pub proof fn lemma_lines_concat(a: Seq<char>, b: Seq<char>)
    requires
        a.len() > 0,
        a.last() == '\n',
    ensures
        lines(a + b) == lines(a) + lines(b),
{
    let ap = a.drop_last();
    assert(a =~= ap + seq!['\n'] + Seq::<char>::empty());
    assert(a + b =~= ap + seq!['\n'] + b);
    lemma_split_concat(ap, b, '\n');
    lemma_split_concat(ap, Seq::<char>::empty(), '\n');
    lemma_split_on_nonempty(ap, '\n');
    lemma_split_on_nonempty(b, '\n');
    let x = split_on(ap, '\n');
    let y = split_on(b, '\n');
    assert(split_on(Seq::<char>::empty(), '\n') =~= seq![Seq::<char>::empty()]);
    assert(lines(a) =~= Seq::new(x.len(), |i: int| strip_one_cr(x[i])));
    assert(lines(a + b) =~= lines(a) + lines(b));
}

/// The lines of pieces joined by line feeds: the pieces, each but the last
/// without one trailing carriage return.
pub proof fn lemma_lines_join(parts: Seq<Seq<char>>)
    requires
        parts.len() >= 1,
        parts.last().len() > 0,
        forall|i: int, j: int| 0 <= i < parts.len() && 0 <= j < parts[i].len() ==> #[trigger] parts[i][j] != '\n',
    ensures
        lines(join(parts, seq!['\n'])) == Seq::new(parts.len(), |i: int| if i + 1 < parts.len() { strip_one_cr(parts[i]) } else { parts[i] }),
{
    lemma_split_join(parts, '\n');
    assert(lines(join(parts, seq!['\n'])) =~= Seq::new(parts.len(), |i: int| if i + 1 < parts.len() { strip_one_cr(parts[i]) } else { parts[i] }));
}

/// Leading white space does not survive trimming.
pub proof fn lemma_trim_leading_ws(c: char, x: Seq<char>)
    requires
        is_ws(c),
    ensures
        trim(seq![c] + x) == trim(x),
{
    assert((seq![c] + x).drop_first() =~= x);
}

/// `trim_start` removes a prefix: what remains is a suffix.
pub proof fn lemma_trim_start_suffix(x: Seq<char>) -> (k: int)
    ensures
        0 <= k <= x.len(),
        trim_start(x) == x.skip(k),
        forall|i: int| 0 <= i < k ==> is_ws(#[trigger] x[i]),
        k < x.len() ==> !is_ws(x[k]),
    decreases x.len(),
{
    if x.len() > 0 && is_ws(x[0]) {
        let k = lemma_trim_start_suffix(x.drop_first());
        assert(x.drop_first().skip(k) =~= x.skip(k + 1));
        assert forall|i: int| 0 <= i < k + 1 implies is_ws(#[trigger] x[i]) by {
            if i > 0 {
                assert(x[i] == x.drop_first()[i - 1]);
            }
        }
        k + 1
    } else {
        assert(x.skip(0) =~= x);
        0
    }
}

/// A trailing white-space character does not survive trimming.
pub proof fn lemma_trim_drop_trailing_ws(x: Seq<char>)
    requires
        x.len() > 0,
        is_ws(x.last()),
    ensures
        trim(x.drop_last()) == trim(x),
{
    let k = lemma_trim_start_suffix(x);
    let k2 = lemma_trim_start_suffix(x.drop_last());
    if k == x.len() {
        assert forall|i: int| 0 <= i < x.drop_last().len() implies is_ws(#[trigger] x.drop_last()[i]) by {
            assert(x.drop_last()[i] == x[i]);
        }
        if k2 < x.drop_last().len() {
            assert(x.drop_last()[k2] == x[k2]);
        }
        assert(trim_start(x.drop_last()).len() == 0);
        assert(trim_start(x).len() == 0);
    } else {
        assert(k < x.len() - 1) by {
            if k == x.len() - 1 {
                assert(!is_ws(x[k]));
            }
        }
        assert(k2 == k) by {
            if k2 < k {
                assert(x.drop_last()[k2] == x[k2]);
            } else if k2 > k {
                assert(x.drop_last()[k] == x[k]);
            }
        }
        let y = trim_start(x);
        assert(trim_start(x.drop_last()) =~= y.drop_last());
        assert(y.len() > 0 && y.last() == x.last());
    }
}

/// Text that starts and ends with visible characters is its own trim.
pub proof fn lemma_trim_visible(x: Seq<char>)
    requires
        x.len() > 0,
        !is_ws(x[0]),
        !is_ws(x.last()),
    ensures
        trim(x) == x,
{
}

} // verus!

verus! {

/// `trim_end` removes a suffix: what remains is a prefix.
pub proof fn lemma_trim_end_prefix(x: Seq<char>) -> (m: int)
    ensures
        0 <= m <= x.len(),
        trim_end(x) == x.take(m),
    decreases x.len(),
{
    if x.len() > 0 && is_ws(x.last()) {
        let m = lemma_trim_end_prefix(x.drop_last());
        assert(x.drop_last().take(m) =~= x.take(m));
        m
    } else {
        assert(x.take(x.len() as int) =~= x);
        x.len() as int
    }
}

/// Trimming keeps a character out when it was out.
pub proof fn lemma_trim_lacks(x: Seq<char>, c: char)
    requires
        forall|i: int| 0 <= i < x.len() ==> x[i] != c,
    ensures
        forall|i: int| 0 <= i < trim(x).len() ==> trim(x)[i] != c,
{
    let k = lemma_trim_start_suffix(x);
    let y = trim_start(x);
    let m = lemma_trim_end_prefix(y);
    assert forall|i: int| 0 <= i < trim(x).len() implies trim(x)[i] != c by {
        assert(trim(x)[i] == y[i]);
        assert(y[i] == x[i + k]);
    }
}

/// No piece of a split holds the separator.
pub proof fn lemma_split_pieces_lack(s: Seq<char>, sep: char)
    ensures
        forall|i: int, j: int| 0 <= i < split_on(s, sep).len() && 0 <= j < split_on(s, sep)[i].len()
            ==> #[trigger] split_on(s, sep)[i][j] != sep,
    decreases s.len(),
{
    lemma_split_on_nonempty(s, sep);
    if s.len() > 0 {
        let r = split_on(s.drop_last(), sep);
        lemma_split_pieces_lack(s.drop_last(), sep);
        lemma_split_on_nonempty(s.drop_last(), sep);
        let ps = split_on(s, sep);
        assert forall|i: int, j: int| 0 <= i < ps.len() && 0 <= j < ps[i].len() implies #[trigger] ps[i][j] != sep by {
            if s.last() == sep {
                if i < r.len() {
                    assert(ps[i] == r[i]);
                }
            } else {
                if i < r.len() - 1 {
                    assert(ps[i] == r[i]);
                } else {
                    assert(ps[i] == r.last().push(s.last()));
                    if j < r.last().len() {
                        assert(ps[i][j] == r[r.len() - 1][j]);
                    }
                }
            }
        }
    }
}

/// No line holds a line feed.
pub proof fn lemma_lines_lack_newline(s: Seq<char>)
    ensures
        forall|i: int, j: int| 0 <= i < lines(s).len() && 0 <= j < lines(s)[i].len() ==> #[trigger] lines(s)[i][j] != '\n',
{
    lemma_split_pieces_lack(s, '\n');
    lemma_split_on_nonempty(s, '\n');
    let ps = split_on(s, '\n');
    let ls = lines(s);
    assert forall|i: int, j: int| 0 <= i < ls.len() && 0 <= j < ls[i].len() implies #[trigger] ls[i][j] != '\n' by {
        if i < ps.len() - 1 {
            assert(ls[i] == strip_one_cr(ps[i]));
            assert(ls[i][j] == ps[i][j]);
        } else {
            assert(ls[i] == ps[ps.len() - 1]);
        }
    }
}

} // verus!
