//! Text-recognition rules: recognizer choice per source language, script
//! sniffing, greedy CTC collapsing and the recognizer charset layout.

use vstd::prelude::*;
use vstd::string::StringExecFns;
use crate::text::{chars_of, chars_eq_str, trim_chars, lower_chars, push_char, string_of_prefix, lines_of, lines, views, lower, trim};

verus! {

#[derive(Debug, Clone, Copy, PartialEq, Eq, Structural)]
pub enum OcrLang {
    /// Mixed simplified-Chinese/English/Japanese/Korean recognizer.
    Mixed,
    En,
    Ko,
    /// Japanese-only recognizer.
    Japan,
    /// Traditional Chinese recognizer.
    ChineseCht,
    /// Latin-script languages.
    Latin,
    /// Cyrillic-script languages.
    Cyrillic,
    Arabic,
    Devanagari,
    /// Greek (OCR-only).
    El,
    /// Spanish+Slavic composite recognizer.
    Eslav,
    Ta,
    Te,
    Th,
    /// Kannada (OCR-only).
    Ka,
}

/// Registry id of the recognizer that reads a script family. The registry
/// ships three recognizer packs: the mixed Chinese/Japanese/Korean/English
/// one, the English one and the Korean one. Japanese and Chinese (simplified
/// and traditional) share the mixed pack, Latin-script text is read by the
/// English pack, and the other families fall back to the mixed pack.
pub open spec fn spec_rec_spec_id(l: OcrLang) -> Seq<char> {
    match l {
        OcrLang::En => "rec_en"@,
        OcrLang::Latin => "rec_en"@,
        OcrLang::Ko => "rec_ko"@,
        _ => "rec_mixed"@,
    }
}

/// Recognizer for a normalized (trimmed, lower-case) language code.
pub open spec fn recognizer_for_key(k: Seq<char>) -> OcrLang {
    if k == "zh"@ {
        OcrLang::Mixed
    } else if k == "zh-hant"@ || k == "zh-tw"@ || k == "zh-hk"@ {
        OcrLang::ChineseCht
    } else if k == "yue"@ {
        OcrLang::Mixed
    } else if k == "ja"@ {
        OcrLang::Japan
    } else if k == "ko"@ {
        OcrLang::Ko
    } else if k == "en"@ {
        OcrLang::En
    } else if k == "fr"@ || k == "de"@ || k == "es"@ || k == "pt"@ || k == "it"@ || k == "nl"@
        || k == "pl"@ || k == "cs"@ || k == "vi"@ || k == "tr"@ || k == "id"@ || k == "ms"@
        || k == "tl"@ {
        OcrLang::Latin
    } else if k == "ru"@ || k == "uk"@ || k == "kk"@ || k == "mn"@ || k == "ug"@ {
        OcrLang::Cyrillic
    } else if k == "ar"@ || k == "fa"@ || k == "ur"@ || k == "he"@ {
        OcrLang::Arabic
    } else if k == "hi"@ || k == "mr"@ || k == "gu"@ || k == "bn"@ {
        OcrLang::Devanagari
    } else if k == "ta"@ {
        OcrLang::Ta
    } else if k == "te"@ {
        OcrLang::Te
    } else if k == "th"@ {
        OcrLang::Th
    } else if k == "el"@ {
        OcrLang::El
    } else {
        OcrLang::Mixed
    }
}

/// Recognizer for a project source language code.
pub open spec fn spec_for_source(code: Seq<char>) -> OcrLang {
    recognizer_for_key(lower(trim(code)))
}

/// The project source languages written in Latin script.
pub open spec fn is_latin_source_code(k: Seq<char>) -> bool {
    k == "fr"@ || k == "de"@ || k == "es"@ || k == "pt"@ || k == "it"@ || k == "nl"@ || k == "pl"@ || k == "cs"@ || k == "vi"@ || k == "tr"@ || k == "id"@ || k == "ms"@ || k == "tl"@
}

/// A project in a Latin-script language (code trimmed, ASCII case ignored)
/// is read by the Latin recognizer family, whose pack is the English one.
pub proof fn law_latin_sources_use_latin(code: Seq<char>)
    requires
        is_latin_source_code(lower(trim(code))),
    ensures
        spec_for_source(code) == OcrLang::Latin,
        spec_rec_spec_id(spec_for_source(code)) == "rec_en"@,
{
    reveal_strlit("zh");
    reveal_strlit("zh-hant");
    reveal_strlit("zh-tw");
    reveal_strlit("zh-hk");
    reveal_strlit("yue");
    reveal_strlit("ja");
    reveal_strlit("ko");
    reveal_strlit("en");
    reveal_strlit("fr");
    reveal_strlit("de");
    reveal_strlit("es");
    reveal_strlit("pt");
    reveal_strlit("it");
    reveal_strlit("nl");
    reveal_strlit("pl");
    reveal_strlit("cs");
    reveal_strlit("vi");
    reveal_strlit("tr");
    reveal_strlit("id");
    reveal_strlit("ms");
    reveal_strlit("tl");
    let k = lower(trim(code));
    if k == "fr"@ {
        assert(k.len() == 2 && k[0] == 'f' && k[1] == 'r');
        assert(recognizer_for_key(k) == OcrLang::Latin);
    } else if k == "de"@ {
        assert(k.len() == 2 && k[0] == 'd' && k[1] == 'e');
        assert(recognizer_for_key(k) == OcrLang::Latin);
    } else if k == "es"@ {
        assert(k.len() == 2 && k[0] == 'e' && k[1] == 's');
        assert(recognizer_for_key(k) == OcrLang::Latin);
    } else if k == "pt"@ {
        assert(k.len() == 2 && k[0] == 'p' && k[1] == 't');
        assert(recognizer_for_key(k) == OcrLang::Latin);
    } else if k == "it"@ {
        assert(k.len() == 2 && k[0] == 'i' && k[1] == 't');
        assert(recognizer_for_key(k) == OcrLang::Latin);
    } else if k == "nl"@ {
        assert(k.len() == 2 && k[0] == 'n' && k[1] == 'l');
        assert(recognizer_for_key(k) == OcrLang::Latin);
    } else if k == "pl"@ {
        assert(k.len() == 2 && k[0] == 'p' && k[1] == 'l');
        assert(recognizer_for_key(k) == OcrLang::Latin);
    } else if k == "cs"@ {
        assert(k.len() == 2 && k[0] == 'c' && k[1] == 's');
        assert(recognizer_for_key(k) == OcrLang::Latin);
    } else if k == "vi"@ {
        assert(k.len() == 2 && k[0] == 'v' && k[1] == 'i');
        assert(recognizer_for_key(k) == OcrLang::Latin);
    } else if k == "tr"@ {
        assert(k.len() == 2 && k[0] == 't' && k[1] == 'r');
        assert(recognizer_for_key(k) == OcrLang::Latin);
    } else if k == "id"@ {
        assert(k.len() == 2 && k[0] == 'i' && k[1] == 'd');
        assert(recognizer_for_key(k) == OcrLang::Latin);
    } else if k == "ms"@ {
        assert(k.len() == 2 && k[0] == 'm' && k[1] == 's');
        assert(recognizer_for_key(k) == OcrLang::Latin);
    } else if k == "tl"@ {
        assert(k.len() == 2 && k[0] == 't' && k[1] == 'l');
        assert(recognizer_for_key(k) == OcrLang::Latin);
    }
}

fn is_any(k: &[char], a: &str, b: &str, c: &str) -> (r: bool)
    ensures
        r == (k@ == a@ || k@ == b@ || k@ == c@),
{
    chars_eq_str(k, a) || chars_eq_str(k, b) || chars_eq_str(k, c)
}

impl OcrLang {
    /// Model registry spec id of the recognizer that reads this script
    /// family (see [`spec_rec_spec_id`]).
    pub fn rec_spec_id(&self) -> (s: &'static str)
        ensures
            s@ == spec_rec_spec_id(*self),
    {
        match self {
            OcrLang::En | OcrLang::Latin => "rec_en",
            OcrLang::Ko => "rec_ko",
            _ => "rec_mixed",
        }
    }

    /// Picks the recognizer script family for a project source language;
    /// codes without a dedicated recognizer fall back to the mixed model.
    pub fn for_source(code: &str) -> (l: OcrLang)
        ensures
            l == spec_for_source(code@),
    {
        let raw = chars_of(code);
        let t = trim_chars(raw.as_slice());
        let kv = lower_chars(t.as_slice());
        let k = kv.as_slice();
        if chars_eq_str(k, "zh") {
            OcrLang::Mixed
        } else if is_any(k, "zh-hant", "zh-tw", "zh-hk") {
            OcrLang::ChineseCht
        } else if chars_eq_str(k, "yue") {
            OcrLang::Mixed
        } else if chars_eq_str(k, "ja") {
            OcrLang::Japan
        } else if chars_eq_str(k, "ko") {
            OcrLang::Ko
        } else if chars_eq_str(k, "en") {
            OcrLang::En
        } else if is_any(k, "fr", "de", "es") || is_any(k, "pt", "it", "nl") || is_any(k, "pl", "cs", "vi")
            || is_any(k, "tr", "id", "ms") || chars_eq_str(k, "tl") {
            OcrLang::Latin
        } else if is_any(k, "ru", "uk", "kk") || chars_eq_str(k, "mn") || chars_eq_str(k, "ug") {
            OcrLang::Cyrillic
        } else if chars_eq_str(k, "ar") || is_any(k, "fa", "ur", "he") {
            OcrLang::Arabic
        } else if is_any(k, "hi", "mr", "gu") || chars_eq_str(k, "bn") {
            OcrLang::Devanagari
        } else if chars_eq_str(k, "ta") {
            OcrLang::Ta
        } else if chars_eq_str(k, "te") {
            OcrLang::Te
        } else if chars_eq_str(k, "th") {
            OcrLang::Th
        } else if chars_eq_str(k, "el") {
            OcrLang::El
        } else {
            OcrLang::Mixed
        }
    }
}

/// Script class of a character: 0 hangul syllable, 1 kana, 2 han
/// ideograph, 3 ASCII letter, 4 anything else.
pub open spec fn script_class(c: char) -> int {
    let u = c as u32;
    if 0xAC00 <= u <= 0xD7AF {
        0
    } else if 0x3040 <= u <= 0x30FF {
        1
    } else if (0x4E00 <= u <= 0x9FFF) || (0x3400 <= u <= 0x4DBF) {
        2
    } else if ('A' <= c && c <= 'Z') || ('a' <= c && c <= 'z') {
        3
    } else {
        4
    }
}

/// Number of characters of `s` in script class `k`.
pub open spec fn count_class(s: Seq<char>, k: int) -> nat
    decreases s.len(),
{
    if s.len() == 0 {
        0
    } else {
        count_class(s.drop_last(), k) + if script_class(s.last()) == k {
            1nat
        } else {
            0nat
        }
    }
}

proof fn lemma_count_le_len(s: Seq<char>, k: int)
    ensures
        count_class(s, k) <= s.len(),
    decreases s.len(),
{
    if s.len() > 0 {
        lemma_count_le_len(s.drop_last(), k);
    }
}

/// The language a text looks like: none without any counted letters; else
/// the script with most characters, hangul first, then kana; ASCII letters
/// count as English only when they outnumber han ideographs.
pub open spec fn spec_sniff_lang(text: Seq<char>) -> Option<OcrLang> {
    let hangul = count_class(text, 0);
    let kana = count_class(text, 1);
    let han = count_class(text, 2);
    let latin = count_class(text, 3);
    let m1 = if hangul >= kana { hangul } else { kana };
    let m2 = if m1 >= han { m1 } else { han };
    let max = if m2 >= latin { m2 } else { latin };
    if max == 0 {
        None
    } else if max == hangul {
        Some(OcrLang::Ko)
    } else if max == kana {
        Some(OcrLang::Japan)
    } else if max == latin && latin > han {
        Some(OcrLang::En)
    } else {
        Some(OcrLang::Mixed)
    }
}

proof fn lemma_count_uniform(s: Seq<char>, k: int)
    requires
        forall|i: int| 0 <= i < s.len() ==> script_class(#[trigger] s[i]) == k,
    ensures
        count_class(s, k) == s.len(),
        forall|j: int| j != k ==> #[trigger] count_class(s, j) == 0,
    decreases s.len(),
{
    if s.len() > 0 {
        let p = s.drop_last();
        assert forall|i: int| 0 <= i < p.len() implies script_class(#[trigger] p[i]) == k by {
            assert(p[i] == s[i]);
        }
        lemma_count_uniform(p, k);
        assert(script_class(s.last()) == k);
        assert forall|j: int| j != k implies #[trigger] count_class(s, j) == 0 by {
            assert(count_class(p, j) == 0);
        }
    } else {
        assert forall|j: int| j != k implies #[trigger] count_class(s, j) == 0 by {}
    }
}

/// Text made only of kana (hiragana and katakana, U+3040..=U+30FF) sniffs
/// as Japanese.
pub proof fn law_kana_text_is_japanese(text: Seq<char>)
    requires
        text.len() > 0,
        forall|i: int| 0 <= i < text.len() ==> 0x3040 <= (#[trigger] text[i]) as u32 && (text[i] as u32) <= 0x30FF,
    ensures
        spec_sniff_lang(text) == Some(OcrLang::Japan),
{
    lemma_count_uniform(text, 1);
    assert(count_class(text, 0) == 0);
    assert(count_class(text, 2) == 0);
    assert(count_class(text, 3) == 0);
}

/// Text made only of hangul syllables (U+AC00..=U+D7AF) sniffs as Korean.
pub proof fn law_hangul_text_is_korean(text: Seq<char>)
    requires
        text.len() > 0,
        forall|i: int| 0 <= i < text.len() ==> 0xAC00 <= (#[trigger] text[i]) as u32 && (text[i] as u32) <= 0xD7AF,
    ensures
        spec_sniff_lang(text) == Some(OcrLang::Ko),
{
    lemma_count_uniform(text, 0);
    assert(count_class(text, 1) == 0);
    assert(count_class(text, 2) == 0);
    assert(count_class(text, 3) == 0);
}

/// Text made only of han ideographs (U+4E00..=U+9FFF, U+3400..=U+4DBF)
/// sniffs as the mixed Chinese recognizer's family.
pub proof fn law_han_text_is_mixed(text: Seq<char>)
    requires
        text.len() > 0,
        forall|i: int| 0 <= i < text.len() ==> {
            let u = (#[trigger] text[i]) as u32;
            (0x4E00 <= u && u <= 0x9FFF) || (0x3400 <= u && u <= 0x4DBF)
        },
    ensures
        spec_sniff_lang(text) == Some(OcrLang::Mixed),
{
    lemma_count_uniform(text, 2);
    assert(count_class(text, 0) == 0);
    assert(count_class(text, 1) == 0);
    assert(count_class(text, 3) == 0);
}

/// Text made only of ASCII letters sniffs as English.
pub proof fn law_ascii_letters_are_english(text: Seq<char>)
    requires
        text.len() > 0,
        forall|i: int| 0 <= i < text.len() ==> ('A' <= #[trigger] text[i] && text[i] <= 'Z') || ('a' <= text[i] && text[i] <= 'z'),
    ensures
        spec_sniff_lang(text) == Some(OcrLang::En),
{
    lemma_count_uniform(text, 3);
    assert(count_class(text, 0) == 0);
    assert(count_class(text, 1) == 0);
    assert(count_class(text, 2) == 0);
}

/// Text without any hangul, kana, han or ASCII letter sniffs as nothing.
pub proof fn law_no_letters_sniff_nothing(text: Seq<char>)
    requires
        forall|i: int| 0 <= i < text.len() ==> {
            let u = (#[trigger] text[i]) as u32;
            &&& !(0xAC00 <= u && u <= 0xD7AF)
            &&& !(0x3040 <= u && u <= 0x30FF)
            &&& !((0x4E00 <= u && u <= 0x9FFF) || (0x3400 <= u && u <= 0x4DBF))
            &&& !(('A' <= text[i] && text[i] <= 'Z') || ('a' <= text[i] && text[i] <= 'z'))
        },
    ensures
        spec_sniff_lang(text) == None::<OcrLang>,
{
    lemma_count_uniform(text, 4);
    assert(count_class(text, 0) == 0);
    assert(count_class(text, 1) == 0);
    assert(count_class(text, 2) == 0);
    assert(count_class(text, 3) == 0);
}

fn class_of(c: char) -> (k: u8)
    ensures
        k as int == script_class(c),
{
    let u = c as u32;
    if 0xAC00 <= u && u <= 0xD7AF {
        0
    } else if 0x3040 <= u && u <= 0x30FF {
        1
    } else if (0x4E00 <= u && u <= 0x9FFF) || (0x3400 <= u && u <= 0x4DBF) {
        2
    } else if ('A' <= c && c <= 'Z') || ('a' <= c && c <= 'z') {
        3
    } else {
        4
    }
}

/// Quick script sniff over recognized text, used to correct a wrong source
/// language guess.
pub fn sniff_lang(text: &str) -> (r: Option<OcrLang>)
    ensures
        r == spec_sniff_lang(text@),
{
    let cs = chars_of(text);
    let mut hangul: usize = 0;
    let mut kana: usize = 0;
    let mut han: usize = 0;
    let mut latin: usize = 0;
    let mut i: usize = 0;
    while i < cs.len()
        invariant
            cs@ == text@,
            i <= cs@.len(),
            hangul == count_class(cs@.take(i as int), 0),
            kana == count_class(cs@.take(i as int), 1),
            han == count_class(cs@.take(i as int), 2),
            latin == count_class(cs@.take(i as int), 3),
        decreases cs@.len() - i,
    {
        proof {
            assert(cs@.take(i + 1).drop_last() =~= cs@.take(i as int));
            lemma_count_le_len(cs@.take(i as int), 0);
            lemma_count_le_len(cs@.take(i as int), 1);
            lemma_count_le_len(cs@.take(i as int), 2);
            lemma_count_le_len(cs@.take(i as int), 3);
        }
        let k = class_of(cs[i]);
        if k == 0 {
            hangul += 1;
        } else if k == 1 {
            kana += 1;
        } else if k == 2 {
            han += 1;
        } else if k == 3 {
            latin += 1;
        }
        i += 1;
    }
    assert(cs@.take(cs@.len() as int) =~= cs@);
    let m1 = if hangul >= kana { hangul } else { kana };
    let m2 = if m1 >= han { m1 } else { han };
    let max = if m2 >= latin { m2 } else { latin };
    if max == 0 {
        return None;
    }
    Some(if max == hangul {
        OcrLang::Ko
    } else if max == kana {
        OcrLang::Japan
    } else if max == latin && latin > han {
        OcrLang::En
    } else {
        OcrLang::Mixed
    })
}

/// Whether greedy CTC emits a symbol at frame `t`: the frame's best class is
/// not the blank, differs from the previous frame's best class (the blank
/// before the first frame), and has a label.
pub open spec fn ctc_emits(best: Seq<usize>, blank: usize, n_labels: int, t: int) -> bool {
    let prev = if t == 0 {
        blank
    } else {
        best[t - 1]
    };
    &&& best[t] != blank
    &&& best[t] != prev
    &&& best[t] < n_labels
}

/// Frames at which greedy CTC emits, in order.
pub open spec fn ctc_frames(best: Seq<usize>, blank: usize, n_labels: int) -> Seq<usize>
    decreases best.len(),
{
    if best.len() == 0 {
        Seq::<usize>::empty()
    } else {
        let t = best.len() - 1;
        let r = ctc_frames(best.drop_last(), blank, n_labels);
        if ctc_emits(best, blank, n_labels, t) {
            r.push(t as usize)
        } else {
            r
        }
    }
}

/// Text that greedy CTC decodes: the labels of the emitted frames' classes.
pub open spec fn ctc_text(best: Seq<usize>, blank: usize, labels: Seq<Seq<char>>) -> Seq<char>
    decreases best.len(),
{
    if best.len() == 0 {
        Seq::<char>::empty()
    } else {
        let t = best.len() - 1;
        let r = ctc_text(best.drop_last(), blank, labels);
        if ctc_emits(best, blank, labels.len() as int, t) {
            r + labels[best[t] as int]
        } else {
            r
        }
    }
}

/// Greedy CTC emits one symbol per run: a frame is emitted exactly when
/// its class is not the blank, has a label and starts a run (the frame
/// before it, if any, holds another class). Emitted frames come in order.
pub proof fn law_ctc_one_symbol_per_run(best: Seq<usize>, blank: usize, n: int)
    requires
        best.len() <= usize::MAX,
    ensures
        forall|i: int| 0 <= i < ctc_frames(best, blank, n).len() ==> {
            let t = #[trigger] ctc_frames(best, blank, n)[i] as int;
            &&& 0 <= t < best.len()
            &&& best[t] != blank
            &&& best[t] < n
            &&& (t == 0 || best[t - 1] != best[t])
        },
        forall|t: int| 0 <= t < best.len() && #[trigger] best[t] != blank && best[t] < n && (t == 0 || best[t - 1] != best[t])
            ==> ctc_frames(best, blank, n).contains(t as usize),
        forall|i: int, j: int| 0 <= i < j < ctc_frames(best, blank, n).len()
            ==> #[trigger] ctc_frames(best, blank, n)[i] < #[trigger] ctc_frames(best, blank, n)[j],
    decreases best.len(),
{
    let f = ctc_frames(best, blank, n);
    if best.len() > 0 {
        let p = best.drop_last();
        let fp = ctc_frames(p, blank, n);
        let last = best.len() - 1;
        law_ctc_one_symbol_per_run(p, blank, n);
        assert forall|t: int| 0 <= t < p.len() implies #[trigger] p[t] == best[t] by {}
        if ctc_emits(best, blank, n, last) {
            assert(f == fp.push(last as usize));
        } else {
            assert(f == fp);
        }
        assert forall|i: int| 0 <= i < f.len() implies {
            let t = #[trigger] f[i] as int;
            &&& 0 <= t < best.len()
            &&& best[t] != blank
            &&& best[t] < n
            &&& (t == 0 || best[t - 1] != best[t])
        } by {
            if i < fp.len() {
                assert(f[i] == fp[i]);
                let t = fp[i] as int;
                assert(p[t] == best[t]);
                if t > 0 {
                    assert(p[t - 1] == best[t - 1]);
                }
            }
        }
        assert forall|t: int| 0 <= t < best.len() && #[trigger] best[t] != blank && best[t] < n && (t == 0 || best[t - 1] != best[t])
            implies f.contains(t as usize) by {
            if t < last {
                assert(p[t] == best[t]);
                if t > 0 {
                    assert(p[t - 1] == best[t - 1]);
                }
                assert(p[t] != blank);
                assert(fp.contains(t as usize));
                let w = choose|w: int| 0 <= w < fp.len() && fp[w] == t as usize;
                assert(f[w] == fp[w]);
            } else {
                assert(ctc_emits(best, blank, n, last));
                assert(f[f.len() - 1] == t as usize);
            }
        }
        assert forall|i: int, j: int| 0 <= i < j < f.len() implies #[trigger] f[i] < #[trigger] f[j] by {
            if j < fp.len() {
                assert(f[i] == fp[i] && f[j] == fp[j]);
            } else {
                assert(f[i] == fp[i]);
                assert(fp[i] < p.len());
            }
        }
    }
}

/// Labels of the classes at the given frames, run together.
pub open spec fn labels_at(best: Seq<usize>, frames: Seq<usize>, labels: Seq<Seq<char>>) -> Seq<char>
    decreases frames.len(),
{
    if frames.len() == 0 {
        Seq::<char>::empty()
    } else {
        labels_at(best, frames.drop_last(), labels) + labels[best[frames.last() as int] as int]
    }
}

proof fn lemma_labels_at_prefix(best: Seq<usize>, k: int, frames: Seq<usize>, labels: Seq<Seq<char>>)
    requires
        0 <= k <= best.len(),
        forall|i: int| 0 <= i < frames.len() ==> (#[trigger] frames[i]) < k,
    ensures
        labels_at(best.take(k), frames, labels) == labels_at(best, frames, labels),
    decreases frames.len(),
{
    if frames.len() > 0 {
        lemma_labels_at_prefix(best, k, frames.drop_last(), labels);
        assert(frames[frames.len() - 1] < k);
        assert(best.take(k)[frames.last() as int] == best[frames.last() as int]);
    }
}

/// The decoded text is the labels of the emitted frames' classes, in order
/// and once each.
pub proof fn law_ctc_text_is_emitted_labels(best: Seq<usize>, blank: usize, labels: Seq<Seq<char>>)
    requires
        best.len() <= usize::MAX,
    ensures
        ctc_text(best, blank, labels) == labels_at(best, ctc_frames(best, blank, labels.len() as int), labels),
    decreases best.len(),
{
    let n = labels.len() as int;
    if best.len() > 0 {
        let p = best.drop_last();
        law_ctc_text_is_emitted_labels(p, blank, labels);
        law_ctc_one_symbol_per_run(p, blank, n);
        let fp = ctc_frames(p, blank, n);
        assert(p == best.take(p.len() as int));
        lemma_labels_at_prefix(best, p.len() as int, fp, labels);
        let last = best.len() - 1;
        if ctc_emits(best, blank, n, last) {
            let f = fp.push(last as usize);
            assert(f.drop_last() =~= fp);
        }
    }
}

pub open spec fn label_views(charset: Seq<&str>) -> Seq<Seq<char>> {
    charset.map_values(|s: &str| s@)
}

/// Greedy CTC collapse over the best class of each frame: repeated classes
/// collapse, blanks separate repeats and are dropped, classes without a
/// label are skipped. Returns the decoded text and the emitting frames.
pub fn ctc_collapse(best: &[usize], blank: usize, charset: &[&str]) -> (r: (String, Vec<usize>))
    ensures
        r.0@ == ctc_text(best@, blank, label_views(charset@)),
        r.1@ == ctc_frames(best@, blank, charset@.len() as int),
{
    let ghost labels = label_views(charset@);
    let mut text = String::new();
    let mut frames: Vec<usize> = Vec::new();
    let mut prev = blank;
    let mut t: usize = 0;
    assert(best@.take(0) =~= Seq::<usize>::empty());
    while t < best.len()
        invariant
            t <= best@.len(),
            labels == label_views(charset@),
            prev == if t == 0 { blank } else { best@[t - 1] },
            text@ == ctc_text(best@.take(t as int), blank, labels),
            frames@ == ctc_frames(best@.take(t as int), blank, charset@.len() as int),
        decreases best@.len() - t,
    {
        let b = best[t];
        let ghost pre = best@.take(t + 1);
        assert(pre.drop_last() =~= best@.take(t as int));
        assert(pre[t as int] == b);
        assert(t > 0 ==> pre[t - 1] == best@[t - 1]);
        if b != blank && b != prev && b < charset.len() {
            text.append(charset[b]);
            frames.push(t);
        }
        prev = b;
        t += 1;
    }
    assert(best@.take(best@.len() as int) =~= best@);
    (text, frames)
}

/// A dictionary line with its trailing carriage returns removed.
pub open spec fn strip_crs(s: Seq<char>) -> Seq<char>
    decreases s.len(),
{
    if s.len() > 0 && s.last() == '\r' {
        strip_crs(s.drop_last())
    } else {
        s
    }
}

/// Borrowed views of the charset entries, in order, for [`ctc_collapse`].
pub fn charset_refs(c: &[String]) -> (r: Vec<&str>)
    ensures
        r@.len() == c@.len(),
        forall|i: int| 0 <= i < c@.len() ==> (#[trigger] r@[i])@ == c@[i]@,
{
    let mut r: Vec<&str> = Vec::new();
    let mut i: usize = 0;
    while i < c.len()
        invariant
            i <= c@.len(),
            r@.len() == i,
            forall|j: int| 0 <= j < i ==> (#[trigger] r@[j])@ == c@[j]@,
        decreases c@.len() - i,
    {
        r.push(c[i].as_str());
        i += 1;
    }
    r
}

/// Recognizer charset for a dictionary text: the blank class, every
/// dictionary line (without trailing `\r`), then the space class.
pub open spec fn spec_charset(dict: Seq<char>) -> Seq<Seq<char>> {
    seq![Seq::<char>::empty()] + lines(dict).map_values(|l: Seq<char>| strip_crs(l)) + seq![seq![' ']]
}

pub open spec fn string_views(v: Seq<String>) -> Seq<Seq<char>> {
    v.map_values(|s: String| s@)
}

/// Builds the CTC charset from a recognizer dictionary.
pub fn build_charset(dict: &str) -> (charset: Vec<String>)
    ensures
        string_views(charset@) == spec_charset(dict@),
{
    let dc = chars_of(dict);
    let ls = lines_of(dc.as_slice());
    let mut out: Vec<String> = Vec::new();
    out.push(String::new());
    let mut i: usize = 0;
    while i < ls.len()
        invariant
            dc@ == dict@,
            views(ls@) == lines(dict@),
            i <= ls@.len(),
            string_views(out@) == seq![Seq::<char>::empty()] + lines(dict@).take(i as int).map_values(|l: Seq<char>| strip_crs(l)),
        decreases ls@.len() - i,
    {
        let l = &ls[i];
        let mut m = l.len();
        assert(l@.take(m as int) =~= l@);
        while m > 0 && l[m - 1] == '\r'
            invariant
                m <= l@.len(),
                strip_crs(l@) == strip_crs(l@.take(m as int)),
            decreases m,
        {
            assert(l@.take(m as int).drop_last() =~= l@.take(m - 1));
            m -= 1;
        }
        proof {
            assert(l@.take(l@.len() as int) =~= l@);
        }
        let s = string_of_prefix(l.as_slice(), m);
        let ghost before = string_views(out@);
        out.push(s);
        proof {
            assert(views(ls@)[i as int] == l@);
            assert(l@.take(m as int) == strip_crs(l@.take(m as int)));
            assert(string_views(out@) =~= before.push(s@));
            assert(lines(dict@).take(i + 1) =~= lines(dict@).take(i as int).push(l@));
            assert(string_views(out@) =~= seq![Seq::<char>::empty()] + lines(dict@).take(i + 1).map_values(|l: Seq<char>| strip_crs(l)));
        }
        i += 1;
    }
    let mut space = String::new();
    push_char(&mut space, ' ');
    let ghost before = string_views(out@);
    out.push(space);
    proof {
        assert(lines(dict@).take(ls@.len() as int) =~= lines(dict@));
        assert(string_views(out@) =~= before.push(seq![' ']));
        assert(string_views(out@) =~= spec_charset(dict@));
    }
    out
}

/// Marker type for the fixed-output recognizer used by tests and previews.
pub struct MockOcr;


/// Every script family's recognizer is in the model registry: its id names
/// a registered recognizer (`Rec`) model, so its pack can be downloaded.
pub proof fn law_recognizers_are_registered(l: OcrLang)
    ensures
        exists|i: int| crate::registry::first_with_id(crate::registry::spec_all(), spec_rec_spec_id(l), i)
            && crate::registry::spec_all()[i].role == crate::registry::ModelRole::Rec,
{
    crate::registry::law_ids_are_unique();
    let all = crate::registry::spec_all();
    let i: int = match l {
        OcrLang::En | OcrLang::Latin => 4,
        OcrLang::Ko => 6,
        _ => 2,
    };
    assert(all[i] == crate::registry::spec_ocr_specs()[i]);
    assert(all[i].id@ == spec_rec_spec_id(l));
    assert forall|j: int| 0 <= j < i implies all[j].id@ != spec_rec_spec_id(l) by {
        assert(all[j].id@ != all[i].id@);
    }
    assert(crate::registry::first_with_id(all, spec_rec_spec_id(l), i));
}
} // verus!
