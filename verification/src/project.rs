//! Project bookkeeping: languages, pages, chapters, glossary, pipeline
//! configuration, and the rules of the artifact-version files.

use vstd::prelude::*;
use vstd::string::StringExecFns;
use crate::graph::PipelineGraph;
use crate::sorted_map::SortedMap;
use crate::text::{chars_of, chars_eq_str, trim_chars, lower_chars, string_of, lower, trim, owned};

verus! {

/// A filesystem path (`std::path::PathBuf`), carried opaquely.
#[verifier::external_type_specification]
#[verifier::external_body]
pub struct ExPathBuf(std::path::PathBuf);

/// An I/O failure (`std::io::Error`), carried opaquely.
#[verifier::external_type_specification]
#[verifier::external_body]
pub struct ExIoError(std::io::Error);

/// A JSON failure (`serde_json::Error`), carried opaquely.
#[verifier::external_type_specification]
#[verifier::external_body]
pub struct ExJsonError(serde_json::Error);

/// Newest project schema this library reads and writes.
pub const CURRENT_SCHEMA_VERSION: u32 = 1;

#[derive(Debug)]
pub enum ProjectError {
    Io(std::io::Error),
    Json(serde_json::Error),
    NotAProject(std::path::PathBuf),
    SchemaTooNew { found: u32, supported: u32 },
    PageNotFound(String),
}

/// A language of the project; anything outside the translation model's
/// table is kept as a free code.
#[derive(Debug, Clone, PartialEq, Eq)]
pub enum Lang {
    Zh,
    ZhHant,
    Yue,
    En,
    Ja,
    Ko,
    Fr,
    Pt,
    Es,
    It,
    De,
    Nl,
    Pl,
    Cs,
    Ru,
    Uk,
    Ar,
    He,
    Fa,
    Tr,
    Th,
    Vi,
    Id,
    Ms,
    Tl,
    Hi,
    Bn,
    Ta,
    Te,
    Mr,
    Gu,
    Ur,
    Km,
    My,
    Bo,
    Kk,
    Mn,
    Ug,
    /// Anything outside the translation table (free ISO code).
    Other(String),
}

/// The code written in project files and shown in the UI.
pub open spec fn spec_lang_code(l: Lang) -> Seq<char> {
    match l {
        Lang::Zh => "zh"@,
        Lang::ZhHant => "zh-Hant"@,
        Lang::Yue => "yue"@,
        Lang::En => "en"@,
        Lang::Ja => "ja"@,
        Lang::Ko => "ko"@,
        Lang::Fr => "fr"@,
        Lang::Pt => "pt"@,
        Lang::Es => "es"@,
        Lang::It => "it"@,
        Lang::De => "de"@,
        Lang::Nl => "nl"@,
        Lang::Pl => "pl"@,
        Lang::Cs => "cs"@,
        Lang::Ru => "ru"@,
        Lang::Uk => "uk"@,
        Lang::Ar => "ar"@,
        Lang::He => "he"@,
        Lang::Fa => "fa"@,
        Lang::Tr => "tr"@,
        Lang::Th => "th"@,
        Lang::Vi => "vi"@,
        Lang::Id => "id"@,
        Lang::Ms => "ms"@,
        Lang::Tl => "tl"@,
        Lang::Hi => "hi"@,
        Lang::Bn => "bn"@,
        Lang::Ta => "ta"@,
        Lang::Te => "te"@,
        Lang::Mr => "mr"@,
        Lang::Gu => "gu"@,
        Lang::Ur => "ur"@,
        Lang::Km => "km"@,
        Lang::My => "my"@,
        Lang::Bo => "bo"@,
        Lang::Kk => "kk"@,
        Lang::Mn => "mn"@,
        Lang::Ug => "ug"@,
        Lang::Other(c) => c@,
    }
}

/// The known language for a normalized (trimmed, lower-case) code.
pub open spec fn known_lang(k: Seq<char>) -> Option<Lang> {
    if k == "zh"@ {
        Some(Lang::Zh)
    } else if k == "zh-hant"@ {
        Some(Lang::ZhHant)
    } else if k == "zh-tw"@ {
        Some(Lang::ZhHant)
    } else if k == "zh-hk"@ {
        Some(Lang::ZhHant)
    } else if k == "yue"@ {
        Some(Lang::Yue)
    } else if k == "en"@ {
        Some(Lang::En)
    } else if k == "ja"@ {
        Some(Lang::Ja)
    } else if k == "ko"@ {
        Some(Lang::Ko)
    } else if k == "fr"@ {
        Some(Lang::Fr)
    } else if k == "pt"@ {
        Some(Lang::Pt)
    } else if k == "es"@ {
        Some(Lang::Es)
    } else if k == "it"@ {
        Some(Lang::It)
    } else if k == "de"@ {
        Some(Lang::De)
    } else if k == "nl"@ {
        Some(Lang::Nl)
    } else if k == "pl"@ {
        Some(Lang::Pl)
    } else if k == "cs"@ {
        Some(Lang::Cs)
    } else if k == "ru"@ {
        Some(Lang::Ru)
    } else if k == "uk"@ {
        Some(Lang::Uk)
    } else if k == "ar"@ {
        Some(Lang::Ar)
    } else if k == "he"@ {
        Some(Lang::He)
    } else if k == "fa"@ {
        Some(Lang::Fa)
    } else if k == "tr"@ {
        Some(Lang::Tr)
    } else if k == "th"@ {
        Some(Lang::Th)
    } else if k == "vi"@ {
        Some(Lang::Vi)
    } else if k == "id"@ {
        Some(Lang::Id)
    } else if k == "ms"@ {
        Some(Lang::Ms)
    } else if k == "tl"@ {
        Some(Lang::Tl)
    } else if k == "fil"@ {
        Some(Lang::Tl)
    } else if k == "hi"@ {
        Some(Lang::Hi)
    } else if k == "bn"@ {
        Some(Lang::Bn)
    } else if k == "ta"@ {
        Some(Lang::Ta)
    } else if k == "te"@ {
        Some(Lang::Te)
    } else if k == "mr"@ {
        Some(Lang::Mr)
    } else if k == "gu"@ {
        Some(Lang::Gu)
    } else if k == "ur"@ {
        Some(Lang::Ur)
    } else if k == "km"@ {
        Some(Lang::Km)
    } else if k == "my"@ {
        Some(Lang::My)
    } else if k == "bo"@ {
        Some(Lang::Bo)
    } else if k == "kk"@ {
        Some(Lang::Kk)
    } else if k == "mn"@ {
        Some(Lang::Mn)
    } else if k == "ug"@ {
        Some(Lang::Ug)
    } else {
        None
    }
}

/// Every language the translation model supports, in table order.
pub open spec fn spec_all_supported() -> Seq<Lang> {
    seq![
        Lang::Zh,
        Lang::ZhHant,
        Lang::Yue,
        Lang::En,
        Lang::Ja,
        Lang::Ko,
        Lang::Fr,
        Lang::Pt,
        Lang::Es,
        Lang::It,
        Lang::De,
        Lang::Nl,
        Lang::Pl,
        Lang::Cs,
        Lang::Ru,
        Lang::Uk,
        Lang::Ar,
        Lang::He,
        Lang::Fa,
        Lang::Tr,
        Lang::Th,
        Lang::Vi,
        Lang::Id,
        Lang::Ms,
        Lang::Tl,
        Lang::Hi,
        Lang::Bn,
        Lang::Ta,
        Lang::Te,
        Lang::Mr,
        Lang::Gu,
        Lang::Ur,
        Lang::Km,
        Lang::My,
        Lang::Bo,
        Lang::Kk,
        Lang::Mn,
        Lang::Ug,
    ]
}

fn known_lookup(k: &[char]) -> (r: Option<Lang>)
    ensures
        r == known_lang(k@),
{
    if chars_eq_str(k, "zh") {
        Some(Lang::Zh)
    } else if chars_eq_str(k, "zh-hant") {
        Some(Lang::ZhHant)
    } else if chars_eq_str(k, "zh-tw") {
        Some(Lang::ZhHant)
    } else if chars_eq_str(k, "zh-hk") {
        Some(Lang::ZhHant)
    } else if chars_eq_str(k, "yue") {
        Some(Lang::Yue)
    } else if chars_eq_str(k, "en") {
        Some(Lang::En)
    } else if chars_eq_str(k, "ja") {
        Some(Lang::Ja)
    } else if chars_eq_str(k, "ko") {
        Some(Lang::Ko)
    } else if chars_eq_str(k, "fr") {
        Some(Lang::Fr)
    } else if chars_eq_str(k, "pt") {
        Some(Lang::Pt)
    } else if chars_eq_str(k, "es") {
        Some(Lang::Es)
    } else if chars_eq_str(k, "it") {
        Some(Lang::It)
    } else if chars_eq_str(k, "de") {
        Some(Lang::De)
    } else if chars_eq_str(k, "nl") {
        Some(Lang::Nl)
    } else if chars_eq_str(k, "pl") {
        Some(Lang::Pl)
    } else if chars_eq_str(k, "cs") {
        Some(Lang::Cs)
    } else if chars_eq_str(k, "ru") {
        Some(Lang::Ru)
    } else if chars_eq_str(k, "uk") {
        Some(Lang::Uk)
    } else if chars_eq_str(k, "ar") {
        Some(Lang::Ar)
    } else if chars_eq_str(k, "he") {
        Some(Lang::He)
    } else if chars_eq_str(k, "fa") {
        Some(Lang::Fa)
    } else if chars_eq_str(k, "tr") {
        Some(Lang::Tr)
    } else if chars_eq_str(k, "th") {
        Some(Lang::Th)
    } else if chars_eq_str(k, "vi") {
        Some(Lang::Vi)
    } else if chars_eq_str(k, "id") {
        Some(Lang::Id)
    } else if chars_eq_str(k, "ms") {
        Some(Lang::Ms)
    } else if chars_eq_str(k, "tl") {
        Some(Lang::Tl)
    } else if chars_eq_str(k, "fil") {
        Some(Lang::Tl)
    } else if chars_eq_str(k, "hi") {
        Some(Lang::Hi)
    } else if chars_eq_str(k, "bn") {
        Some(Lang::Bn)
    } else if chars_eq_str(k, "ta") {
        Some(Lang::Ta)
    } else if chars_eq_str(k, "te") {
        Some(Lang::Te)
    } else if chars_eq_str(k, "mr") {
        Some(Lang::Mr)
    } else if chars_eq_str(k, "gu") {
        Some(Lang::Gu)
    } else if chars_eq_str(k, "ur") {
        Some(Lang::Ur)
    } else if chars_eq_str(k, "km") {
        Some(Lang::Km)
    } else if chars_eq_str(k, "my") {
        Some(Lang::My)
    } else if chars_eq_str(k, "bo") {
        Some(Lang::Bo)
    } else if chars_eq_str(k, "kk") {
        Some(Lang::Kk)
    } else if chars_eq_str(k, "mn") {
        Some(Lang::Mn)
    } else if chars_eq_str(k, "ug") {
        Some(Lang::Ug)
    } else {
        None
    }
}

impl Lang {
    /// ISO-ish code used in project files and the UI.
    pub fn code(&self) -> (c: &str)
        ensures
            c@ == spec_lang_code(*self),
    {
        match self {
            Lang::Zh => "zh",
            Lang::ZhHant => "zh-Hant",
            Lang::Yue => "yue",
            Lang::En => "en",
            Lang::Ja => "ja",
            Lang::Ko => "ko",
            Lang::Fr => "fr",
            Lang::Pt => "pt",
            Lang::Es => "es",
            Lang::It => "it",
            Lang::De => "de",
            Lang::Nl => "nl",
            Lang::Pl => "pl",
            Lang::Cs => "cs",
            Lang::Ru => "ru",
            Lang::Uk => "uk",
            Lang::Ar => "ar",
            Lang::He => "he",
            Lang::Fa => "fa",
            Lang::Tr => "tr",
            Lang::Th => "th",
            Lang::Vi => "vi",
            Lang::Id => "id",
            Lang::Ms => "ms",
            Lang::Tl => "tl",
            Lang::Hi => "hi",
            Lang::Bn => "bn",
            Lang::Ta => "ta",
            Lang::Te => "te",
            Lang::Mr => "mr",
            Lang::Gu => "gu",
            Lang::Ur => "ur",
            Lang::Km => "km",
            Lang::My => "my",
            Lang::Bo => "bo",
            Lang::Kk => "kk",
            Lang::Mn => "mn",
            Lang::Ug => "ug",
            Lang::Other(c) => c.as_str(),
        }
    }

    /// Parses an ISO-ish code (trimmed, ASCII case ignored); unknown codes
    /// become `Lang::Other` with the trimmed code.
    pub fn from_code(code: &str) -> (l: Lang)
        ensures
            match known_lang(lower(trim(code@))) {
                Some(k) => l == k,
                None => l matches Lang::Other(c) && c@ == trim(code@),
            },
    {
        let raw = chars_of(code);
        let t = trim_chars(raw.as_slice());
        let k = lower_chars(t.as_slice());
        match known_lookup(k.as_slice()) {
            Some(l) => l,
            None => Lang::Other(string_of(t.as_slice())),
        }
    }

    /// Every language the translation model supports.
    pub fn all_supported() -> (v: Vec<Lang>)
        ensures
            v@ == spec_all_supported(),
    {
        let v = vec![
            Lang::Zh,
            Lang::ZhHant,
            Lang::Yue,
            Lang::En,
            Lang::Ja,
            Lang::Ko,
            Lang::Fr,
            Lang::Pt,
            Lang::Es,
            Lang::It,
            Lang::De,
            Lang::Nl,
            Lang::Pl,
            Lang::Cs,
            Lang::Ru,
            Lang::Uk,
            Lang::Ar,
            Lang::He,
            Lang::Fa,
            Lang::Tr,
            Lang::Th,
            Lang::Vi,
            Lang::Id,
            Lang::Ms,
            Lang::Tl,
            Lang::Hi,
            Lang::Bn,
            Lang::Ta,
            Lang::Te,
            Lang::Mr,
            Lang::Gu,
            Lang::Ur,
            Lang::Km,
            Lang::My,
            Lang::Bo,
            Lang::Kk,
            Lang::Mn,
            Lang::Ug,
        ];
        assert(v@ =~= spec_all_supported());
        v
    }
}

pub proof fn lemma_trim_noop(s: Seq<char>)
    requires
        s.len() > 0,
        !crate::text::is_ws(s[0]),
        !crate::text::is_ws(s.last()),
    ensures
        trim(s) == s,
{
}

pub proof fn lemma_lower_noop(s: Seq<char>)
    requires
        forall|i: int| 0 <= i < s.len() ==> !('A' <= #[trigger] s[i] && s[i] <= 'Z'),
    ensures
        lower(s) == s,
{
    assert(lower(s) =~= s);
}

/// Reading back the code of any supported language gives that language.
pub proof fn law_code_roundtrip(i: int)
    requires
        0 <= i < spec_all_supported().len(),
    ensures
        known_lang(lower(trim(spec_lang_code(spec_all_supported()[i])))) == Some(spec_all_supported()[i]),
{
    reveal_strlit("zh");
    reveal_strlit("zh-Hant");
    reveal_strlit("yue");
    reveal_strlit("en");
    reveal_strlit("ja");
    reveal_strlit("ko");
    reveal_strlit("fr");
    reveal_strlit("pt");
    reveal_strlit("es");
    reveal_strlit("it");
    reveal_strlit("de");
    reveal_strlit("nl");
    reveal_strlit("pl");
    reveal_strlit("cs");
    reveal_strlit("ru");
    reveal_strlit("uk");
    reveal_strlit("ar");
    reveal_strlit("he");
    reveal_strlit("fa");
    reveal_strlit("tr");
    reveal_strlit("th");
    reveal_strlit("vi");
    reveal_strlit("id");
    reveal_strlit("ms");
    reveal_strlit("tl");
    reveal_strlit("hi");
    reveal_strlit("bn");
    reveal_strlit("ta");
    reveal_strlit("te");
    reveal_strlit("mr");
    reveal_strlit("gu");
    reveal_strlit("ur");
    reveal_strlit("km");
    reveal_strlit("my");
    reveal_strlit("bo");
    reveal_strlit("kk");
    reveal_strlit("mn");
    reveal_strlit("ug");
    reveal_strlit("zh-hant");
    reveal_strlit("zh-tw");
    reveal_strlit("zh-hk");
    reveal_strlit("fil");
    if i == 0 {
        lemma_trim_noop("zh"@);
        lemma_lower_noop("zh"@);
        assert(known_lang("zh"@) == Some(Lang::Zh));
    } else if i == 1 {
        lemma_trim_noop("zh-Hant"@);
        assert(lower("zh-Hant"@) =~= "zh-hant"@);
        assert(known_lang("zh-hant"@) == Some(Lang::ZhHant));
    } else if i == 2 {
        lemma_trim_noop("yue"@);
        lemma_lower_noop("yue"@);
        assert(known_lang("yue"@) == Some(Lang::Yue));
    } else if i == 3 {
        lemma_trim_noop("en"@);
        lemma_lower_noop("en"@);
        assert(known_lang("en"@) == Some(Lang::En));
    } else if i == 4 {
        lemma_trim_noop("ja"@);
        lemma_lower_noop("ja"@);
        assert(known_lang("ja"@) == Some(Lang::Ja));
    } else if i == 5 {
        lemma_trim_noop("ko"@);
        lemma_lower_noop("ko"@);
        assert(known_lang("ko"@) == Some(Lang::Ko));
    } else if i == 6 {
        lemma_trim_noop("fr"@);
        lemma_lower_noop("fr"@);
        assert(known_lang("fr"@) == Some(Lang::Fr));
    } else if i == 7 {
        lemma_trim_noop("pt"@);
        lemma_lower_noop("pt"@);
        assert(known_lang("pt"@) == Some(Lang::Pt));
    } else if i == 8 {
        lemma_trim_noop("es"@);
        lemma_lower_noop("es"@);
        assert(known_lang("es"@) == Some(Lang::Es));
    } else if i == 9 {
        lemma_trim_noop("it"@);
        lemma_lower_noop("it"@);
        assert(known_lang("it"@) == Some(Lang::It));
    } else if i == 10 {
        lemma_trim_noop("de"@);
        lemma_lower_noop("de"@);
        assert(known_lang("de"@) == Some(Lang::De));
    } else if i == 11 {
        lemma_trim_noop("nl"@);
        lemma_lower_noop("nl"@);
        assert(known_lang("nl"@) == Some(Lang::Nl));
    } else if i == 12 {
        lemma_trim_noop("pl"@);
        lemma_lower_noop("pl"@);
        assert(known_lang("pl"@) == Some(Lang::Pl));
    } else if i == 13 {
        lemma_trim_noop("cs"@);
        lemma_lower_noop("cs"@);
        assert(known_lang("cs"@) == Some(Lang::Cs));
    } else if i == 14 {
        lemma_trim_noop("ru"@);
        lemma_lower_noop("ru"@);
        assert(known_lang("ru"@) == Some(Lang::Ru));
    } else if i == 15 {
        lemma_trim_noop("uk"@);
        lemma_lower_noop("uk"@);
        assert(known_lang("uk"@) == Some(Lang::Uk));
    } else if i == 16 {
        lemma_trim_noop("ar"@);
        lemma_lower_noop("ar"@);
        assert(known_lang("ar"@) == Some(Lang::Ar));
    } else if i == 17 {
        lemma_trim_noop("he"@);
        lemma_lower_noop("he"@);
        assert(known_lang("he"@) == Some(Lang::He));
    } else if i == 18 {
        lemma_trim_noop("fa"@);
        lemma_lower_noop("fa"@);
        assert(known_lang("fa"@) == Some(Lang::Fa));
    } else if i == 19 {
        lemma_trim_noop("tr"@);
        lemma_lower_noop("tr"@);
        assert(known_lang("tr"@) == Some(Lang::Tr));
    } else if i == 20 {
        lemma_trim_noop("th"@);
        lemma_lower_noop("th"@);
        assert(known_lang("th"@) == Some(Lang::Th));
    } else if i == 21 {
        lemma_trim_noop("vi"@);
        lemma_lower_noop("vi"@);
        assert(known_lang("vi"@) == Some(Lang::Vi));
    } else if i == 22 {
        lemma_trim_noop("id"@);
        lemma_lower_noop("id"@);
        assert(known_lang("id"@) == Some(Lang::Id));
    } else if i == 23 {
        lemma_trim_noop("ms"@);
        lemma_lower_noop("ms"@);
        assert(known_lang("ms"@) == Some(Lang::Ms));
    } else if i == 24 {
        lemma_trim_noop("tl"@);
        lemma_lower_noop("tl"@);
        assert(known_lang("tl"@) == Some(Lang::Tl));
    } else if i == 25 {
        lemma_trim_noop("hi"@);
        lemma_lower_noop("hi"@);
        assert(known_lang("hi"@) == Some(Lang::Hi));
    } else if i == 26 {
        lemma_trim_noop("bn"@);
        lemma_lower_noop("bn"@);
        assert(known_lang("bn"@) == Some(Lang::Bn));
    } else if i == 27 {
        lemma_trim_noop("ta"@);
        lemma_lower_noop("ta"@);
        assert(known_lang("ta"@) == Some(Lang::Ta));
    } else if i == 28 {
        lemma_trim_noop("te"@);
        lemma_lower_noop("te"@);
        assert(known_lang("te"@) == Some(Lang::Te));
    } else if i == 29 {
        lemma_trim_noop("mr"@);
        lemma_lower_noop("mr"@);
        assert(known_lang("mr"@) == Some(Lang::Mr));
    } else if i == 30 {
        lemma_trim_noop("gu"@);
        lemma_lower_noop("gu"@);
        assert(known_lang("gu"@) == Some(Lang::Gu));
    } else if i == 31 {
        lemma_trim_noop("ur"@);
        lemma_lower_noop("ur"@);
        assert(known_lang("ur"@) == Some(Lang::Ur));
    } else if i == 32 {
        lemma_trim_noop("km"@);
        lemma_lower_noop("km"@);
        assert(known_lang("km"@) == Some(Lang::Km));
    } else if i == 33 {
        lemma_trim_noop("my"@);
        lemma_lower_noop("my"@);
        assert(known_lang("my"@) == Some(Lang::My));
    } else if i == 34 {
        lemma_trim_noop("bo"@);
        lemma_lower_noop("bo"@);
        assert(known_lang("bo"@) == Some(Lang::Bo));
    } else if i == 35 {
        lemma_trim_noop("kk"@);
        lemma_lower_noop("kk"@);
        assert(known_lang("kk"@) == Some(Lang::Kk));
    } else if i == 36 {
        lemma_trim_noop("mn"@);
        lemma_lower_noop("mn"@);
        assert(known_lang("mn"@) == Some(Lang::Mn));
    } else if i == 37 {
        lemma_trim_noop("ug"@);
        lemma_lower_noop("ug"@);
        assert(known_lang("ug"@) == Some(Lang::Ug));
    }
}

/// Position of a language in the supported table (`-1` for others).
pub open spec fn lang_table_index(l: Lang) -> int {
    match l {
        Lang::Zh => 0,
        Lang::ZhHant => 1,
        Lang::Yue => 2,
        Lang::En => 3,
        Lang::Ja => 4,
        Lang::Ko => 5,
        Lang::Fr => 6,
        Lang::Pt => 7,
        Lang::Es => 8,
        Lang::It => 9,
        Lang::De => 10,
        Lang::Nl => 11,
        Lang::Pl => 12,
        Lang::Cs => 13,
        Lang::Ru => 14,
        Lang::Uk => 15,
        Lang::Ar => 16,
        Lang::He => 17,
        Lang::Fa => 18,
        Lang::Tr => 19,
        Lang::Th => 20,
        Lang::Vi => 21,
        Lang::Id => 22,
        Lang::Ms => 23,
        Lang::Tl => 24,
        Lang::Hi => 25,
        Lang::Bn => 26,
        Lang::Ta => 27,
        Lang::Te => 28,
        Lang::Mr => 29,
        Lang::Gu => 30,
        Lang::Ur => 31,
        Lang::Km => 32,
        Lang::My => 33,
        Lang::Bo => 34,
        Lang::Kk => 35,
        Lang::Mn => 36,
        Lang::Ug => 37,
        Lang::Other(_) => -1,
    }
}

proof fn lemma_table_index(i: int)
    requires
        0 <= i < spec_all_supported().len(),
    ensures
        lang_table_index(spec_all_supported()[i]) == i,
{
    if i == 0 {
        assert(spec_all_supported()[0] == Lang::Zh);
    } else if i == 1 {
        assert(spec_all_supported()[1] == Lang::ZhHant);
    } else if i == 2 {
        assert(spec_all_supported()[2] == Lang::Yue);
    } else if i == 3 {
        assert(spec_all_supported()[3] == Lang::En);
    } else if i == 4 {
        assert(spec_all_supported()[4] == Lang::Ja);
    } else if i == 5 {
        assert(spec_all_supported()[5] == Lang::Ko);
    } else if i == 6 {
        assert(spec_all_supported()[6] == Lang::Fr);
    } else if i == 7 {
        assert(spec_all_supported()[7] == Lang::Pt);
    } else if i == 8 {
        assert(spec_all_supported()[8] == Lang::Es);
    } else if i == 9 {
        assert(spec_all_supported()[9] == Lang::It);
    } else if i == 10 {
        assert(spec_all_supported()[10] == Lang::De);
    } else if i == 11 {
        assert(spec_all_supported()[11] == Lang::Nl);
    } else if i == 12 {
        assert(spec_all_supported()[12] == Lang::Pl);
    } else if i == 13 {
        assert(spec_all_supported()[13] == Lang::Cs);
    } else if i == 14 {
        assert(spec_all_supported()[14] == Lang::Ru);
    } else if i == 15 {
        assert(spec_all_supported()[15] == Lang::Uk);
    } else if i == 16 {
        assert(spec_all_supported()[16] == Lang::Ar);
    } else if i == 17 {
        assert(spec_all_supported()[17] == Lang::He);
    } else if i == 18 {
        assert(spec_all_supported()[18] == Lang::Fa);
    } else if i == 19 {
        assert(spec_all_supported()[19] == Lang::Tr);
    } else if i == 20 {
        assert(spec_all_supported()[20] == Lang::Th);
    } else if i == 21 {
        assert(spec_all_supported()[21] == Lang::Vi);
    } else if i == 22 {
        assert(spec_all_supported()[22] == Lang::Id);
    } else if i == 23 {
        assert(spec_all_supported()[23] == Lang::Ms);
    } else if i == 24 {
        assert(spec_all_supported()[24] == Lang::Tl);
    } else if i == 25 {
        assert(spec_all_supported()[25] == Lang::Hi);
    } else if i == 26 {
        assert(spec_all_supported()[26] == Lang::Bn);
    } else if i == 27 {
        assert(spec_all_supported()[27] == Lang::Ta);
    } else if i == 28 {
        assert(spec_all_supported()[28] == Lang::Te);
    } else if i == 29 {
        assert(spec_all_supported()[29] == Lang::Mr);
    } else if i == 30 {
        assert(spec_all_supported()[30] == Lang::Gu);
    } else if i == 31 {
        assert(spec_all_supported()[31] == Lang::Ur);
    } else if i == 32 {
        assert(spec_all_supported()[32] == Lang::Km);
    } else if i == 33 {
        assert(spec_all_supported()[33] == Lang::My);
    } else if i == 34 {
        assert(spec_all_supported()[34] == Lang::Bo);
    } else if i == 35 {
        assert(spec_all_supported()[35] == Lang::Kk);
    } else if i == 36 {
        assert(spec_all_supported()[36] == Lang::Mn);
    } else if i == 37 {
        assert(spec_all_supported()[37] == Lang::Ug);
    }
}

/// Different supported languages have different codes.
pub proof fn law_codes_are_distinct(i: int, j: int)
    requires
        0 <= i < spec_all_supported().len(),
        0 <= j < spec_all_supported().len(),
        i != j,
    ensures
        spec_lang_code(spec_all_supported()[i]) != spec_lang_code(spec_all_supported()[j]),
{
    lemma_table_index(i);
    lemma_table_index(j);
    law_code_roundtrip(i);
    law_code_roundtrip(j);
}

/// Every supported code is non-empty; `zh-Hant` is the one code with
/// anything but lower-case ASCII letters, and an unlisted language keeps
/// the code it was given.
pub proof fn law_code_shape(i: int, c: String)
    requires
        0 <= i < spec_all_supported().len(),
    ensures
        spec_lang_code(spec_all_supported()[i]).len() > 0,
        spec_all_supported()[i] == Lang::ZhHant ==> spec_lang_code(spec_all_supported()[i]) == "zh-Hant"@,
        spec_all_supported()[i] != Lang::ZhHant ==> forall|k: int| 0 <= k < spec_lang_code(spec_all_supported()[i]).len()
            ==> 'a' <= #[trigger] spec_lang_code(spec_all_supported()[i])[k] && spec_lang_code(spec_all_supported()[i])[k] <= 'z',
        spec_lang_code(Lang::Other(c)) == c@,
{
    if i == 0 {
        reveal_strlit("zh");
        assert(spec_all_supported()[0] == Lang::Zh);
        assert forall|k: int| 0 <= k < "zh"@.len() implies 'a' <= #[trigger] "zh"@[k] && "zh"@[k] <= 'z' by {}
    } else if i == 1 {
        reveal_strlit("zh-Hant");
        assert(spec_all_supported()[1] == Lang::ZhHant);
    } else if i == 2 {
        reveal_strlit("yue");
        assert(spec_all_supported()[2] == Lang::Yue);
        assert forall|k: int| 0 <= k < "yue"@.len() implies 'a' <= #[trigger] "yue"@[k] && "yue"@[k] <= 'z' by {}
    } else if i == 3 {
        reveal_strlit("en");
        assert(spec_all_supported()[3] == Lang::En);
        assert forall|k: int| 0 <= k < "en"@.len() implies 'a' <= #[trigger] "en"@[k] && "en"@[k] <= 'z' by {}
    } else if i == 4 {
        reveal_strlit("ja");
        assert(spec_all_supported()[4] == Lang::Ja);
        assert forall|k: int| 0 <= k < "ja"@.len() implies 'a' <= #[trigger] "ja"@[k] && "ja"@[k] <= 'z' by {}
    } else if i == 5 {
        reveal_strlit("ko");
        assert(spec_all_supported()[5] == Lang::Ko);
        assert forall|k: int| 0 <= k < "ko"@.len() implies 'a' <= #[trigger] "ko"@[k] && "ko"@[k] <= 'z' by {}
    } else if i == 6 {
        reveal_strlit("fr");
        assert(spec_all_supported()[6] == Lang::Fr);
        assert forall|k: int| 0 <= k < "fr"@.len() implies 'a' <= #[trigger] "fr"@[k] && "fr"@[k] <= 'z' by {}
    } else if i == 7 {
        reveal_strlit("pt");
        assert(spec_all_supported()[7] == Lang::Pt);
        assert forall|k: int| 0 <= k < "pt"@.len() implies 'a' <= #[trigger] "pt"@[k] && "pt"@[k] <= 'z' by {}
    } else if i == 8 {
        reveal_strlit("es");
        assert(spec_all_supported()[8] == Lang::Es);
        assert forall|k: int| 0 <= k < "es"@.len() implies 'a' <= #[trigger] "es"@[k] && "es"@[k] <= 'z' by {}
    } else if i == 9 {
        reveal_strlit("it");
        assert(spec_all_supported()[9] == Lang::It);
        assert forall|k: int| 0 <= k < "it"@.len() implies 'a' <= #[trigger] "it"@[k] && "it"@[k] <= 'z' by {}
    } else if i == 10 {
        reveal_strlit("de");
        assert(spec_all_supported()[10] == Lang::De);
        assert forall|k: int| 0 <= k < "de"@.len() implies 'a' <= #[trigger] "de"@[k] && "de"@[k] <= 'z' by {}
    } else if i == 11 {
        reveal_strlit("nl");
        assert(spec_all_supported()[11] == Lang::Nl);
        assert forall|k: int| 0 <= k < "nl"@.len() implies 'a' <= #[trigger] "nl"@[k] && "nl"@[k] <= 'z' by {}
    } else if i == 12 {
        reveal_strlit("pl");
        assert(spec_all_supported()[12] == Lang::Pl);
        assert forall|k: int| 0 <= k < "pl"@.len() implies 'a' <= #[trigger] "pl"@[k] && "pl"@[k] <= 'z' by {}
    } else if i == 13 {
        reveal_strlit("cs");
        assert(spec_all_supported()[13] == Lang::Cs);
        assert forall|k: int| 0 <= k < "cs"@.len() implies 'a' <= #[trigger] "cs"@[k] && "cs"@[k] <= 'z' by {}
    } else if i == 14 {
        reveal_strlit("ru");
        assert(spec_all_supported()[14] == Lang::Ru);
        assert forall|k: int| 0 <= k < "ru"@.len() implies 'a' <= #[trigger] "ru"@[k] && "ru"@[k] <= 'z' by {}
    } else if i == 15 {
        reveal_strlit("uk");
        assert(spec_all_supported()[15] == Lang::Uk);
        assert forall|k: int| 0 <= k < "uk"@.len() implies 'a' <= #[trigger] "uk"@[k] && "uk"@[k] <= 'z' by {}
    } else if i == 16 {
        reveal_strlit("ar");
        assert(spec_all_supported()[16] == Lang::Ar);
        assert forall|k: int| 0 <= k < "ar"@.len() implies 'a' <= #[trigger] "ar"@[k] && "ar"@[k] <= 'z' by {}
    } else if i == 17 {
        reveal_strlit("he");
        assert(spec_all_supported()[17] == Lang::He);
        assert forall|k: int| 0 <= k < "he"@.len() implies 'a' <= #[trigger] "he"@[k] && "he"@[k] <= 'z' by {}
    } else if i == 18 {
        reveal_strlit("fa");
        assert(spec_all_supported()[18] == Lang::Fa);
        assert forall|k: int| 0 <= k < "fa"@.len() implies 'a' <= #[trigger] "fa"@[k] && "fa"@[k] <= 'z' by {}
    } else if i == 19 {
        reveal_strlit("tr");
        assert(spec_all_supported()[19] == Lang::Tr);
        assert forall|k: int| 0 <= k < "tr"@.len() implies 'a' <= #[trigger] "tr"@[k] && "tr"@[k] <= 'z' by {}
    } else if i == 20 {
        reveal_strlit("th");
        assert(spec_all_supported()[20] == Lang::Th);
        assert forall|k: int| 0 <= k < "th"@.len() implies 'a' <= #[trigger] "th"@[k] && "th"@[k] <= 'z' by {}
    } else if i == 21 {
        reveal_strlit("vi");
        assert(spec_all_supported()[21] == Lang::Vi);
        assert forall|k: int| 0 <= k < "vi"@.len() implies 'a' <= #[trigger] "vi"@[k] && "vi"@[k] <= 'z' by {}
    } else if i == 22 {
        reveal_strlit("id");
        assert(spec_all_supported()[22] == Lang::Id);
        assert forall|k: int| 0 <= k < "id"@.len() implies 'a' <= #[trigger] "id"@[k] && "id"@[k] <= 'z' by {}
    } else if i == 23 {
        reveal_strlit("ms");
        assert(spec_all_supported()[23] == Lang::Ms);
        assert forall|k: int| 0 <= k < "ms"@.len() implies 'a' <= #[trigger] "ms"@[k] && "ms"@[k] <= 'z' by {}
    } else if i == 24 {
        reveal_strlit("tl");
        assert(spec_all_supported()[24] == Lang::Tl);
        assert forall|k: int| 0 <= k < "tl"@.len() implies 'a' <= #[trigger] "tl"@[k] && "tl"@[k] <= 'z' by {}
    } else if i == 25 {
        reveal_strlit("hi");
        assert(spec_all_supported()[25] == Lang::Hi);
        assert forall|k: int| 0 <= k < "hi"@.len() implies 'a' <= #[trigger] "hi"@[k] && "hi"@[k] <= 'z' by {}
    } else if i == 26 {
        reveal_strlit("bn");
        assert(spec_all_supported()[26] == Lang::Bn);
        assert forall|k: int| 0 <= k < "bn"@.len() implies 'a' <= #[trigger] "bn"@[k] && "bn"@[k] <= 'z' by {}
    } else if i == 27 {
        reveal_strlit("ta");
        assert(spec_all_supported()[27] == Lang::Ta);
        assert forall|k: int| 0 <= k < "ta"@.len() implies 'a' <= #[trigger] "ta"@[k] && "ta"@[k] <= 'z' by {}
    } else if i == 28 {
        reveal_strlit("te");
        assert(spec_all_supported()[28] == Lang::Te);
        assert forall|k: int| 0 <= k < "te"@.len() implies 'a' <= #[trigger] "te"@[k] && "te"@[k] <= 'z' by {}
    } else if i == 29 {
        reveal_strlit("mr");
        assert(spec_all_supported()[29] == Lang::Mr);
        assert forall|k: int| 0 <= k < "mr"@.len() implies 'a' <= #[trigger] "mr"@[k] && "mr"@[k] <= 'z' by {}
    } else if i == 30 {
        reveal_strlit("gu");
        assert(spec_all_supported()[30] == Lang::Gu);
        assert forall|k: int| 0 <= k < "gu"@.len() implies 'a' <= #[trigger] "gu"@[k] && "gu"@[k] <= 'z' by {}
    } else if i == 31 {
        reveal_strlit("ur");
        assert(spec_all_supported()[31] == Lang::Ur);
        assert forall|k: int| 0 <= k < "ur"@.len() implies 'a' <= #[trigger] "ur"@[k] && "ur"@[k] <= 'z' by {}
    } else if i == 32 {
        reveal_strlit("km");
        assert(spec_all_supported()[32] == Lang::Km);
        assert forall|k: int| 0 <= k < "km"@.len() implies 'a' <= #[trigger] "km"@[k] && "km"@[k] <= 'z' by {}
    } else if i == 33 {
        reveal_strlit("my");
        assert(spec_all_supported()[33] == Lang::My);
        assert forall|k: int| 0 <= k < "my"@.len() implies 'a' <= #[trigger] "my"@[k] && "my"@[k] <= 'z' by {}
    } else if i == 34 {
        reveal_strlit("bo");
        assert(spec_all_supported()[34] == Lang::Bo);
        assert forall|k: int| 0 <= k < "bo"@.len() implies 'a' <= #[trigger] "bo"@[k] && "bo"@[k] <= 'z' by {}
    } else if i == 35 {
        reveal_strlit("kk");
        assert(spec_all_supported()[35] == Lang::Kk);
        assert forall|k: int| 0 <= k < "kk"@.len() implies 'a' <= #[trigger] "kk"@[k] && "kk"@[k] <= 'z' by {}
    } else if i == 36 {
        reveal_strlit("mn");
        assert(spec_all_supported()[36] == Lang::Mn);
        assert forall|k: int| 0 <= k < "mn"@.len() implies 'a' <= #[trigger] "mn"@[k] && "mn"@[k] <= 'z' by {}
    } else if i == 37 {
        reveal_strlit("ug");
        assert(spec_all_supported()[37] == Lang::Ug);
        assert forall|k: int| 0 <= k < "ug"@.len() implies 'a' <= #[trigger] "ug"@[k] && "ug"@[k] <= 'z' by {}
    }
}

pub struct Page {
    pub id: String,
    pub file_name: String,
    pub width: u32,
    pub height: u32,
}

pub struct Chapter {
    pub id: String,
    pub title: String,
    /// Page ids in reading order.
    pub page_ids: Vec<String>,
}

/// Project metadata, stored as `project.json`.
pub struct ProjectFile {
    pub schema_version: u32,
    pub name: String,
    pub source_lang: Lang,
    pub target_lang: Lang,
    pub created_at: String,
    pub updated_at: String,
    /// Node enable/retry config mirrored from the workflow canvas.
    pub pipeline: PipelineGraph,
    pub pages: Vec<Page>,
    pub chapters: Vec<Chapter>,
    /// term -> translation, injected into translate & polish prompts.
    pub glossary: SortedMap<String>,
}

/// A lower-case hexadecimal digit.
pub open spec fn is_lower_hex(c: char) -> bool {
    ('0' <= c && c <= '9') || ('a' <= c && c <= 'f')
}

/// `uuid::Uuid::new_v4().simple().to_string()`: a random version-4 UUID
/// in its 32-digit lower-case hexadecimal form; the version digit (position
/// 12) is `4` and the variant digit (position 16) is one of `8 9 a b`.
/// Which digits come out is random and not stated.
#[verifier::external_body]
fn new_uuid_simple() -> (s: String)
    ensures
        s@.len() == 32,
        forall|i: int| 0 <= i < 32 ==> is_lower_hex(#[trigger] s@[i]),
        s@[12] == '4',
        s@[16] == '8' || s@[16] == '9' || s@[16] == 'a' || s@[16] == 'b',
{
    uuid::Uuid::new_v4().simple().to_string()
}

/// An RFC 3339 timestamp written for UTC: at least the 25 characters of
/// `YYYY-MM-DDTHH:MM:SS+00:00`, ending with the offset `+00:00`.
pub open spec fn is_utc_rfc3339(s: Seq<char>) -> bool {
    let n = s.len() as int;
    &&& n >= 25
    &&& s[n - 6] == '+'
    &&& s[n - 5] == '0'
    &&& s[n - 4] == '0'
    &&& s[n - 3] == ':'
    &&& s[n - 2] == '0'
    &&& s[n - 1] == '0'
}

/// `chrono::Utc::now().to_rfc3339()`: the current UTC time as RFC 3339
/// text. chrono writes the date and time (a four-digit year, or a signed one
/// of five or more characters outside 0..=9999) and then the zero offset as
/// `+00:00`, since it does not use `Z` here. Which instant it shows depends
/// on the clock and is not stated.
#[verifier::external_body]
fn utc_now_rfc3339() -> (s: String)
    ensures
        is_utc_rfc3339(s@),
{
    chrono::Utc::now().to_rfc3339()
}

/// A fresh id: the prefix followed by a random UUID's 32 hex digits.
pub open spec fn is_fresh_id(id: Seq<char>, prefix: Seq<char>) -> bool {
    &&& id.len() == prefix.len() + 32
    &&& id.take(prefix.len() as int) == prefix
    &&& forall|i: int| prefix.len() <= i < id.len() ==> is_lower_hex(#[trigger] id[i])
}

fn fresh_id(prefix: &str) -> (id: String)
    ensures
        is_fresh_id(id@, prefix@),
{
    let mut id = owned(prefix);
    let u = new_uuid_simple();
    id.append(u.as_str());
    assert(id@.take(prefix@.len() as int) =~= prefix@);
    proof {
        assert forall|i: int| prefix@.len() <= i < id@.len() implies is_lower_hex(#[trigger] id@[i]) by {
            assert(id@[i] == u@[i - prefix@.len()]);
        }
    }
    id
}

impl ProjectFile {
    /// Metadata of a freshly created project: current schema, the given name
    /// and languages, both timestamps set to now, the default pipeline and
    /// no pages, chapters or glossary terms.
    pub fn fresh(name: &str, source_lang: Lang, target_lang: Lang) -> (f: ProjectFile)
        ensures
            f.schema_version == CURRENT_SCHEMA_VERSION,
            f.name@ == name@,
            f.source_lang == source_lang,
            f.target_lang == target_lang,
            f.created_at@ == f.updated_at@,
            is_utc_rfc3339(f.created_at@),
            f.pages@.len() == 0,
            f.chapters@.len() == 0,
            f.glossary.view() == Map::<Seq<char>, String>::empty(),
            f.pipeline.configs@.len() == 6,
            forall|i: int| 0 <= i < 6 ==> {
                &&& (#[trigger] f.pipeline.configs@[i]).kind == crate::graph::step_order()[i]
                &&& f.pipeline.configs@[i].enabled == (crate::graph::step_order()[i] != crate::graph::StepKind::Polish)
                &&& f.pipeline.configs@[i].max_retries == 2
                &&& f.pipeline.configs@[i].params.view() == Map::<Seq<char>, serde_json::Value>::empty()
            },
            forall|k: crate::graph::StepKind| #[trigger] crate::graph::spec_is_enabled(f.pipeline.configs@, k) == (k != crate::graph::StepKind::Polish),
    {
        let now = utc_now_rfc3339();
        let created = now.clone();
        ProjectFile {
            schema_version: CURRENT_SCHEMA_VERSION,
            name: owned(name),
            source_lang,
            target_lang,
            created_at: created,
            updated_at: now,
            pipeline: PipelineGraph::default_pipeline(),
            pages: Vec::new(),
            chapters: Vec::new(),
            glossary: SortedMap::new(),
        }
    }

    /// Sets the update timestamp to now, as a UTC RFC 3339 timestamp.
    pub fn touch(&mut self)
        ensures
            is_utc_rfc3339(final(self).updated_at@),
            final(self).schema_version == old(self).schema_version,
            final(self).name == old(self).name,
            final(self).source_lang == old(self).source_lang,
            final(self).target_lang == old(self).target_lang,
            final(self).created_at == old(self).created_at,
            final(self).pages == old(self).pages,
            final(self).chapters == old(self).chapters,
            final(self).glossary == old(self).glossary,
            final(self).pipeline == old(self).pipeline,
    {
        self.updated_at = utc_now_rfc3339();
    }
}

/// The descriptive fields (schema, name, languages, timestamps) agree.
pub open spec fn same_meta(a: ProjectFile, b: ProjectFile) -> bool {
    &&& a.schema_version == b.schema_version
    &&& a.name == b.name
    &&& a.source_lang == b.source_lang
    &&& a.target_lang == b.target_lang
    &&& a.created_at == b.created_at
    &&& a.updated_at == b.updated_at
}

/// An open project: its directory and metadata.
pub struct Project {
    root: std::path::PathBuf,
    file: ProjectFile,
}

/// Field values of a page.
pub open spec fn page_view(p: Page) -> (Seq<char>, Seq<char>, u32, u32) {
    (p.id@, p.file_name@, p.width, p.height)
}

/// `i` is the first page whose id is `id`.
pub open spec fn first_page(pages: Seq<Page>, id: Seq<char>, i: int) -> bool {
    &&& 0 <= i < pages.len()
    &&& pages[i].id@ == id
    &&& forall|j: int| 0 <= j < i ==> pages[j].id@ != id
}

/// A page appended under an id that no earlier page carries is the page
/// that a lookup of that id finds: what `page` returns after `add_page`.
pub proof fn law_added_page_is_found(pages: Seq<Page>, added: Page)
    requires
        forall|j: int| 0 <= j < pages.len() ==> pages[j].id@ != added.id@,
    ensures
        first_page(pages.push(added), added.id@, pages.len() as int),
        forall|i: int| #[trigger] first_page(pages.push(added), added.id@, i) ==> pages.push(added)[i] == added,
{
    let ps = pages.push(added);
    assert forall|j: int| 0 <= j < pages.len() implies ps[j].id@ != added.id@ by {
        assert(ps[j] == pages[j]);
    }
    assert forall|i: int| #[trigger] first_page(ps, added.id@, i) implies ps[i] == added by {
        if i < pages.len() {
            assert(ps[i] == pages[i]);
        }
    }
}

impl Project {
    pub closed spec fn spec_file(&self) -> ProjectFile {
        self.file
    }

    pub closed spec fn spec_root(&self) -> std::path::PathBuf {
        self.root
    }

    /// Accepts metadata read from `root`: a schema newer than this library
    /// supports is refused; older ones are taken as they are.
    pub fn from_file(root: std::path::PathBuf, file: ProjectFile) -> (r: Result<Project, ProjectError>)
        ensures
            file.schema_version > CURRENT_SCHEMA_VERSION ==> (r matches Err(ProjectError::SchemaTooNew { found, supported })
                && found == file.schema_version && supported == CURRENT_SCHEMA_VERSION),
            file.schema_version <= CURRENT_SCHEMA_VERSION ==> (r matches Ok(p) && p.spec_file() == file && p.spec_root() == root),
    {
        if file.schema_version > CURRENT_SCHEMA_VERSION {
            return Err(ProjectError::SchemaTooNew {
                found: file.schema_version,
                supported: CURRENT_SCHEMA_VERSION,
            });
        }
        Ok(Project { root, file })
    }

    pub fn root(&self) -> (r: &std::path::PathBuf)
        ensures
            *r == self.spec_root(),
    {
        &self.root
    }

    pub fn file(&self) -> (f: &ProjectFile)
        ensures
            *f == self.spec_file(),
    {
        &self.file
    }

    /// Replaces the metadata (after it was written out).
    pub fn set_file(&mut self, file: ProjectFile)
        ensures
            final(self).spec_file() == file,
            final(self).spec_root() == old(self).spec_root(),
    {
        self.file = file;
    }

    /// Registers an imported page under a fresh `pg_` id and returns the id.
    pub fn add_page(&mut self, file_name: &str, width: u32, height: u32) -> (id: String)
        ensures
            is_fresh_id(id@, "pg_"@),
            final(self).spec_file().pages@.len() == old(self).spec_file().pages@.len() + 1,
            final(self).spec_file().pages@.drop_last() == old(self).spec_file().pages@,
            page_view(final(self).spec_file().pages@.last()) == (id@, file_name@, width, height),
            final(self).spec_file().chapters == old(self).spec_file().chapters,
            final(self).spec_file().glossary == old(self).spec_file().glossary,
            final(self).spec_file().pipeline == old(self).spec_file().pipeline,
            same_meta(final(self).spec_file(), old(self).spec_file()),
            final(self).spec_root() == old(self).spec_root(),
    {
        let id = fresh_id("pg_");
        let page = Page { id: id.clone(), file_name: owned(file_name), width, height };
        self.file.pages.push(page);
        assert(self.file.pages@.drop_last() =~= old(self).file.pages@);
        id
    }

    /// The first page with this id.
    pub fn page(&self, id: &str) -> (r: Option<&Page>)
        ensures
            match r {
                Some(p) => exists|i: int| first_page(self.spec_file().pages@, id@, i) && self.spec_file().pages@[i] == *p,
                None => forall|i: int| 0 <= i < self.spec_file().pages@.len() ==> self.spec_file().pages@[i].id@ != id@,
            },
    {
        let key = chars_of(id);
        let mut i: usize = 0;
        while i < self.file.pages.len()
            invariant
                key@ == id@,
                i <= self.file.pages@.len(),
                forall|j: int| 0 <= j < i ==> self.file.pages@[j].id@ != id@,
            decreases self.file.pages@.len() - i,
        {
            let pid = chars_of(self.file.pages[i].id.as_str());
            if crate::text::chars_eq(pid.as_slice(), key.as_slice()) {
                proof { assert(first_page(self.file.pages@, id@, i as int)); }
                return Some(&self.file.pages[i]);
            }
            i += 1;
        }
        None
    }

    /// Groups pages into a new chapter under a fresh `ch_` id.
    pub fn add_chapter(&mut self, title: &str, page_ids: Vec<String>) -> (id: String)
        ensures
            is_fresh_id(id@, "ch_"@),
            final(self).spec_file().chapters@.len() == old(self).spec_file().chapters@.len() + 1,
            final(self).spec_file().chapters@.drop_last() == old(self).spec_file().chapters@,
            final(self).spec_file().chapters@.last().id@ == id@,
            final(self).spec_file().chapters@.last().title@ == title@,
            final(self).spec_file().chapters@.last().page_ids == page_ids,
            final(self).spec_file().pages == old(self).spec_file().pages,
            final(self).spec_file().glossary == old(self).spec_file().glossary,
            final(self).spec_file().pipeline == old(self).spec_file().pipeline,
            same_meta(final(self).spec_file(), old(self).spec_file()),
            final(self).spec_root() == old(self).spec_root(),
    {
        let id = fresh_id("ch_");
        let ch = Chapter { id: id.clone(), title: owned(title), page_ids };
        self.file.chapters.push(ch);
        assert(self.file.chapters@.drop_last() =~= old(self).file.chapters@);
        id
    }

    /// Sets (or replaces) a glossary term.
    pub fn set_glossary_term(&mut self, term: &str, translation: &str)
        ensures
            final(self).spec_file().glossary.view().dom() == old(self).spec_file().glossary.view().dom().insert(term@),
            final(self).spec_file().glossary.view()[term@]@ == translation@,
            forall|k: Seq<char>| k != term@ && #[trigger] old(self).spec_file().glossary.view().contains_key(k)
                ==> final(self).spec_file().glossary.view()[k] == old(self).spec_file().glossary.view()[k],
            final(self).spec_file().pages == old(self).spec_file().pages,
            final(self).spec_file().chapters == old(self).spec_file().chapters,
            final(self).spec_file().pipeline == old(self).spec_file().pipeline,
            same_meta(final(self).spec_file(), old(self).spec_file()),
            final(self).spec_root() == old(self).spec_root(),
    {
        let t = owned(translation);
        self.file.glossary.insert(owned(term), t);
        assert(self.file.glossary.view().dom() =~= old(self).file.glossary.view().dom().insert(term@));
    }

    /// Mirrors the workflow canvas configuration into the project.
    pub fn set_pipeline(&mut self, graph: PipelineGraph)
        ensures
            final(self).spec_file().pipeline == graph,
            final(self).spec_file().pages == old(self).spec_file().pages,
            final(self).spec_file().chapters == old(self).spec_file().chapters,
            final(self).spec_file().glossary == old(self).spec_file().glossary,
            same_meta(final(self).spec_file(), old(self).spec_file()),
            final(self).spec_root() == old(self).spec_root(),
    {
        self.file.pipeline = graph;
    }
}

} // verus!
