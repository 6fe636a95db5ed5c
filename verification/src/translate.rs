//! Bubble-translation prompt building and model-output parsing.

use vstd::prelude::*;
use vstd::string::StringExecFns;
use crate::sorted_map::SortedMap;
use crate::project::{Lang, spec_all_supported, spec_lang_code, lemma_trim_noop, lemma_lower_noop};
use crate::text::{chars_of, chars_eq_str, trim_chars, lower_chars, owned, join, join_strings,
    string_seq_views, lines, lines_of, views, lower, trim, sub_chars, first_index_of,
    find_char_from, string_of};

verus! {

#[derive(Debug, Clone, Copy, PartialEq, Eq, Structural)]
pub enum TranslateModel {
    HyMt2_1_8B,
    HyMt2_7B,
    HyMt2_30BA3B,
}

/// One bubble to translate.
#[derive(Debug, Clone)]
pub struct TranslateItem {
    pub id: String,
    pub source_text: String,
}

/// Full language name (Chinese) for a normalized code, when known.
pub open spec fn full_name_of_key(k: Seq<char>) -> Option<Seq<char>> {
    if k == "zh"@ {
        Some("中文（简体）"@)
    } else if k == "zh-cn"@ {
        Some("中文（简体）"@)
    } else if k == "zh-hant"@ {
        Some("中文（繁体）"@)
    } else if k == "zh-tw"@ {
        Some("中文（繁体）"@)
    } else if k == "zh-hk"@ {
        Some("中文（繁体）"@)
    } else if k == "yue"@ {
        Some("粤语"@)
    } else if k == "en"@ {
        Some("英语"@)
    } else if k == "ja"@ {
        Some("日语"@)
    } else if k == "ko"@ {
        Some("韩语"@)
    } else if k == "fr"@ {
        Some("法语"@)
    } else if k == "pt"@ {
        Some("葡萄牙语"@)
    } else if k == "es"@ {
        Some("西班牙语"@)
    } else if k == "it"@ {
        Some("意大利语"@)
    } else if k == "de"@ {
        Some("德语"@)
    } else if k == "nl"@ {
        Some("荷兰语"@)
    } else if k == "pl"@ {
        Some("波兰语"@)
    } else if k == "cs"@ {
        Some("捷克语"@)
    } else if k == "ru"@ {
        Some("俄语"@)
    } else if k == "uk"@ {
        Some("乌克兰语"@)
    } else if k == "ar"@ {
        Some("阿拉伯语"@)
    } else if k == "he"@ {
        Some("希伯来语"@)
    } else if k == "fa"@ {
        Some("波斯语"@)
    } else if k == "tr"@ {
        Some("土耳其语"@)
    } else if k == "th"@ {
        Some("泰语"@)
    } else if k == "vi"@ {
        Some("越南语"@)
    } else if k == "id"@ {
        Some("印尼语"@)
    } else if k == "ms"@ {
        Some("马来语"@)
    } else if k == "tl"@ {
        Some("菲律宾语"@)
    } else if k == "fil"@ {
        Some("菲律宾语"@)
    } else if k == "hi"@ {
        Some("印地语"@)
    } else if k == "bn"@ {
        Some("孟加拉语"@)
    } else if k == "ta"@ {
        Some("泰米尔语"@)
    } else if k == "te"@ {
        Some("泰卢固语"@)
    } else if k == "mr"@ {
        Some("马拉地语"@)
    } else if k == "gu"@ {
        Some("古吉拉特语"@)
    } else if k == "ur"@ {
        Some("乌尔都语"@)
    } else if k == "km"@ {
        Some("高棉语"@)
    } else if k == "my"@ {
        Some("缅甸语"@)
    } else if k == "bo"@ {
        Some("藏语"@)
    } else if k == "kk"@ {
        Some("哈萨克语"@)
    } else if k == "mn"@ {
        Some("蒙古语"@)
    } else if k == "ug"@ {
        Some("维吾尔语"@)
    } else {
        None
    }
}

/// Every supported language gets its full name in prompts, never its bare
/// code.
pub proof fn law_supported_languages_have_full_names(i: int)
    requires
        0 <= i < spec_all_supported().len(),
    ensures
        full_name_of_key(lower(trim(spec_lang_code(spec_all_supported()[i])))) is Some,
        spec_lang_full_name(spec_lang_code(spec_all_supported()[i])) != spec_lang_code(spec_all_supported()[i]),
{
    reveal_strlit("zh");
    reveal_strlit("zh-cn");
    reveal_strlit("zh-hant");
    reveal_strlit("zh-tw");
    reveal_strlit("zh-hk");
    reveal_strlit("yue");
    reveal_strlit("en");
    reveal_strlit("ja");
    reveal_strlit("ko");
    reveal_strlit("fr");
    reveal_strlit("pt");
    reveal_strlit("es");
    reveal_strlit("it");
    reveal_strlit("de");
    reveal_strlit("nl");
    reveal_strlit("pl");
    reveal_strlit("cs");
    reveal_strlit("ru");
    reveal_strlit("uk");
    reveal_strlit("ar");
    reveal_strlit("he");
    reveal_strlit("fa");
    reveal_strlit("tr");
    reveal_strlit("th");
    reveal_strlit("vi");
    reveal_strlit("id");
    reveal_strlit("ms");
    reveal_strlit("tl");
    reveal_strlit("fil");
    reveal_strlit("hi");
    reveal_strlit("bn");
    reveal_strlit("ta");
    reveal_strlit("te");
    reveal_strlit("mr");
    reveal_strlit("gu");
    reveal_strlit("ur");
    reveal_strlit("km");
    reveal_strlit("my");
    reveal_strlit("bo");
    reveal_strlit("kk");
    reveal_strlit("mn");
    reveal_strlit("ug");
    if i == 0 {
        reveal_strlit("zh");
        reveal_strlit("中文（简体）");
        assert(spec_all_supported()[0] == Lang::Zh);
        lemma_trim_noop("zh"@);
        lemma_lower_noop("zh"@);
        assert(full_name_of_key("zh"@) == Some("中文（简体）"@));
        assert("中文（简体）"@[0] != "zh"@[0]);
    } else if i == 1 {
        reveal_strlit("zh-Hant");
        reveal_strlit("中文（繁体）");
        assert(spec_all_supported()[1] == Lang::ZhHant);
        lemma_trim_noop("zh-Hant"@);
        assert(lower("zh-Hant"@) =~= "zh-hant"@);
        assert(full_name_of_key("zh-hant"@) == Some("中文（繁体）"@));
        assert("中文（繁体）"@[0] != "zh-Hant"@[0]);
    } else if i == 2 {
        reveal_strlit("yue");
        reveal_strlit("粤语");
        assert(spec_all_supported()[2] == Lang::Yue);
        lemma_trim_noop("yue"@);
        lemma_lower_noop("yue"@);
        assert(full_name_of_key("yue"@) == Some("粤语"@));
        assert("粤语"@[0] != "yue"@[0]);
    } else if i == 3 {
        reveal_strlit("en");
        reveal_strlit("英语");
        assert(spec_all_supported()[3] == Lang::En);
        lemma_trim_noop("en"@);
        lemma_lower_noop("en"@);
        assert(full_name_of_key("en"@) == Some("英语"@));
        assert("英语"@[0] != "en"@[0]);
    } else if i == 4 {
        reveal_strlit("ja");
        reveal_strlit("日语");
        assert(spec_all_supported()[4] == Lang::Ja);
        lemma_trim_noop("ja"@);
        lemma_lower_noop("ja"@);
        assert(full_name_of_key("ja"@) == Some("日语"@));
        assert("日语"@[0] != "ja"@[0]);
    } else if i == 5 {
        reveal_strlit("ko");
        reveal_strlit("韩语");
        assert(spec_all_supported()[5] == Lang::Ko);
        lemma_trim_noop("ko"@);
        lemma_lower_noop("ko"@);
        assert(full_name_of_key("ko"@) == Some("韩语"@));
        assert("韩语"@[0] != "ko"@[0]);
    } else if i == 6 {
        reveal_strlit("fr");
        reveal_strlit("法语");
        assert(spec_all_supported()[6] == Lang::Fr);
        lemma_trim_noop("fr"@);
        lemma_lower_noop("fr"@);
        assert(full_name_of_key("fr"@) == Some("法语"@));
        assert("法语"@[0] != "fr"@[0]);
    } else if i == 7 {
        reveal_strlit("pt");
        reveal_strlit("葡萄牙语");
        assert(spec_all_supported()[7] == Lang::Pt);
        lemma_trim_noop("pt"@);
        lemma_lower_noop("pt"@);
        assert(full_name_of_key("pt"@) == Some("葡萄牙语"@));
        assert("葡萄牙语"@[0] != "pt"@[0]);
    } else if i == 8 {
        reveal_strlit("es");
        reveal_strlit("西班牙语");
        assert(spec_all_supported()[8] == Lang::Es);
        lemma_trim_noop("es"@);
        lemma_lower_noop("es"@);
        assert(full_name_of_key("es"@) == Some("西班牙语"@));
        assert("西班牙语"@[0] != "es"@[0]);
    } else if i == 9 {
        reveal_strlit("it");
        reveal_strlit("意大利语");
        assert(spec_all_supported()[9] == Lang::It);
        lemma_trim_noop("it"@);
        lemma_lower_noop("it"@);
        assert(full_name_of_key("it"@) == Some("意大利语"@));
        assert("意大利语"@[0] != "it"@[0]);
    } else if i == 10 {
        reveal_strlit("de");
        reveal_strlit("德语");
        assert(spec_all_supported()[10] == Lang::De);
        lemma_trim_noop("de"@);
        lemma_lower_noop("de"@);
        assert(full_name_of_key("de"@) == Some("德语"@));
        assert("德语"@[0] != "de"@[0]);
    } else if i == 11 {
        reveal_strlit("nl");
        reveal_strlit("荷兰语");
        assert(spec_all_supported()[11] == Lang::Nl);
        lemma_trim_noop("nl"@);
        lemma_lower_noop("nl"@);
        assert(full_name_of_key("nl"@) == Some("荷兰语"@));
        assert("荷兰语"@[0] != "nl"@[0]);
    } else if i == 12 {
        reveal_strlit("pl");
        reveal_strlit("波兰语");
        assert(spec_all_supported()[12] == Lang::Pl);
        lemma_trim_noop("pl"@);
        lemma_lower_noop("pl"@);
        assert(full_name_of_key("pl"@) == Some("波兰语"@));
        assert("波兰语"@[0] != "pl"@[0]);
    } else if i == 13 {
        reveal_strlit("cs");
        reveal_strlit("捷克语");
        assert(spec_all_supported()[13] == Lang::Cs);
        lemma_trim_noop("cs"@);
        lemma_lower_noop("cs"@);
        assert(full_name_of_key("cs"@) == Some("捷克语"@));
        assert("捷克语"@[0] != "cs"@[0]);
    } else if i == 14 {
        reveal_strlit("ru");
        reveal_strlit("俄语");
        assert(spec_all_supported()[14] == Lang::Ru);
        lemma_trim_noop("ru"@);
        lemma_lower_noop("ru"@);
        assert(full_name_of_key("ru"@) == Some("俄语"@));
        assert("俄语"@[0] != "ru"@[0]);
    } else if i == 15 {
        reveal_strlit("uk");
        reveal_strlit("乌克兰语");
        assert(spec_all_supported()[15] == Lang::Uk);
        lemma_trim_noop("uk"@);
        lemma_lower_noop("uk"@);
        assert(full_name_of_key("uk"@) == Some("乌克兰语"@));
        assert("乌克兰语"@[0] != "uk"@[0]);
    } else if i == 16 {
        reveal_strlit("ar");
        reveal_strlit("阿拉伯语");
        assert(spec_all_supported()[16] == Lang::Ar);
        lemma_trim_noop("ar"@);
        lemma_lower_noop("ar"@);
        assert(full_name_of_key("ar"@) == Some("阿拉伯语"@));
        assert("阿拉伯语"@[0] != "ar"@[0]);
    } else if i == 17 {
        reveal_strlit("he");
        reveal_strlit("希伯来语");
        assert(spec_all_supported()[17] == Lang::He);
        lemma_trim_noop("he"@);
        lemma_lower_noop("he"@);
        assert(full_name_of_key("he"@) == Some("希伯来语"@));
        assert("希伯来语"@[0] != "he"@[0]);
    } else if i == 18 {
        reveal_strlit("fa");
        reveal_strlit("波斯语");
        assert(spec_all_supported()[18] == Lang::Fa);
        lemma_trim_noop("fa"@);
        lemma_lower_noop("fa"@);
        assert(full_name_of_key("fa"@) == Some("波斯语"@));
        assert("波斯语"@[0] != "fa"@[0]);
    } else if i == 19 {
        reveal_strlit("tr");
        reveal_strlit("土耳其语");
        assert(spec_all_supported()[19] == Lang::Tr);
        lemma_trim_noop("tr"@);
        lemma_lower_noop("tr"@);
        assert(full_name_of_key("tr"@) == Some("土耳其语"@));
        assert("土耳其语"@[0] != "tr"@[0]);
    } else if i == 20 {
        reveal_strlit("th");
        reveal_strlit("泰语");
        assert(spec_all_supported()[20] == Lang::Th);
        lemma_trim_noop("th"@);
        lemma_lower_noop("th"@);
        assert(full_name_of_key("th"@) == Some("泰语"@));
        assert("泰语"@[0] != "th"@[0]);
    } else if i == 21 {
        reveal_strlit("vi");
        reveal_strlit("越南语");
        assert(spec_all_supported()[21] == Lang::Vi);
        lemma_trim_noop("vi"@);
        lemma_lower_noop("vi"@);
        assert(full_name_of_key("vi"@) == Some("越南语"@));
        assert("越南语"@[0] != "vi"@[0]);
    } else if i == 22 {
        reveal_strlit("id");
        reveal_strlit("印尼语");
        assert(spec_all_supported()[22] == Lang::Id);
        lemma_trim_noop("id"@);
        lemma_lower_noop("id"@);
        assert(full_name_of_key("id"@) == Some("印尼语"@));
        assert("印尼语"@[0] != "id"@[0]);
    } else if i == 23 {
        reveal_strlit("ms");
        reveal_strlit("马来语");
        assert(spec_all_supported()[23] == Lang::Ms);
        lemma_trim_noop("ms"@);
        lemma_lower_noop("ms"@);
        assert(full_name_of_key("ms"@) == Some("马来语"@));
        assert("马来语"@[0] != "ms"@[0]);
    } else if i == 24 {
        reveal_strlit("tl");
        reveal_strlit("菲律宾语");
        assert(spec_all_supported()[24] == Lang::Tl);
        lemma_trim_noop("tl"@);
        lemma_lower_noop("tl"@);
        assert(full_name_of_key("tl"@) == Some("菲律宾语"@));
        assert("菲律宾语"@[0] != "tl"@[0]);
    } else if i == 25 {
        reveal_strlit("hi");
        reveal_strlit("印地语");
        assert(spec_all_supported()[25] == Lang::Hi);
        lemma_trim_noop("hi"@);
        lemma_lower_noop("hi"@);
        assert(full_name_of_key("hi"@) == Some("印地语"@));
        assert("印地语"@[0] != "hi"@[0]);
    } else if i == 26 {
        reveal_strlit("bn");
        reveal_strlit("孟加拉语");
        assert(spec_all_supported()[26] == Lang::Bn);
        lemma_trim_noop("bn"@);
        lemma_lower_noop("bn"@);
        assert(full_name_of_key("bn"@) == Some("孟加拉语"@));
        assert("孟加拉语"@[0] != "bn"@[0]);
    } else if i == 27 {
        reveal_strlit("ta");
        reveal_strlit("泰米尔语");
        assert(spec_all_supported()[27] == Lang::Ta);
        lemma_trim_noop("ta"@);
        lemma_lower_noop("ta"@);
        assert(full_name_of_key("ta"@) == Some("泰米尔语"@));
        assert("泰米尔语"@[0] != "ta"@[0]);
    } else if i == 28 {
        reveal_strlit("te");
        reveal_strlit("泰卢固语");
        assert(spec_all_supported()[28] == Lang::Te);
        lemma_trim_noop("te"@);
        lemma_lower_noop("te"@);
        assert(full_name_of_key("te"@) == Some("泰卢固语"@));
        assert("泰卢固语"@[0] != "te"@[0]);
    } else if i == 29 {
        reveal_strlit("mr");
        reveal_strlit("马拉地语");
        assert(spec_all_supported()[29] == Lang::Mr);
        lemma_trim_noop("mr"@);
        lemma_lower_noop("mr"@);
        assert(full_name_of_key("mr"@) == Some("马拉地语"@));
        assert("马拉地语"@[0] != "mr"@[0]);
    } else if i == 30 {
        reveal_strlit("gu");
        reveal_strlit("古吉拉特语");
        assert(spec_all_supported()[30] == Lang::Gu);
        lemma_trim_noop("gu"@);
        lemma_lower_noop("gu"@);
        assert(full_name_of_key("gu"@) == Some("古吉拉特语"@));
        assert("古吉拉特语"@[0] != "gu"@[0]);
    } else if i == 31 {
        reveal_strlit("ur");
        reveal_strlit("乌尔都语");
        assert(spec_all_supported()[31] == Lang::Ur);
        lemma_trim_noop("ur"@);
        lemma_lower_noop("ur"@);
        assert(full_name_of_key("ur"@) == Some("乌尔都语"@));
        assert("乌尔都语"@[0] != "ur"@[0]);
    } else if i == 32 {
        reveal_strlit("km");
        reveal_strlit("高棉语");
        assert(spec_all_supported()[32] == Lang::Km);
        lemma_trim_noop("km"@);
        lemma_lower_noop("km"@);
        assert(full_name_of_key("km"@) == Some("高棉语"@));
        assert("高棉语"@[0] != "km"@[0]);
    } else if i == 33 {
        reveal_strlit("my");
        reveal_strlit("缅甸语");
        assert(spec_all_supported()[33] == Lang::My);
        lemma_trim_noop("my"@);
        lemma_lower_noop("my"@);
        assert(full_name_of_key("my"@) == Some("缅甸语"@));
        assert("缅甸语"@[0] != "my"@[0]);
    } else if i == 34 {
        reveal_strlit("bo");
        reveal_strlit("藏语");
        assert(spec_all_supported()[34] == Lang::Bo);
        lemma_trim_noop("bo"@);
        lemma_lower_noop("bo"@);
        assert(full_name_of_key("bo"@) == Some("藏语"@));
        assert("藏语"@[0] != "bo"@[0]);
    } else if i == 35 {
        reveal_strlit("kk");
        reveal_strlit("哈萨克语");
        assert(spec_all_supported()[35] == Lang::Kk);
        lemma_trim_noop("kk"@);
        lemma_lower_noop("kk"@);
        assert(full_name_of_key("kk"@) == Some("哈萨克语"@));
        assert("哈萨克语"@[0] != "kk"@[0]);
    } else if i == 36 {
        reveal_strlit("mn");
        reveal_strlit("蒙古语");
        assert(spec_all_supported()[36] == Lang::Mn);
        lemma_trim_noop("mn"@);
        lemma_lower_noop("mn"@);
        assert(full_name_of_key("mn"@) == Some("蒙古语"@));
        assert("蒙古语"@[0] != "mn"@[0]);
    } else if i == 37 {
        reveal_strlit("ug");
        reveal_strlit("维吾尔语");
        assert(spec_all_supported()[37] == Lang::Ug);
        lemma_trim_noop("ug"@);
        lemma_lower_noop("ug"@);
        assert(full_name_of_key("ug"@) == Some("维吾尔语"@));
        assert("维吾尔语"@[0] != "ug"@[0]);
    }
}

/// The name used in prompts: the full name for a known code (trimmed,
/// ASCII case ignored), else the code as given.
pub open spec fn spec_lang_full_name(code: Seq<char>) -> Seq<char> {
    match full_name_of_key(lower(trim(code))) {
        Some(n) => n,
        None => code,
    }
}

fn full_name_lookup(k: &[char]) -> (r: Option<&'static str>)
    ensures
        match r {
            Some(n) => full_name_of_key(k@) == Some(n@),
            None => full_name_of_key(k@) is None,
        },
{
    if chars_eq_str(k, "zh") {
        Some("中文（简体）")
    } else if chars_eq_str(k, "zh-cn") {
        Some("中文（简体）")
    } else if chars_eq_str(k, "zh-hant") {
        Some("中文（繁体）")
    } else if chars_eq_str(k, "zh-tw") {
        Some("中文（繁体）")
    } else if chars_eq_str(k, "zh-hk") {
        Some("中文（繁体）")
    } else if chars_eq_str(k, "yue") {
        Some("粤语")
    } else if chars_eq_str(k, "en") {
        Some("英语")
    } else if chars_eq_str(k, "ja") {
        Some("日语")
    } else if chars_eq_str(k, "ko") {
        Some("韩语")
    } else if chars_eq_str(k, "fr") {
        Some("法语")
    } else if chars_eq_str(k, "pt") {
        Some("葡萄牙语")
    } else if chars_eq_str(k, "es") {
        Some("西班牙语")
    } else if chars_eq_str(k, "it") {
        Some("意大利语")
    } else if chars_eq_str(k, "de") {
        Some("德语")
    } else if chars_eq_str(k, "nl") {
        Some("荷兰语")
    } else if chars_eq_str(k, "pl") {
        Some("波兰语")
    } else if chars_eq_str(k, "cs") {
        Some("捷克语")
    } else if chars_eq_str(k, "ru") {
        Some("俄语")
    } else if chars_eq_str(k, "uk") {
        Some("乌克兰语")
    } else if chars_eq_str(k, "ar") {
        Some("阿拉伯语")
    } else if chars_eq_str(k, "he") {
        Some("希伯来语")
    } else if chars_eq_str(k, "fa") {
        Some("波斯语")
    } else if chars_eq_str(k, "tr") {
        Some("土耳其语")
    } else if chars_eq_str(k, "th") {
        Some("泰语")
    } else if chars_eq_str(k, "vi") {
        Some("越南语")
    } else if chars_eq_str(k, "id") {
        Some("印尼语")
    } else if chars_eq_str(k, "ms") {
        Some("马来语")
    } else if chars_eq_str(k, "tl") {
        Some("菲律宾语")
    } else if chars_eq_str(k, "fil") {
        Some("菲律宾语")
    } else if chars_eq_str(k, "hi") {
        Some("印地语")
    } else if chars_eq_str(k, "bn") {
        Some("孟加拉语")
    } else if chars_eq_str(k, "ta") {
        Some("泰米尔语")
    } else if chars_eq_str(k, "te") {
        Some("泰卢固语")
    } else if chars_eq_str(k, "mr") {
        Some("马拉地语")
    } else if chars_eq_str(k, "gu") {
        Some("古吉拉特语")
    } else if chars_eq_str(k, "ur") {
        Some("乌尔都语")
    } else if chars_eq_str(k, "km") {
        Some("高棉语")
    } else if chars_eq_str(k, "my") {
        Some("缅甸语")
    } else if chars_eq_str(k, "bo") {
        Some("藏语")
    } else if chars_eq_str(k, "kk") {
        Some("哈萨克语")
    } else if chars_eq_str(k, "mn") {
        Some("蒙古语")
    } else if chars_eq_str(k, "ug") {
        Some("维吾尔语")
    } else {
        None
    }
}

/// Full language name for prompts: the model wants "英语", not "en".
pub fn lang_full_name(code: &str) -> (name: String)
    ensures
        name@ == spec_lang_full_name(code@),
{
    let raw = chars_of(code);
    let t = trim_chars(raw.as_slice());
    let k = lower_chars(t.as_slice());
    match full_name_lookup(k.as_slice()) {
        Some(n) => owned(n),
        None => owned(code),
    }
}

pub open spec fn glossary_line(k: Seq<char>, v: Seq<char>) -> Seq<char> {
    k + " => "@ + v
}

/// The glossary terms in ascending term order, `term => translation`.
pub open spec fn glossary_terms(g: SortedMap<String>) -> Seq<Seq<char>> {
    Seq::new(g.len_spec() as nat, |i: int| glossary_line(g.key_at(i), g.value_at(i)@))
}

/// Glossary section of the prompt; empty without terms.
pub open spec fn glossary_block(g: SortedMap<String>) -> Seq<char> {
    if g.len_spec() == 0 {
        Seq::<char>::empty()
    } else {
        "Glossary (use exactly these translations):\n"@ + join(glossary_terms(g), "; "@) + "\n\n"@
    }
}

/// The prompt's glossary lists every glossary entry: one `term =>
/// translation` item per stored entry, and for each term of the glossary an
/// item with that term and its translation.
pub proof fn law_glossary_lists_every_term(g: SortedMap<String>)
    ensures
        glossary_terms(g).len() == g.len_spec(),
        forall|k: Seq<char>| #[trigger] g.view().contains_key(k) ==> exists|i: int|
            0 <= i < glossary_terms(g).len() && glossary_terms(g)[i] == k + " => "@ + g.view()[k]@,
        forall|i: int| 0 <= i < glossary_terms(g).len() ==> g.view().contains_key(g.key_at(i))
            && (#[trigger] glossary_terms(g)[i]).take(g.key_at(i).len() as int) == g.key_at(i),
{
    let ts = glossary_terms(g);
    g.lemma_view_entries();
    assert forall|k: Seq<char>| #[trigger] g.view().contains_key(k) implies exists|i: int|
        0 <= i < ts.len() && ts[i] == k + " => "@ + g.view()[k]@ by {
        g.lemma_view_value(k);
        let i = choose|i: int| 0 <= i < g.len_spec() && g.key_at(i) == k && g.value_at(i) == g.view()[k];
        assert(ts[i] == glossary_line(g.key_at(i), g.value_at(i)@));
    }
    assert forall|i: int| 0 <= i < ts.len() implies g.view().contains_key(g.key_at(i))
        && (#[trigger] ts[i]).take(g.key_at(i).len() as int) == g.key_at(i) by {
        assert(ts[i] == g.key_at(i) + " => "@ + g.value_at(i)@);
        assert(ts[i].take(g.key_at(i).len() as int) =~= g.key_at(i));
    }
}

/// `t` occurs in `s` as a run of consecutive characters.
pub open spec fn occurs_in(s: Seq<char>, t: Seq<char>) -> bool {
    exists|o: int| 0 <= o && o + t.len() <= s.len() && #[trigger] s.subrange(o, o + t.len()) == t
}

proof fn lemma_occurs_within(a: Seq<char>, b: Seq<char>, c: Seq<char>, t: Seq<char>)
    requires
        occurs_in(b, t),
    ensures
        occurs_in(a + b + c, t),
{
    let o = choose|o: int| 0 <= o && o + t.len() <= b.len() && #[trigger] b.subrange(o, o + t.len()) == t;
    let s = a + b + c;
    assert(s.subrange(a.len() + o, a.len() + o + t.len()) =~= b.subrange(o, o + t.len()));
}

proof fn lemma_join_holds_parts(parts: Seq<Seq<char>>, sep: Seq<char>, i: int)
    requires
        0 <= i < parts.len(),
    ensures
        occurs_in(join(parts, sep), parts[i]),
    decreases parts.len(),
{
    let j = join(parts, sep);
    let t = parts[i];
    if parts.len() == 1 {
        assert(j == parts[0]);
        let o: int = 0;
        assert(j.subrange(o, o + t.len()) =~= t);
        assert(occurs_in(j, t));
    } else if i == parts.len() - 1 {
        let pre = join(parts.drop_last(), sep);
        assert(j == pre + sep + parts.last());
        let o: int = (pre.len() + sep.len()) as int;
        assert(j.subrange(o, o + t.len()) =~= t);
        assert(occurs_in(j, t));
    } else {
        lemma_join_holds_parts(parts.drop_last(), sep, i);
        assert(parts.drop_last()[i] == t);
        let pre = join(parts.drop_last(), sep);
        assert(j == pre + sep + parts.last());
        lemma_occurs_within(Seq::<char>::empty(), pre, sep + parts.last(), t);
        assert(Seq::<char>::empty() + pre + (sep + parts.last()) =~= j);
    }
}

/// Every glossary entry reaches the prompt: for each term of the glossary,
/// `term => translation` occurs in the built prompt.
pub proof fn law_prompt_holds_every_term(
    source_lang: Seq<char>,
    target_lang: Seq<char>,
    g: SortedMap<String>,
    items: Seq<TranslateItem>,
)
    ensures
        forall|k: Seq<char>| #[trigger] g.view().contains_key(k) ==> occurs_in(
            spec_build_prompt(source_lang, target_lang, g, items),
            k + " => "@ + g.view()[k]@,
        ),
{
    law_glossary_lists_every_term(g);
    assert forall|k: Seq<char>| #[trigger] g.view().contains_key(k) implies occurs_in(
        spec_build_prompt(source_lang, target_lang, g, items),
        k + " => "@ + g.view()[k]@,
    ) by {
        let ts = glossary_terms(g);
        let i = choose|i: int| 0 <= i < ts.len() && ts[i] == k + " => "@ + g.view()[k]@;
        lemma_join_holds_parts(ts, "; "@, i);
        assert(g.len_spec() > 0);
        let head = "Glossary (use exactly these translations):\n"@;
        let tail = "\n\n"@;
        lemma_occurs_within(head, join(ts, "; "@), tail, ts[i]);
        let pre = "将以下漫画对白从"@ + spec_lang_full_name(source_lang) + "翻译成"@ + spec_lang_full_name(target_lang)
            + "。保留每一行的含义、语气和情绪强度；输出长度适合漫画排字。\n"@;
        let post = "输出格式：每行一条，格式为\"[id] 译文\"，不要任何额外说明。\n\n"@ + join(
            items.map_values(|it: TranslateItem| item_line(it)),
            "\n"@,
        );
        lemma_occurs_within(pre, glossary_block(g), post, ts[i]);
        assert(pre + glossary_block(g) + post =~= spec_build_prompt(source_lang, target_lang, g, items));
    }
}

pub open spec fn item_line(it: TranslateItem) -> Seq<char> {
    "["@ + it.id@ + "] "@ + it.source_text@
}

/// The prompt: instruction with both language names, the glossary block,
/// the output-format rule, then one `[id] text` line per bubble in order.
pub open spec fn spec_build_prompt(
    source_lang: Seq<char>,
    target_lang: Seq<char>,
    g: SortedMap<String>,
    items: Seq<TranslateItem>,
) -> Seq<char> {
    "将以下漫画对白从"@ + spec_lang_full_name(source_lang) + "翻译成"@ + spec_lang_full_name(target_lang)
        + "。保留每一行的含义、语气和情绪强度；输出长度适合漫画排字。\n"@ + glossary_block(g)
        + "输出格式：每行一条，格式为\"[id] 译文\"，不要任何额外说明。\n\n"@ + join(
        items.map_values(|it: TranslateItem| item_line(it)),
        "\n"@,
    )
}

/// Builds the prompt for a batch of bubbles in reading order, with the
/// glossary embedded inline.
pub fn build_prompt(
    source_lang: &str,
    target_lang: &str,
    glossary: &SortedMap<String>,
    items: &[TranslateItem],
) -> (p: String)
    ensures
        p@ == spec_build_prompt(source_lang@, target_lang@, *glossary, items@),
{
    let mut block = String::new();
    if !glossary.is_empty() {
        let mut terms: Vec<String> = Vec::new();
        let mut i: usize = 0;
        while i < glossary.len()
            invariant
                i <= glossary.len_spec(),
                string_seq_views(terms@) == glossary_terms(*glossary).take(i as int),
            decreases glossary.len_spec() - i,
        {
            let (k, v) = glossary.entry(i);
            let mut t = k.clone();
            t.append(" => ");
            t.append(v.as_str());
            let ghost before = string_seq_views(terms@);
            terms.push(t);
            assert(string_seq_views(terms@) =~= before.push(t@));
            assert(glossary_terms(*glossary).take(i + 1) =~= glossary_terms(*glossary).take(i as int).push(t@));
            i += 1;
        }
        assert(glossary_terms(*glossary).take(glossary.len_spec() as int) =~= glossary_terms(*glossary));
        block.append("Glossary (use exactly these translations):\n");
        let joined = join_strings(&terms, "; ");
        block.append(joined.as_str());
        block.append("\n\n");
    }
    let mut lines_v: Vec<String> = Vec::new();
    let mut j: usize = 0;
    while j < items.len()
        invariant
            j <= items@.len(),
            string_seq_views(lines_v@) == items@.take(j as int).map_values(|it: TranslateItem| item_line(it)),
        decreases items@.len() - j,
    {
        let mut l = String::new();
        l.append("[");
        l.append(items[j].id.as_str());
        l.append("] ");
        l.append(items[j].source_text.as_str());
        let ghost before = string_seq_views(lines_v@);
        lines_v.push(l);
        assert(string_seq_views(lines_v@) =~= before.push(l@));
        assert(items@.take(j + 1).map_values(|it: TranslateItem| item_line(it)) =~= items@.take(j as int).map_values(|it: TranslateItem| item_line(it)).push(item_line(items@[j as int])));
        j += 1;
    }
    assert(items@.take(items@.len() as int) =~= items@);
    let body = join_strings(&lines_v, "\n");
    let src = lang_full_name(source_lang);
    let tgt = lang_full_name(target_lang);
    let mut p = String::new();
    p.append("将以下漫画对白从");
    p.append(src.as_str());
    p.append("翻译成");
    p.append(tgt.as_str());
    p.append("。保留每一行的含义、语气和情绪强度；输出长度适合漫画排字。\n");
    p.append(block.as_str());
    p.append("输出格式：每行一条，格式为\"[id] 译文\"，不要任何额外说明。\n\n");
    p.append(body.as_str());
    p
}

/// One output line read as `[id] translation`: trimmed, opened by `[`,
/// with the id up to the first `]` and a non-empty translation after it
/// (both trimmed).
pub open spec fn parse_line(l: Seq<char>) -> Option<(Seq<char>, Seq<char>)> {
    let t = trim(l);
    if t.len() > 0 && t[0] == '[' {
        let rest = t.drop_first();
        if exists|j: int| first_index_of(rest, ']', j) {
            let j = choose|j: int| first_index_of(rest, ']', j);
            let id = trim(rest.take(j));
            let text = trim(rest.skip(j + 1));
            if text.len() > 0 {
                Some((id, text))
            } else {
                None
            }
        } else {
            None
        }
    } else {
        None
    }
}

/// The translation for `id` on the last output line that gives one.
pub open spec fn last_translation(ls: Seq<Seq<char>>, id: Seq<char>) -> Option<Seq<char>>
    decreases ls.len(),
{
    if ls.len() == 0 {
        None
    } else {
        match parse_line(ls.last()) {
            Some(p) => if p.0 == id {
                Some(p.1)
            } else {
                last_translation(ls.drop_last(), id)
            },
            None => last_translation(ls.drop_last(), id),
        }
    }
}

/// Each bubble id paired with the text the model answered for it; a bubble the
/// output does not mention keeps its untranslated text.
pub open spec fn spec_parse_output(output: Seq<char>, items: Seq<TranslateItem>) -> Seq<(Seq<char>, Seq<char>)> {
    items.map_values(|it: TranslateItem| (it.id@, match last_translation(lines(output), it.id@) {
        Some(t) => t,
        None => it.source_text@,
    }))
}

pub open spec fn pair_views(v: Seq<(String, String)>) -> Seq<(Seq<char>, Seq<char>)> {
    v.map_values(|p: (String, String)| (p.0@, p.1@))
}

fn parse_line_exec(l: &[char]) -> (r: Option<(Vec<char>, Vec<char>)>)
    ensures
        match r {
            Some(p) => parse_line(l@) == Some((p.0@, p.1@)),
            None => parse_line(l@) is None,
        },
{
    let t = trim_chars(l);
    if t.len() == 0 || t[0] != '[' {
        return None;
    }
    let ghost rest = t@.drop_first();
    match find_char_from(t.as_slice(), ']', 1) {
        Some(close) => {
            proof {
                assert(first_index_of(rest, ']', close - 1));
                assert forall|j: int| first_index_of(rest, ']', j) implies j == close - 1 by {
                    if j < close - 1 {
                        assert(t@[j + 1] != ']');
                    } else if j > close - 1 {
                        assert(rest[close - 1] == ']');
                    }
                }
            }
            let id_raw = sub_chars(t.as_slice(), 1, close);
            let text_raw = sub_chars(t.as_slice(), close + 1, t.len());
            assert(id_raw@ =~= rest.take(close - 1));
            assert(text_raw@ =~= rest.skip(close as int));
            let id = trim_chars(id_raw.as_slice());
            let text = trim_chars(text_raw.as_slice());
            if text.len() > 0 {
                Some((id, text))
            } else {
                None
            }
        },
        None => {
            proof {
                assert forall|j: int| !first_index_of(rest, ']', j) by {
                    if 0 <= j < rest.len() {
                        assert(t@[j + 1] != ']');
                    }
                }
            }
            None
        },
    }
}

pub open spec fn parsed_views(v: Seq<Option<(Vec<char>, Vec<char>)>>) -> Seq<Option<(Seq<char>, Seq<char>)>> {
    v.map_values(|o: Option<(Vec<char>, Vec<char>)>| match o {
        Some(p) => Some((p.0@, p.1@)),
        None => None,
    })
}

/// Parses the model output back into (id, translation) pairs; a bubble
/// whose id the output misses keeps its source text.
pub fn parse_output(output: &str, items: &[TranslateItem]) -> (r: Vec<(String, String)>)
    ensures
        pair_views(r@) == spec_parse_output(output@, items@),
{
    let oc = chars_of(output);
    let ls = lines_of(oc.as_slice());
    let ghost lsv = lines(output@);
    let mut parsed: Vec<Option<(Vec<char>, Vec<char>)>> = Vec::new();
    let mut i: usize = 0;
    while i < ls.len()
        invariant
            views(ls@) == lsv,
            lsv == lines(output@),
            i <= ls@.len(),
            parsed@.len() == i,
            forall|k: int| 0 <= k < i ==> #[trigger] parsed_views(parsed@)[k] == parse_line(lsv[k]),
        decreases ls@.len() - i,
    {
        let p = parse_line_exec(ls[i].as_slice());
        proof { assert(views(ls@)[i as int] == ls@[i as int]@); }
        let ghost before = parsed@;
        parsed.push(p);
        proof {
            assert forall|k: int| 0 <= k < i + 1 implies #[trigger] parsed_views(parsed@)[k] == parse_line(lsv[k]) by {
                if k < i {
                    assert(parsed@[k] == before[k]);
                    assert(parsed_views(before)[k] == parse_line(lsv[k]));
                } else {
                    assert(parsed@[k] == p);
                }
            }
        }
        i += 1;
    }
    let mut out: Vec<(String, String)> = Vec::new();
    let mut j: usize = 0;
    while j < items.len()
        invariant
            lsv == lines(output@),
            parsed@.len() == lsv.len(),
            forall|k: int| 0 <= k < lsv.len() ==> #[trigger] parsed_views(parsed@)[k] == parse_line(lsv[k]),
            j <= items@.len(),
            pair_views(out@) == spec_parse_output(output@, items@.take(j as int)),
        decreases items@.len() - j,
    {
        let id = chars_of(items[j].id.as_str());
        let mut k: usize = parsed.len();
        let mut found: Option<String> = None;
        assert(lsv.take(k as int) =~= lsv);
        while k > 0
            invariant_except_break
                found is None,
                last_translation(lsv, id@) == last_translation(lsv.take(k as int), id@),
            invariant
                k <= parsed@.len(),
                parsed@.len() == lsv.len(),
                id@ == items@[j as int].id@,
                forall|q: int| 0 <= q < lsv.len() ==> #[trigger] parsed_views(parsed@)[q] == parse_line(lsv[q]),
            ensures
                match found {
                    Some(t) => last_translation(lsv, id@) == Some(t@),
                    None => last_translation(lsv, id@) is None,
                },
            decreases k,
        {
            let ghost pre = lsv.take(k as int);
            assert(pre.drop_last() =~= lsv.take(k - 1));
            assert(pre.last() == lsv[k - 1]);
            assert(parsed_views(parsed@)[k - 1] == parse_line(lsv[k - 1]));
            match &parsed[k - 1] {
                Some(p) => {
                    if crate::text::chars_eq(p.0.as_slice(), id.as_slice()) {
                        let t = string_of(p.1.as_slice());
                        assert(last_translation(pre, id@) == Some(t@));
                        assert(last_translation(lsv, id@) == Some(t@));
                        found = Some(t);
                        assert(found matches Some(f) && f@ == t@);
                        break;
                    }
                },
                None => {},
            }
            k -= 1;
        }
        proof {
            if found is None && k == 0 {
                assert(lsv.take(0) =~= Seq::<Seq<char>>::empty());
            }
        }
        let text = match found {
            Some(t) => t,
            None => items[j].source_text.clone(),
        };
        let ghost before = pair_views(out@);
        let pid = items[j].id.clone();
        out.push((pid, text));
        proof {
            assert(pair_views(out@) =~= before.push((pid@, text@)));
            assert(items@.take(j + 1) =~= items@.take(j as int).push(items@[j as int]));
            assert(spec_parse_output(output@, items@.take(j + 1)) =~= spec_parse_output(output@, items@.take(j as int)).push((pid@, text@)));
        }
        j += 1;
    }
    assert(items@.take(items@.len() as int) =~= items@);
    out
}

/// Error reported by a translation backend.
#[derive(Debug, Clone)]
pub struct ProviderError {
    pub message: String,
}

/// A translation backend: turns a prompt into model output.
pub trait TranslateProvider {
    fn translate_batch(&self, prompt: &str) -> Result<String, ProviderError>;
}

/// The echo answer to one prompt line: a line `[id] text` becomes
/// `[id] <text>` (text trimmed); other lines give nothing.
pub open spec fn mock_line(l: Seq<char>) -> Option<Seq<char>> {
    if l.len() > 0 && l[0] == '[' {
        let rest = l.drop_first();
        if exists|j: int| first_index_of(rest, ']', j) {
            let j = choose|j: int| first_index_of(rest, ']', j);
            Some("["@ + rest.take(j) + "] <"@ + trim(rest.skip(j + 1)) + ">"@)
        } else {
            None
        }
    } else {
        None
    }
}

pub open spec fn mock_lines(ls: Seq<Seq<char>>) -> Seq<Seq<char>>
    decreases ls.len(),
{
    if ls.len() == 0 {
        Seq::<Seq<char>>::empty()
    } else {
        let r = mock_lines(ls.drop_last());
        match mock_line(ls.last()) {
            Some(m) => r.push(m),
            None => r,
        }
    }
}

/// The echo answer to a whole prompt, one answer line per bubble line.
pub open spec fn spec_mock_translate(prompt: Seq<char>) -> Seq<char> {
    join(mock_lines(lines(prompt)), "\n"@)
}

/// Echo "model" for tests and previews: tags every bubble line.
pub struct MockTranslate;

fn mock_line_exec(l: &[char]) -> (r: Option<String>)
    ensures
        match r {
            Some(m) => mock_line(l@) == Some(m@),
            None => mock_line(l@) is None,
        },
{
    if l.len() == 0 || l[0] != '[' {
        return None;
    }
    let ghost rest = l@.drop_first();
    match find_char_from(l, ']', 1) {
        Some(close) => {
            proof {
                assert(first_index_of(rest, ']', close - 1));
                assert forall|j: int| first_index_of(rest, ']', j) implies j == close - 1 by {
                    if j < close - 1 {
                        assert(l@[j + 1] != ']');
                    } else if j > close - 1 {
                        assert(rest[close - 1] == ']');
                    }
                }
            }
            let id = sub_chars(l, 1, close);
            let text_raw = sub_chars(l, close + 1, l.len());
            assert(id@ =~= rest.take(close - 1));
            assert(text_raw@ =~= rest.skip(close as int));
            let text = trim_chars(text_raw.as_slice());
            let mut m = String::new();
            m.append("[");
            let ids = string_of(id.as_slice());
            m.append(ids.as_str());
            m.append("] <");
            let ts = string_of(text.as_slice());
            m.append(ts.as_str());
            m.append(">");
            Some(m)
        },
        None => {
            proof {
                assert forall|j: int| !first_index_of(rest, ']', j) by {
                    if 0 <= j < rest.len() {
                        assert(l@[j + 1] != ']');
                    }
                }
            }
            None
        },
    }
}

impl TranslateProvider for MockTranslate {
    fn translate_batch(&self, prompt: &str) -> (r: Result<String, ProviderError>)
        ensures
            r matches Ok(out) && out@ == spec_mock_translate(prompt@),
    {
        let pc = chars_of(prompt);
        let ls = lines_of(pc.as_slice());
        let mut out: Vec<String> = Vec::new();
        let mut i: usize = 0;
        while i < ls.len()
            invariant
                views(ls@) == lines(prompt@),
                i <= ls@.len(),
                string_seq_views(out@) == mock_lines(views(ls@).take(i as int)),
            decreases ls@.len() - i,
        {
            let ghost pre = views(ls@).take(i + 1);
            assert(pre.drop_last() =~= views(ls@).take(i as int));
            assert(pre.last() == ls@[i as int]@);
            let ghost before = string_seq_views(out@);
            match mock_line_exec(ls[i].as_slice()) {
                Some(m) => {
                    out.push(m);
                    assert(string_seq_views(out@) =~= before.push(m@));
                },
                None => {},
            }
            i += 1;
        }
        assert(views(ls@).take(ls@.len() as int) =~= views(ls@));
        Ok(join_strings(&out, "\n"))
    }
}

} // verus!

verus! {

/// A line answered for a bubble: `[id] <text>`.
pub open spec fn tagged_line(id: Seq<char>, t: Seq<char>) -> Seq<char> {
    "["@ + id + "] <"@ + t + ">"@
}

/// `c` does not occur in `s`.
pub open spec fn lacks(s: Seq<char>, c: char) -> bool {
    forall|i: int| 0 <= i < s.len() ==> s[i] != c
}

/// Inside `"[" + id + rest` whose id holds no `]`, the first `]` after the
/// bracket ends the id.
proof fn lemma_bracket_split(id: Seq<char>, tail: Seq<char>)
    requires
        lacks(id, ']'),
        tail.len() > 0,
        tail[0] == ']',
    ensures
        first_index_of(id + tail, ']', id.len() as int),
        forall|j: int| first_index_of(id + tail, ']', j) ==> j == id.len(),
        (id + tail).take(id.len() as int) == id,
        (id + tail).skip(id.len() as int + 1) == tail.drop_first(),
{
    let r = id + tail;
    assert(r[id.len() as int] == ']');
    assert forall|k: int| 0 <= k < id.len() implies r[k] != ']' by {
        assert(r[k] == id[k]);
    }
    assert forall|j: int| first_index_of(r, ']', j) implies j == id.len() by {
        if j < id.len() {
            assert(r[j] == id[j]);
        }
    }
    assert(r.take(id.len() as int) =~= id);
    assert(r.skip(id.len() as int + 1) =~= tail.drop_first());
}

/// The echo answer to a bubble line `[id] text` is `[id] <trimmed text>`.
proof fn lemma_mock_item(id: Seq<char>, t: Seq<char>)
    requires
        lacks(id, ']'),
    ensures
        mock_line("["@ + id + "] "@ + t) == Some(tagged_line(id, trim(t))),
{
    reveal_strlit("[");
    reveal_strlit("] ");
    let l = "["@ + id + "] "@ + t;
    let tail = "] "@ + t;
    assert(l.drop_first() =~= id + tail);
    assert(tail[0] == ']');
    lemma_bracket_split(id, tail);
    assert(tail.drop_first() =~= seq![' '] + t);
    crate::text::lemma_trim_leading_ws(' ', t);
    assert(l[0] == '[');
}

/// A tagged line reads back as its id and its bracketed text.
proof fn lemma_parse_tagged(id: Seq<char>, t: Seq<char>)
    requires
        lacks(id, ']'),
        trim(id) == id,
    ensures
        parse_line(tagged_line(id, t)) == Some((id, "<"@ + t + ">"@)),
{
    reveal_strlit("[");
    reveal_strlit("] <");
    reveal_strlit(">");
    reveal_strlit("<");
    let m = tagged_line(id, t);
    assert(m[0] == '[');
    assert(m.last() == '>');
    crate::text::lemma_trim_visible(m);
    let tail = "] <"@ + t + ">"@;
    assert(m.drop_first() =~= id + tail);
    assert(tail[0] == ']');
    lemma_bracket_split(id, tail);
    let v = "<"@ + t + ">"@;
    assert(tail.drop_first() =~= seq![' '] + v);
    crate::text::lemma_trim_leading_ws(' ', v);
    assert(v[0] == '<' && v.last() == '>');
    crate::text::lemma_trim_visible(v);
}

/// Echo answers of consecutive line runs follow each other.
proof fn lemma_mock_lines_concat(x: Seq<Seq<char>>, y: Seq<Seq<char>>)
    ensures
        mock_lines(x + y) == mock_lines(x) + mock_lines(y),
    decreases y.len(),
{
    if y.len() == 0 {
        assert(x + y =~= x);
        assert(mock_lines(x) + mock_lines(y) =~= mock_lines(x));
    } else {
        lemma_mock_lines_concat(x, y.drop_last());
        assert((x + y).drop_last() =~= x + y.drop_last());
        assert((x + y).last() == y.last());
        match mock_line(y.last()) {
            Some(m) => assert(mock_lines(x + y) =~= mock_lines(x) + mock_lines(y)),
            None => {},
        }
    }
}

/// When every line has an echo answer, the answers come line for line.
proof fn lemma_mock_lines_all(ls: Seq<Seq<char>>)
    requires
        forall|i: int| 0 <= i < ls.len() ==> #[trigger] mock_line(ls[i]) is Some,
    ensures
        mock_lines(ls) == Seq::new(ls.len(), |i: int| mock_line(ls[i])->0),
    decreases ls.len(),
{
    if ls.len() > 0 {
        let p = ls.drop_last();
        assert forall|i: int| 0 <= i < p.len() implies #[trigger] mock_line(p[i]) is Some by {
            assert(p[i] == ls[i]);
        }
        lemma_mock_lines_all(p);
        assert(mock_line(ls[ls.len() - 1]) is Some);
        assert(mock_lines(ls) =~= Seq::new(ls.len(), |i: int| mock_line(ls[i])->0));
    } else {
        assert(mock_lines(ls) =~= Seq::new(ls.len(), |i: int| mock_line(ls[i])->0));
    }
}

/// An answer on a later line hides every earlier one for the same id.
proof fn lemma_last_translation_suffix(x: Seq<Seq<char>>, y: Seq<Seq<char>>, id: Seq<char>)
    requires
        last_translation(y, id) is Some,
    ensures
        last_translation(x + y, id) == last_translation(y, id),
    decreases y.len(),
{
    assert((x + y).drop_last() =~= x + y.drop_last());
    assert((x + y).last() == y.last());
    match parse_line(y.last()) {
        Some(p) => {
            if p.0 != id {
                lemma_last_translation_suffix(x, y.drop_last(), id);
            }
        },
        None => {
            lemma_last_translation_suffix(x, y.drop_last(), id);
        },
    }
}

} // verus!

verus! {

/// An echo answer of a line without line feeds is one visible line ending
/// in `>`.
proof fn lemma_mock_answer_shape(l: Seq<char>)
    requires
        lacks(l, '\n'),
        mock_line(l) is Some,
    ensures
        lacks(mock_line(l)->0, '\n'),
        (mock_line(l)->0).len() > 0,
        (mock_line(l)->0).last() == '>',
{
    reveal_strlit("[");
    reveal_strlit("] <");
    reveal_strlit(">");
    let rest = l.drop_first();
    let j = choose|j: int| first_index_of(rest, ']', j);
    let a = rest.take(j);
    let b = trim(rest.skip(j + 1));
    let sk = rest.skip(j + 1);
    assert(lacks(sk, '\n')) by {
        assert forall|i: int| 0 <= i < sk.len() implies #[trigger] sk[i] != '\n' by {
            assert(sk[i] == l[i + j + 2]);
        }
    }
    crate::text::lemma_trim_lacks(rest.skip(j + 1), '\n');
    let m = "["@ + a + "] <"@ + b + ">"@;
    assert(mock_line(l)->0 == m);
    assert forall|i: int| 0 <= i < m.len() implies m[i] != '\n' by {
        if 1 <= i < 1 + a.len() {
            assert(m[i] == a[i - 1]);
            assert(a[i - 1] == l[i]);
        } else if 1 + a.len() + 3 <= i < 1 + a.len() + 3 + b.len() {
            assert(m[i] == b[i - 1 - a.len() - 3]);
        }
    }
}

/// Echo answers joined by line feeds read back line for line.
proof fn lemma_lines_of_answers(ms: Seq<Seq<char>>)
    requires
        forall|i: int| 0 <= i < ms.len() ==> lacks(#[trigger] ms[i], '\n') && ms[i].len() > 0 && ms[i].last() == '>',
    ensures
        lines(join(ms, "\n"@)) == ms,
{
    reveal_strlit("\n");
    assert("\n"@ =~= seq!['\n']);
    if ms.len() == 0 {
        assert(join(ms, "\n"@) =~= Seq::<char>::empty());
        assert(crate::text::split_on(Seq::<char>::empty(), '\n') =~= seq![Seq::<char>::empty()]);
        assert(lines(join(ms, "\n"@)) =~= ms);
    } else {
        assert(ms.last() == ms[ms.len() - 1]);
        assert forall|i: int, j: int| 0 <= i < ms.len() && 0 <= j < ms[i].len() implies #[trigger] ms[i][j] != '\n' by {
            assert(lacks(ms[i], '\n'));
        }
        crate::text::lemma_lines_join(ms);
        assert(lines(join(ms, "\n"@)) =~= ms);
    }
}

pub open spec fn item_answer(it: TranslateItem) -> Seq<char> {
    tagged_line(it.id@, trim(it.source_text@))
}

/// Among the answers to distinct bubbles, bubble `k`'s id reads back its
/// own answer.
proof fn lemma_answer_found(items: Seq<TranslateItem>, k: int, n: int)
    requires
        0 <= k < n <= items.len(),
        forall|i: int| 0 <= i < items.len() ==> lacks(#[trigger] items[i].id@, ']') && trim(items[i].id@) == items[i].id@,
        forall|i: int, j: int| 0 <= i < j < items.len() ==> (#[trigger] items[i]).id@ != (#[trigger] items[j]).id@,
    ensures
        last_translation(Seq::new(n as nat, |i: int| item_answer(items[i])), items[k].id@)
            == Some("<"@ + trim(items[k].source_text@) + ">"@),
    decreases n,
{
    let ms = Seq::new(n as nat, |i: int| item_answer(items[i]));
    assert(ms.last() == item_answer(items[n - 1]));
    lemma_parse_tagged(items[n - 1].id@, trim(items[n - 1].source_text@));
    if n - 1 != k {
        assert(ms.drop_last() =~= Seq::new((n - 1) as nat, |i: int| item_answer(items[i])));
        if k < n - 1 {
            assert(items[k].id@ != items[n - 1].id@);
        }
        lemma_answer_found(items, k, n - 1);
    }
}

/// Round trip through the echo backend: every bubble of a prompt reads back
/// as its own text, trimmed and bracketed, when bubble ids are distinct,
/// free of `]`, line feeds and outer white space, and texts hold no line
/// feed.
pub proof fn law_mock_roundtrip(source_lang: Seq<char>, target_lang: Seq<char>, g: SortedMap<String>, items: Seq<TranslateItem>)
    requires
        forall|i: int| 0 <= i < items.len() ==> {
            &&& lacks(#[trigger] items[i].id@, ']')
            &&& lacks(items[i].id@, '\n')
            &&& trim(items[i].id@) == items[i].id@
            &&& lacks(items[i].source_text@, '\n')
        },
        forall|i: int, j: int| 0 <= i < j < items.len() ==> (#[trigger] items[i]).id@ != (#[trigger] items[j]).id@,
    ensures
        forall|k: int| 0 <= k < items.len() ==> #[trigger] spec_parse_output(
            spec_mock_translate(spec_build_prompt(source_lang, target_lang, g, items)),
            items,
        )[k] == (items[k].id@, "<"@ + trim(items[k].source_text@) + ">"@),
{
    reveal_strlit("\n");
    reveal_strlit("[");
    reveal_strlit("] ");
    reveal_strlit("输出格式：每行一条，格式为\"[id] 译文\"，不要任何额外说明。\n\n");
    let n = items.len();
    if n > 0 {
        let fmt = "输出格式：每行一条，格式为\"[id] 译文\"，不要任何额外说明。\n\n"@;
        let head = "将以下漫画对白从"@ + spec_lang_full_name(source_lang) + "翻译成"@ + spec_lang_full_name(target_lang)
            + "。保留每一行的含义、语气和情绪强度；输出长度适合漫画排字。\n"@ + glossary_block(g) + fmt;
        let il = items.map_values(|it: TranslateItem| item_line(it));
        let body = join(il, "\n"@);
        let p = spec_build_prompt(source_lang, target_lang, g, items);
        assert(p == head + body);
        assert(head.last() == '\n');
        crate::text::lemma_lines_concat(head, body);
        // the bubble lines
        assert("\n"@ =~= seq!['\n']);
        assert forall|i: int, j: int| 0 <= i < il.len() && 0 <= j < il[i].len() implies #[trigger] il[i][j] != '\n' by {
            let it = items[i];
            assert(il[i] == "["@ + it.id@ + "] "@ + it.source_text@);
            if 1 <= j < 1 + it.id@.len() {
                assert(il[i][j] == it.id@[j - 1]);
            } else if j >= 1 + it.id@.len() + 2 {
                assert(il[i][j] == it.source_text@[j - 1 - it.id@.len() - 2]);
            }
        }
        assert(il.last().len() > 0);
        crate::text::lemma_lines_join(il);
        let bl = lines(body);
        assert forall|i: int| 0 <= i < bl.len() implies #[trigger] mock_line(bl[i]) == Some(item_answer(items[i])) by {
            let it = items[i];
            let t = it.source_text@;
            lemma_mock_item(it.id@, t);
            if i + 1 < n && t.len() > 0 && t.last() == '\r' {
                assert(il[i] == "["@ + it.id@ + "] "@ + t);
                assert(bl[i] == il[i].drop_last());
                assert(il[i].drop_last() =~= "["@ + it.id@ + "] "@ + t.drop_last());
                lemma_mock_item(it.id@, t.drop_last());
                crate::text::lemma_trim_drop_trailing_ws(t);
            } else if i + 1 < n {
                assert(bl[i] == crate::text::strip_one_cr(il[i]));
                if t.len() == 0 {
                    assert(il[i].last() == ' ');
                } else {
                    assert(il[i].last() == t.last());
                }
                assert(bl[i] == il[i]);
            } else {
                assert(bl[i] == il[i]);
            }
        }
        lemma_mock_lines_all(bl);
        let mi = Seq::new(n, |i: int| item_answer(items[i]));
        assert(mock_lines(bl) =~= mi);
        let hl = lines(head);
        lemma_mock_lines_concat(hl, bl);
        let mh = mock_lines(hl);
        // every answer line is a single visible line
        crate::text::lemma_lines_lack_newline(head);
        lemma_answers_shape(hl);
        assert forall|i: int| 0 <= i < mi.len() implies lacks(#[trigger] mi[i], '\n') && mi[i].len() > 0 && mi[i].last() == '>' by {
            reveal_strlit(">");
            let it = items[i];
            let ans = item_answer(it);
            crate::text::lemma_trim_lacks(it.source_text@, '\n');
            let b = trim(it.source_text@);
            reveal_strlit("] <");
            assert forall|j: int| 0 <= j < ans.len() implies ans[j] != '\n' by {
                if 1 <= j < 1 + it.id@.len() {
                    assert(ans[j] == it.id@[j - 1]);
                } else if 1 + it.id@.len() + 3 <= j < 1 + it.id@.len() + 3 + b.len() {
                    assert(ans[j] == b[j - 1 - it.id@.len() - 3]);
                }
            }
        }
        let all = mh + mi;
        assert forall|i: int| 0 <= i < all.len() implies lacks(#[trigger] all[i], '\n') && all[i].len() > 0 && all[i].last() == '>' by {
            if i < mh.len() {
                assert(all[i] == mh[i]);
            } else {
                assert(all[i] == mi[i - mh.len()]);
            }
        }
        lemma_lines_of_answers(all);
        assert(spec_mock_translate(p) == join(all, "\n"@));
        assert forall|k: int| 0 <= k < items.len() implies #[trigger] spec_parse_output(spec_mock_translate(p), items)[k]
            == (items[k].id@, "<"@ + trim(items[k].source_text@) + ">"@) by {
            lemma_answer_found(items, k, n as int);
            lemma_last_translation_suffix(mh, mi, items[k].id@);
        }
    }
}

/// Echo answers of lines without line feeds are visible single lines.
proof fn lemma_answers_shape(ls: Seq<Seq<char>>)
    requires
        forall|i: int, j: int| 0 <= i < ls.len() && 0 <= j < ls[i].len() ==> #[trigger] ls[i][j] != '\n',
    ensures
        forall|i: int| 0 <= i < mock_lines(ls).len() ==> lacks(#[trigger] mock_lines(ls)[i], '\n')
            && mock_lines(ls)[i].len() > 0 && mock_lines(ls)[i].last() == '>',
    decreases ls.len(),
{
    if ls.len() > 0 {
        let p = ls.drop_last();
        assert forall|i: int, j: int| 0 <= i < p.len() && 0 <= j < p[i].len() implies #[trigger] p[i][j] != '\n' by {
            assert(p[i] == ls[i]);
        }
        lemma_answers_shape(p);
        match mock_line(ls.last()) {
            Some(m) => {
                assert(lacks(ls.last(), '\n')) by {
                    assert forall|j: int| 0 <= j < ls.last().len() implies ls.last()[j] != '\n' by {
                        assert(ls[ls.len() - 1][j] != '\n');
                    }
                }
                lemma_mock_answer_shape(ls.last());
                let r = mock_lines(p);
                assert forall|i: int| 0 <= i < r.push(m).len() implies lacks(#[trigger] r.push(m)[i], '\n')
                    && r.push(m)[i].len() > 0 && r.push(m)[i].last() == '>' by {
                    if i < r.len() {
                        assert(r.push(m)[i] == r[i]);
                    }
                }
            },
            None => {},
        }
    }
}

} // verus!
