//! Decisions of the desktop and command-line hosts: argument and node-name
//! parsing, data URLs, download URLs, folder import grouping and the glue
//! between pipeline steps.

use vstd::prelude::*;
use vstd::string::StringExecFns;
use crate::graph::{PipelineGraph, StepKind, has_kind, spec_is_enabled};
use crate::project::Lang;
use crate::registry::ModelSpec;
use crate::text::{chars_of, chars_eq_str, lower_chars, lower, owned, push_char, string_of, join,
    join_strings, string_seq_views};

verus! {

/// Standard base64 alphabet.
pub open spec fn b64_char(n: int) -> char {
    if n < 26 {
        ((n + 65) as u32) as char
    } else if n < 52 {
        ((n - 26 + 97) as u32) as char
    } else if n < 62 {
        ((n - 52 + 48) as u32) as char
    } else if n == 62 {
        '+'
    } else {
        '/'
    }
}

/// The four output characters of one input chunk of one to three bytes
/// (missing bytes count as zero and their characters become `=`).
pub open spec fn b64_chunk(c: Seq<u8>) -> Seq<char> {
    let b0 = c[0] as int;
    let b1 = if c.len() > 1 { c[1] as int } else { 0 };
    let b2 = if c.len() > 2 { c[2] as int } else { 0 };
    seq![
        b64_char(b0 / 4),
        b64_char((b0 % 4) * 16 + b1 / 16),
        if c.len() > 1 { b64_char((b1 % 16) * 4 + b2 / 64) } else { '=' },
        if c.len() > 2 { b64_char(b2 % 64) } else { '=' },
    ]
}

/// Standard padded base64 of `data`, three bytes at a time.
pub open spec fn spec_base64(data: Seq<u8>) -> Seq<char>
    decreases data.len(),
{
    if data.len() == 0 {
        Seq::<char>::empty()
    } else if data.len() <= 3 {
        b64_chunk(data)
    } else {
        b64_chunk(data.take(3)) + spec_base64(data.skip(3))
    }
}

fn b64_exec(n: u32) -> (c: char)
    requires
        n < 64,
    ensures
        c == b64_char(n as int),
{
    if n < 26 {
        ((n + 65) as u8) as char
    } else if n < 52 {
        ((n - 26 + 97) as u8) as char
    } else if n < 62 {
        ((n - 52 + 48) as u8) as char
    } else if n == 62 {
        '+'
    } else {
        '/'
    }
}

/// Standard padded base64 encoding.
pub fn base64_encode(data: &[u8]) -> (out: String)
    ensures
        out@ == spec_base64(data@),
{
    let mut out = String::new();
    let mut i: usize = 0;
    assert(data@.skip(0) =~= data@);
    while i < data.len()
        invariant
            i <= data@.len(),
            out@ + spec_base64(data@.skip(i as int)) == spec_base64(data@),
        decreases data@.len() - i,
    {
        let rem = data.len() - i;
        let b0 = data[i] as u32;
        let b1: u32 = if rem > 1 { data[i + 1] as u32 } else { 0 };
        let b2: u32 = if rem > 2 { data[i + 2] as u32 } else { 0 };
        let ghost rest = data@.skip(i as int);
        let ghost chunk = if rest.len() <= 3 { rest } else { rest.take(3) };
        assert(chunk[0] == b0);
        assert(chunk.len() > 1 ==> chunk[1] == b1);
        assert(chunk.len() > 2 ==> chunk[2] == b2);
        let ghost before = out@;
        push_char(&mut out, b64_exec(b0 / 4));
        push_char(&mut out, b64_exec((b0 % 4) * 16 + b1 / 16));
        push_char(&mut out, if rem > 1 { b64_exec((b1 % 16) * 4 + b2 / 64) } else { '=' });
        push_char(&mut out, if rem > 2 { b64_exec(b2 % 64) } else { '=' });
        assert(out@ =~= before + b64_chunk(chunk));
        if rem <= 3 {
            assert(data@.skip(data@.len() as int) =~= Seq::<u8>::empty());
            i = data.len();
        } else {
            assert(rest.skip(3) =~= data@.skip(i + 3));
            i += 3;
        }
    }
    assert(data@.skip(data@.len() as int) =~= Seq::<u8>::empty());
    out
}

/// Base64 output is four characters per started group of three bytes.
pub proof fn law_base64_length(data: Seq<u8>)
    ensures
        spec_base64(data).len() == 4 * ((data.len() + 2) / 3),
    decreases data.len(),
{
    if data.len() > 3 {
        law_base64_length(data.skip(3));
    }
}

/// Data URL of a rendered page: none for an empty artifact, otherwise the
/// PNG bytes in base64.
pub fn png_data_url(bytes: &[u8]) -> (r: Option<String>)
    ensures
        bytes@.len() == 0 ==> r is None,
        bytes@.len() > 0 ==> (r matches Some(s) && s@ == "data:image/png;base64,"@ + spec_base64(bytes@)),
{
    if bytes.len() == 0 {
        return None;
    }
    let mut s = owned("data:image/png;base64,");
    let b = base64_encode(bytes);
    s.append(b.as_str());
    Some(s)
}

/// Language of a desktop command argument: exact `zh`, `en`, `ja`, `ko`;
/// anything else is kept as a free code.
pub fn lang_from_str(s: &str) -> (l: Lang)
    ensures
        s@ == "zh"@ ==> l == Lang::Zh,
        s@ == "en"@ ==> l == Lang::En,
        s@ == "ja"@ ==> l == Lang::Ja,
        s@ == "ko"@ ==> l == Lang::Ko,
        s@ != "zh"@ && s@ != "en"@ && s@ != "ja"@ && s@ != "ko"@ ==> (l matches Lang::Other(c) && c@ == s@),
{
    proof {
        reveal_strlit("zh");
        reveal_strlit("en");
        reveal_strlit("ja");
        reveal_strlit("ko");
        assert("zh"@[0] == 'z' && "en"@[0] == 'e' && "ja"@[0] == 'j' && "ko"@[0] == 'k');
    }
    let k = chars_of(s);
    if chars_eq_str(k.as_slice(), "zh") {
        Lang::Zh
    } else if chars_eq_str(k.as_slice(), "en") {
        Lang::En
    } else if chars_eq_str(k.as_slice(), "ja") {
        Lang::Ja
    } else if chars_eq_str(k.as_slice(), "ko") {
        Lang::Ko
    } else {
        Lang::Other(owned(s))
    }
}

/// Language of a command-line argument, ASCII case ignored: `zh` or
/// `zh-cn`, `en`, `ja`, `ko`; anything else is kept lower-cased.
pub fn parse_lang(s: &str) -> (l: Lang)
    ensures
        lower(s@) == "zh"@ || lower(s@) == "zh-cn"@ ==> l == Lang::Zh,
        lower(s@) == "en"@ ==> l == Lang::En,
        lower(s@) == "ja"@ ==> l == Lang::Ja,
        lower(s@) == "ko"@ ==> l == Lang::Ko,
        lower(s@) != "zh"@ && lower(s@) != "zh-cn"@ && lower(s@) != "en"@ && lower(s@) != "ja"@
            && lower(s@) != "ko"@ ==> (l matches Lang::Other(c) && c@ == lower(s@)),
{
    proof {
        reveal_strlit("zh");
        reveal_strlit("zh-cn");
        reveal_strlit("en");
        reveal_strlit("ja");
        reveal_strlit("ko");
        assert("zh"@[0] == 'z' && "zh-cn"@[0] == 'z' && "en"@[0] == 'e' && "ja"@[0] == 'j'
            && "ko"@[0] == 'k');
        assert("zh"@.len() == 2 && "zh-cn"@.len() == 5);
    }
    let raw = chars_of(s);
    let k = lower_chars(raw.as_slice());
    if chars_eq_str(k.as_slice(), "zh") || chars_eq_str(k.as_slice(), "zh-cn") {
        Lang::Zh
    } else if chars_eq_str(k.as_slice(), "en") {
        Lang::En
    } else if chars_eq_str(k.as_slice(), "ja") {
        Lang::Ja
    } else if chars_eq_str(k.as_slice(), "ko") {
        Lang::Ko
    } else {
        Lang::Other(string_of(k.as_slice()))
    }
}

/// The step named by a workflow-canvas node name.
pub fn step_from_name(node: &str) -> (r: Option<StepKind>)
    ensures
        r matches Some(k) ==> crate::graph::step_name(k) == node@,
        r is None ==> forall|k: StepKind| crate::graph::step_name(k) != node@,
{
    proof {
        reveal_strlit("detect");
        reveal_strlit("ocr");
        reveal_strlit("inpaint");
        reveal_strlit("translate");
        reveal_strlit("polish");
        reveal_strlit("render");
    }
    let k = chars_of(node);
    let r = if chars_eq_str(k.as_slice(), "detect") {
        Some(StepKind::Detect)
    } else if chars_eq_str(k.as_slice(), "ocr") {
        Some(StepKind::Ocr)
    } else if chars_eq_str(k.as_slice(), "inpaint") {
        Some(StepKind::Inpaint)
    } else if chars_eq_str(k.as_slice(), "translate") {
        Some(StepKind::Translate)
    } else if chars_eq_str(k.as_slice(), "polish") {
        Some(StepKind::Polish)
    } else if chars_eq_str(k.as_slice(), "render") {
        Some(StepKind::Render)
    } else {
        None
    };
    proof {
        if r is None {
            assert forall|s: StepKind| crate::graph::step_name(s) != node@ by {
                match s {
                    StepKind::Detect => assert("detect"@ =~= crate::graph::step_name(s)),
                    StepKind::Ocr => assert("ocr"@ =~= crate::graph::step_name(s)),
                    StepKind::Inpaint => assert("inpaint"@ =~= crate::graph::step_name(s)),
                    StepKind::Translate => assert("translate"@ =~= crate::graph::step_name(s)),
                    StepKind::Polish => assert("polish"@ =~= crate::graph::step_name(s)),
                    StepKind::Render => assert("render"@ =~= crate::graph::step_name(s)),
                }
            }
        } else {
            assert("detect"@ =~= crate::graph::step_name(StepKind::Detect));
            assert("ocr"@ =~= crate::graph::step_name(StepKind::Ocr));
            assert("inpaint"@ =~= crate::graph::step_name(StepKind::Inpaint));
            assert("translate"@ =~= crate::graph::step_name(StepKind::Translate));
            assert("polish"@ =~= crate::graph::step_name(StepKind::Polish));
            assert("render"@ =~= crate::graph::step_name(StepKind::Render));
        }
    }
    r
}

/// Toggles a node named on the canvas: an unknown name is refused with
/// `unknown node <name>`, a node missing from the graph with
/// `node <name> not in pipeline`.
pub fn set_node_enabled_in(graph: &mut PipelineGraph, node: &str, enabled: bool) -> (r: Result<(), String>)
    ensures
        (forall|k: StepKind| crate::graph::step_name(k) != node@) ==> (r matches Err(m) && m@ == "unknown node "@ + node@
            && final(graph).configs == old(graph).configs),
        forall|k: StepKind| crate::graph::step_name(k) == node@ ==> {
            &&& has_kind(old(graph).configs@, k) ==> r is Ok && spec_is_enabled(final(graph).configs@, k) == enabled
            &&& !has_kind(old(graph).configs@, k) ==> (r matches Err(m) && m@ == "node "@ + node@ + " not in pipeline"@
                && final(graph).configs@ == old(graph).configs@)
            &&& final(graph).configs@.len() == old(graph).configs@.len()
            &&& forall|i: int| 0 <= i < old(graph).configs@.len() ==> {
                &&& (#[trigger] final(graph).configs@[i]).kind == old(graph).configs@[i].kind
                &&& final(graph).configs@[i].max_retries == old(graph).configs@[i].max_retries
                &&& final(graph).configs@[i].params == old(graph).configs@[i].params
                &&& final(graph).configs@[i].enabled == if crate::graph::is_first(old(graph).configs@, k, i) {
                    enabled
                } else {
                    old(graph).configs@[i].enabled
                }
            }
        },
{
    match step_from_name(node) {
        None => {
            let mut m = owned("unknown node ");
            m.append(node);
            Err(m)
        },
        Some(kind) => {
            proof {
                assert forall|k: StepKind| crate::graph::step_name(k) == node@ implies k == kind by {
                    match k {
                        StepKind::Detect => {},
                        _ => {},
                    }
                    crate::graph::law_step_names_distinct(k, kind);
                }
            }
            if graph.set_enabled(kind, enabled) {
                Ok(())
            } else {
                proof {
                    assert(graph.configs@ =~= old(graph).configs@) by {
                        assert forall|i: int| 0 <= i < graph.configs@.len() implies graph.configs@[i] == old(graph).configs@[i] by {
                            assert(!crate::graph::is_first(old(graph).configs@, kind, i));
                        }
                    }
                }
                let mut m = owned("node ");
                m.append(node);
                m.append(" not in pipeline");
                Err(m)
            }
        },
    }
}

/// Where a registered model downloads from: its `url_override` when that is
/// not empty, else the ModelScope file URL built from its repository and
/// file path.
pub open spec fn spec_download_url(spec: ModelSpec) -> Seq<char> {
    if spec.url_override@.len() > 0 {
        spec.url_override@
    } else {
        "https://modelscope.cn/models/"@ + spec.modelscope_repo@ + "/resolve/master/"@ + spec.file@
    }
}

/// Download URL of a registered model: the override when it is set,
/// otherwise the ModelScope address of its file.
pub fn model_download_url(spec: &ModelSpec) -> (u: String)
    ensures
        u@ == spec_download_url(*spec),
        spec.url_override@.len() > 0 ==> u@ == spec.url_override@,
{
    if !spec.url_override.is_empty() {
        return owned(spec.url_override);
    }
    let mut u = owned("https://modelscope.cn/models/");
    u.append(spec.modelscope_repo);
    u.append("/resolve/master/");
    u.append(spec.file);
    u
}

/// The download URL of the registered model with this id, or the message
/// `unknown model {id}` when no model carries it.
pub fn download_url_for(spec_id: &str) -> (r: Result<String, String>)
    ensures
        match r {
            Ok(u) => exists|i: int| crate::registry::first_with_id(crate::registry::spec_all(), spec_id@, i)
                && u@ == spec_download_url(crate::registry::spec_all()[i]),
            Err(m) => m@ == "unknown model "@ + spec_id@
                && forall|i: int| 0 <= i < crate::registry::spec_all().len() ==> crate::registry::spec_all()[i].id@ != spec_id@,
        },
{
    match crate::registry::Registry::find(spec_id) {
        Some(spec) => Ok(model_download_url(&spec)),
        None => {
            let mut m = owned("unknown model ");
            m.append(spec_id);
            Err(m)
        },
    }
}

/// Chapter key of an image file stem: the text before the first `_` or `-`.
pub open spec fn spec_chapter_prefix(stem: Seq<char>) -> Seq<char> {
    if exists|j: int| 0 <= j < stem.len() && (stem[j] == '_' || stem[j] == '-') {
        let j = choose|j: int| 0 <= j < stem.len() && (stem[j] == '_' || stem[j] == '-') && forall|k: int| 0 <= k < j ==> stem[k] != '_' && stem[k] != '-';
        stem.take(j)
    } else {
        stem
    }
}

proof fn lemma_first_separator(stem: Seq<char>)
    requires
        exists|j: int| 0 <= j < stem.len() && (stem[j] == '_' || stem[j] == '-'),
    ensures
        exists|j: int| 0 <= j < stem.len() && (stem[j] == '_' || stem[j] == '-') && forall|k: int| 0 <= k < j ==> stem[k] != '_' && stem[k] != '-',
    decreases stem.len(),
{
    let p = stem.drop_last();
    if exists|j: int| 0 <= j < p.len() && (p[j] == '_' || p[j] == '-') {
        lemma_first_separator(p);
        let j = choose|j: int| 0 <= j < p.len() && (p[j] == '_' || p[j] == '-') && forall|k: int| 0 <= k < j ==> p[k] != '_' && p[k] != '-';
        assert(stem[j] == p[j]);
        assert forall|k: int| 0 <= k < j implies stem[k] != '_' && stem[k] != '-' by {
            assert(stem[k] == p[k]);
        }
    } else {
        let w = choose|j: int| 0 <= j < stem.len() && (stem[j] == '_' || stem[j] == '-');
        if w < p.len() {
            assert(p[w] == stem[w]);
        }
        let l = stem.len() - 1;
        assert forall|k: int| 0 <= k < l implies stem[k] != '_' && stem[k] != '-' by {
            assert(stem[k] == p[k]);
        }
    }
}

/// The chapter key of a stem is the text before its first `_` or `-`: it
/// holds no separator, and either it is the whole stem or the stem goes on
/// with a separator right after it.
pub proof fn law_chapter_prefix_is_first_part(stem: Seq<char>)
    ensures
        forall|i: int| 0 <= i < spec_chapter_prefix(stem).len() ==> #[trigger] spec_chapter_prefix(stem)[i] != '_' && spec_chapter_prefix(stem)[i] != '-',
        spec_chapter_prefix(stem) == stem || ({
            let n = spec_chapter_prefix(stem).len() as int;
            &&& n < stem.len()
            &&& (stem[n] == '_' || stem[n] == '-')
            &&& stem.take(n) == spec_chapter_prefix(stem)
        }),
{
    let key = spec_chapter_prefix(stem);
    if exists|j: int| 0 <= j < stem.len() && (stem[j] == '_' || stem[j] == '-') {
        lemma_first_separator(stem);
        let j = choose|j: int| 0 <= j < stem.len() && (stem[j] == '_' || stem[j] == '-') && forall|k: int| 0 <= k < j ==> stem[k] != '_' && stem[k] != '-';
        assert(key == stem.take(j));
        assert forall|i: int| 0 <= i < key.len() implies #[trigger] key[i] != '_' && key[i] != '-' by {
            assert(key[i] == stem[i]);
        }
    } else {
        assert(key == stem);
        assert forall|i: int| 0 <= i < key.len() implies #[trigger] key[i] != '_' && key[i] != '-' by {}
    }
}

/// Chapter key of an image file stem (`ch01_001` → `ch01`).
pub fn chapter_prefix(stem: &str) -> (p: String)
    ensures
        p@ == spec_chapter_prefix(stem@),
{
    let s = chars_of(stem);
    let mut j: usize = 0;
    while j < s.len() && s[j] != '_' && s[j] != '-'
        invariant
            s@ == stem@,
            j <= s@.len(),
            forall|k: int| 0 <= k < j ==> s@[k] != '_' && s@[k] != '-',
        decreases s@.len() - j,
    {
        j += 1;
    }
    proof {
        if j < s.len() {
            let c = choose|c: int| 0 <= c < stem@.len() && (stem@[c] == '_' || stem@[c] == '-') && forall|k: int| 0 <= k < c ==> stem@[k] != '_' && stem@[k] != '-';
            assert(c == j) by {
                if c < j {
                } else if c > j {
                }
            }
        } else {
            assert(stem@.take(j as int) =~= stem@);
        }
    }
    crate::text::string_of_prefix(s.as_slice(), j)
}

/// Image files the folder import takes: extension `png`, `jpg` or `jpeg`,
/// ASCII case ignored.
pub fn is_image_extension(ext: &str) -> (b: bool)
    ensures
        b == (lower(ext@) == "png"@ || lower(ext@) == "jpg"@ || lower(ext@) == "jpeg"@),
{
    let raw = chars_of(ext);
    let k = lower_chars(raw.as_slice());
    chars_eq_str(k.as_slice(), "png") || chars_eq_str(k.as_slice(), "jpg") || chars_eq_str(k.as_slice(), "jpeg")
}

/// Pages a pipeline run covers: every page with `--all`, otherwise the one
/// given page, which must not be empty.
pub fn select_pages(all: bool, page: String, page_ids: Vec<String>) -> (r: Result<Vec<String>, String>)
    ensures
        all ==> r == Ok::<Vec<String>, String>(page_ids),
        !all && page@.len() == 0 ==> (r matches Err(m) && m@ == "provide <PAGE> or --all"@),
        !all && page@.len() > 0 ==> (r matches Ok(v) && v@.len() == 1 && v@[0] == page),
{
    if all {
        Ok(page_ids)
    } else if page.as_str().unicode_len() == 0 {
        Err(owned("provide <PAGE> or --all"))
    } else {
        Ok(vec![page])
    }
}

/// Offline stand-in for the translation model: line `i` (from 1) of the
/// answer is `[i] <text>` for the `i`-th recognized text.
pub open spec fn echo_line(i: int, t: Seq<char>) -> Seq<char> {
    "["@ + crate::versions::dec_str(i as nat) + "] <"@ + t + ">"@
}

pub fn echo_translation(texts: &Vec<String>) -> (out: String)
    ensures
        out@ == join(Seq::new(texts@.len(), |i: int| echo_line(i + 1, texts@[i]@)), "\n"@),
{
    let mut lines: Vec<String> = Vec::new();
    let mut i: usize = 0;
    while i < texts.len()
        invariant
            i <= texts@.len(),
            lines@.len() == i,
            string_seq_views(lines@) == Seq::new(i as nat, |j: int| echo_line(j + 1, texts@[j]@)),
        decreases texts@.len() - i,
    {
        let mut l = owned("[");
        let n = crate::versions::decimal_string((i + 1) as u64);
        l.append(n.as_str());
        l.append("] <");
        l.append(texts[i].as_str());
        l.append(">");
        let ghost before = lines@;
        let ghost lv = l@;
        assert(lv == echo_line(i + 1, texts@[i as int]@));
        lines.push(l);
        proof {
            let sv = string_seq_views(lines@);
            let want = Seq::new((i + 1) as nat, |j: int| echo_line(j + 1, texts@[j]@));
            assert(sv.len() == want.len());
            assert forall|j: int| 0 <= j < sv.len() implies sv[j] == want[j] by {
                if j < i {
                    assert(sv[j] == lines@[j]@);
                    assert(lines@[j] == before[j]);
                    assert(string_seq_views(before)[j] == before[j]@);
                } else {
                    assert(j == i);
                    assert(lines@[j]@ == lv);
                }
            }
            assert(sv =~= want);
        }
        i += 1;
    }
    join_strings(&lines, "\n")
}

} // verus!

verus! {

/// Recognized texts numbered for the translation model: line `i` (from 1)
/// is `[i]<text>`, each ended by a newline.
pub open spec fn numbered_lines(texts: Seq<Seq<char>>) -> Seq<char>
    decreases texts.len(),
{
    if texts.len() == 0 {
        Seq::<char>::empty()
    } else {
        numbered_lines(texts.drop_last()) + "["@ + crate::versions::dec_str(texts.len() as nat) + "]"@
            + texts.last() + "\n"@
    }
}

/// The request sent to the translation model: the prompt, a newline, then
/// the numbered texts.
pub fn numbered_batch(prompt: &str, texts: &Vec<String>) -> (full: String)
    ensures
        full@ == prompt@ + "\n"@ + numbered_lines(string_seq_views(texts@)),
{
    let mut full = owned(prompt);
    full.append("\n");
    let ghost head = full@;
    let mut i: usize = 0;
    while i < texts.len()
        invariant
            i <= texts@.len(),
            head == prompt@ + "\n"@,
            full@ == head + numbered_lines(string_seq_views(texts@).take(i as int)),
        decreases texts@.len() - i,
    {
        let ghost before = full@;
        full.append("[");
        let n = crate::versions::decimal_string((i + 1) as u64);
        full.append(n.as_str());
        full.append("]");
        full.append(texts[i].as_str());
        full.append("\n");
        proof {
            let v = string_seq_views(texts@);
            assert(v.take(i + 1).drop_last() =~= v.take(i as int));
            assert(v.take(i + 1).last() == texts@[i as int]@);
            assert(full@ =~= head + numbered_lines(v.take(i + 1)));
        }
        i += 1;
    }
    assert(string_seq_views(texts@).take(texts@.len() as int) =~= string_seq_views(texts@));
    full
}

/// `s` left-padded with zeros to at least three characters (`{:03}`).
pub open spec fn pad3(s: Seq<char>) -> Seq<char> {
    if s.len() >= 3 {
        s
    } else {
        Seq::new((3 - s.len()) as nat, |i: int| '0') + s
    }
}

/// Id of the `i`-th bubble handed to the polish node: `b` and the index in
/// at least three digits.
pub open spec fn spec_bubble_id(i: nat) -> Seq<char> {
    seq!['b'] + pad3(crate::versions::dec_str(i))
}

/// `format!("b{i:03}")`.
pub fn bubble_id(i: usize) -> (id: String)
    ensures
        id@ == spec_bubble_id(i as nat),
{
    proof {
        reveal_strlit("b");
    }
    let n = crate::versions::decimal_string(i as u64);
    let mut id = owned("b");
    let len = n.as_str().unicode_len();
    let mut pad: usize = if len < 3 { 3 - len } else { 0 };
    let ghost pad0 = pad;
    while pad > 0
        invariant
            pad <= pad0,
            pad0 == if n@.len() < 3 { 3 - n@.len() } else { 0int },
            id@ == seq!['b'] + Seq::new((pad0 - pad) as nat, |k: int| '0'),
        decreases pad,
    {
        push_char(&mut id, '0');
        assert(seq!['b'] + Seq::new((pad0 - pad + 1) as nat, |k: int| '0') =~= (seq!['b'] + Seq::new((pad0 - pad) as nat, |k: int| '0')).push('0'));
        pad -= 1;
    }
    id.append(n.as_str());
    proof {
        if n@.len() >= 3 {
            assert(Seq::new(0nat, |k: int| '0') =~= Seq::<char>::empty());
        }
        assert(id@ =~= spec_bubble_id(i as nat));
    }
    id
}

/// Leading `b`s removed (`trim_start_matches('b')`).
pub open spec fn strip_leading_b(s: Seq<char>) -> Seq<char>
    decreases s.len(),
{
    if s.len() > 0 && s[0] == 'b' {
        strip_leading_b(s.drop_first())
    } else {
        s
    }
}

/// The text index a polished item's id names among `n` texts: leading `b`s
/// dropped, the rest read as a `usize`, kept when below `n`.
pub open spec fn bubble_index(id: Seq<char>, n: nat) -> Option<nat> {
    let t = strip_leading_b(id);
    let d = if t.len() > 0 && t[0] == '+' { t.drop_first() } else { t };
    if d.len() > 0 && crate::versions::all_digits(d) && crate::versions::dec_value(d) < n {
        Some(crate::versions::dec_value(d))
    } else {
        None
    }
}

/// Index named by a polished item's id, if it is one of `n` texts.
pub fn bubble_index_of(id: &str, n: usize) -> (r: Option<usize>)
    ensures
        match bubble_index(id@, n as nat) {
            Some(v) => r == Some(v as usize),
            None => r is None,
        },
{
    let c = chars_of(id);
    let mut i: usize = 0;
    assert(c@.skip(0) =~= c@);
    while i < c.len() && c[i] == 'b'
        invariant
            c@ == id@,
            i <= c@.len(),
            strip_leading_b(id@) == strip_leading_b(c@.skip(i as int)),
        decreases c@.len() - i,
    {
        assert(c@.skip(i as int).drop_first() =~= c@.skip(i + 1));
        i += 1;
    }
    let ghost t = c@.skip(i as int);
    assert(strip_leading_b(t) == t);
    assert(strip_leading_b(id@) == t);
    if i < c.len() && c[i] == '+' {
        assert(t.drop_first() =~= c@.skip(i + 1));
        i += 1;
    }
    let ghost d = c@.skip(i as int);
    assert(d == (if t.len() > 0 && t[0] == '+' { t.drop_first() } else { t }));
    if i >= c.len() || n == 0 {
        return None;
    }
    let start = i;
    let mut acc: u128 = 0;
    while i < c.len()
        invariant
            c@ == id@,
            start <= i <= c@.len(),
            d == c@.skip(start as int),
            d.len() > 0,
            strip_leading_b(id@) == t,
            d == (if t.len() > 0 && t[0] == '+' { t.drop_first() } else { t }),
            crate::versions::all_digits(c@.subrange(start as int, i as int)),
            acc == crate::versions::dec_value(c@.subrange(start as int, i as int)),
            acc < n,
        decreases c@.len() - i,
    {
        let ch = c[i];
        let ghost pre = c@.subrange(start as int, i + 1);
        assert(pre.drop_last() =~= c@.subrange(start as int, i as int));
        assert(pre.last() == ch);
        if !('0' <= ch && ch <= '9') {
            assert(d[i - start] == ch);
            assert(!crate::versions::is_digit(d[i - start]));
            assert(!crate::versions::all_digits(d));
            return None;
        }
        let dv = (ch as u32) - ('0' as u32);
        assert(crate::versions::digit_val(ch) == dv);
        let next: u128 = acc * 10 + dv as u128;
        assert(next == crate::versions::dec_value(pre));
        if next >= n as u128 {
            proof {
                assert(crate::versions::all_digits(pre));
                if crate::versions::all_digits(d) {
                    assert(d.take(i + 1 - start) =~= pre);
                    crate::versions::lemma_dec_value_grows(d, i + 1 - start);
                    assert(crate::versions::dec_value(d) >= n);
                }
            }
            return None;
        }
        acc = next;
        i += 1;
    }
    assert(c@.subrange(start as int, c@.len() as int) =~= d);
    Some(acc as usize)
}

/// Decoding a bubble id gives back its index.
pub proof fn law_bubble_id_roundtrip(i: nat, n: nat)
    requires
        i < n,
    ensures
        bubble_index(spec_bubble_id(i), n) == Some(i),
{
    let ds = crate::versions::dec_str(i);
    crate::versions::lemma_dec_str(i);
    let p = pad3(ds);
    let k: nat = if ds.len() >= 3 { 0 } else { (3 - ds.len()) as nat };
    assert(p =~= Seq::new(k, |j: int| '0') + ds);
    crate::versions::lemma_leading_zeros(k, ds);
    let id = spec_bubble_id(i);
    assert(id.drop_first() =~= p);
    assert(p.len() > 0 && p[0] != 'b' && p[0] != '+') by {
        assert(crate::versions::is_digit(p[0]));
    }
    assert(strip_leading_b(p) == p);
    assert(strip_leading_b(id) == p);
}

pub open spec fn polish_views(items: Seq<(String, String)>) -> Seq<(Seq<char>, Seq<char>)> {
    items.map_values(|p: (String, String)| (p.0@, p.1@))
}

/// Texts after the polish node's answer: each `(id, polished)` item whose
/// id names a text replaces it, later items winning.
pub open spec fn spec_apply_polished(texts: Seq<Seq<char>>, items: Seq<(Seq<char>, Seq<char>)>) -> Seq<Seq<char>>
    decreases items.len(),
{
    if items.len() == 0 {
        texts
    } else {
        let prev = spec_apply_polished(texts, items.drop_last());
        match bubble_index(items.last().0, texts.len()) {
            Some(i) => prev.update(i as int, items.last().1),
            None => prev,
        }
    }
}

proof fn lemma_apply_len(texts: Seq<Seq<char>>, items: Seq<(Seq<char>, Seq<char>)>)
    ensures
        spec_apply_polished(texts, items).len() == texts.len(),
    decreases items.len(),
{
    if items.len() > 0 {
        lemma_apply_len(texts, items.drop_last());
    }
}

/// Replaces the texts that the polish node's items name.
pub fn apply_polished(texts: Vec<String>, items: &Vec<(String, String)>) -> (out: Vec<String>)
    ensures
        string_seq_views(out@) == spec_apply_polished(string_seq_views(texts@), polish_views(items@)),
{
    let ghost tv = string_seq_views(texts@);
    let n = texts.len();
    let mut out = texts;
    let mut k: usize = 0;
    while k < items.len()
        invariant
            k <= items@.len(),
            n == tv.len(),
            out@.len() == n,
            string_seq_views(out@) == spec_apply_polished(tv, polish_views(items@).take(k as int)),
        decreases items@.len() - k,
    {
        let ghost iv = polish_views(items@);
        proof {
            assert(iv.take(k + 1).drop_last() =~= iv.take(k as int));
            assert(iv.take(k + 1).last() == (items@[k as int].0@, items@[k as int].1@));
            lemma_apply_len(tv, iv.take(k as int));
        }
        let ghost before = out@;
        match bubble_index_of(items[k].0.as_str(), n) {
            Some(i) => {
                out.set(i, items[k].1.clone());
                assert(string_seq_views(out@) =~= string_seq_views(before).update(i as int, items@[k as int].1@));
            },
            None => {},
        }
        k += 1;
    }
    assert(polish_views(items@).take(items@.len() as int) =~= polish_views(items@));
    out
}

/// Whether translation goes to the model: `probe` is the endpoint's
/// liveness when one was given. A dead endpoint falls back to echoing unless
/// the model is required.
pub fn decide_use_llm(probe: Option<bool>, llm_optional: bool) -> (r: Result<bool, String>)
    ensures
        probe == Some(true) ==> r == Ok::<bool, String>(true),
        probe is None ==> r == Ok::<bool, String>(false),
        probe == Some(false) && llm_optional ==> r == Ok::<bool, String>(false),
        probe == Some(false) && !llm_optional ==> (r matches Err(m) && m@ == "llm endpoint unreachable and --llm-optional=false"@),
{
    match probe {
        Some(true) => Ok(true),
        Some(false) => if llm_optional {
            Ok(false)
        } else {
            Err(owned("llm endpoint unreachable and --llm-optional=false"))
        },
        None => Ok(false),
    }
}

/// File name of the `n`-th rendered page image: `translated_v{n:04}.png`.
pub fn translated_file_name(n: u32) -> (name: String)
    ensures
        name@ == "translated_"@ + crate::versions::spec_artifact_file_name(n, "png"@),
{
    let mut name = owned("translated_");
    let f = crate::versions::artifact_file_name(n, "png");
    name.append(f.as_str());
    name
}

/// Error text of a failed save in the desktop shell.
pub fn s<T>(_e: &T) -> (m: String)
    ensures
        m@ == "save failed"@,
{
    owned("save failed")
}

} // verus!

verus! {

/// Greeting of the desktop shell.
pub fn greet(name: &str) -> (g: String)
    ensures
        g@ == "Hello, "@ + name@ + "! Welcome to manga-eroico."@,
{
    let mut g = owned("Hello, ");
    g.append(name);
    g.append("! Welcome to manga-eroico.");
    g
}

} // verus!
