//! Download bookkeeping: checksum verification, resume decisions and the
//! content digest used for page file names.

use vstd::prelude::*;
use vstd::string::StringExecFns;
use crate::text::{chars_of, lower_chars, lower, owned, push_char};

verus! {

/// An HTTP client failure (`reqwest::Error`), carried opaquely.
#[verifier::external_type_specification]
#[verifier::external_body]
pub struct ExHttpError(reqwest::Error);

#[derive(Debug)]
pub enum DownloadError {
    Io(std::io::Error),
    Http(reqwest::Error),
    ChecksumMismatch { path: std::path::PathBuf, expected: String, actual: String },
    ResumeUnsupported(String),
}

/// A digest matches an expectation when both agree ignoring ASCII case
/// (`str::eq_ignore_ascii_case`).
pub open spec fn digest_matches(actual: Seq<char>, expected: Seq<char>) -> bool {
    lower(actual) == lower(expected)
}

/// The SHA256 digest of a byte string.
pub uninterp spec fn spec_sha256(data: Seq<u8>) -> Seq<u8>;

/// `sha2::Sha256::digest(data)`: the 32-byte SHA256 digest of `data`.
#[verifier::external_body]
fn sha256_digest(data: &[u8]) -> (d: Vec<u8>)
    ensures
        d@ == spec_sha256(data@),
        d@.len() == 32,
{
    <sha2::Sha256 as sha2::Digest>::digest(data).to_vec()
}

pub open spec fn hex_digit(n: int) -> char {
    if n < 10 {
        ((n + 48) as u32) as char
    } else {
        ((n - 10 + 97) as u32) as char
    }
}

/// Two lower-case hex digits per byte (`{:02x}`).
pub open spec fn hex_lower(bytes: Seq<u8>) -> Seq<char>
    decreases bytes.len(),
{
    if bytes.len() == 0 {
        Seq::<char>::empty()
    } else {
        hex_lower(bytes.drop_last()) + seq![hex_digit(bytes.last() as int / 16), hex_digit(bytes.last() as int % 16)]
    }
}

fn hex_char(n: u8) -> (c: char)
    requires
        n < 16,
    ensures
        c == hex_digit(n as int),
{
    if n < 10 {
        (n + 48) as char
    } else {
        (n - 10 + 97) as char
    }
}

/// Lower-case hexadecimal text of the bytes, two digits per byte
/// (`hex::encode`).
pub fn hex_encode(bytes: &[u8]) -> (s: String)
    ensures
        s@ == hex_lower(bytes@),
{
    let mut s = String::new();
    let mut i: usize = 0;
    while i < bytes.len()
        invariant
            i <= bytes@.len(),
            s@ == hex_lower(bytes@.take(i as int)),
        decreases bytes@.len() - i,
    {
        let b = bytes[i];
        push_char(&mut s, hex_char(b / 16));
        push_char(&mut s, hex_char(b % 16));
        assert(bytes@.take(i + 1).drop_last() =~= bytes@.take(i as int));
        i += 1;
    }
    assert(bytes@.take(bytes@.len() as int) =~= bytes@);
    s
}

/// SHA256 of a file's bytes as lower-case hex: the 64-digit text form in
/// which checksums are pinned.
pub fn sha256_hex(data: &[u8]) -> (s: String)
    ensures
        s@ == hex_lower(spec_sha256(data@)),
{
    let d = sha256_digest(data);
    hex_encode(d.as_slice())
}

/// Verifies a file's bytes against an expected SHA256. An empty expectation
/// skips the check; otherwise the bytes' digest must equal the expectation
/// ignoring ASCII case, and a mismatch reports the path, the expected and
/// the actual digest.
pub fn verify_sha256(path: std::path::PathBuf, expected: &str, data: &[u8]) -> (r: Result<(), DownloadError>)
    ensures
        expected@.len() == 0 ==> r is Ok,
        expected@.len() > 0 && digest_matches(hex_lower(spec_sha256(data@)), expected@) ==> r is Ok,
        expected@.len() > 0 && !digest_matches(hex_lower(spec_sha256(data@)), expected@) ==> (r matches Err(
            DownloadError::ChecksumMismatch { path: p, expected: e, actual: a },
        ) && p == path && e@ == expected@ && a@ == hex_lower(spec_sha256(data@))),
{
    let e = chars_of(expected);
    if e.len() == 0 {
        return Ok(());
    }
    let actual = sha256_hex(data);
    let a = chars_of(actual.as_str());
    let al = lower_chars(a.as_slice());
    let el = lower_chars(e.as_slice());
    if crate::text::chars_eq(al.as_slice(), el.as_slice()) {
        Ok(())
    } else {
        Err(DownloadError::ChecksumMismatch { path, expected: owned(expected), actual })
    }
}

/// Content-addressed page name stem: the first eight bytes of the file's
/// SHA256 digest as sixteen lower-case hex digits.
pub fn content_hash(bytes: &[u8]) -> (s: String)
    ensures
        s@ == hex_lower(spec_sha256(bytes@).take(8)),
{
    let d = sha256_digest(bytes);
    let mut head: Vec<u8> = Vec::new();
    let mut i: usize = 0;
    while i < 8
        invariant
            d@ == spec_sha256(bytes@),
            d@.len() == 32,
            i <= 8,
            head@ == d@.take(i as int),
        decreases 8 - i,
    {
        head.push(d[i]);
        assert(d@.take(i + 1) =~= d@.take(i as int).push(d@[i as int]));
        i += 1;
    }
    hex_encode(head.as_slice())
}

/// How to continue a download after the server answered.
pub struct ResumePlan {
    /// Offset at which writing continues.
    pub resume_from: u64,
    /// The partial file must be removed first (the server restarted).
    pub remove_partial: bool,
    /// Expected total size, when the server reports a length.
    pub total: Option<u64>,
}

/// Resume decision: a `206 Partial Content` answer continues after the
/// bytes already on disk; any other answer restarts from zero, dropping a
/// non-empty partial file. The total adds the resumed offset to the
/// reported length.
pub fn resume_plan(already: u64, partial_content: bool, content_length: Option<u64>) -> (p: ResumePlan)
    requires
        content_length matches Some(n) ==> n + (if partial_content { already } else { 0 }) <= u64::MAX,
    ensures
        p.resume_from == if partial_content { already } else { 0 },
        p.remove_partial == (!partial_content && already > 0),
        p.total == match content_length {
            Some(n) => Some((n + p.resume_from) as u64),
            None => None::<u64>,
        },
{
    let resume_from = if partial_content { already } else { 0 };
    let total = match content_length {
        Some(n) => Some(n + resume_from),
        None => None,
    };
    ResumePlan { resume_from, remove_partial: !partial_content && already > 0, total }
}


/// The `Range` header value of a download request: with bytes of a partial
/// file already on disk the request asks for the rest, `bytes={already}-`;
/// with none it asks for the whole file and sends no range.
pub fn range_request(already: u64) -> (r: Option<String>)
    ensures
        already == 0 ==> r is None,
        already > 0 ==> (r matches Some(h) && h@ == "bytes="@ + crate::versions::dec_str(already as nat) + "-"@),
{
    if already == 0 {
        return None;
    }
    let mut h = owned("bytes=");
    let d = crate::versions::decimal_string(already);
    h.append(d.as_str());
    h.append("-");
    Some(h)
}
} // verus!
