use manga_eroico::download::{content_hash, hex_encode, range_request, resume_plan, sha256_hex, verify_sha256, DownloadError};
use std::path::PathBuf;

#[test]
fn content_hash_is_sha256_prefix() {
    assert_eq!(content_hash(b"abc"), "ba7816bf8f01cfea");
    assert_eq!(content_hash(b""), "e3b0c44298fc1c14");
}

const ABC_SHA256: &str = "ba7816bf8f01cfea414140de5dae2223b00361a396177a9cb410ff61f20015ad";

#[test]
fn sha256_hex_of_bytes() {
    assert_eq!(sha256_hex(b"abc"), ABC_SHA256);
    assert_eq!(sha256_hex(b""), "e3b0c44298fc1c149afbf4c8996fb92427ae41e4649b934ca495991b7852b855");
}

#[test]
fn checksum_comparison_ignores_case() {
    let upper = ABC_SHA256.to_uppercase();
    assert!(verify_sha256(PathBuf::from("m.bin"), &upper, b"abc").is_ok());
    assert!(verify_sha256(PathBuf::from("m.bin"), ABC_SHA256, b"abc").is_ok());
    assert!(verify_sha256(PathBuf::from("m.bin"), "", b"anything").is_ok());
}

#[test]
fn checksum_mismatch_reports_both_digests() {
    match verify_sha256(PathBuf::from("m.bin"), "00", b"abc") {
        Err(DownloadError::ChecksumMismatch { path, expected, actual }) => {
            assert_eq!(path, PathBuf::from("m.bin"));
            assert_eq!(expected, "00");
            assert_eq!(actual, ABC_SHA256);
        }
        other => panic!("expected a mismatch, got {other:?}"),
    }
}

#[test]
fn resume_decisions() {
    let p = resume_plan(100, true, Some(900));
    assert_eq!((p.resume_from, p.remove_partial, p.total), (100, false, Some(1000)));
    let p = resume_plan(100, false, Some(900));
    assert_eq!((p.resume_from, p.remove_partial, p.total), (0, true, Some(900)));
    let p = resume_plan(0, false, None);
    assert_eq!((p.resume_from, p.remove_partial, p.total), (0, false, None));
}

#[test]
fn hex_text_of_bytes() {
    assert_eq!(hex_encode(&[]), "");
    assert_eq!(hex_encode(&[0x00, 0x0f, 0xa5, 0xff]), "000fa5ff");
}

#[test]
fn range_requests_continue_partial_files() {
    assert_eq!(range_request(0), None);
    assert_eq!(range_request(1), Some("bytes=1-".to_string()));
    assert_eq!(range_request(262144), Some("bytes=262144-".to_string()));
    assert_eq!(range_request(u64::MAX), Some(format!("bytes={}-", u64::MAX)));
}
