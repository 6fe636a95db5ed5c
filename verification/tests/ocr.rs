use manga_eroico::registry::{ModelRole, Registry};
use manga_eroico::ocr::{build_charset, charset_refs, ctc_collapse, sniff_lang, OcrLang};

#[test]
fn sniffing() {
    assert_eq!(sniff_lang("こんにちは世界"), Some(OcrLang::Japan));
    assert_eq!(sniff_lang("안녕하세요"), Some(OcrLang::Ko));
    assert_eq!(sniff_lang("你好世界"), Some(OcrLang::Mixed));
    assert_eq!(sniff_lang("Hello, world!"), Some(OcrLang::En));
    assert_eq!(sniff_lang("...123"), None);
}

#[test]
fn for_source_maps_codes() {
    assert_eq!(OcrLang::for_source("ja"), OcrLang::Japan);
    assert_eq!(OcrLang::for_source("ko"), OcrLang::Ko);
    assert_eq!(OcrLang::for_source("en"), OcrLang::En);
    assert_eq!(OcrLang::for_source("zh"), OcrLang::Mixed);
    assert_eq!(OcrLang::for_source("xx"), OcrLang::Mixed);
}

#[test]
fn collapse_merges_repeats_and_drops_blanks() {
    let charset = vec!["".to_string(), "あ".to_string(), "い".to_string(), "う".to_string()];
    let refs = charset_refs(&charset);
    let (text, frames) = ctc_collapse(&[1, 1, 0, 2, 2, 0, 3], 0, &refs);
    assert_eq!(text, "あいう");
    assert_eq!(frames, vec![0, 3, 6]);
}

#[test]
fn collapse_blank_between_same_labels_keeps_both() {
    let charset = vec!["".to_string(), "x".to_string()];
    let refs = charset_refs(&charset);
    let (text, _) = ctc_collapse(&[1, 0, 1], 0, &refs);
    assert_eq!(text, "xx");
}

#[test]
fn collapse_of_no_frames_is_empty() {
    let charset = vec!["".to_string(), "x".to_string()];
    let refs = charset_refs(&charset);
    let (text, frames) = ctc_collapse(&[], 0, &refs);
    assert_eq!(text, "");
    assert!(frames.is_empty());
}

#[test]
fn charset_has_blank_entries_and_space() {
    let c = build_charset("a\r\nb\nc");
    assert_eq!(c.first().map(|s| s.as_str()), Some(""));
    assert!(c.contains(&"a".to_string()));
    assert!(c.contains(&"b".to_string()));
    assert!(c.contains(&"c".to_string()));
    assert_eq!(c.last().map(|s| s.as_str()), Some(" "));
}

#[test]
fn recognizer_ids() {
    assert_eq!(OcrLang::Mixed.rec_spec_id(), "rec_mixed");
    assert_eq!(OcrLang::Japan.rec_spec_id(), "rec_mixed");
    assert_eq!(OcrLang::ChineseCht.rec_spec_id(), "rec_mixed");
    assert_eq!(OcrLang::Latin.rec_spec_id(), "rec_en");
    assert_eq!(OcrLang::Ko.rec_spec_id(), "rec_ko");
}

#[test]
fn every_recognizer_is_registered() {
    let all = [
        OcrLang::Mixed, OcrLang::En, OcrLang::Ko, OcrLang::Japan, OcrLang::ChineseCht, OcrLang::Latin,
        OcrLang::Cyrillic, OcrLang::Arabic, OcrLang::Devanagari, OcrLang::El, OcrLang::Eslav, OcrLang::Ta,
        OcrLang::Te, OcrLang::Th, OcrLang::Ka,
    ];
    for l in all {
        let m = Registry::find(l.rec_spec_id()).expect("registered");
        assert_eq!(m.role, ModelRole::Rec, "{:?}", l);
    }
}
