use manga_eroico::sorted_map::SortedMap;
use manga_eroico::translate::{build_prompt, lang_full_name, parse_output, MockTranslate, TranslateItem, TranslateProvider};

fn items() -> Vec<TranslateItem> {
    vec![
        TranslateItem { id: "b1".into(), source_text: "こんにちは".into() },
        TranslateItem { id: "b2".into(), source_text: "またね".into() },
    ]
}

#[test]
fn prompt_contains_glossary_and_order() {
    let mut g: SortedMap<String> = SortedMap::new();
    g.insert("ハルカ".to_string(), "Halca".to_string());
    let p = build_prompt("ja", "en", &g, &items());
    assert!(p.contains("从日语翻译成英语"), "{p}");
    assert!(p.contains("ハルカ => Halca"));
    assert!(p.contains("[b1] こんにちは"));
    assert!(p.contains("[b2] またね"));
}

#[test]
fn prompt_without_glossary_has_no_block() {
    let p = build_prompt("ja", "zh", &SortedMap::new(), &items());
    assert!(!p.contains("Glossary"));
}

#[test]
fn parse_output_maps_ids() {
    let out = "[b1] 你好\n[b2] 再见";
    let parsed = parse_output(out, &items());
    assert_eq!(parsed[0], ("b1".into(), "你好".into()));
    assert_eq!(parsed[1], ("b2".into(), "再见".into()));
}

#[test]
fn parse_output_falls_back_to_source_on_missing_id() {
    let out = "[b1] 你好";
    let parsed = parse_output(out, &items());
    assert_eq!(parsed[1], ("b2".into(), "またね".into()));
}

#[test]
fn mock_roundtrip() {
    let p = build_prompt("ja", "en", &SortedMap::new(), &items());
    let raw = MockTranslate.translate_batch(&p).unwrap();
    let parsed = parse_output(&raw, &items());
    assert_eq!(parsed[0].1, "<こんにちは>");
}

#[test]
fn full_names_of_codes() {
    assert_eq!(lang_full_name("ja"), "日语");
    assert_eq!(lang_full_name("en"), "英语");
    assert_eq!(lang_full_name("tlh"), "tlh");
}

#[test]
fn parse_output_last_duplicate_wins() {
    let out = "[b1] one\n[b1] two";
    let parsed = parse_output(out, &items());
    assert_eq!(parsed[0].1, "two");
    assert_eq!(parsed.len(), 2);
}

#[test]
fn echo_round_trip_trims_each_bubble() {
    let items = vec![
        TranslateItem { id: "a".into(), source_text: "  one \r".into() },
        TranslateItem { id: "b".into(), source_text: "".into() },
        TranslateItem { id: "c".into(), source_text: "three".into() },
    ];
    let mut g: SortedMap<String> = SortedMap::new();
    g.insert("[a] x".to_string(), "y".to_string());
    let p = build_prompt("ja", "en", &g, &items);
    let raw = MockTranslate.translate_batch(&p).unwrap();
    let parsed = parse_output(&raw, &items);
    assert_eq!(parsed[0], ("a".to_string(), "<one>".to_string()));
    assert_eq!(parsed[1], ("b".to_string(), "<>".to_string()));
    assert_eq!(parsed[2], ("c".to_string(), "<three>".to_string()));
}

#[test]
fn every_supported_language_has_a_full_name() {
    for l in manga_eroico::project::Lang::all_supported() {
        let code = l.code();
        let name = lang_full_name(code);
        assert_ne!(name, code);
        assert!(!name.is_ascii(), "{code} -> {name}");
    }
}
