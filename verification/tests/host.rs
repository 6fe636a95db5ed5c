use manga_eroico::host::{
    apply_polished, base64_encode, bubble_id, bubble_index_of, chapter_prefix, decide_use_llm, echo_translation,
    download_url_for, is_image_extension, lang_from_str, model_download_url, numbered_batch, parse_lang, png_data_url, s, select_pages,
    translated_file_name,
};
use manga_eroico::project::Lang;
use manga_eroico::registry::Registry;

#[test]
fn base64_matches_standard_vectors() {
    assert_eq!(base64_encode(b""), "");
    assert_eq!(base64_encode(b"f"), "Zg==");
    assert_eq!(base64_encode(b"fo"), "Zm8=");
    assert_eq!(base64_encode(b"foo"), "Zm9v");
    assert_eq!(base64_encode(b"foobar"), "Zm9vYmFy");
    assert_eq!(base64_encode(&[0xff, 0xfe, 0x00]), "//4A");
}

#[test]
fn base64_length_is_four_per_group() {
    for n in 0..10usize {
        let data = vec![7u8; n];
        assert_eq!(base64_encode(&data).len(), 4 * ((n + 2) / 3));
    }
}

#[test]
fn data_url_only_for_nonempty_artifacts() {
    assert_eq!(png_data_url(&[]), None);
    assert_eq!(png_data_url(b"foo"), Some("data:image/png;base64,Zm9v".to_string()));
}

#[test]
fn desktop_language_arguments() {
    assert_eq!(lang_from_str("zh"), Lang::Zh);
    assert_eq!(lang_from_str("ja"), Lang::Ja);
    assert_eq!(lang_from_str("JA"), Lang::Other("JA".to_string()));
    assert_eq!(lang_from_str("fr"), Lang::Other("fr".to_string()));
}

#[test]
fn cli_language_arguments() {
    assert_eq!(parse_lang("ZH-CN"), Lang::Zh);
    assert_eq!(parse_lang("zh"), Lang::Zh);
    assert_eq!(parse_lang("En"), Lang::En);
    assert_eq!(parse_lang("KO"), Lang::Ko);
    assert_eq!(parse_lang("FR"), Lang::Other("fr".to_string()));
}

#[test]
fn download_url_of_a_registered_model() {
    let m = Registry::find("rec_mixed").unwrap();
    let u = model_download_url(&m);
    assert_eq!(u, format!("https://modelscope.cn/models/{}/resolve/master/{}", m.modelscope_repo, m.file));
}

#[test]
fn download_url_prefers_the_override() {
    let m = Registry::find("aot_inpainter").unwrap();
    assert_eq!(
        model_download_url(&m),
        "https://github.com/zyddnys/manga-image-translator/releases/latest/download/inpainting.ckpt"
    );
    assert_eq!(
        download_url_for("aot_inpainter").unwrap(),
        "https://github.com/zyddnys/manga-image-translator/releases/latest/download/inpainting.ckpt"
    );
    assert_eq!(download_url_for("no_such_model"), Err("unknown model no_such_model".to_string()));
}

#[test]
fn chapter_prefixes() {
    assert_eq!(chapter_prefix("ch01_001"), "ch01");
    assert_eq!(chapter_prefix("ch02-7"), "ch02");
    assert_eq!(chapter_prefix("cover"), "cover");
    assert_eq!(chapter_prefix("_x"), "");
}

#[test]
fn image_extensions() {
    assert!(is_image_extension("PNG"));
    assert!(is_image_extension("jpeg"));
    assert!(is_image_extension("Jpg"));
    assert!(!is_image_extension("gif"));
}

#[test]
fn page_selection() {
    let ids = vec!["a".to_string(), "b".to_string()];
    assert_eq!(select_pages(true, String::new(), ids.clone()), Ok(ids.clone()));
    assert_eq!(select_pages(false, "p1".to_string(), ids.clone()), Ok(vec!["p1".to_string()]));
    assert_eq!(select_pages(false, String::new(), ids), Err("provide <PAGE> or --all".to_string()));
}

#[test]
fn echo_lines_are_numbered() {
    let texts = vec!["あ".to_string(), "い".to_string()];
    assert_eq!(echo_translation(&texts), "[1] <あ>\n[2] <い>");
    assert_eq!(echo_translation(&Vec::new()), "");
}

#[test]
fn numbered_batch_follows_prompt() {
    let texts = vec!["x".to_string(), "y".to_string()];
    assert_eq!(numbered_batch("P", &texts), "P\n[1]x\n[2]y\n");
    assert_eq!(numbered_batch("P", &Vec::new()), "P\n");
}

#[test]
fn bubble_ids_are_padded_and_decode_back() {
    assert_eq!(bubble_id(0), "b000");
    assert_eq!(bubble_id(7), "b007");
    assert_eq!(bubble_id(1234), "b1234");
    for i in [0usize, 5, 42, 999, 1000] {
        assert_eq!(bubble_index_of(&bubble_id(i), 2000), Some(i));
    }
}

#[test]
fn bubble_index_edge_cases() {
    assert_eq!(bubble_index_of("bb012", 20), Some(12));
    assert_eq!(bubble_index_of("b+3", 20), Some(3));
    assert_eq!(bubble_index_of("b20", 20), None);
    assert_eq!(bubble_index_of("b", 20), None);
    assert_eq!(bubble_index_of("x1", 20), None);
    assert_eq!(bubble_index_of("b1x", 20), None);
    assert_eq!(bubble_index_of("b99999999999999999999999", 20), None);
    assert_eq!(bubble_index_of("b0", 0), None);
}

#[test]
fn polished_items_replace_named_texts() {
    let texts = vec!["a".to_string(), "b".to_string(), "c".to_string()];
    let items = vec![
        ("b002".to_string(), "C".to_string()),
        ("b009".to_string(), "Z".to_string()),
        ("nonsense".to_string(), "N".to_string()),
        ("b000".to_string(), "A1".to_string()),
        ("b000".to_string(), "A2".to_string()),
    ];
    assert_eq!(apply_polished(texts, &items), vec!["A2".to_string(), "b".to_string(), "C".to_string()]);
}

#[test]
fn llm_use_decision() {
    assert_eq!(decide_use_llm(Some(true), false), Ok(true));
    assert_eq!(decide_use_llm(None, false), Ok(false));
    assert_eq!(decide_use_llm(Some(false), true), Ok(false));
    assert_eq!(
        decide_use_llm(Some(false), false),
        Err("llm endpoint unreachable and --llm-optional=false".to_string())
    );
}

#[test]
fn rendered_page_file_names() {
    assert_eq!(translated_file_name(0), "translated_v0000.png");
    assert_eq!(translated_file_name(12345), "translated_v12345.png");
}

#[test]
fn save_failure_text() {
    assert_eq!(s(&3), "save failed");
}

#[test]
fn greeting() {
    assert_eq!(manga_eroico::host::greet("Ana"), "Hello, Ana! Welcome to manga-eroico.");
}
