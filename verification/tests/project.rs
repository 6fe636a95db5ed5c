use manga_eroico::graph::{PipelineGraph, StepKind};
use manga_eroico::project::{Lang, Project, ProjectError, ProjectFile, CURRENT_SCHEMA_VERSION};
use std::path::PathBuf;

fn is_fresh(id: &str, prefix: &str) -> bool {
    id.starts_with(prefix)
        && id.len() == prefix.len() + 32
        && id[prefix.len()..].chars().all(|c| c.is_ascii_digit() || ('a'..='f').contains(&c))
}

#[test]
fn fresh_file_has_defaults() {
    let f = ProjectFile::fresh("Test", Lang::Ja, Lang::Zh);
    assert_eq!(f.schema_version, CURRENT_SCHEMA_VERSION);
    assert_eq!(f.name, "Test");
    assert_eq!(f.source_lang, Lang::Ja);
    assert_eq!(f.target_lang, Lang::Zh);
    assert_eq!(f.created_at, f.updated_at);
    assert!(!f.created_at.is_empty());
    assert!(f.pages.is_empty() && f.chapters.is_empty() && f.glossary.is_empty());
    assert!(!f.pipeline.is_enabled(StepKind::Polish));
}

#[test]
fn newer_schema_is_refused() {
    let mut f = ProjectFile::fresh("Fut", Lang::Ja, Lang::Zh);
    f.schema_version = 999;
    match Project::from_file(PathBuf::from("Fut.mepro"), f) {
        Err(ProjectError::SchemaTooNew { found, supported }) => {
            assert_eq!(found, 999);
            assert_eq!(supported, CURRENT_SCHEMA_VERSION);
        }
        other => panic!("expected SchemaTooNew, got {:?}", other.err()),
    }
}

#[test]
fn pages_chapters_and_glossary() {
    let f = ProjectFile::fresh("Test", Lang::Ja, Lang::Zh);
    let mut p = Project::from_file(PathBuf::from("Test.mepro"), f).unwrap();
    let id = p.add_page("001.jpg", 1100, 1600);
    assert!(is_fresh(&id, "pg_"), "{id}");
    assert_eq!(&id[3 + 12..3 + 13], "4");
    let pg = p.page(&id).unwrap();
    assert_eq!(pg.file_name, "001.jpg");
    assert_eq!((pg.width, pg.height), (1100, 1600));
    assert!(p.page("pg_missing").is_none());
    let ch = p.add_chapter("Ch1", vec![id.clone()]);
    assert!(is_fresh(&ch, "ch_"));
    assert_eq!(p.file().chapters[0].page_ids, vec![id.clone()]);
    p.set_glossary_term("protagonist", "主人公");
    p.set_glossary_term("protagonist", "主角");
    assert_eq!(p.file().glossary.get("protagonist").map(|s| s.as_str()), Some("主角"));
    assert_eq!(p.file().glossary.len(), 1);
    let mut g = PipelineGraph::default_pipeline();
    g.set_enabled(StepKind::Polish, true);
    p.set_pipeline(g);
    assert!(p.file().pipeline.is_enabled(StepKind::Polish));
    assert_eq!(p.root(), &PathBuf::from("Test.mepro"));
}

#[test]
fn page_ids_are_distinct() {
    let f = ProjectFile::fresh("T", Lang::En, Lang::Zh);
    let mut p = Project::from_file(PathBuf::from("t"), f).unwrap();
    let a = p.add_page("a.png", 1, 1);
    let b = p.add_page("b.png", 1, 1);
    assert_ne!(a, b);
    assert_eq!(p.page(&a).unwrap().file_name, "a.png");
    assert_eq!(p.page(&b).unwrap().file_name, "b.png");
}

#[test]
fn language_codes_round_trip() {
    for l in Lang::all_supported() {
        assert_eq!(Lang::from_code(l.code()), l);
    }
    assert_eq!(Lang::from_code(" JA "), Lang::Ja);
    assert_eq!(Lang::from_code("zh-TW"), Lang::ZhHant);
    assert_eq!(Lang::from_code("klingon"), Lang::Other("klingon".to_string()));
    assert_eq!(Lang::Other("xx".to_string()).code(), "xx");
}

#[test]
fn touch_sets_a_utc_timestamp() {
    let mut f = ProjectFile::fresh("T", Lang::Ja, Lang::Zh);
    f.updated_at = String::from("stale");
    let created = f.created_at.clone();
    f.touch();
    assert!(f.updated_at.ends_with("+00:00"), "{}", f.updated_at);
    assert!(f.updated_at.chars().count() >= 25);
    assert_eq!(&f.updated_at[10..11], "T");
    assert_eq!(f.created_at, created);
    assert_eq!(f.name, "T");
}

#[test]
fn language_codes_are_distinct_and_lowercase() {
    let codes: Vec<String> = Lang::all_supported().iter().map(|l| l.code().to_string()).collect();
    for (i, c) in codes.iter().enumerate() {
        assert!(!c.is_empty());
        if c != "zh-Hant" {
            assert!(c.chars().all(|ch| ch.is_ascii_lowercase()), "{c}");
        }
        for d in &codes[i + 1..] {
            assert_ne!(c, d);
        }
    }
    assert_eq!(Lang::Other("eo".to_string()).code(), "eo");
}

#[test]
fn fresh_timestamps_are_utc() {
    let f = ProjectFile::fresh("T", Lang::Ja, Lang::Zh);
    assert!(f.created_at.ends_with("+00:00"));
    assert_eq!(f.created_at, f.updated_at);
}
