use manga_eroico::hardware::Tier;
use manga_eroico::registry::{Lang, ModelRole, Registry};

#[test]
fn ids_are_unique() {
    let all = Registry::all();
    let mut ids: Vec<_> = all.iter().map(|m| m.id).collect();
    ids.sort_unstable();
    ids.dedup();
    assert_eq!(ids.len(), Registry::all().len());
}

#[test]
fn find_works() {
    let m = Registry::find("rec_mixed").unwrap();
    assert_eq!(m.role, ModelRole::Rec);
    assert_eq!(m.lang, Lang::Any);
    assert!(Registry::find("nope").is_none());
}

#[test]
fn tier_llm_mapping() {
    assert_eq!(Registry::llm_for_tier(Tier::Lite), "hymt2_1.8b_iq2_m");
    assert_eq!(Registry::llm_for_tier(Tier::Standard), "hymt2_7b_q4");
    assert_eq!(Registry::llm_for_tier(Tier::Pro), "hymt2_30b_a3b_q4");
}

#[test]
fn all_repos_are_modelscope() {
    for m in Registry::all() {
        assert!(m.modelscope_repo.contains('/'), "{} repo malformed", m.id);
        assert!(!m.file.is_empty());
        assert!(m.size_mib > 0);
    }
}

#[test]
fn all_is_ocr_then_llm_then_inpaint() {
    let n = Registry::ocr_specs().len() + Registry::llm_specs().len() + Registry::inpaint_specs().len();
    assert_eq!(Registry::all().len(), n);
    assert_eq!(Registry::all()[0].id, Registry::ocr_specs()[0].id);
}

#[test]
fn tier_models_are_registered_llms() {
    for t in [Tier::Lite, Tier::Standard, Tier::Pro] {
        let m = Registry::find(Registry::llm_for_tier(t)).unwrap();
        assert_eq!(m.role, ModelRole::Llm);
    }
}
