use manga_eroico::graph::{after_attempt, all_steps, AttemptVerdict, PipelineGraph, StepKind};
use manga_eroico::host::{set_node_enabled_in, step_from_name};

#[test]
fn default_pipeline_disables_polish_only() {
    let g = PipelineGraph::default_pipeline();
    assert_eq!(g.configs.len(), 6);
    assert!(!g.is_enabled(StepKind::Polish));
    for k in [StepKind::Detect, StepKind::Ocr, StepKind::Inpaint, StepKind::Translate, StepKind::Render] {
        assert!(g.is_enabled(k), "{k:?} should be enabled by default");
    }
}

#[test]
fn toggle_polish_roundtrip() {
    let mut g = PipelineGraph::default_pipeline();
    assert!(g.set_enabled(StepKind::Polish, true));
    assert!(g.is_enabled(StepKind::Polish));
    assert!(g.set_enabled(StepKind::Polish, false));
    assert!(!g.is_enabled(StepKind::Polish));
    let mut empty = PipelineGraph { configs: vec![] };
    assert!(!empty.set_enabled(StepKind::Detect, true));
}

#[test]
fn chain_is_contiguous() {
    let all = all_steps();
    for k in all_steps() {
        if let Some(prev) = k.previous() {
            assert_eq!(all[all.iter().position(|s| *s == prev).unwrap() + 1], k);
        }
    }
}

#[test]
fn step_names_round_trip() {
    for k in all_steps() {
        assert_eq!(step_from_name(k.as_str()), Some(k));
    }
    assert_eq!(step_from_name("nope"), None);
}

#[test]
fn params_are_set_and_read_back() {
    let mut g = PipelineGraph::default_pipeline();
    assert!(g.set_param(StepKind::Ocr, "lang", serde_json::Value::from("ja")));
    assert_eq!(g.param(StepKind::Ocr, "lang"), Some(&serde_json::Value::from("ja")));
    assert_eq!(g.param(StepKind::Detect, "lang"), None);
    let mut empty = PipelineGraph { configs: vec![] };
    assert!(!empty.set_param(StepKind::Ocr, "lang", serde_json::Value::from(1)));
}

#[test]
fn retries_default_and_missing() {
    let g = PipelineGraph::default_pipeline();
    assert_eq!(g.max_retries(StepKind::Detect), 2);
    let empty = PipelineGraph { configs: vec![] };
    assert_eq!(empty.max_retries(StepKind::Detect), 0);
}

#[test]
fn canvas_toggle_reports_errors() {
    let mut g = PipelineGraph::default_pipeline();
    assert_eq!(set_node_enabled_in(&mut g, "polish", true), Ok(()));
    assert!(g.is_enabled(StepKind::Polish));
    assert_eq!(set_node_enabled_in(&mut g, "bogus", true), Err("unknown node bogus".to_string()));
    let mut empty = PipelineGraph { configs: vec![] };
    assert_eq!(set_node_enabled_in(&mut empty, "ocr", true), Err("node ocr not in pipeline".to_string()));
}

#[test]
fn attempts_are_retried_up_to_the_limit() {
    assert_eq!(after_attempt(0, 2, true), AttemptVerdict::Completed);
    assert_eq!(after_attempt(0, 2, false), AttemptVerdict::Retry);
    assert_eq!(after_attempt(1, 2, false), AttemptVerdict::Retry);
    assert_eq!(after_attempt(2, 2, false), AttemptVerdict::Failed);
    assert_eq!(after_attempt(0, 0, false), AttemptVerdict::Failed);
}

#[test]
fn step_names_are_distinct_lowercase_words() {
    let names: Vec<&str> = all_steps().iter().map(|k| k.as_str()).collect();
    assert_eq!(names, vec!["detect", "ocr", "inpaint", "translate", "polish", "render"]);
    for (i, a) in names.iter().enumerate() {
        assert!(!a.is_empty() && a.chars().all(|c| c.is_ascii_lowercase()));
        for b in &names[i + 1..] {
            assert_ne!(a, b);
        }
        assert_eq!(step_from_name(a), Some(all_steps()[i]));
    }
}

#[test]
fn toggling_a_node_leaves_the_others() {
    let mut g = PipelineGraph::default_pipeline();
    assert_eq!(set_node_enabled_in(&mut g, "ocr", false), Ok(()));
    for k in all_steps() {
        let expected = !(k == StepKind::Ocr || k == StepKind::Polish);
        assert_eq!(g.is_enabled(k), expected, "{:?}", k);
    }
    let mut short = PipelineGraph { configs: Vec::new() };
    assert_eq!(set_node_enabled_in(&mut short, "ocr", true), Err("node ocr not in pipeline".to_string()));
    assert!(short.configs.is_empty());
}
