use manga_eroico::import::{chapter_page_ids, group_by_chapter};

#[test]
fn folder_groups_by_prefix_in_first_appearance_order() {
    let stems: Vec<String> = ["ch02_001", "ch01_001", "ch02_002", "cover", "ch01-002"].iter().map(|s| s.to_string()).collect();
    let g = group_by_chapter(&stems);
    assert_eq!(g.len(), 3);
    assert_eq!(g[0].prefix, "ch02");
    assert_eq!(g[0].members, vec![0, 2]);
    assert_eq!(g[1].prefix, "ch01");
    assert_eq!(g[1].members, vec![1, 4]);
    assert_eq!(g[2].prefix, "cover");
    assert_eq!(g[2].members, vec![3]);
}

#[test]
fn no_images_no_chapters() {
    assert!(group_by_chapter(&Vec::new()).is_empty());
}

#[test]
fn chapter_pages_from_list_or_all() {
    let all = vec!["p1".to_string(), "p2".to_string()];
    assert_eq!(chapter_page_ids("all", all.clone()), all);
    assert_eq!(chapter_page_ids(" a , b,c ", all.clone()), vec!["a".to_string(), "b".to_string(), "c".to_string()]);
    assert_eq!(chapter_page_ids("", all), vec![String::new()]);
}
