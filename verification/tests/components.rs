use manga_eroico::components::{greedy_keep, pixel_components, PixelComponent};

fn mask_from(rows: &[&str]) -> (Vec<bool>, usize, usize) {
    let h = rows.len();
    let w = rows[0].len();
    let mut m = Vec::new();
    for r in rows {
        for c in r.chars() {
            m.push(c == '#');
        }
    }
    (m, w, h)
}

fn summary(c: &PixelComponent) -> (usize, usize, usize, usize, usize, usize, usize) {
    (c.seed_x, c.seed_y, c.count, c.min_x, c.min_y, c.max_x, c.max_y)
}

#[test]
fn islands_in_scan_order_with_small_ones_dropped() {
    let (m, w, h) = mask_from(&["##....", "##..#.", "......", ".#####"]);
    let comps = pixel_components(&m, w, h, 2);
    assert_eq!(comps.len(), 2);
    assert_eq!(summary(&comps[0]), (0, 0, 4, 0, 0, 1, 1));
    assert_eq!(summary(&comps[1]), (1, 3, 5, 1, 3, 5, 3));
    let all = pixel_components(&m, w, h, 0);
    assert_eq!(all.len(), 3);
    assert_eq!(summary(&all[1]), (4, 1, 1, 4, 1, 4, 1));
}

#[test]
fn diagonal_pixels_are_separate_islands() {
    let (m, w, h) = mask_from(&["#.", ".#"]);
    let comps = pixel_components(&m, w, h, 1);
    assert_eq!(comps.len(), 2);
}

#[test]
fn winding_island_is_one_region() {
    let (m, w, h) = mask_from(&["#.###", "#.#.#", "###.#"]);
    let comps = pixel_components(&m, w, h, 1);
    assert_eq!(comps.len(), 1);
    assert_eq!(summary(&comps[0]), (0, 0, 11, 0, 0, 4, 2));
}

#[test]
fn empty_and_blank_masks() {
    assert!(pixel_components(&Vec::new(), 0, 0, 1).is_empty());
    let (m, w, h) = mask_from(&["....", "...."]);
    assert!(pixel_components(&m, w, h, 1).is_empty());
}

#[test]
fn islands_share_out_every_foreground_pixel() {
    let (m, w, h) = mask_from(&["#.#.#", "###.#", "....#", "##..."]);
    let comps = pixel_components(&m, w, h, 0);
    let total: usize = comps.iter().map(|c| c.count).sum();
    assert_eq!(total, m.iter().filter(|b| **b).count());
    assert_eq!(comps.len(), 3);
}

#[test]
fn overlap_suppression_keeps_the_first_of_each_conflict() {
    let c = vec![
        vec![false, true, false, false],
        vec![true, false, false, false],
        vec![false, false, false, true],
        vec![false, false, true, false],
    ];
    assert_eq!(greedy_keep(&c), vec![0, 2]);
    assert_eq!(greedy_keep(&Vec::new()), Vec::<usize>::new());
    let none = vec![vec![false; 3]; 3];
    assert_eq!(greedy_keep(&none), vec![0, 1, 2]);
}
