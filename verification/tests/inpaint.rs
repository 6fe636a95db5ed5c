use manga_eroico::inpaint::{dilate, prepare_mask, white_pixel_count, Mask};

fn mask(w: u32, h: u32, paint: impl Fn(u32, u32) -> u8) -> Mask {
    let mut px = Vec::new();
    for y in 0..h {
        for x in 0..w {
            px.push(paint(x, y));
        }
    }
    Mask::from_pixels(w, h, px).unwrap()
}

fn coverage(m: &Mask) -> f64 {
    white_pixel_count(m) as f64 / (m.width() as f64 * m.height() as f64)
}

#[test]
fn dilation_grows_region() {
    let m = mask(9, 9, |x, y| if x == 4 && y == 4 { 255 } else { 0 });
    let d = dilate(&m, 1);
    assert_eq!(coverage(&d), 9.0 / 81.0);
    let d2 = dilate(&m, 2);
    assert_eq!(coverage(&d2), 25.0 / 81.0);
}

#[test]
fn binarize_with_threshold() {
    let raw: Vec<u8> = (0..25u32).map(|i| (i * 10) as u8).collect();
    let m = prepare_mask(&raw, 5, 5, 128, 0);
    let white = m.pixels().iter().filter(|p| **p == 255).count();
    assert_eq!(white, 12);
}

#[test]
fn dilation_is_clipped_at_borders() {
    let m = mask(3, 3, |x, y| if x == 0 && y == 0 { 255 } else { 0 });
    let d = dilate(&m, 1);
    assert_eq!(white_pixel_count(&d), 4);
    assert_eq!(d.pixels()[8], 0);
}

#[test]
fn zero_radius_keeps_mask() {
    let m = mask(4, 2, |x, _| if x % 2 == 0 { 255 } else { 0 });
    let d = dilate(&m, 0);
    assert_eq!(d.pixels(), m.pixels());
}

#[test]
fn mask_size_must_match() {
    assert!(Mask::from_pixels(2, 2, vec![0, 0, 0]).is_none());
    assert!(Mask::from_pixels(2, 2, vec![0; 4]).is_some());
}

#[test]
fn full_and_empty_coverage() {
    assert_eq!(coverage(&mask(4, 4, |_, _| 255)), 1.0);
    assert_eq!(coverage(&mask(4, 4, |_, _| 0)), 0.0);
}

#[test]
fn buffer_comes_back_unchanged() {
    let m = Mask::from_pixels(2, 1, vec![255, 0]).unwrap();
    assert_eq!(m.into_pixels(), vec![255, 0]);
}
