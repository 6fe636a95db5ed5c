use manga_eroico::raster::{dominant_ring_color, fill_regions, RgbRaster};

fn image(w: u32, h: u32, paint: impl Fn(u32, u32) -> [u8; 3]) -> RgbRaster {
    let mut data = Vec::new();
    for y in 0..h {
        for x in 0..w {
            data.extend_from_slice(&paint(x, y));
        }
    }
    RgbRaster::from_raw(w, h, data).unwrap()
}

fn pixel(img: &RgbRaster, x: u32, y: u32) -> [u8; 3] {
    let k = 3 * (y as usize * img.width() as usize + x as usize);
    let d = img.data();
    [d[k], d[k + 1], d[k + 2]]
}

#[test]
fn fill_regions_paints_sampled_background() {
    let mut img = image(60, 40, |x, y| if (20..40).contains(&x) && (15..25).contains(&y) { [0, 0, 0] } else { [255, 255, 255] });
    fill_regions(&mut img, &[(18, 13, 42, 27)], 2);
    for y in 15..25 {
        for x in 20..40 {
            assert_eq!(pixel(&img, x, y), [255, 255, 255]);
        }
    }
}

#[test]
fn fill_regions_clamps_out_of_bounds() {
    let mut img = image(10, 10, |_, _| [0, 0, 0]);
    fill_regions(&mut img, &[(5, 5, 10, 10), (0, 0, 5, 5)], 2);
    assert_eq!(img.data().len(), 300);
}

#[test]
fn ring_color_is_the_average_of_the_border() {
    let img = image(3, 3, |x, y| if x == 1 && y == 1 { [9, 9, 9] } else if x == 0 { [30, 0, 60] } else { [0, 90, 0] });
    assert_eq!(dominant_ring_color(&img, 1, 1, 2, 2, 1), [11, 56, 22]);
    assert_eq!(dominant_ring_color(&img, 0, 0, 3, 3, 1), [255, 255, 255]);
}

#[test]
fn later_boxes_sample_the_painted_image() {
    let mut img = image(5, 1, |x, _| if x == 0 { [100, 100, 100] } else { [0, 0, 0] });
    fill_regions(&mut img, &[(1, 0, 2, 0), (1, 0, 3, 1), (3, 0, 4, 1)], 1);
    assert_eq!(pixel(&img, 1, 0), [33, 33, 33]);
    assert_eq!(pixel(&img, 2, 0), [33, 33, 33]);
    assert_eq!(pixel(&img, 3, 0), [16, 16, 16]);
    assert_eq!(pixel(&img, 4, 0), [0, 0, 0]);
}

#[test]
fn raw_buffer_size_must_match() {
    assert!(RgbRaster::from_raw(2, 2, vec![0; 11]).is_none());
    assert!(RgbRaster::from_raw(2, 2, vec![0; 12]).is_some());
}
