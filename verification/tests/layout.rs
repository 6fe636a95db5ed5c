use manga_eroico::layout::{fit_size, split_columns};

#[test]
fn columns_hold_at_most_max_rows() {
    let cols = split_columns("あいうえお", 2);
    assert_eq!(cols, vec![vec!['あ', 'い'], vec!['う', 'え'], vec!['お']]);
    assert_eq!(split_columns("あいうえ", 2).len(), 2);
    assert_eq!(split_columns("", 3), vec![Vec::<char>::new()]);
}

#[test]
fn largest_fitting_size_is_found() {
    assert_eq!(fit_size(8, 48, |s| s <= 20), Some(20));
    assert_eq!(fit_size(8, 48, |s| s <= 48), Some(48));
    assert_eq!(fit_size(8, 48, |_| false), None);
    assert_eq!(fit_size(8, 48, |s| s <= 8), Some(8));
    assert_eq!(fit_size(0, 10, |_| false), None);
    assert_eq!(fit_size(5, 3, |_| true), None);
    assert_eq!(fit_size(u32::MAX - 1, u32::MAX, |_| true), Some(u32::MAX));
}

#[test]
fn largest_fitting_size_for_an_uneven_fit_test() {
    // 20 fits, 21..=30 do not, 31 fits again, nothing above 31 fits.
    let fits = |s: u32| s <= 20 || s == 31;
    assert_eq!(fit_size(8, 48, fits), Some(31));
    assert_eq!(fit_size(8, 30, fits), Some(20));
    // Only sizes the range allows count.
    assert_eq!(fit_size(21, 30, fits), None);
    assert_eq!(fit_size(9, 9, |s| s == 9), Some(9));
}
