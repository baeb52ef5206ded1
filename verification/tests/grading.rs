use oximedia::grading::{ColorChannel, ColorHistogram};

#[test]
fn histogram_counts_and_median() {
    let mut h = ColorHistogram::new(4);
    assert_eq!(h.bins(), 4);
    assert_eq!(h.red, vec![0, 0, 0, 0]);
    assert_eq!(h.median_bin(ColorChannel::Red), None);
    h.add_binned(1, 0, 3, 2);
    h.add_binned(1, 0, 3, 2);
    h.add_binned(3, 0, 3, 2);
    assert_eq!(h.red, vec![0, 2, 0, 1]);
    assert_eq!(h.green, vec![3, 0, 0, 0]);
    assert_eq!(h.total(ColorChannel::Red), 3);
    // half of 3 is 1: the running count reaches it at bin 1
    assert_eq!(h.median_bin(ColorChannel::Red), Some(1));
    assert_eq!(h.median_bin(ColorChannel::Blue), Some(3));
    assert_eq!(h.first_bin_reaching(ColorChannel::Red, 3), Some(3));
    assert_eq!(h.first_bin_reaching(ColorChannel::Red, 4), None);
    assert_eq!(h.first_bin_reaching(ColorChannel::Luma, 0), Some(0));
}

#[test]
fn histogram_clear_zeroes_counts() {
    let mut h = ColorHistogram::new(3);
    h.add_binned(0, 1, 2, 0);
    h.clear();
    assert_eq!(h.red, vec![0, 0, 0]);
    assert_eq!(h.green, vec![0, 0, 0]);
    assert_eq!(h.blue, vec![0, 0, 0]);
    assert_eq!(h.luma, vec![0, 0, 0]);
    assert_eq!(h.bins(), 3);
}
