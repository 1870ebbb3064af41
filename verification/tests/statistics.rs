use psf_guard::sample_statistics::{histogram16, mad_doubled, median_doubled, sample_range, sample_sum};

#[test]
fn histogram_counts_each_value() {
    let h = histogram16(&[3, 3, 0, 65535, 3]);
    assert_eq!(h.len(), 65536);
    assert_eq!(h[3], 3);
    assert_eq!(h[0], 1);
    assert_eq!(h[65535], 1);
    assert_eq!(h[1], 0);
}

#[test]
fn medians_are_doubled() {
    assert_eq!(median_doubled(&[5]), 10);
    assert_eq!(median_doubled(&[3, 1, 2]), 4);
    assert_eq!(median_doubled(&[4, 1, 3, 2]), 5);
    assert_eq!(median_doubled(&[65535, 65535]), 131070);
}

#[test]
fn median_absolute_deviation() {
    // median 3, deviations 2 1 0 1 97 -> middle 1
    assert_eq!(mad_doubled(&[1, 2, 3, 4, 100], 6), 2);
    // median 2.5, deviations 1.5 0.5 0.5 1.5 -> 1.5
    assert_eq!(mad_doubled(&[1, 2, 3, 4], 5), 3);
    assert_eq!(mad_doubled(&[7, 7, 7], 14), 0);
    // median 60000, deviations 0 0 5535 60000 60000 -> 5535
    assert_eq!(mad_doubled(&[60000, 0, 0, 65535, 60000], 120000), 11070);
}

#[test]
fn sums_and_ranges() {
    assert_eq!(sample_sum(&[]), 0);
    assert_eq!(sample_sum(&[65535, 65535, 1]), 131071);
    assert_eq!(sample_range(&[9, 2, 700, 2]), (2, 700));
    assert_eq!(sample_range(&[4]), (4, 4));
}
