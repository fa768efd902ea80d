use aoc::spreadsheet::{checked_checksum, checked_checksum_div, checksum, checksum_div};
use aoc::text::read_numbers;

#[test]
fn spreadsheet_checksum_correct_sum() {
    let tests = vec![
        // vector       max-min  div
        (vec![vec![5, 1, 9, 5]], 8, 9),
        (vec![vec![5, 2, 9, 8]], 7, 4),
        (vec![vec![7, 5, 3]], 4, 1),
        (vec![vec![5, 1, 9, 5], vec![7, 5, 3], vec![2, 4, 6, 8]], 18, 14),
    ];

    for t in tests {
        assert_eq!(checksum(&t.0), t.1);
        assert_eq!(checksum_div(&t.0), t.2);
    }
}

#[test]
fn spreadsheet_spreadsheet_checksum_correct_sum() {
    let tests = vec![
        // vector       max-min  div
        (vec![vec![5, 1, 9, 5]], 8, 9),
        (vec![vec![5, 2, 9, 8]], 7, 4),
        (vec![vec![7, 5, 3]], 4, 1),
        (vec![vec![5, 1, 9, 5], vec![7, 5, 3], vec![2, 4, 6, 8]], 18, 14),
    ];

    for t in tests {
        assert_eq!(checksum(&t.0), t.1);
        assert_eq!(checksum_div(&t.0), t.2);
    }
}

#[test]
fn empty_rows_add_nothing() {
    assert_eq!(checksum(&[]), 0);
    assert_eq!(checksum_div(&[]), 0);
    assert_eq!(checksum(&[vec![], vec![3, 10], vec![]]), 7);
    assert_eq!(checksum_div(&[vec![], vec![3, 9], vec![]]), 3);
    assert_eq!(checksum(&[vec![4]]), 0);
    assert_eq!(checksum_div(&[vec![4]]), 1);
}

#[test]
fn largest_numbers_do_not_overflow() {
    assert_eq!(checksum(&[vec![0, u32::MAX]]), u32::MAX);
    assert_eq!(checksum_div(&[vec![1, u32::MAX]]), u32::MAX);
}

#[test]
fn checked_checksums_report_what_goes_wrong() {
    let rows = vec![vec![5, 1, 9, 5], vec![7, 5, 3], vec![2, 4, 6, 8]];
    assert_eq!(checked_checksum(&rows), Some(18));
    assert_eq!(checked_checksum_div(&rows), Some(14));
    assert_eq!(checked_checksum(&[vec![0, u32::MAX], vec![1, 2]]), None);
    assert_eq!(checked_checksum_div(&[vec![1, u32::MAX], vec![3]]), None);
    assert_eq!(checked_checksum_div(&[vec![4, 2], vec![3, 0]]), None);
    assert_eq!(checked_checksum(&[vec![4, 2], vec![3, 0]]), Some(5));
}

#[test]
fn rows_are_read_from_text() {
    assert_eq!(read_numbers("5 1\t9  5"), Some(vec![5, 1, 9, 5]));
    assert_eq!(read_numbers(""), Some(vec![]));
    assert_eq!(read_numbers(" +7 4294967295 "), Some(vec![7, 4294967295]));
    assert_eq!(read_numbers("1 4294967296"), None);
    assert_eq!(read_numbers("1 -2"), None);
    assert_eq!(read_numbers("1 two 3"), None);
}
