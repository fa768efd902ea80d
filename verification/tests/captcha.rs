use aoc::captcha::{checked_inverse_captcha, inverse_captcha, read_serial_number};

#[test]
fn inverse_captcha_correct_sum() {
    let tests = vec![
        // vector       1  n/2
        (vec![1, 1, 2, 2], 3, 0),
        (vec![1, 2, 1, 2], 0, 6),
        (vec![1, 1, 1, 1], 4, 4),
        (vec![1, 2, 3, 4], 0, 0),
        (vec![1, 1, 1, 2], 2, 2),
        (vec![9, 1, 2, 1, 2, 1, 2, 9], 9, 6),
    ];

    for t in tests {
        assert_eq!(inverse_captcha(&t.0, 1), t.1);
        assert_eq!(inverse_captcha(&t.0, t.0.len() / 2), t.2);
    }
}

#[test]
fn captcha_of_nothing_is_zero() {
    assert_eq!(inverse_captcha(&[], 0), 0);
    assert_eq!(inverse_captcha(&[], 7), 0);
}

#[test]
fn captcha_wraps_round_for_any_distance() {
    let digits = vec![1, 2, 1, 2];
    assert_eq!(inverse_captcha(&digits, 0), 6);
    assert_eq!(inverse_captcha(&digits, 4), 6);
    assert_eq!(inverse_captcha(&digits, 6), 6);
    assert_eq!(inverse_captcha(&digits, usize::MAX), 0);
    assert_eq!(inverse_captcha(&[5], usize::MAX), 5);
}

#[test]
fn checked_captcha_reports_overflow() {
    assert_eq!(checked_inverse_captcha(&[1, 1, 2, 2], 1), Some(3));
    assert_eq!(checked_inverse_captcha(&[u32::MAX, u32::MAX], 1), None);
    assert_eq!(checked_inverse_captcha(&[u32::MAX, 0, u32::MAX, 0], 2), None);
    assert_eq!(checked_inverse_captcha(&[u32::MAX, 1], 1), Some(0));
    assert_eq!(checked_inverse_captcha(&[u32::MAX], 0), Some(u32::MAX));
    assert_eq!(checked_inverse_captcha(&[], 3), Some(0));
}

#[test]
fn serial_numbers_keep_only_decimal_digits() {
    assert_eq!(read_serial_number("\n91212129\n"), vec![9, 1, 2, 1, 2, 1, 2, 9]);
    assert_eq!(read_serial_number("a1b2 ３ c0"), vec![1, 2, 0]);
    assert!(read_serial_number("").is_empty());
    assert!(read_serial_number("abc").is_empty());
}
