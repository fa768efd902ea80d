use aoc::error::ConfigError;
use aoc::firewall::{Firewall, Scanner, ScannerError};

fn example() -> Firewall {
    Firewall::new(
        vec![(0, 3), (1, 2), (4, 4), (6, 4)]
            .iter()
            .map(|x| Scanner::new(x.0, x.1).unwrap())
            .collect(),
    )
}

#[test]
fn test_trigger_intensity() {
    let firewall = Firewall::new(
        vec![(0, 3), (1, 2), (4, 4), (6, 4)]
            .iter()
            .map(|x| Scanner::new(x.0, x.1).unwrap())
            .collect(),
    );

    assert_eq!(firewall.traverse(0), 24);
}

#[test]
fn minimal_safe_delay_of_example_is_ten() {
    let firewall = example();
    assert_eq!(firewall.find_minimal_safe_delay(10_000_000), Some(10));
    assert_eq!(firewall.find_minimal_safe_delay(11), Some(10));
    for delay in 0..10 {
        assert!(firewall.triggers(delay));
    }
    assert!(!firewall.triggers(10));
    assert_eq!(firewall.traverse(10), 0);
}

#[test]
fn exhausted_search_is_not_found() {
    let firewall = example();
    assert_eq!(firewall.find_minimal_safe_delay(10), None);
    assert_eq!(firewall.find_minimal_safe_delay(0), None);
    let wall = Firewall::new(vec![Scanner::new(0, 1).unwrap()]);
    assert_eq!(wall.find_minimal_safe_delay(1000), None);
}

#[test]
fn empty_firewall_is_safe_at_once() {
    let firewall = Firewall::new(Vec::new());
    assert_eq!(firewall.traverse(0), 0);
    assert!(!firewall.triggers(0));
    assert_eq!(firewall.find_minimal_safe_delay(1), Some(0));
    assert_eq!(firewall.find_minimal_safe_delay(0), None);
}

#[test]
fn scanner_triggers_at_multiples_of_its_period() {
    for range in 2..8usize {
        let scanner = Scanner::new(0, range).unwrap();
        let period = 2 * (range - 1);
        for time in 0..100usize {
            assert_eq!(scanner.is_zero_at(time), time % period == 0);
        }
    }
}

#[test]
fn every_scanner_triggers_at_time_zero() {
    for range in 1..50usize {
        assert!(Scanner::new(7, range).unwrap().is_zero_at(0));
    }
    assert!(Scanner::new(0, usize::MAX).unwrap().is_zero_at(0));
    assert!(!Scanner::new(0, usize::MAX).unwrap().is_zero_at(usize::MAX));
}

#[test]
fn unit_range_scanner_always_triggers() {
    let scanner = Scanner::new(3, 1).unwrap();
    for time in 0..100usize {
        assert!(scanner.is_zero_at(time));
        assert_eq!(scanner.severity(time), 3);
    }
    assert!(scanner.is_zero_at(usize::MAX));
}

#[test]
fn scanner_severity_is_depth_times_range() {
    let scanner = Scanner::new(6, 4).unwrap();
    assert_eq!(scanner.severity(0), 24);
    assert_eq!(scanner.severity(6), 24);
    assert_eq!(scanner.severity(5), 0);
    assert_eq!(Scanner::new(0, 3).unwrap().severity(0), 0);
}

#[test]
fn severity_per_delay_of_example() {
    let firewall = example();
    // Caught at depth 0 (range 3) whenever delay % 4 == 0, at depth 1 (range 2)
    // whenever (delay + 1) % 2 == 0, and so on.
    assert_eq!(firewall.traverse(1), 2);
    assert_eq!(firewall.traverse(2), 16);
    assert_eq!(firewall.traverse(4), 0);
    assert!(firewall.triggers(4));
}

#[test]
fn zero_range_is_rejected() {
    assert!(matches!(Scanner::new(0, 0), Err(ConfigError::ZeroRange)));
    assert!(matches!(Scanner::new(5, 0), Err(ConfigError::ZeroRange)));
    assert!(Scanner::new(5, 1).is_ok());
}

#[test]
fn late_delays_do_not_overflow() {
    let firewall = Firewall::new(vec![Scanner::new(usize::MAX, 2).unwrap()]);
    // The packet arrives at time 2 * usize::MAX, an even time.
    assert!(firewall.triggers(usize::MAX));
    assert!(!firewall.triggers(usize::MAX - 1));
    assert_eq!(firewall.find_minimal_safe_delay(5), Some(0));
}

#[test]
fn traversal_is_deterministic() {
    let firewall = example();
    assert_eq!(firewall.traverse(0), firewall.traverse(0));
    assert_eq!(
        firewall.find_minimal_safe_delay(100),
        firewall.find_minimal_safe_delay(100)
    );
}

#[test]
fn scanners_are_read_from_lines() {
    let firewall = Firewall::new(
        ["0: 3", "1: 2", "4: 4", "6: 4"]
            .iter()
            .map(|line| line.parse().unwrap())
            .collect(),
    );
    assert_eq!(firewall.traverse(0), 24);
    assert_eq!(firewall.find_minimal_safe_delay(100), Some(10));
    let scanner = Scanner::parse("+6: +4").unwrap();
    assert_eq!(scanner.severity(0), 24);
    for line in ["", "0", "0:3", "0 : 3", "0: 3: 4", "a: 3", "0: b", ": 3", "0: ", "0:: 3", " 0: 3", "0: 3 ", "-1: 3", "0: 18446744073709551616"] {
        assert_eq!(Scanner::parse(line).unwrap_err(), ScannerError::Malformed, "{:?}", line);
    }
    assert_eq!(Scanner::parse("5: 0").unwrap_err(), ScannerError::ZeroRange);
    assert_eq!("5: 0".parse::<Scanner>().unwrap_err(), ScannerError::ZeroRange);
}

#[test]
fn checked_traversal_reports_overflow() {
    let firewall = example();
    assert_eq!(firewall.checked_traverse(0), Some(24));
    assert_eq!(firewall.checked_traverse(10), Some(0));
    let heavy = Firewall::new(vec![Scanner::new(usize::MAX, 1).unwrap(), Scanner::new(1, 1).unwrap()]);
    assert_eq!(heavy.checked_traverse(0), None);
    let heavy = Firewall::new(vec![Scanner::new(usize::MAX, 2).unwrap()]);
    assert_eq!(heavy.checked_traverse(1), None);
    assert_eq!(heavy.checked_traverse(0), Some(0));
    let edge = Firewall::new(vec![Scanner::new(usize::MAX, 1).unwrap()]);
    assert_eq!(edge.checked_traverse(3), Some(usize::MAX));
    assert_eq!(edge.traverse(3), usize::MAX);
}
