use aoc::vortex::{simulate, whirlwind, whirlwind_next, WhirlMatch};

#[test]
fn test_whirlwind_zerostep() {
    for until in 0..100 {
        for watch in 0..until {
            assert_eq!(
                whirlwind(0, until, watch),
                WhirlMatch {
                    last_position: until,
                    watch_set_at: watch,
                    watch_value: Some(watch),
                }
            );
        }
    }
}

#[test]
fn test_whirlwind_next_zerostep() {
    for until in 0..1000 {
        assert_eq!(whirlwind_next(0, until), 0);
    }
}

#[test]
fn test_whirlwind_basics() {
    let tests: Vec<(usize, usize, Vec<usize>, usize)> = vec![
        (3, 0, vec![0], 0),
        (3, 1, vec![0, 1], 1),
        (3, 2, vec![0, 2, 1], 1),
        (3, 3, vec![0, 2, 3, 1], 2),
        (3, 4, vec![0, 2, 4, 3, 1], 2),
        (3, 5, vec![0, 5, 2, 4, 3, 1], 1),
        (3, 6, vec![0, 5, 2, 4, 3, 6, 1], 5),
        (3, 7, vec![0, 5, 7, 2, 4, 3, 6, 1], 2),
        (3, 8, vec![0, 5, 7, 2, 4, 3, 8, 6, 1], 6),
        (3, 9, vec![0, 9, 5, 7, 2, 4, 3, 8, 6, 1], 1),
    ];
    for (steps, until, results, pos) in tests {
        let n = results.len();
        assert_eq!(until + 1, n);
        for index in 0..n {
            let mat = whirlwind(steps, until, index);
            assert_eq!(mat.last_position, pos);
            assert_eq!(
                mat.watch_value,
                Some(results[index]),
                "watch index {} with test {:?} => {:?}",
                index,
                results,
                mat,
            );
        }
        assert_eq!(
            whirlwind_next(steps, until),
            results[(pos + 1) % (until + 1)]
        );
    }
}

#[test]
fn value_after_last_insertion_in_worked_example() {
    // 0 (1) | 0 (2) 1 | 0 2 (3) 1 | 0 2 (4) 3 1 | 0 (5) 2 4 3 1 | 0 5 2 4 3 (6) 1
    // 0 5 (7) 2 4 3 6 1 | 0 5 7 2 4 3 (8) 6 1 | 0 (9) 5 7 2 4 3 8 6 1
    let after_last: Vec<usize> = (1..=9).map(|until| whirlwind_next(3, until)).collect();
    assert_eq!(after_last, vec![0, 1, 1, 3, 2, 1, 2, 6, 5]);
}

#[test]
fn value_after_2017_is_638() {
    assert_eq!(whirlwind_next(3, 2017), 638);
    let last = whirlwind(3, 2017, 0).last_position;
    assert_eq!(whirlwind(3, 2017, last).watch_value, Some(2017));
    assert_eq!(whirlwind(3, 2017, last - 1).watch_value, Some(151));
    assert_eq!(whirlwind(3, 2017, last + 2).watch_value, Some(1513));
}

#[test]
fn simulation_of_worked_example() {
    assert_eq!(simulate(3, 0), vec![0]);
    assert_eq!(simulate(3, 3), vec![0, 2, 3, 1]);
    assert_eq!(simulate(3, 9), vec![0, 9, 5, 7, 2, 4, 3, 8, 6, 1]);
}

#[test]
fn whirlwind_matches_simulation() {
    for steps in 0..25 {
        for until in 0..40 {
            let values = simulate(steps, until);
            assert_eq!(values.len(), until + 1);
            let mut last = 0;
            for (index, value) in values.iter().enumerate() {
                let mat = whirlwind(steps, until, index);
                assert_eq!(mat.watch_value, Some(*value));
                if *value == until {
                    last = index;
                }
                // The watched value was inserted where the buffer of that time shows it.
                assert_eq!(simulate(steps, *value)[mat.watch_set_at], *value);
            }
            assert_eq!(whirlwind(steps, until, 0).last_position, last);
            assert_eq!(whirlwind_next(steps, until), values[(last + 1) % (until + 1)]);
        }
    }
}

#[test]
fn value_after_zero_matches_simulation_up_to_ten_thousand() {
    for steps in [3usize, 371] {
        let values = simulate(steps, 10_000);
        assert_eq!(whirlwind(steps, 10_000, 1).watch_value, Some(values[1]));
        for until in (1..10_000).step_by(997) {
            let values = simulate(steps, until);
            assert_eq!(whirlwind(steps, until, 1).watch_value, Some(values[1]));
        }
    }
}

#[test]
fn value_after_zero_after_fifty_million_insertions() {
    // The value behind 0 is the last one inserted at index 1.
    let steps = 3usize;
    let until = 50_000_000usize;
    let mut expected = 0;
    let mut at = 0;
    for n in 1..=until {
        at = (at + steps) % n + 1;
        if at == 1 {
            expected = n;
        }
    }
    let mat = whirlwind(steps, until, 1);
    assert_eq!(mat.watch_value, Some(expected));
    assert_eq!(mat.watch_set_at, 1);
    assert_eq!(mat.last_position, at);
}

#[test]
fn no_insertions_leave_the_initial_buffer() {
    for steps in [0usize, 1, 3, 371] {
        assert_eq!(
            whirlwind(steps, 0, 0),
            WhirlMatch { last_position: 0, watch_set_at: 0, watch_value: Some(0) }
        );
        assert_eq!(
            whirlwind(steps, 0, 1),
            WhirlMatch { last_position: 0, watch_set_at: 1, watch_value: None }
        );
        assert_eq!(whirlwind_next(steps, 0), 0);
        assert_eq!(simulate(steps, 0), vec![0]);
    }
}

#[test]
fn watch_beyond_the_buffer_finds_nothing() {
    assert_eq!(
        whirlwind(3, 9, 10),
        WhirlMatch { last_position: 1, watch_set_at: 10, watch_value: None }
    );
    assert_eq!(whirlwind(3, 9, usize::MAX).watch_value, None);
    assert_eq!(whirlwind(3, 9, 9).watch_value, Some(1));
}

#[test]
fn huge_step_counts_do_not_overflow() {
    let steps = usize::MAX;
    let values = simulate(steps, 50);
    for (index, value) in values.iter().enumerate() {
        assert_eq!(whirlwind(steps, 50, index).watch_value, Some(*value));
    }
}

#[test]
fn whirlwind_is_deterministic() {
    assert_eq!(whirlwind(371, 2017, 1000), whirlwind(371, 2017, 1000));
    assert_eq!(whirlwind_next(371, 2017), 1311);
}
