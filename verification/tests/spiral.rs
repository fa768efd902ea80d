use aoc::spiral::{stress_test, Point};

#[test]
fn spiral_point_correct() {
    let tests = vec![
        (0, Point { x: 0, y: 0 }),
        (1, Point { x: 1, y: 0 }),
        (2, Point { x: 1, y: 1 }),
    ];

    for t in tests {
        assert_eq!(Point::new(t.0), t.1)
    }
}

#[test]
fn spiral_spiral_point_correct() {
    let tests = vec![
        (0, Point { x: 0, y: 0 }),
        (1, Point { x: 1, y: 0 }),
        (2, Point { x: 1, y: 1 }),
    ];

    for t in tests {
        assert_eq!(Point::new(t.0), t.1)
    }
}

#[test]
fn spiral_distance_correct() {
    let tests = vec![(0, 0), (1, 1), (2, 2), (11, 3), (22, 2), (1023, 31)];

    for t in tests {
        assert_eq!(Point::new(t.0).manhattan_distance_from_origin(), t.1);
    }
}

#[test]
fn spiral_spiral_distance_correct() {
    let tests = vec![(0, 0), (1, 1), (2, 2), (11, 3), (22, 2), (1023, 31)];

    for t in tests {
        assert_eq!(Point::new(t.0).manhattan_distance_from_origin(), t.1);
    }
}

#[test]
fn spiral_turns_left_at_the_end_of_each_leg() {
    let expected = vec![
        (0, 0),
        (1, 0),
        (1, 1),
        (0, 1),
        (-1, 1),
        (-1, 0),
        (-1, -1),
        (0, -1),
        (1, -1),
        (2, -1),
        (2, 0),
        (2, 1),
        (2, 2),
        (1, 2),
    ];
    for (n, (x, y)) in expected.iter().enumerate() {
        assert_eq!(Point::new(n as u32), Point { x: *x, y: *y });
    }
}

#[test]
fn neighbours_go_round_counterclockwise() {
    let around = Point { x: 3, y: -2 }.neighbours();
    assert_eq!(
        around,
        vec![
            Point { x: 4, y: -2 },
            Point { x: 4, y: -1 },
            Point { x: 3, y: -1 },
            Point { x: 2, y: -1 },
            Point { x: 2, y: -2 },
            Point { x: 2, y: -3 },
            Point { x: 3, y: -3 },
            Point { x: 4, y: -3 },
        ]
    );
}

#[test]
fn distance_of_far_points() {
    assert_eq!(
        Point { x: i32::MAX, y: -i32::MAX }.manhattan_distance_from_origin(),
        4294967294
    );
    assert_eq!(Point { x: -3, y: 4 }.manhattan_distance_from_origin(), 7);
    // 289326 is the second cell of its ring's north-west leg.
    assert_eq!(Point::new(289326 - 1).manhattan_distance_from_origin(), 419);
}

#[test]
fn stress_test_finds_the_first_larger_value() {
    // The values written along the spiral start 1 1 2 4 5 10 11 23 25 26 54 57 59 122.
    let expected = [(0, 1), (1, 2), (2, 4), (4, 5), (5, 10), (10, 11), (22, 23), (25, 26), (59, 122), (747, 806)];
    for (n, value) in expected {
        assert_eq!(stress_test(n, 1000), Some(value));
    }
    assert_eq!(stress_test(289326, u32::MAX), Some(295229));
    assert_eq!(stress_test(5, 5), Some(10));
    assert_eq!(stress_test(5, 4), None);
    assert_eq!(stress_test(0, 0), None);
    assert_eq!(stress_test(0, 1), Some(1));
    assert_eq!(stress_test(1, 1), None);
}
