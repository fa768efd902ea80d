//! Points on the square spiral that starts at the origin, first goes east and
//! turns left: legs of the lengths 1, 1, 2, 2, 3, 3 and so on.

use vstd::prelude::*;

verus! {

/// A walker on the spiral: where it is, where it is heading (0 east, 1 north,
/// 2 west, 3 south), the lengths of the current pair of legs, and how many steps
/// of the current leg are left.
pub struct Walk {
    pub x: int,
    pub y: int,
    pub direction: int,
    pub width: int,
    pub height: int,
    pub repeat: int,
}

/// The walker at the origin, about to go one step east.
pub open spec fn walk_start() -> Walk {
    Walk { x: 0, y: 0, direction: 0, width: 1, height: 1, repeat: 1 }
}

/// One step in the current direction, and a left turn where the leg ends.
pub open spec fn walk_step(w: Walk) -> Walk {
    let x = if w.direction == 0 {
        w.x + 1
    } else if w.direction == 2 {
        w.x - 1
    } else {
        w.x
    };
    let y = if w.direction == 1 {
        w.y + 1
    } else if w.direction == 3 {
        w.y - 1
    } else {
        w.y
    };
    if w.repeat - 1 == 0 {
        let width = if w.width == w.height {
            w.width
        } else {
            w.width + 1
        };
        let height = if w.width == w.height {
            w.height + 1
        } else {
            w.height
        };
        Walk { x, y, direction: (w.direction + 1) % 4, width, height, repeat: width }
    } else {
        Walk { x, y, repeat: w.repeat - 1, ..w }
    }
}

/// The walker after `n` steps.
pub open spec fn walk(n: nat) -> Walk
    decreases n,
{
    if n == 0 {
        walk_start()
    } else {
        walk_step(walk((n - 1) as nat))
    }
}

/// Where the walker after `n` steps stands, in closed form: on which leg, how far
/// along it, and at which coordinates.
pub open spec fn on_track(w: Walk, n: nat) -> bool {
    let done = w.width - w.repeat;
    &&& 1 <= w.repeat <= w.width
    &&& 0 <= w.direction <= 3
    &&& w.direction == 0 ==> {
        &&& w.height == w.width
        &&& w.width % 2 == 1
        &&& 2 * (w.x - done) == -(w.width - 1)
        &&& 2 * w.y == -(w.width - 1)
        &&& n == w.width * (w.width - 1) + done
    }
    &&& w.direction == 1 ==> {
        &&& w.height == w.width + 1
        &&& w.width % 2 == 1
        &&& 2 * w.x == w.width + 1
        &&& 2 * (w.y - done) == -(w.width - 1)
        &&& n == w.width * w.width + done
    }
    &&& w.direction == 2 ==> {
        &&& w.height == w.width
        &&& w.width % 2 == 0
        &&& 2 * (w.x + done) == w.width
        &&& 2 * w.y == w.width
        &&& n == w.width * (w.width - 1) + done
    }
    &&& w.direction == 3 ==> {
        &&& w.height == w.width + 1
        &&& w.width % 2 == 0
        &&& 2 * w.x == -w.width
        &&& 2 * (w.y + done) == w.width
        &&& n == w.width * w.width + done
    }
}

/// A step keeps the walker on the spiral.
pub proof fn lemma_step_on_track(w: Walk, n: nat)
    requires
        on_track(w, n),
    ensures
        on_track(walk_step(w), n + 1),
{
    let next = walk_step(w);
    assert(w.width * (w.width - 1) + w.width == w.width * w.width) by (nonlinear_arith);
    assert(w.width * w.width + w.width == (w.width + 1) * w.width) by (nonlinear_arith);
}

/// The walker after `n` steps stands where the closed form says.
pub proof fn lemma_walk_on_track(n: nat)
    ensures
        on_track(walk(n), n),
    decreases n,
{
    if n > 0 {
        lemma_walk_on_track((n - 1) as nat);
        lemma_step_on_track(walk((n - 1) as nat), (n - 1) as nat);
    }
}

/// Within `limit` steps the legs stay shorter than `side` if `side * (side - 1)`
/// exceeds `limit`, and the walker stays within half a leg of the origin.
pub proof fn lemma_walk_bounds(w: Walk, n: nat, side: int, limit: int)
    requires
        on_track(w, n),
        n <= limit,
        side >= 1,
        side * (side - 1) > limit,
    ensures
        w.width < side,
        w.height <= side,
        -side < 2 * w.x <= side,
        -side < 2 * w.y <= side,
{
    assert(w.width >= side ==> w.width * (w.width - 1) >= side * (side - 1)) by (nonlinear_arith)
        requires
            side >= 1,
    ;
    assert(w.width * w.width >= w.width * (w.width - 1)) by (nonlinear_arith)
        requires
            w.width >= 1,
    ;
}

/// A point of the plane.
#[derive(Debug, PartialEq, Eq, Hash, Structural)]
pub struct Point {
    pub x: i32,
    pub y: i32,
}

impl Point {
    /// The point reached after `n` steps along the spiral.
    pub fn new(n: u32) -> (p: Point)
        ensures
            p.x == walk(n as nat).x,
            p.y == walk(n as nat).y,
            -32768 <= p.x <= 32768,
            -32768 <= p.y <= 32768,
    {
        let mut p = Point { x: 0, y: 0 };
        let mut repeat: i32 = 1;
        let mut current: (i32, i32) = (1, 1);
        let mut direction: i32 = 0;
        let mut left: u32 = n;
        while left > 0
            invariant
                left <= n,
                walk((n - left) as nat) == (Walk {
                    x: p.x as int,
                    y: p.y as int,
                    direction: direction as int,
                    width: current.0 as int,
                    height: current.1 as int,
                    repeat: repeat as int,
                }),
            decreases left,
        {
            proof {
                let taken = (n - left) as nat;
                lemma_walk_on_track(taken);
                lemma_walk_bounds(walk(taken), taken, 65537, 0xffff_ffff);
            }
            left = left - 1;
            if direction == 0 {
                p.x = p.x + 1;
            } else if direction == 1 {
                p.y = p.y + 1;
            } else if direction == 2 {
                p.x = p.x - 1;
            } else {
                p.y = p.y - 1;
            }
            repeat = repeat - 1;
            if repeat == 0 {
                if current.0 == current.1 {
                    current.1 = current.1 + 1;
                } else {
                    current.0 = current.0 + 1;
                }
                repeat = current.0;
                direction = (direction + 1) % 4;
            }
        }
        proof {
            lemma_walk_on_track(n as nat);
            lemma_walk_bounds(walk(n as nat), n as nat, 65537, 0xffff_ffff);
        }
        p
    }

    /// The sum of the distances from the origin along the two axes.
    pub fn manhattan_distance_from_origin(&self) -> (d: u32)
        requires
            self.x > i32::MIN,
            self.y > i32::MIN,
        ensures
            d == vstd::math::abs(self.x as int) + vstd::math::abs(self.y as int),
    {
        let x: i64 = self.x as i64;
        let y: i64 = self.y as i64;
        let ax: i64 = if x < 0 {
            -x
        } else {
            x
        };
        let ay: i64 = if y < 0 {
            -y
        } else {
            y
        };
        (ax + ay) as u32
    }

    /// The eight points around this one, counterclockwise from the one to the east.
    pub fn neighbours(&self) -> (around: Vec<Point>)
        requires
            i32::MIN < self.x < i32::MAX,
            i32::MIN < self.y < i32::MAX,
        ensures
            around@ == seq![
                Point { x: (self.x + 1) as i32, y: self.y },
                Point { x: (self.x + 1) as i32, y: (self.y + 1) as i32 },
                Point { x: self.x, y: (self.y + 1) as i32 },
                Point { x: (self.x - 1) as i32, y: (self.y + 1) as i32 },
                Point { x: (self.x - 1) as i32, y: self.y },
                Point { x: (self.x - 1) as i32, y: (self.y - 1) as i32 },
                Point { x: self.x, y: (self.y - 1) as i32 },
                Point { x: (self.x + 1) as i32, y: (self.y - 1) as i32 },
            ],
    {
        vec![
            Point { x: self.x + 1, y: self.y },
            Point { x: self.x + 1, y: self.y + 1 },
            Point { x: self.x, y: self.y + 1 },
            Point { x: self.x - 1, y: self.y + 1 },
            Point { x: self.x - 1, y: self.y },
            Point { x: self.x - 1, y: self.y - 1 },
            Point { x: self.x, y: self.y - 1 },
            Point { x: self.x + 1, y: self.y - 1 },
        ]
    }
}

/// Whether two points are different and at most one step apart along each axis.
pub open spec fn touching(a: (int, int), b: (int, int)) -> bool {
    a != b && -1 <= a.0 - b.0 <= 1 && -1 <= a.1 - b.1 <= 1
}

/// The coordinates of the point after `n` steps along the spiral.
pub open spec fn spiral_point(n: nat) -> (int, int) {
    (walk(n).x, walk(n).y)
}

/// The sum of the values written at those of the first `count` points of the
/// spiral that touch the point `at`. The origin holds 1 and every later point the
/// sum of the values written before it at the points that touch it.
pub open spec fn written_around(at: nat, count: nat) -> nat
    decreases at, count,
{
    if count == 0 || count > at {
        0
    } else {
        let k = (count - 1) as nat;
        written_around(at, k) + if touching(spiral_point(k), spiral_point(at)) {
            if k == 0 {
                1
            } else {
                written_around(k, k)
            }
        } else {
            0
        }
    }
}

/// The value written at the point `at` of the spiral.
pub open spec fn written(at: nat) -> nat {
    if at == 0 {
        1
    } else {
        written_around(at, at)
    }
}

/// Whether `at` is the first point behind the origin with a value above `n`.
pub open spec fn first_above(n: nat, at: nat) -> bool {
    &&& at >= 1
    &&& written(at) > n
    &&& forall|earlier: nat| 1 <= earlier < at ==> #[trigger] written(earlier) <= n
}

/// Writes values along the spiral, 1 at the origin and at every later point the
/// sum of the values written before at the points that touch it, and returns the
/// first value above `n` behind the origin.
///
/// Nothing is returned if none of the first `limit` values behind the origin is
/// above `n`, or if the first that is does not fit the result type.
pub fn stress_test(n: u32, limit: u32) -> (found: Option<u64>)
    ensures
        match found {
            Some(value) => exists|at: nat|
                at <= limit && #[trigger] first_above(n as nat, at) && value == written(at),
            None => forall|at: nat|
                at <= limit && #[trigger] first_above(n as nat, at) ==> written(at) > u64::MAX,
        },
{
    let mut points: Vec<Point> = Vec::new();
    let mut values: Vec<u64> = Vec::new();
    points.push(Point::new(0));
    values.push(1);
    let mut i: u32 = 1;
    while i <= limit
        invariant
            1 <= i,
            i <= limit || i == 1,
            points@.len() == i,
            values@.len() == i,
            forall|k: int|
                0 <= k < i ==> spiral_point(k as nat) == ((#[trigger] points@[k]).x as int, points@[k].y as int),
            forall|k: int| 0 <= k < i ==> #[trigger] values@[k] == written(k as nat),
            forall|k: nat| 1 <= k < i ==> #[trigger] written(k) <= n,
        decreases limit + 1 - i,
    {
        let p = Point::new(i);
        let mut sum: u128 = 0;
        let mut k: usize = 0;
        while k < points.len()
            invariant
                k <= points@.len(),
                points@.len() == i,
                values@.len() == i,
                spiral_point(i as nat) == (p.x as int, p.y as int),
                -32768 <= p.x <= 32768,
                -32768 <= p.y <= 32768,
                forall|j: int|
                    0 <= j < i ==> spiral_point(j as nat) == ((#[trigger] points@[j]).x as int, points@[j].y as int),
                forall|j: int| 0 <= j < i ==> #[trigger] values@[j] == written(j as nat),
                sum == written_around(i as nat, k as nat),
                sum <= k * 0x1_0000_0000_0000_0000,
            decreases points@.len() - k,
        {
            let q = &points[k];
            let same = q.x == p.x && q.y == p.y;
            let near = (q.x as i64 - p.x as i64) >= -1 && (q.x as i64 - p.x as i64) <= 1 && (q.y as i64
                - p.y as i64) >= -1 && (q.y as i64 - p.y as i64) <= 1;
            proof {
                assert(values@[k as int] == written(k as nat));
                assert((k + 1) * 0x1_0000_0000_0000_0000 == k * 0x1_0000_0000_0000_0000
                    + 0x1_0000_0000_0000_0000) by (nonlinear_arith);
                assert(k * 0x1_0000_0000_0000_0000 <= 0xffff_ffff * 0x1_0000_0000_0000_0000)
                    by (nonlinear_arith)
                    requires
                        k <= 0xffff_ffff,
                ;
            }
            if near && !same {
                sum = sum + values[k] as u128;
            }
            k = k + 1;
        }
        if sum > n as u128 {
            proof {
                assert(first_above(n as nat, i as nat));
                assert forall|at: nat| first_above(n as nat, at) implies at == i by {
                    if at < i {
                        assert(written(at) <= n);
                    } else if at > i {
                        assert(written(i as nat) <= n);
                    }
                }
            }
            if sum > u64::MAX as u128 {
                return None;
            }
            return Some(sum as u64);
        }
        points.push(p);
        values.push(sum as u64);
        if i == limit {
            proof {
                assert forall|at: nat| at <= limit && #[trigger] first_above(n as nat, at) implies
                    written(at) > u64::MAX by {
                    assert(written(at) <= n);
                }
            }
            return None;
        }
        i = i + 1;
    }
    proof {
        assert(limit == 0);
        assert forall|at: nat| at <= limit && #[trigger] first_above(n as nat, at) implies
            written(at) > u64::MAX by {}
    }
    None
}

} // verus!
