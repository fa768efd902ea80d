//! Checksums of a spreadsheet: a list of rows of numbers.

use vstd::prelude::*;

verus! {

/// The rows of a spreadsheet as sequences.
pub open spec fn sheet(rows: Seq<Vec<u32>>) -> Seq<Seq<u32>> {
    rows.map_values(|row: Vec<u32>| row@)
}

/// The largest number of a row; 0 for an empty row.
pub open spec fn row_max(row: Seq<u32>) -> nat
    decreases row.len(),
{
    if row.len() == 0 {
        0
    } else if row.len() == 1 {
        row[0] as nat
    } else if row.last() > row_max(row.drop_last()) {
        row.last() as nat
    } else {
        row_max(row.drop_last())
    }
}

/// The smallest number of a row; 0 for an empty row.
pub open spec fn row_min(row: Seq<u32>) -> nat
    decreases row.len(),
{
    if row.len() == 0 {
        0
    } else if row.len() == 1 {
        row[0] as nat
    } else if row.last() < row_min(row.drop_last()) {
        row.last() as nat
    } else {
        row_min(row.drop_last())
    }
}

/// The difference between the largest and the smallest number of a row.
pub open spec fn row_spread(row: Seq<u32>) -> nat {
    (row_max(row) - row_min(row)) as nat
}

/// The sum of the spreads of all rows.
pub open spec fn spread_sum(rows: Seq<Seq<u32>>) -> nat
    decreases rows.len(),
{
    if rows.len() == 0 {
        0
    } else {
        spread_sum(rows.drop_last()) + row_spread(rows.last())
    }
}

/// `row_max` is a number of the row that no other exceeds, and `row_min` one that
/// exceeds no other.
pub proof fn lemma_row_extremes(row: Seq<u32>)
    requires
        row.len() > 0,
    ensures
        exists|i: int| 0 <= i < row.len() && row[i] == row_max(row),
        exists|i: int| 0 <= i < row.len() && row[i] == row_min(row),
        forall|i: int|
            0 <= i < row.len() ==> row_min(row) <= #[trigger] row[i] && row[i] <= row_max(row),
    decreases row.len(),
{
    if row.len() == 1 {
        assert(row[0] == row_max(row) && row[0] == row_min(row));
    } else {
        let front = row.drop_last();
        lemma_row_extremes(front);
        let at_max = choose|i: int| 0 <= i < front.len() && front[i] == row_max(front);
        let at_min = choose|i: int| 0 <= i < front.len() && front[i] == row_min(front);
        assert(row[at_max] == front[at_max] && row[at_min] == front[at_min]);
        let last = row.len() - 1;
        assert(row[last] == row.last());
        assert forall|i: int| 0 <= i < row.len() implies row_min(row) <= #[trigger] row[i]
            && row[i] <= row_max(row) by {
            if i < last {
                assert(row[i] == front[i]);
            }
        }
    }
}

/// The sum over the first rows is never larger than the sum over all.
pub proof fn lemma_spread_sum_prefix(rows: Seq<Seq<u32>>, n: int)
    requires
        0 <= n <= rows.len(),
    ensures
        spread_sum(rows.take(n)) <= spread_sum(rows),
    decreases rows.len(),
{
    if n == rows.len() {
        assert(rows.take(n) == rows);
    } else {
        lemma_spread_sum_prefix(rows.drop_last(), n);
        assert(rows.drop_last().take(n) == rows.take(n));
    }
}

/// The spread of one row.
fn spread(row: &Vec<u32>) -> (d: u32)
    ensures
        d == row_spread(row@),
{
    if row.len() == 0 {
        return 0;
    }
    let mut min = row[0];
    let mut max = row[0];
    let mut i: usize = 1;
    assert(row@.take(1) == seq![row@[0]]);
    while i < row.len()
        invariant
            1 <= i <= row.len(),
            max == row_max(row@.take(i as int)),
            min == row_min(row@.take(i as int)),
            min <= max,
        decreases row.len() - i,
    {
        proof {
            assert(row@.take(i + 1).drop_last() == row@.take(i as int));
            assert(row@.take(i + 1).last() == row@[i as int]);
        }
        let y = row[i];
        if y > max {
            max = y;
        }
        if y < min {
            min = y;
        }
        i = i + 1;
    }
    assert(row@.take(i as int) == row@);
    max - min
}

/// The checksum of the spreadsheet, if it fits the result type: for each row the
/// difference between its largest and its smallest number, summed over the rows.
pub fn checked_checksum(rows: &[Vec<u32>]) -> (sum: Option<u32>)
    ensures
        match sum {
            Some(s) => s == spread_sum(sheet(rows@)),
            None => spread_sum(sheet(rows@)) > u32::MAX,
        },
{
    let mut sum: u32 = 0;
    let mut i: usize = 0;
    while i < rows.len()
        invariant
            i <= rows.len(),
            sum == spread_sum(sheet(rows@).take(i as int)),
        decreases rows.len() - i,
    {
        proof {
            lemma_spread_sum_prefix(sheet(rows@), i + 1);
            assert(sheet(rows@).take(i + 1).drop_last() == sheet(rows@).take(i as int));
            assert(sheet(rows@).take(i + 1).last() == rows@[i as int]@);
        }
        let d = spread(&rows[i]);
        sum = match sum.checked_add(d) {
            Some(more) => more,
            None => {
                return None;
            },
        };
        i = i + 1;
    }
    assert(sheet(rows@).take(i as int) == sheet(rows@));
    Some(sum)
}

/// The checksum of the spreadsheet: for each row the difference between its
/// largest and its smallest number, summed over the rows. The sum has to fit the
/// result type.
pub fn checksum(rows: &[Vec<u32>]) -> (sum: u32)
    requires
        spread_sum(sheet(rows@)) <= u32::MAX,
    ensures
        sum == spread_sum(sheet(rows@)),
{
    checked_checksum(rows).unwrap()
}

/// Whether the number at `i` is a multiple of the number at `j`.
pub open spec fn divides_evenly(row: Seq<u32>, i: int, j: int) -> bool {
    row[j] != 0 && row[i] % row[j] == 0
}

/// Whether `q` is the largest quotient of two numbers of the row, of which one is
/// a multiple of the other; for a row without such a pair, whether `q` is 0.
pub open spec fn is_best_quotient(row: Seq<u32>, q: nat) -> bool {
    &&& forall|i: int, j: int|
        0 <= i < row.len() && 0 <= j < row.len() && #[trigger] divides_evenly(row, i, j) ==> row[i]
            / row[j] <= q
    &&& q == 0 || exists|i: int, j: int|
        0 <= i < row.len() && 0 <= j < row.len() && #[trigger] divides_evenly(row, i, j) && row[i]
            / row[j] == q
}

/// The largest quotient of two numbers of the row, of which one is a multiple of
/// the other.
pub open spec fn best_quotient(row: Seq<u32>) -> nat {
    choose|q: nat| is_best_quotient(row, q)
}

/// The sum of the best quotients of all rows.
pub open spec fn quotient_sum(rows: Seq<Seq<u32>>) -> nat
    decreases rows.len(),
{
    if rows.len() == 0 {
        0
    } else {
        quotient_sum(rows.drop_last()) + best_quotient(rows.last())
    }
}

/// Whether no row holds a zero.
pub open spec fn without_zeros(rows: Seq<Seq<u32>>) -> bool {
    forall|r: int, i: int| 0 <= r < rows.len() && 0 <= i < rows[r].len() ==> #[trigger] rows[r][i] != 0
}

/// A row has one best quotient only.
pub proof fn lemma_best_quotient_unique(row: Seq<u32>, q: nat)
    requires
        is_best_quotient(row, q),
    ensures
        best_quotient(row) == q,
{
    let other = best_quotient(row);
    assert(is_best_quotient(row, other));
    if q > 0 {
        let (i, j) = choose|i: int, j: int|
            0 <= i < row.len() && 0 <= j < row.len() && #[trigger] divides_evenly(row, i, j)
                && row[i] / row[j] == q;
        assert(q <= other);
    }
    if other > 0 {
        let (i, j) = choose|i: int, j: int|
            0 <= i < row.len() && 0 <= j < row.len() && #[trigger] divides_evenly(row, i, j)
                && row[i] / row[j] == other;
        assert(other <= q);
    }
}

/// The sum over the first rows is never larger than the sum over all.
pub proof fn lemma_quotient_sum_prefix(rows: Seq<Seq<u32>>, n: int)
    requires
        0 <= n <= rows.len(),
    ensures
        quotient_sum(rows.take(n)) <= quotient_sum(rows),
    decreases rows.len(),
{
    if n == rows.len() {
        assert(rows.take(n) == rows);
    } else {
        lemma_quotient_sum_prefix(rows.drop_last(), n);
        assert(rows.drop_last().take(n) == rows.take(n));
    }
}

/// The best quotient of one row.
fn row_quotient(row: &Vec<u32>) -> (best: u32)
    requires
        forall|i: int| 0 <= i < row@.len() ==> row@[i] != 0,
    ensures
        best == best_quotient(row@),
{
    let mut best: u32 = 0;
    let mut i: usize = 0;
    while i < row.len()
        invariant
            i <= row.len(),
            forall|k: int| 0 <= k < row@.len() ==> row@[k] != 0,
            forall|a: int, b: int|
                0 <= a < i && 0 <= b < row@.len() && #[trigger] divides_evenly(row@, a, b)
                    ==> row@[a] / row@[b] <= best,
            best == 0 || exists|a: int, b: int|
                0 <= a < row@.len() && 0 <= b < row@.len() && #[trigger] divides_evenly(row@, a, b)
                    && row@[a] / row@[b] == best,
        decreases row.len() - i,
    {
        let mut j: usize = 0;
        while j < row.len()
            invariant
                i < row.len(),
                j <= row.len(),
                forall|k: int| 0 <= k < row@.len() ==> row@[k] != 0,
                forall|a: int, b: int|
                    0 <= a < i && 0 <= b < row@.len() && #[trigger] divides_evenly(row@, a, b)
                        ==> row@[a] / row@[b] <= best,
                forall|b: int|
                    0 <= b < j && #[trigger] divides_evenly(row@, i as int, b) ==> row@[i as int]
                        / row@[b] <= best,
                best == 0 || exists|a: int, b: int|
                    0 <= a < row@.len() && 0 <= b < row@.len() && #[trigger] divides_evenly(
                        row@,
                        a,
                        b,
                    ) && row@[a] / row@[b] == best,
            decreases row.len() - j,
        {
            let x = row[i];
            let y = row[j];
            if x % y == 0 && best < x / y {
                best = x / y;
                assert(divides_evenly(row@, i as int, j as int));
            }
            j = j + 1;
        }
        i = i + 1;
    }
    proof {
        lemma_best_quotient_unique(row@, best as nat);
    }
    best
}

/// Whether a row holds no zero.
fn row_without_zeros(row: &Vec<u32>) -> (none: bool)
    ensures
        none == forall|i: int| 0 <= i < row@.len() ==> row@[i] != 0,
{
    let mut i: usize = 0;
    while i < row.len()
        invariant
            i <= row.len(),
            forall|k: int| 0 <= k < i ==> row@[k] != 0,
        decreases row.len() - i,
    {
        if row[i] == 0 {
            return false;
        }
        i = i + 1;
    }
    true
}

/// The second checksum of the spreadsheet, if no row holds a zero and the sum
/// fits the result type.
pub fn checked_checksum_div(rows: &[Vec<u32>]) -> (sum: Option<u32>)
    ensures
        match sum {
            Some(s) => without_zeros(sheet(rows@)) && s == quotient_sum(sheet(rows@)),
            None => !without_zeros(sheet(rows@)) || quotient_sum(sheet(rows@)) > u32::MAX,
        },
{
    let mut i: usize = 0;
    while i < rows.len()
        invariant
            i <= rows.len(),
            forall|r: int, k: int|
                0 <= r < i && 0 <= k < sheet(rows@)[r].len() ==> #[trigger] sheet(rows@)[r][k] != 0,
        decreases rows.len() - i,
    {
        if !row_without_zeros(&rows[i]) {
            proof {
                let k = choose|k: int| 0 <= k < rows@[i as int]@.len() && rows@[i as int]@[k] == 0;
                assert(sheet(rows@)[i as int][k] == 0);
            }
            return None;
        }
        proof {
            assert(sheet(rows@)[i as int] == rows@[i as int]@);
        }
        i = i + 1;
    }
    let mut sum: u32 = 0;
    let mut i: usize = 0;
    while i < rows.len()
        invariant
            i <= rows.len(),
            without_zeros(sheet(rows@)),
            sum == quotient_sum(sheet(rows@).take(i as int)),
        decreases rows.len() - i,
    {
        proof {
            lemma_quotient_sum_prefix(sheet(rows@), i + 1);
            assert(sheet(rows@).take(i + 1).drop_last() == sheet(rows@).take(i as int));
            assert(sheet(rows@).take(i + 1).last() == rows@[i as int]@);
            assert forall|k: int| 0 <= k < rows@[i as int]@.len() implies rows@[i as int]@[k]
                != 0 by {
                assert(sheet(rows@)[i as int][k] != 0);
            }
        }
        let q = row_quotient(&rows[i]);
        sum = match sum.checked_add(q) {
            Some(more) => more,
            None => {
                return None;
            },
        };
        i = i + 1;
    }
    assert(sheet(rows@).take(i as int) == sheet(rows@));
    Some(sum)
}

/// The second checksum of the spreadsheet: for each row the largest quotient of
/// two of its numbers, of which one is a multiple of the other, summed over the
/// rows. No row may hold a zero, and the sum has to fit the result type.
pub fn checksum_div(rows: &[Vec<u32>]) -> (sum: u32)
    requires
        without_zeros(sheet(rows@)),
        quotient_sum(sheet(rows@)) <= u32::MAX,
    ensures
        sum == quotient_sum(sheet(rows@)),
{
    checked_checksum_div(rows).unwrap()
}

} // verus!
