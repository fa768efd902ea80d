//! The spinlock: a circular buffer that grows by one value per insertion.
//!
//! The buffer starts as `[0]`. Insertion `n` steps forward `steps` places from the
//! current position, wrapping round, places the value `n` right behind the place
//! it stopped at, and makes that the current position.
//!
//! `whirlwind` never builds the buffer: it answers what sits at an index of the
//! final buffer in constant memory, by walking the insertions forward once to find
//! the last position and then backward to undo the shifts. `simulate` builds the
//! buffer, for a count of insertions that memory can hold.

use vstd::prelude::*;

verus! {

/// The index at which insertion `n` places its value; insertion 0 is the initial 0.
pub open spec fn position(steps: nat, n: nat) -> nat
    decreases n,
{
    if n == 0 {
        0
    } else {
        (position(steps, (n - 1) as nat) + steps) % n + 1
    }
}

/// The buffer after `n` insertions.
pub open spec fn buffer(steps: nat, n: nat) -> Seq<nat>
    decreases n,
{
    if n == 0 {
        seq![0nat]
    } else {
        buffer(steps, (n - 1) as nat).insert(position(steps, n) as int, n)
    }
}

/// The value right behind the last inserted one, wrapping round at the end.
pub open spec fn successor_of_last(steps: nat, n: nat) -> nat {
    buffer(steps, n)[((position(steps, n) + 1) % (n + 1)) as int]
}

/// Insertion `n` lands behind the first element and inside the grown buffer.
pub proof fn lemma_position_bounds(steps: nat, n: nat)
    ensures
        position(steps, n) <= n,
        n >= 1 ==> position(steps, n) >= 1,
{
}

/// After `n` insertions the buffer holds `n + 1` values.
pub proof fn lemma_buffer_len(steps: nat, n: nat)
    ensures
        buffer(steps, n).len() == n + 1,
    decreases n,
{
    if n > 0 {
        lemma_buffer_len(steps, (n - 1) as nat);
        lemma_position_bounds(steps, n);
    }
}

/// The initial value 0 never leaves index 0.
pub proof fn lemma_buffer_starts_with_zero(steps: nat, n: nat)
    ensures
        buffer(steps, n)[0] == 0,
    decreases n,
{
    if n > 0 {
        lemma_buffer_starts_with_zero(steps, (n - 1) as nat);
        lemma_buffer_len(steps, (n - 1) as nat);
        lemma_position_bounds(steps, n);
    }
}

/// Right after insertion `n` the value `n` sits at its position.
pub proof fn lemma_inserted_at_position(steps: nat, n: nat)
    ensures
        buffer(steps, n)[position(steps, n) as int] == n,
{
    if n > 0 {
        lemma_buffer_len(steps, (n - 1) as nat);
        lemma_position_bounds(steps, n);
    }
}

/// How insertion `n` moves the values: those before its position stay, those from
/// its position on shift right by one.
pub proof fn lemma_insertion_shifts(steps: nat, n: nat, index: int)
    requires
        n >= 1,
        0 <= index <= n,
    ensures
        index < position(steps, n) ==> buffer(steps, n)[index] == buffer(
            steps,
            (n - 1) as nat,
        )[index],
        index == position(steps, n) ==> buffer(steps, n)[index] == n,
        index > position(steps, n) ==> buffer(steps, n)[index] == buffer(steps, (n - 1) as nat)[index
            - 1],
{
    lemma_buffer_len(steps, (n - 1) as nat);
    lemma_position_bounds(steps, n);
}

/// Before any insertion the buffer holds the initial 0 alone, which is then its own
/// successor.
pub proof fn lemma_no_insertions(steps: nat)
    ensures
        position(steps, 0) == 0,
        buffer(steps, 0) == seq![0nat],
        successor_of_last(steps, 0) == 0,
{
}

/// The value right behind the initial 0 is the last one that was inserted at
/// index 1.
pub proof fn lemma_value_behind_zero(steps: nat, n: nat, last: nat)
    requires
        1 <= last <= n,
        position(steps, last) == 1,
        forall|later: nat| last < later <= n ==> #[trigger] position(steps, later) != 1,
    ensures
        buffer(steps, n)[1] == last,
    decreases n,
{
    if n == last {
        lemma_inserted_at_position(steps, n);
    } else {
        lemma_value_behind_zero(steps, (n - 1) as nat, last);
        lemma_position_bounds(steps, n);
        lemma_insertion_shifts(steps, n, 1);
    }
}

/// With zero steps every value is appended: the buffer counts up from 0.
pub proof fn lemma_zero_steps_counts_up(n: nat)
    ensures
        position(0, n) == n,
        buffer(0, n) == Seq::new(n + 1, |i: int| i as nat),
    decreases n,
{
    if n > 0 {
        lemma_zero_steps_counts_up((n - 1) as nat);
        assert(((n - 1) as nat + 0nat) % n == n - 1) by {
            vstd::arithmetic::div_mod::lemma_small_mod((n - 1) as nat, n);
        }
        assert(buffer(0, n) =~= Seq::new(n + 1, |i: int| i as nat));
    }
}

/// What `whirlwind` found.
#[derive(Debug, PartialEq, PartialOrd)]
pub struct WhirlMatch {
    /// The index at which the last insertion placed its value.
    pub last_position: usize,
    /// The index at which the watched value was inserted.
    pub watch_set_at: usize,
    /// The value at the watched index of the final buffer, if that index exists.
    pub watch_value: Option<usize>,
}

/// The position of insertion `n`, from that of the insertion before it.
fn step_forward(before: usize, steps: usize, n: usize) -> (at: usize)
    requires
        n >= 1,
        before == position(steps as nat, (n - 1) as nat),
    ensures
        at == position(steps as nat, n as nat),
{
    proof {
        lemma_position_bounds(steps as nat, (n - 1) as nat);
    }
    match before.checked_add(steps) {
        Some(sum) => sum % n + 1,
        None => {
            let wide: u128 = (before as u128 + steps as u128) % (n as u128);
            wide as usize + 1
        },
    }
}

/// The position of insertion `n - 1`, from that of insertion `n`.
fn step_back(at: usize, steps: usize, n: usize) -> (before: usize)
    requires
        n >= 1,
        at == position(steps as nat, n as nat),
    ensures
        before == position(steps as nat, (n - 1) as nat),
{
    let landed = at - 1;
    let shift = steps % n;
    proof {
        let earlier = position(steps as nat, (n - 1) as nat) as int;
        lemma_position_bounds(steps as nat, (n - 1) as nat);
        vstd::arithmetic::div_mod::lemma_add_mod_noop_right(earlier, steps as int, n as int);
        assert((earlier + shift) % (n as int) == landed);
        if earlier + shift < n {
            vstd::arithmetic::div_mod::lemma_small_mod((earlier + shift) as nat, n as nat);
        } else {
            vstd::arithmetic::div_mod::lemma_mod_sub_multiples_vanish(earlier + shift, n as int);
            vstd::arithmetic::div_mod::lemma_small_mod((earlier + shift - n) as nat, n as nat);
        }
    }
    if landed >= shift {
        landed - shift
    } else {
        landed + (n - shift)
    }
}

/// Runs `until` insertions with `steps` steps each and reports where the last one
/// landed and what then sits at the index `watch`.
///
/// For a `watch` beyond the end of the buffer there is no value to report, and
/// `watch_set_at` is `watch` itself.
pub fn whirlwind(steps: usize, until: usize, watch: usize) -> (found: WhirlMatch)
    ensures
        found.last_position == position(steps as nat, until as nat),
        match found.watch_value {
            Some(value) => {
                &&& watch <= until
                &&& value == buffer(steps as nat, until as nat)[watch as int]
                &&& found.watch_set_at == position(steps as nat, value as nat)
            },
            None => watch > until && found.watch_set_at == watch,
        },
{
    let mut last: usize = 0;
    let mut n: usize = 0;
    while n < until
        invariant
            n <= until,
            last == position(steps as nat, n as nat),
        decreases until - n,
    {
        n = n + 1;
        last = step_forward(last, steps, n);
    }
    if watch > until {
        return WhirlMatch { last_position: last, watch_set_at: watch, watch_value: None };
    }
    if watch == 0 {
        proof {
            lemma_buffer_starts_with_zero(steps as nat, until as nat);
        }
        return WhirlMatch { last_position: last, watch_set_at: 0, watch_value: Some(0) };
    }
    proof {
        lemma_buffer_len(steps as nat, until as nat);
    }
    let ghost wanted = buffer(steps as nat, until as nat)[watch as int];
    let mut at = last;
    let mut index = watch;
    while n > 0
        invariant
            n <= until,
            index <= n,
            watch <= until,
            last == position(steps as nat, until as nat),
            wanted == buffer(steps as nat, until as nat)[watch as int],
            at == position(steps as nat, n as nat),
            wanted == buffer(steps as nat, n as nat)[index as int],
        decreases n,
    {
        proof {
            lemma_insertion_shifts(steps as nat, n as nat, index as int);
            lemma_position_bounds(steps as nat, n as nat);
            lemma_buffer_len(steps as nat, n as nat);
            lemma_buffer_len(steps as nat, (n - 1) as nat);
        }
        if at == index {
            return WhirlMatch { last_position: last, watch_set_at: at, watch_value: Some(n) };
        }
        if at < index {
            index = index - 1;
        }
        at = step_back(at, steps, n);
        n = n - 1;
    }
    WhirlMatch { last_position: last, watch_set_at: 0, watch_value: Some(0) }
}

/// The value right behind the last inserted one after `until` insertions with
/// `steps` steps each, wrapping round to the initial 0 at the end of the buffer.
pub fn whirlwind_next(steps: usize, until: usize) -> (value: usize)
    ensures
        value == successor_of_last(steps as nat, until as nat),
{
    let last = whirlwind(steps, until, 0).last_position;
    proof {
        lemma_position_bounds(steps as nat, until as nat);
        lemma_buffer_starts_with_zero(steps as nat, until as nat);
    }
    if last == until {
        proof {
            assert((until + 1) % (until + 1) == 0) by {
                vstd::arithmetic::div_mod::lemma_mod_self_0(until + 1);
            }
        }
        0
    } else {
        proof {
            vstd::arithmetic::div_mod::lemma_small_mod((last + 1) as nat, (until + 1) as nat);
        }
        whirlwind(steps, until, last + 1).watch_value.unwrap()
    }
}

/// The whole buffer after `until` insertions with `steps` steps each.
///
/// This takes memory in proportion to `until`; it is what `whirlwind` is measured
/// against.
pub fn simulate(steps: usize, until: usize) -> (values: Vec<usize>)
    ensures
        values@.len() == until + 1,
        forall|i: int| 0 <= i <= until ==> values@[i] == buffer(steps as nat, until as nat)[i],
{
    let mut values: Vec<usize> = Vec::new();
    values.push(0);
    let mut at: usize = 0;
    let mut n: usize = 0;
    while n < until
        invariant
            n <= until,
            at == position(steps as nat, n as nat),
            values@.len() == n + 1,
            forall|i: int| 0 <= i <= n ==> values@[i] == buffer(steps as nat, n as nat)[i],
        decreases until - n,
    {
        n = n + 1;
        at = step_forward(at, steps, n);
        proof {
            lemma_position_bounds(steps as nat, n as nat);
            lemma_buffer_len(steps as nat, (n - 1) as nat);
        }
        let ghost before = values@;
        values.insert(at, n);
        proof {
            assert forall|i: int| 0 <= i <= n implies values@[i] == buffer(
                steps as nat,
                n as nat,
            )[i] by {
                lemma_insertion_shifts(steps as nat, n as nat, i);
            }
        }
    }
    values
}

} // verus!
