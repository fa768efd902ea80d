//! The inverse captcha: the sum of the digits that match the digit a fixed number
//! of places further on in a circular list.

use vstd::prelude::*;

verus! {

/// What the digit at `index` adds: itself if it equals the digit `n` places
/// further on, wrapping round, and nothing otherwise.
pub open spec fn matching_digit(digits: Seq<u32>, n: nat, index: int) -> nat {
    if digits[index] == digits[(index + n) % (digits.len() as int)] {
        digits[index] as nat
    } else {
        0
    }
}

/// The sum of the matching digits among the first `count` digits.
pub open spec fn matching_sum(digits: Seq<u32>, n: nat, count: nat) -> nat
    decreases count,
{
    if count == 0 {
        0
    } else {
        matching_sum(digits, n, (count - 1) as nat) + matching_digit(digits, n, count - 1)
    }
}

/// The captcha of a list of digits: the sum of all its matching digits.
pub open spec fn captcha(digits: Seq<u32>, n: nat) -> nat {
    matching_sum(digits, n, digits.len())
}

/// The sum over fewer digits is never larger.
pub proof fn lemma_matching_sum_grows(digits: Seq<u32>, n: nat, fewer: nat, more: nat)
    requires
        fewer <= more,
    ensures
        matching_sum(digits, n, fewer) <= matching_sum(digits, n, more),
    decreases more,
{
    if fewer < more {
        lemma_matching_sum_grows(digits, n, fewer, (more - 1) as nat);
    }
}

/// The sum of the digits that equal the digit `n` places further on in the
/// circular list, if it fits the result type.
pub fn checked_inverse_captcha(digits: &[u32], n: usize) -> (sum: Option<u32>)
    ensures
        match sum {
            Some(s) => s == captcha(digits@, n as nat),
            None => captcha(digits@, n as nat) > u32::MAX,
        },
{
    let len = digits.len();
    let mut sum: u32 = 0;
    let mut i: usize = 0;
    while i < len
        invariant
            i <= len,
            len == digits@.len(),
            sum == matching_sum(digits@, n as nat, i as nat),
        decreases len - i,
    {
        let partner: u128 = (i as u128 + n as u128) % (len as u128);
        proof {
            lemma_matching_sum_grows(digits@, n as nat, (i + 1) as nat, len as nat);
        }
        if digits[i] == digits[partner as usize] {
            sum = match sum.checked_add(digits[i]) {
                Some(more) => more,
                None => {
                    return None;
                },
            };
        }
        i = i + 1;
    }
    Some(sum)
}

/// The sum of the digits that equal the digit `n` places further on in the
/// circular list. The sum has to fit the result type.
pub fn inverse_captcha(digits: &[u32], n: usize) -> (sum: u32)
    requires
        captcha(digits@, n as nat) <= u32::MAX,
    ensures
        sum == captcha(digits@, n as nat),
{
    checked_inverse_captcha(digits, n).unwrap()
}

/// The decimal digits of a text, in order; its other characters are dropped.
pub open spec fn serial_number(s: Seq<char>) -> Seq<u32>
    decreases s.len(),
{
    if s.len() == 0 {
        seq![]
    } else if '0' <= s.last() <= '9' {
        serial_number(s.drop_last()).push((s.last() as u32 - '0' as u32) as u32)
    } else {
        serial_number(s.drop_last())
    }
}

/// Reads the decimal digits of a text and drops its other characters.
pub fn read_serial_number(s: &str) -> (digits: Vec<u32>)
    ensures
        digits@ == serial_number(s@),
{
    let chars = crate::text::chars_of(s);
    let mut digits: Vec<u32> = Vec::new();
    let mut i: usize = 0;
    assert(chars@.take(0) == Seq::<char>::empty());
    while i < chars.len()
        invariant
            i <= chars.len(),
            chars@ == s@,
            digits@ == serial_number(chars@.take(i as int)),
        decreases chars.len() - i,
    {
        let c = chars[i];
        proof {
            assert(chars@.take(i + 1).drop_last() == chars@.take(i as int));
            assert(chars@.take(i + 1).last() == c);
        }
        if '0' <= c && c <= '9' {
            digits.push(c as u32 - '0' as u32);
        }
        i = i + 1;
    }
    assert(chars@.take(i as int) == chars@);
    digits
}

} // verus!
