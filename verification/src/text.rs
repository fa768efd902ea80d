//! Text as sequences of characters, and its whitespace-separated words.

use vstd::prelude::*;

verus! {

/// Whether a character is whitespace: what `char::is_whitespace` answers.
pub uninterp spec fn is_whitespace(c: char) -> bool;

/// Calls `char::is_whitespace`, which tells whether a character has the Unicode
/// property `White_Space`. The contract only names that answer.
#[verifier::external_body]
fn char_is_whitespace(c: char) -> (white: bool)
    ensures
        white == is_whitespace(c),
{
    c.is_whitespace()
}

/// The words of a text: its maximal runs of characters that are not whitespace,
/// from left to right.
///
/// A character that is not whitespace continues the last word if the character
/// before it is none either, and starts a new word otherwise.
pub open spec fn words(s: Seq<char>) -> Seq<Seq<char>>
    decreases s.len(),
{
    if s.len() == 0 {
        seq![]
    } else {
        let before = words(s.drop_last());
        if is_whitespace(s.last()) {
            before
        } else if ends_in_word(s.drop_last()) {
            before.drop_last().push(before.last().push(s.last()))
        } else {
            before.push(seq![s.last()])
        }
    }
}

/// Whether the text ends with a character that is not whitespace.
pub open spec fn ends_in_word(s: Seq<char>) -> bool {
    s.len() > 0 && !is_whitespace(s.last())
}

/// The contents of a list of words.
pub open spec fn word_views(list: Seq<Vec<char>>) -> Seq<Seq<char>> {
    list.map_values(|word: Vec<char>| word@)
}

/// No word is empty or holds whitespace, and a text that ends in a word has one.
pub proof fn lemma_words_are_runs(s: Seq<char>)
    ensures
        forall|i: int|
            0 <= i < words(s).len() ==> (#[trigger] words(s)[i]).len() > 0 && forall|k: int|
                0 <= k < words(s)[i].len() ==> !is_whitespace(#[trigger] words(s)[i][k]),
        ends_in_word(s) ==> words(s).len() > 0,
        s.len() > 0 && !is_whitespace(s.last()) ==> words(s).last().last() == s.last(),
    decreases s.len(),
{
    if s.len() > 0 {
        let front = s.drop_last();
        let before = words(front);
        lemma_words_are_runs(front);
        if !is_whitespace(s.last()) {
            let grown = words(s);
            let end = grown.len() - 1;
            assert forall|i: int| 0 <= i < grown.len() implies (#[trigger] grown[i]).len() > 0
                && forall|k: int|
                0 <= k < grown[i].len() ==> !is_whitespace(#[trigger] grown[i][k]) by {
                if i < end {
                    assert(grown[i] == before[i]);
                } else if ends_in_word(front) {
                    assert(grown[i] == before.last().push(s.last()));
                    assert(before.last() == before[before.len() - 1]);
                } else {
                    assert(grown[i] == seq![s.last()]);
                }
            }
        }
    }
}

/// The characters of a string.
pub fn chars_of(s: &str) -> (chars: Vec<char>)
    ensures
        chars@ == s@,
{
    let mut chars: Vec<char> = Vec::new();
    for c in it: s.chars()
        invariant
            it.seq() == s@,
            chars@ == it.seq().take(it.index()),
    {
        chars.push(c);
    }
    chars
}

/// The words of a string, in order.
pub fn split_whitespace(s: &str) -> (list: Vec<Vec<char>>)
    ensures
        word_views(list@) == words(s@),
{
    let chars = chars_of(s);
    let mut list: Vec<Vec<char>> = Vec::new();
    let mut current: Vec<char> = Vec::new();
    let mut in_word = false;
    let mut i: usize = 0;
    assert(chars@.take(0) == Seq::<char>::empty());
    while i < chars.len()
        invariant
            i <= chars.len(),
            chars@ == s@,
            in_word == ends_in_word(chars@.take(i as int)),
            in_word ==> words(chars@.take(i as int)) == word_views(list@).push(current@),
            !in_word ==> words(chars@.take(i as int)) == word_views(list@) && current@.len() == 0,
        decreases chars.len() - i,
    {
        let c = chars[i];
        proof {
            assert(chars@.take(i + 1).drop_last() == chars@.take(i as int));
            assert(chars@.take(i + 1).last() == c);
        }
        if char_is_whitespace(c) {
            if in_word {
                let ghost before = word_views(list@);
                list.push(current);
                assert(word_views(list@) == before.push(current@));
                current = Vec::new();
                in_word = false;
            }
        } else {
            let ghost word = current@;
            current.push(c);
            proof {
                if in_word {
                    let before = word_views(list@).push(word);
                    assert(words(chars@.take(i as int)) == before);
                    assert(before.drop_last() == word_views(list@));
                    assert(before.last() == word);
                    assert(words(chars@.take(i + 1)) == word_views(list@).push(word.push(c)));
                } else {
                    assert(current@ == seq![c]);
                    assert(words(chars@.take(i + 1)) == word_views(list@).push(seq![c]));
                }
            }
            in_word = true;
        }
        i = i + 1;
    }
    assert(chars@.take(i as int) == chars@);
    if in_word {
        let ghost before = word_views(list@);
        list.push(current);
        assert(word_views(list@) == before.push(current@));
    }
    list
}

/// The contents of a list of strings.
pub open spec fn string_views(list: Seq<String>) -> Seq<Seq<char>> {
    list.map_values(|word: String| word@)
}

/// The words of a string, in order, as strings.
pub fn words_of(s: &str) -> (list: Vec<String>)
    ensures
        string_views(list@) == words(s@),
{
    let chars = chars_of(s);
    let mut list: Vec<String> = Vec::new();
    let mut start: usize = 0;
    let mut in_word = false;
    let mut i: usize = 0;
    assert(chars@.take(0) == Seq::<char>::empty());
    while i < chars.len()
        invariant
            i <= chars.len(),
            chars@ == s@,
            in_word == ends_in_word(chars@.take(i as int)),
            in_word ==> start < i && words(chars@.take(i as int)) == string_views(list@).push(
                chars@.subrange(start as int, i as int),
            ),
            !in_word ==> words(chars@.take(i as int)) == string_views(list@),
        decreases chars.len() - i,
    {
        let c = chars[i];
        proof {
            assert(chars@.take(i + 1).drop_last() == chars@.take(i as int));
            assert(chars@.take(i + 1).last() == c);
        }
        if char_is_whitespace(c) {
            if in_word {
                let ghost before = string_views(list@);
                let word = String::from_str(s.substring_char(start, i));
                list.push(word);
                assert(string_views(list@) == before.push(word@));
                in_word = false;
            }
        } else {
            proof {
                if in_word {
                    let word = chars@.subrange(start as int, i as int);
                    let before = string_views(list@).push(word);
                    assert(words(chars@.take(i as int)) == before);
                    assert(before.drop_last() == string_views(list@));
                    assert(before.last() == word);
                    assert(word.push(c) == chars@.subrange(start as int, i + 1));
                } else {
                    assert(seq![c] == chars@.subrange(i as int, i + 1));
                }
            }
            if !in_word {
                start = i;
            }
            in_word = true;
        }
        i = i + 1;
    }
    assert(chars@.take(i as int) == chars@);
    if in_word {
        let ghost before = string_views(list@);
        let word = String::from_str(s.substring_char(start, i));
        list.push(word);
        assert(string_views(list@) == before.push(word@));
    }
    list
}

/// The value of a decimal digit.
pub open spec fn digit_value(c: char) -> Option<nat> {
    if '0' <= c <= '9' {
        Some((c as u32 - '0' as u32) as nat)
    } else {
        None
    }
}

/// The number that a non-empty run of decimal digits writes.
pub open spec fn decimal_value(s: Seq<char>) -> Option<nat>
    decreases s.len(),
{
    if s.len() == 0 {
        None
    } else {
        match digit_value(s.last()) {
            None => None,
            Some(digit) => if s.len() == 1 {
                Some(digit)
            } else {
                match decimal_value(s.drop_last()) {
                    None => None,
                    Some(front) => Some(front * 10 + digit),
                }
            },
        }
    }
}

/// The number that a text writes in decimal digits behind an optional sign.
pub open spec fn signed_decimal_value(s: Seq<char>) -> Option<int> {
    if s.len() > 0 && s[0] == '-' {
        match decimal_value(s.skip(1)) {
            Some(n) => Some(-(n as int)),
            None => None,
        }
    } else if s.len() > 0 && s[0] == '+' {
        match decimal_value(s.skip(1)) {
            Some(n) => Some(n as int),
            None => None,
        }
    } else {
        match decimal_value(s) {
            Some(n) => Some(n as int),
            None => None,
        }
    }
}

/// The number that a text writes, if it writes one that an `isize` can hold.
pub open spec fn isize_value(s: Seq<char>) -> Option<isize> {
    match signed_decimal_value(s) {
        Some(n) => if isize::MIN <= n <= isize::MAX {
            Some(n as isize)
        } else {
            None
        },
        None => None,
    }
}

/// Reads the number that the characters from `first` on write in decimal digits,
/// up to a limit.
fn parse_digits(chars: &Vec<char>, first: usize, limit: u64) -> (number: Option<u64>)
    requires
        first <= chars@.len(),
    ensures
        match number {
            Some(n) => decimal_value(chars@.skip(first as int)) == Some(n as nat) && n <= limit,
            None => match decimal_value(chars@.skip(first as int)) {
                Some(n) => n > limit,
                None => true,
            },
        },
{
    let ghost digits = chars@.skip(first as int);
    if first >= chars.len() {
        return None;
    }
    let mut value: u128 = 0;
    let mut too_large = false;
    let mut i: usize = first;
    while i < chars.len()
        invariant
            first <= i <= chars.len(),
            digits == chars@.skip(first as int),
            value <= limit,
            i == first ==> value == 0 && !too_large,
            i > first ==> match decimal_value(digits.take(i - first)) {
                Some(n) => if too_large {
                    n > limit
                } else {
                    n == value
                },
                None => false,
            },
        decreases chars.len() - i,
    {
        let c = chars[i];
        proof {
            assert(digits.take(i + 1 - first).drop_last() == digits.take(i - first));
            assert(digits.take(i + 1 - first).last() == c);
        }
        if !('0' <= c && c <= '9') {
            proof {
                lemma_decimal_value_needs_digits(digits, i + 1 - first);
            }
            return None;
        }
        let digit: u128 = (c as u32 - '0' as u32) as u128;
        proof {
            assert(digit_value(c) == Some(digit as nat));
            let upto = digits.take(i + 1 - first);
            if i == first {
                assert(upto.len() == 1);
                assert(decimal_value(upto) == Some(digit as nat));
            } else {
                assert(decimal_value(upto) == match decimal_value(upto.drop_last()) {
                    Some(front) => Some(front * 10 + digit as nat),
                    None => None,
                });
            }
        }
        if !too_large {
            value = value * 10 + digit;
            if value > limit as u128 {
                too_large = true;
                value = limit as u128;
            }
        }
        i = i + 1;
    }
    proof {
        assert(digits.take(i - first) == digits);
    }
    if too_large {
        None
    } else {
        Some(value as u64)
    }
}

/// Reads a number in decimal digits behind an optional sign.
pub fn parse_isize(text: &str) -> (number: Option<isize>)
    ensures
        number == isize_value(text@),
{
    let chars = chars_of(text);
    if chars.len() == 0 {
        return None;
    }
    proof {
        assert(chars@.skip(0) == chars@);
    }
    if chars[0] == '-' {
        // The lowest number lies one further from zero than the highest.
        match parse_digits(&chars, 1, isize::MAX as u64 + 1) {
            Some(n) => if n == isize::MAX as u64 + 1 {
                Some(isize::MIN)
            } else {
                Some(-(n as isize))
            },
            None => None,
        }
    } else {
        let first: usize = if chars[0] == '+' {
            1
        } else {
            0
        };
        match parse_digits(&chars, first, isize::MAX as u64) {
            Some(n) => Some(n as isize),
            None => None,
        }
    }
}

/// The number that a text writes in decimal digits behind an optional `+`, if it
/// is at most `limit`.
pub open spec fn unsigned_value(s: Seq<char>, limit: nat) -> Option<nat> {
    let digits = if s.len() > 0 && s[0] == '+' {
        s.skip(1)
    } else {
        s
    };
    match decimal_value(digits) {
        Some(n) => if n <= limit {
            Some(n)
        } else {
            None
        },
        None => None,
    }
}

/// Reads a number in decimal digits behind an optional `+`, up to a limit.
fn parse_unsigned(text: &str, limit: u64) -> (number: Option<u64>)
    ensures
        match number {
            Some(n) => unsigned_value(text@, limit as nat) == Some(n as nat),
            None => unsigned_value(text@, limit as nat) is None,
        },
{
    let chars = chars_of(text);
    if chars.len() == 0 {
        return None;
    }
    proof {
        assert(chars@.skip(0) == chars@);
    }
    let first: usize = if chars[0] == '+' {
        1
    } else {
        0
    };
    parse_digits(&chars, first, limit)
}

/// Reads a `usize` in decimal digits behind an optional `+`.
pub fn parse_usize(text: &str) -> (number: Option<usize>)
    ensures
        match number {
            Some(n) => unsigned_value(text@, usize::MAX as nat) == Some(n as nat),
            None => unsigned_value(text@, usize::MAX as nat) is None,
        },
{
    match parse_unsigned(text, usize::MAX as u64) {
        Some(n) => Some(n as usize),
        None => None,
    }
}

/// Reads a `u32` in decimal digits behind an optional `+`.
pub fn parse_u32(text: &str) -> (number: Option<u32>)
    ensures
        match number {
            Some(n) => unsigned_value(text@, u32::MAX as nat) == Some(n as nat),
            None => unsigned_value(text@, u32::MAX as nat) is None,
        },
{
    match parse_unsigned(text, u32::MAX as u64) {
        Some(n) => Some(n as u32),
        None => None,
    }
}

/// The numbers that the words of a text write, if every word writes a `u32`.
pub open spec fn numbers_of(list: Seq<Seq<char>>) -> Option<Seq<u32>>
    decreases list.len(),
{
    if list.len() == 0 {
        Some(seq![])
    } else {
        match (numbers_of(list.drop_last()), unsigned_value(list.last(), u32::MAX as nat)) {
            (Some(front), Some(n)) => Some(front.push(n as u32)),
            _ => None,
        }
    }
}

/// Reads the numbers of a text, which whitespace separates. A word that writes
/// no `u32` gives nothing.
pub fn read_numbers(text: &str) -> (numbers: Option<Vec<u32>>)
    ensures
        match numbers {
            Some(list) => numbers_of(words(text@)) == Some(list@),
            None => numbers_of(words(text@)) is None,
        },
{
    let list = words_of(text);
    let ghost views = string_views(list@);
    let mut numbers: Vec<u32> = Vec::new();
    let mut i: usize = 0;
    assert(views.take(0) == Seq::<Seq<char>>::empty());
    while i < list.len()
        invariant
            i <= list.len(),
            views == string_views(list@),
            views == words(text@),
            numbers_of(views.take(i as int)) == Some(numbers@),
        decreases list.len() - i,
    {
        proof {
            assert(views.take(i + 1).drop_last() == views.take(i as int));
            assert(views.take(i + 1).last() == list@[i as int]@);
        }
        match parse_u32(list[i].as_str()) {
            Some(n) => {
                numbers.push(n);
            },
            None => {
                proof {
                    lemma_numbers_of_stops(views, i + 1);
                }
                return None;
            },
        }
        i = i + 1;
    }
    assert(views.take(i as int) == views);
    Some(numbers)
}

/// If the first words write no numbers, the whole list does not.
proof fn lemma_numbers_of_stops(list: Seq<Seq<char>>, n: int)
    requires
        0 <= n <= list.len(),
        numbers_of(list.take(n)) is None,
    ensures
        numbers_of(list) is None,
    decreases list.len(),
{
    if n == list.len() {
        assert(list.take(n) == list);
    } else {
        assert(list.drop_last().take(n) == list.take(n));
        lemma_numbers_of_stops(list.drop_last(), n);
    }
}

/// A text with a character that is no digit writes no number.
proof fn lemma_decimal_value_needs_digits(s: Seq<char>, n: int)
    requires
        0 < n <= s.len(),
        digit_value(s[n - 1]) is None,
    ensures
        decimal_value(s) is None,
    decreases s.len(),
{
    if n < s.len() {
        lemma_decimal_value_needs_digits(s.drop_last(), n);
    }
}

/// Whether two strings hold the same characters in the same order.
pub fn same_text(a: &str, b: &str) -> (same: bool)
    ensures
        same == (a@ == b@),
{
    let left = chars_of(a);
    let right = chars_of(b);
    same_chars(&left, &right)
}

/// Whether two words hold the same characters in the same order.
pub fn same_chars(a: &Vec<char>, b: &Vec<char>) -> (same: bool)
    ensures
        same == (a@ == b@),
{
    if a.len() != b.len() {
        return false;
    }
    let mut i: usize = 0;
    while i < a.len()
        invariant
            i <= a.len(),
            a.len() == b.len(),
            forall|k: int| 0 <= k < i ==> a@[k] == b@[k],
        decreases a.len() - i,
    {
        if a[i] != b[i] {
            return false;
        }
        i = i + 1;
    }
    assert(a@ =~= b@);
    true
}

/// The order of characters by their code points.
pub open spec fn char_le(a: char, b: char) -> bool {
    a as u32 <= b as u32
}

/// The characters of a word in ascending order.
pub fn sorted_chars(word: &Vec<char>) -> (sorted: Vec<char>)
    ensures
        vstd::relations::sorted_by(sorted@, |a: char, b: char| char_le(a, b)),
        sorted@.to_multiset() == word@.to_multiset(),
{
    let ghost le = |a: char, b: char| char_le(a, b);
    let mut sorted: Vec<char> = Vec::new();
    let mut i: usize = 0;
    assert(word@.take(0) == Seq::<char>::empty());
    while i < word.len()
        invariant
            i <= word.len(),
            le == (|a: char, b: char| char_le(a, b)),
            sorted@.len() == i,
            vstd::relations::sorted_by(sorted@, le),
            sorted@.to_multiset() == word@.take(i as int).to_multiset(),
        decreases word.len() - i,
    {
        let c = word[i];
        let mut at: usize = 0;
        while at < sorted.len() && sorted[at] as u32 <= c as u32
            invariant
                at <= sorted.len(),
                forall|k: int| 0 <= k < at ==> char_le(sorted@[k], c),
            decreases sorted.len() - at,
        {
            at = at + 1;
        }
        let ghost before = sorted@;
        sorted.insert(at, c);
        proof {
            vstd::seq_lib::to_multiset_insert(before, at as int, c);
            vstd::seq_lib::to_multiset_build(word@.take(i as int), c);
            assert(word@.take(i + 1) == word@.take(i as int).push(c));
            assert forall|x: int, y: int| 0 <= x < y < sorted@.len() implies #[trigger] le(
                sorted@[x],
                sorted@[y],
            ) by {
                let bx = if x < at { x } else { x - 1 };
                let by = if y < at { y } else { y - 1 };
                if x != at && y != at {
                    assert(le(before[bx], before[by]));
                } else if x == at {
                    assert(sorted@[y] == before[by]);
                    assert(by >= at);
                    if by > at {
                        assert(le(before[at as int], before[by]));
                    }
                } else {
                    assert(sorted@[x] == before[bx]);
                }
            }
        }
        i = i + 1;
    }
    assert(word@.take(i as int) == word@);
    sorted
}

} // verus!
