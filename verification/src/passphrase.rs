//! Passphrases: lists of words separated by whitespace.

use crate::text::{char_le, same_chars, sorted_chars, split_whitespace, word_views, words};
use vstd::prelude::*;
use vstd::relations::{sorted_by, total_ordering};

verus! {

/// Whether two words are made of the same characters, each as often in the one
/// as in the other.
pub open spec fn is_anagram(a: Seq<char>, b: Seq<char>) -> bool {
    a.to_multiset() == b.to_multiset()
}

/// A list of words is valid if it has at least two words and no word twice.
pub open spec fn valid_words(list: Seq<Seq<char>>) -> bool {
    list.len() > 1 && list.no_duplicates()
}

/// Whether no word of the list is an anagram of another.
pub open spec fn no_anagrams(list: Seq<Seq<char>>) -> bool {
    forall|i: int, j: int|
        0 <= i < list.len() && 0 <= j < list.len() && i != j ==> !is_anagram(
            #[trigger] list[i],
            #[trigger] list[j],
        )
}

/// A list of words is supervalid if it has at least two words and no word is an
/// anagram of another.
pub open spec fn supervalid_words(list: Seq<Seq<char>>) -> bool {
    list.len() > 1 && no_anagrams(list)
}

/// A supervalid list is valid: a word that occurs twice is an anagram of itself.
pub proof fn lemma_supervalid_is_valid(list: Seq<Seq<char>>)
    requires
        supervalid_words(list),
    ensures
        valid_words(list),
{
    assert forall|i: int, j: int|
        0 <= i < list.len() && 0 <= j < list.len() && i != j implies list[i] != list[j] by {
        assert(!is_anagram(list[i], list[j]));
    }
}

/// Characters with the same code point are the same.
proof fn lemma_char_order_antisymmetric(a: char, b: char)
    requires
        char_le(a, b),
        char_le(b, a),
    ensures
        a == b,
{
}

/// The order of characters by code point is total.
proof fn lemma_char_order_total()
    ensures
        total_ordering(|a: char, b: char| char_le(a, b)),
{
    let le = |a: char, b: char| char_le(a, b);
    assert(vstd::relations::reflexive(le));
    assert(vstd::relations::antisymmetric(le)) by {
        assert forall|a: char, b: char| #[trigger] le(a, b) && #[trigger] le(b, a) implies a
            == b by {
            lemma_char_order_antisymmetric(a, b);
        }
    }
    assert(vstd::relations::transitive(le));
    assert(vstd::relations::strongly_connected(le));
}

/// Two words are anagrams exactly if their characters in ascending order are the same.
proof fn lemma_anagram_by_sorting(a: Seq<char>, b: Seq<char>, sa: Seq<char>, sb: Seq<char>)
    requires
        sorted_by(sa, |x: char, y: char| char_le(x, y)),
        sorted_by(sb, |x: char, y: char| char_le(x, y)),
        sa.to_multiset() == a.to_multiset(),
        sb.to_multiset() == b.to_multiset(),
    ensures
        is_anagram(a, b) <==> sa == sb,
{
    if is_anagram(a, b) {
        lemma_char_order_total();
        vstd::seq_lib::lemma_sorted_unique(sa, sb, |x: char, y: char| char_le(x, y));
    }
}

/// Whether no word of the list occurs twice.
fn all_distinct(list: &Vec<Vec<char>>) -> (distinct: bool)
    ensures
        distinct == word_views(list@).no_duplicates(),
{
    let mut i: usize = 0;
    while i < list.len()
        invariant
            i <= list.len(),
            forall|a: int, b: int|
                0 <= a < i && 0 <= b < i && a != b ==> word_views(list@)[a] != word_views(list@)[b],
        decreases list.len() - i,
    {
        let mut j: usize = 0;
        while j < i
            invariant
                j <= i < list.len(),
                forall|b: int| 0 <= b < j ==> word_views(list@)[i as int] != word_views(list@)[b],
            decreases i - j,
        {
            if same_chars(&list[i], &list[j]) {
                assert(word_views(list@)[i as int] == word_views(list@)[j as int]);
                return false;
            }
            j = j + 1;
        }
        i = i + 1;
    }
    true
}

/// Whether the passphrase has at least two words and no word twice.
pub fn is_valid(passphrase: &str) -> (valid: bool)
    ensures
        valid == valid_words(words(passphrase@)),
{
    let list = split_whitespace(passphrase);
    all_distinct(&list) && list.len() > 1
}

/// Whether the passphrase has at least two words and no word is an anagram of another.
pub fn is_supervalid(passphrase: &str) -> (valid: bool)
    ensures
        valid == supervalid_words(words(passphrase@)),
{
    let list = split_whitespace(passphrase);
    let mut sorted: Vec<Vec<char>> = Vec::new();
    let mut i: usize = 0;
    while i < list.len()
        invariant
            i <= list.len(),
            sorted@.len() == i,
            forall|k: int|
                0 <= k < i ==> sorted_by((#[trigger] sorted@[k])@, |x: char, y: char| char_le(x, y))
                    && sorted@[k]@.to_multiset() == list@[k]@.to_multiset(),
        decreases list.len() - i,
    {
        let word = sorted_chars(&list[i]);
        sorted.push(word);
        i = i + 1;
    }
    let distinct = all_distinct(&sorted);
    proof {
        let given = word_views(list@);
        let arranged = word_views(sorted@);
        assert forall|a: int, b: int| 0 <= a < given.len() && 0 <= b < given.len() implies (
        is_anagram(given[a], given[b]) <==> arranged[a] == arranged[b]) by {
            lemma_anagram_by_sorting(given[a], given[b], arranged[a], arranged[b]);
        }
        if distinct {
            assert forall|a: int, b: int|
                0 <= a < given.len() && 0 <= b < given.len() && a != b implies !is_anagram(
                #[trigger] given[a],
                #[trigger] given[b],
            ) by {
                assert(arranged[a] != arranged[b]);
            }
        } else {
            let (a, b) = choose|a: int, b: int|
                0 <= a < arranged.len() && 0 <= b < arranged.len() && a != b && arranged[a]
                    == arranged[b];
            assert(is_anagram(given[a], given[b]));
        }
    }
    distinct && list.len() > 1
}

} // verus!
