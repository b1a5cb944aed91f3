//! Distance vectors: the encoding of a word that no rotation changes.

use vstd::prelude::*;
use crate::alphabet::{gap, is_letter, letter, letter_gap};
use crate::text::chars_of;

verus! {

/// A word is a sequence of ASCII letters.
pub open spec fn is_word(w: Seq<char>) -> bool {
    forall|i: int| 0 <= i < w.len() ==> is_letter(#[trigger] w[i])
}

/// The distance vector of `w`: one entry for each pair of neighbours, the
/// circular forward distance from the left letter to the right one.
pub open spec fn distances(w: Seq<char>) -> Seq<u8> {
    Seq::new(
        if w.len() >= 1 { (w.len() - 1) as nat } else { 0 },
        |i: int| gap(w[i], w[i + 1]) as u8,
    )
}

/// Tells whether `word` is made of ASCII letters only.
pub fn all_letters(word: &String) -> (yes: bool)
    ensures
        yes == is_word(word@),
{
    let chars: Vec<char> = chars_of(word.as_str());
    let mut i: usize = 0;
    while i < chars.len()
        invariant
            chars@ == word@,
            i <= chars.len(),
            forall|k: int| 0 <= k < i ==> is_letter(#[trigger] chars@[k]),
        decreases chars.len() - i,
    {
        if !letter(chars[i]) {
            return false;
        }
        i = i + 1;
    }
    true
}

/// Distance vector of a word that is already split into characters.
pub fn distances_of(letters: &Vec<char>) -> (v: Vec<u8>)
    requires
        letters@.len() >= 2,
        is_word(letters@),
    ensures
        v@ == distances(letters@),
{
    let mut v: Vec<u8> = Vec::new();
    let mut i: usize = 0;
    while i + 1 < letters.len()
        invariant
            letters@.len() >= 2,
            is_word(letters@),
            i + 1 <= letters.len(),
            v@.len() == i,
            forall|k: int| 0 <= k < i ==> v@[k] == gap(letters@[k], letters@[k + 1]) as u8,
        decreases letters.len() - i,
    {
        v.push(letter_gap(letters[i], letters[i + 1]));
        i = i + 1;
    }
    assert(v@ =~= distances(letters@));
    v
}

/// Computes the distance vector of `word`, which holds at least two
/// characters, all of them letters. Case plays no part in the result.
pub fn get_distance(word: &String) -> (v: Vec<u8>)
    requires
        word@.len() >= 2,
        is_word(word@),
    ensures
        v@ == distances(word@),
        v@.len() == word@.len() - 1,
        forall|i: int| 0 <= i < v@.len() ==> v@[i] < 26,
{
    let letters: Vec<char> = chars_of(word.as_str());
    distances_of(&letters)
}

} // verus!
