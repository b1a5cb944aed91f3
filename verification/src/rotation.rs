//! Rotation of whole texts, and what it leaves alone.

use vstd::prelude::*;
use crate::alphabet::{is_letter, is_lower, is_upper, position, rotate_char, rotated_char};
use crate::distance::{distances, is_word};
use crate::text::{chars_of, string_of};

verus! {

/// The text `w` with every letter moved `shift` places on, each within the
/// alphabet of its own case; what is no letter stays.
pub open spec fn rotated(w: Seq<char>, shift: int) -> Seq<char> {
    Seq::new(w.len(), |i: int| rotated_char(w[i], shift))
}

/// Decodes `text` by moving each letter `rot` places on in the alphabet,
/// wrapping from `Z` to `A` and from `z` to `a`. Digits, punctuation, blanks
/// and all other characters are handed through untouched.
pub fn rot_decipher(text: &String, rot: u8) -> (plain: String)
    ensures
        plain@ == rotated(text@, rot as int),
        plain@.len() == text@.len(),
        forall|i: int|
            0 <= i < text@.len() && !is_letter(text@[i]) ==> plain@[i] == #[trigger] text@[i],
        forall|i: int|
            0 <= i < text@.len() ==> is_upper(plain@[i]) == is_upper(#[trigger] text@[i])
                && is_lower(plain@[i]) == is_lower(text@[i]),
{
    let source: Vec<char> = chars_of(text.as_str());
    let mut target: Vec<char> = Vec::new();
    let mut i: usize = 0;
    while i < source.len()
        invariant
            i <= source.len(),
            target@.len() == i,
            forall|k: int| 0 <= k < i ==> target@[k] == rotated_char(source@[k], rot as int),
        decreases source.len() - i,
    {
        target.push(rotate_char(source[i], rot));
        i = i + 1;
    }
    assert(target@ =~= rotated(text@, rot as int));
    proof {
        assert forall|k: int| 0 <= k < text@.len() implies is_upper(target@[k]) == is_upper(
            #[trigger] text@[k],
        ) && is_lower(target@[k]) == is_lower(text@[k]) by {
            lemma_rotated_char_keeps_case(text@[k], rot as int);
        }
    }
    string_of(&target)
}

/// A rotated letter is a letter of the same case, and its position is the
/// old position plus the shift, taken modulo 26.
pub proof fn lemma_rotated_char_keeps_case(c: char, shift: int)
    ensures
        is_upper(rotated_char(c, shift)) == is_upper(c),
        is_lower(rotated_char(c, shift)) == is_lower(c),
        is_letter(c) ==> position(rotated_char(c, shift)) == (position(c) + shift) % 26,
{
}

/// Rotation by nothing changes nothing, and rotating by `s` and then by
/// `26 - s` gives every text back, whatever it holds and whatever `s` is.
pub proof fn lemma_rotation_round_trip(w: Seq<char>, s: int)
    ensures
        rotated(w, 0) == w,
        rotated(rotated(w, s), 26 - s) == w,
{
    assert forall|i: int| 0 <= i < w.len() implies rotated_char(
        rotated_char(#[trigger] w[i], s),
        26 - s,
    ) == w[i] && rotated_char(w[i], 0) == w[i] by {
        lemma_rotated_char_keeps_case(w[i], s);
    }
    assert(rotated(w, 0) =~= w);
    assert(rotated(rotated(w, s), 26 - s) =~= w);
}

/// Rotating a word leaves its distance vector as it was: for every word and
/// every shift the rotated word encodes to the same vector.
pub proof fn lemma_distances_shift_invariant(w: Seq<char>, s: int)
    requires
        is_word(w),
    ensures
        is_word(rotated(w, s)),
        distances(rotated(w, s)) == distances(w),
{
    let r = rotated(w, s);
    assert forall|i: int| 0 <= i < r.len() implies is_letter(#[trigger] r[i]) by {
        lemma_rotated_char_keeps_case(w[i], s);
    }
    assert forall|i: int| 0 <= i < w.len() - 1 implies distances(r)[i] == #[trigger] distances(
        w,
    )[i] by {
        lemma_rotated_char_keeps_case(w[i], s);
        lemma_rotated_char_keeps_case(w[i + 1], s);
    }
    assert(distances(r) =~= distances(w));
}

} // verus!
