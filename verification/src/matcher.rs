//! Matching one cipher word against the word list.

use vstd::prelude::*;
use crate::alphabet::{gap, is_letter, letter_gap, position, rotated_char};
use crate::dictionary::{indexable, DictionaryIndex};
use crate::distance::{distances, distances_of, is_word};
use crate::rotation::{
    lemma_distances_shift_invariant, lemma_rotated_char_keeps_case, rotated,
};
use crate::text::chars_of;

verus! {

/// The shift that a match of `cipher` with the listed word `listed` speaks
/// for: the circular forward distance from the first letter of the cipher
/// word to the first letter of the listed word.
pub open spec fn implied_shift(cipher: Seq<char>, listed: Seq<char>) -> int {
    gap(cipher[0], listed[0])
}

/// Whether the listed word `listed` matches `cipher`: their distance vectors
/// are equal, entry by entry.
pub open spec fn matches_word(cipher: Seq<char>, listed: Seq<char>) -> bool {
    distances(listed) == distances(cipher)
}

/// The votes that `cipher` casts against a bucket: one for each listed word
/// that matches it, in the order of the bucket, each the shift that this
/// match implies.
pub open spec fn word_votes(cipher: Seq<char>, bucket: Seq<Seq<char>>) -> Seq<u8> {
    bucket.filter(|d: Seq<char>| matches_word(cipher, d)).map_values(
        |d: Seq<char>| implied_shift(cipher, d) as u8,
    )
}

/// Tells whether two vectors hold the same entries.
pub fn same_vector(a: &Vec<u8>, b: &Vec<u8>) -> (same: bool)
    ensures
        same == (a@ == b@),
{
    if a.len() != b.len() {
        return false;
    }
    let mut i: usize = 0;
    while i < a.len()
        invariant
            a@.len() == b@.len(),
            i <= a.len(),
            forall|k: int| 0 <= k < i ==> a@[k] == b@[k],
        decreases a.len() - i,
    {
        if a[i] != b[i] {
            return false;
        }
        i = i + 1;
    }
    assert(a@ =~= b@);
    true
}

/// What one more listed word adds to the votes of `cipher`.
pub proof fn lemma_word_votes_push(cipher: Seq<char>, bucket: Seq<Seq<char>>, d: Seq<char>)
    ensures
        word_votes(cipher, bucket.push(d)) == if matches_word(cipher, d) {
            word_votes(cipher, bucket).push(implied_shift(cipher, d) as u8)
        } else {
            word_votes(cipher, bucket)
        },
        word_votes(cipher, Seq::empty()) == Seq::<u8>::empty(),
{
    reveal(Seq::filter);
    assert(bucket.push(d).drop_last() =~= bucket);
    assert(bucket.push(d).last() == d);
    if matches_word(cipher, d) {
        assert(word_votes(cipher, bucket.push(d)) =~= word_votes(cipher, bucket).push(
            implied_shift(cipher, d) as u8,
        ));
    }
    assert(word_votes(cipher, Seq::empty()) =~= Seq::<u8>::empty());
}

/// Finds every listed word whose distance vector equals that of
/// `cipher_word`, and returns one vote for each: the shift that the match
/// implies. `cipher_word` is a word of two to six letters.
pub fn match_word(cipher_word: &String, index: &DictionaryIndex) -> (votes: Vec<u8>)
    requires
        index.wf(),
        is_word(cipher_word@),
        indexable(cipher_word@.len() as int),
    ensures
        votes@ == word_votes(cipher_word@, index.bucket(cipher_word@.len() as int)),
        forall|i: int| 0 <= i < votes@.len() ==> votes@[i] < 26,
{
    let letters: Vec<char> = chars_of(cipher_word.as_str());
    match_letters(&letters, index)
}

/// `match_word` for a word that is already split into characters.
pub fn match_letters(letters: &Vec<char>, index: &DictionaryIndex) -> (votes: Vec<u8>)
    requires
        index.wf(),
        is_word(letters@),
        indexable(letters@.len() as int),
    ensures
        votes@ == word_votes(letters@, index.bucket(letters@.len() as int)),
        votes@.len() <= index.bucket(letters@.len() as int).len(),
        forall|i: int| 0 <= i < votes@.len() ==> votes@[i] < 26,
{
    let n: usize = letters.len();
    let vector: Vec<u8> = distances_of(letters);
    let count: usize = index.bucket_len(n);
    let ghost bucket = index.bucket(n as int);
    let mut votes: Vec<u8> = Vec::new();
    let mut j: usize = 0;
    proof {
        lemma_word_votes_push(letters@, bucket, letters@);
        assert(bucket.take(0) =~= Seq::empty());
    }
    while j < count
        invariant
            index.wf(),
            is_word(letters@),
            n == letters@.len(),
            indexable(n as int),
            vector@ == distances(letters@),
            bucket == index.bucket(n as int),
            count == bucket.len(),
            j <= count,
            votes@ == word_votes(letters@, bucket.take(j as int)),
            votes@.len() <= j,
            forall|i: int| 0 <= i < votes@.len() ==> votes@[i] < 26,
        decreases count - j,
    {
        let listed: (char, &Vec<u8>) = index.entry(n, j);
        proof {
            lemma_word_votes_push(letters@, bucket.take(j as int), bucket[j as int]);
            assert(bucket.take(j as int).push(bucket[j as int]) =~= bucket.take(j as int + 1));
            assert(crate::dictionary::bucket_ok(bucket, n as int));
        }
        if same_vector(listed.1, &vector) {
            votes.push(letter_gap(letters[0], listed.0));
        }
        j = j + 1;
    }
    assert(bucket.take(j as int) =~= bucket);
    votes
}

/// No listed word is missed. A cipher word that is a listed word rotated by
/// `s` matches that word, and casts a vote for the shift that undoes `s`:
/// rotated by the shift it votes for, the cipher word is the listed word
/// again.
pub proof fn lemma_rotated_word_is_found(plain: Seq<char>, s: int, bucket: Seq<Seq<char>>)
    requires
        plain.len() >= 1,
        is_word(plain),
        bucket.contains(plain),
    ensures
        matches_word(rotated(plain, s), plain),
        implied_shift(rotated(plain, s), plain) == (26 - s) % 26,
        word_votes(rotated(plain, s), bucket).contains(((26 - s) % 26) as u8),
        rotated(rotated(plain, s), (26 - s) % 26) == plain,
{
    let cipher = rotated(plain, s);
    let back = (26 - s) % 26;
    lemma_distances_shift_invariant(plain, s);
    assert(is_letter(plain[0]));
    lemma_rotated_char_keeps_case(plain[0], s);
    assert(implied_shift(cipher, plain) == back);
    let held = bucket.filter(|d: Seq<char>| matches_word(cipher, d));
    let i = choose|i: int| 0 <= i < bucket.len() && bucket[i] == plain;
    bucket.lemma_filter_contains(|d: Seq<char>| matches_word(cipher, d), i);
    let j = choose|j: int| 0 <= j < held.len() && held[j] == plain;
    assert(word_votes(cipher, bucket)[j] == back as u8);
    assert forall|k: int| 0 <= k < plain.len() implies rotated_char(
        rotated_char(#[trigger] plain[k], s),
        back,
    ) == plain[k] by {
        lemma_rotated_char_keeps_case(plain[k], s);
    }
    assert(rotated(cipher, back) =~= plain);
}

/// Two listed words that both match a cipher word imply the same shift
/// exactly when they begin with the same letter, case set aside, and then
/// they are the same word, case set aside. Matching words that begin with
/// different letters are rotations of one another and speak for different
/// shifts.
pub proof fn lemma_same_shift_iff_same_start(cipher: Seq<char>, first: Seq<char>, second: Seq<char>)
    requires
        cipher.len() >= 1,
        first.len() == cipher.len(),
        second.len() == cipher.len(),
        is_word(cipher),
        is_word(first),
        is_word(second),
        matches_word(cipher, first),
        matches_word(cipher, second),
    ensures
        (implied_shift(cipher, first) == implied_shift(cipher, second)) <==> position(first[0])
            == position(second[0]),
        position(first[0]) == position(second[0]) ==> forall|i: int|
            0 <= i < cipher.len() ==> position(#[trigger] first[i]) == position(second[i]),
{
    lemma_matching_words_are_rotations(cipher, first);
    lemma_matching_words_are_rotations(cipher, second);
    assert(is_letter(first[0]) && is_letter(second[0]) && is_letter(cipher[0]));
}

/// A listed word that matches a cipher word is that word rotated by the
/// implied shift: letter for letter, the listed word stands the implied
/// shift after the cipher word in the alphabet.
pub proof fn lemma_matching_words_are_rotations(cipher: Seq<char>, listed: Seq<char>)
    requires
        cipher.len() >= 1,
        listed.len() == cipher.len(),
        is_word(cipher),
        is_word(listed),
        matches_word(cipher, listed),
    ensures
        forall|i: int|
            0 <= i < cipher.len() ==> position(#[trigger] listed[i]) == (position(cipher[i])
                + implied_shift(cipher, listed)) % 26,
{
    assert forall|i: int| 0 <= i < cipher.len() implies position(#[trigger] listed[i]) == (
    position(cipher[i]) + implied_shift(cipher, listed)) % 26 by {
        lemma_rotation_at(cipher, listed, i);
    }
}

/// If one step to the right covers the same distance in two words, and the
/// left letters stand `shift` apart, then so do the right letters.
proof fn lemma_step(c0: int, c1: int, d0: int, d1: int, shift: int)
    requires
        0 <= c0 < 26,
        0 <= c1 < 26,
        0 <= d0 < 26,
        0 <= d1 < 26,
        0 <= shift < 26,
        (c1 - c0) % 26 == (d1 - d0) % 26,
        d0 == (c0 + shift) % 26,
    ensures
        d1 == (c1 + shift) % 26,
{
}

proof fn lemma_rotation_at(cipher: Seq<char>, listed: Seq<char>, n: int)
    requires
        cipher.len() == listed.len(),
        0 <= n < cipher.len(),
        is_word(cipher),
        is_word(listed),
        matches_word(cipher, listed),
    ensures
        position(listed[n]) == (position(cipher[n]) + implied_shift(cipher, listed)) % 26,
    decreases n,
{
    assert(is_letter(cipher[0]) && is_letter(listed[0]));
    if n > 0 {
        lemma_rotation_at(cipher, listed, n - 1);
        assert(is_letter(cipher[n]) && is_letter(listed[n]));
        assert(is_letter(cipher[n - 1]) && is_letter(listed[n - 1]));
        assert(distances(cipher)[n - 1] == distances(listed)[n - 1]);
        let gc = gap(cipher[n - 1], cipher[n]);
        let gl = gap(listed[n - 1], listed[n]);
        assert(distances(cipher)[n - 1] == gc as u8);
        assert(distances(listed)[n - 1] == gl as u8);
        assert(0 <= gc < 26 && 0 <= gl < 26);
        assert(gc == gl);
        lemma_step(
            position(cipher[n - 1]),
            position(cipher[n]),
            position(listed[n - 1]),
            position(listed[n]),
            implied_shift(cipher, listed),
        );
    }
}

} // verus!
