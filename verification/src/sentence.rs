//! Voting over a whole sentence, and decoding it with the winning shift.

use vstd::prelude::*;
use crate::alphabet::{is_letter, letter};
use crate::dictionary::{indexable, DictionaryIndex, MAX_LETTERS, MIN_LETTERS};
use crate::distance::is_word;
use crate::matcher::{match_letters, word_votes};
use crate::rotation::{rot_decipher, rotated};
use crate::text::chars_of;

verus! {

/// Number of candidate shifts, and of counters in a tally.
pub const SHIFTS: usize = 26;

/// Length of the first token of `s`: the number of characters that stand
/// before its first blank, or all of them where it has none.
pub open spec fn token_len(s: Seq<char>) -> int
    decreases s.len(),
{
    if s.len() == 0 || s[0] == ' ' {
        0
    } else {
        1 + token_len(s.skip(1))
    }
}

/// The letters of a token, in order; everything else is stripped.
pub open spec fn letters(token: Seq<char>) -> Seq<char> {
    token.filter(|c: char| is_letter(c))
}

/// The votes of one token: those of its letters against the bucket of their
/// number, or none where the letters are fewer than two or more than six.
pub open spec fn token_votes(token: Seq<char>, index: &DictionaryIndex) -> Seq<u8> {
    let word = letters(token);
    if indexable(word.len() as int) {
        word_votes(word, index.bucket(word.len() as int))
    } else {
        Seq::empty()
    }
}

/// All votes of a sentence: those of its tokens, from left to right, the
/// tokens being what single blanks separate.
pub open spec fn sentence_votes(s: Seq<char>, index: &DictionaryIndex) -> Seq<u8>
    decreases s.len(),
{
    let n = token_len(s);
    let head = token_votes(s.take(n), index);
    if 0 <= n < s.len() {
        head + sentence_votes(s.skip(n + 1), index)
    } else {
        head
    }
}

/// Number of votes for `shift` among `votes`.
pub open spec fn votes_for(votes: Seq<u8>, shift: int) -> nat {
    votes.filter(is_vote_for(shift)).len()
}

/// The test that tells the votes for `shift` from the others.
pub open spec fn is_vote_for(shift: int) -> spec_fn(u8) -> bool {
    |v: u8| v == shift
}

/// Whether `shift` wins under the counters `counts`: no shift has more
/// votes, and every lower shift has fewer.
pub open spec fn wins(counts: Seq<usize>, shift: int) -> bool {
    &&& 0 <= shift < counts.len()
    &&& forall|k: int| 0 <= k < counts.len() ==> counts[k] <= counts[shift]
    &&& forall|k: int| 0 <= k < shift ==> counts[k] < counts[shift]
}

/// Whether `shift` wins the vote `votes` among the 26 shifts.
pub open spec fn wins_vote(votes: Seq<u8>, shift: int) -> bool {
    &&& 0 <= shift < 26
    &&& forall|k: int| 0 <= k < 26 ==> votes_for(votes, k) <= votes_for(votes, shift)
    &&& forall|k: int| 0 <= k < shift ==> votes_for(votes, k) < votes_for(votes, shift)
}

/// The shift that wins the vote `votes`.
pub open spec fn winner(votes: Seq<u8>) -> int {
    choose|shift: int| wins_vote(votes, shift)
}

/// A vote has one winner only.
pub proof fn lemma_winner_unique(votes: Seq<u8>, a: int, b: int)
    requires
        wins_vote(votes, a),
        wins_vote(votes, b),
    ensures
        a == b,
        winner(votes) == a,
{
    if a < b {
        assert(votes_for(votes, a) < votes_for(votes, b));
        assert(votes_for(votes, b) <= votes_for(votes, a));
    }
    if b < a {
        assert(votes_for(votes, b) < votes_for(votes, a));
        assert(votes_for(votes, a) <= votes_for(votes, b));
    }
    let w = winner(votes);
    if w < a {
        assert(votes_for(votes, w) < votes_for(votes, a));
        assert(votes_for(votes, a) <= votes_for(votes, w));
    }
    if a < w {
        assert(votes_for(votes, a) < votes_for(votes, w));
        assert(votes_for(votes, w) <= votes_for(votes, a));
    }
}

/// Where every vote is for one shift, that shift has all the votes and each
/// other shift none.
pub proof fn lemma_votes_for_unanimous(votes: Seq<u8>, shift: int, k: int)
    requires
        forall|i: int| 0 <= i < votes.len() ==> #[trigger] votes[i] == shift,
    ensures
        votes_for(votes, k) == if k == shift { votes.len() } else { 0 },
    decreases votes.len(),
{
    reveal(Seq::filter);
    if votes.len() > 0 {
        lemma_votes_for_unanimous(votes.drop_last(), shift, k);
        assert(votes.last() == shift);
    }
}

/// Where the votes are unanimous, the shift they name wins.
pub proof fn lemma_unanimous_vote_wins(votes: Seq<u8>, shift: int)
    requires
        votes.len() > 0,
        0 <= shift < 26,
        forall|i: int| 0 <= i < votes.len() ==> #[trigger] votes[i] == shift,
    ensures
        wins_vote(votes, shift),
        winner(votes) == shift,
{
    assert forall|k: int| 0 <= k < 26 implies votes_for(votes, k) == if k == shift {
        votes.len()
    } else {
        0
    } by {
        lemma_votes_for_unanimous(votes, shift, k);
    }
    lemma_votes_for_unanimous(votes, shift, shift);
    lemma_winner_unique(votes, shift, shift);
}

/// Against an index that holds no word, no sentence casts a vote.
pub proof fn lemma_empty_index_no_votes(s: Seq<char>, index: &DictionaryIndex)
    requires
        forall|len: int| (#[trigger] index.bucket(len)).len() == 0,
    ensures
        sentence_votes(s, index) == Seq::<u8>::empty(),
    decreases s.len(),
{
    let n = token_len(s);
    let word = letters(s.take(n));
    assert(index.bucket(word.len() as int).len() == 0);
    assert(index.bucket(word.len() as int) =~= Seq::empty());
    crate::matcher::lemma_word_votes_push(word, Seq::empty(), word);
    assert(token_votes(s.take(n), index) =~= Seq::<u8>::empty());
    if 0 <= n < s.len() {
        lemma_empty_index_no_votes(s.skip(n + 1), index);
        assert(sentence_votes(s, index) =~= Seq::<u8>::empty());
    }
}

/// The first token of `s` ends where its first blank stands.
pub proof fn lemma_token_len(s: Seq<char>, n: int)
    requires
        0 <= n <= s.len(),
        forall|k: int| 0 <= k < n ==> s[k] != ' ',
        n == s.len() || s[n] == ' ',
    ensures
        token_len(s) == n,
    decreases n,
{
    if n > 0 {
        lemma_token_len(s.skip(1), n - 1);
    }
}

/// Collects the votes of every token of `sentence`, from left to right.
/// Tokens whose letters number fewer than two or more than six cast none.
pub fn collect_votes(sentence: &String, index: &DictionaryIndex) -> (votes: Vec<u8>)
    requires
        index.wf(),
    ensures
        votes@ == sentence_votes(sentence@, index),
        forall|i: int| 0 <= i < votes@.len() ==> votes@[i] < 26,
{
    let chars: Vec<char> = chars_of(sentence.as_str());
    let mut votes: Vec<u8> = Vec::new();
    let mut start: usize = 0;
    let mut done: bool = false;
    assert(chars@.skip(0) =~= chars@);
    assert(votes@ + sentence_votes(chars@, index) =~= sentence_votes(chars@, index));
    while !done
        invariant
            index.wf(),
            chars@ == sentence@,
            start <= chars.len(),
            !done ==> sentence_votes(chars@, index) == votes@ + sentence_votes(
                chars@.skip(start as int),
                index,
            ),
            done ==> votes@ == sentence_votes(chars@, index),
            forall|i: int| 0 <= i < votes@.len() ==> votes@[i] < 26,
        decreases chars.len() - start + (if done { 0int } else { 1int }),
    {
        let mut word: Vec<char> = Vec::new();
        let mut j: usize = start;
        assert(chars@.subrange(start as int, j as int) =~= Seq::empty());
        while j < chars.len() && chars[j] != ' '
            invariant
                start <= j <= chars.len(),
                forall|k: int| start <= k < j ==> chars@[k] != ' ',
                word@ == letters(chars@.subrange(start as int, j as int)),
                is_word(word@),
            decreases chars.len() - j,
        {
            proof {
                let token = chars@.subrange(start as int, j as int);
                assert(chars@.subrange(start as int, j as int + 1) =~= token.push(
                    chars@[j as int],
                ));
                token.lemma_filter_push(chars@[j as int], |c: char| is_letter(c));
            }
            if letter(chars[j]) {
                word.push(chars[j]);
            }
            j = j + 1;
        }
        let ghost rest = chars@.skip(start as int);
        let ghost n = j as int - start as int;
        proof {
            lemma_token_len(rest, n);
            assert(rest.take(n) =~= chars@.subrange(start as int, j as int));
            if n < rest.len() {
                assert(rest.skip(n + 1) =~= chars@.skip(j as int + 1));
            }
        }
        let ghost before = votes@;
        if MIN_LETTERS <= word.len() && word.len() <= MAX_LETTERS {
            let mut cast: Vec<u8> = match_letters(&word, index);
            votes.append(&mut cast);
        }
        assert(votes@ =~= before + token_votes(rest.take(n), index));
        if j < chars.len() {
            assert(votes@ + sentence_votes(chars@.skip(j as int + 1), index) =~= before
                + sentence_votes(rest, index));
            start = j + 1;
        } else {
            done = true;
        }
    }
    votes
}

/// Adds each vote of `votes` to the counter of its shift.
pub fn count_votes(votes: &Vec<u8>, hits: &mut Vec<usize>)
    requires
        old(hits)@.len() == 26,
        forall|i: int| 0 <= i < votes@.len() ==> votes@[i] < 26,
        forall|k: int| 0 <= k < 26 ==> old(hits)@[k] + votes_for(votes@, k) <= usize::MAX,
    ensures
        final(hits)@.len() == 26,
        forall|k: int|
            0 <= k < 26 ==> #[trigger] final(hits)@[k] == old(hits)@[k] + votes_for(votes@, k),
{
    let mut i: usize = 0;
    assert(votes@.take(0) =~= Seq::empty());
    while i < votes.len()
        invariant
            i <= votes.len(),
            hits@.len() == 26,
            old(hits)@.len() == 26,
            forall|i: int| 0 <= i < votes@.len() ==> votes@[i] < 26,
            forall|k: int| 0 <= k < 26 ==> old(hits)@[k] + votes_for(votes@, k) <= usize::MAX,
            forall|k: int|
                0 <= k < 26 ==> #[trigger] hits@[k] == old(hits)@[k] + votes_for(
                    votes@.take(i as int),
                    k,
                ),
        decreases votes.len() - i,
    {
        let shift: usize = votes[i] as usize;
        let count: usize = hits[shift];
        let ghost counted = hits@;
        let ghost seen = votes@.take(i as int);
        proof {
            assert(votes@.take(i as int + 1) =~= seen.push(votes@[i as int]));
            seen.lemma_filter_push(votes@[i as int], is_vote_for(shift as int));
            votes@.lemma_filter_take_len(is_vote_for(shift as int), i as int + 1);
            assert(count == old(hits)@[shift as int] + votes_for(seen, shift as int));
            assert(votes_for(seen, shift as int) + 1 <= votes_for(votes@, shift as int));
            assert(old(hits)@[shift as int] + votes_for(votes@, shift as int) <= usize::MAX);
        }
        hits.set(shift, count + 1);
        i = i + 1;
        assert forall|k: int| 0 <= k < 26 implies hits@[k] == old(hits)@[k] + votes_for(
            votes@.take(i as int),
            k,
        ) by {
            assert(counted[k] == old(hits)@[k] + votes_for(seen, k));
            seen.lemma_filter_push(votes@[i as int - 1], is_vote_for(k));
        }
    }
    assert(votes@.take(i as int) =~= votes@);
}

/// Lets every eligible word of `rot_phrase` vote, and adds the votes to the
/// 26 counters in `hits`, one for each shift.
pub fn test_sentence(rot_phrase: &String, list: &DictionaryIndex, hits: &mut Vec<usize>)
    requires
        list.wf(),
        old(hits)@.len() == 26,
        forall|k: int|
            0 <= k < 26 ==> old(hits)@[k] + votes_for(sentence_votes(rot_phrase@, list), k)
                <= usize::MAX,
    ensures
        final(hits)@.len() == 26,
        forall|k: int|
            0 <= k < 26 ==> #[trigger] final(hits)@[k] == old(hits)@[k] + votes_for(
                sentence_votes(rot_phrase@, list),
                k,
            ),
{
    let votes: Vec<u8> = collect_votes(rot_phrase, list);
    count_votes(&votes, hits);
}

/// The shift with the most votes, and among several such the lowest.
pub fn winning_shift(hits: &Vec<usize>) -> (shift: u8)
    requires
        hits@.len() == 26,
    ensures
        wins(hits@, shift as int),
{
    let mut best: u8 = 0;
    let mut k: u8 = 1;
    while k < 26
        invariant
            hits@.len() == 26,
            1 <= k <= 26,
            best < k,
            forall|i: int| 0 <= i < k ==> hits@[i] <= hits@[best as int],
            forall|i: int| 0 <= i < best ==> hits@[i] < hits@[best as int],
        decreases 26 - k,
    {
        if hits[k as usize] > hits[best as usize] {
            best = k;
        }
        k = k + 1;
    }
    best
}

/// Scores every shift for one sentence and returns the winner: the shift
/// that most matches speak for, the lowest of them on a tie, and 0 where
/// no word of the sentence matches anything.
pub fn tally(sentence: &String, index: &DictionaryIndex) -> (shift: u8)
    requires
        index.wf(),
    ensures
        wins_vote(sentence_votes(sentence@, index), shift as int),
        shift == winner(sentence_votes(sentence@, index)),
        sentence_votes(sentence@, index).len() == 0 ==> shift == 0,
{
    let votes: Vec<u8> = collect_votes(sentence, index);
    let mut hits: Vec<usize> = Vec::new();
    while hits.len() < SHIFTS
        invariant
            hits@.len() <= 26,
            forall|k: int| 0 <= k < hits@.len() ==> hits@[k] == 0,
        decreases 26 - hits@.len(),
    {
        hits.push(0);
    }
    let total: usize = votes.len();
    proof {
        assert(total == votes@.len());
        assert forall|k: int| 0 <= k < 26 implies hits@[k] + votes_for(votes@, k)
            <= usize::MAX by {
            votes@.lemma_filter_len(is_vote_for(k));
        }
    }
    count_votes(&votes, &mut hits);
    let shift: u8 = winning_shift(&hits);
    proof {
        assert forall|k: int| 0 <= k < 26 implies hits@[k] == votes_for(votes@, k) by {}
        assert(hits@[shift as int] == votes_for(votes@, shift as int));
        if votes@.len() == 0 {
            votes@.lemma_filter_len(is_vote_for(0));
            votes@.lemma_filter_len(is_vote_for(shift as int));
            assert(hits@[0] == 0 && hits@[shift as int] == 0);
        }
        lemma_winner_unique(votes@, shift as int, shift as int);
    }
    shift
}

/// Decodes one sentence with the shift that its own words vote for.
pub fn decipher_sentence(sentence: &String, index: &DictionaryIndex) -> (plain: String)
    requires
        index.wf(),
    ensures
        wins_vote(sentence_votes(sentence@, index), winner(sentence_votes(sentence@, index))),
        plain@ == rotated(sentence@, winner(sentence_votes(sentence@, index))),
        plain@.len() == sentence@.len(),
{
    let shift: u8 = tally(sentence, index);
    rot_decipher(sentence, shift)
}

} // verus!
