//! The word list, grouped by word length.

use vstd::prelude::*;
use crate::distance::{all_letters, distances, distances_of, is_word};
use crate::text::chars_of;

verus! {

/// Shortest word that is indexed and scored.
pub const MIN_LETTERS: usize = 2;

/// Longest word that is indexed and scored.
pub const MAX_LETTERS: usize = 6;

/// Whether a word of `len` letters is short and long enough to be indexed.
pub open spec fn indexable(len: int) -> bool {
    MIN_LETTERS <= len <= MAX_LETTERS
}

/// What a bucket for words of `len` letters holds once `w` was offered to it:
/// the word is appended if it has that length and is not yet there.
pub open spec fn with_word(bucket: Seq<Seq<char>>, w: Seq<char>, len: int) -> Seq<Seq<char>> {
    if indexable(len) && w.len() == len && !bucket.contains(w) {
        bucket.push(w)
    } else {
        bucket
    }
}

/// The bucket for words of `len` letters after all of `words` were offered
/// in turn to an empty index: the indexable words of that length, each once,
/// in the order of their first occurrence.
pub open spec fn indexed_words(words: Seq<Seq<char>>, len: int) -> Seq<Seq<char>>
    decreases words.len(),
{
    if words.len() == 0 {
        Seq::empty()
    } else {
        with_word(indexed_words(words.drop_last(), len), words.last(), len)
    }
}

/// Whether `bucket` may serve as the bucket for `len` letters: it holds words
/// of exactly that length, none of them twice, and holds nothing at all for a
/// length that is not indexed.
pub open spec fn bucket_ok(bucket: Seq<Seq<char>>, len: int) -> bool {
    &&& bucket.no_duplicates()
    &&& !indexable(len) ==> bucket.len() == 0
    &&& forall|i: int|
        0 <= i < bucket.len() ==> is_word(#[trigger] bucket[i]) && bucket[i].len() == len
}

/// Words that can be handed to the index: each word whose length is
/// indexable is made of letters only. Other entries are dropped unread.
pub open spec fn indexable_are_words(words: Seq<Seq<char>>) -> bool {
    forall|i: int|
        0 <= i < words.len() && indexable(#[trigger] words[i].len() as int) ==> is_word(words[i])
}

/// The character sequences of a list of strings.
pub open spec fn views(words: Seq<String>) -> Seq<Seq<char>> {
    words.map_values(|w: String| w@)
}

/// A listed word with its distance vector.
struct Entry {
    word: String,
    vector: Vec<u8>,
}

/// The word list as the matcher reads it: for each indexable length the
/// listed words of that length, each with its distance vector.
pub struct DictionaryIndex {
    buckets: Vec<Vec<Entry>>,
}

impl DictionaryIndex {
    /// The words of `len` letters that the index holds, oldest first.
    pub closed spec fn bucket(&self, len: int) -> Seq<Seq<char>> {
        if indexable(len) && self.buckets@.len() == 5 {
            self.buckets@[len - 2]@.map_values(|e: Entry| e.word@)
        } else {
            Seq::empty()
        }
    }

    /// The stored distance vectors are those of the stored words.
    pub closed spec fn vectors_ok(&self) -> bool {
        &&& self.buckets@.len() == 5
        &&& forall|b: int, i: int|
            0 <= b < 5 && 0 <= i < self.buckets@[b]@.len() ==> (
            #[trigger] self.buckets@[b]@[i]).vector@ == distances(self.buckets@[b]@[i].word@)
    }

    /// Validity of an index: every bucket holds words of its own length and
    /// none twice, and the vectors kept beside the words are theirs.
    pub open spec fn wf(&self) -> bool {
        &&& self.vectors_ok()
        &&& forall|len: int| bucket_ok(#[trigger] self.bucket(len), len)
    }

    /// An index that holds no word.
    pub fn new() -> (index: DictionaryIndex)
        ensures
            index.wf(),
            forall|len: int| (#[trigger] index.bucket(len)).len() == 0,
    {
        let mut buckets: Vec<Vec<Entry>> = Vec::new();
        let mut n: usize = 0;
        while n < 5
            invariant
                n <= 5,
                buckets@.len() == n,
                forall|b: int| 0 <= b < n ==> (#[trigger] buckets@[b])@.len() == 0,
            decreases 5 - n,
        {
            buckets.push(Vec::new());
            n = n + 1;
        }
        DictionaryIndex { buckets }
    }

    /// Number of words of `len` letters in the index.
    pub fn bucket_len(&self, len: usize) -> (n: usize)
        requires
            self.wf(),
        ensures
            n == self.bucket(len as int).len(),
    {
        if len < MIN_LETTERS || len > MAX_LETTERS {
            0
        } else {
            self.buckets[len - 2].len()
        }
    }

    /// First letter and distance vector of the `i`-th word of `len` letters.
    pub fn entry(&self, len: usize, i: usize) -> (e: (char, &Vec<u8>))
        requires
            self.wf(),
            i < self.bucket(len as int).len(),
        ensures
            e.0 == self.bucket(len as int)[i as int][0],
            e.1@ == distances(self.bucket(len as int)[i as int]),
    {
        let held: &Entry = &self.buckets[len - 2][i];
        assert(bucket_ok(self.bucket(len as int), len as int));
        assert(held.word@ == self.bucket(len as int)[i as int]);
        (held.word.as_str().get_char(0), &held.vector)
    }

    /// Looks `word` up, in this very spelling, and hands out the distance
    /// vector that is kept for it.
    pub fn lookup(&self, word: &String) -> (found: Option<&Vec<u8>>)
        requires
            self.wf(),
        ensures
            found is Some <==> self.bucket(word@.len() as int).contains(word@),
            found is Some ==> found->0@ == distances(word@),
    {
        let n: usize = word.as_str().unicode_len();
        if n < MIN_LETTERS || n > MAX_LETTERS {
            return None;
        }
        let bucket: &Vec<Entry> = &self.buckets[n - 2];
        let ghost held = self.bucket(n as int);
        let mut j: usize = 0;
        while j < bucket.len()
            invariant
                self.wf(),
                j <= bucket.len(),
                n == word@.len(),
                indexable(n as int),
                held == self.bucket(n as int),
                held == bucket@.map_values(|e: Entry| e.word@),
                bucket@ == self.buckets@[n - 2]@,
                forall|k: int| 0 <= k < j ==> held[k] != word@,
            decreases bucket.len() - j,
        {
            if bucket[j].word == *word {
                assert(held[j as int] == word@);
                return Some(&bucket[j].vector);
            }
            j = j + 1;
        }
        None
    }

    /// Tells whether the index holds `word`, in this very spelling.
    pub fn contains(&self, word: &String) -> (found: bool)
        requires
            self.wf(),
        ensures
            found == self.bucket(word@.len() as int).contains(word@),
    {
        self.lookup(word).is_some()
    }

    /// Offers one word to the index. A word of two to six letters that is not
    /// yet held is stored with its distance vector, behind the words of its
    /// length that are already there; any other word changes nothing.
    pub fn insert(&mut self, word: String)
        requires
            old(self).wf(),
            indexable(word@.len() as int) ==> is_word(word@),
        ensures
            final(self).wf(),
            forall|len: int| #[trigger]
                final(self).bucket(len) == with_word(old(self).bucket(len), word@, len),
    {
        let letters: Vec<char> = chars_of(word.as_str());
        let n: usize = letters.len();
        if n < MIN_LETTERS || n > MAX_LETTERS {
            return;
        }
        if self.contains(&word) {
            return;
        }
        let vector: Vec<u8> = distances_of(&letters);
        let ghost before = *self;
        let ghost w = word@;
        self.buckets[n - 2].push(Entry { word, vector });
        proof {
            let b = n as int - 2;
            assert(self.buckets@[b]@ == before.buckets@[b]@.push(Entry { word, vector }));
            assert forall|len: int| #[trigger]
                self.bucket(len) == with_word(before.bucket(len), w, len) by {
                if len == n {
                    assert(self.bucket(len) =~= before.bucket(len).push(w));
                } else {
                    assert(self.bucket(len) =~= before.bucket(len));
                }
            }
            assert forall|len: int| bucket_ok(#[trigger] self.bucket(len), len) by {
                assert(bucket_ok(before.bucket(len), len));
            }
        }
    }
}

/// Tells whether `words` can be handed to the index as it stands: whether
/// each of its words of two to six characters is made of letters only.
pub fn listable(words: &Vec<String>) -> (yes: bool)
    ensures
        yes == indexable_are_words(views(words@)),
{
    let mut i: usize = 0;
    while i < words.len()
        invariant
            i <= words.len(),
            forall|k: int|
                0 <= k < i && indexable(#[trigger] views(words@)[k].len() as int) ==> is_word(
                    views(words@)[k],
                ),
        decreases words.len() - i,
    {
        let n: usize = words[i].as_str().unicode_len();
        assert(views(words@)[i as int] == words@[i as int]@);
        if MIN_LETTERS <= n && n <= MAX_LETTERS && !all_letters(&words[i]) {
            return false;
        }
        i = i + 1;
    }
    true
}

/// What the buckets of a built index hold: a word stands in the bucket for
/// `len` exactly when it is on the list and has `len` letters, `len` being
/// two to six; and it stands there once. So no word shorter than two or
/// longer than six letters is in any bucket.
pub proof fn lemma_indexed_words(words: Seq<Seq<char>>, len: int)
    ensures
        indexed_words(words, len).no_duplicates(),
        forall|w: Seq<char>| #[trigger]
            indexed_words(words, len).contains(w) <==> indexable(len) && w.len() == len
                && words.contains(w),
    decreases words.len(),
{
    if words.len() > 0 {
        let init = words.drop_last();
        let held = indexed_words(init, len);
        lemma_indexed_words(init, len);
        assert forall|w: Seq<char>| #[trigger]
            indexed_words(words, len).contains(w) <==> indexable(len) && w.len() == len
                && words.contains(w) by {
            if words.contains(w) {
                let i = choose|i: int| 0 <= i < words.len() && words[i] == w;
                if i < words.len() - 1 {
                    assert(init[i] == w);
                }
            }
            if init.contains(w) {
                let i = choose|i: int| 0 <= i < init.len() && init[i] == w;
                assert(words[i] == w);
            }
            if indexed_words(words, len) != held {
                assert(held.push(words.last()).last() == words.last());
                if held.push(words.last()).contains(w) && w != words.last() {
                    let i = choose|i: int|
                        0 <= i < held.len() + 1 && held.push(words.last())[i] == w;
                    assert(held[i] == w);
                }
                if held.contains(w) {
                    let i = choose|i: int| 0 <= i < held.len() && held[i] == w;
                    assert(held.push(words.last())[i] == w);
                }
            }
        }
    }
}

/// Fills `list` from the word list `words`: whatever `list` held is dropped,
/// and each word of two to six letters is stored once, with its distance
/// vector, under its length. Words of any other length are left out.
pub fn load_dictionary(words: &Vec<String>, list: &mut DictionaryIndex)
    requires
        indexable_are_words(views(words@)),
    ensures
        final(list).wf(),
        forall|len: int| #[trigger] final(list).bucket(len) == indexed_words(views(words@), len),
        forall|len: int, w: Seq<char>|
            final(list).bucket(len).contains(w) ==> indexable(len) && w.len() == len,
{
    *list = DictionaryIndex::new();
    let mut i: usize = 0;
    while i < words.len()
        invariant
            i <= words.len(),
            indexable_are_words(views(words@)),
            list.wf(),
            forall|len: int| #[trigger]
                list.bucket(len) == indexed_words(views(words@).take(i as int), len),
        decreases words.len() - i,
    {
        let ghost seen = views(words@).take(i as int);
        let ghost next = views(words@).take(i as int + 1);
        proof {
            assert(next.drop_last() =~= seen);
            assert(next.last() == words@[i as int]@);
            assert(views(words@)[i as int] == words@[i as int]@);
        }
        list.insert(words[i].clone());
        i = i + 1;
    }
    proof {
        assert(views(words@).take(i as int) =~= views(words@));
        assert forall|len: int, w: Seq<char>| list.bucket(len).contains(w) implies indexable(len)
            && w.len() == len by {
            assert(bucket_ok(list.bucket(len), len));
        }
    }
}

} // verus!
