use rotx_solver::dictionary::{listable, load_dictionary, DictionaryIndex};
use rotx_solver::matcher::{match_word, same_vector};
use rotx_solver::rotation::rot_decipher;
use rotx_solver::sentence::{
    collect_votes, count_votes, decipher_sentence, tally, test_sentence, winning_shift,
};

fn s(text: &str) -> String {
    text.to_string()
}

fn index_of(words: &[&str]) -> DictionaryIndex {
    let list: Vec<String> = words.iter().map(|w| w.to_string()).collect();
    let mut index = DictionaryIndex::new();
    load_dictionary(&list, &mut index);
    index
}

#[test]
fn new_index_is_empty() {
    let index = DictionaryIndex::new();
    for len in 0..10 {
        assert_eq!(index.bucket_len(len), 0);
    }
    assert!(!index.contains(&s("THE")));
}

#[test]
fn index_groups_words_by_length() {
    let index = index_of(&["AT", "BE", "THE", "AND", "CAT", "HOUSE", "PLANET"]);
    assert_eq!(index.bucket_len(2), 2);
    assert_eq!(index.bucket_len(3), 3);
    assert_eq!(index.bucket_len(4), 0);
    assert_eq!(index.bucket_len(5), 1);
    assert_eq!(index.bucket_len(6), 1);
    assert!(index.contains(&s("CAT")));
    assert!(!index.contains(&s("cat")));
    assert!(!index.contains(&s("DOG")));
}

#[test]
fn index_drops_words_that_are_too_short_or_too_long() {
    let index = index_of(&["", "A", "I", "ELEPHANT", "SEVENTY", "it's a trap", "OK"]);
    assert_eq!(index.bucket_len(0), 0);
    assert_eq!(index.bucket_len(1), 0);
    assert_eq!(index.bucket_len(7), 0);
    assert_eq!(index.bucket_len(8), 0);
    assert_eq!(index.bucket_len(2), 1);
    assert!(!index.contains(&s("A")));
    assert!(!index.contains(&s("ELEPHANT")));
    assert!(!index.contains(&s("SEVENTY")));
    assert!(index.contains(&s("OK")));
    let mut total = 0;
    for len in 0..20 {
        total += index.bucket_len(len);
    }
    assert_eq!(total, 1);
}

#[test]
fn index_keeps_a_repeated_word_once() {
    let index = index_of(&["THE", "CAT", "THE", "THE"]);
    assert_eq!(index.bucket_len(3), 2);
    assert_eq!(match_word(&s("wkh"), &index), vec![23]);
}

#[test]
fn insert_adds_one_word_at_a_time() {
    let mut index = DictionaryIndex::new();
    index.insert(s("CAT"));
    assert_eq!(index.bucket_len(3), 1);
    index.insert(s("CAT"));
    assert_eq!(index.bucket_len(3), 1);
    index.insert(s("Cat"));
    assert_eq!(index.bucket_len(3), 2);
    index.insert(s("LONGWORD"));
    index.insert(s("x"));
    assert_eq!(index.bucket_len(8), 0);
    assert_eq!(index.bucket_len(1), 0);
}

#[test]
fn load_replaces_what_the_index_held() {
    let mut index = index_of(&["THE", "CAT"]);
    load_dictionary(&vec![s("DOG")], &mut index);
    assert_eq!(index.bucket_len(3), 1);
    assert!(index.contains(&s("DOG")));
    assert!(!index.contains(&s("THE")));
}

#[test]
fn same_vector_compares_entry_by_entry() {
    assert!(same_vector(&vec![], &vec![]));
    assert!(same_vector(&vec![1, 2, 3], &vec![1, 2, 3]));
    assert!(!same_vector(&vec![1, 2, 3], &vec![1, 2, 4]));
    assert!(!same_vector(&vec![1, 2], &vec![1, 2, 3]));
}

#[test]
fn one_listed_word_gives_one_vote() {
    let index = index_of(&["THE"]);
    let word = rot_decipher(&s("the"), 3);
    assert_eq!(word, "wkh");
    let votes = match_word(&word, &index);
    assert_eq!(votes.len(), 1);
    // The vote names the shift that leads from the cipher word back to the
    // listed word: 23 undoes a rotation by 3.
    assert_eq!(votes, vec![26 - 3]);
    assert_eq!(rot_decipher(&word, votes[0]), "the");
}

#[test]
fn a_word_without_a_match_casts_no_vote() {
    let index = index_of(&["THE", "AND"]);
    assert_eq!(match_word(&s("cat"), &index), Vec::<u8>::new());
    assert_eq!(match_word(&s("at"), &index), Vec::<u8>::new());
}

#[test]
fn matching_ignores_case() {
    let index = index_of(&["The"]);
    assert_eq!(match_word(&s("WKH"), &index), vec![23]);
    assert_eq!(match_word(&s("the"), &index), vec![0]);
}

#[test]
fn every_matching_word_votes() {
    // CHEER and JOLLY are rotations of one another, seven places apart.
    let index = index_of(&["CHEER", "JOLLY", "HOUSE"]);
    assert_eq!(match_word(&s("cheer"), &index), vec![0, 7]);
    assert_eq!(match_word(&s("jolly"), &index), vec![19, 0]);
    assert_eq!(match_word(&s("diffs"), &index), vec![25, 6]);
}

#[test]
fn matches_with_one_first_letter_agree_on_the_shift() {
    let index = index_of(&["Cat", "CAT", "cat", "cAT"]);
    let votes = match_word(&s("fdw"), &index);
    assert_eq!(votes, vec![23, 23, 23, 23]);
}

#[test]
fn sentence_votes_skip_tokens_out_of_range() {
    let index = index_of(&["THE", "CAT", "A", "I", "ELEPHANT"]);
    // "d" has one letter and "hohskdqw" eight: neither votes.
    assert_eq!(collect_votes(&s("d hohskdqw"), &index), Vec::<u8>::new());
    assert_eq!(collect_votes(&s("Wkh d fdw"), &index), vec![23, 23]);
}

#[test]
fn sentence_votes_strip_punctuation_inside_tokens() {
    let index = index_of(&["THE", "CAT"]);
    assert_eq!(collect_votes(&s("\"W-k.h!\" (fdw),"), &index), vec![23, 23]);
    // Blanks alone separate tokens: a tab does not.
    assert_eq!(collect_votes(&s("wkh\tfdw"), &index), Vec::<u8>::new());
}

#[test]
fn sentence_votes_of_blank_and_empty_sentences() {
    let index = index_of(&["THE", "CAT"]);
    assert_eq!(collect_votes(&s(""), &index), Vec::<u8>::new());
    assert_eq!(collect_votes(&s("   "), &index), Vec::<u8>::new());
    assert_eq!(collect_votes(&s("  wkh   fdw  "), &index), vec![23, 23]);
    assert_eq!(tally(&s(""), &index), 0);
    assert_eq!(decipher_sentence(&s(""), &index), "");
}

#[test]
fn count_votes_adds_to_the_counters() {
    let mut hits = vec![0usize; 26];
    hits[3] = 5;
    count_votes(&vec![3, 3, 25, 0, 3], &mut hits);
    assert_eq!(hits[0], 1);
    assert_eq!(hits[3], 8);
    assert_eq!(hits[25], 1);
    assert_eq!(hits.iter().sum::<usize>(), 10);
}

#[test]
fn test_sentence_fills_the_counters() {
    let index = index_of(&["THE", "CAT", "CHEER", "JOLLY"]);
    let mut hits = vec![0usize; 26];
    test_sentence(&s("Wkh fdw vdw fkhhu."), &index, &mut hits);
    let mut expected = vec![0usize; 26];
    expected[23] = 3;
    expected[4] = 1;
    assert_eq!(hits, expected);
    test_sentence(&s("wkh"), &index, &mut hits);
    expected[23] = 4;
    assert_eq!(hits, expected);
}

#[test]
fn winning_shift_is_the_first_maximum() {
    let mut hits = vec![0usize; 26];
    assert_eq!(winning_shift(&hits), 0);
    hits[7] = 2;
    hits[20] = 2;
    assert_eq!(winning_shift(&hits), 7);
    hits[20] = 3;
    assert_eq!(winning_shift(&hits), 20);
    hits[25] = 4;
    assert_eq!(winning_shift(&hits), 25);
    hits[0] = 4;
    assert_eq!(winning_shift(&hits), 0);
}

#[test]
fn sentence_rotated_by_three_is_recovered() {
    let index = index_of(&["THE", "CAT"]);
    let cipher = s("Wkh fdw vdw.");
    assert_eq!(rot_decipher(&s("The cat sat."), 3), cipher);
    let shift = tally(&cipher, &index);
    // The winning shift is the one that decodes: 26 - 3.
    assert_eq!(shift, 23);
    assert_eq!(rot_decipher(&cipher, shift), "The cat sat.");
    assert_eq!(decipher_sentence(&cipher, &index), "The cat sat.");
}

#[test]
fn every_rotation_of_a_sentence_is_recovered() {
    let index = index_of(&["THE", "QUICK", "BROWN", "FOX", "JUMPS", "OVER", "LAZY", "DOG"]);
    let plain = s("The quick brown fox jumps over the lazy dog!");
    for shift in 0u8..26 {
        let cipher = rot_decipher(&plain, shift);
        assert_eq!(tally(&cipher, &index), (26 - shift) % 26);
        assert_eq!(decipher_sentence(&cipher, &index), plain);
    }
}

#[test]
fn empty_dictionary_leaves_sentences_as_they_are() {
    let index = index_of(&[]);
    for text in ["Wkh fdw vdw.", "", "anything at all", "X"] {
        let mut hits = vec![0usize; 26];
        test_sentence(&s(text), &index, &mut hits);
        assert_eq!(hits, vec![0usize; 26]);
        assert_eq!(tally(&s(text), &index), 0);
        assert_eq!(decipher_sentence(&s(text), &index), text);
    }
}

#[test]
fn sentence_without_a_match_decodes_with_shift_zero() {
    let index = index_of(&["THE", "CAT"]);
    assert_eq!(tally(&s("zzz qqq 123"), &index), 0);
    assert_eq!(decipher_sentence(&s("zzz qqq 123"), &index), "zzz qqq 123");
}

#[test]
fn tie_goes_to_the_lowest_shift() {
    let index = index_of(&["CHEER", "JOLLY"]);
    // "cheer" votes once for 0 and once for 7.
    assert_eq!(tally(&s("cheer"), &index), 0);
    // "jolly" votes once for 19 and once for 0.
    assert_eq!(tally(&s("jolly"), &index), 0);
    // "diffs" votes once for 25 and once for 6.
    assert_eq!(tally(&s("diffs"), &index), 6);
}

#[test]
fn lookup_hands_out_the_stored_vector() {
    let index = index_of(&["THE", "AND", "AT"]);
    assert_eq!(index.lookup(&s("THE")), Some(&vec![14, 23]));
    assert_eq!(index.lookup(&s("AND")), Some(&vec![13, 16]));
    assert_eq!(index.lookup(&s("AT")), Some(&vec![19]));
    assert_eq!(index.lookup(&s("the")), None);
    assert_eq!(index.lookup(&s("A")), None);
    assert_eq!(index.lookup(&s("ELEPHANT")), None);
}

#[test]
fn listable_looks_only_at_words_that_would_be_kept() {
    let words = |list: &[&str]| list.iter().map(|w| w.to_string()).collect::<Vec<String>>();
    assert!(listable(&words(&[])));
    assert!(listable(&words(&["THE", "cat", "I", "encyclopaedia"])));
    assert!(listable(&words(&["x-ray machine", "!", ""])));
    assert!(!listable(&words(&["THE", "it's"])));
    assert!(!listable(&words(&["a1"])));
}
