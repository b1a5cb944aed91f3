use rotx_solver::alphabet::{letter, letter_gap, letter_position, rotate_char};
use rotx_solver::distance::{all_letters, get_distance};
use rotx_solver::rotation::rot_decipher;
use rotx_solver::text::{chars_of, string_of};

fn s(text: &str) -> String {
    text.to_string()
}

#[test]
fn letters_are_recognised() {
    assert!(letter('a') && letter('z') && letter('A') && letter('Z'));
    assert!(!letter('@') && !letter('[') && !letter('`') && !letter('{'));
    assert!(!letter(' ') && !letter('5') && !letter('é'));
}

#[test]
fn positions_ignore_case() {
    assert_eq!(letter_position('a'), 0);
    assert_eq!(letter_position('A'), 0);
    assert_eq!(letter_position('z'), 25);
    assert_eq!(letter_position('Z'), 25);
    assert_eq!(letter_position('m'), 12);
}

#[test]
fn gap_counts_forward_and_wraps() {
    assert_eq!(letter_gap('a', 'd'), 3);
    assert_eq!(letter_gap('d', 'a'), 23);
    assert_eq!(letter_gap('z', 'a'), 1);
    assert_eq!(letter_gap('a', 'z'), 25);
    assert_eq!(letter_gap('q', 'q'), 0);
    assert_eq!(letter_gap('w', 'T'), 23);
}

#[test]
fn distance_vectors_of_known_words() {
    assert_eq!(get_distance(&s("AT")), vec![19]);
    assert_eq!(get_distance(&s("BE")), vec![3]);
    assert_eq!(get_distance(&s("AND")), vec![13, 16]);
    assert_eq!(get_distance(&s("THE")), vec![14, 23]);
}

#[test]
fn distance_vector_is_one_shorter_than_word() {
    assert_eq!(get_distance(&s("ab")).len(), 1);
    assert_eq!(get_distance(&s("abcdef")).len(), 5);
    assert_eq!(get_distance(&s("abcdefghij")), vec![1; 9]);
}

#[test]
fn distance_vector_ignores_case() {
    let upper = get_distance(&s("ZEBRA"));
    assert_eq!(get_distance(&s("zebra")), upper);
    assert_eq!(get_distance(&s("ZeBrA")), upper);
    assert_eq!(upper, vec![5, 23, 16, 9]);
}

#[test]
fn distance_vector_survives_every_shift() {
    for word in ["hello", "Zebra", "AT", "quiz", "MixedCase"] {
        let plain = get_distance(&s(word));
        for shift in 0u8..26 {
            let moved = rot_decipher(&s(word), shift);
            assert_eq!(get_distance(&moved), plain, "{} by {}", word, shift);
        }
    }
}

#[test]
fn all_letters_tells_words_from_other_text() {
    assert!(all_letters(&s("Hello")));
    assert!(all_letters(&s("")));
    assert!(!all_letters(&s("it's")));
    assert!(!all_letters(&s("a b")));
    assert!(!all_letters(&s("naïve")));
}

#[test]
fn decode_moves_letters_and_wraps() {
    assert_eq!(rot_decipher(&s("abc"), 3), "def");
    assert_eq!(rot_decipher(&s("xyz XYZ"), 3), "abc ABC");
    assert_eq!(rot_decipher(&s("Wkh fdw vdw."), 23), "The cat sat.");
    assert_eq!(rot_decipher(&s("NOP"), 13), "ABC");
}

#[test]
fn decode_by_nothing_is_identity() {
    for text in ["", "Hello, World!", "12345", "  spaced  out  ", "ünïcödé ok"] {
        assert_eq!(rot_decipher(&s(text), 0), text);
        assert_eq!(rot_decipher(&s(text), 26), text);
    }
}

#[test]
fn decode_round_trip() {
    for text in ["Hello, World!", "The quick brown fox, 42 times.", "", "zZ aA"] {
        for shift in 0u8..=26 {
            let there = rot_decipher(&s(text), shift);
            let back = rot_decipher(&there, 26 - shift);
            assert_eq!(back, text, "shift {}", shift);
        }
    }
}

#[test]
fn decode_keeps_everything_that_is_no_letter() {
    let text = "Hi! 1 + 1 = 2; ok? [yes] {no} @home `tick` ~ é";
    for shift in 0u8..26 {
        let out = rot_decipher(&s(text), shift);
        let before: Vec<char> = text.chars().collect();
        let after: Vec<char> = out.chars().collect();
        assert_eq!(before.len(), after.len());
        for i in 0..before.len() {
            if before[i].is_ascii_alphabetic() {
                assert!(after[i].is_ascii_alphabetic());
                assert_eq!(before[i].is_ascii_uppercase(), after[i].is_ascii_uppercase());
            } else {
                assert_eq!(before[i], after[i]);
            }
        }
    }
}

#[test]
fn decode_takes_any_shift_modulo_26() {
    assert_eq!(rot_decipher(&s("abc"), 27), "bcd");
    assert_eq!(rot_decipher(&s("abc"), 52), "abc");
    assert_eq!(rot_decipher(&s("Az"), 255), "Vu");
}

#[test]
fn rotate_char_keeps_case() {
    assert_eq!(rotate_char('a', 1), 'b');
    assert_eq!(rotate_char('Z', 1), 'A');
    assert_eq!(rotate_char('z', 25), 'y');
    assert_eq!(rotate_char('!', 7), '!');
}

#[test]
fn strings_and_characters_convert_both_ways() {
    let text = s("Wkh fdw, é!");
    let chars = chars_of(&text);
    assert_eq!(chars, vec!['W', 'k', 'h', ' ', 'f', 'd', 'w', ',', ' ', 'é', '!']);
    assert_eq!(string_of(&chars), text);
    assert_eq!(string_of(&Vec::new()), "");
    assert_eq!(chars_of(""), Vec::<char>::new());
}
