//! Letters, their positions in the alphabet, and rotation of single characters.

use vstd::prelude::*;

verus! {

/// Whether `c` is one of `A`..`Z`.
pub open spec fn is_upper(c: char) -> bool {
    'A' <= c <= 'Z'
}

/// Whether `c` is one of `a`..`z`.
pub open spec fn is_lower(c: char) -> bool {
    'a' <= c <= 'z'
}

/// Whether `c` is an ASCII letter of either case.
pub open spec fn is_letter(c: char) -> bool {
    is_upper(c) || is_lower(c)
}

/// Position of a letter in the alphabet, `a` and `A` being 0 and `z` and `Z` being 25.
/// Characters that are no letters have no position; 0 stands for them.
pub open spec fn position(c: char) -> int {
    if is_upper(c) {
        c as int - 'A' as int
    } else if is_lower(c) {
        c as int - 'a' as int
    } else {
        0
    }
}

/// Circular forward distance from letter `from` to letter `to`.
pub open spec fn gap(from: char, to: char) -> int {
    (position(to) - position(from)) % 26
}

/// The character that stands `shift` places after `c` in the alphabet of its
/// own case, wrapping round; a character that is no letter stays as it is.
pub open spec fn rotated_char(c: char, shift: int) -> char {
    if is_upper(c) {
        ('A' as int + (position(c) + shift) % 26) as char
    } else if is_lower(c) {
        ('a' as int + (position(c) + shift) % 26) as char
    } else {
        c
    }
}

/// Tells whether `c` is an ASCII letter.
pub fn letter(c: char) -> (r: bool)
    ensures
        r == is_letter(c),
{
    ('A' <= c && c <= 'Z') || ('a' <= c && c <= 'z')
}

/// Position of the letter `c` in the alphabet, whatever its case.
pub fn letter_position(c: char) -> (p: u8)
    requires
        is_letter(c),
    ensures
        p == position(c),
        p < 26,
{
    let code: u32 = c as u32;
    if c <= 'Z' {
        (code - 'A' as u32) as u8
    } else {
        (code - 'a' as u32) as u8
    }
}

/// Circular forward distance between two letters: how far `to` lies after
/// `from`, counted round the alphabet.
pub fn letter_gap(from: char, to: char) -> (d: u8)
    requires
        is_letter(from),
        is_letter(to),
    ensures
        d == gap(from, to),
        d < 26,
{
    let a: u8 = letter_position(from);
    let b: u8 = letter_position(to);
    if b >= a {
        b - a
    } else {
        (26 - a) + b
    }
}

/// Rotates one character by `shift` places within its own case.
pub fn rotate_char(c: char, shift: u8) -> (r: char)
    ensures
        r == rotated_char(c, shift as int),
{
    if letter(c) {
        let code: u32 = c as u32;
        let base: u32 = if c <= 'Z' { 'A' as u32 } else { 'a' as u32 };
        let moved: u32 = base + (code - base + shift as u32) % 26;
        char_of(moved as u8)
    } else {
        c
    }
}

/// The character with the ASCII code `code`.
fn char_of(code: u8) -> (c: char)
    ensures
        c as int == code as int,
{
    code as char
}

} // verus!
