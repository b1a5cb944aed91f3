//! Recovers the shift of a rotation cipher from a word list, and undoes it.
//!
//! Words are compared through their *distance vectors*: the circular forward
//! distances between neighbouring letters, which no uniform shift changes.
//! A sentence votes on the shift that turns its words into listed words, and
//! is then decoded with the shift that gathered the most votes.

pub mod alphabet;
pub mod text;
pub mod distance;
pub mod rotation;
pub mod dictionary;
pub mod matcher;
pub mod sentence;
