//! Finds the words of a word list on a square board of letters: each word is
//! spelled along cells that touch, side by side or corner to corner, and
//! uses no cell twice.

pub mod notation;
pub mod board;
pub mod wordset;
pub mod dictionary;
pub mod search;
pub mod ranking;
pub mod solver;
