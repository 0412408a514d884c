//! A verified core for a terminal word-guessing game.
//!
//! The library owns the game's logic: filtering a corpus into a word list,
//! choosing a target word, scoring a guess letter by letter (with correct
//! handling of repeated letters), and stepping the game state one accepted
//! guess at a time. Reading input and rendering colored output live outside
//! the library.

pub mod evaluate;
pub mod game;
pub mod words;
