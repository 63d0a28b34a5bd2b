//! Bounded two-dimensional grid puzzles: a grid with total lookup, a patrolling
//! walker, a trail scorer, a word-search matcher and an antenna projector, plus
//! the small list and text puzzles that go with them.
pub mod grid;
pub mod text;
pub mod antenna;
pub mod word_search;
pub mod patrol;
pub mod trail;
pub mod calibration;
pub mod number;
pub mod reports;
pub mod instructions;
pub mod rules;
pub mod disk;
pub mod lists;
