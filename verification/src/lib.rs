//! The sliding-tile game Threes on a board of four by four cells.
//!
//! The board is one `u64`, four bits to a cell; a cell holds the code of its
//! tile (`tile`). A swipe slides each of the four lines of its direction by
//! the same rule (`line`), which the game looks up in tables that are built
//! once (`table`) and puts together again (`grid`, `bitboard`). After a swipe
//! that changed the board a card is dealt from a shuffled bag (`dealer`).
//! The same game on plain face values, cell by cell (`faces`, `gridwork`,
//! `game`), stands beside it for comparison.
//!
//! What is left to other crates, and believed of them rather than proved,
//! is in `chance` (the `rand` crate) and `facegrid` (the `ndarray` crate).

pub mod bits;
pub mod tile;
pub mod line;
pub mod grid;
pub mod table;
pub mod chance;
pub mod dealer;
pub mod score;
pub mod text;
pub mod bitboard;
pub mod facegrid;
pub mod faces;
pub mod gridwork;
pub mod game;
