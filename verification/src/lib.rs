//! Hexagonal six-in-a-row: the board, its rules, the game notation and its
//! reading, and the incremental position bookkeeping that the search engine
//! reads.

pub mod board;
pub mod candidates;
pub mod draws;
pub mod engine;
pub mod fxhash;
pub mod game_record;
pub mod hashing;
pub mod neighbours;
pub mod notation;
pub mod round_trip;
pub mod selection;
pub mod windows;
