//! The puzzles of the year 2017.

pub mod day_01;
pub mod day_02;
pub mod day_03;
