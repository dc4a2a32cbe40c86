//! The puzzles of the year 2025.

pub mod day_01;
pub mod day_02;
pub mod day_03;
pub mod day_05;
