//! Input location for puzzle programs, and the puzzle solvers themselves.
//!
//! Every puzzle reads one text file that lives under a root directory at
//! `<root>/data/<year>/day_<DD>/input_<part>.txt`. This crate builds that
//! path, decides which directory is the root, turns the text of each puzzle
//! into its two answers, and writes the lines that report them.
//!
//! Nothing here touches the environment or the file system: a caller asks
//! for the current directory, looks into directories and reads the file,
//! and hands what it found to the functions of this crate.

pub mod error;
pub mod number;
pub mod path;
pub mod report;
pub mod root;
pub mod text;
pub mod y2017;
pub mod y2025;
