//! Parsing, encoding and ranking of shared Wordle results.

pub mod text;
pub mod tile;
pub mod error;
pub mod board;
pub mod puzzle;
pub mod date;
pub mod ranking;
pub mod daily;
pub mod submission;
pub mod announce;
