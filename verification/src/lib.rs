//! In-place quicksort over vectors of 32-bit integers, together with the
//! post-processing steps (duplicate removal and reversal) and the pure parts
//! of the command-line front end (argument classification, integer-list
//! parsing and output rendering).

pub mod cli;
pub mod parse;
pub mod post;
pub mod render;
pub mod sort;
