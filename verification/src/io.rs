//! Readers of the text that the aligner and the alignment store hand over,
//! and checks on the input files.

pub mod bam;
pub mod paf;
pub mod runfiles;
