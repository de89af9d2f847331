//! Classification of candidate loci as nuclear insertions of mitochondrial
//! origin or the reverse, from reciprocal alignment hits and read evidence.

pub mod decimal;
pub mod fixed;
pub mod io;
pub mod model;
pub mod scoring;
pub mod subcommands;
pub mod summary;
pub mod text;
pub mod util;
