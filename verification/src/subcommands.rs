//! The commands of the program, and what each decides before it acts.

pub mod classify;
pub mod dump;
pub mod reuse;
pub mod syscheck;
