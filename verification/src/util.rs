//! Choices made around the external tools.

pub mod mapping;
