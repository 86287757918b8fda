//! The capture of tokens at a fixed set of kinds.

pub mod capture;
