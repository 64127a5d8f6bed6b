//! Fundamental mathematical operations.

pub mod derivative;
