//! The four algorithms.

pub mod bubble;
pub mod insertion;
pub mod quick;
pub mod selection;
