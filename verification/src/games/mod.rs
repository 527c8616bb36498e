//! The three games of the machine.

pub mod base;
pub mod bonus;
pub mod feature;
