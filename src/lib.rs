//! Picks one file, uniformly at random, among the entries of a directory
//! tree whose extension belongs to a filter, in a single pass.

pub mod extension;
pub mod random;
pub mod reservoir;
pub mod walk;
