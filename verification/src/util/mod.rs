//! Utilities for working with lists of events.

pub mod edit_map;
pub mod skip;
