//! Running checkers and aggregating their results: per-package statistics
//! and the per-package collection of cached outputs.

pub mod analysis;
pub mod packages_outputs;

