//! Averaging and differencing of folded-stack profiles.

pub mod folded;
pub mod average;
pub mod rename;
pub mod differ;
