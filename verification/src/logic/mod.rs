//! Partitioning of supplies across commodities and generation of multi-commodity data.

pub mod assembly;
pub mod generator;
pub mod sums;
