//! Hardware description taken from a flattened device tree.

pub mod dtb;
pub mod types;
