//! Firmware analysis core: instruction scanning for memory-mapped I/O,
//! device behaviour modelling, textual IR emission and device-tree walking.

pub mod text;
pub mod lift;
pub mod mmio;
pub mod behavior;
pub mod acquisition;
