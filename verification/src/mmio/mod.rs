//! Discovery of memory-mapped I/O accesses in lifted code.

pub mod scanner;
pub mod types;
