//! The lifted instruction model and its rendering as LLVM-style IR text.

pub mod ir;
pub mod types;
