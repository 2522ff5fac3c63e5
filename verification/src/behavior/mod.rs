//! Behavioural models of peripherals built from their observed register accesses.

pub mod analyzer;
pub mod types;
