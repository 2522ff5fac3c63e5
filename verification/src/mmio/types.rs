//! Observed memory-mapped I/O accesses and the regions that group them.

use vstd::prelude::*;

verus! {

/// Direction of a memory access.
#[derive(Clone, Copy, Debug, PartialEq, Eq, Structural)]
pub enum AccessType {
    Read,
    Write,
}

/// One load or store whose absolute address could be resolved.
///
/// `confidence` is in percent.
#[derive(Clone, Debug)]
pub struct MmioAccess {
    pub address: u64,
    pub size: u8,
    pub access_type: AccessType,
    pub instruction_addr: u64,
    pub function_name: String,
    pub confidence: u8,
}

/// A peripheral's register window and the accesses that fall into it.
///
/// `confidence` is in percent.
#[derive(Clone, Debug)]
pub struct MmioRegion {
    pub base: u64,
    pub size: u64,
    pub accesses: Vec<MmioAccess>,
    pub classification: String,
    pub confidence: u8,
}

} // verus!
