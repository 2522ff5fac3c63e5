//! Register, access-sequence and state-machine models of a peripheral.

use vstd::prelude::*;

verus! {

/// Direction of a register access.
#[derive(Clone, Copy, Debug, PartialEq, Eq, Structural)]
pub enum AccessType {
    Read,
    Write,
}

/// A group of adjacent register bits that were seen to change together.
#[derive(Clone, Debug)]
pub struct Bitfield {
    /// Lowest bit of the field.
    pub offset: u8,
    /// Number of bits in the field.
    pub width: u8,
    pub name: Option<String>,
    /// Distinct values seen in the field, each with a generated label.
    pub values: Vec<(u64, String)>,
    /// The field's mask, shifted down to bit zero.
    pub observed_mask: u64,
}

/// One register of a peripheral and what was seen of it.
#[derive(Clone, Debug)]
pub struct RegisterModel {
    /// Byte offset from the peripheral's base.
    pub offset: u32,
    pub name: Option<String>,
    /// Direction of the first access seen.
    pub access: AccessType,
    /// Size in bytes of the first access seen.
    pub width: u8,
    pub observed_writes: Vec<u64>,
    pub observed_reads: Vec<u64>,
    pub bitfields: Vec<Bitfield>,
    /// Whether the register looks like a status register that is polled.
    pub polling: bool,
    /// Number of accesses seen.
    pub count: usize,
    pub purpose: Option<String>,
}

/// One access within a function's access sequence.
#[derive(Clone, Copy, Debug)]
pub struct SequencedAccess {
    pub offset: u32,
    pub access_type: AccessType,
    pub value: Option<u64>,
    pub instruction_addr: u64,
}

/// The accesses that one function makes to a peripheral, in address order.
#[derive(Clone, Debug)]
pub struct AccessSequence {
    pub function: String,
    pub accesses: Vec<SequencedAccess>,
}

/// What causes a state transition.
#[derive(Clone, Debug)]
pub struct Trigger {
    pub kind: String,
    pub register_offset: Option<u32>,
    pub value: Option<u64>,
}

/// A transition between two named states.
#[derive(Clone, Debug)]
pub struct Transition {
    pub from: String,
    pub to: String,
    pub trigger: Trigger,
}

/// A coarse state machine of a peripheral's driver.
#[derive(Clone, Debug)]
pub struct StateMachine {
    pub states: Vec<String>,
    pub transitions: Vec<Transition>,
}

/// Everything inferred about one peripheral.
///
/// `confidence` is in percent.
#[derive(Clone, Debug)]
pub struct DeviceModel {
    pub base: u64,
    pub name: String,
    pub classification: String,
    pub registers: Vec<RegisterModel>,
    pub state_machine: Option<StateMachine>,
    pub init_sequence: Vec<String>,
    pub sequences: Vec<AccessSequence>,
    pub confidence: u8,
}

} // verus!
