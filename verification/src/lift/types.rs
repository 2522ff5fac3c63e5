//! Decoded AArch64 code: registers, operands, instructions, blocks, functions.

use vstd::prelude::*;

verus! {

/// A general-purpose or special register.
#[derive(Clone, Copy, Debug, PartialEq, Eq, Structural)]
pub enum Reg {
    X(u8),
    W(u8),
    R(u8),
    Sp,
    Fp,
    Lr,
    Xzr,
    Wzr,
    Pc,
}

/// Width of a memory access or operation.
#[derive(Clone, Copy, Debug, PartialEq, Eq, Structural)]
pub enum Size {
    B8,
    B16,
    B32,
    B64,
    B128,
}

/// A base register plus a signed byte offset.
#[derive(Clone, Copy, Debug, PartialEq, Eq, Structural)]
pub struct MemAddr {
    pub base: Reg,
    pub offset: i64,
}

/// A second operand of a data-processing instruction.
#[derive(Clone, Copy, Debug, PartialEq, Eq, Structural)]
pub enum ArmOperand {
    Imm(i64),
    Reg(Reg),
    Mem(MemAddr),
    /// A register shifted left by a constant amount.
    ShiftedReg(Reg, u8),
}

/// Condition codes of conditional branches.
#[derive(Clone, Copy, Debug, PartialEq, Eq, Structural)]
pub enum Cond {
    Eq,
    Ne,
    Cs,
    Cc,
    Mi,
    Pl,
    Vs,
    Vc,
    Hi,
    Ls,
    Ge,
    Lt,
    Gt,
    Le,
    Al,
}

/// What an instruction does.
#[derive(Clone, Debug)]
pub enum InstKind {
    Add(Size, Reg, Reg, ArmOperand),
    Sub(Size, Reg, Reg, ArmOperand),
    Mov(Size, Reg, ArmOperand),
    Cmp(Size, Reg, ArmOperand),
    /// Load into the register from the address.
    Load(Size, Reg, MemAddr),
    /// Store the register to the address.
    Store(Size, MemAddr, Reg),
    LoadPair(Size, Reg, Reg, MemAddr),
    StorePair(Size, MemAddr, Reg, Reg),
    /// Page address into the register.
    Adrp(Reg, u64),
    BranchAlways(u64),
    Branch(Cond, u64),
    /// Compare with zero and branch (`true` branches on non-zero).
    CompareBranch(bool, Reg, u64),
    BranchLink(u64),
    Ret(Reg),
    Svc(u16),
    Nop,
    Unknown(String),
}

/// One decoded instruction.
#[derive(Clone, Debug)]
pub struct Instruction {
    pub address: u64,
    pub mnemonic: String,
    pub kind: InstKind,
}

/// A straight-line run of instructions.
#[derive(Clone, Debug)]
pub struct BasicBlock {
    pub address: u64,
    pub instructions: Vec<Instruction>,
}

/// A lifted function.
#[derive(Clone, Debug)]
pub struct Function {
    pub name: String,
    pub address: u64,
    pub blocks: Vec<BasicBlock>,
}

} // verus!
