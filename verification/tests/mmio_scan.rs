use std::collections::HashMap;

use specter_probe::lift::types::{
    ArmOperand, BasicBlock, Function, InstKind, Instruction, MemAddr, Reg, Size,
};
use specter_probe::mmio::scanner::{
    get_imm_op, get_reg_value, reg_key, resolve_addr, scan_functions, size_bytes,
    track_reg_defs, ASSUMED_SP, CONFIDENCE_TRACKED_BASE, CONFIDENCE_UNTRACKED_BASE,
    CONFIDENCE_ZERO_BASE,
};
use specter_probe::mmio::types::AccessType;

fn insn(address: u64, kind: InstKind) -> Instruction {
    Instruction { address, mnemonic: String::new(), kind }
}

fn func(name: &str, blocks: Vec<Vec<Instruction>>) -> Function {
    Function {
        name: name.to_string(),
        address: 0,
        blocks: blocks
            .into_iter()
            .enumerate()
            .map(|(i, instructions)| BasicBlock { address: i as u64 * 0x100, instructions })
            .collect(),
    }
}

fn mem(base: Reg, offset: i64) -> MemAddr {
    MemAddr { base, offset }
}

#[test]
fn size_bytes_of_each_width() {
    assert_eq!(size_bytes(Size::B8), 1);
    assert_eq!(size_bytes(Size::B16), 2);
    assert_eq!(size_bytes(Size::B32), 4);
    assert_eq!(size_bytes(Size::B64), 8);
    assert_eq!(size_bytes(Size::B128), 16);
}

#[test]
fn reg_key_tells_registers_apart() {
    let regs = [
        Reg::X(0), Reg::X(5), Reg::W(5), Reg::R(5), Reg::Sp, Reg::Fp, Reg::Lr, Reg::Xzr,
        Reg::Wzr, Reg::Pc, Reg::X(255), Reg::W(255), Reg::R(255),
    ];
    for (i, a) in regs.iter().enumerate() {
        for (j, b) in regs.iter().enumerate() {
            assert_eq!(reg_key(a) == reg_key(b), i == j);
        }
    }
}

#[test]
fn get_imm_op_of_each_operand() {
    assert_eq!(get_imm_op(&ArmOperand::Imm(42)), Some(42));
    assert_eq!(get_imm_op(&ArmOperand::Imm(-1)), Some(u64::MAX));
    assert_eq!(get_imm_op(&ArmOperand::Reg(Reg::Xzr)), Some(0));
    assert_eq!(get_imm_op(&ArmOperand::Reg(Reg::Wzr)), Some(0));
    assert_eq!(get_imm_op(&ArmOperand::Reg(Reg::X(1))), None);
    assert_eq!(get_imm_op(&ArmOperand::Mem(mem(Reg::X(1), 0))), None);
    assert_eq!(get_imm_op(&ArmOperand::ShiftedReg(Reg::Xzr, 1)), None);
}

#[test]
fn get_reg_value_of_special_and_tracked_registers() {
    let mut m = HashMap::new();
    m.insert(reg_key(&Reg::X(3)), 0x1234u64);
    assert_eq!(get_reg_value(&Reg::Xzr, &m), Some(0));
    assert_eq!(get_reg_value(&Reg::Wzr, &m), Some(0));
    assert_eq!(get_reg_value(&Reg::Sp, &m), Some(ASSUMED_SP));
    assert_eq!(ASSUMED_SP, 0xffff_ffff_ffff_e000);
    assert_eq!(get_reg_value(&Reg::X(3), &m), Some(0x1234));
    assert_eq!(get_reg_value(&Reg::W(3), &m), None);
    assert_eq!(get_reg_value(&Reg::Fp, &m), None);
}

#[test]
fn resolve_addr_of_each_base() {
    let mut m = HashMap::new();
    m.insert(reg_key(&Reg::X(1)), 0x9000_0000u64);
    m.insert(reg_key(&Reg::Sp), 0x10u64);
    assert_eq!(resolve_addr(&Reg::Xzr, 0x40, &m), Some(0x40));
    assert_eq!(resolve_addr(&Reg::Wzr, -1, &m), Some(u64::MAX));
    assert_eq!(resolve_addr(&Reg::Sp, 8, &m), None);
    assert_eq!(resolve_addr(&Reg::Fp, 8, &m), None);
    assert_eq!(resolve_addr(&Reg::X(1), 0x10, &m), Some(0x9000_0010));
    assert_eq!(resolve_addr(&Reg::X(1), -0x10, &m), Some(0x8fff_fff0));
    assert_eq!(resolve_addr(&Reg::X(2), 0, &m), None);
}

#[test]
fn resolve_addr_wraps_past_the_top() {
    let mut m = HashMap::new();
    m.insert(reg_key(&Reg::X(0)), u64::MAX);
    assert_eq!(resolve_addr(&Reg::X(0), 2, &m), Some(1));
}

#[test]
fn track_reg_defs_records_constants() {
    let mut m = HashMap::new();
    track_reg_defs(&insn(0, InstKind::Adrp(Reg::X(0), 0x9000_0000)), &mut m);
    assert_eq!(m.get(&reg_key(&Reg::X(0))), Some(&0x9000_0000));
    track_reg_defs(&insn(4, InstKind::Add(Size::B64, Reg::X(1), Reg::X(0), ArmOperand::Imm(0x20))), &mut m);
    assert_eq!(m.get(&reg_key(&Reg::X(1))), Some(&0x9000_0020));
    track_reg_defs(&insn(8, InstKind::Sub(Size::B64, Reg::X(2), Reg::X(1), ArmOperand::Imm(0x30))), &mut m);
    assert_eq!(m.get(&reg_key(&Reg::X(2))), Some(&0x8fff_fff0));
    track_reg_defs(&insn(12, InstKind::Mov(Size::B64, Reg::W(4), ArmOperand::Imm(7))), &mut m);
    assert_eq!(m.get(&reg_key(&Reg::W(4))), Some(&7));
    track_reg_defs(&insn(16, InstKind::Mov(Size::B64, Reg::X(5), ArmOperand::Reg(Reg::Wzr))), &mut m);
    assert_eq!(m.get(&reg_key(&Reg::X(5))), Some(&0));
    assert_eq!(m.len(), 5);
}

#[test]
fn track_reg_defs_leaves_unknown_values_alone() {
    let mut m = HashMap::new();
    track_reg_defs(&insn(0, InstKind::Add(Size::B64, Reg::X(1), Reg::X(0), ArmOperand::Imm(1))), &mut m);
    track_reg_defs(&insn(4, InstKind::Mov(Size::B64, Reg::X(1), ArmOperand::Reg(Reg::X(2)))), &mut m);
    track_reg_defs(&insn(8, InstKind::Nop), &mut m);
    track_reg_defs(&insn(12, InstKind::Load(Size::B64, Reg::X(3), mem(Reg::Xzr, 0))), &mut m);
    assert!(m.is_empty());
}

#[test]
fn track_reg_defs_wraps_and_uses_the_assumed_stack() {
    let mut m = HashMap::new();
    track_reg_defs(&insn(0, InstKind::Sub(Size::B64, Reg::X(0), Reg::Xzr, ArmOperand::Imm(1))), &mut m);
    assert_eq!(m.get(&reg_key(&Reg::X(0))), Some(&u64::MAX));
    track_reg_defs(&insn(4, InstKind::Add(Size::B64, Reg::X(1), Reg::Sp, ArmOperand::Imm(0x10))), &mut m);
    assert_eq!(m.get(&reg_key(&Reg::X(1))), Some(&0xffff_ffff_ffff_e010));
    track_reg_defs(&insn(8, InstKind::Add(Size::B64, Reg::X(2), Reg::X(0), ArmOperand::Imm(2))), &mut m);
    assert_eq!(m.get(&reg_key(&Reg::X(2))), Some(&1));
}

#[test]
fn scan_finds_a_load_through_an_adrp_base() {
    let f = func("uart_init", vec![vec![
        insn(0x1000, InstKind::Adrp(Reg::X(0), 0x0900_0000)),
        insn(0x1004, InstKind::Load(Size::B32, Reg::W(1), mem(Reg::X(0), 0x18))),
    ]]);
    let acc = scan_functions(&[f]);
    assert_eq!(acc.len(), 1);
    assert_eq!(acc[0].address, 0x0900_0018);
    assert_eq!(acc[0].size, 4);
    assert_eq!(acc[0].access_type, AccessType::Read);
    assert_eq!(acc[0].instruction_addr, 0x1004);
    assert_eq!(acc[0].function_name, "uart_init");
    assert_eq!(acc[0].confidence, CONFIDENCE_TRACKED_BASE);
    assert_eq!(CONFIDENCE_TRACKED_BASE, 70);
}

#[test]
fn scan_finds_a_store_through_the_zero_register() {
    let f = func("poke", vec![vec![
        insn(0x20, InstKind::Store(Size::B8, mem(Reg::Xzr, 0x40), Reg::W(1))),
    ]]);
    let acc = scan_functions(&[f]);
    assert_eq!(acc.len(), 1);
    assert_eq!(acc[0].address, 0x40);
    assert_eq!(acc[0].size, 1);
    assert_eq!(acc[0].access_type, AccessType::Write);
    assert_eq!(acc[0].confidence, CONFIDENCE_ZERO_BASE);
    assert_eq!(CONFIDENCE_ZERO_BASE, 90);
    assert_eq!(CONFIDENCE_UNTRACKED_BASE, 40);
}

#[test]
fn scan_skips_stack_frame_and_unknown_bases() {
    let f = func("locals", vec![vec![
        insn(0, InstKind::Store(Size::B64, mem(Reg::Sp, 8), Reg::X(0))),
        insn(4, InstKind::Load(Size::B64, Reg::X(0), mem(Reg::Fp, -8))),
        insn(8, InstKind::Load(Size::B64, Reg::X(0), mem(Reg::X(9), 0))),
        insn(12, InstKind::StorePair(Size::B64, mem(Reg::Xzr, 0), Reg::X(0), Reg::X(1))),
    ]]);
    assert!(scan_functions(&[f]).is_empty());
}

#[test]
fn scan_forgets_values_at_each_block() {
    let f = func("two_blocks", vec![
        vec![
            insn(0, InstKind::Mov(Size::B64, Reg::X(0), ArmOperand::Imm(0x5000))),
            insn(4, InstKind::Store(Size::B32, mem(Reg::X(0), 4), Reg::W(1))),
        ],
        vec![insn(8, InstKind::Store(Size::B32, mem(Reg::X(0), 4), Reg::W(1)))],
    ]);
    let acc = scan_functions(&[f]);
    assert_eq!(acc.len(), 1);
    assert_eq!(acc[0].address, 0x5004);
    assert_eq!(acc[0].instruction_addr, 4);
}

#[test]
fn scan_keeps_function_order() {
    let a = func("a", vec![vec![insn(0x10, InstKind::Load(Size::B16, Reg::W(0), mem(Reg::Wzr, 2)))]]);
    let b = func("b", vec![vec![insn(0x08, InstKind::Load(Size::B64, Reg::X(0), mem(Reg::Xzr, 8)))]]);
    let acc = scan_functions(&[a, b]);
    assert_eq!(acc.len(), 2);
    assert_eq!(acc[0].function_name, "a");
    assert_eq!(acc[0].size, 2);
    assert_eq!(acc[1].function_name, "b");
    assert_eq!(acc[1].address, 8);
}

#[test]
fn scanning_two_lists_is_scanning_their_concatenation() {
    let a = func("a", vec![vec![
        insn(0, InstKind::Adrp(Reg::X(0), 0x1000)),
        insn(4, InstKind::Store(Size::B32, mem(Reg::X(0), 0), Reg::W(1))),
    ]]);
    let b = func("b", vec![vec![insn(8, InstKind::Load(Size::B8, Reg::W(0), mem(Reg::Xzr, 3)))]]);
    let both = scan_functions(&[a.clone(), b.clone()]);
    let mut parts = scan_functions(&[a]);
    parts.extend(scan_functions(&[b]));
    assert_eq!(both.len(), parts.len());
    for (x, y) in both.iter().zip(parts.iter()) {
        assert_eq!(x.address, y.address);
        assert_eq!(x.function_name, y.function_name);
        assert_eq!(x.instruction_addr, y.instruction_addr);
    }
}

#[test]
fn reported_accesses_never_have_the_lowest_confidence() {
    let f = func("mixed", vec![vec![
        insn(0, InstKind::Load(Size::B32, Reg::W(0), mem(Reg::X(7), 0))),
        insn(4, InstKind::Mov(Size::B64, Reg::X(7), ArmOperand::Imm(0x100))),
        insn(8, InstKind::Load(Size::B32, Reg::W(0), mem(Reg::X(7), 4))),
        insn(12, InstKind::Store(Size::B32, mem(Reg::Wzr, 0x10), Reg::W(0))),
    ]]);
    let acc = scan_functions(&[f]);
    let seen: Vec<(u64, u8)> = acc.iter().map(|a| (a.address, a.confidence)).collect();
    assert_eq!(seen, vec![(0x104, CONFIDENCE_TRACKED_BASE), (0x10, CONFIDENCE_ZERO_BASE)]);
    assert!(acc.iter().all(|a| a.confidence != CONFIDENCE_UNTRACKED_BASE));
}
