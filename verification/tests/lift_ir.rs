use specter_probe::lift::ir::{
    arm_op_ir, arm_op_short, emit_function, emit_ir, generate_ir, reg_name, sanitize, size_t, var,
};
use specter_probe::lift::types::{
    ArmOperand, BasicBlock, Cond, Function, InstKind, Instruction, MemAddr, Reg, Size,
};

fn insn(address: u64, mnemonic: &str, kind: InstKind) -> Instruction {
    Instruction { address, mnemonic: mnemonic.to_string(), kind }
}

#[test]
fn var_names_a_numbered_value() {
    assert_eq!(var(0), "%0");
    assert_eq!(var(1234), "%1234");
}

#[test]
fn reg_name_of_every_register_kind() {
    assert_eq!(reg_name(&Reg::X(3)), "%x3");
    assert_eq!(reg_name(&Reg::W(30)), "%w30");
    assert_eq!(reg_name(&Reg::R(7)), "%r7");
    assert_eq!(reg_name(&Reg::Sp), "%sp");
    assert_eq!(reg_name(&Reg::Fp), "%fp");
    assert_eq!(reg_name(&Reg::Lr), "%lr");
    assert_eq!(reg_name(&Reg::Xzr), "%xzr");
    assert_eq!(reg_name(&Reg::Wzr), "%wzr");
    assert_eq!(reg_name(&Reg::Pc), "%pc");
}

#[test]
fn size_t_of_every_width() {
    assert_eq!(size_t(&Size::B8), "i8");
    assert_eq!(size_t(&Size::B16), "i16");
    assert_eq!(size_t(&Size::B32), "i32");
    assert_eq!(size_t(&Size::B64), "i64");
    assert_eq!(size_t(&Size::B128), "i128");
}

#[test]
fn arm_op_ir_of_each_operand() {
    assert_eq!(arm_op_ir(&ArmOperand::Imm(-5), 3), ("-5".to_string(), 3));
    assert_eq!(arm_op_ir(&ArmOperand::Reg(Reg::X(2)), 3), ("%x2".to_string(), 3));
    let mem = ArmOperand::Mem(MemAddr { base: Reg::X(1), offset: 8 });
    assert_eq!(arm_op_ir(&mem, 3), ("%3 = inttoptr i64 %x1 to ptr".to_string(), 4));
    assert_eq!(arm_op_ir(&ArmOperand::ShiftedReg(Reg::X(4), 2), 9), ("0".to_string(), 9));
}

#[test]
fn arm_op_short_of_each_operand() {
    assert_eq!(arm_op_short(&ArmOperand::Imm(16)), "#16");
    assert_eq!(arm_op_short(&ArmOperand::Imm(-1)), "#-1");
    assert_eq!(arm_op_short(&ArmOperand::Reg(Reg::X(5))), "xx5");
    assert_eq!(arm_op_short(&ArmOperand::Reg(Reg::Sp)), "xsp");
    let mem = ArmOperand::Mem(MemAddr { base: Reg::X(1), offset: -8 });
    assert_eq!(arm_op_short(&mem), "[xx1, #-8]");
    assert_eq!(arm_op_short(&ArmOperand::ShiftedReg(Reg::X(4), 2)), "?");
}

#[test]
fn emit_ir_sub_with_immediate() {
    let i = insn(0, "sub", InstKind::Sub(Size::B64, Reg::Sp, Reg::Sp, ArmOperand::Imm(16)));
    assert_eq!(emit_ir(&i, 0), ("%0 = sub i64 %sp, 16".to_string(), 1));
}

#[test]
fn emit_ir_sub_with_memory_operand_uses_two_values() {
    let op = ArmOperand::Mem(MemAddr { base: Reg::X(1), offset: 0 });
    let i = insn(0, "sub", InstKind::Sub(Size::B64, Reg::X(0), Reg::X(0), op));
    assert_eq!(emit_ir(&i, 5), ("%6 = sub i64 %sp, %5 = inttoptr i64 %x1 to ptr".to_string(), 7));
}

#[test]
fn emit_ir_mov_and_cmp() {
    let m = insn(0, "mov", InstKind::Mov(Size::B64, Reg::X(0), ArmOperand::Imm(5)));
    assert_eq!(emit_ir(&m, 2), ("; mov #5".to_string(), 3));
    let c = insn(0, "cmp", InstKind::Cmp(Size::B32, Reg::W(1), ArmOperand::Reg(Reg::X(2))));
    assert_eq!(emit_ir(&c, 2), ("; cmp %w1 xx2".to_string(), 3));
}

#[test]
fn emit_ir_load_and_store() {
    let l = insn(0, "ldr", InstKind::Load(Size::B32, Reg::W(0), MemAddr { base: Reg::X(1), offset: 4 }));
    assert_eq!(emit_ir(&l, 2), ("%3 = load i32, %2 ; ldr %x1".to_string(), 4));
    let s = insn(0, "str", InstKind::Store(Size::B64, MemAddr { base: Reg::X(2), offset: 8 }, Reg::W(3)));
    assert_eq!(emit_ir(&s, 0), ("store i64 %w3, ptr %0 ; str %x2".to_string(), 2));
}

#[test]
fn emit_ir_pairs() {
    let sp = insn(0, "stp", InstKind::StorePair(Size::B64, MemAddr { base: Reg::Sp, offset: -16 }, Reg::Fp, Reg::Lr));
    assert_eq!(emit_ir(&sp, 0), ("; stp %fp %lr".to_string(), 1));
    let lp = insn(0, "ldp", InstKind::LoadPair(Size::B64, Reg::X(0), Reg::X(1), MemAddr { base: Reg::Sp, offset: 0 }));
    assert_eq!(emit_ir(&lp, 0), ("; ldp %x0 %x1 ; from [%sp]".to_string(), 1));
}

#[test]
fn emit_ir_adrp_and_branches() {
    let a = insn(0, "adrp", InstKind::Adrp(Reg::X(0), 0x9000_0000));
    assert_eq!(emit_ir(&a, 7), ("%7 = add i64 0, 2415919104".to_string(), 8));
    let b = insn(0, "b", InstKind::BranchAlways(0x1a2b));
    assert_eq!(emit_ir(&b, 0), ("br label %L1a2b".to_string(), 1));
    let bc = insn(0, "b.ne", InstKind::Branch(Cond::Ne, 0xff0));
    assert_eq!(emit_ir(&bc, 0), ("br label %Lff0".to_string(), 1));
    let cb = insn(0, "cbz", InstKind::CompareBranch(false, Reg::X(0), 0x40));
    assert_eq!(emit_ir(&cb, 0), ("br label %L40".to_string(), 1));
    let bl = insn(0, "bl", InstKind::BranchLink(0x400));
    assert_eq!(emit_ir(&bl, 0), ("call void @sub_400()".to_string(), 1));
}

#[test]
fn emit_ir_silent_and_commented_kinds() {
    let r = insn(0, "ret", InstKind::Ret(Reg::Lr));
    assert_eq!(emit_ir(&r, 4), (String::new(), 5));
    let n = insn(0, "nop", InstKind::Nop);
    assert_eq!(emit_ir(&n, 4), (String::new(), 5));
    let s = insn(0, "svc", InstKind::Svc(0));
    assert_eq!(emit_ir(&s, 4), ("; svc #0".to_string(), 5));
    let u = insn(0, "foo", InstKind::Unknown("foo x0".to_string()));
    assert_eq!(emit_ir(&u, 4), ("; unimplemented: foo x0".to_string(), 5));
    let add = insn(0, "add", InstKind::Add(Size::B64, Reg::X(0), Reg::X(0), ArmOperand::Imm(1)));
    assert_eq!(emit_ir(&add, 4), ("; add".to_string(), 5));
}

#[test]
fn sanitize_replaces_other_characters() {
    assert_eq!(sanitize("a-b"), "a_b");
    assert_eq!(sanitize("foo.bar$1"), "foo_bar_1");
    assert_eq!(sanitize("keep_this9"), "keep_this9");
    assert_eq!(sanitize("é"), "é");
    assert_eq!(sanitize(""), "");
}

#[test]
fn sanitize_twice_is_sanitize_once() {
    let once = sanitize("sub_4000@plt.1");
    assert_eq!(sanitize(&once), once);
}

fn two_block_function() -> Function {
    Function {
        name: "main.start".to_string(),
        address: 0x100,
        blocks: vec![
            BasicBlock {
                address: 0x100,
                instructions: vec![
                    insn(0x100, "sub", InstKind::Sub(Size::B64, Reg::Sp, Reg::Sp, ArmOperand::Imm(16))),
                    insn(0x104, "nop", InstKind::Nop),
                ],
            },
            BasicBlock {
                address: 0x108,
                instructions: vec![
                    insn(0x108, "svc", InstKind::Svc(1)),
                    insn(0x10c, "ret", InstKind::Ret(Reg::Lr)),
                ],
            },
        ],
    }
}

#[test]
fn emit_function_labels_blocks_by_position() {
    let ir = emit_function(&two_block_function());
    assert_eq!(
        ir,
        "define i64 @main_start() {\nL0:\n  %0 = sub i64 %sp, 16\nL1:\n  ; svc #1\n  ret i64 0\n}\n"
    );
}

#[test]
fn emit_function_blocks_at_one_address_share_the_last_label() {
    let f = Function {
        name: "f".to_string(),
        address: 0,
        blocks: vec![
            BasicBlock { address: 0x10, instructions: vec![] },
            BasicBlock { address: 0x10, instructions: vec![] },
        ],
    };
    assert_eq!(emit_function(&f), "define i64 @f() {\nL1:\nL1:\n  ret i64 0\n}\n");
}

#[test]
fn emit_function_numbers_values_across_blocks() {
    let f = Function {
        name: "g".to_string(),
        address: 0,
        blocks: vec![
            BasicBlock { address: 0, instructions: vec![insn(0, "nop", InstKind::Nop)] },
            BasicBlock {
                address: 4,
                instructions: vec![insn(4, "adrp", InstKind::Adrp(Reg::X(0), 0x1000))],
            },
        ],
    };
    assert_eq!(emit_function(&f), "define i64 @g() {\nL0:\nL1:\n  %1 = add i64 0, 4096\n  ret i64 0\n}\n");
}

const HEADER: &str = "; ModuleID = 'probe'\ntarget datalayout = \"e-m:e-i8:8:32-i16:16:32-i64:64-i128:128-n32:64-S128\"\ntarget triple = \"aarch64-unknown-linux-android\"\n\ndeclare void @putchar(i8)\ndeclare i64 @read()\ndeclare void @unimplemented()\n\n";

#[test]
fn generate_ir_of_no_functions_is_the_header() {
    assert_eq!(generate_ir(&[], "probe"), HEADER);
}

#[test]
fn generate_ir_appends_each_function_and_a_blank_line() {
    let f = two_block_function();
    let ir = generate_ir(&[f.clone(), f.clone()], "probe");
    let body = emit_function(&f);
    assert_eq!(ir, format!("{}{}\n{}\n", HEADER, body, body));
}

#[test]
fn distinct_block_addresses_get_distinct_labels() {
    let f = Function {
        name: "h".to_string(),
        address: 0,
        blocks: vec![
            BasicBlock { address: 0x20, instructions: vec![] },
            BasicBlock { address: 0x10, instructions: vec![] },
            BasicBlock { address: 0x20, instructions: vec![] },
        ],
    };
    assert_eq!(emit_function(&f), "define i64 @h() {\nL2:\nL1:\nL2:\n  ret i64 0\n}\n");
}

#[test]
fn sanitize_replaces_non_alphanumeric_unicode() {
    assert_eq!(sanitize("a€b"), "a_b");
    assert_eq!(sanitize("Ω9"), "Ω9");
}

#[test]
fn generate_ir_of_a_concatenation() {
    let a = vec![two_block_function()];
    let mut g = two_block_function();
    g.name = "second".to_string();
    let b = vec![g.clone(), g];
    let whole: Vec<Function> = a.iter().cloned().chain(b.iter().cloned()).collect();
    let header_len = generate_ir(&[], "m").len();
    let expected = format!("{}{}", generate_ir(&a, "m"), &generate_ir(&b, "m")[header_len..]);
    assert_eq!(generate_ir(&whole, "m"), expected);
}
