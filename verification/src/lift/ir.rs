//! Rendering of lifted functions as LLVM-style IR text.

use std::collections::HashMap;
use vstd::prelude::*;
use vstd::string::StringExecFns;

use crate::lift::types::{ArmOperand, BasicBlock, Function, InstKind, Instruction, Reg, Size};
use crate::text::{
    char_alphanumeric, dec, hex, hex_renders_value, hex_value, is_hex_numeral, is_alphanumeric, push_char, push_dec, push_hex, push_sdec,
    push_str, replace_char, replace_char_in, sdec,
};
use vstd::string::StrSliceExecFns;

verus! {

broadcast use vstd::std_specs::hash::group_hash_axioms;

/// The name of an IR value numbered `c`.
pub open spec fn spec_var(c: u64) -> Seq<char> {
    "%"@ + dec(c as nat)
}

/// The IR name of a register.
pub open spec fn spec_reg_name(r: Reg) -> Seq<char> {
    match r {
        Reg::X(n) => "%x"@ + dec(n as nat),
        Reg::W(n) => "%w"@ + dec(n as nat),
        Reg::R(n) => "%r"@ + dec(n as nat),
        Reg::Sp => "%sp"@,
        Reg::Fp => "%fp"@,
        Reg::Lr => "%lr"@,
        Reg::Xzr => "%xzr"@,
        Reg::Wzr => "%wzr"@,
        Reg::Pc => "%pc"@,
    }
}

/// The IR integer type of an access width.
pub open spec fn spec_size_t(s: Size) -> Seq<char> {
    match s {
        Size::B8 => "i8"@,
        Size::B16 => "i16"@,
        Size::B32 => "i32"@,
        Size::B64 => "i64"@,
        Size::B128 => "i128"@,
    }
}

/// An operand as IR text, with the next free value number.
pub open spec fn spec_arm_op_ir(op: ArmOperand, v: u64) -> (Seq<char>, u64) {
    match op {
        ArmOperand::Imm(val) => (sdec(val as int), v),
        ArmOperand::Reg(r) => (spec_reg_name(r), v),
        ArmOperand::Mem(addr) => (
            spec_var(v) + " = inttoptr i64 "@ + spec_reg_name(addr.base) + " to ptr"@,
            (v + 1) as u64,
        ),
        _ => ("0"@, v),
    }
}

/// An operand in short assembler-like form, with `%` in register names turned into `x`.
pub open spec fn spec_arm_op_short(op: ArmOperand) -> Seq<char> {
    match op {
        ArmOperand::Imm(val) => "#"@ + sdec(val as int),
        ArmOperand::Reg(r) => replace_char(spec_reg_name(r), '%', 'x'),
        ArmOperand::Mem(addr) => "["@ + replace_char(spec_reg_name(addr.base), '%', 'x') + ", #"@
            + sdec(addr.offset as int) + "]"@,
        _ => "?"@,
    }
}

/// The IR line for an instruction (empty for none) and the next free value number.
pub open spec fn spec_emit_ir(insn: Instruction, v: u64) -> (Seq<char>, u64) {
    match insn.kind {
        InstKind::Sub(_, _, _, op2) => {
            let (s, nc) = spec_arm_op_ir(op2, v);
            (spec_var(nc) + " = sub i64 %sp, "@ + s, (nc + 1) as u64)
        },
        InstKind::Mov(_, _, src) => ("; mov "@ + spec_arm_op_short(src), (v + 1) as u64),
        InstKind::Cmp(_, r, op2) => (
            "; cmp "@ + spec_reg_name(r) + " "@ + spec_arm_op_short(op2),
            (v + 1) as u64,
        ),
        InstKind::Load(sz, _, addr) => (
            spec_var((v + 1) as u64) + " = load "@ + spec_size_t(sz) + ", "@ + spec_var(v) + " ; ldr "@
                + spec_reg_name(addr.base),
            (v + 2) as u64,
        ),
        InstKind::Store(sz, addr, val) => (
            "store "@ + spec_size_t(sz) + " "@ + spec_reg_name(val) + ", ptr "@ + spec_var(v)
                + " ; str "@ + spec_reg_name(addr.base),
            (v + 2) as u64,
        ),
        InstKind::StorePair(_, _, r1, r2) => (
            "; stp "@ + spec_reg_name(r1) + " "@ + spec_reg_name(r2),
            (v + 1) as u64,
        ),
        InstKind::LoadPair(_, r1, r2, addr) => (
            "; ldp "@ + spec_reg_name(r1) + " "@ + spec_reg_name(r2) + " ; from ["@ + spec_reg_name(
                addr.base,
            ) + "]"@,
            (v + 1) as u64,
        ),
        InstKind::Adrp(_, page) => (spec_var(v) + " = add i64 0, "@ + dec(page as nat), (v + 1) as u64),
        InstKind::BranchAlways(target) => ("br label %L"@ + hex(target as nat), (v + 1) as u64),
        InstKind::Branch(_, target) => ("br label %L"@ + hex(target as nat), (v + 1) as u64),
        InstKind::CompareBranch(_, _, target) => ("br label %L"@ + hex(target as nat), (v + 1) as u64),
        InstKind::BranchLink(target) => (
            "call void @sub_"@ + hex(target as nat) + "()"@,
            (v + 1) as u64,
        ),
        InstKind::Ret(_) => (Seq::empty(), (v + 1) as u64),
        InstKind::Svc(n) => ("; svc #"@ + dec(n as nat), (v + 1) as u64),
        InstKind::Nop => (Seq::empty(), (v + 1) as u64),
        InstKind::Unknown(s) => ("; unimplemented: "@ + s@, (v + 1) as u64),
        _ => ("; "@ + insn.mnemonic@, (v + 1) as u64),
    }
}

/// The name of an IR value numbered `c`.
pub fn var(c: u64) -> (s: String)
    ensures
        s@ == spec_var(c),
{
    let mut s = String::new();
    push_str(&mut s, "%");
    push_dec(&mut s, c);
    s
}

/// The IR name of a register.
pub fn reg_name(r: &Reg) -> (s: String)
    ensures
        s@ == spec_reg_name(*r),
{
    match r {
        Reg::X(n) => {
            let mut s = String::from_str("%x");
            push_dec(&mut s, *n as u64);
            s
        },
        Reg::W(n) => {
            let mut s = String::from_str("%w");
            push_dec(&mut s, *n as u64);
            s
        },
        Reg::R(n) => {
            let mut s = String::from_str("%r");
            push_dec(&mut s, *n as u64);
            s
        },
        Reg::Sp => String::from_str("%sp"),
        Reg::Fp => String::from_str("%fp"),
        Reg::Lr => String::from_str("%lr"),
        Reg::Xzr => String::from_str("%xzr"),
        Reg::Wzr => String::from_str("%wzr"),
        Reg::Pc => String::from_str("%pc"),
    }
}

/// The IR integer type of an access width.
pub fn size_t(s: &Size) -> (t: &'static str)
    ensures
        t@ == spec_size_t(*s),
{
    match s {
        Size::B8 => "i8",
        Size::B16 => "i16",
        Size::B32 => "i32",
        Size::B64 => "i64",
        Size::B128 => "i128",
    }
}

/// An operand as IR text; a memory operand takes a fresh value number.
pub fn arm_op_ir(op: &ArmOperand, v: u64) -> (r: (String, u64))
    requires
        *op is Mem ==> v < u64::MAX,
    ensures
        (r.0@, r.1) == spec_arm_op_ir(*op, v),
{
    match op {
        ArmOperand::Imm(val) => {
            let mut s = String::new();
            push_sdec(&mut s, *val);
            (s, v)
        },
        ArmOperand::Reg(r) => (reg_name(r), v),
        ArmOperand::Mem(addr) => {
            let mut s = var(v);
            push_str(&mut s, " = inttoptr i64 ");
            let b = reg_name(&addr.base);
            push_str(&mut s, b.as_str());
            push_str(&mut s, " to ptr");
            (s, v + 1)
        },
        _ => (String::from_str("0"), v),
    }
}

/// An operand in short assembler-like form.
pub fn arm_op_short(op: &ArmOperand) -> (s: String)
    ensures
        s@ == spec_arm_op_short(*op),
{
    match op {
        ArmOperand::Imm(val) => {
            let mut s = String::from_str("#");
            push_sdec(&mut s, *val);
            s
        },
        ArmOperand::Reg(r) => {
            let n = reg_name(r);
            replace_char_in(n.as_str(), '%', 'x')
        },
        ArmOperand::Mem(addr) => {
            let mut s = String::from_str("[");
            let n = reg_name(&addr.base);
            let short = replace_char_in(n.as_str(), '%', 'x');
            push_str(&mut s, short.as_str());
            push_str(&mut s, ", #");
            push_sdec(&mut s, addr.offset);
            push_str(&mut s, "]");
            s
        },
        _ => String::from_str("?"),
    }
}

fn push_reg_name(s: &mut String, r: &Reg)
    ensures
        final(s)@ == old(s)@ + spec_reg_name(*r),
{
    let n = reg_name(r);
    push_str(s, n.as_str());
}

/// The IR line for one instruction (empty for `ret` and `nop`) and the next
/// free value number.
pub fn emit_ir(insn: &Instruction, v: u64) -> (r: (String, u64))
    requires
        v <= u64::MAX - 2,
    ensures
        (r.0@, r.1) == spec_emit_ir(*insn, v),
        v < r.1 <= v + 2,
{
    let c = v;
    match &insn.kind {
        InstKind::Sub(_, _, _, op2) => {
            let (s, nc) = arm_op_ir(op2, c);
            let mut line = var(nc);
            push_str(&mut line, " = sub i64 %sp, ");
            push_str(&mut line, s.as_str());
            (line, nc + 1)
        },
        InstKind::Mov(_, _, src) => {
            let mut line = String::from_str("; mov ");
            let s = arm_op_short(src);
            push_str(&mut line, s.as_str());
            (line, c + 1)
        },
        InstKind::Cmp(_, r, op2) => {
            let mut line = String::from_str("; cmp ");
            push_reg_name(&mut line, r);
            push_str(&mut line, " ");
            let s = arm_op_short(op2);
            push_str(&mut line, s.as_str());
            (line, c + 1)
        },
        InstKind::Load(sz, _, addr) => {
            let mut line = var(c + 1);
            push_str(&mut line, " = load ");
            push_str(&mut line, size_t(sz));
            push_str(&mut line, ", ");
            let p = var(c);
            push_str(&mut line, p.as_str());
            push_str(&mut line, " ; ldr ");
            push_reg_name(&mut line, &addr.base);
            (line, c + 2)
        },
        InstKind::Store(sz, addr, val) => {
            let mut line = String::from_str("store ");
            push_str(&mut line, size_t(sz));
            push_str(&mut line, " ");
            push_reg_name(&mut line, val);
            push_str(&mut line, ", ptr ");
            let p = var(c);
            push_str(&mut line, p.as_str());
            push_str(&mut line, " ; str ");
            push_reg_name(&mut line, &addr.base);
            (line, c + 2)
        },
        InstKind::StorePair(_sz, _, r1, r2) => {
            let mut line = String::from_str("; stp ");
            push_reg_name(&mut line, r1);
            push_str(&mut line, " ");
            push_reg_name(&mut line, r2);
            (line, c + 1)
        },
        InstKind::LoadPair(_sz, r1, r2, addr) => {
            let mut line = String::from_str("; ldp ");
            push_reg_name(&mut line, r1);
            push_str(&mut line, " ");
            push_reg_name(&mut line, r2);
            push_str(&mut line, " ; from [");
            push_reg_name(&mut line, &addr.base);
            push_str(&mut line, "]");
            (line, c + 1)
        },
        InstKind::Adrp(_, page) => {
            let mut line = var(c);
            push_str(&mut line, " = add i64 0, ");
            push_dec(&mut line, *page);
            (line, c + 1)
        },
        InstKind::BranchAlways(target) => {
            let mut line = String::from_str("br label %L");
            push_hex(&mut line, *target);
            (line, c + 1)
        },
        InstKind::Branch(_, target) => {
            let mut line = String::from_str("br label %L");
            push_hex(&mut line, *target);
            (line, c + 1)
        },
        InstKind::CompareBranch(_, _, target) => {
            let mut line = String::from_str("br label %L");
            push_hex(&mut line, *target);
            (line, c + 1)
        },
        InstKind::BranchLink(target) => {
            let mut line = String::from_str("call void @sub_");
            push_hex(&mut line, *target);
            push_str(&mut line, "()");
            (line, c + 1)
        },
        InstKind::Ret(_) => (String::new(), c + 1),
        InstKind::Svc(n) => {
            let mut line = String::from_str("; svc #");
            push_dec(&mut line, *n as u64);
            (line, c + 1)
        },
        InstKind::Nop => (String::new(), c + 1),
        InstKind::Unknown(s) => {
            let mut line = String::from_str("; unimplemented: ");
            push_str(&mut line, s.as_str());
            (line, c + 1)
        },
        _ => {
            let mut line = String::from_str("; ");
            push_str(&mut line, insn.mnemonic.as_str());
            (line, c + 1)
        },
    }
}

/// `t` is the IR integer type of an access of width `sz`: `i` and its bit count.
pub open spec fn int_type_of_width(sz: Size, t: Seq<char>) -> bool {
    ||| sz is B8 && t == "i8"@
    ||| sz is B16 && t == "i16"@
    ||| sz is B32 && t == "i32"@
    ||| sz is B64 && t == "i64"@
    ||| sz is B128 && t == "i128"@
}

/// Load and store lines name the integer type of the access width: a load
/// of width `sz` into value `v + 1` through pointer value `v` reads
/// "%(v+1) = load T, %v ; ldr BASE", and a store reads
/// "store T VAL, ptr %v ; str BASE", where T is `i8`, `i16`, `i32`, `i64`
/// or `i128` by the width; both use two value numbers.
pub proof fn memory_lines_carry_the_access_width(insn: Instruction, v: u64)
    requires
        v <= u64::MAX - 2,
    ensures
        match insn.kind {
            InstKind::Load(sz, _, addr) => exists|t: Seq<char>|
                int_type_of_width(sz, t) && spec_emit_ir(insn, v) == (
                    spec_var((v + 1) as u64) + " = load "@ + t + ", "@ + spec_var(v) + " ; ldr "@
                        + spec_reg_name(addr.base),
                    (v + 2) as u64,
                ),
            InstKind::Store(sz, addr, val) => exists|t: Seq<char>|
                int_type_of_width(sz, t) && spec_emit_ir(insn, v) == (
                    "store "@ + t + " "@ + spec_reg_name(val) + ", ptr "@ + spec_var(v) + " ; str "@
                        + spec_reg_name(addr.base),
                    (v + 2) as u64,
                ),
            _ => true,
        },
{
    match insn.kind {
        InstKind::Load(sz, _, addr) => {
            assert(int_type_of_width(sz, spec_size_t(sz)));
        },
        InstKind::Store(sz, addr, val) => {
            assert(int_type_of_width(sz, spec_size_t(sz)));
        },
        _ => {},
    }
}

/// Branch lines jump to the label named by the target address and calls
/// call the function named by it: a branch (plain, conditional or
/// compare-and-branch) reads "br label %L" and a call "call void @sub_"
/// then "()", the target written as a lower-case hexadecimal numeral whose
/// value is the target address; each takes one value number.
pub proof fn branch_lines_name_their_targets(insn: Instruction, v: u64)
    requires
        v <= u64::MAX - 2,
    ensures
        match insn.kind {
            InstKind::BranchAlways(t) => exists|h: Seq<char>|
                is_hex_numeral(h) && hex_value(h) == t && spec_emit_ir(insn, v) == ("br label %L"@ + h, (v + 1) as u64),
            InstKind::Branch(_, t) => exists|h: Seq<char>|
                is_hex_numeral(h) && hex_value(h) == t && spec_emit_ir(insn, v) == ("br label %L"@ + h, (v + 1) as u64),
            InstKind::CompareBranch(_, _, t) => exists|h: Seq<char>|
                is_hex_numeral(h) && hex_value(h) == t && spec_emit_ir(insn, v) == ("br label %L"@ + h, (v + 1) as u64),
            InstKind::BranchLink(t) => exists|h: Seq<char>|
                is_hex_numeral(h) && hex_value(h) == t && spec_emit_ir(insn, v) == (
                    "call void @sub_"@ + h + "()"@,
                    (v + 1) as u64,
                ),
            _ => true,
        },
{
    match insn.kind {
        InstKind::BranchAlways(t) => hex_renders_value(t as nat),
        InstKind::Branch(_, t) => hex_renders_value(t as nat),
        InstKind::CompareBranch(_, _, t) => hex_renders_value(t as nat),
        InstKind::BranchLink(t) => hex_renders_value(t as nat),
        _ => {},
    }
}

/// `name` with every character that is neither alphanumeric nor `_` replaced by `_`.
pub open spec fn spec_sanitize(name: Seq<char>) -> Seq<char> {
    name.map_values(|c: char| if char_alphanumeric(c) || c == '_' { c } else { '_' })
}

/// Makes a function name usable as an IR identifier.
pub fn sanitize(name: &str) -> (r: String)
    ensures
        r@ == spec_sanitize(name@),
{
    let n = name.unicode_len();
    let mut r = String::new();
    let mut i: usize = 0;
    while i < n
        invariant
            n == name@.len(),
            i <= n,
            r@ == spec_sanitize(name@.take(i as int)),
        decreases n - i,
    {
        let c = name.get_char(i);
        let keep = is_alphanumeric(c) || c == '_';
        push_char(&mut r, if keep { c } else { '_' });
        assert(name@.take(i + 1) == name@.take(i as int).push(c));
        assert(spec_sanitize(name@.take(i + 1)) == spec_sanitize(name@.take(i as int)).push(
            if keep { c } else { '_' },
        ));
        i = i + 1;
    }
    assert(name@.take(n as int) == name@);
    r
}

/// Index of the last of the first `k` blocks that starts at `a`, or -1.
pub open spec fn last_block_at(blocks: Seq<BasicBlock>, a: u64, k: int) -> int
    decreases k,
{
    if k <= 0 {
        -1
    } else if blocks[k - 1].address == a {
        k - 1
    } else {
        last_block_at(blocks, a, k - 1)
    }
}

/// The label of block `i`: `L` and the index of the last block with the same address.
pub open spec fn block_label(blocks: Seq<BasicBlock>, i: int) -> Seq<char> {
    "L"@ + dec(last_block_at(blocks, blocks[i].address, blocks.len() as int) as nat)
}

/// The text of an IR line: indented and terminated, or nothing for an empty line.
pub open spec fn ir_line(line: Seq<char>) -> Seq<char> {
    if line.len() == 0 {
        Seq::empty()
    } else {
        "  "@ + line + "\n"@
    }
}

/// The IR text of the first `k` instructions, numbering values from `v`, and the next free number.
pub open spec fn emit_insns(insns: Seq<Instruction>, k: int, v: u64) -> (Seq<char>, u64)
    decreases k,
{
    if k <= 0 {
        (Seq::empty(), v)
    } else {
        let (text, c) = emit_insns(insns, k - 1, v);
        let (line, nc) = spec_emit_ir(insns[k - 1], c);
        (text + ir_line(line), nc)
    }
}

/// The IR text of the first `k` blocks, numbering values from `v`, and the next free number.
pub open spec fn emit_blocks(blocks: Seq<BasicBlock>, k: int, v: u64) -> (Seq<char>, u64)
    decreases k,
{
    if k <= 0 {
        (Seq::empty(), v)
    } else {
        let (text, c) = emit_blocks(blocks, k - 1, v);
        let insns = blocks[k - 1].instructions@;
        let (body, nc) = emit_insns(insns, insns.len() as int, c);
        (text + block_label(blocks, k - 1) + ":\n"@ + body, nc)
    }
}

/// Number of instructions in the first `k` blocks.
pub open spec fn insn_count(blocks: Seq<BasicBlock>, k: int) -> nat
    decreases k,
{
    if k <= 0 {
        0
    } else {
        insn_count(blocks, k - 1) + blocks[k - 1].instructions@.len()
    }
}

/// A function is small enough for its value numbers to fit in 64 bits.
pub open spec fn numbering_fits(func: Function) -> bool {
    2 * insn_count(func.blocks@, func.blocks@.len() as int) <= u64::MAX
}

/// The IR definition of a function.
pub open spec fn spec_emit_function(func: Function) -> Seq<char> {
    "define i64 @"@ + spec_sanitize(func.name@) + "() {\n"@ + emit_blocks(
        func.blocks@,
        func.blocks@.len() as int,
        0,
    ).0 + "  ret i64 0\n"@ + "}\n"@
}

proof fn lemma_insn_count_mono(blocks: Seq<BasicBlock>, i: int, k: int)
    requires
        0 <= i <= k <= blocks.len(),
    ensures
        i < k ==> insn_count(blocks, i) + blocks[i].instructions@.len() <= insn_count(blocks, k),
        insn_count(blocks, i) <= insn_count(blocks, k),
    decreases k - i,
{
    if i < k {
        lemma_insn_count_mono(blocks, i, k - 1);
    }
}

proof fn lemma_last_block_exists(blocks: Seq<BasicBlock>, i: int, k: int)
    requires
        0 <= i < k <= blocks.len(),
    ensures
        i <= last_block_at(blocks, blocks[i].address, k) < k,
    decreases k,
{
    if blocks[k - 1].address != blocks[i].address {
        lemma_last_block_exists(blocks, i, k - 1);
    }
}

proof fn lemma_last_block_addr(blocks: Seq<BasicBlock>, a: u64, k: int)
    requires
        0 <= k <= blocks.len(),
    ensures
        last_block_at(blocks, a, k) >= 0 ==> last_block_at(blocks, a, k) < k && blocks[last_block_at(
            blocks,
            a,
            k,
        )].address == a,
        last_block_at(blocks, a, k) >= -1,
    decreases k,
{
    if k > 0 {
        lemma_last_block_addr(blocks, a, k - 1);
    }
}

/// Two blocks of a function get the same label exactly when they start at the same address.
pub proof fn block_labels_follow_addresses(blocks: Seq<BasicBlock>, i: int, j: int)
    requires
        0 <= i < blocks.len(),
        0 <= j < blocks.len(),
    ensures
        block_label(blocks, i) == block_label(blocks, j) <==> blocks[i].address == blocks[j].address,
{
    let n = blocks.len() as int;
    lemma_last_block_exists(blocks, i, n);
    lemma_last_block_exists(blocks, j, n);
    let li = last_block_at(blocks, blocks[i].address, n);
    let lj = last_block_at(blocks, blocks[j].address, n);
    lemma_last_block_addr(blocks, blocks[i].address, n);
    lemma_last_block_addr(blocks, blocks[j].address, n);
    reveal_strlit("L");
    if block_label(blocks, i) == block_label(blocks, j) {
        assert(dec(li as nat) =~= block_label(blocks, i).subrange(1, block_label(blocks, i).len() as int));
        assert(dec(lj as nat) =~= block_label(blocks, j).subrange(1, block_label(blocks, j).len() as int));
        crate::text::dec_injective(li as nat, lj as nat);
    }
}

/// Sanitising a name twice changes nothing more than sanitising it once.
pub proof fn sanitize_idempotent(name: Seq<char>)
    ensures
        spec_sanitize(spec_sanitize(name)) == spec_sanitize(name),
{
    assert(spec_sanitize(spec_sanitize(name)) =~= spec_sanitize(name));
}

/// Renders a function as an IR definition: one labelled block per basic
/// block, one line per instruction that produces text, and a final `ret`.
#[verifier::rlimit(40)]
pub fn emit_function(func: &Function) -> (ir: String)
    requires
        numbering_fits(*func),
    ensures
        ir@ == spec_emit_function(*func),
{
    let ghost blocks = func.blocks@;
    let mut ir = String::new();
    let mut next_var: u64 = 0;
    let mut block_names: HashMap<u64, usize> = HashMap::new();
    let mut i: usize = 0;
    while i < func.blocks.len()
        invariant
            blocks == func.blocks@,
            i <= blocks.len(),
            forall|a: u64|
                #[trigger] block_names@.contains_key(a) <==> last_block_at(blocks, a, i as int) >= 0,
            forall|a: u64|
                #[trigger] block_names@.contains_key(a) ==> block_names@[a] == last_block_at(
                    blocks,
                    a,
                    i as int,
                ),
        decreases blocks.len() - i,
    {
        block_names.insert(func.blocks[i].address, i);
        i = i + 1;
    }
    let fn_name = sanitize(func.name.as_str());
    push_str(&mut ir, "define i64 @");
    push_str(&mut ir, fn_name.as_str());
    push_str(&mut ir, "() {\n");
    let ghost header = ir@;
    let mut bi: usize = 0;
    while bi < func.blocks.len()
        invariant
            blocks == func.blocks@,
            numbering_fits(*func),
            bi <= blocks.len(),
            forall|a: u64|
                #[trigger] block_names@.contains_key(a) <==> last_block_at(blocks, a, blocks.len() as int) >= 0,
            forall|a: u64|
                #[trigger] block_names@.contains_key(a) ==> block_names@[a] == last_block_at(
                    blocks,
                    a,
                    blocks.len() as int,
                ),
            ir@ == header + emit_blocks(blocks, bi as int, 0).0,
            next_var == emit_blocks(blocks, bi as int, 0).1,
            next_var <= 2 * insn_count(blocks, bi as int),
        decreases blocks.len() - bi,
    {
        let block = &func.blocks[bi];
        proof {
            assert(last_block_at(blocks, block.address, blocks.len() as int) >= 0) by {
                lemma_last_block_exists(blocks, bi as int, blocks.len() as int);
            }
        }
        match block_names.get(&block.address) {
            Some(j) => {
                push_str(&mut ir, "L");
                push_dec(&mut ir, *j as u64);
            },
            None => {
                push_str(&mut ir, "entry");
            },
        }
        push_str(&mut ir, ":\n");
        let ghost insns = block.instructions@;
        let ghost c0 = next_var;
        let ghost before = ir@;
        proof {
            lemma_insn_count_mono(blocks, bi as int, blocks.len() as int);
        }
        let mut ii: usize = 0;
        while ii < block.instructions.len()
            invariant
                *block == blocks[bi as int],
                insns == block.instructions@,
                ii <= insns.len(),
                c0 + 2 * insns.len() <= u64::MAX,
                ir@ == before + emit_insns(insns, ii as int, c0).0,
                next_var == emit_insns(insns, ii as int, c0).1,
                next_var <= c0 + 2 * ii,
            decreases insns.len() - ii,
        {
            let insn = &block.instructions[ii];
            let (line, nv) = emit_ir(insn, next_var);
            next_var = nv;
            if !line.as_str().is_empty() {
                push_str(&mut ir, "  ");
                push_str(&mut ir, line.as_str());
                push_str(&mut ir, "\n");
            }
            ii = ii + 1;
        }
        bi = bi + 1;
    }
    push_str(&mut ir, "  ret i64 0\n");
    push_str(&mut ir, "}\n");
    ir
}

/// The module header: identifier, data layout, target triple and runtime declarations.
pub open spec fn ir_header(module_name: Seq<char>) -> Seq<char> {
    "; ModuleID = '"@ + module_name + "'\n"@
        + "target datalayout = \"e-m:e-i8:8:32-i16:16:32-i64:64-i128:128-n32:64-S128\"\n"@
        + "target triple = \"aarch64-unknown-linux-android\"\n\n"@ + "declare void @putchar(i8)\n"@
        + "declare i64 @read()\n"@ + "declare void @unimplemented()\n\n"@
}

/// The definitions of the first `k` functions, each followed by an empty line.
pub open spec fn emit_functions(functions: Seq<Function>, k: int) -> Seq<char>
    decreases k,
{
    if k <= 0 {
        Seq::empty()
    } else {
        emit_functions(functions, k - 1) + spec_emit_function(functions[k - 1]) + "\n"@
    }
}

/// The IR module for a list of functions.
pub open spec fn spec_generate_ir(functions: Seq<Function>, module_name: Seq<char>) -> Seq<char> {
    ir_header(module_name) + emit_functions(functions, functions.len() as int)
}

proof fn lemma_emit_functions_append(a: Seq<Function>, b: Seq<Function>, k: int)
    requires
        0 <= k <= b.len(),
    ensures
        emit_functions(a + b, a.len() + k) == emit_functions(a, a.len() as int) + emit_functions(b, k),
    decreases k,
{
    if k == 0 {
        assert forall|j: int| 0 <= j <= a.len() implies emit_functions(a + b, j) == emit_functions(a, j) by {
            lemma_emit_functions_prefix(a, b, j);
        }
        assert(emit_functions(a, a.len() as int) + Seq::<char>::empty() =~= emit_functions(a, a.len() as int));
    } else {
        lemma_emit_functions_append(a, b, k - 1);
        assert((a + b)[a.len() + k - 1] == b[k - 1]);
        let x = emit_functions(a, a.len() as int);
        let y = emit_functions(b, k - 1);
        assert(x + y + spec_emit_function(b[k - 1]) + "\n"@ =~= x + (y + spec_emit_function(b[k - 1]) + "\n"@));
    }
}

proof fn lemma_emit_functions_prefix(a: Seq<Function>, b: Seq<Function>, j: int)
    requires
        0 <= j <= a.len(),
    ensures
        emit_functions(a + b, j) == emit_functions(a, j),
    decreases j,
{
    if j > 0 {
        lemma_emit_functions_prefix(a, b, j - 1);
        assert((a + b)[j - 1] == a[j - 1]);
    }
}

/// Rendering is compositional: the module for two lists of functions is the
/// module for the first followed by the definitions of the second, that is,
/// the module for the second without its header.
pub proof fn generate_ir_concatenation(a: Seq<Function>, b: Seq<Function>, module_name: Seq<char>)
    ensures
        spec_generate_ir(a + b, module_name) == spec_generate_ir(a, module_name) + spec_generate_ir(
            b,
            module_name,
        ).subrange(ir_header(module_name).len() as int, spec_generate_ir(b, module_name).len() as int),
{
    lemma_emit_functions_append(a, b, b.len() as int);
    let h = ir_header(module_name);
    let eb = emit_functions(b, b.len() as int);
    assert((h + eb).subrange(h.len() as int, (h + eb).len() as int) =~= eb);
    assert(h + (emit_functions(a, a.len() as int) + eb) =~= h + emit_functions(a, a.len() as int) + eb);
}

/// Renders lifted functions as an IR module: a header naming the module,
/// target and runtime declarations, then one definition per function.
pub fn generate_ir(functions: &[Function], module_name: &str) -> (ir: String)
    requires
        forall|i: int| 0 <= i < functions@.len() ==> numbering_fits(#[trigger] functions@[i]),
    ensures
        ir@ == spec_generate_ir(functions@, module_name@),
{
    let mut ir = String::new();
    push_str(&mut ir, "; ModuleID = '");
    push_str(&mut ir, module_name);
    push_str(&mut ir, "'\n");
    push_str(&mut ir, "target datalayout = \"e-m:e-i8:8:32-i16:16:32-i64:64-i128:128-n32:64-S128\"\n");
    push_str(&mut ir, "target triple = \"aarch64-unknown-linux-android\"\n\n");
    push_str(&mut ir, "declare void @putchar(i8)\n");
    push_str(&mut ir, "declare i64 @read()\n");
    push_str(&mut ir, "declare void @unimplemented()\n\n");
    let mut i: usize = 0;
    while i < functions.len()
        invariant
            i <= functions@.len(),
            forall|j: int| 0 <= j < functions@.len() ==> numbering_fits(#[trigger] functions@[j]),
            ir@ == ir_header(module_name@) + emit_functions(functions@, i as int),
        decreases functions@.len() - i,
    {
        let f = emit_function(&functions[i]);
        push_str(&mut ir, f.as_str());
        push_str(&mut ir, "\n");
        i = i + 1;
    }
    ir
}

} // verus!
