//! Finds loads and stores whose absolute address can be worked out from
//! constant register definitions earlier in the same basic block.

use std::collections::HashMap;
use vstd::prelude::*;

use crate::lift::types::{ArmOperand, BasicBlock, Function, InstKind, Instruction, Reg, Size};
use crate::mmio::types::{AccessType, MmioAccess};

verus! {

broadcast use vstd::std_specs::hash::group_hash_axioms;

/// The value that the scanner assumes for the stack pointer.
pub const ASSUMED_SP: u64 = 0xffff_ffff_ffff_e000;

/// Confidence (in percent) of an access through the zero register.
pub const CONFIDENCE_ZERO_BASE: u8 = 90;

/// Confidence (in percent) of an access through a register with a tracked value.
pub const CONFIDENCE_TRACKED_BASE: u8 = 70;

/// Confidence (in percent) of an access through any other register.
pub const CONFIDENCE_UNTRACKED_BASE: u8 = 40;

/// The key under which a register's tracked value is stored.
pub open spec fn spec_reg_key(r: Reg) -> u32 {
    match r {
        Reg::X(n) => n as u32,
        Reg::W(n) => (256 + n) as u32,
        Reg::R(n) => (512 + n) as u32,
        Reg::Sp => 768,
        Reg::Fp => 769,
        Reg::Lr => 770,
        Reg::Xzr => 771,
        Reg::Wzr => 772,
        Reg::Pc => 773,
    }
}

/// Whether the register is one of the two zero registers.
pub open spec fn is_zero_reg(r: Reg) -> bool {
    r is Xzr || r is Wzr
}

/// Number of bytes moved by an access of the given width.
pub open spec fn spec_size_bytes(sz: Size) -> u8 {
    match sz {
        Size::B8 => 1,
        Size::B16 => 2,
        Size::B32 => 4,
        Size::B64 => 8,
        Size::B128 => 16,
    }
}

/// The constant that an operand contributes, where it is one.
pub open spec fn spec_imm_op(op: ArmOperand) -> Option<u64> {
    match op {
        ArmOperand::Imm(v) => Some(v as u64),
        ArmOperand::Reg(r) => if is_zero_reg(r) { Some(0) } else { None },
        _ => None,
    }
}

/// The value of a register in the tracked state, where it is known.
pub open spec fn spec_reg_value(r: Reg, m: Map<u32, u64>) -> Option<u64> {
    if is_zero_reg(r) {
        Some(0)
    } else if r is Sp {
        Some(ASSUMED_SP)
    } else if m.contains_key(spec_reg_key(r)) {
        Some(m[spec_reg_key(r)])
    } else {
        None
    }
}

/// The tracked register values after an instruction.
pub open spec fn spec_track(kind: InstKind, m: Map<u32, u64>) -> Map<u32, u64> {
    match kind {
        InstKind::Adrp(dst, page) => m.insert(spec_reg_key(dst), page),
        InstKind::Add(_, dst, src, op) => match (spec_reg_value(src, m), spec_imm_op(op)) {
            (Some(sv), Some(iv)) => m.insert(
                spec_reg_key(dst),
                vstd::wrapping::u64_specs::wrapping_add(sv, iv),
            ),
            _ => m,
        },
        InstKind::Mov(_, dst, op) => match spec_imm_op(op) {
            Some(v) => m.insert(spec_reg_key(dst), v),
            None => m,
        },
        InstKind::Sub(_, dst, src, op) => match (spec_reg_value(src, m), spec_imm_op(op)) {
            (Some(sv), Some(iv)) => m.insert(
                spec_reg_key(dst),
                vstd::wrapping::u64_specs::wrapping_sub(sv, iv),
            ),
            _ => m,
        },
        _ => m,
    }
}

/// The absolute address of `base + offset`, where the base is known.
pub open spec fn spec_resolve_addr(base: Reg, offset: i64, m: Map<u32, u64>) -> Option<u64> {
    if is_zero_reg(base) {
        Some(offset as u64)
    } else if base is Sp || base is Fp {
        None
    } else if m.contains_key(spec_reg_key(base)) {
        Some(vstd::wrapping::u64_specs::wrapping_add(m[spec_reg_key(base)], offset as u64))
    } else {
        None
    }
}

/// Confidence (in percent) of an access through `base`.
pub open spec fn spec_confidence(base: Reg, m: Map<u32, u64>) -> u8 {
    if is_zero_reg(base) {
        CONFIDENCE_ZERO_BASE
    } else if m.contains_key(spec_reg_key(base)) {
        CONFIDENCE_TRACKED_BASE
    } else {
        CONFIDENCE_UNTRACKED_BASE
    }
}

/// The access that an instruction makes, given the tracked state after it.
pub open spec fn spec_access_of(insn: Instruction, m: Map<u32, u64>, func_name: String) -> Option<
    MmioAccess,
> {
    match insn.kind {
        InstKind::Store(sz, addr, _) => match spec_resolve_addr(addr.base, addr.offset, m) {
            Some(a) => Some(
                MmioAccess {
                    address: a,
                    size: spec_size_bytes(sz),
                    access_type: AccessType::Write,
                    instruction_addr: insn.address,
                    function_name: func_name,
                    confidence: spec_confidence(addr.base, m),
                },
            ),
            None => None,
        },
        InstKind::Load(sz, _, addr) => match spec_resolve_addr(addr.base, addr.offset, m) {
            Some(a) => Some(
                MmioAccess {
                    address: a,
                    size: spec_size_bytes(sz),
                    access_type: AccessType::Read,
                    instruction_addr: insn.address,
                    function_name: func_name,
                    confidence: spec_confidence(addr.base, m),
                },
            ),
            None => None,
        },
        _ => None,
    }
}

/// Tracked register values after the first `k` instructions of a block.
pub open spec fn block_regs(insns: Seq<Instruction>, k: int) -> Map<u32, u64>
    decreases k,
{
    if k <= 0 {
        Map::empty()
    } else {
        spec_track(insns[k - 1].kind, block_regs(insns, k - 1))
    }
}

/// Accesses found in the first `k` instructions of a block.
pub open spec fn block_accesses(insns: Seq<Instruction>, k: int, func_name: String) -> Seq<
    MmioAccess,
>
    decreases k,
{
    if k <= 0 {
        Seq::empty()
    } else {
        let prev = block_accesses(insns, k - 1, func_name);
        match spec_access_of(insns[k - 1], block_regs(insns, k), func_name) {
            Some(a) => prev.push(a),
            None => prev,
        }
    }
}

/// Accesses found in the first `k` blocks of a function; each block starts with no tracked values.
pub open spec fn function_accesses(blocks: Seq<BasicBlock>, k: int, func_name: String) -> Seq<
    MmioAccess,
>
    decreases k,
{
    if k <= 0 {
        Seq::empty()
    } else {
        function_accesses(blocks, k - 1, func_name) + block_accesses(
            blocks[k - 1].instructions@,
            blocks[k - 1].instructions@.len() as int,
            func_name,
        )
    }
}

/// Accesses found in the first `k` functions.
pub open spec fn scan_prefix(functions: Seq<Function>, k: int) -> Seq<MmioAccess>
    decreases k,
{
    if k <= 0 {
        Seq::empty()
    } else {
        scan_prefix(functions, k - 1) + function_accesses(
            functions[k - 1].blocks@,
            functions[k - 1].blocks@.len() as int,
            functions[k - 1].name,
        )
    }
}

/// Accesses found in all the functions, in program order.
pub open spec fn spec_scan(functions: Seq<Function>) -> Seq<MmioAccess> {
    scan_prefix(functions, functions.len() as int)
}

/// Scans every basic block of every function for loads and stores with a
/// resolvable absolute address, tracking constant register definitions
/// (`adrp`, `mov #imm`, `add`/`sub` with an immediate) within each block.
pub fn scan_functions(functions: &[Function]) -> (accesses: Vec<MmioAccess>)
    ensures
        accesses@ == spec_scan(functions@),
{
    let mut accesses: Vec<MmioAccess> = Vec::new();
    let mut fi: usize = 0;
    while fi < functions.len()
        invariant
            fi <= functions@.len(),
            accesses@ == scan_prefix(functions@, fi as int),
        decreases functions@.len() - fi,
    {
        let func = &functions[fi];
        let func_name = func.name.clone();
        let ghost before_func = accesses@;
        let mut bi: usize = 0;
        while bi < func.blocks.len()
            invariant
                fi < functions@.len(),
                *func == functions@[fi as int],
                func_name == func.name,
                bi <= func.blocks@.len(),
                before_func == scan_prefix(functions@, fi as int),
                accesses@ == before_func + function_accesses(func.blocks@, bi as int, func.name),
            decreases func.blocks@.len() - bi,
        {
            let block = &func.blocks[bi];
            let ghost insns = block.instructions@;
            let ghost before_block = accesses@;
            let mut reg_values: HashMap<u32, u64> = HashMap::new();
            let mut ii: usize = 0;
            while ii < block.instructions.len()
                invariant
                    *block == func.blocks@[bi as int],
                    insns == block.instructions@,
                    func_name == func.name,
                    ii <= insns.len(),
                    reg_values@ == block_regs(insns, ii as int),
                    accesses@ == before_block + block_accesses(insns, ii as int, func.name),
                decreases insns.len() - ii,
            {
                let insn = &block.instructions[ii];
                track_reg_defs(insn, &mut reg_values);
                let ghost m = reg_values@;
                match &insn.kind {
                    InstKind::Store(sz, addr, _) => {
                        if let Some(absolute_addr) = resolve_addr(&addr.base, addr.offset, &reg_values) {
                            let confidence = if matches!(addr.base, Reg::Xzr | Reg::Wzr) {
                                CONFIDENCE_ZERO_BASE
                            } else if reg_values.contains_key(&reg_key(&addr.base)) {
                                CONFIDENCE_TRACKED_BASE
                            } else {
                                CONFIDENCE_UNTRACKED_BASE
                            };
                            accesses.push(
                                MmioAccess {
                                    address: absolute_addr,
                                    size: size_bytes(*sz),
                                    access_type: AccessType::Write,
                                    instruction_addr: insn.address,
                                    function_name: func_name.clone(),
                                    confidence,
                                },
                            );
                        }
                    },
                    InstKind::Load(sz, _, addr) => {
                        if let Some(absolute_addr) = resolve_addr(&addr.base, addr.offset, &reg_values) {
                            let confidence = if matches!(addr.base, Reg::Xzr | Reg::Wzr) {
                                CONFIDENCE_ZERO_BASE
                            } else if reg_values.contains_key(&reg_key(&addr.base)) {
                                CONFIDENCE_TRACKED_BASE
                            } else {
                                CONFIDENCE_UNTRACKED_BASE
                            };
                            accesses.push(
                                MmioAccess {
                                    address: absolute_addr,
                                    size: size_bytes(*sz),
                                    access_type: AccessType::Read,
                                    instruction_addr: insn.address,
                                    function_name: func_name.clone(),
                                    confidence,
                                },
                            );
                        }
                    },
                    _ => {},
                }
                ii = ii + 1;
            }
            assert(accesses@ == before_func + function_accesses(func.blocks@, bi + 1, func.name));
            bi = bi + 1;
        }
        fi = fi + 1;
    }
    accesses
}

/// Whether an access was resolved through a zero register or a register
/// with a tracked value (the two higher confidence levels).
pub open spec fn resolved_with_known_base(a: MmioAccess) -> bool {
    a.confidence == CONFIDENCE_ZERO_BASE || a.confidence == CONFIDENCE_TRACKED_BASE
}

proof fn lemma_access_known_base(insn: Instruction, m: Map<u32, u64>, func_name: String)
    ensures
        spec_access_of(insn, m, func_name) matches Some(a) ==> resolved_with_known_base(a),
{
}

proof fn lemma_block_known_base(insns: Seq<Instruction>, k: int, func_name: String)
    ensures
        forall|i: int|
            0 <= i < block_accesses(insns, k, func_name).len() ==> resolved_with_known_base(
                #[trigger] block_accesses(insns, k, func_name)[i],
            ),
    decreases k,
{
    if k > 0 {
        lemma_block_known_base(insns, k - 1, func_name);
        lemma_access_known_base(insns[k - 1], block_regs(insns, k), func_name);
        let prev = block_accesses(insns, k - 1, func_name);
        match spec_access_of(insns[k - 1], block_regs(insns, k), func_name) {
            Some(a) => {
                assert forall|i: int| 0 <= i < prev.push(a).len() implies resolved_with_known_base(
                    #[trigger] prev.push(a)[i],
                ) by {
                    if i < prev.len() {
                        assert(prev.push(a)[i] == prev[i]);
                    }
                }
            },
            None => {},
        }
    }
}

proof fn lemma_function_known_base(blocks: Seq<BasicBlock>, k: int, func_name: String)
    ensures
        forall|i: int|
            0 <= i < function_accesses(blocks, k, func_name).len() ==> resolved_with_known_base(
                #[trigger] function_accesses(blocks, k, func_name)[i],
            ),
    decreases k,
{
    if k > 0 {
        lemma_function_known_base(blocks, k - 1, func_name);
        let insns = blocks[k - 1].instructions@;
        lemma_block_known_base(insns, insns.len() as int, func_name);
        let a = function_accesses(blocks, k - 1, func_name);
        let b = block_accesses(insns, insns.len() as int, func_name);
        assert forall|i: int| 0 <= i < (a + b).len() implies resolved_with_known_base(
            #[trigger] (a + b)[i],
        ) by {
            if i >= a.len() {
                assert((a + b)[i] == b[i - a.len()]);
            }
        }
    }
}

proof fn lemma_scan_prefix_known_base(functions: Seq<Function>, k: int)
    ensures
        forall|i: int|
            0 <= i < scan_prefix(functions, k).len() ==> resolved_with_known_base(
                #[trigger] scan_prefix(functions, k)[i],
            ),
    decreases k,
{
    if k > 0 {
        lemma_scan_prefix_known_base(functions, k - 1);
        let f = functions[k - 1];
        lemma_function_known_base(f.blocks@, f.blocks@.len() as int, f.name);
        let a = scan_prefix(functions, k - 1);
        let b = function_accesses(f.blocks@, f.blocks@.len() as int, f.name);
        assert forall|i: int| 0 <= i < (a + b).len() implies resolved_with_known_base(
            #[trigger] (a + b)[i],
        ) by {
            if i >= a.len() {
                assert((a + b)[i] == b[i - a.len()]);
            }
        }
    }
}

/// Every access that the scanner reports was resolved through a zero register
/// or through a register whose value was tracked: the lowest confidence level
/// is never reported, since an untracked base register resolves no address.
pub proof fn scanned_accesses_have_known_base(functions: Seq<Function>)
    ensures
        forall|i: int|
            0 <= i < spec_scan(functions).len() ==> resolved_with_known_base(
                #[trigger] spec_scan(functions)[i],
            ),
{
    lemma_scan_prefix_known_base(functions, functions.len() as int);
}

/// Access `a` was made by instruction `insn` of the function called `name`:
/// it carries that name and the instruction's address, it is a read for a
/// load and a write for a store, its size is the number of bytes of the
/// instruction's width, and through a zero register its address is the
/// instruction's offset.
pub open spec fn made_by(a: MmioAccess, insn: Instruction, name: String) -> bool {
    &&& a.function_name == name
    &&& a.instruction_addr == insn.address
    &&& match insn.kind {
        InstKind::Store(sz, addr, _) => a.access_type is Write && width_matches(sz, a.size) && (is_zero_reg(
            addr.base,
        ) ==> a.address == addr.offset as u64),
        InstKind::Load(sz, _, addr) => a.access_type is Read && width_matches(sz, a.size) && (is_zero_reg(
            addr.base,
        ) ==> a.address == addr.offset as u64),
        _ => false,
    }
}

/// `n` is the number of bytes of width `sz`.
pub open spec fn width_matches(sz: Size, n: u8) -> bool {
    ||| sz is B8 && n == 1
    ||| sz is B16 && n == 2
    ||| sz is B32 && n == 4
    ||| sz is B64 && n == 8
    ||| sz is B128 && n == 16
}

/// Access `a` was made by instruction `k` of block `b` of function `f`.
pub open spec fn made_in(a: MmioAccess, functions: Seq<Function>, f: int, b: int, k: int) -> bool {
    &&& 0 <= f < functions.len()
    &&& 0 <= b < functions[f].blocks@.len()
    &&& 0 <= k < functions[f].blocks@[b].instructions@.len()
    &&& made_by(a, functions[f].blocks@[b].instructions@[k], functions[f].name)
}

/// Access `a` was made by some instruction of function `f`.
pub open spec fn made_in_function(a: MmioAccess, functions: Seq<Function>, f: int) -> bool {
    exists|b: int, k: int| #[trigger] made_in(a, functions, f, b, k)
}

/// Access `a` was made by some instruction of some function.
pub open spec fn made_somewhere(a: MmioAccess, functions: Seq<Function>) -> bool {
    exists|f: int| #[trigger] made_in_function(a, functions, f)
}

proof fn lemma_block_made_by(insns: Seq<Instruction>, k: int, name: String)
    requires
        0 <= k <= insns.len(),
    ensures
        forall|n: int|
            0 <= n < block_accesses(insns, k, name).len() ==> exists|t: int|
                0 <= t < k && made_by(#[trigger] block_accesses(insns, k, name)[n], insns[t], name),
    decreases k,
{
    if k > 0 {
        lemma_block_made_by(insns, k - 1, name);
        let prev = block_accesses(insns, k - 1, name);
        let cur = block_accesses(insns, k, name);
        assert forall|n: int| 0 <= n < cur.len() implies exists|t: int|
            0 <= t < k && made_by(#[trigger] cur[n], insns[t], name) by {
            if n < prev.len() {
                assert(cur[n] == prev[n]);
                let t = choose|t: int| 0 <= t < k - 1 && made_by(#[trigger] prev[n], insns[t], name);
                assert(made_by(cur[n], insns[t], name));
            } else {
                assert(made_by(cur[n], insns[k - 1], name));
            }
        }
    }
}

proof fn lemma_function_made_in(functions: Seq<Function>, f: int, m: int)
    requires
        0 <= f < functions.len(),
        0 <= m <= functions[f].blocks@.len(),
    ensures
        forall|n: int|
            0 <= n < function_accesses(functions[f].blocks@, m, functions[f].name).len() ==> made_in_function(
                #[trigger] function_accesses(functions[f].blocks@, m, functions[f].name)[n],
                functions,
                f,
            ),
    decreases m,
{
    if m > 0 {
        let blocks = functions[f].blocks@;
        let name = functions[f].name;
        lemma_function_made_in(functions, f, m - 1);
        let insns = blocks[m - 1].instructions@;
        lemma_block_made_by(insns, insns.len() as int, name);
        let a = function_accesses(blocks, m - 1, name);
        let c = block_accesses(insns, insns.len() as int, name);
        assert forall|n: int| 0 <= n < (a + c).len() implies made_in_function(#[trigger] (a + c)[n], functions, f) by {
            if n < a.len() {
                assert((a + c)[n] == a[n]);
                assert(made_in_function(a[n], functions, f));
            } else {
                assert((a + c)[n] == c[n - a.len()]);
                let t = choose|t: int| 0 <= t < insns.len() && made_by(#[trigger] c[n - a.len()], insns[t], name);
                assert(made_in((a + c)[n], functions, f, m - 1, t));
            }
        }
    }
}

proof fn lemma_scan_prefix_made_in(functions: Seq<Function>, m: int)
    requires
        0 <= m <= functions.len(),
    ensures
        forall|n: int|
            0 <= n < scan_prefix(functions, m).len() ==> made_somewhere(#[trigger] scan_prefix(functions, m)[n], functions),
    decreases m,
{
    if m > 0 {
        lemma_scan_prefix_made_in(functions, m - 1);
        let fm = functions[m - 1];
        lemma_function_made_in(functions, m - 1, fm.blocks@.len() as int);
        let a = scan_prefix(functions, m - 1);
        let c = function_accesses(fm.blocks@, fm.blocks@.len() as int, fm.name);
        assert forall|n: int| 0 <= n < (a + c).len() implies made_somewhere(#[trigger] (a + c)[n], functions) by {
            if n < a.len() {
                assert((a + c)[n] == a[n]);
                assert(made_somewhere(a[n], functions));
            } else {
                assert((a + c)[n] == c[n - a.len()]);
                assert(made_in_function(c[n - a.len()], functions, m - 1));
            }
        }
    }
}

/// Every access the scan reports was made by a load or a store in a block of
/// one of the functions: it carries that function's name and the
/// instruction's address, it is a read for a load and a write for a store,
/// its size is the byte count of the instruction's width, and through a zero
/// register its address is the instruction's offset.
pub proof fn scanned_accesses_are_made_by_instructions(functions: Seq<Function>)
    ensures
        forall|n: int|
            0 <= n < spec_scan(functions).len() ==> made_somewhere(#[trigger] spec_scan(functions)[n], functions),
{
    lemma_scan_prefix_made_in(functions, functions.len() as int);
}

proof fn lemma_scan_prefix_left(f1: Seq<Function>, f2: Seq<Function>, k: int)
    requires
        0 <= k <= f1.len(),
    ensures
        scan_prefix(f1 + f2, k) == scan_prefix(f1, k),
    decreases k,
{
    if k > 0 {
        lemma_scan_prefix_left(f1, f2, k - 1);
        assert((f1 + f2)[k - 1] == f1[k - 1]);
    }
}

proof fn lemma_scan_prefix_right(f1: Seq<Function>, f2: Seq<Function>, k: int)
    requires
        0 <= k <= f2.len(),
    ensures
        scan_prefix(f1 + f2, f1.len() + k) == spec_scan(f1) + scan_prefix(f2, k),
    decreases k,
{
    if k == 0 {
        lemma_scan_prefix_left(f1, f2, f1.len() as int);
        assert(spec_scan(f1) + Seq::<MmioAccess>::empty() == spec_scan(f1));
    } else {
        lemma_scan_prefix_right(f1, f2, k - 1);
        assert((f1 + f2)[f1.len() + k - 1] == f2[k - 1]);
        let f = f2[k - 1];
        let tail = function_accesses(f.blocks@, f.blocks@.len() as int, f.name);
        assert(spec_scan(f1) + scan_prefix(f2, k - 1) + tail == spec_scan(f1) + (scan_prefix(f2, k - 1)
            + tail));
    }
}

/// Scanning is compositional: scanning two lists of functions one after the
/// other finds the accesses of the first list followed by those of the second.
pub proof fn scan_concatenation(f1: Seq<Function>, f2: Seq<Function>)
    ensures
        spec_scan(f1 + f2) == spec_scan(f1) + spec_scan(f2),
{
    lemma_scan_prefix_right(f1, f2, f2.len() as int);
}

/// The key under which a register's tracked value is stored.
pub fn reg_key(r: &Reg) -> (k: u32)
    ensures
        k == spec_reg_key(*r),
{
    match r {
        Reg::X(n) => *n as u32,
        Reg::W(n) => 256 + *n as u32,
        Reg::R(n) => 512 + *n as u32,
        Reg::Sp => 768,
        Reg::Fp => 769,
        Reg::Lr => 770,
        Reg::Xzr => 771,
        Reg::Wzr => 772,
        Reg::Pc => 773,
    }
}

/// Distinct registers are tracked under distinct keys.
pub proof fn reg_key_injective(a: Reg, b: Reg)
    requires
        spec_reg_key(a) == spec_reg_key(b),
    ensures
        a == b,
{
}

/// The absolute address of `base + offset`: the offset itself through a zero
/// register, nothing through the stack or frame pointer, and the tracked
/// base value plus the offset (wrapping) otherwise.
pub fn resolve_addr(base: &Reg, offset: i64, reg_values: &HashMap<u32, u64>) -> (r: Option<u64>)
    ensures
        r == spec_resolve_addr(*base, offset, reg_values@),
{
    match base {
        Reg::Xzr | Reg::Wzr => Some(offset as u64),
        Reg::Sp | Reg::Fp => None,
        _ => {
            let key = reg_key(base);
            match reg_values.get(&key) {
                Some(base_val) => Some(base_val.wrapping_add(offset as u64)),
                None => None,
            }
        },
    }
}

/// Records the constant that an `adrp`, `mov #imm`, `add #imm` or `sub #imm`
/// puts into its destination register, where it is known.
pub fn track_reg_defs(insn: &Instruction, reg_values: &mut HashMap<u32, u64>)
    ensures
        final(reg_values)@ == spec_track(insn.kind, old(reg_values)@),
{
    match &insn.kind {
        InstKind::Adrp(dst, page) => {
            reg_values.insert(reg_key(dst), *page);
        },
        InstKind::Add(_sz, dst, src, op) => {
            let src_val = get_reg_value(src, reg_values);
            let imm_val = get_imm_op(op);
            if let (Some(sv), Some(iv)) = (src_val, imm_val) {
                reg_values.insert(reg_key(dst), sv.wrapping_add(iv));
            }
        },
        InstKind::Mov(_sz, dst, op) => {
            if let Some(val) = get_imm_op(op) {
                reg_values.insert(reg_key(dst), val);
            }
        },
        InstKind::Sub(_sz, dst, src, op) => {
            let src_val = get_reg_value(src, reg_values);
            let imm_val = get_imm_op(op);
            if let (Some(sv), Some(iv)) = (src_val, imm_val) {
                reg_values.insert(reg_key(dst), sv.wrapping_sub(iv));
            }
        },
        _ => {},
    }
}

/// The value of a register: zero for the zero registers, the assumed stack
/// top for the stack pointer, and the tracked value otherwise.
pub fn get_reg_value(r: &Reg, reg_values: &HashMap<u32, u64>) -> (v: Option<u64>)
    ensures
        v == spec_reg_value(*r, reg_values@),
{
    match r {
        Reg::Xzr | Reg::Wzr => Some(0),
        Reg::Sp => Some(ASSUMED_SP),
        _ => match reg_values.get(&reg_key(r)) {
            Some(v) => Some(*v),
            None => None,
        },
    }
}

/// The constant value of an operand: an immediate (reinterpreted as unsigned)
/// or zero for a zero register.
pub fn get_imm_op(op: &ArmOperand) -> (v: Option<u64>)
    ensures
        v == spec_imm_op(*op),
{
    match op {
        ArmOperand::Imm(val) => Some(*val as u64),
        ArmOperand::Reg(r) => match r {
            Reg::Xzr | Reg::Wzr => Some(0),
            _ => None,
        },
        _ => None,
    }
}

/// Number of bytes moved by an access of the given width.
pub fn size_bytes(sz: Size) -> (n: u8)
    ensures
        n == spec_size_bytes(sz),
{
    match sz {
        Size::B8 => 1,
        Size::B16 => 2,
        Size::B32 => 4,
        Size::B64 => 8,
        Size::B128 => 16,
    }
}

} // verus!
