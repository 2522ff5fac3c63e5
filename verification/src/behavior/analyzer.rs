//! Builds per-peripheral models from the accesses that fall into each
//! memory-mapped region: a register map, per-function access sequences,
//! an initialisation sequence and a coarse state machine.

use vstd::prelude::*;
use vstd::string::StringExecFns;

use std::collections::HashSet;

use crate::behavior::types::{
    AccessSequence, AccessType, Bitfield, DeviceModel, RegisterModel, SequencedAccess, StateMachine,
    Transition, Trigger,
};
use crate::mmio::types::{AccessType as MmioAccessType, MmioAccess, MmioRegion};
use crate::text::{dec, hex, hex_renders_value, hex_value, is_hex_numeral, push_dec, push_hex, push_str, str_views};

verus! {

broadcast use vstd::std_specs::hash::group_hash_axioms;

// ---------------------------------------------------------------------------
// Bitfield detection
// ---------------------------------------------------------------------------

/// The values seen in a register: writes first, then reads.
pub open spec fn observed_values(reg: RegisterModel) -> Seq<u64> {
    reg.observed_writes@ + reg.observed_reads@
}

/// The bits that changed between consecutive values among the first `k` values.
pub open spec fn change_mask(s: Seq<u64>, k: int) -> u64
    decreases k,
{
    if k <= 1 {
        0
    } else {
        change_mask(s, k - 1) | (s[k - 2] ^ s[k - 1])
    }
}

/// Whether bit `b` of `mask` is set.
pub open spec fn bit_set(mask: u64, b: int) -> bool {
    (mask >> (b as u64)) & 1 == 1
}

/// Number of consecutive set bits of `mask` from bit `b` upwards (below bit 64).
pub open spec fn run_len(mask: u64, b: int) -> nat
    decreases 64 - b,
{
    if b < 0 || b >= 64 || !bit_set(mask, b) {
        0
    } else {
        1 + run_len(mask, b + 1)
    }
}

/// The maximal runs of set bits of `mask` at or above bit `b`, as (lowest bit, width), lowest first.
pub open spec fn field_spans(mask: u64, b: int) -> Seq<(int, int)>
    decreases 64 - b
    via field_spans_decreases
{
    if b < 0 || b >= 64 {
        Seq::empty()
    } else if bit_set(mask, b) {
        seq![(b, run_len(mask, b) as int)] + field_spans(mask, b + run_len(mask, b))
    } else {
        field_spans(mask, b + 1)
    }
}

#[via_fn]
proof fn field_spans_decreases(mask: u64, b: int) {
    if 0 <= b < 64 && bit_set(mask, b) {
        lemma_run_len_bound(mask, b);
    }
}

/// A mask of the `w` low bits, for `w` below 64.
pub open spec fn low_mask(w: u64) -> u64 {
    ((1u64 << w) - 1) as u64
}

/// The value of the `w`-bit field at bit `bit` of `v`.
pub open spec fn field_value(v: u64, bit: int, w: int) -> u64 {
    (v >> (bit as u64)) & low_mask(w as u64)
}

/// The distinct elements among the first `k` of `s`, in order of first occurrence.
pub open spec fn distinct_prefix(s: Seq<u64>, k: int) -> Seq<u64>
    decreases k,
{
    if k <= 0 {
        Seq::empty()
    } else if distinct_prefix(s, k - 1).contains(s[k - 1]) {
        distinct_prefix(s, k - 1)
    } else {
        distinct_prefix(s, k - 1).push(s[k - 1])
    }
}

/// The distinct values of the field at `bit` of width `w` among `values`, in order of first occurrence.
pub open spec fn field_values(values: Seq<u64>, bit: int, w: int) -> Seq<u64> {
    distinct_prefix(values.map_values(|v: u64| field_value(v, bit, w)), values.len() as int)
}

/// The label given to a field value.
pub open spec fn value_label(v: u64) -> Seq<char> {
    "val_"@ + dec(v as nat)
}

/// `f` describes the field of width `w` at bit `bit`, with the distinct values `vals`.
pub open spec fn is_field(f: Bitfield, bit: int, w: int, vals: Seq<u64>) -> bool {
    &&& f.offset == bit
    &&& f.width == w
    &&& f.name is None
    &&& f.observed_mask == low_mask(w as u64)
    &&& f.values@.len() == vals.len()
    &&& forall|i: int|
        0 <= i < vals.len() ==> (#[trigger] f.values@[i]).0 == vals[i] && f.values@[i].1@
            == value_label(vals[i])
}

/// The bitfields of a register: one per maximal run of bits that changed
/// between consecutive observed values, none when fewer than two values were
/// seen or nothing changed.
pub open spec fn bitfields_match(reg: RegisterModel, fields: Seq<Bitfield>) -> bool {
    let vals = observed_values(reg);
    let mask = change_mask(vals, vals.len() as int);
    if vals.len() < 2 || mask == 0 {
        fields.len() == 0
    } else {
        let spans = field_spans(mask, 0);
        &&& fields.len() == spans.len()
        &&& forall|i: int|
            0 <= i < spans.len() ==> is_field(
                #[trigger] fields[i],
                spans[i].0,
                spans[i].1,
                field_values(vals, spans[i].0, spans[i].1),
            )
    }
}

proof fn lemma_full_run_is_all_ones(mask: u64, b: int)
    requires
        0 <= b < 64,
        run_len(mask, b) == 64 - b,
    ensures
        mask >> (b as u64) == 0xffff_ffff_ffff_ffffu64 >> (b as u64),
    decreases 64 - b,
{
    let bb = b as u64;
    if b == 63 {
        assert((mask >> bb) & 1 == 1 && bb == 63 ==> mask >> bb == 0xffff_ffff_ffff_ffffu64 >> bb)
            by (bit_vector);
    } else {
        lemma_full_run_is_all_ones(mask, b + 1);
        let b1 = (b + 1) as u64;
        assert(b1 == bb + 1);
        assert(bb < 63 && b1 == bb + 1 && (mask >> bb) & 1 == 1 && mask >> b1
            == 0xffff_ffff_ffff_ffffu64 >> b1 ==> mask >> bb == 0xffff_ffff_ffff_ffffu64 >> bb)
            by (bit_vector);
    }
}

proof fn lemma_run_len_bound(mask: u64, b: int)
    requires
        0 <= b <= 64,
    ensures
        run_len(mask, b) <= 64 - b,
    decreases 64 - b,
{
    if b < 64 {
        lemma_run_len_bound(mask, b + 1);
    }
}

/// Labels each distinct value of the field at `bit` of width `w`.
fn collect_field_values(all_values: &Vec<u64>, bit: usize, w: u8) -> (values: Vec<(u64, String)>)
    requires
        bit < 64,
        w < 64,
    ensures
        values@.len() == field_values(all_values@, bit as int, w as int).len(),
        forall|i: int|
            0 <= i < values@.len() ==> (#[trigger] values@[i]).0 == field_values(
                all_values@,
                bit as int,
                w as int,
            )[i] && values@[i].1@ == value_label(values@[i].0),
{
    let ghost extracted = all_values@.map_values(|v: u64| field_value(v, bit as int, w as int));
    assert(1u64 << w >= 1) by (bit_vector)
        requires
            w < 64,
    ;
    let low: u64 = (1u64 << w) - 1;
    let mut values: Vec<(u64, String)> = Vec::new();
    let mut k: usize = 0;
    while k < all_values.len()
        invariant
            bit < 64,
            w < 64,
            low == low_mask(w as u64),
            extracted == all_values@.map_values(|v: u64| field_value(v, bit as int, w as int)),
            k <= all_values@.len(),
            values@.len() == distinct_prefix(extracted, k as int).len(),
            forall|i: int|
                0 <= i < values@.len() ==> (#[trigger] values@[i]).0 == distinct_prefix(
                    extracted,
                    k as int,
                )[i] && values@[i].1@ == value_label(values@[i].0),
        decreases all_values@.len() - k,
    {
        let v = all_values[k];
        let field_val = (v >> (bit as u64)) & low;
        assert(field_val == extracted[k as int]);
        let mut seen = false;
        let mut j: usize = 0;
        while j < values.len()
            invariant
                j <= values@.len(),
                seen <==> exists|t: int| 0 <= t < j && values@[t].0 == field_val,
            decreases values@.len() - j,
        {
            if values[j].0 == field_val {
                seen = true;
            }
            j = j + 1;
        }
        let ghost d = distinct_prefix(extracted, k as int);
        assert(seen <==> d.contains(field_val)) by {
            if seen {
                let t = choose|t: int| 0 <= t < values@.len() && values@[t].0 == field_val;
                assert(d[t] == field_val);
            }
            if d.contains(field_val) {
                let t = choose|t: int| 0 <= t < d.len() && d[t] == field_val;
                assert(values@[t].0 == field_val);
            }
        }
        if !seen {
            let mut label = String::from_str("val_");
            proof {
                reveal_strlit("val_");
            }
            push_dec(&mut label, field_val);
            values.push((field_val, label));
        }
        k = k + 1;
    }
    assert(extracted.len() == all_values@.len());
    values
}

/// Finds the groups of adjacent bits that changed between consecutive
/// observed values of a register and lists the distinct values of each group.
pub fn detect_bitfields(reg: &RegisterModel) -> (fields: Vec<Bitfield>)
    requires
        ({
            let vals = observed_values(*reg);
            vals.len() < 2 || change_mask(vals, vals.len() as int) != 0xffff_ffff_ffff_ffffu64
        }),
    ensures
        bitfields_match(*reg, fields@),
{
    let mut all_values: Vec<u64> = Vec::new();
    let mut i: usize = 0;
    while i < reg.observed_writes.len()
        invariant
            i <= reg.observed_writes@.len(),
            all_values@ == reg.observed_writes@.subrange(0, i as int),
        decreases reg.observed_writes@.len() - i,
    {
        all_values.push(reg.observed_writes[i]);
        i = i + 1;
    }
    assert(reg.observed_writes@.subrange(0, i as int) == reg.observed_writes@);
    let mut i: usize = 0;
    while i < reg.observed_reads.len()
        invariant
            i <= reg.observed_reads@.len(),
            all_values@ == reg.observed_writes@ + reg.observed_reads@.subrange(0, i as int),
        decreases reg.observed_reads@.len() - i,
    {
        all_values.push(reg.observed_reads[i]);
        i = i + 1;
    }
    assert(reg.observed_reads@.subrange(0, i as int) == reg.observed_reads@);
    let ghost vals = all_values@;
    assert(vals == observed_values(*reg));

    if all_values.len() < 2 {
        return Vec::new();
    }
    let mut mask: u64 = 0;
    let mut i: usize = 1;
    while i < all_values.len()
        invariant
            1 <= i <= vals.len(),
            vals == all_values@,
            mask == change_mask(vals, i as int),
        decreases vals.len() - i,
    {
        mask = mask | (all_values[i - 1] ^ all_values[i]);
        i = i + 1;
    }
    if mask == 0 {
        return Vec::new();
    }
    let ghost spans = field_spans(mask, 0);
    let mut fields: Vec<Bitfield> = Vec::new();
    let ghost mut done: Seq<(int, int)> = Seq::empty();
    let mut bit: usize = 0;
    while bit < 64
        invariant
            bit <= 64,
            vals == all_values@,
            mask != 0xffff_ffff_ffff_ffffu64,
            spans == field_spans(mask, 0),
            spans == done + field_spans(mask, bit as int),
            fields@.len() == done.len(),
            forall|j: int|
                0 <= j < done.len() ==> is_field(
                    #[trigger] fields@[j],
                    done[j].0,
                    done[j].1,
                    field_values(vals, done[j].0, done[j].1),
                ),
        decreases 64 - bit,
    {
        if (mask >> (bit as u64)) & 1 == 1 {
            let mut w: u8 = 1;
            while (bit + (w as usize)) < 64 && ((mask >> ((bit + (w as usize)) as u64)) & 1) == 1
                invariant
                    bit < 64,
                    1 <= w,
                    bit + w <= 64,
                    run_len(mask, bit as int) == w + run_len(mask, bit + w),
                decreases 64 - bit - w,
            {
                w = w + 1;
            }
            proof {
                lemma_run_len_bound(mask, 0);
                if bit == 0 && w == 64 {
                    lemma_full_run_is_all_ones(mask, 0);
                    assert(mask >> 0u64 == mask) by (bit_vector);
                    assert(0xffff_ffff_ffff_ffffu64 >> 0u64 == 0xffff_ffff_ffff_ffffu64)
                        by (bit_vector);
                }
            }
            assert(w < 64);
            assert(1u64 << w >= 1) by (bit_vector)
                requires
                    w < 64,
            ;
            let values = collect_field_values(&all_values, bit, w);
            let f = Bitfield {
                offset: bit as u8,
                width: w,
                name: None,
                values,
                observed_mask: (1u64 << w) - 1,
            };
            proof {
                assert(field_spans(mask, bit as int) == seq![(bit as int, w as int)] + field_spans(
                    mask,
                    bit + w,
                ));
                done = done.push((bit as int, w as int));
            }
            fields.push(f);
            bit = bit + w as usize;
        } else {
            bit = bit + 1;
        }
    }
    assert(done == spans);
    fields
}


/// Whether bit `b` lies in one of the first `k` spans.
pub open spec fn in_some_span(spans: Seq<(int, int)>, b: int) -> bool {
    exists|i: int| 0 <= i < spans.len() && (#[trigger] spans[i]).0 <= b < spans[i].0 + spans[i].1
}

proof fn lemma_run_len_bits(mask: u64, b: int, j: int)
    requires
        0 <= b <= j < b + run_len(mask, b),
    ensures
        bit_set(mask, j),
        j < 64,
    decreases j - b,
{
    if j > b {
        lemma_run_len_bits(mask, b + 1, j);
    }
}

proof fn lemma_run_len_end(mask: u64, b: int)
    requires
        0 <= b < 64,
    ensures
        b + run_len(mask, b) < 64 ==> !bit_set(mask, b + run_len(mask, b)),
    decreases 64 - b,
{
    if bit_set(mask, b) && b + 1 < 64 {
        lemma_run_len_end(mask, b + 1);
    }
}

proof fn lemma_field_spans(mask: u64, b: int)
    requires
        0 <= b <= 64,
    ensures
        forall|j: int| b <= j < 64 ==> (bit_set(mask, j) <==> in_some_span(field_spans(mask, b), j)),
        forall|i: int|
            0 <= i < field_spans(mask, b).len() ==> b <= (#[trigger] field_spans(mask, b)[i]).0 && 1
                <= field_spans(mask, b)[i].1 && field_spans(mask, b)[i].0 + field_spans(mask, b)[i].1 <= 64,
        forall|i: int|
            0 <= i < field_spans(mask, b).len() - 1 ==> (#[trigger] field_spans(mask, b)[i]).0 + field_spans(
                mask,
                b,
            )[i].1 < field_spans(mask, b)[i + 1].0,
    decreases 64 - b,
{
    if b < 64 {
        if bit_set(mask, b) {
            let w = run_len(mask, b) as int;
            lemma_run_len_bound(mask, b);
            lemma_run_len_end(mask, b);
            lemma_field_spans(mask, b + w);
            let rest = field_spans(mask, b + w);
            let spans = field_spans(mask, b);
            assert(spans == seq![(b, w)] + rest);
            assert forall|j: int| b <= j < 64 implies (bit_set(mask, j) <==> in_some_span(spans, j)) by {
                if j < b + w {
                    lemma_run_len_bits(mask, b, j);
                    assert(spans[0].0 <= j < spans[0].0 + spans[0].1);
                } else {
                    if in_some_span(rest, j) {
                        let i = choose|i: int| 0 <= i < rest.len() && (#[trigger] rest[i]).0 <= j < rest[i].0 + rest[i].1;
                        assert(spans[i + 1] == rest[i]);
                    }
                    if in_some_span(spans, j) {
                        let i = choose|i: int| 0 <= i < spans.len() && (#[trigger] spans[i]).0 <= j < spans[i].0 + spans[i].1;
                        if i > 0 {
                            assert(rest[i - 1] == spans[i]);
                        }
                    }
                }
            }
            assert forall|i: int| 0 <= i < spans.len() - 1 implies (#[trigger] spans[i]).0 + spans[i].1
                < spans[i + 1].0 by {
                if i == 0 {
                    if rest.len() > 0 {
                        assert(spans[1] == rest[0]);
                        if rest[0].0 == b + w {
                            assert(bit_set(mask, b + w));
                        }
                    }
                } else {
                    assert(spans[i] == rest[i - 1]);
                    assert(spans[i + 1] == rest[i]);
                }
            }
            assert forall|i: int| 0 <= i < spans.len() implies b <= (#[trigger] spans[i]).0 && 1 <= spans[i].1
                && spans[i].0 + spans[i].1 <= 64 by {
                if i > 0 {
                    assert(spans[i] == rest[i - 1]);
                }
            }
        } else {
            lemma_field_spans(mask, b + 1);
            let spans = field_spans(mask, b);
            assert(spans == field_spans(mask, b + 1));
            assert forall|j: int| b <= j < 64 implies (bit_set(mask, j) <==> in_some_span(spans, j)) by {
                if j == b && in_some_span(spans, j) {
                    let i = choose|i: int| 0 <= i < spans.len() && (#[trigger] spans[i]).0 <= j < spans[i].0 + spans[i].1;
                }
            }
        }
    } else {
        assert forall|j: int| b <= j < 64 implies (bit_set(mask, j) <==> in_some_span(field_spans(mask, b), j)) by {}
    }
}

/// The detected bitfields partition the bits that changed between consecutive
/// observed values: they are ordered by offset, lie within the 64-bit value,
/// are each at least one bit wide, are separated by at least one unchanged bit,
/// and a bit changed exactly when it lies in one of them.
pub proof fn bitfields_partition_changed_bits(reg: RegisterModel, fields: Seq<Bitfield>)
    requires
        bitfields_match(reg, fields),
        observed_values(reg).len() >= 2,
    ensures
        ({
            let vals = observed_values(reg);
            let mask = change_mask(vals, vals.len() as int);
            &&& forall|i: int|
                0 <= i < fields.len() ==> 1 <= (#[trigger] fields[i]).width && fields[i].offset
                    + fields[i].width <= 64
            &&& forall|i: int|
                0 <= i < fields.len() - 1 ==> (#[trigger] fields[i]).offset + fields[i].width
                    < fields[i + 1].offset
            &&& forall|b: int|
                0 <= b < 64 ==> (bit_set(mask, b) <==> exists|i: int|
                    0 <= i < fields.len() && (#[trigger] fields[i]).offset <= b < fields[i].offset + fields[i].width)
        }),
{
    let vals = observed_values(reg);
    let mask = change_mask(vals, vals.len() as int);
    lemma_field_spans(mask, 0);
    if mask == 0 {
        assert forall|b: int| 0 <= b < 64 implies !bit_set(mask, b) by {
            let bb = b as u64;
            assert((0u64 >> bb) & 1 == 0) by (bit_vector);
        }
    } else {
        let spans = field_spans(mask, 0);
        assert forall|b: int| 0 <= b < 64 implies (bit_set(mask, b) <==> exists|i: int|
            0 <= i < fields.len() && (#[trigger] fields[i]).offset <= b < fields[i].offset + fields[i].width) by {
            if bit_set(mask, b) {
                let i = choose|i: int| 0 <= i < spans.len() && (#[trigger] spans[i]).0 <= b < spans[i].0 + spans[i].1;
                assert(is_field(fields[i], spans[i].0, spans[i].1, field_values(vals, spans[i].0, spans[i].1)));
            }
            if exists|i: int| 0 <= i < fields.len() && (#[trigger] fields[i]).offset <= b < fields[i].offset + fields[i].width {
                let i = choose|i: int|
                    0 <= i < fields.len() && (#[trigger] fields[i]).offset <= b < fields[i].offset + fields[i].width;
                assert(is_field(fields[i], spans[i].0, spans[i].1, field_values(vals, spans[i].0, spans[i].1)));
                assert(in_some_span(spans, b));
            }
        }
        assert forall|i: int| 0 <= i < fields.len() - 1 implies (#[trigger] fields[i]).offset + fields[i].width
            < fields[i + 1].offset by {
            assert(is_field(fields[i], spans[i].0, spans[i].1, field_values(vals, spans[i].0, spans[i].1)));
            assert(is_field(fields[i + 1], spans[i + 1].0, spans[i + 1].1, field_values(vals, spans[i + 1].0, spans[i + 1].1)));
        }
        assert forall|i: int| 0 <= i < fields.len() implies 1 <= (#[trigger] fields[i]).width && fields[i].offset
            + fields[i].width <= 64 by {
            assert(is_field(fields[i], spans[i].0, spans[i].1, field_values(vals, spans[i].0, spans[i].1)));
        }
    }
}

// ---------------------------------------------------------------------------
// Register map
// ---------------------------------------------------------------------------

/// The purpose suggested by how a register is accessed.
pub open spec fn spec_purpose(polling: bool, count: usize, access: AccessType) -> Option<Seq<char>> {
    if polling {
        Some("status"@)
    } else if count == 1 && access is Write {
        Some("control"@)
    } else if count > 2 && access is Write {
        Some("config"@)
    } else if access is Read && count <= 2 {
        Some("version"@)
    } else {
        None
    }
}

/// The view of an optional string.
pub open spec fn opt_str_view(s: Option<String>) -> Option<Seq<char>> {
    match s {
        Some(t) => Some(t@),
        None => None,
    }
}

/// Guesses what a register is for: a polled register is a status register,
/// a register written once a control register, one written more than twice
/// a configuration register, and one read at most twice a version register.
pub fn guess_purpose(reg: &RegisterModel) -> (p: Option<String>)
    ensures
        opt_str_view(p) == spec_purpose(reg.polling, reg.count, reg.access),
{
    proof {
        reveal_strlit("status");
        reveal_strlit("control");
        reveal_strlit("config");
        reveal_strlit("version");
    }
    if reg.polling {
        return Some(String::from_str("status"));
    }
    if reg.count == 1 && matches!(reg.access, AccessType::Write) {
        return Some(String::from_str("control"));
    }
    if reg.count > 2 && matches!(reg.access, AccessType::Write) {
        return Some(String::from_str("config"));
    }
    if matches!(reg.access, AccessType::Read) && reg.count <= 2 {
        return Some(String::from_str("version"));
    }
    None
}

/// The register offset of an access: its distance from the region base, truncated to 32 bits.
pub open spec fn acc_offset(a: MmioAccess, base: u64) -> u32 {
    (a.address - base) as u32
}

/// The register-model direction of an access direction.
pub open spec fn spec_direction(t: MmioAccessType) -> AccessType {
    match t {
        MmioAccessType::Read => AccessType::Read,
        MmioAccessType::Write => AccessType::Write,
    }
}

/// Every access of the region lies at or above its base.
pub open spec fn accesses_above_base(region: MmioRegion) -> bool {
    forall|i: int|
        0 <= i < region.accesses@.len() ==> (#[trigger] region.accesses@[i]).address >= region.base
}

/// Number of accesses at offset `o` among the first `k`, counting only those of direction `t` when given.
pub open spec fn count_at(accs: Seq<MmioAccess>, base: u64, o: u32, t: Option<MmioAccessType>, k: int) -> nat
    decreases k,
{
    if k <= 0 {
        0
    } else {
        count_at(accs, base, o, t, k - 1) + if acc_offset(accs[k - 1], base) == o && (t is None
            || t == Some(accs[k - 1].access_type)) {
            1nat
        } else {
            0nat
        }
    }
}

/// Index of the first access at offset `o` among the first `k`, or -1.
pub open spec fn first_at(accs: Seq<MmioAccess>, base: u64, o: u32, k: int) -> int
    decreases k,
{
    if k <= 0 {
        -1
    } else if first_at(accs, base, o, k - 1) >= 0 {
        first_at(accs, base, o, k - 1)
    } else if acc_offset(accs[k - 1], base) == o {
        k - 1
    } else {
        -1
    }
}

/// A sequence of `n` zeros.
pub open spec fn zeros(n: nat) -> Seq<u64> {
    Seq::new(n, |i: int| 0u64)
}

/// `reg` summarises the accesses at its offset: direction and width of the
/// first, number of accesses, one zero per read and per write, and the
/// purpose and bitfields that follow from those.
pub open spec fn summarizes(reg: RegisterModel, accs: Seq<MmioAccess>, base: u64) -> bool {
    let o = reg.offset;
    let n = accs.len() as int;
    let f = first_at(accs, base, o, n);
    &&& 0 <= f < n
    &&& reg.access == spec_direction(accs[f].access_type)
    &&& reg.width == accs[f].size
    &&& reg.count == count_at(accs, base, o, None, n)
    &&& reg.observed_reads@ == zeros(count_at(accs, base, o, Some(MmioAccessType::Read), n))
    &&& reg.observed_writes@ == zeros(count_at(accs, base, o, Some(MmioAccessType::Write), n))
    &&& reg.name is None
    &&& reg.polling == (reg.count > 3 && reg.access is Read)
    &&& opt_str_view(reg.purpose) == spec_purpose(reg.polling, reg.count, reg.access)
    &&& bitfields_match(reg, reg.bitfields@)
}

/// The register map of a region: one register per distinct access offset,
/// in increasing offset order, each summarising the accesses at its offset.
pub open spec fn register_map_matches(regs: Seq<RegisterModel>, accs: Seq<MmioAccess>, base: u64) -> bool {
    &&& forall|i: int, j: int| 0 <= i < j < regs.len() ==> regs[i].offset < regs[j].offset
    &&& forall|i: int| 0 <= i < regs.len() ==> summarizes(#[trigger] regs[i], accs, base)
    &&& forall|k: int| 0 <= k < accs.len() ==> has_register_at(regs, acc_offset(#[trigger] accs[k], base))
}

/// Some register of `regs` has offset `o`.
pub open spec fn has_register_at(regs: Seq<RegisterModel>, o: u32) -> bool {
    exists|i: int| 0 <= i < regs.len() && (#[trigger] regs[i]).offset == o
}

/// Running totals for one offset: offset, first direction, first width, accesses, reads, writes.
type RegTally = (u32, MmioAccessType, u8, usize, usize, usize);

spec fn tally_ok(r: RegTally, accs: Seq<MmioAccess>, base: u64, k: int) -> bool {
    let f = first_at(accs, base, r.0, k);
    &&& 0 <= f < k
    &&& r.1 == accs[f].access_type
    &&& r.2 == accs[f].size
    &&& r.3 == count_at(accs, base, r.0, None, k)
    &&& r.4 == count_at(accs, base, r.0, Some(MmioAccessType::Read), k)
    &&& r.5 == count_at(accs, base, r.0, Some(MmioAccessType::Write), k)
    &&& r.3 <= k
    &&& r.3 == r.4 + r.5
}

spec fn tallies_inv(t: Seq<RegTally>, accs: Seq<MmioAccess>, base: u64, k: int) -> bool {
    &&& forall|i: int, j: int| 0 <= i < j < t.len() ==> t[i].0 < t[j].0
    &&& forall|i: int| 0 <= i < t.len() ==> tally_ok(#[trigger] t[i], accs, base, k)
    &&& forall|j: int| 0 <= j < k ==> has_tally_at(t, acc_offset(#[trigger] accs[j], base))
}

spec fn has_tally_at(t: Seq<RegTally>, o: u32) -> bool {
    exists|i: int| 0 <= i < t.len() && (#[trigger] t[i]).0 == o
}

proof fn lemma_count_split(accs: Seq<MmioAccess>, base: u64, o: u32, k: int)
    requires
        0 <= k,
    ensures
        count_at(accs, base, o, None, k) <= k,
        count_at(accs, base, o, None, k) == count_at(accs, base, o, Some(MmioAccessType::Read), k)
            + count_at(accs, base, o, Some(MmioAccessType::Write), k),
    decreases k,
{
    if k > 0 {
        lemma_count_split(accs, base, o, k - 1);
    }
}

proof fn lemma_first_absent(accs: Seq<MmioAccess>, base: u64, o: u32, k: int)
    requires
        0 <= k,
        forall|j: int| 0 <= j < k ==> acc_offset(#[trigger] accs[j], base) != o,
    ensures
        first_at(accs, base, o, k) == -1,
        count_at(accs, base, o, None, k) == 0,
        count_at(accs, base, o, Some(MmioAccessType::Read), k) == 0,
        count_at(accs, base, o, Some(MmioAccessType::Write), k) == 0,
    decreases k,
{
    if k > 0 {
        lemma_first_absent(accs, base, o, k - 1);
    }
}

proof fn lemma_first_stable(accs: Seq<MmioAccess>, base: u64, o: u32, k: int)
    requires
        0 <= k,
    ensures
        first_at(accs, base, o, k) >= 0 ==> first_at(accs, base, o, k + 1) == first_at(accs, base, o, k),
        first_at(accs, base, o, k) < k,
        first_at(accs, base, o, k) >= -1,
        first_at(accs, base, o, k) >= 0 ==> acc_offset(accs[first_at(accs, base, o, k)], base) == o,
    decreases k,
{
    if k > 0 {
        lemma_first_stable(accs, base, o, k - 1);
    }
}

proof fn lemma_tally_step(r: RegTally, accs: Seq<MmioAccess>, base: u64, k: int)
    requires
        0 <= k < accs.len(),
        tally_ok(r, accs, base, k),
        acc_offset(accs[k], base) != r.0,
    ensures
        tally_ok(r, accs, base, k + 1),
{
    lemma_first_stable(accs, base, r.0, k);
}

proof fn lemma_change_mask_zeros(s: Seq<u64>, k: int)
    requires
        0 <= k <= s.len(),
        forall|i: int| 0 <= i < s.len() ==> s[i] == 0,
    ensures
        change_mask(s, k) == 0,
    decreases k,
{
    if k > 1 {
        lemma_change_mask_zeros(s, k - 1);
        assert(0u64 | (0u64 ^ 0u64) == 0u64) by (bit_vector);
    }
}

fn zero_vec(n: usize) -> (v: Vec<u64>)
    ensures
        v@ == zeros(n as nat),
{
    let mut v: Vec<u64> = Vec::new();
    let mut i: usize = 0;
    while i < n
        invariant
            i <= n,
            v@ == zeros(i as nat),
        decreases n - i,
    {
        v.push(0);
        i = i + 1;
    }
    v
}

proof fn lemma_record_existing(
    old_t: Seq<RegTally>,
    new_t: Seq<RegTally>,
    p: int,
    nt: RegTally,
    accs: Seq<MmioAccess>,
    base: u64,
    k: int,
)
    requires
        0 <= k < accs.len(),
        tallies_inv(old_t, accs, base, k),
        0 <= p < old_t.len(),
        old_t[p].0 == acc_offset(accs[k], base),
        nt.0 == old_t[p].0,
        nt.1 == old_t[p].1,
        nt.2 == old_t[p].2,
        nt.3 == old_t[p].3 + 1,
        accs[k].access_type is Read ==> nt.4 == old_t[p].4 + 1 && nt.5 == old_t[p].5,
        accs[k].access_type is Write ==> nt.4 == old_t[p].4 && nt.5 == old_t[p].5 + 1,
        new_t == old_t.update(p, nt),
    ensures
        tallies_inv(new_t, accs, base, k + 1),
{
    let offset = old_t[p].0;
    assert(tally_ok(old_t[p], accs, base, k));
    lemma_first_stable(accs, base, offset, k);
    assert forall|i: int| 0 <= i < new_t.len() implies tally_ok(#[trigger] new_t[i], accs, base, k + 1) by {
        if i != p {
            assert(new_t[i] == old_t[i]);
            assert(tally_ok(old_t[i], accs, base, k));
            if i < p {
                assert(old_t[i].0 < old_t[p].0);
            } else {
                assert(old_t[p].0 < old_t[i].0);
            }
            lemma_tally_step(old_t[i], accs, base, k);
        }
    }
    assert forall|j: int| 0 <= j < k + 1 implies has_tally_at(new_t, acc_offset(#[trigger] accs[j], base)) by {
        if j == k {
            assert(new_t[p].0 == acc_offset(accs[j], base));
        } else {
            assert(has_tally_at(old_t, acc_offset(accs[j], base)));
            let i = choose|i: int| 0 <= i < old_t.len() && (#[trigger] old_t[i]).0 == acc_offset(accs[j], base);
            assert(new_t[i].0 == old_t[i].0);
        }
    }
}

spec fn insert_ok(old_t: Seq<RegTally>, p: int, nt: RegTally) -> bool {
    &&& 0 <= p <= old_t.len()
    &&& forall|i: int| 0 <= i < p ==> (#[trigger] old_t[i]).0 < nt.0
    &&& p < old_t.len() ==> old_t[p].0 > nt.0
}

proof fn lemma_insert_sorted(old_t: Seq<RegTally>, p: int, nt: RegTally)
    requires
        forall|i: int, j: int| 0 <= i < j < old_t.len() ==> old_t[i].0 < old_t[j].0,
        insert_ok(old_t, p, nt),
    ensures
        forall|i: int, j: int|
            0 <= i < j < old_t.insert(p, nt).len() ==> old_t.insert(p, nt)[i].0 < old_t.insert(p, nt)[j].0,
{
    let new_t = old_t.insert(p, nt);
    assert forall|i: int, j: int| 0 <= i < j < new_t.len() implies new_t[i].0 < new_t[j].0 by {
        if j > p {
            assert(new_t[j] == old_t[j - 1]);
            if j - 1 > p {
                assert(old_t[p].0 < old_t[j - 1].0);
            }
            if i > p {
                assert(new_t[i] == old_t[i - 1]);
            } else if i < p {
                assert(new_t[i] == old_t[i]);
            }
        } else if j == p {
            assert(new_t[i] == old_t[i]);
        } else {
            assert(new_t[i] == old_t[i]);
            assert(new_t[j] == old_t[j]);
        }
    }
}

proof fn lemma_new_absent(old_t: Seq<RegTally>, p: int, nt: RegTally, accs: Seq<MmioAccess>, base: u64, k: int)
    requires
        0 <= k < accs.len(),
        forall|i: int, j: int| 0 <= i < j < old_t.len() ==> old_t[i].0 < old_t[j].0,
        forall|j: int| 0 <= j < k ==> has_tally_at(old_t, acc_offset(#[trigger] accs[j], base)),
        insert_ok(old_t, p, nt),
    ensures
        forall|j: int| 0 <= j < k ==> acc_offset(#[trigger] accs[j], base) != nt.0,
{
    assert forall|j: int| 0 <= j < k implies acc_offset(#[trigger] accs[j], base) != nt.0 by {
        assert(has_tally_at(old_t, acc_offset(accs[j], base)));
        let i = choose|i: int| 0 <= i < old_t.len() && (#[trigger] old_t[i]).0 == acc_offset(accs[j], base);
        if i > p {
            assert(old_t[p].0 < old_t[i].0);
        }
    }
}

proof fn lemma_new_tallies_ok(old_t: Seq<RegTally>, p: int, nt: RegTally, accs: Seq<MmioAccess>, base: u64, k: int)
    requires
        0 <= k < accs.len(),
        forall|i: int| 0 <= i < old_t.len() ==> tally_ok(#[trigger] old_t[i], accs, base, k),
        0 <= p <= old_t.len(),
        forall|i: int| 0 <= i < old_t.len() ==> (#[trigger] old_t[i]).0 != nt.0,
        tally_ok(nt, accs, base, k + 1),
        nt.0 == acc_offset(accs[k], base),
    ensures
        forall|i: int| 0 <= i < old_t.insert(p, nt).len() ==> tally_ok(#[trigger] old_t.insert(p, nt)[i], accs, base, k + 1),
{
    let new_t = old_t.insert(p, nt);
    assert forall|i: int| 0 <= i < new_t.len() implies tally_ok(#[trigger] new_t[i], accs, base, k + 1) by {
        if i < p {
            assert(new_t[i] == old_t[i]);
            lemma_tally_step(old_t[i], accs, base, k);
        } else if i > p {
            assert(new_t[i] == old_t[i - 1]);
            lemma_tally_step(old_t[i - 1], accs, base, k);
        }
    }
}

proof fn lemma_new_coverage(old_t: Seq<RegTally>, p: int, nt: RegTally, accs: Seq<MmioAccess>, base: u64, k: int)
    requires
        0 <= k < accs.len(),
        0 <= p <= old_t.len(),
        forall|j: int| 0 <= j < k ==> has_tally_at(old_t, acc_offset(#[trigger] accs[j], base)),
        nt.0 == acc_offset(accs[k], base),
    ensures
        forall|j: int| 0 <= j < k + 1 ==> has_tally_at(old_t.insert(p, nt), acc_offset(#[trigger] accs[j], base)),
{
    let new_t = old_t.insert(p, nt);
    assert forall|j: int| 0 <= j < k + 1 implies has_tally_at(new_t, acc_offset(#[trigger] accs[j], base)) by {
        if j == k {
            assert(new_t[p].0 == acc_offset(accs[j], base));
        } else {
            assert(has_tally_at(old_t, acc_offset(accs[j], base)));
            let i = choose|i: int| 0 <= i < old_t.len() && (#[trigger] old_t[i]).0 == acc_offset(accs[j], base);
            if i < p {
                assert(new_t[i].0 == old_t[i].0);
            } else {
                assert(new_t[i + 1].0 == old_t[i].0);
            }
        }
    }
}

proof fn lemma_record_new(
    old_t: Seq<RegTally>,
    p: int,
    nt: RegTally,
    accs: Seq<MmioAccess>,
    base: u64,
    k: int,
)
    requires
        0 <= k < accs.len(),
        tallies_inv(old_t, accs, base, k),
        insert_ok(old_t, p, nt),
        nt.0 == acc_offset(accs[k], base),
        nt.1 == accs[k].access_type,
        nt.2 == accs[k].size,
        nt.3 == 1,
        accs[k].access_type is Read ==> nt.4 == 1 && nt.5 == 0,
        accs[k].access_type is Write ==> nt.4 == 0 && nt.5 == 1,
    ensures
        tallies_inv(old_t.insert(p, nt), accs, base, k + 1),
{
    lemma_new_absent(old_t, p, nt, accs, base, k);
    lemma_first_absent(accs, base, nt.0, k);
    assert(tally_ok(nt, accs, base, k + 1));
    assert forall|i: int| 0 <= i < old_t.len() implies (#[trigger] old_t[i]).0 != nt.0 by {
        if i < p {
        } else if i > p {
            assert(old_t[p].0 < old_t[i].0);
        }
    }
    lemma_new_tallies_ok(old_t, p, nt, accs, base, k);
    lemma_insert_sorted(old_t, p, nt);
    lemma_new_coverage(old_t, p, nt, accs, base, k);
}

fn record_access(tallies: &mut Vec<RegTally>, region: &MmioRegion, k: usize)
    requires
        k < region.accesses@.len(),
        accesses_above_base(*region),
        tallies_inv(old(tallies)@, region.accesses@, region.base, k as int),
    ensures
        tallies_inv(final(tallies)@, region.accesses@, region.base, k + 1),
{
    let ghost accs = region.accesses@;
    let base = region.base;
    let n = region.accesses.len();
    let access = &region.accesses[k];
    assert(access.address >= base);
    let offset = (access.address - base) as u32;
    let is_read = matches!(access.access_type, MmioAccessType::Read);
    let mut p: usize = 0;
    while p < tallies.len() && tallies[p].0 < offset
        invariant
            p <= tallies@.len(),
            forall|i: int| 0 <= i < p ==> (#[trigger] tallies@[i]).0 < offset,
        decreases tallies@.len() - p,
    {
        p = p + 1;
    }
    let ghost old_t = tallies@;
    if p < tallies.len() && tallies[p].0 == offset {
        let t = tallies[p];
        assert(tally_ok(old_t[p as int], accs, base, k as int));
        assert(t.3 <= k && k < n);
        let nt: RegTally = if is_read {
            (t.0, t.1, t.2, t.3 + 1, t.4 + 1, t.5)
        } else {
            (t.0, t.1, t.2, t.3 + 1, t.4, t.5 + 1)
        };
        tallies.set(p, nt);
        proof {
            lemma_record_existing(old_t, tallies@, p as int, nt, accs, base, k as int);
        }
    } else {
        let nt: RegTally = if is_read {
            (offset, access.access_type, access.size, 1, 1, 0)
        } else {
            (offset, access.access_type, access.size, 1, 0, 1)
        };
        proof {
            lemma_record_new(old_t, p as int, nt, accs, base, k as int);
        }
        tallies.insert(p, nt);
    }
}

fn register_from_tally(t: RegTally, accs: Ghost<Seq<MmioAccess>>, base: u64) -> (reg: RegisterModel)
    requires
        tally_ok(t, accs@, base, accs@.len() as int),
    ensures
        reg.offset == t.0,
        summarizes(reg, accs@, base),
{
    let mut reg = RegisterModel {
        offset: t.0,
        name: None,
        access: match t.1 {
            MmioAccessType::Read => AccessType::Read,
            MmioAccessType::Write => AccessType::Write,
        },
        width: t.2,
        observed_writes: zero_vec(t.5),
        observed_reads: zero_vec(t.4),
        bitfields: Vec::new(),
        polling: false,
        count: t.3,
        purpose: None,
    };
    reg.polling = reg.count > 3 && matches!(reg.access, AccessType::Read);
    reg.purpose = guess_purpose(&reg);
    proof {
        let vals = observed_values(reg);
        lemma_change_mask_zeros(vals, vals.len() as int);
    }
    reg.bitfields = detect_bitfields(&reg);
    reg
}

/// Groups a region's accesses by register offset and summarises each register,
/// in increasing offset order.
fn build_register_map(region: &MmioRegion) -> (regs: Vec<RegisterModel>)
    requires
        accesses_above_base(*region),
    ensures
        register_map_matches(regs@, region.accesses@, region.base),
{
    let ghost accs = region.accesses@;
    let base = region.base;
    let mut tallies: Vec<RegTally> = Vec::new();
    let mut k: usize = 0;
    while k < region.accesses.len()
        invariant
            accs == region.accesses@,
            base == region.base,
            accesses_above_base(*region),
            k <= accs.len(),
            tallies_inv(tallies@, accs, base, k as int),
        decreases accs.len() - k,
    {
        record_access(&mut tallies, region, k);
        k = k + 1;
    }
    let mut regs: Vec<RegisterModel> = Vec::new();
    let mut i: usize = 0;
    while i < tallies.len()
        invariant
            k == accs.len(),
            accs == region.accesses@,
            base == region.base,
            i <= tallies@.len(),
            regs@.len() == i,
            tallies_inv(tallies@, accs, base, k as int),
            forall|a: int| 0 <= a < i ==> (#[trigger] regs@[a]).offset == tallies@[a].0,
            forall|a: int| 0 <= a < i ==> summarizes(#[trigger] regs@[a], accs, base),
        decreases tallies@.len() - i,
    {
        let reg = register_from_tally(tallies[i], Ghost(accs), base);
        regs.push(reg);
        i = i + 1;
    }
    proof {
        assert forall|a: int, b: int| 0 <= a < b < regs@.len() implies regs@[a].offset < regs@[b].offset by {
            assert(regs@[a].offset == tallies@[a].0);
            assert(regs@[b].offset == tallies@[b].0);
        }
        assert forall|j: int| 0 <= j < accs.len() implies has_register_at(regs@, acc_offset(#[trigger] accs[j], base)) by {
            assert(has_tally_at(tallies@, acc_offset(accs[j], base)));
            let a = choose|a: int|
                0 <= a < tallies@.len() && (#[trigger] tallies@[a]).0 == acc_offset(accs[j], base);
            assert(regs@[a].offset == tallies@[a].0);
        }
        assert forall|a: int| 0 <= a < regs@.len() implies summarizes(#[trigger] regs@[a], accs, base) by {}
        assert(register_map_matches(regs@, accs, base));
    }
    regs
}


/// Number of accesses at the offsets of the first `m` registers, among the first `k` accesses.
pub open spec fn counted(regs: Seq<RegisterModel>, accs: Seq<MmioAccess>, base: u64, k: int, m: int) -> int
    decreases m,
{
    if m <= 0 {
        0
    } else {
        counted(regs, accs, base, k, m - 1) + count_at(accs, base, regs[m - 1].offset, None, k)
    }
}

/// Number of the first `m` registers at offset `o`.
spec fn regs_at(regs: Seq<RegisterModel>, o: u32, m: int) -> int
    decreases m,
{
    if m <= 0 {
        0
    } else {
        regs_at(regs, o, m - 1) + if regs[m - 1].offset == o { 1int } else { 0int }
    }
}

proof fn lemma_counted_step(regs: Seq<RegisterModel>, accs: Seq<MmioAccess>, base: u64, k: int, m: int)
    requires
        0 <= k,
    ensures
        counted(regs, accs, base, k + 1, m) == counted(regs, accs, base, k, m) + regs_at(
            regs,
            acc_offset(accs[k], base),
            m,
        ),
    decreases m,
{
    if m > 0 {
        lemma_counted_step(regs, accs, base, k, m - 1);
    }
}

proof fn lemma_regs_at_one(regs: Seq<RegisterModel>, o: u32, m: int)
    requires
        0 <= m <= regs.len(),
        forall|i: int, j: int| 0 <= i < j < regs.len() ==> regs[i].offset < regs[j].offset,
    ensures
        regs_at(regs, o, m) == if exists|i: int| 0 <= i < m && (#[trigger] regs[i]).offset == o { 1int } else { 0int },
    decreases m,
{
    if m > 0 {
        lemma_regs_at_one(regs, o, m - 1);
        if regs[m - 1].offset == o {
            if exists|i: int| 0 <= i < m - 1 && (#[trigger] regs[i]).offset == o {
                let i = choose|i: int| 0 <= i < m - 1 && (#[trigger] regs[i]).offset == o;
                assert(regs[i].offset < regs[m - 1].offset);
            }
        } else {
            if exists|i: int| 0 <= i < m && (#[trigger] regs[i]).offset == o {
                let i = choose|i: int| 0 <= i < m && (#[trigger] regs[i]).offset == o;
                assert(i < m - 1);
            }
        }
    }
}

proof fn lemma_counted_all(regs: Seq<RegisterModel>, accs: Seq<MmioAccess>, base: u64, k: int)
    requires
        0 <= k <= accs.len(),
        register_map_matches(regs, accs, base),
    ensures
        counted(regs, accs, base, k, regs.len() as int) == k,
    decreases k,
{
    if k > 0 {
        lemma_counted_all(regs, accs, base, k - 1);
        lemma_counted_step(regs, accs, base, k - 1, regs.len() as int);
        let o = acc_offset(accs[k - 1], base);
        lemma_regs_at_one(regs, o, regs.len() as int);
        assert(has_register_at(regs, o));
    } else {
        lemma_counted_zero(regs, accs, base, regs.len() as int);
    }
}

proof fn lemma_counted_zero(regs: Seq<RegisterModel>, accs: Seq<MmioAccess>, base: u64, m: int)
    ensures
        counted(regs, accs, base, 0, m) == 0,
    decreases m,
{
    if m > 0 {
        lemma_counted_zero(regs, accs, base, m - 1);
    }
}

/// Sum of the access counts of the first `m` registers.
pub open spec fn total_count(regs: Seq<RegisterModel>, m: int) -> int
    decreases m,
{
    if m <= 0 {
        0
    } else {
        total_count(regs, m - 1) + regs[m - 1].count
    }
}

/// The purpose given to each register of a map follows how it is used: a
/// polled register is "status"; otherwise a register first written and
/// accessed once is "control", one first written and accessed three times or
/// more is "config", one first read and accessed at most twice is "version",
/// and any other has no purpose.
pub proof fn register_purposes_follow_use(regs: Seq<RegisterModel>, accs: Seq<MmioAccess>, base: u64)
    requires
        register_map_matches(regs, accs, base),
    ensures
        forall|i: int|
            0 <= i < regs.len() ==> {
                let r = #[trigger] regs[i];
                &&& r.polling ==> opt_str_view(r.purpose) == Some("status"@)
                &&& !r.polling && r.access is Write && r.count == 1 ==> opt_str_view(r.purpose) == Some("control"@)
                &&& !r.polling && r.access is Write && r.count >= 3 ==> opt_str_view(r.purpose) == Some("config"@)
                &&& !r.polling && r.access is Read && r.count <= 2 ==> opt_str_view(r.purpose) == Some("version"@)
                &&& !r.polling && r.access is Write && r.count == 2 ==> r.purpose is None
                &&& !r.polling && r.access is Read && r.count >= 3 ==> r.purpose is None
                &&& r.polling <==> (r.access is Read && r.count >= 4)
            },
{
    assert forall|i: int| 0 <= i < regs.len() implies {
        let r = #[trigger] regs[i];
        &&& r.polling ==> opt_str_view(r.purpose) == Some("status"@)
        &&& !r.polling && r.access is Write && r.count == 1 ==> opt_str_view(r.purpose) == Some("control"@)
        &&& !r.polling && r.access is Write && r.count >= 3 ==> opt_str_view(r.purpose) == Some("config"@)
        &&& !r.polling && r.access is Read && r.count <= 2 ==> opt_str_view(r.purpose) == Some("version"@)
        &&& !r.polling && r.access is Write && r.count == 2 ==> r.purpose is None
        &&& !r.polling && r.access is Read && r.count >= 3 ==> r.purpose is None
        &&& r.polling <==> (r.access is Read && r.count >= 4)
    } by {
        assert(summarizes(regs[i], accs, base));
    }
}

/// Every access of a region is counted by exactly one register of its map:
/// the counts add up to the number of accesses. Each register's count is its
/// number of reads plus its number of writes, is at least one, and a polled
/// register is a status register.
pub proof fn register_map_counts_every_access(regs: Seq<RegisterModel>, accs: Seq<MmioAccess>, base: u64)
    requires
        register_map_matches(regs, accs, base),
    ensures
        total_count(regs, regs.len() as int) == accs.len(),
        forall|i: int|
            0 <= i < regs.len() ==> (#[trigger] regs[i]).observed_reads@.len() + regs[i].observed_writes@.len()
                == regs[i].count && regs[i].count >= 1,
        forall|i: int| 0 <= i < regs.len() && (#[trigger] regs[i]).polling ==> opt_str_view(regs[i].purpose) == Some("status"@),
{
    lemma_counted_all(regs, accs, base, accs.len() as int);
    assert forall|m: int| 0 <= m <= regs.len() implies total_count(regs, m) == counted(
        regs,
        accs,
        base,
        accs.len() as int,
        m,
    ) by {
        lemma_total_matches(regs, accs, base, m);
    }
    assert forall|i: int| 0 <= i < regs.len() implies (#[trigger] regs[i]).observed_reads@.len()
        + regs[i].observed_writes@.len() == regs[i].count && regs[i].count >= 1 by {
        assert(summarizes(regs[i], accs, base));
        let o = regs[i].offset;
        let n = accs.len() as int;
        lemma_count_split(accs, base, o, n);
        lemma_first_stable(accs, base, o, n);
        lemma_count_positive(accs, base, o, n, first_at(accs, base, o, n));
    }
}

proof fn lemma_total_matches(regs: Seq<RegisterModel>, accs: Seq<MmioAccess>, base: u64, m: int)
    requires
        0 <= m <= regs.len(),
        register_map_matches(regs, accs, base),
    ensures
        total_count(regs, m) == counted(regs, accs, base, accs.len() as int, m),
    decreases m,
{
    if m > 0 {
        lemma_total_matches(regs, accs, base, m - 1);
        assert(summarizes(regs[m - 1], accs, base));
    }
}

proof fn lemma_count_positive(accs: Seq<MmioAccess>, base: u64, o: u32, k: int, j: int)
    requires
        0 <= j < k,
        acc_offset(accs[j], base) == o,
    ensures
        count_at(accs, base, o, None, k) >= 1,
    decreases k,
{
    if j < k - 1 {
        lemma_count_positive(accs, base, o, k - 1, j);
    }
}

// ---------------------------------------------------------------------------
// Access sequences
// ---------------------------------------------------------------------------

/// Selects the accesses made by the instruction at address `x`.
pub open spec fn at_addr(x: u64) -> spec_fn(SequencedAccess) -> bool {
    |e: SequencedAccess| e.instruction_addr == x
}

/// Accesses are in non-decreasing instruction-address order.
pub open spec fn addr_sorted(s: Seq<SequencedAccess>) -> bool {
    forall|i: int, j: int| 0 <= i < j < s.len() ==> s[i].instruction_addr <= s[j].instruction_addr
}

/// `t` is `s` sorted by instruction address, with accesses of equal address
/// kept in their original relative order.
pub open spec fn stable_sorted(t: Seq<SequencedAccess>, s: Seq<SequencedAccess>) -> bool {
    &&& t.len() == s.len()
    &&& addr_sorted(t)
    &&& forall|x: u64| #[trigger] t.filter(at_addr(x)) == s.filter(at_addr(x))
}

proof fn lemma_filter_none(s: Seq<SequencedAccess>, x: u64)
    requires
        forall|i: int| 0 <= i < s.len() ==> s[i].instruction_addr != x,
    ensures
        s.filter(at_addr(x)) == Seq::<SequencedAccess>::empty(),
    decreases s.len(),
{
    reveal(Seq::filter);
    if s.len() > 0 {
        lemma_filter_none(s.drop_last(), x);
    }
}

proof fn lemma_sorted_insert(out: Seq<SequencedAccess>, p: int, e: SequencedAccess)
    requires
        addr_sorted(out),
        0 <= p <= out.len(),
        forall|j: int| 0 <= j < p ==> out[j].instruction_addr <= e.instruction_addr,
        forall|j: int| p <= j < out.len() ==> out[j].instruction_addr > e.instruction_addr,
    ensures
        addr_sorted(out.insert(p, e)),
        forall|x: u64|
            #[trigger] out.insert(p, e).filter(at_addr(x)) == if e.instruction_addr == x {
                out.filter(at_addr(x)).push(e)
            } else {
                out.filter(at_addr(x))
            },
{
    let t = out.insert(p, e);
    assert forall|i: int, j: int| 0 <= i < j < t.len() implies t[i].instruction_addr
        <= t[j].instruction_addr by {
        if i < p {
            assert(t[i] == out[i]);
        } else if i > p {
            assert(t[i] == out[i - 1]);
        }
        if j < p {
            assert(t[j] == out[j]);
        } else if j > p {
            assert(t[j] == out[j - 1]);
        }
    }
    assert forall|x: u64| #[trigger] t.filter(at_addr(x)) == if e.instruction_addr == x {
        out.filter(at_addr(x)).push(e)
    } else {
        out.filter(at_addr(x))
    } by {
        let a = out.take(p);
        let b = out.skip(p);
        assert(out == a + b);
        assert(t == a.push(e) + b);
        Seq::filter_distributes_over_add(a, b, at_addr(x));
        Seq::filter_distributes_over_add(a.push(e), b, at_addr(x));
        a.lemma_filter_push(e, at_addr(x));
        if e.instruction_addr == x {
            lemma_filter_none(b, x);
            assert(b.filter(at_addr(x)) == Seq::<SequencedAccess>::empty());
            assert(a.filter(at_addr(x)) + b.filter(at_addr(x)) == a.filter(at_addr(x)));
            assert(a.filter(at_addr(x)).push(e) + b.filter(at_addr(x)) == a.filter(at_addr(x)).push(e));
        }
    }
}

/// Sorts accesses by instruction address, keeping accesses of equal address in order.
fn stable_sort_by_addr(v: &Vec<SequencedAccess>) -> (r: Vec<SequencedAccess>)
    ensures
        stable_sorted(r@, v@),
{
    let mut out: Vec<SequencedAccess> = Vec::new();
    let mut i: usize = 0;
    while i < v.len()
        invariant
            i <= v@.len(),
            out@.len() == i,
            addr_sorted(out@),
            forall|x: u64| #[trigger] out@.filter(at_addr(x)) == v@.take(i as int).filter(at_addr(x)),
        decreases v@.len() - i,
    {
        let e = v[i];
        let mut p: usize = 0;
        while p < out.len() && out[p].instruction_addr <= e.instruction_addr
            invariant
                p <= out@.len(),
                forall|j: int| 0 <= j < p ==> out@[j].instruction_addr <= e.instruction_addr,
            decreases out@.len() - p,
        {
            p = p + 1;
        }
        proof {
            assert forall|j: int| p <= j < out@.len() implies out@[j].instruction_addr > e.instruction_addr by {
                assert(out@[p as int].instruction_addr > e.instruction_addr);
            }
            lemma_sorted_insert(out@, p as int, e);
            assert(v@.take(i + 1) == v@.take(i as int).push(e));
            assert forall|x: u64| #[trigger] out@.insert(p as int, e).filter(at_addr(x)) == v@.take(
                i + 1,
            ).filter(at_addr(x)) by {
                v@.take(i as int).lemma_filter_push(e, at_addr(x));
            }
        }
        out.insert(p, e);
        i = i + 1;
    }
    assert(v@.take(i as int) == v@);
    out
}


/// The sequence entry recorded for an access.
pub open spec fn seq_access(a: MmioAccess, base: u64) -> SequencedAccess {
    SequencedAccess {
        offset: acc_offset(a, base),
        access_type: spec_direction(a.access_type),
        value: None,
        instruction_addr: a.instruction_addr,
    }
}

/// The entries for the accesses made by function `name` among the first `k`, in access order.
pub open spec fn fn_group(accs: Seq<MmioAccess>, base: u64, name: Seq<char>, k: int) -> Seq<SequencedAccess>
    decreases k,
{
    if k <= 0 {
        Seq::empty()
    } else if accs[k - 1].function_name@ == name {
        fn_group(accs, base, name, k - 1).push(seq_access(accs[k - 1], base))
    } else {
        fn_group(accs, base, name, k - 1)
    }
}

/// Some sequence belongs to the function called `name`.
pub open spec fn has_sequence_for(seqs: Seq<AccessSequence>, name: Seq<char>) -> bool {
    exists|i: int| 0 <= i < seqs.len() && (#[trigger] seqs[i]).function@ == name
}

/// `seq` is the address-ordered sequence of its function's accesses.
pub open spec fn is_function_sequence(seq: AccessSequence, accs: Seq<MmioAccess>, base: u64) -> bool {
    &&& seq.accesses@.len() > 0
    &&& stable_sorted(seq.accesses@, fn_group(accs, base, seq.function@, accs.len() as int))
}

/// One sequence per function that made an access, each sorted by instruction
/// address (stably), the sequences ordered by the address of their first access.
pub open spec fn sequences_match(seqs: Seq<AccessSequence>, accs: Seq<MmioAccess>, base: u64) -> bool {
    &&& forall|i: int| 0 <= i < seqs.len() ==> is_function_sequence(#[trigger] seqs[i], accs, base)
    &&& forall|i: int, j: int| 0 <= i < j < seqs.len() ==> seqs[i].function@ != seqs[j].function@
    &&& forall|k: int| 0 <= k < accs.len() ==> has_sequence_for(seqs, (#[trigger] accs[k]).function_name@)
    &&& forall|i: int, j: int|
        0 <= i < j < seqs.len() ==> seqs[i].accesses@[0].instruction_addr
            <= seqs[j].accesses@[0].instruction_addr
}

spec fn has_name(names: Seq<String>, n: Seq<char>) -> bool {
    exists|i: int| 0 <= i < names.len() && (#[trigger] names[i])@ == n
}

spec fn made_access(accs: Seq<MmioAccess>, n: Seq<char>, k: int) -> bool {
    exists|j: int| 0 <= j < k && (#[trigger] accs[j]).function_name@ == n
}

proof fn lemma_fn_group_nonempty(accs: Seq<MmioAccess>, base: u64, n: Seq<char>, k: int, j: int)
    requires
        0 <= j < k <= accs.len(),
        accs[j].function_name@ == n,
    ensures
        fn_group(accs, base, n, k).len() > 0,
    decreases k,
{
    if j < k - 1 {
        lemma_fn_group_nonempty(accs, base, n, k - 1, j);
    }
}

/// The distinct names of the functions that made the accesses, in order of first access.
fn function_names(region: &MmioRegion) -> (names: Vec<String>)
    ensures
        forall|i: int, j: int| 0 <= i < j < names@.len() ==> names@[i]@ != names@[j]@,
        forall|k: int|
            0 <= k < region.accesses@.len() ==> has_name(names@, (#[trigger] region.accesses@[k]).function_name@),
        forall|i: int| 0 <= i < names@.len() ==> made_access(region.accesses@, (#[trigger] names@[i])@, region.accesses@.len() as int),
{
    let ghost accs = region.accesses@;
    let mut names: Vec<String> = Vec::new();
    let mut k: usize = 0;
    while k < region.accesses.len()
        invariant
            accs == region.accesses@,
            k <= accs.len(),
            forall|i: int, j: int| 0 <= i < j < names@.len() ==> names@[i]@ != names@[j]@,
            forall|j: int| 0 <= j < k ==> has_name(names@, (#[trigger] accs[j]).function_name@),
            forall|i: int| 0 <= i < names@.len() ==> made_access(accs, (#[trigger] names@[i])@, k as int),
        decreases accs.len() - k,
    {
        let name = &region.accesses[k].function_name;
        let mut found = false;
        let mut i: usize = 0;
        while i < names.len()
            invariant
                i <= names@.len(),
                found <==> exists|t: int| 0 <= t < i && (#[trigger] names@[t])@ == name@,
            decreases names@.len() - i,
        {
            if names[i] == *name {
                found = true;
            }
            i = i + 1;
        }
        let ghost old_names = names@;
        if !found {
            names.push(name.clone());
            proof {
                assert(names@[old_names.len() as int]@ == name@);
            }
        }
        proof {
            assert forall|j: int| 0 <= j < k + 1 implies has_name(names@, (#[trigger] accs[j]).function_name@) by {
                if j < k {
                    assert(has_name(old_names, accs[j].function_name@));
                    let t = choose|t: int| 0 <= t < old_names.len() && (#[trigger] old_names[t])@ == accs[j].function_name@;
                    assert(names@[t] == old_names[t]);
                } else if found {
                    let t = choose|t: int| 0 <= t < i && (#[trigger] names@[t])@ == name@;
                } else {
                    assert(names@[old_names.len() as int]@ == name@);
                }
            }
            assert forall|t: int| 0 <= t < names@.len() implies made_access(accs, (#[trigger] names@[t])@, k + 1) by {
                if t < old_names.len() {
                    assert(names@[t] == old_names[t]);
                    assert(made_access(accs, old_names[t]@, k as int));
                    let j = choose|j: int| 0 <= j < k && (#[trigger] accs[j]).function_name@ == old_names[t]@;
                } else {
                    assert(accs[k as int].function_name@ == names@[t]@);
                }
            }
        }
        k = k + 1;
    }
    names
}

/// The entries for the accesses made by function `name`, in access order.
fn collect_function_accesses(region: &MmioRegion, name: &String) -> (list: Vec<SequencedAccess>)
    requires
        accesses_above_base(*region),
    ensures
        list@ == fn_group(region.accesses@, region.base, name@, region.accesses@.len() as int),
{
    let ghost accs = region.accesses@;
    let base = region.base;
    let mut list: Vec<SequencedAccess> = Vec::new();
    let mut k: usize = 0;
    while k < region.accesses.len()
        invariant
            accs == region.accesses@,
            base == region.base,
            accesses_above_base(*region),
            k <= accs.len(),
            list@ == fn_group(accs, base, name@, k as int),
        decreases accs.len() - k,
    {
        let access = &region.accesses[k];
        if access.function_name == *name {
            assert(access.address >= base);
            let at = if matches!(access.access_type, MmioAccessType::Read) {
                AccessType::Read
            } else {
                AccessType::Write
            };
            list.push(
                SequencedAccess {
                    offset: (access.address - base) as u32,
                    access_type: at,
                    value: None,
                    instruction_addr: access.instruction_addr,
                },
            );
        }
        k = k + 1;
    }
    list
}

/// Groups a region's accesses by the function that made them, orders each
/// group by instruction address, and orders the groups by their first address.
fn extract_sequences(region: &MmioRegion) -> (sequences: Vec<AccessSequence>)
    requires
        accesses_above_base(*region),
    ensures
        sequences_match(sequences@, region.accesses@, region.base),
{
    let ghost accs = region.accesses@;
    let ghost base = region.base;
    let names = function_names(region);
    let mut sequences: Vec<AccessSequence> = Vec::new();
    let mut g: usize = 0;
    while g < names.len()
        invariant
            accs == region.accesses@,
            base == region.base,
            accesses_above_base(*region),
            g <= names@.len(),
            forall|i: int, j: int| 0 <= i < j < names@.len() ==> names@[i]@ != names@[j]@,
            forall|i: int| 0 <= i < names@.len() ==> made_access(accs, (#[trigger] names@[i])@, accs.len() as int),
            forall|i: int| 0 <= i < sequences@.len() ==> is_function_sequence(#[trigger] sequences@[i], accs, base),
            forall|i: int, j: int|
                0 <= i < j < sequences@.len() ==> sequences@[i].accesses@[0].instruction_addr
                    <= sequences@[j].accesses@[0].instruction_addr,
            forall|i: int|
                0 <= i < sequences@.len() ==> exists|t: int| 0 <= t < g && (#[trigger] sequences@[i]).function@ == names@[t]@,
            forall|t: int| 0 <= t < g ==> has_sequence_for(sequences@, (#[trigger] names@[t])@),
            forall|i: int, j: int| 0 <= i < j < sequences@.len() ==> sequences@[i].function@ != sequences@[j].function@,
        decreases names@.len() - g,
    {
        let list = collect_function_accesses(region, &names[g]);
        let accesses = stable_sort_by_addr(&list);
        proof {
            let j = choose|j: int| 0 <= j < accs.len() && (#[trigger] accs[j]).function_name@ == names@[g as int]@;
            lemma_fn_group_nonempty(accs, base, names@[g as int]@, accs.len() as int, j);
        }
        let first = accesses[0].instruction_addr;
        let seq = AccessSequence { function: names[g].clone(), accesses };
        let mut p: usize = 0;
        while p < sequences.len() && sequences[p].accesses[0].instruction_addr <= first
            invariant
                p <= sequences@.len(),
                forall|i: int| 0 <= i < sequences@.len() ==> is_function_sequence(#[trigger] sequences@[i], accs, base),
                forall|i: int| 0 <= i < p ==> sequences@[i].accesses@[0].instruction_addr <= first,
            decreases sequences@.len() - p,
        {
            p = p + 1;
        }
        let ghost old_s = sequences@;
        proof {
            assert forall|i: int| 0 <= i < old_s.len() implies (#[trigger] old_s[i]).function@ != seq.function@ by {
                let t = choose|t: int| 0 <= t < g && (#[trigger] old_s[i]).function@ == names@[t]@;
            }
            assert forall|i: int| p <= i < old_s.len() implies old_s[i].accesses@[0].instruction_addr > first by {
                assert(old_s[p as int].accesses@[0].instruction_addr > first);
            }
        }
        sequences.insert(p, seq);
        proof {
            let ns = sequences@;
            assert forall|i: int| 0 <= i < ns.len() implies is_function_sequence(#[trigger] ns[i], accs, base) by {
                if i < p {
                    assert(ns[i] == old_s[i]);
                } else if i > p {
                    assert(ns[i] == old_s[i - 1]);
                }
            }
            assert forall|i: int, j: int| 0 <= i < j < ns.len() implies ns[i].accesses@[0].instruction_addr
                <= ns[j].accesses@[0].instruction_addr by {
                if i < p {
                    assert(ns[i] == old_s[i]);
                } else if i > p {
                    assert(ns[i] == old_s[i - 1]);
                }
                if j < p {
                    assert(ns[j] == old_s[j]);
                } else if j > p {
                    assert(ns[j] == old_s[j - 1]);
                }
            }
            assert forall|i: int, j: int| 0 <= i < j < ns.len() implies ns[i].function@ != ns[j].function@ by {
                if i < p {
                    assert(ns[i] == old_s[i]);
                } else if i > p {
                    assert(ns[i] == old_s[i - 1]);
                }
                if j < p {
                    assert(ns[j] == old_s[j]);
                } else if j > p {
                    assert(ns[j] == old_s[j - 1]);
                }
            }
            assert forall|i: int| 0 <= i < ns.len() implies exists|t: int| 0 <= t < g + 1 && (#[trigger] ns[i]).function@ == names@[t]@ by {
                if i < p {
                    assert(ns[i] == old_s[i]);
                    let t = choose|t: int| 0 <= t < g && (#[trigger] old_s[i]).function@ == names@[t]@;
                } else if i > p {
                    assert(ns[i] == old_s[i - 1]);
                    let t = choose|t: int| 0 <= t < g && (#[trigger] old_s[i - 1]).function@ == names@[t]@;
                } else {
                    assert(ns[i].function@ == names@[g as int]@);
                }
            }
            assert forall|t: int| 0 <= t < g + 1 implies has_sequence_for(ns, (#[trigger] names@[t])@) by {
                if t < g {
                    assert(has_sequence_for(old_s, names@[t]@));
                    let i = choose|i: int| 0 <= i < old_s.len() && (#[trigger] old_s[i]).function@ == names@[t]@;
                    if i < p {
                        assert(ns[i] == old_s[i]);
                    } else {
                        assert(ns[i + 1] == old_s[i]);
                    }
                } else {
                    assert(ns[p as int].function@ == names@[t]@);
                }
            }
        }
        g = g + 1;
    }
    sequences
}


/// Total number of entries in the first `m` sequences.
pub open spec fn total_entries(seqs: Seq<AccessSequence>, m: int) -> int
    decreases m,
{
    if m <= 0 {
        0
    } else {
        total_entries(seqs, m - 1) + seqs[m - 1].accesses@.len()
    }
}

spec fn grouped(seqs: Seq<AccessSequence>, accs: Seq<MmioAccess>, base: u64, k: int, m: int) -> int
    decreases m,
{
    if m <= 0 {
        0
    } else {
        grouped(seqs, accs, base, k, m - 1) + fn_group(accs, base, seqs[m - 1].function@, k).len()
    }
}

spec fn seqs_named(seqs: Seq<AccessSequence>, n: Seq<char>, m: int) -> int
    decreases m,
{
    if m <= 0 {
        0
    } else {
        seqs_named(seqs, n, m - 1) + if seqs[m - 1].function@ == n { 1int } else { 0int }
    }
}

proof fn lemma_grouped_step(seqs: Seq<AccessSequence>, accs: Seq<MmioAccess>, base: u64, k: int, m: int)
    requires
        0 <= k,
    ensures
        grouped(seqs, accs, base, k + 1, m) == grouped(seqs, accs, base, k, m) + seqs_named(
            seqs,
            accs[k].function_name@,
            m,
        ),
    decreases m,
{
    if m > 0 {
        lemma_grouped_step(seqs, accs, base, k, m - 1);
    }
}

proof fn lemma_grouped_zero(seqs: Seq<AccessSequence>, accs: Seq<MmioAccess>, base: u64, m: int)
    ensures
        grouped(seqs, accs, base, 0, m) == 0,
    decreases m,
{
    if m > 0 {
        lemma_grouped_zero(seqs, accs, base, m - 1);
    }
}

proof fn lemma_seqs_named_one(seqs: Seq<AccessSequence>, n: Seq<char>, m: int)
    requires
        0 <= m <= seqs.len(),
        forall|i: int, j: int| 0 <= i < j < seqs.len() ==> seqs[i].function@ != seqs[j].function@,
    ensures
        seqs_named(seqs, n, m) == if exists|i: int| 0 <= i < m && (#[trigger] seqs[i]).function@ == n { 1int } else { 0int },
    decreases m,
{
    if m > 0 {
        lemma_seqs_named_one(seqs, n, m - 1);
        if exists|i: int| 0 <= i < m && (#[trigger] seqs[i]).function@ == n {
            let i = choose|i: int| 0 <= i < m && (#[trigger] seqs[i]).function@ == n;
            if seqs[m - 1].function@ == n && i < m - 1 {
                assert(seqs[i].function@ != seqs[m - 1].function@);
            }
        }
    }
}

proof fn lemma_grouped_all(seqs: Seq<AccessSequence>, accs: Seq<MmioAccess>, base: u64, k: int)
    requires
        0 <= k <= accs.len(),
        sequences_match(seqs, accs, base),
    ensures
        grouped(seqs, accs, base, k, seqs.len() as int) == k,
    decreases k,
{
    if k > 0 {
        lemma_grouped_all(seqs, accs, base, k - 1);
        lemma_grouped_step(seqs, accs, base, k - 1, seqs.len() as int);
        lemma_seqs_named_one(seqs, accs[k - 1].function_name@, seqs.len() as int);
        assert(has_sequence_for(seqs, accs[k - 1].function_name@));
    } else {
        lemma_grouped_zero(seqs, accs, base, seqs.len() as int);
    }
}

proof fn lemma_entries_match(seqs: Seq<AccessSequence>, accs: Seq<MmioAccess>, base: u64, m: int)
    requires
        0 <= m <= seqs.len(),
        sequences_match(seqs, accs, base),
    ensures
        total_entries(seqs, m) == grouped(seqs, accs, base, accs.len() as int, m),
    decreases m,
{
    if m > 0 {
        lemma_entries_match(seqs, accs, base, m - 1);
        assert(is_function_sequence(seqs[m - 1], accs, base));
    }
}

/// Every access of a region appears in exactly one access sequence: the
/// sequences together hold as many entries as there are accesses.
pub proof fn sequences_hold_every_access_once(seqs: Seq<AccessSequence>, accs: Seq<MmioAccess>, base: u64)
    requires
        sequences_match(seqs, accs, base),
    ensures
        total_entries(seqs, seqs.len() as int) == accs.len(),
{
    lemma_grouped_all(seqs, accs, base, accs.len() as int);
    lemma_entries_match(seqs, accs, base, seqs.len() as int);
}

// ---------------------------------------------------------------------------
// Initialisation sequence
// ---------------------------------------------------------------------------

/// The line describing an access in an initialisation sequence.
pub open spec fn init_line(a: SequencedAccess) -> Seq<char> {
    match a.access_type {
        AccessType::Write => "write(+0x"@ + hex(a.offset as nat) + ")"@,
        AccessType::Read => "read(+0x"@ + hex(a.offset as nat) + ")"@,
    }
}

/// The lines of the first `k` accesses, skipping accesses to polled offsets.
pub open spec fn access_lines(accs: Seq<SequencedAccess>, polling: Set<u32>, k: int) -> Seq<Seq<char>>
    decreases k,
{
    if k <= 0 {
        Seq::empty()
    } else if polling.contains(accs[k - 1].offset) {
        access_lines(accs, polling, k - 1)
    } else {
        access_lines(accs, polling, k - 1).push(init_line(accs[k - 1]))
    }
}

/// The lines of the first `k` sequences, in order.
pub open spec fn sequence_lines(seqs: Seq<AccessSequence>, polling: Set<u32>, k: int) -> Seq<Seq<char>>
    decreases k,
{
    if k <= 0 {
        Seq::empty()
    } else {
        sequence_lines(seqs, polling, k - 1) + access_lines(
            seqs[k - 1].accesses@,
            polling,
            seqs[k - 1].accesses@.len() as int,
        )
    }
}

/// The distinct elements of `s`, in order of first occurrence.
pub open spec fn dedup(s: Seq<Seq<char>>) -> Seq<Seq<char>>
    decreases s.len(),
{
    if s.len() == 0 {
        s
    } else if dedup(s.drop_last()).contains(s.last()) {
        dedup(s.drop_last())
    } else {
        dedup(s.drop_last()).push(s.last())
    }
}

/// The initialisation sequence: one line per distinct non-polling access, in sequence order.
pub open spec fn spec_init_sequence(seqs: Seq<AccessSequence>, polling: Set<u32>) -> Seq<Seq<char>> {
    dedup(sequence_lines(seqs, polling, seqs.len() as int))
}

fn init_line_of(acc: &SequencedAccess) -> (line: String)
    ensures
        line@ == init_line(*acc),
{
    proof {
        reveal_strlit("write(+0x");
        reveal_strlit("read(+0x");
        reveal_strlit(")");
    }
    let mut line = match acc.access_type {
        AccessType::Write => String::from_str("write(+0x"),
        AccessType::Read => String::from_str("read(+0x"),
    };
    push_hex(&mut line, acc.offset as u64);
    push_str(&mut line, ")");
    line
}

/// Lists, without repetition and in sequence order, the accesses of the
/// sequences that do not touch a polled register.
fn detect_init_sequence(sequences: &[AccessSequence], polling_offsets: &HashSet<u32>) -> (init: Vec<String>)
    ensures
        str_views(init@) == spec_init_sequence(sequences@, polling_offsets@),
{
    let ghost polling = polling_offsets@;
    let mut init: Vec<String> = Vec::new();
    let ghost mut lines: Seq<Seq<char>> = Seq::empty();
    let mut si: usize = 0;
    while si < sequences.len()
        invariant
            polling == polling_offsets@,
            si <= sequences@.len(),
            lines == sequence_lines(sequences@, polling, si as int),
            str_views(init@) == dedup(lines),
        decreases sequences@.len() - si,
    {
        let seq = &sequences[si];
        let ghost before = lines;
        let mut ai: usize = 0;
        while ai < seq.accesses.len()
            invariant
                polling == polling_offsets@,
                *seq == sequences@[si as int],
                ai <= seq.accesses@.len(),
                lines == before + access_lines(seq.accesses@, polling, ai as int),
                str_views(init@) == dedup(lines),
            decreases seq.accesses@.len() - ai,
        {
            let acc = &seq.accesses[ai];
            if !polling_offsets.contains(&acc.offset) {
                let line = init_line_of(acc);
                let mut found = false;
                let mut j: usize = 0;
                while j < init.len()
                    invariant
                        j <= init@.len(),
                        found <==> exists|t: int| 0 <= t < j && (#[trigger] init@[t])@ == line@,
                    decreases init@.len() - j,
                {
                    if init[j] == line {
                        found = true;
                    }
                    j = j + 1;
                }
                proof {
                    let d = dedup(lines);
                    assert(found <==> d.contains(line@)) by {
                        if found {
                            let t = choose|t: int| 0 <= t < j && (#[trigger] init@[t])@ == line@;
                            assert(d[t] == line@);
                        }
                        if d.contains(line@) {
                            let t = choose|t: int| 0 <= t < d.len() && d[t] == line@;
                            assert(init@[t]@ == line@);
                        }
                    }
                    let nl = lines.push(line@);
                    assert(nl.drop_last() == lines);
                    lines = nl;
                }
                if !found {
                    init.push(line);
                    proof {
                        assert(str_views(init@) == dedup(lines));
                    }
                }
            }
            proof {
                assert(access_lines(seq.accesses@, polling, ai + 1) == if polling.contains(acc.offset) {
                    access_lines(seq.accesses@, polling, ai as int)
                } else {
                    access_lines(seq.accesses@, polling, ai as int).push(init_line(*acc))
                });
            }
            ai = ai + 1;
        }
        si = si + 1;
    }
    init
}

proof fn lemma_dedup_distinct(s: Seq<Seq<char>>)
    ensures
        forall|i: int, j: int| 0 <= i < j < dedup(s).len() ==> dedup(s)[i] != dedup(s)[j],
        forall|x: Seq<char>| dedup(s).contains(x) <==> s.contains(x),
    decreases s.len(),
{
    if s.len() > 0 {
        let p = s.drop_last();
        lemma_dedup_distinct(p);
        let d = dedup(p);
        assert forall|x: Seq<char>| dedup(s).contains(x) <==> s.contains(x) by {
            if s.contains(x) {
                let i = choose|i: int| 0 <= i < s.len() && s[i] == x;
                if i < s.len() - 1 {
                    assert(p[i] == x);
                    assert(p.contains(x));
                    if !d.contains(s.last()) {
                        let t = choose|t: int| 0 <= t < d.len() && d[t] == x;
                        assert(dedup(s)[t] == x);
                    }
                } else if !d.contains(s.last()) {
                    assert(dedup(s)[d.len() as int] == x);
                }
            }
            if dedup(s).contains(x) {
                let t = choose|t: int| 0 <= t < dedup(s).len() && dedup(s)[t] == x;
                if t < d.len() {
                    assert(d[t] == x);
                    assert(d.contains(x));
                    assert(p.contains(x));
                    let i = choose|i: int| 0 <= i < p.len() && p[i] == x;
                    assert(s[i] == x);
                } else {
                    assert(s[s.len() - 1] == x);
                }
            }
        }
    }
}

/// The initialisation sequence names every line at most once.
pub proof fn init_sequence_has_no_repeats(seqs: Seq<AccessSequence>, polling: Set<u32>)
    ensures
        forall|i: int, j: int|
            0 <= i < j < spec_init_sequence(seqs, polling).len() ==> spec_init_sequence(seqs, polling)[i]
                != spec_init_sequence(seqs, polling)[j],
{
    lemma_dedup_distinct(sequence_lines(seqs, polling, seqs.len() as int));
}

/// `x` is the init line of access `a`: "write(+0x" or "read(+0x" by its
/// direction, its full offset as a lower-case hexadecimal numeral, then ")".
pub open spec fn names_access(x: Seq<char>, a: SequencedAccess) -> bool {
    exists|h: Seq<char>|
        #![trigger is_hex_numeral(h)]
        is_hex_numeral(h) && hex_value(h) == a.offset as int && x == (if a.access_type is Write {
            "write(+0x"@
        } else {
            "read(+0x"@
        }) + h + ")"@
}

/// A non-polled access of the sequences: sequence `i`, entry `k`.
pub open spec fn unpolled_access(seqs: Seq<AccessSequence>, polling: Set<u32>, i: int, k: int) -> bool {
    0 <= i < seqs.len() && 0 <= k < seqs[i].accesses@.len() && !polling.contains(seqs[i].accesses@[k].offset)
}

proof fn lemma_init_line_names(a: SequencedAccess)
    ensures
        names_access(init_line(a), a),
{
    hex_renders_value(a.offset as nat);
    let h = hex(a.offset as nat);
    assert(is_hex_numeral(h));
}

proof fn lemma_access_lines(accs: Seq<SequencedAccess>, polling: Set<u32>, k: int)
    requires
        0 <= k <= accs.len(),
    ensures
        forall|x: Seq<char>|
            access_lines(accs, polling, k).contains(x) <==> exists|t: int|
                0 <= t < k && !polling.contains(accs[t].offset) && x == init_line(#[trigger] accs[t]),
    decreases k,
{
    if k > 0 {
        lemma_access_lines(accs, polling, k - 1);
        let prev = access_lines(accs, polling, k - 1);
        assert forall|x: Seq<char>|
            access_lines(accs, polling, k).contains(x) <==> exists|t: int|
                0 <= t < k && !polling.contains(accs[t].offset) && x == init_line(#[trigger] accs[t]) by {
            if !polling.contains(accs[k - 1].offset) {
                let cur = prev.push(init_line(accs[k - 1]));
                if cur.contains(x) {
                    let j = choose|j: int| 0 <= j < cur.len() && cur[j] == x;
                    if j < prev.len() {
                        assert(prev[j] == x);
                        assert(prev.contains(x));
                    } else {
                        assert(x == init_line(accs[k - 1]));
                    }
                }
                if exists|t: int| 0 <= t < k && !polling.contains(accs[t].offset) && x == init_line(#[trigger] accs[t]) {
                    let t = choose|t: int| 0 <= t < k && !polling.contains(accs[t].offset) && x == init_line(#[trigger] accs[t]);
                    if t < k - 1 {
                        assert(exists|t2: int| 0 <= t2 < k - 1 && !polling.contains(accs[t2].offset) && x == init_line(#[trigger] accs[t2]));
                        assert(prev.contains(x));
                        let j = choose|j: int| 0 <= j < prev.len() && prev[j] == x;
                        assert(cur[j] == x);
                    } else {
                        assert(cur[prev.len() as int] == x);
                    }
                }
            } else {
                if exists|t: int| 0 <= t < k && !polling.contains(accs[t].offset) && x == init_line(#[trigger] accs[t]) {
                    let t = choose|t: int| 0 <= t < k && !polling.contains(accs[t].offset) && x == init_line(#[trigger] accs[t]);
                    assert(t < k - 1);
                    assert(exists|t2: int| 0 <= t2 < k - 1 && !polling.contains(accs[t2].offset) && x == init_line(#[trigger] accs[t2]));
                }
            }
        }
    }
}

proof fn lemma_sequence_lines(seqs: Seq<AccessSequence>, polling: Set<u32>, m: int)
    requires
        0 <= m <= seqs.len(),
    ensures
        forall|x: Seq<char>|
            sequence_lines(seqs, polling, m).contains(x) <==> exists|i: int, k: int|
                0 <= i < m && #[trigger] unpolled_access(seqs, polling, i, k) && x == init_line(seqs[i].accesses@[k]),
    decreases m,
{
    if m > 0 {
        lemma_sequence_lines(seqs, polling, m - 1);
        let q = seqs[m - 1].accesses@;
        lemma_access_lines(q, polling, q.len() as int);
        let a = sequence_lines(seqs, polling, m - 1);
        let b = access_lines(q, polling, q.len() as int);
        assert forall|x: Seq<char>|
            (a + b).contains(x) <==> exists|i: int, k: int|
                0 <= i < m && #[trigger] unpolled_access(seqs, polling, i, k) && x == init_line(seqs[i].accesses@[k]) by {
            if (a + b).contains(x) {
                let j = choose|j: int| 0 <= j < (a + b).len() && (a + b)[j] == x;
                if j < a.len() {
                    assert(a[j] == x);
                    assert(a.contains(x));
                } else {
                    assert(b[j - a.len()] == x);
                    assert(b.contains(x));
                    let t = choose|t: int| 0 <= t < q.len() && !polling.contains(q[t].offset) && x == init_line(#[trigger] q[t]);
                    assert(unpolled_access(seqs, polling, m - 1, t));
                }
            }
            if exists|i: int, k: int|
                0 <= i < m && #[trigger] unpolled_access(seqs, polling, i, k) && x == init_line(seqs[i].accesses@[k]) {
                let (i, k) = choose|i: int, k: int|
                    0 <= i < m && #[trigger] unpolled_access(seqs, polling, i, k) && x == init_line(seqs[i].accesses@[k]);
                if i < m - 1 {
                    assert(a.contains(x));
                    let j = choose|j: int| 0 <= j < a.len() && a[j] == x;
                    assert((a + b)[j] == x);
                } else {
                    assert(q[k] == seqs[i].accesses@[k]);
                    assert(b.contains(x));
                    let j = choose|j: int| 0 <= j < b.len() && b[j] == x;
                    assert((a + b)[a.len() + j] == x);
                }
            }
        }
    }
}

/// The init sequence names exactly the accesses that do not touch a polled
/// register: each line is "write(+0x" or "read(+0x" by the access's
/// direction, then its full offset as a lower-case hexadecimal numeral, then
/// ")"; each line names some such access, and each such access is named by a
/// line.
pub proof fn init_lines_name_unpolled_accesses(seqs: Seq<AccessSequence>, polling: Set<u32>)
    ensures
        forall|x: Seq<char>|
            spec_init_sequence(seqs, polling).contains(x) ==> exists|i: int, k: int|
                #[trigger] unpolled_access(seqs, polling, i, k) && names_access(x, seqs[i].accesses@[k]),
        forall|i: int, k: int|
            #[trigger] unpolled_access(seqs, polling, i, k) ==> exists|x: Seq<char>|
                spec_init_sequence(seqs, polling).contains(x) && names_access(x, seqs[i].accesses@[k]),
{
    let lines = sequence_lines(seqs, polling, seqs.len() as int);
    lemma_dedup_distinct(lines);
    lemma_sequence_lines(seqs, polling, seqs.len() as int);
    assert forall|x: Seq<char>| spec_init_sequence(seqs, polling).contains(x) implies exists|i: int, k: int|
        #[trigger] unpolled_access(seqs, polling, i, k) && names_access(x, seqs[i].accesses@[k]) by {
        assert(lines.contains(x));
        let (i, k) = choose|i: int, k: int|
            0 <= i < seqs.len() && #[trigger] unpolled_access(seqs, polling, i, k) && x == init_line(seqs[i].accesses@[k]);
        lemma_init_line_names(seqs[i].accesses@[k]);
    }
    assert forall|i: int, k: int| #[trigger] unpolled_access(seqs, polling, i, k) implies exists|x: Seq<char>|
        spec_init_sequence(seqs, polling).contains(x) && names_access(x, seqs[i].accesses@[k]) by {
        let x = init_line(seqs[i].accesses@[k]);
        assert(0 <= i < seqs.len() && unpolled_access(seqs, polling, i, k) && x == init_line(seqs[i].accesses@[k]));
        assert(lines.contains(x));
        assert(dedup(lines).contains(x));
        assert(spec_init_sequence(seqs, polling).contains(x));
        lemma_init_line_names(seqs[i].accesses@[k]);
        assert(names_access(x, seqs[i].accesses@[k]));
    }
}

/// A line names one register offset and one direction: accesses named by the
/// same line have the same offset and the same direction.
pub proof fn init_line_names_one_access(x: Seq<char>, a: SequencedAccess, b: SequencedAccess)
    requires
        names_access(x, a),
        names_access(x, b),
    ensures
        a.offset == b.offset,
        a.access_type == b.access_type,
{
    reveal_strlit("write(+0x");
    reveal_strlit("read(+0x");
    reveal_strlit(")");
    let ha = choose|h: Seq<char>| #![trigger is_hex_numeral(h)] is_hex_numeral(h) && hex_value(h) == a.offset as int && x == (if a.access_type is Write {
        "write(+0x"@
    } else {
        "read(+0x"@
    }) + h + ")"@;
    let hb = choose|h: Seq<char>| #![trigger is_hex_numeral(h)] is_hex_numeral(h) && hex_value(h) == b.offset as int && x == (if b.access_type is Write {
        "write(+0x"@
    } else {
        "read(+0x"@
    }) + h + ")"@;
    let pa = if a.access_type is Write { "write(+0x"@ } else { "read(+0x"@ };
    let pb = if b.access_type is Write { "write(+0x"@ } else { "read(+0x"@ };
    assert(x[0] == pa[0]);
    assert(x[0] == pb[0]);
    assert(a.access_type == b.access_type);
    assert(pa == pb);
    assert(ha =~= x.subrange(pa.len() as int, x.len() - 1));
    assert(hb =~= x.subrange(pa.len() as int, x.len() - 1));
}

// ---------------------------------------------------------------------------
// State machine
// ---------------------------------------------------------------------------

/// Some register is polled.
pub open spec fn any_polling(regs: Seq<RegisterModel>) -> bool {
    exists|i: int| 0 <= i < regs.len() && (#[trigger] regs[i]).polling
}

/// The first access seen to some register was a write.
pub open spec fn any_written(regs: Seq<RegisterModel>) -> bool {
    exists|i: int| 0 <= i < regs.len() && (#[trigger] regs[i]).access is Write
}

/// The view of a transition: source, target, trigger kind, trigger offset and value.
pub open spec fn transition_view(t: Transition) -> (Seq<char>, Seq<char>, Seq<char>, Option<u32>, Option<u64>) {
    (t.from@, t.to@, t.trigger.kind@, t.trigger.register_offset, t.trigger.value)
}

/// The states of the inferred machine: idle, then init where some register is
/// written, then running where some register is polled, then unknown.
pub open spec fn spec_states(has_writes: bool, has_polling: bool) -> Seq<Seq<char>> {
    seq!["idle"@] + (if has_writes { seq!["init"@] } else { Seq::empty() }) + (if has_polling {
        seq!["running"@]
    } else {
        Seq::empty()
    }) + seq!["unknown"@]
}

/// The transitions of the inferred machine: idle to init on the first write
/// where some register is written, init to running when polling starts where
/// some register is polled.
pub open spec fn spec_transitions(has_writes: bool, has_polling: bool) -> Seq<
    (Seq<char>, Seq<char>, Seq<char>, Option<u32>, Option<u64>),
> {
    (if has_writes {
        seq![("idle"@, "init"@, "first_write"@, None::<u32>, None::<u64>)]
    } else {
        Seq::empty()
    }) + (if has_polling {
        seq![("init"@, "running"@, "polling_start"@, None::<u32>, None::<u64>)]
    } else {
        Seq::empty()
    })
}

/// `sm` is the state machine inferred from `regs`.
pub open spec fn state_machine_matches(sm: Option<StateMachine>, regs: Seq<RegisterModel>) -> bool {
    if regs.len() == 0 {
        sm is None
    } else {
        &&& sm is Some
        &&& str_views(sm->0.states@) == spec_states(any_written(regs), any_polling(regs))
        &&& sm->0.transitions@.map_values(|t: Transition| transition_view(t)) == spec_transitions(
            any_written(regs),
            any_polling(regs),
        )
    }
}

fn make_transition(from: &str, to: &str, kind: &str) -> (t: Transition)
    ensures
        transition_view(t) == (from@, to@, kind@, None::<u32>, None::<u64>),
{
    Transition {
        from: String::from_str(from),
        to: String::from_str(to),
        trigger: Trigger { kind: String::from_str(kind), register_offset: None, value: None },
    }
}

/// Infers a coarse state machine: none without registers; otherwise idle,
/// an init state when some register is written, a running state when some
/// register is polled, and a final unknown state.
fn infer_state_machine(regs: &[RegisterModel], _sequences: &[AccessSequence]) -> (sm: Option<StateMachine>)
    ensures
        state_machine_matches(sm, regs@),
{
    if regs.len() == 0 {
        return None;
    }
    let mut has_polling = false;
    let mut has_writes = false;
    let mut i: usize = 0;
    while i < regs.len()
        invariant
            i <= regs@.len(),
            has_polling <==> exists|j: int| 0 <= j < i && (#[trigger] regs@[j]).polling,
            has_writes <==> exists|j: int| 0 <= j < i && (#[trigger] regs@[j]).access is Write,
        decreases regs@.len() - i,
    {
        if regs[i].polling {
            has_polling = true;
        }
        if matches!(regs[i].access, AccessType::Write) {
            has_writes = true;
        }
        i = i + 1;
    }
    proof {
        reveal_strlit("idle");
        reveal_strlit("init");
        reveal_strlit("running");
        reveal_strlit("unknown");
    }
    let mut states: Vec<String> = Vec::new();
    states.push(String::from_str("idle"));
    let mut transitions: Vec<Transition> = Vec::new();
    if has_writes {
        states.push(String::from_str("init"));
        transitions.push(make_transition("idle", "init", "first_write"));
    }
    if has_polling {
        states.push(String::from_str("running"));
        transitions.push(make_transition("init", "running", "polling_start"));
    }
    states.push(String::from_str("unknown"));
    let sm = StateMachine { states, transitions };
    assert(str_views(sm.states@) == spec_states(has_writes, has_polling));
    assert(sm.transitions@.map_values(|t: Transition| transition_view(t)) == spec_transitions(
        has_writes,
        has_polling,
    ));
    Some(sm)
}


/// The inferred machine starts in `idle`, ends in `unknown`, and has one
/// transition per state between the two. Where some register is written, every
/// transition leads from a state of the machine to a later state of the machine.
pub proof fn state_machine_shape(sm: Option<StateMachine>, regs: Seq<RegisterModel>)
    requires
        state_machine_matches(sm, regs),
        regs.len() > 0,
    ensures
        ({
            let states = str_views(sm->0.states@);
            let ts = sm->0.transitions@.map_values(|t: Transition| transition_view(t));
            &&& states.len() >= 2
            &&& states[0] == "idle"@
            &&& states[states.len() - 1] == "unknown"@
            &&& ts.len() == states.len() - 2
            &&& any_written(regs) ==> forall|k: int|
                0 <= k < ts.len() ==> exists|a: int, b: int|
                    0 <= a < b < states.len() && states[a] == (#[trigger] ts[k]).0 && states[b] == ts[k].1
        }),
{
    let w = any_written(regs);
    let p = any_polling(regs);
    let states = str_views(sm->0.states@);
    let ts = sm->0.transitions@.map_values(|t: Transition| transition_view(t));
    let t1 = ("idle"@, "init"@, "first_write"@, None::<u32>, None::<u64>);
    let t2 = ("init"@, "running"@, "polling_start"@, None::<u32>, None::<u64>);
    assert(states == spec_states(w, p));
    assert(ts == spec_transitions(w, p));
    if w && p {
        assert(states =~= seq!["idle"@, "init"@, "running"@, "unknown"@]);
        assert(ts =~= seq![t1, t2]);
        assert forall|k: int| 0 <= k < ts.len() implies exists|a: int, b: int|
            0 <= a < b < states.len() && states[a] == (#[trigger] ts[k]).0 && states[b] == ts[k].1 by {
            if k == 0 {
                assert(states[0] == ts[k].0 && states[1] == ts[k].1);
            } else {
                assert(states[1] == ts[k].0 && states[2] == ts[k].1);
            }
        }
    } else if w {
        assert(states =~= seq!["idle"@, "init"@, "unknown"@]);
        assert(ts =~= seq![t1]);
        assert forall|k: int| 0 <= k < ts.len() implies exists|a: int, b: int|
            0 <= a < b < states.len() && states[a] == (#[trigger] ts[k]).0 && states[b] == ts[k].1 by {
            assert(states[0] == ts[k].0 && states[1] == ts[k].1);
        }
    } else if p {
        assert(states =~= seq!["idle"@, "running"@, "unknown"@]);
        assert(ts =~= seq![t2]);
    } else {
        assert(states =~= seq!["idle"@, "unknown"@]);
        assert(ts =~= Seq::empty());
    }
}

/// The inferred machine for a non-empty register map has an "init" state and
/// an "idle" to "init" transition triggered by "first_write" (with no
/// register offset or value) exactly when some register was first accessed
/// by a write, and a "running" state and an "init" to "running" transition
/// triggered by "polling_start" exactly when some register is polled.
pub proof fn state_machine_follows_writes_and_polling(sm: Option<StateMachine>, regs: Seq<RegisterModel>)
    requires
        state_machine_matches(sm, regs),
        regs.len() > 0,
    ensures
        sm is Some,
        (exists|i: int| 0 <= i < regs.len() && (#[trigger] regs[i]).access is Write) <==> str_views(
            sm->0.states@,
        ).contains("init"@),
        (exists|i: int| 0 <= i < regs.len() && (#[trigger] regs[i]).access is Write) <==> sm->0.transitions@.map_values(
            |t: Transition| transition_view(t),
        ).contains(("idle"@, "init"@, "first_write"@, None::<u32>, None::<u64>)),
        (exists|i: int| 0 <= i < regs.len() && (#[trigger] regs[i]).polling) <==> str_views(
            sm->0.states@,
        ).contains("running"@),
        (exists|i: int| 0 <= i < regs.len() && (#[trigger] regs[i]).polling) <==> sm->0.transitions@.map_values(
            |t: Transition| transition_view(t),
        ).contains(("init"@, "running"@, "polling_start"@, None::<u32>, None::<u64>)),
{
    reveal_strlit("idle");
    reveal_strlit("init");
    reveal_strlit("running");
    reveal_strlit("unknown");
    reveal_strlit("first_write");
    reveal_strlit("polling_start");
    let w = any_written(regs);
    let p = any_polling(regs);
    let states = str_views(sm->0.states@);
    let ts = sm->0.transitions@.map_values(|t: Transition| transition_view(t));
    let t1 = ("idle"@, "init"@, "first_write"@, None::<u32>, None::<u64>);
    let t2 = ("init"@, "running"@, "polling_start"@, None::<u32>, None::<u64>);
    assert(states == spec_states(w, p));
    assert(ts == spec_transitions(w, p));
    assert("idle"@[1] != "init"@[1]);
    assert("unknown"@.len() != "init"@.len());
    assert("running"@.len() != "init"@.len());
    assert("idle"@[0] != "running"@[0]);
    assert("unknown"@[0] != "running"@[0]);
    assert(t1.0 != t2.0);
    if w && p {
        assert(states =~= seq!["idle"@, "init"@, "running"@, "unknown"@]);
        assert(ts =~= seq![t1, t2]);
        assert(states[1] == "init"@ && states[2] == "running"@);
        assert(ts[0] == t1 && ts[1] == t2);
    } else if w {
        assert(states =~= seq!["idle"@, "init"@, "unknown"@]);
        assert(ts =~= seq![t1]);
        assert(states[1] == "init"@ && ts[0] == t1);
        assert(!states.contains("running"@));
        assert(!ts.contains(t2));
    } else if p {
        assert(states =~= seq!["idle"@, "running"@, "unknown"@]);
        assert(ts =~= seq![t2]);
        assert(states[1] == "running"@ && ts[0] == t2);
        assert(!states.contains("init"@));
        assert(!ts.contains(t1));
    } else {
        assert(states =~= seq!["idle"@, "unknown"@]);
        assert(ts =~= Seq::empty());
        assert(!states.contains("init"@));
        assert(!states.contains("running"@));
        assert(!ts.contains(t1));
        assert(!ts.contains(t2));
    }
}

/// The inferred state machine depends only on whether there are registers,
/// whether some register is written and whether some register is polled:
/// register maps that agree on these give machines with the same states and
/// the same transitions.
pub proof fn state_machine_depends_only_on_flags(
    sm1: Option<StateMachine>,
    regs1: Seq<RegisterModel>,
    sm2: Option<StateMachine>,
    regs2: Seq<RegisterModel>,
)
    requires
        state_machine_matches(sm1, regs1),
        state_machine_matches(sm2, regs2),
        (regs1.len() == 0) == (regs2.len() == 0),
        any_written(regs1) == any_written(regs2),
        any_polling(regs1) == any_polling(regs2),
    ensures
        sm1 is None <==> sm2 is None,
        sm1 is Some ==> str_views(sm1->0.states@) == str_views(sm2->0.states@)
            && sm1->0.transitions@.map_values(|t: Transition| transition_view(t))
            == sm2->0.transitions@.map_values(|t: Transition| transition_view(t)),
{
}

// ---------------------------------------------------------------------------
// Device models
// ---------------------------------------------------------------------------

/// The offsets of the polled registers.
pub open spec fn polling_offsets(regs: Seq<RegisterModel>) -> Set<u32> {
    Set::new(|o: u32| exists|i: int| 0 <= i < regs.len() && (#[trigger] regs[i]).polling && regs[i].offset == o)
}

/// `model` is the model built for `region`.
pub open spec fn model_matches(model: DeviceModel, region: MmioRegion) -> bool {
    &&& model.base == region.base
    &&& model.name == region.classification
    &&& model.classification == region.classification
    &&& model.confidence == region.confidence
    &&& register_map_matches(model.registers@, region.accesses@, region.base)
    &&& sequences_match(model.sequences@, region.accesses@, region.base)
    &&& str_views(model.init_sequence@) == spec_init_sequence(
        model.sequences@,
        polling_offsets(model.registers@),
    )
    &&& state_machine_matches(model.state_machine, model.registers@)
}

/// Builds one device model per region: its register map, its per-function
/// access sequences, the initialisation sequence (accesses that do not touch a
/// polled register) and a coarse state machine.
pub fn build_device_models(regions: &[MmioRegion], _raw_accesses: &[MmioAccess]) -> (models: Vec<DeviceModel>)
    requires
        forall|i: int| 0 <= i < regions@.len() ==> accesses_above_base(#[trigger] regions@[i]),
    ensures
        models@.len() == regions@.len(),
        forall|i: int| 0 <= i < regions@.len() ==> model_matches(#[trigger] models@[i], regions@[i]),
{
    let mut models: Vec<DeviceModel> = Vec::new();
    let mut ri: usize = 0;
    while ri < regions.len()
        invariant
            ri <= regions@.len(),
            forall|i: int| 0 <= i < regions@.len() ==> accesses_above_base(#[trigger] regions@[i]),
            models@.len() == ri,
            forall|i: int| 0 <= i < ri ==> model_matches(#[trigger] models@[i], regions@[i]),
        decreases regions@.len() - ri,
    {
        let region = &regions[ri];
        assert(accesses_above_base(regions@[ri as int]));
        let base = region.base;
        let regs = build_register_map(region);
        let sequences = extract_sequences(region);
        let mut polling: HashSet<u32> = HashSet::new();
        let mut i: usize = 0;
        while i < regs.len()
            invariant
                i <= regs@.len(),
                polling@ == Set::new(
                    |o: u32| exists|j: int| 0 <= j < i && (#[trigger] regs@[j]).polling && regs@[j].offset == o,
                ),
            decreases regs@.len() - i,
        {
            if regs[i].polling {
                polling.insert(regs[i].offset);
            }
            proof {
                assert(polling@ =~= Set::new(
                    |o: u32| exists|j: int| 0 <= j < i + 1 && (#[trigger] regs@[j]).polling && regs@[j].offset == o,
                )) by {
                    assert forall|o: u32| polling@.contains(o) implies exists|j: int|
                        0 <= j < i + 1 && (#[trigger] regs@[j]).polling && regs@[j].offset == o by {
                        if !(regs@[i as int].polling && regs@[i as int].offset == o) {
                            let j = choose|j: int| 0 <= j < i && (#[trigger] regs@[j]).polling && regs@[j].offset == o;
                        }
                    }
                }
            }
            i = i + 1;
        }
        assert(polling@ =~= polling_offsets(regs@));
        let init_sequence = detect_init_sequence(&sequences, &polling);
        let state_machine = infer_state_machine(&regs, &sequences);
        let model = DeviceModel {
            base,
            name: region.classification.clone(),
            classification: region.classification.clone(),
            registers: regs,
            state_machine,
            init_sequence,
            sequences,
            confidence: region.confidence,
        };
        models.push(model);
        ri = ri + 1;
    }
    models
}


/// A bitfield as plain values: offset, width, name, labelled values, mask.
pub open spec fn bitfield_view(f: Bitfield) -> (u8, u8, Option<Seq<char>>, Seq<(u64, Seq<char>)>, u64) {
    (
        f.offset,
        f.width,
        opt_str_view(f.name),
        f.values@.map_values(|v: (u64, String)| (v.0, v.1@)),
        f.observed_mask,
    )
}

/// A register model as plain values.
pub open spec fn register_view(r: RegisterModel) -> (
    u32,
    Option<Seq<char>>,
    AccessType,
    u8,
    Seq<u64>,
    Seq<u64>,
    Seq<(u8, u8, Option<Seq<char>>, Seq<(u64, Seq<char>)>, u64)>,
    bool,
    usize,
    Option<Seq<char>>,
) {
    (
        r.offset,
        opt_str_view(r.name),
        r.access,
        r.width,
        r.observed_writes@,
        r.observed_reads@,
        r.bitfields@.map_values(|f: Bitfield| bitfield_view(f)),
        r.polling,
        r.count,
        opt_str_view(r.purpose),
    )
}

proof fn lemma_bitfields_determined(r1: RegisterModel, f1: Seq<Bitfield>, r2: RegisterModel, f2: Seq<Bitfield>)
    requires
        bitfields_match(r1, f1),
        bitfields_match(r2, f2),
        observed_values(r1) == observed_values(r2),
    ensures
        f1.map_values(|f: Bitfield| bitfield_view(f)) == f2.map_values(|f: Bitfield| bitfield_view(f)),
{
    let vals = observed_values(r1);
    let mask = change_mask(vals, vals.len() as int);
    let spans = field_spans(mask, 0);
    assert forall|i: int| 0 <= i < f1.len() implies bitfield_view(#[trigger] f1[i]) == bitfield_view(f2[i]) by {
        let fv = field_values(vals, spans[i].0, spans[i].1);
        assert(is_field(f1[i], spans[i].0, spans[i].1, fv));
        assert(is_field(f2[i], spans[i].0, spans[i].1, fv));
        let v1 = f1[i].values@.map_values(|v: (u64, String)| (v.0, v.1@));
        let v2 = f2[i].values@.map_values(|v: (u64, String)| (v.0, v.1@));
        assert forall|k: int| 0 <= k < v1.len() implies v1[k] == v2[k] by {
            assert(f1[i].values@[k].0 == fv[k]);
            assert(f2[i].values@[k].0 == fv[k]);
        }
        assert(v1 =~= v2);
    }
    assert(f1.map_values(|f: Bitfield| bitfield_view(f)) =~= f2.map_values(|f: Bitfield| bitfield_view(f)));
}

proof fn lemma_sorted_same_members(a: Seq<u32>, b: Seq<u32>, i: int)
    requires
        strictly_sorted(a),
        strictly_sorted(b),
        forall|x: u32| a.contains(x) <==> b.contains(x),
        0 <= i <= a.len(),
        i <= b.len(),
    ensures
        forall|j: int| 0 <= j < i ==> a[j] == b[j],
    decreases i,
{
    if i > 0 {
        lemma_sorted_same_members(a, b, i - 1);
        let k = i - 1;
        if a[k] < b[k] {
            assert(a.contains(a[k]));
            let j = choose|j: int| 0 <= j < b.len() && b[j] == a[k];
            if j < k {
                assert(a[j] == b[j]);
            }
        } else if b[k] < a[k] {
            assert(b.contains(b[k]));
            let j = choose|j: int| 0 <= j < a.len() && a[j] == b[k];
            if j < k {
                assert(a[j] == b[j]);
            }
        }
    }
}

proof fn lemma_sorted_unique(a: Seq<u32>, b: Seq<u32>)
    requires
        strictly_sorted(a),
        strictly_sorted(b),
        forall|x: u32| a.contains(x) <==> b.contains(x),
    ensures
        a == b,
{
    if a.len() <= b.len() {
        lemma_sorted_same_members(a, b, a.len() as int);
        if a.len() < b.len() {
            let k = a.len() as int;
            assert(b.contains(b[k]));
            let j = choose|j: int| 0 <= j < a.len() && a[j] == b[k];
            assert(a[j] == b[j]);
        }
    } else {
        lemma_sorted_same_members(a, b, b.len() as int);
        let k = b.len() as int;
        assert(a.contains(a[k]));
        let j = choose|j: int| 0 <= j < b.len() && b[j] == a[k];
        assert(a[j] == b[j]);
    }
    assert(a =~= b);
}

/// The offsets of a register map, in order.
pub open spec fn reg_offsets(regs: Seq<RegisterModel>) -> Seq<u32> {
    regs.map_values(|r: RegisterModel| r.offset)
}

/// `s` is strictly increasing.
pub open spec fn strictly_sorted(s: Seq<u32>) -> bool {
    forall|p: int, q: int| 0 <= p < q < s.len() ==> #[trigger] s[p] < #[trigger] s[q]
}

proof fn lemma_map_offsets(regs: Seq<RegisterModel>, accs: Seq<MmioAccess>, base: u64)
    requires
        register_map_matches(regs, accs, base),
    ensures
        strictly_sorted(reg_offsets(regs)),
        forall|x: u32|
            reg_offsets(regs).contains(x) <==> exists|k: int|
                0 <= k < accs.len() && acc_offset(#[trigger] accs[k], base) == x,
{
    let offs = reg_offsets(regs);
    assert(strictly_sorted(offs)) by {
        assert forall|p: int, q: int| 0 <= p < q < offs.len() implies #[trigger] offs[p] < #[trigger] offs[q] by {
            assert(regs[p].offset < regs[q].offset);
        }
    }
    assert forall|x: u32| offs.contains(x) implies exists|k: int|
        0 <= k < accs.len() && acc_offset(#[trigger] accs[k], base) == x by {
        let i = choose|i: int| 0 <= i < offs.len() && offs[i] == x;
        assert(summarizes(regs[i], accs, base));
        lemma_first_stable(accs, base, x, accs.len() as int);
        let f = first_at(accs, base, x, accs.len() as int);
        assert(acc_offset(accs[f], base) == x);
    }
    assert forall|x: u32| (exists|k: int| 0 <= k < accs.len() && acc_offset(#[trigger] accs[k], base) == x)
        implies offs.contains(x) by {
        let k = choose|k: int| 0 <= k < accs.len() && acc_offset(#[trigger] accs[k], base) == x;
        assert(has_register_at(regs, acc_offset(accs[k], base)));
        let i = choose|i: int| 0 <= i < regs.len() && (#[trigger] regs[i]).offset == x;
        assert(offs[i] == x);
    }
}

/// The register map of a region is determined by its accesses alone: two
/// register maps that both match the same accesses agree register for
/// register on every field.
pub proof fn register_map_is_determined(
    regs1: Seq<RegisterModel>,
    regs2: Seq<RegisterModel>,
    accs: Seq<MmioAccess>,
    base: u64,
)
    requires
        register_map_matches(regs1, accs, base),
        register_map_matches(regs2, accs, base),
    ensures
        regs1.map_values(|r: RegisterModel| register_view(r)) == regs2.map_values(
            |r: RegisterModel| register_view(r),
        ),
{
    let o1 = reg_offsets(regs1);
    let o2 = reg_offsets(regs2);
    lemma_map_offsets(regs1, accs, base);
    lemma_map_offsets(regs2, accs, base);
    lemma_sorted_unique(o1, o2);
    assert(regs1.len() == o1.len() && regs2.len() == o2.len());
    assert forall|i: int| 0 <= i < regs1.len() implies register_view(#[trigger] regs1[i]) == register_view(
        regs2[i],
    ) by {
        assert(o1[i] == o2[i]);
        let r1 = regs1[i];
        let r2 = regs2[i];
        assert(summarizes(r1, accs, base));
        assert(summarizes(r2, accs, base));
        assert(observed_values(r1) == observed_values(r2));
        lemma_bitfields_determined(r1, r1.bitfields@, r2, r2.bitfields@);
    }
    assert(regs1.map_values(|r: RegisterModel| register_view(r)) =~= regs2.map_values(
        |r: RegisterModel| register_view(r),
    ));
}

proof fn lemma_push_injective(s1: Seq<SequencedAccess>, e1: SequencedAccess, s2: Seq<SequencedAccess>, e2: SequencedAccess)
    requires
        s1.push(e1) == s2.push(e2),
    ensures
        s1 == s2,
        e1 == e2,
{
    assert(s1.push(e1).len() == s1.len() + 1);
    assert(s2.push(e2).len() == s2.len() + 1);
    assert(s1.len() == s2.len());
    let k = s1.len() as int;
    assert(s1.push(e1)[k] == e1);
    assert(s2.push(e2)[k] == e2);
    assert(s1 =~= s1.push(e1).drop_last());
    assert(s2 =~= s2.push(e2).drop_last());
}

/// Sorting by instruction address while keeping equal addresses in order has
/// one outcome: two address-sorted sequences with the same accesses at every
/// address are equal.
proof fn lemma_stable_sorted_unique(t1: Seq<SequencedAccess>, t2: Seq<SequencedAccess>)
    requires
        t1.len() == t2.len(),
        addr_sorted(t1),
        addr_sorted(t2),
        forall|x: u64| #[trigger] t1.filter(at_addr(x)) == t2.filter(at_addr(x)),
    ensures
        t1 == t2,
    decreases t1.len(),
{
    if t1.len() == 0 {
        assert(t1 =~= t2);
    } else {
        let n = t1.len() - 1;
        let e1 = t1[n];
        let e2 = t2[n];
        let a1 = t1.drop_last();
        let a2 = t2.drop_last();
        assert(t1 =~= a1.push(e1));
        assert(t2 =~= a2.push(e2));
        let m1 = e1.instruction_addr;
        let m2 = e2.instruction_addr;
        t1.filter_lemma(at_addr(m1));
        t2.filter_lemma(at_addr(m2));
        assert(t1.filter(at_addr(m1)).contains(t1[n]));
        assert(t2.filter(at_addr(m2)).contains(t2[n]));
        assert(t2.filter(at_addr(m1)).contains(e1));
        t2.lemma_filter_contains_rev(at_addr(m1), e1);
        assert(t1.filter(at_addr(m2)).contains(e2));
        t1.lemma_filter_contains_rev(at_addr(m2), e2);
        assert(m1 == m2) by {
            let i = choose|i: int| 0 <= i < t2.len() && t2[i] == e1;
            let j = choose|j: int| 0 <= j < t1.len() && t1[j] == e2;
            if i < n {
                assert(t2[i].instruction_addr <= t2[n].instruction_addr);
            }
            if j < n {
                assert(t1[j].instruction_addr <= t1[n].instruction_addr);
            }
        }
        a1.lemma_filter_push(e1, at_addr(m1));
        a2.lemma_filter_push(e2, at_addr(m1));
        assert(a1.filter(at_addr(m1)).push(e1) == a2.filter(at_addr(m1)).push(e2));
        lemma_push_injective(a1.filter(at_addr(m1)), e1, a2.filter(at_addr(m1)), e2);
        assert forall|x: u64| #[trigger] a1.filter(at_addr(x)) == a2.filter(at_addr(x)) by {
            a1.lemma_filter_push(e1, at_addr(x));
            a2.lemma_filter_push(e2, at_addr(x));
            assert(t1.filter(at_addr(x)) == t2.filter(at_addr(x)));
        }
        lemma_stable_sorted_unique(a1, a2);
    }
}

proof fn lemma_group_has_access(accs: Seq<MmioAccess>, base: u64, name: Seq<char>, k: int)
    requires
        0 <= k <= accs.len(),
        fn_group(accs, base, name, k).len() > 0,
    ensures
        exists|j: int| 0 <= j < accs.len() && (#[trigger] accs[j]).function_name@ == name,
    decreases k,
{
    if accs[k - 1].function_name@ != name {
        lemma_group_has_access(accs, base, name, k - 1);
    }
}

/// The function names of a list of access sequences.
pub open spec fn sequence_names(seqs: Seq<AccessSequence>) -> Seq<Seq<char>> {
    seqs.map_values(|q: AccessSequence| q.function@)
}

/// Some sequence of `seqs` belongs to the same function as `q` and holds the same accesses.
pub open spec fn has_same_sequence(seqs: Seq<AccessSequence>, q: AccessSequence) -> bool {
    exists|j: int|
        0 <= j < seqs.len() && (#[trigger] seqs[j]).function@ == q.function@ && seqs[j].accesses@ == q.accesses@
}

proof fn lemma_each_sequence_matched(
    seqs1: Seq<AccessSequence>,
    seqs2: Seq<AccessSequence>,
    accs: Seq<MmioAccess>,
    base: u64,
)
    requires
        sequences_match(seqs1, accs, base),
        sequences_match(seqs2, accs, base),
    ensures
        forall|i: int| 0 <= i < seqs1.len() ==> has_same_sequence(seqs2, #[trigger] seqs1[i]),
{
    assert forall|i: int| 0 <= i < seqs1.len() implies has_same_sequence(seqs2, #[trigger] seqs1[i]) by {
        let q = seqs1[i];
        assert(is_function_sequence(q, accs, base));
        let g = fn_group(accs, base, q.function@, accs.len() as int);
        lemma_group_has_access(accs, base, q.function@, accs.len() as int);
        let k = choose|k: int| 0 <= k < accs.len() && (#[trigger] accs[k]).function_name@ == q.function@;
        assert(has_sequence_for(seqs2, accs[k].function_name@));
        let j = choose|j: int| 0 <= j < seqs2.len() && (#[trigger] seqs2[j]).function@ == q.function@;
        assert(is_function_sequence(seqs2[j], accs, base));
        lemma_stable_sorted_unique(q.accesses@, seqs2[j].accesses@);
        assert(0 <= j < seqs2.len() && seqs2[j].function@ == q.function@ && seqs2[j].accesses@ == q.accesses@);
    }
}

/// The access sequences of a region are determined by its accesses, up to
/// their order: two lists that both match the same accesses have the same
/// length, and each sequence of one has a sequence of the other for the same
/// function with the same accesses.
pub proof fn sequences_are_determined(
    seqs1: Seq<AccessSequence>,
    seqs2: Seq<AccessSequence>,
    accs: Seq<MmioAccess>,
    base: u64,
)
    requires
        sequences_match(seqs1, accs, base),
        sequences_match(seqs2, accs, base),
    ensures
        seqs1.len() == seqs2.len(),
        forall|i: int| 0 <= i < seqs1.len() ==> has_same_sequence(seqs2, #[trigger] seqs1[i]),
{
    lemma_each_sequence_matched(seqs1, seqs2, accs, base);
    let n1 = sequence_names(seqs1);
    let n2 = sequence_names(seqs2);
    assert(n1.no_duplicates()) by {
        assert forall|i: int, j: int| 0 <= i < n1.len() && 0 <= j < n1.len() && i != j implies n1[i] != n1[j] by {
            if i < j {
                assert(seqs1[i].function@ != seqs1[j].function@);
            } else {
                assert(seqs1[j].function@ != seqs1[i].function@);
            }
        }
    }
    assert(n2.no_duplicates()) by {
        assert forall|i: int, j: int| 0 <= i < n2.len() && 0 <= j < n2.len() && i != j implies n2[i] != n2[j] by {
            if i < j {
                assert(seqs2[i].function@ != seqs2[j].function@);
            } else {
                assert(seqs2[j].function@ != seqs2[i].function@);
            }
        }
    }
    assert forall|nm: Seq<char>| n1.to_set().contains(nm) <==> n2.to_set().contains(nm) by {
        if n1.contains(nm) {
            let i = choose|i: int| 0 <= i < n1.len() && n1[i] == nm;
            assert(is_function_sequence(seqs1[i], accs, base));
            lemma_group_has_access(accs, base, nm, accs.len() as int);
            let k = choose|k: int| 0 <= k < accs.len() && (#[trigger] accs[k]).function_name@ == nm;
            assert(has_sequence_for(seqs2, accs[k].function_name@));
            let j = choose|j: int| 0 <= j < seqs2.len() && (#[trigger] seqs2[j]).function@ == nm;
            assert(n2[j] == nm);
        }
        if n2.contains(nm) {
            let j = choose|j: int| 0 <= j < n2.len() && n2[j] == nm;
            assert(is_function_sequence(seqs2[j], accs, base));
            lemma_group_has_access(accs, base, nm, accs.len() as int);
            let k = choose|k: int| 0 <= k < accs.len() && (#[trigger] accs[k]).function_name@ == nm;
            assert(has_sequence_for(seqs1, accs[k].function_name@));
            let i = choose|i: int| 0 <= i < seqs1.len() && (#[trigger] seqs1[i]).function@ == nm;
            assert(n1[i] == nm);
        }
    }
    assert(n1.to_set() =~= n2.to_set());
    n1.unique_seq_to_set();
    n2.unique_seq_to_set();
}

/// Models built for the same region agree on everything but the order of
/// access sequences whose first accesses share an instruction address (and
/// the initialisation sequence that follows from that order): the same base,
/// name, classification and confidence, the same register map, the same
/// access sequences up to their order, and the same state machine. So the raw accesses passed to `build_device_models`, which
/// its contract never mentions, change none of these.
pub proof fn models_of_a_region_agree(m1: DeviceModel, m2: DeviceModel, region: MmioRegion)
    requires
        model_matches(m1, region),
        model_matches(m2, region),
    ensures
        m1.base == m2.base,
        m1.name@ == m2.name@,
        m1.classification@ == m2.classification@,
        m1.confidence == m2.confidence,
        m1.registers@.map_values(|r: RegisterModel| register_view(r)) == m2.registers@.map_values(
            |r: RegisterModel| register_view(r),
        ),
        m1.sequences@.len() == m2.sequences@.len(),
        forall|i: int|
            0 <= i < m1.sequences@.len() ==> has_same_sequence(m2.sequences@, #[trigger] m1.sequences@[i]),
        m1.state_machine is None <==> m2.state_machine is None,
        m1.state_machine is Some ==> str_views(m1.state_machine->0.states@) == str_views(
            m2.state_machine->0.states@,
        ) && m1.state_machine->0.transitions@.map_values(|t: Transition| transition_view(t))
            == m2.state_machine->0.transitions@.map_values(|t: Transition| transition_view(t)),
{
    let regs1 = m1.registers@;
    let regs2 = m2.registers@;
    register_map_is_determined(regs1, regs2, region.accesses@, region.base);
    let v1 = regs1.map_values(|r: RegisterModel| register_view(r));
    let v2 = regs2.map_values(|r: RegisterModel| register_view(r));
    assert(regs1.len() == v1.len() && regs2.len() == v2.len());
    assert(any_written(regs1) == any_written(regs2)) by {
        if any_written(regs1) {
            let i = choose|i: int| 0 <= i < regs1.len() && (#[trigger] regs1[i]).access is Write;
            assert(v1[i] == v2[i]);
        }
        if any_written(regs2) {
            let i = choose|i: int| 0 <= i < regs2.len() && (#[trigger] regs2[i]).access is Write;
            assert(v1[i] == v2[i]);
        }
    }
    assert(any_polling(regs1) == any_polling(regs2)) by {
        if any_polling(regs1) {
            let i = choose|i: int| 0 <= i < regs1.len() && (#[trigger] regs1[i]).polling;
            assert(v1[i] == v2[i]);
        }
        if any_polling(regs2) {
            let i = choose|i: int| 0 <= i < regs2.len() && (#[trigger] regs2[i]).polling;
            assert(v1[i] == v2[i]);
        }
    }
    state_machine_depends_only_on_flags(m1.state_machine, regs1, m2.state_machine, regs2);
    sequences_are_determined(m1.sequences@, m2.sequences@, region.accesses@, region.base);
}

} // verus!
