//! Reads the hardware description out of a device tree blob: register
//! windows, interrupt lines and GPIO, I2C, SPI and DMA controllers.

use vstd::prelude::*;

use device_tree_parser::PropertyValue as V;

use crate::acquisition::types::{
    ClockMap, DmaController, DtNode, DtProperty, DtbInfo, DtbParseError, GpioMap, I2cBus, IrqMap,
    MmioRegion, PropValue, SpiBus,
};
use crate::text::{contains_str, dec, hex, push_str, str_contains, str_views};
use vstd::string::StringExecFns;
use vstd::utf8::valid_utf8;

verus! {

#[verifier::external_type_specification]
#[verifier::external_body]
pub struct ExDeviceTreeNode<'a>(device_tree_parser::DeviceTreeNode<'a>);

#[verifier::external_type_specification]
#[verifier::external_body]
pub struct ExPropertyValue<'a>(device_tree_parser::PropertyValue<'a>);

#[verifier::external_type_specification]
#[verifier::external_body]
pub struct ExDtbError(device_tree_parser::DtbError);

/// The tree that the `device_tree_parser` crate reads from a blob whose
/// structure block lies at a 4-byte aligned address, as plain values, or
/// `None` where it rejects such a blob.
pub uninterp spec fn parsed_device_tree(data: Seq<u8>) -> Option<DtNode>;

/// Copies a parsed property value into plain values, variant for variant.
#[verifier::external_body]
fn copy_parsed_value(value: &V) -> PropValue {
    match value {
        V::Empty => PropValue::Empty,
        V::String(s) => PropValue::String(s.to_string()),
        V::StringList(l) => PropValue::StringList(l.iter().map(|s| s.to_string()).collect()),
        V::U32(v) => PropValue::U32(*v),
        V::U32Array(b) => PropValue::U32Array(b.to_vec()),
        V::U64(v) => PropValue::U64(*v),
        V::U64Array(b) => PropValue::U64Array(b.to_vec()),
        V::Bytes(b) => PropValue::Bytes(b.to_vec()),
    }
}

/// Copies a parsed node, its properties and its children into plain values.
#[verifier::external_body]
fn copy_parsed_node(node: &device_tree_parser::DeviceTreeNode) -> DtNode {
    let properties = node.properties.iter().map(
        |p| DtProperty { name: p.name.to_string(), value: copy_parsed_value(&p.value) },
    ).collect();
    let children = node.children.iter().map(copy_parsed_node).collect();
    DtNode { name: node.name.to_string(), properties, children }
}

/// Parses a blob with `DeviceTreeParser::parse_tree` of `device_tree_parser`.
/// The contract claims that a successful parse gives, copied into plain values,
/// the tree that the name `parsed_device_tree` gives, and that the parse fails
/// where the name gives none. The parser also rejects a structure block that
/// does not start at a 4-byte aligned address, so whether it succeeds depends
/// on where the blob lies in memory: the contract does not promise success.
/// The parser slices past a property's data and padding without checking that
/// they fit in the structure block, and panics where they do not; `requires`
/// leaves those blobs out.
#[verifier::external_body]
fn parse_device_tree(data: &[u8]) -> (r: Result<DtNode, device_tree_parser::DtbError>)
    requires
        blob_walk_fits(data@),
    ensures
        r matches Ok(t) ==> parsed_device_tree(data@) == Some(t),
        parsed_device_tree(data@) is None ==> r is Err,
{
    device_tree_parser::DeviceTreeParser::new(data).parse_tree().map(|t| copy_parsed_node(&t))
}

/// The texts that `Display` of `device_tree_parser::DtbError` writes, one
/// form per variant (numbers in decimal, addresses in lower-case hex).
pub open spec fn dtb_error_display(t: Seq<char>) -> bool {
    ||| t == "Invalid magic number in DTB header"@
    ||| t == "Malformed DTB header structure"@
    ||| t == "Invalid token in structure block"@
    ||| t == "Data alignment error"@
    ||| exists|n: u32| t == "Invalid #address-cells value: "@ + dec(n as nat) + " (must be 1-4)"@
    ||| exists|n: u32| t == "Invalid #size-cells value: "@ + dec(n as nat) + " (must be 0-4)"@
    ||| exists|a: u64| t == "Cannot translate address 0x"@ + hex(a as nat)
    ||| t == "Invalid ranges property format"@
    ||| t == "Translation cycle detected in device tree hierarchy"@
    ||| t == "Maximum translation depth exceeded"@
}

/// The text that `Display` of `device_tree_parser::DtbError` writes for an
/// error. The contract claims it is one of the texts that the `Display` impl
/// writes for some variant; it does not say which variant the error is.
#[verifier::external_body]
fn dtb_error_text(e: &device_tree_parser::DtbError) -> (t: String)
    ensures
        dtb_error_display(t@),
{
    e.to_string()
}


// ---------------------------------------------------------------------------
// Properties
// ---------------------------------------------------------------------------

/// The first property at or after index `i` called `name`.
pub open spec fn find_prop_from(props: Seq<DtProperty>, name: Seq<char>, i: int) -> Option<DtProperty>
    decreases props.len() - i,
{
    if i < 0 || i >= props.len() {
        None
    } else if props[i].name@ == name {
        Some(props[i])
    } else {
        find_prop_from(props, name, i + 1)
    }
}

/// The first property called `name`.
pub open spec fn find_prop(props: Seq<DtProperty>, name: Seq<char>) -> Option<DtProperty> {
    find_prop_from(props, name, 0)
}

/// Index of the first property called `name`.
fn find_property(props: &Vec<DtProperty>, name: &str) -> (r: Option<usize>)
    ensures
        match r {
            Some(i) => i < props@.len() && find_prop(props@, name@) == Some(props@[i as int]),
            None => find_prop(props@, name@) is None,
        },
{
    let key = String::from_str(name);
    let n = props.len();
    let mut i: usize = 0;
    while i < n
        invariant
            n == props@.len(),
            i <= n,
            key@ == name@,
            find_prop(props@, name@) == find_prop_from(props@, name@, i as int),
        decreases n - i,
    {
        if props[i].name == key {
            return Some(i);
        }
        i = i + 1;
    }
    None
}

/// The compatible strings of a node: its first `compatible` property, as a
/// list or a single string, or nothing.
pub open spec fn spec_compatible(node: DtNode) -> Seq<Seq<char>> {
    match find_prop(node.properties@, "compatible"@) {
        Some(p) => match p.value {
            PropValue::StringList(l) => str_views(l@),
            PropValue::String(s) => seq![s@],
            _ => Seq::empty(),
        },
        None => Seq::empty(),
    }
}

/// The model string of a node: its first `model` property, where that is a string.
pub open spec fn spec_model(node: DtNode) -> Option<Seq<char>> {
    match find_prop(node.properties@, "model"@) {
        Some(p) => match p.value {
            PropValue::String(s) => Some(s@),
            _ => None,
        },
        None => None,
    }
}

/// The big-endian 32-bit value of bytes `i..i+4`.
pub open spec fn be_u32(b: Seq<u8>, i: int) -> u32 {
    (b[i] * 0x100_0000 + b[i + 1] * 0x1_0000 + b[i + 2] * 0x100 + b[i + 3]) as u32
}

/// The big-endian 64-bit value of bytes `i..i+8`.
pub open spec fn be_u64(b: Seq<u8>, i: int) -> u64 {
    (b[i] * 0x100_0000_0000_0000 + b[i + 1] * 0x1_0000_0000_0000 + b[i + 2] * 0x100_0000_0000
        + b[i + 3] * 0x1_0000_0000 + b[i + 4] * 0x100_0000 + b[i + 5] * 0x1_0000 + b[i + 6] * 0x100
        + b[i + 7]) as u64
}

/// The complete big-endian 32-bit cells of a byte string (trailing bytes are ignored).
pub open spec fn u32_cells(b: Seq<u8>) -> Seq<u32> {
    Seq::new(b.len() / 4, |i: int| be_u32(b, 4 * i))
}

/// The register windows of a node: its first `reg` property read as
/// (address, size) pairs of 32-bit cells, or of 64-bit cells; nothing otherwise.
pub open spec fn spec_reg(node: DtNode) -> Seq<(u64, u64)> {
    match find_prop(node.properties@, "reg"@) {
        Some(p) => match p.value {
            PropValue::U32Array(d) => {
                let cells = u32_cells(d@);
                Seq::new(cells.len() / 2, |i: int| (cells[2 * i] as u64, cells[2 * i + 1] as u64))
            },
            PropValue::U64Array(d) => Seq::new(
                d@.len() / 16,
                |i: int| (be_u64(d@, 16 * i), be_u64(d@, 16 * i + 8)),
            ),
            _ => Seq::empty(),
        },
        None => Seq::empty(),
    }
}

/// The big-endian value of the `n` bytes of `b` from index `i`.
pub open spec fn bytes_value(b: Seq<u8>, i: int, n: int) -> int
    decreases n,
{
    if n <= 0 {
        0
    } else {
        bytes_value(b, i, n - 1) * 256 + b[i + n - 1]
    }
}

proof fn lemma_be_u32_value(b: Seq<u8>, i: int)
    requires
        0 <= i,
        i + 4 <= b.len(),
    ensures
        be_u32(b, i) as int == bytes_value(b, i, 4),
{
    let (b0, b1, b2, b3) = (b[i] as int, b[i + 1] as int, b[i + 2] as int, b[i + 3] as int);
    reveal_with_fuel(bytes_value, 5);
    assert(bytes_value(b, i, 4) == ((b0 * 256 + b1) * 256 + b2) * 256 + b3);
    assert(0 <= b0 * 0x100_0000 + b1 * 0x1_0000 + b2 * 0x100 + b3 <= 0xffff_ffff) by (nonlinear_arith)
        requires
            0 <= b0 < 256,
            0 <= b1 < 256,
            0 <= b2 < 256,
            0 <= b3 < 256,
    ;
    assert(((b0 * 256 + b1) * 256 + b2) * 256 + b3 == b0 * 0x100_0000 + b1 * 0x1_0000 + b2 * 0x100 + b3)
        by (nonlinear_arith);
}

proof fn lemma_be_u64_value(b: Seq<u8>, i: int)
    requires
        0 <= i,
        i + 8 <= b.len(),
    ensures
        be_u64(b, i) as int == bytes_value(b, i, 8),
{
    let (b0, b1, b2, b3) = (b[i] as int, b[i + 1] as int, b[i + 2] as int, b[i + 3] as int);
    let (b4, b5, b6, b7) = (b[i + 4] as int, b[i + 5] as int, b[i + 6] as int, b[i + 7] as int);
    reveal_with_fuel(bytes_value, 9);
    assert(bytes_value(b, i, 8) == ((((((b0 * 256 + b1) * 256 + b2) * 256 + b3) * 256 + b4) * 256 + b5) * 256
        + b6) * 256 + b7);
    let sum = b0 * 0x100_0000_0000_0000 + b1 * 0x1_0000_0000_0000 + b2 * 0x100_0000_0000 + b3 * 0x1_0000_0000
        + b4 * 0x100_0000 + b5 * 0x1_0000 + b6 * 0x100 + b7;
    assert(0 <= sum <= 0xffff_ffff_ffff_ffff) by (nonlinear_arith)
        requires
            sum == b0 * 0x100_0000_0000_0000 + b1 * 0x1_0000_0000_0000 + b2 * 0x100_0000_0000 + b3
                * 0x1_0000_0000 + b4 * 0x100_0000 + b5 * 0x1_0000 + b6 * 0x100 + b7,
            0 <= b0 < 256,
            0 <= b1 < 256,
            0 <= b2 < 256,
            0 <= b3 < 256,
            0 <= b4 < 256,
            0 <= b5 < 256,
            0 <= b6 < 256,
            0 <= b7 < 256,
    ;
    assert(((((((b0 * 256 + b1) * 256 + b2) * 256 + b3) * 256 + b4) * 256 + b5) * 256 + b6) * 256 + b7 == sum)
        by (nonlinear_arith)
        requires
            sum == b0 * 0x100_0000_0000_0000 + b1 * 0x1_0000_0000_0000 + b2 * 0x100_0000_0000 + b3
                * 0x1_0000_0000 + b4 * 0x100_0000 + b5 * 0x1_0000 + b6 * 0x100 + b7,
    ;
}

/// The register windows of a node come whole from its first `reg` property:
/// with 32-bit cells, one window per eight bytes whose address is the first
/// cell and whose size is the whole second cell; with 64-bit cells, one
/// window per sixteen bytes whose address and size are the two 64-bit cells;
/// each cell read big-endian. Any other value, or no `reg` property, gives
/// no window.
pub proof fn reg_windows_are_whole_cells(node: DtNode)
    ensures
        match find_prop(node.properties@, "reg"@) {
            Some(p) => match p.value {
                PropValue::U32Array(d) => spec_reg(node).len() == d@.len() / 8 && forall|i: int|
                    0 <= i < spec_reg(node).len() ==> (#[trigger] spec_reg(node)[i]).0 as int == bytes_value(
                        d@,
                        8 * i,
                        4,
                    ) && spec_reg(node)[i].1 as int == bytes_value(d@, 8 * i + 4, 4),
                PropValue::U64Array(d) => spec_reg(node).len() == d@.len() / 16 && forall|i: int|
                    0 <= i < spec_reg(node).len() ==> (#[trigger] spec_reg(node)[i]).0 as int == bytes_value(
                        d@,
                        16 * i,
                        8,
                    ) && spec_reg(node)[i].1 as int == bytes_value(d@, 16 * i + 8, 8),
                _ => spec_reg(node).len() == 0,
            },
            None => spec_reg(node).len() == 0,
        },
{
    match find_prop(node.properties@, "reg"@) {
        Some(p) => match p.value {
            PropValue::U32Array(d) => {
                let b = d@;
                let cells = u32_cells(b);
                assert((b.len() / 4) / 2 == b.len() / 8) by (nonlinear_arith)
                    requires
                        b.len() >= 0,
                ;
                assert forall|i: int| 0 <= i < spec_reg(node).len() implies (#[trigger] spec_reg(node)[i]).0 as int
                    == bytes_value(b, 8 * i, 4) && spec_reg(node)[i].1 as int == bytes_value(b, 8 * i + 4, 4) by {
                    assert(8 * i + 8 <= b.len()) by (nonlinear_arith)
                        requires
                            0 <= i < b.len() / 8,
                    ;
                    lemma_be_u32_value(b, 8 * i);
                    lemma_be_u32_value(b, 8 * i + 4);
                    assert(cells[2 * i] == be_u32(b, 4 * (2 * i)));
                    assert(cells[2 * i + 1] == be_u32(b, 4 * (2 * i + 1)));
                }
            },
            PropValue::U64Array(d) => {
                let b = d@;
                assert forall|i: int| 0 <= i < spec_reg(node).len() implies (#[trigger] spec_reg(node)[i]).0 as int
                    == bytes_value(b, 16 * i, 8) && spec_reg(node)[i].1 as int == bytes_value(b, 16 * i + 8, 8) by {
                    assert(16 * i + 16 <= b.len()) by (nonlinear_arith)
                        requires
                            0 <= i < b.len() / 16,
                    ;
                    lemma_be_u64_value(b, 16 * i);
                    lemma_be_u64_value(b, 16 * i + 8);
                }
            },
            _ => {},
        },
        None => {},
    }
}

/// The interrupt numbers of a node: its first `interrupts` property read as
/// 32-bit cells, or a single 32-bit value; nothing otherwise.
pub open spec fn spec_interrupts(node: DtNode) -> Seq<u32> {
    match find_prop(node.properties@, "interrupts"@) {
        Some(p) => match p.value {
            PropValue::U32Array(d) => u32_cells(d@),
            PropValue::U32(v) => seq![v],
            _ => Seq::empty(),
        },
        None => Seq::empty(),
    }
}

/// The interrupt numbers of a node come whole from its first `interrupts`
/// property: with 32-bit cells, one number per four bytes, each read
/// big-endian; a single 32-bit value gives that number; any other value, or
/// no such property, gives none.
pub proof fn interrupts_are_whole_cells(node: DtNode)
    ensures
        match find_prop(node.properties@, "interrupts"@) {
            Some(p) => match p.value {
                PropValue::U32Array(d) => spec_interrupts(node).len() == d@.len() / 4 && forall|i: int|
                    0 <= i < spec_interrupts(node).len() ==> (#[trigger] spec_interrupts(node)[i]) as int
                        == bytes_value(d@, 4 * i, 4),
                PropValue::U32(v) => spec_interrupts(node) == seq![v],
                _ => spec_interrupts(node).len() == 0,
            },
            None => spec_interrupts(node).len() == 0,
        },
{
    match find_prop(node.properties@, "interrupts"@) {
        Some(p) => match p.value {
            PropValue::U32Array(d) => {
                let b = d@;
                assert forall|i: int| 0 <= i < spec_interrupts(node).len() implies (#[trigger] spec_interrupts(
                    node,
                )[i]) as int == bytes_value(b, 4 * i, 4) by {
                    assert(4 * i + 4 <= b.len()) by (nonlinear_arith)
                        requires
                            0 <= i < b.len() / 4,
                    ;
                    lemma_be_u32_value(b, 4 * i);
                }
            },
            _ => {},
        },
        None => {},
    }
}

fn clone_strings(v: &Vec<String>) -> (r: Vec<String>)
    ensures
        r@ == v@,
{
    let mut r: Vec<String> = Vec::new();
    let mut i: usize = 0;
    while i < v.len()
        invariant
            i <= v@.len(),
            r@ == v@.take(i as int),
        decreases v@.len() - i,
    {
        r.push(v[i].clone());
        assert(v@.take(i + 1) == v@.take(i as int).push(v@[i as int]));
        i = i + 1;
    }
    assert(v@.take(i as int) == v@);
    r
}

fn clone_u32s(v: &Vec<u32>) -> (r: Vec<u32>)
    ensures
        r@ == v@,
{
    let mut r: Vec<u32> = Vec::new();
    let mut i: usize = 0;
    while i < v.len()
        invariant
            i <= v@.len(),
            r@ == v@.take(i as int),
        decreases v@.len() - i,
    {
        r.push(v[i]);
        assert(v@.take(i + 1) == v@.take(i as int).push(v@[i as int]));
        i = i + 1;
    }
    assert(v@.take(i as int) == v@);
    r
}

/// The compatible strings of a node.
fn get_compatible_list(node: &DtNode) -> (list: Vec<String>)
    ensures
        str_views(list@) == spec_compatible(*node),
{
    proof {
        reveal_strlit("compatible");
    }
    match find_property(&node.properties, "compatible") {
        Some(i) => match &node.properties[i].value {
            PropValue::StringList(l) => clone_strings(l),
            PropValue::String(s) => {
                let mut v: Vec<String> = Vec::new();
                v.push(s.clone());
                assert(str_views(v@) == seq![s@]);
                v
            },
            _ => Vec::new(),
        },
        None => Vec::new(),
    }
}

fn be_u32_at(d: &[u8], i: usize) -> (v: u32)
    requires
        i + 4 <= d@.len(),
    ensures
        v == be_u32(d@, i as int),
{
    let n = d.len();
    assert(i + 4 <= n);
    let b0 = d[i] as u32;
    let b1 = d[i + 1] as u32;
    let b2 = d[i + 2] as u32;
    let b3 = d[i + 3] as u32;
    assert(b0 * 0x100_0000 <= 0xff00_0000) by (nonlinear_arith)
        requires
            b0 <= 0xff,
    ;
    assert(b1 * 0x1_0000 <= 0xff_0000) by (nonlinear_arith)
        requires
            b1 <= 0xff,
    ;
    assert(b2 * 0x100 <= 0xff00) by (nonlinear_arith)
        requires
            b2 <= 0xff,
    ;
    b0 * 0x100_0000 + b1 * 0x1_0000 + b2 * 0x100 + b3
}

fn be_u64_at(d: &[u8], i: usize) -> (v: u64)
    requires
        i + 8 <= d@.len(),
    ensures
        v == be_u64(d@, i as int),
{
    let n = d.len();
    assert(i + 8 <= n);
    let hi = be_u32_at(d, i) as u64;
    let lo = be_u32_at(d, i + 4) as u64;
    assert(hi * 0x1_0000_0000 <= 0xffff_ffff_0000_0000) by (nonlinear_arith)
        requires
            hi <= 0xffff_ffff,
    ;
    hi * 0x1_0000_0000 + lo
}

/// The complete big-endian 32-bit cells of a byte string.
fn u32_cells_of(d: &Vec<u8>) -> (cells: Vec<u32>)
    ensures
        cells@ == u32_cells(d@),
{
    let dl = d.len();
    let n = dl / 4;
    let mut cells: Vec<u32> = Vec::new();
    let mut i: usize = 0;
    while i < n
        invariant
            dl == d@.len(),
            n == d@.len() / 4,
            i <= n,
            cells@ == u32_cells(d@).take(i as int),
        decreases n - i,
    {
        assert(4 * i + 4 <= d@.len()) by (nonlinear_arith)
            requires
                i < n,
                n == d@.len() / 4,
        ;
        cells.push(be_u32_at(d.as_slice(), 4 * i));
        assert(u32_cells(d@).take(i + 1) == u32_cells(d@).take(i as int).push(be_u32(d@, 4 * i)));
        i = i + 1;
    }
    assert(u32_cells(d@).take(n as int) == u32_cells(d@));
    cells
}

/// The register windows of a node.
fn get_reg(node: &DtNode) -> (regs: Vec<(u64, u64)>)
    ensures
        regs@ == spec_reg(*node),
{
    proof {
        reveal_strlit("reg");
    }
    let i = match find_property(&node.properties, "reg") {
        Some(i) => i,
        None => return Vec::new(),
    };
    match &node.properties[i].value {
        PropValue::U32Array(data) => {
            let values = u32_cells_of(data);
            let ghost cells = values@;
            let ghost target = Seq::new(cells.len() / 2, |k: int| (cells[2 * k] as u64, cells[2 * k + 1] as u64));
            let mut regions: Vec<(u64, u64)> = Vec::new();
            let mut i: usize = 0;
            while i + 1 < values.len()
                invariant
                    cells == values@,
                    target == Seq::new(cells.len() / 2, |k: int| (cells[2 * k] as u64, cells[2 * k + 1] as u64)),
                    i % 2 == 0,
                    i <= cells.len(),
                    regions@ == target.take(i as int / 2),
                decreases cells.len() - i,
            {
                regions.push((values[i] as u64, values[i + 1] as u64));
                assert(target.take(i as int / 2 + 1) == target.take(i as int / 2).push(target[i as int / 2]));
                i = i + 2;
            }
            assert(target.take(i as int / 2) == target);
            regions
        },
        PropValue::U64Array(data) => {
            let dl = data.len();
            let n = dl / 16;
            let ghost target = Seq::new(data@.len() / 16, |k: int| (be_u64(data@, 16 * k), be_u64(data@, 16 * k + 8)));
            let mut regions: Vec<(u64, u64)> = Vec::new();
            let mut k: usize = 0;
            while k < n
                invariant
                    dl == data@.len(),
                    n == data@.len() / 16,
                    target == Seq::new(data@.len() / 16, |k: int| (be_u64(data@, 16 * k), be_u64(data@, 16 * k + 8))),
                    k <= n,
                    regions@ == target.take(k as int),
                decreases n - k,
            {
                assert(16 * k + 16 <= data@.len()) by (nonlinear_arith)
                    requires
                        k < n,
                        n == data@.len() / 16,
                ;
                let addr = be_u64_at(data.as_slice(), 16 * k);
                let size = be_u64_at(data.as_slice(), 16 * k + 8);
                regions.push((addr, size));
                assert(target.take(k + 1) == target.take(k as int).push((addr, size)));
                k = k + 1;
            }
            assert(target.take(n as int) == target);
            regions
        },
        _ => Vec::new(),
    }
}

/// The interrupt numbers of a node (its `interrupts` property as 32-bit cells).
fn get_interrupts(node: &DtNode) -> (ints: Vec<u32>)
    ensures
        ints@ == spec_interrupts(*node),
{
    proof {
        reveal_strlit("interrupts");
    }
    match find_property(&node.properties, "interrupts") {
        Some(i) => match &node.properties[i].value {
            PropValue::U32Array(bytes) => u32_cells_of(bytes),
            PropValue::U32(val) => {
                let mut v: Vec<u32> = Vec::new();
                v.push(*val);
                v
            },
            _ => Vec::new(),
        },
        None => Vec::new(),
    }
}


// ---------------------------------------------------------------------------
// Tree walk
// ---------------------------------------------------------------------------

/// The path of a node: its name under the parent's path, separated by `/`.
pub open spec fn node_path(parent: Seq<char>, name: Seq<char>) -> Seq<char> {
    if parent.len() == 0 {
        name
    } else {
        parent + "/"@ + name
    }
}

/// Some compatible string contains `needle`.
pub open spec fn any_contains(compat: Seq<Seq<char>>, needle: Seq<char>) -> bool {
    exists|i: int| 0 <= i < compat.len() && contains_str(#[trigger] compat[i], needle)
}

/// What a walk collects, as plain values: register windows (address, size,
/// node path, compatible strings), interrupt lines (number, node path, flags),
/// GPIO bank bases, I2C and SPI controller addresses, and DMA controllers
/// (address, channels, interrupt numbers).
#[verifier::ext_equal]
pub struct WalkOutput {
    pub regions: Seq<(u64, u64, Option<Seq<char>>, Seq<Seq<char>>)>,
    pub irqs: Seq<(u32, Seq<char>, u32)>,
    pub gpio_bases: Seq<u64>,
    pub i2c_addrs: Seq<u64>,
    pub spi_addrs: Seq<u64>,
    pub dmas: Seq<(u64, u32, Seq<u32>)>,
}

/// Nothing collected.
pub open spec fn walk_empty() -> WalkOutput {
    WalkOutput {
        regions: Seq::empty(),
        irqs: Seq::empty(),
        gpio_bases: Seq::empty(),
        i2c_addrs: Seq::empty(),
        spi_addrs: Seq::empty(),
        dmas: Seq::empty(),
    }
}

/// What `a` collected, followed by what `b` collected.
pub open spec fn walk_cat(a: WalkOutput, b: WalkOutput) -> WalkOutput {
    WalkOutput {
        regions: a.regions + b.regions,
        irqs: a.irqs + b.irqs,
        gpio_bases: a.gpio_bases + b.gpio_bases,
        i2c_addrs: a.i2c_addrs + b.i2c_addrs,
        spi_addrs: a.spi_addrs + b.spi_addrs,
        dmas: a.dmas + b.dmas,
    }
}

/// The addresses of a list of windows.
pub open spec fn reg_addrs(regs: Seq<(u64, u64)>) -> Seq<u64> {
    regs.map_values(|r: (u64, u64)| r.0)
}

/// What a single node contributes, given its path.
pub open spec fn walk_local(node: DtNode, path: Seq<char>) -> WalkOutput {
    let compat = spec_compatible(node);
    let regs = spec_reg(node);
    let ints = spec_interrupts(node);
    WalkOutput {
        regions: regs.map_values(|r: (u64, u64)| (r.0, r.1, Some(path), compat)),
        irqs: ints.map_values(|irq: u32| (irq, path, 0u32)),
        gpio_bases: if any_contains(compat, "gpio"@) { reg_addrs(regs) } else { Seq::empty() },
        i2c_addrs: if any_contains(compat, "i2c"@) { reg_addrs(regs) } else { Seq::empty() },
        spi_addrs: if any_contains(compat, "spi"@) { reg_addrs(regs) } else { Seq::empty() },
        dmas: if any_contains(compat, "dma"@) {
            regs.map_values(|r: (u64, u64)| (r.0, 8u32, ints))
        } else {
            Seq::empty()
        },
    }
}

/// What a depth-first walk of `node` under `parent` collects: the node itself, then its children in order.
pub open spec fn walk(node: DtNode, parent: Seq<char>) -> WalkOutput
    decreases node, 0int,
{
    let path = node_path(parent, node.name@);
    walk_cat(walk_local(node, path), walk_children(node.children@, path, node.children@.len() as int))
}

/// What walks of the first `k` children collect, in order.
pub open spec fn walk_children(children: Seq<DtNode>, path: Seq<char>, k: int) -> WalkOutput
    decreases children, k,
{
    if k <= 0 || k > children.len() {
        walk_empty()
    } else {
        walk_cat(walk_children(children, path, k - 1), walk(children[k - 1], path))
    }
}

/// The view of a register window.
pub open spec fn region_view(r: MmioRegion) -> (u64, u64, Option<Seq<char>>, Seq<Seq<char>>) {
    (
        r.address,
        r.size,
        match r.peripheral {
            Some(p) => Some(p@),
            None => None,
        },
        str_views(r.compatible@),
    )
}

/// The view of an interrupt line.
pub open spec fn irq_view(q: IrqMap) -> (u32, Seq<char>, u32) {
    (q.irq, q.peripheral@, q.flags)
}

/// The view of a DMA controller.
pub open spec fn dma_view(d: DmaController) -> (u64, u32, Seq<u32>) {
    (d.address, d.channels, d.interrupts@)
}

/// GPIO banks numbered from `start`, 32 lines each.
pub open spec fn gpio_entries(start: int, bases: Seq<u64>) -> Seq<GpioMap> {
    Seq::new(bases.len(), |i: int| GpioMap { bank: (start + i) as u32, base: bases[i], count: 32 })
}

/// I2C controllers numbered from `start`, with no clock.
pub open spec fn i2c_entries(start: int, addrs: Seq<u64>) -> Seq<I2cBus> {
    Seq::new(addrs.len(), |i: int| I2cBus { bus_id: (start + i) as u32, address: addrs[i], clock: None })
}

/// SPI controllers numbered from `start`, with chip select 0.
pub open spec fn spi_entries(start: int, addrs: Seq<u64>) -> Seq<SpiBus> {
    Seq::new(addrs.len(), |i: int| SpiBus { bus_id: (start + i) as u32, address: addrs[i], chip_select: 0 })
}

/// The collections after a walk that collected `out`.
pub open spec fn walk_extends(
    old_regions: Seq<MmioRegion>,
    regions: Seq<MmioRegion>,
    old_irqs: Seq<IrqMap>,
    irqs: Seq<IrqMap>,
    old_gpios: Seq<GpioMap>,
    gpios: Seq<GpioMap>,
    old_i2c: Seq<I2cBus>,
    i2c: Seq<I2cBus>,
    old_spi: Seq<SpiBus>,
    spi: Seq<SpiBus>,
    old_dma: Seq<DmaController>,
    dma: Seq<DmaController>,
    out: WalkOutput,
) -> bool {
    &&& regions.map_values(|r: MmioRegion| region_view(r)) == old_regions.map_values(
        |r: MmioRegion| region_view(r),
    ) + out.regions
    &&& irqs.map_values(|q: IrqMap| irq_view(q)) == old_irqs.map_values(|q: IrqMap| irq_view(q))
        + out.irqs
    &&& gpios == old_gpios + gpio_entries(old_gpios.len() as int, out.gpio_bases)
    &&& i2c == old_i2c + i2c_entries(old_i2c.len() as int, out.i2c_addrs)
    &&& spi == old_spi + spi_entries(old_spi.len() as int, out.spi_addrs)
    &&& dma.map_values(|d: DmaController| dma_view(d)) == old_dma.map_values(
        |d: DmaController| dma_view(d),
    ) + out.dmas
}

/// Whether some compatible string contains `needle`.
fn any_compatible_contains(compat: &Vec<String>, needle: &str) -> (b: bool)
    ensures
        b == any_contains(str_views(compat@), needle@),
{
    let mut i: usize = 0;
    while i < compat.len()
        invariant
            i <= compat@.len(),
            forall|j: int| 0 <= j < i ==> !contains_str(#[trigger] compat@[j]@, needle@),
        decreases compat@.len() - i,
    {
        if str_contains(compat[i].as_str(), needle) {
            assert(contains_str(str_views(compat@)[i as int], needle@));
            return true;
        }
        i = i + 1;
    }
    assert forall|j: int| 0 <= j < str_views(compat@).len() implies !contains_str(
        #[trigger] str_views(compat@)[j],
        needle@,
    ) by {
        assert(str_views(compat@)[j] == compat@[j]@);
    }
    false
}


proof fn lemma_walk_extends_trans(
    r0: Seq<MmioRegion>,
    r1: Seq<MmioRegion>,
    r2: Seq<MmioRegion>,
    q0: Seq<IrqMap>,
    q1: Seq<IrqMap>,
    q2: Seq<IrqMap>,
    g0: Seq<GpioMap>,
    g1: Seq<GpioMap>,
    g2: Seq<GpioMap>,
    i0: Seq<I2cBus>,
    i1: Seq<I2cBus>,
    i2: Seq<I2cBus>,
    s0: Seq<SpiBus>,
    s1: Seq<SpiBus>,
    s2: Seq<SpiBus>,
    d0: Seq<DmaController>,
    d1: Seq<DmaController>,
    d2: Seq<DmaController>,
    a: WalkOutput,
    b: WalkOutput,
)
    requires
        walk_extends(r0, r1, q0, q1, g0, g1, i0, i1, s0, s1, d0, d1, a),
        walk_extends(r1, r2, q1, q2, g1, g2, i1, i2, s1, s2, d1, d2, b),
    ensures
        walk_extends(r0, r2, q0, q2, g0, g2, i0, i2, s0, s2, d0, d2, walk_cat(a, b)),
{
    assert(gpio_entries(g0.len() as int, a.gpio_bases + b.gpio_bases) =~= gpio_entries(
        g0.len() as int,
        a.gpio_bases,
    ) + gpio_entries(g1.len() as int, b.gpio_bases));
    assert(i2c_entries(i0.len() as int, a.i2c_addrs + b.i2c_addrs) =~= i2c_entries(
        i0.len() as int,
        a.i2c_addrs,
    ) + i2c_entries(i1.len() as int, b.i2c_addrs));
    assert(spi_entries(s0.len() as int, a.spi_addrs + b.spi_addrs) =~= spi_entries(
        s0.len() as int,
        a.spi_addrs,
    ) + spi_entries(s1.len() as int, b.spi_addrs));
    assert(g2 =~= g0 + (gpio_entries(g0.len() as int, a.gpio_bases) + gpio_entries(g1.len() as int, b.gpio_bases)));
    assert(i2 =~= i0 + (i2c_entries(i0.len() as int, a.i2c_addrs) + i2c_entries(i1.len() as int, b.i2c_addrs)));
    assert(s2 =~= s0 + (spi_entries(s0.len() as int, a.spi_addrs) + spi_entries(s1.len() as int, b.spi_addrs)));
    assert(r2.map_values(|r: MmioRegion| region_view(r)) =~= r0.map_values(|r: MmioRegion| region_view(r))
        + (a.regions + b.regions));
    assert(q2.map_values(|q: IrqMap| irq_view(q)) =~= q0.map_values(|q: IrqMap| irq_view(q)) + (a.irqs
        + b.irqs));
    assert(d2.map_values(|d: DmaController| dma_view(d)) =~= d0.map_values(|d: DmaController| dma_view(d))
        + (a.dmas + b.dmas));
}

proof fn lemma_walk_cat_assoc(a: WalkOutput, b: WalkOutput, c: WalkOutput)
    ensures
        walk_cat(walk_cat(a, b), c) == walk_cat(a, walk_cat(b, c)),
{
    assert(walk_cat(walk_cat(a, b), c) =~= walk_cat(a, walk_cat(b, c)));
}

/// Walks a node and its descendants depth first, collecting register
/// windows, interrupt lines, and GPIO, I2C, SPI and DMA controllers (by
/// compatible string), each tagged with the node's path.
fn walk_node(
    node: &DtNode,
    parent_name: &str,
    mmio_regions: &mut Vec<MmioRegion>,
    irqs: &mut Vec<IrqMap>,
    _clocks: &mut Vec<ClockMap>,
    gpios: &mut Vec<GpioMap>,
    i2c_buses: &mut Vec<I2cBus>,
    spi_buses: &mut Vec<SpiBus>,
    dma_controllers: &mut Vec<DmaController>,
)
    ensures
        walk_extends(
            old(mmio_regions)@,
            final(mmio_regions)@,
            old(irqs)@,
            final(irqs)@,
            old(gpios)@,
            final(gpios)@,
            old(i2c_buses)@,
            final(i2c_buses)@,
            old(spi_buses)@,
            final(spi_buses)@,
            old(dma_controllers)@,
            final(dma_controllers)@,
            walk(*node, parent_name@),
        ),
        final(_clocks)@ == old(_clocks)@,
    decreases node,
{
    proof {
        reveal_strlit("/");
        reveal_strlit("gpio");
        reveal_strlit("i2c");
        reveal_strlit("spi");
        reveal_strlit("dma");
    }
    let full_name = if parent_name.is_empty() {
        node.name.clone()
    } else {
        let mut s = String::from_str(parent_name);
        push_str(&mut s, "/");
        push_str(&mut s, node.name.as_str());
        s
    };
    let ghost path = node_path(parent_name@, node.name@);
    assert(full_name@ == path);
    let compat = get_compatible_list(node);
    let regs = get_reg(node);
    let interrupts = get_interrupts(node);
    let ghost local = walk_local(*node, path);
    let ghost r0 = mmio_regions@;
    let ghost q0 = irqs@;
    let ghost g0 = gpios@;
    let ghost i0 = i2c_buses@;
    let ghost s0 = spi_buses@;
    let ghost d0 = dma_controllers@;

    let mut k: usize = 0;
    while k < regs.len()
        invariant
            k <= regs@.len(),
            regs@ == spec_reg(*node),
            str_views(compat@) == spec_compatible(*node),
            full_name@ == path,
            local == walk_local(*node, path),
            mmio_regions@.map_values(|r: MmioRegion| region_view(r)) == r0.map_values(
                |r: MmioRegion| region_view(r),
            ) + local.regions.take(k as int),
        decreases regs@.len() - k,
    {
        let (addr, size) = regs[k];
        let region = MmioRegion {
            address: addr,
            size,
            peripheral: Some(full_name.clone()),
            compatible: clone_strings(&compat),
        };
        let ghost before = mmio_regions@;
        mmio_regions.push(region);
        assert(local.regions.take(k + 1) == local.regions.take(k as int).push(region_view(region)));
        assert(mmio_regions@.map_values(|r: MmioRegion| region_view(r)) == before.map_values(
            |r: MmioRegion| region_view(r),
        ).push(region_view(region)));
        k = k + 1;
    }
    assert(local.regions.take(k as int) == local.regions);

    let mut k: usize = 0;
    while k < interrupts.len()
        invariant
            k <= interrupts@.len(),
            interrupts@ == spec_interrupts(*node),
            full_name@ == path,
            local == walk_local(*node, path),
            irqs@.map_values(|q: IrqMap| irq_view(q)) == q0.map_values(|q: IrqMap| irq_view(q))
                + local.irqs.take(k as int),
        decreases interrupts@.len() - k,
    {
        let q = IrqMap { irq: interrupts[k], peripheral: full_name.clone(), flags: 0 };
        let ghost before = irqs@;
        irqs.push(q);
        assert(local.irqs.take(k + 1) == local.irqs.take(k as int).push(irq_view(q)));
        assert(irqs@.map_values(|q: IrqMap| irq_view(q)) == before.map_values(|q: IrqMap| irq_view(q)).push(
            irq_view(q),
        ));
        k = k + 1;
    }
    assert(local.irqs.take(k as int) == local.irqs);

    if any_compatible_contains(&compat, "gpio") {
        let mut k: usize = 0;
        while k < regs.len()
            invariant
                k <= regs@.len(),
                regs@ == spec_reg(*node),
                local == walk_local(*node, path),
                local.gpio_bases == reg_addrs(regs@),
                gpios@ == g0 + gpio_entries(g0.len() as int, local.gpio_bases.take(k as int)),
            decreases regs@.len() - k,
        {
            let bank = #[verifier::truncate] (gpios.len() as u32);
            gpios.push(GpioMap { bank, base: regs[k].0, count: 32 });
            assert(gpio_entries(g0.len() as int, local.gpio_bases.take(k + 1)) =~= gpio_entries(
                g0.len() as int,
                local.gpio_bases.take(k as int),
            ).push(GpioMap { bank, base: regs@[k as int].0, count: 32 }));
            k = k + 1;
        }
        assert(local.gpio_bases.take(k as int) == local.gpio_bases);
    } else {
        assert(gpio_entries(g0.len() as int, local.gpio_bases) =~= Seq::<GpioMap>::empty());
    }

    if any_compatible_contains(&compat, "i2c") {
        let mut k: usize = 0;
        while k < regs.len()
            invariant
                k <= regs@.len(),
                regs@ == spec_reg(*node),
                local == walk_local(*node, path),
                local.i2c_addrs == reg_addrs(regs@),
                i2c_buses@ == i0 + i2c_entries(i0.len() as int, local.i2c_addrs.take(k as int)),
            decreases regs@.len() - k,
        {
            let bus_id = #[verifier::truncate] (i2c_buses.len() as u32);
            i2c_buses.push(I2cBus { bus_id, address: regs[k].0, clock: None });
            assert(i2c_entries(i0.len() as int, local.i2c_addrs.take(k + 1)) =~= i2c_entries(
                i0.len() as int,
                local.i2c_addrs.take(k as int),
            ).push(I2cBus { bus_id, address: regs@[k as int].0, clock: None }));
            k = k + 1;
        }
        assert(local.i2c_addrs.take(k as int) == local.i2c_addrs);
    } else {
        assert(i2c_entries(i0.len() as int, local.i2c_addrs) =~= Seq::<I2cBus>::empty());
    }

    if any_compatible_contains(&compat, "spi") {
        let mut k: usize = 0;
        while k < regs.len()
            invariant
                k <= regs@.len(),
                regs@ == spec_reg(*node),
                local == walk_local(*node, path),
                local.spi_addrs == reg_addrs(regs@),
                spi_buses@ == s0 + spi_entries(s0.len() as int, local.spi_addrs.take(k as int)),
            decreases regs@.len() - k,
        {
            let bus_id = #[verifier::truncate] (spi_buses.len() as u32);
            spi_buses.push(SpiBus { bus_id, address: regs[k].0, chip_select: 0 });
            assert(spi_entries(s0.len() as int, local.spi_addrs.take(k + 1)) =~= spi_entries(
                s0.len() as int,
                local.spi_addrs.take(k as int),
            ).push(SpiBus { bus_id, address: regs@[k as int].0, chip_select: 0 }));
            k = k + 1;
        }
        assert(local.spi_addrs.take(k as int) == local.spi_addrs);
    } else {
        assert(spi_entries(s0.len() as int, local.spi_addrs) =~= Seq::<SpiBus>::empty());
    }

    if any_compatible_contains(&compat, "dma") {
        let mut k: usize = 0;
        while k < regs.len()
            invariant
                k <= regs@.len(),
                regs@ == spec_reg(*node),
                interrupts@ == spec_interrupts(*node),
                local == walk_local(*node, path),
                local.dmas == regs@.map_values(|r: (u64, u64)| (r.0, 8u32, interrupts@)),
                dma_controllers@.map_values(|d: DmaController| dma_view(d)) == d0.map_values(
                    |d: DmaController| dma_view(d),
                ) + local.dmas.take(k as int),
            decreases regs@.len() - k,
        {
            let d = DmaController { address: regs[k].0, channels: 8, interrupts: clone_u32s(&interrupts) };
            let ghost before = dma_controllers@;
            dma_controllers.push(d);
            assert(local.dmas.take(k + 1) == local.dmas.take(k as int).push(dma_view(d)));
            assert(dma_controllers@.map_values(|d: DmaController| dma_view(d)) == before.map_values(
                |d: DmaController| dma_view(d),
            ).push(dma_view(d)));
            k = k + 1;
        }
        assert(local.dmas.take(k as int) == local.dmas);
    } else {
        assert(dma_controllers@.map_values(|d: DmaController| dma_view(d)) == d0.map_values(
            |d: DmaController| dma_view(d),
        ) + local.dmas);
    }

    assert(walk_extends(
        r0, mmio_regions@, q0, irqs@, g0, gpios@, i0, i2c_buses@, s0, spi_buses@, d0, dma_controllers@,
        local,
    ));

    let ghost c0 = _clocks@;
    let mut ci: usize = 0;
    while ci < node.children.len()
        invariant
            ci <= node.children@.len(),
            full_name@ == path,
            path == node_path(parent_name@, node.name@),
            local == walk_local(*node, path),
            _clocks@ == c0,
            walk_extends(
                r0, mmio_regions@, q0, irqs@, g0, gpios@, i0, i2c_buses@, s0, spi_buses@, d0,
                dma_controllers@, walk_cat(local, walk_children(node.children@, path, ci as int)),
            ),
        decreases node.children@.len() - ci,
    {
        let ghost r1 = mmio_regions@;
        let ghost q1 = irqs@;
        let ghost g1 = gpios@;
        let ghost i1 = i2c_buses@;
        let ghost s1 = spi_buses@;
        let ghost d1 = dma_controllers@;
        let child = &node.children[ci];
        assert(decreases_to!(node => node.children@[ci as int]));
        walk_node(
            child,
            full_name.as_str(),
            mmio_regions,
            irqs,
            _clocks,
            gpios,
            i2c_buses,
            spi_buses,
            dma_controllers,
        );
        proof {
            let prev = walk_cat(local, walk_children(node.children@, path, ci as int));
            lemma_walk_extends_trans(
                r0, r1, mmio_regions@, q0, q1, irqs@, g0, g1, gpios@, i0, i1, i2c_buses@, s0, s1,
                spi_buses@, d0, d1, dma_controllers@, prev, walk(*child, path),
            );
            lemma_walk_cat_assoc(local, walk_children(node.children@, path, ci as int), walk(*child, path));
            assert(walk_cat(prev, walk(*child, path)) == walk_cat(
                local,
                walk_children(node.children@, path, ci + 1),
            ));
        }
        ci = ci + 1;
    }
}


/// Some collected register window starts at `a`.
pub open spec fn has_window_at(out: WalkOutput, a: u64) -> bool {
    exists|j: int| 0 <= j < out.regions.len() && (#[trigger] out.regions[j]).0 == a
}

/// Every GPIO, I2C, SPI and DMA controller collected sits at the address of a collected register window.
pub open spec fn controllers_backed(out: WalkOutput) -> bool {
    &&& forall|i: int| 0 <= i < out.gpio_bases.len() ==> has_window_at(out, #[trigger] out.gpio_bases[i])
    &&& forall|i: int| 0 <= i < out.i2c_addrs.len() ==> has_window_at(out, #[trigger] out.i2c_addrs[i])
    &&& forall|i: int| 0 <= i < out.spi_addrs.len() ==> has_window_at(out, #[trigger] out.spi_addrs[i])
    &&& forall|i: int| 0 <= i < out.dmas.len() ==> has_window_at(out, (#[trigger] out.dmas[i]).0)
}

proof fn lemma_cat_backed(a: WalkOutput, b: WalkOutput)
    requires
        controllers_backed(a),
        controllers_backed(b),
    ensures
        controllers_backed(walk_cat(a, b)),
{
    let c = walk_cat(a, b);
    assert forall|x: u64| has_window_at(a, x) implies has_window_at(c, x) by {
        let j = choose|j: int| 0 <= j < a.regions.len() && (#[trigger] a.regions[j]).0 == x;
        assert(c.regions[j] == a.regions[j]);
    }
    assert forall|x: u64| has_window_at(b, x) implies has_window_at(c, x) by {
        let j = choose|j: int| 0 <= j < b.regions.len() && (#[trigger] b.regions[j]).0 == x;
        assert(c.regions[a.regions.len() + j] == b.regions[j]);
    }
    assert forall|i: int| 0 <= i < c.gpio_bases.len() implies has_window_at(c, #[trigger] c.gpio_bases[i]) by {
        if i < a.gpio_bases.len() {
            assert(c.gpio_bases[i] == a.gpio_bases[i]);
            assert(has_window_at(a, a.gpio_bases[i]));
        } else {
            assert(c.gpio_bases[i] == b.gpio_bases[i - a.gpio_bases.len()]);
            assert(has_window_at(b, b.gpio_bases[i - a.gpio_bases.len()]));
        }
    }
    assert forall|i: int| 0 <= i < c.i2c_addrs.len() implies has_window_at(c, #[trigger] c.i2c_addrs[i]) by {
        if i < a.i2c_addrs.len() {
            assert(c.i2c_addrs[i] == a.i2c_addrs[i]);
            assert(has_window_at(a, a.i2c_addrs[i]));
        } else {
            assert(c.i2c_addrs[i] == b.i2c_addrs[i - a.i2c_addrs.len()]);
            assert(has_window_at(b, b.i2c_addrs[i - a.i2c_addrs.len()]));
        }
    }
    assert forall|i: int| 0 <= i < c.spi_addrs.len() implies has_window_at(c, #[trigger] c.spi_addrs[i]) by {
        if i < a.spi_addrs.len() {
            assert(c.spi_addrs[i] == a.spi_addrs[i]);
            assert(has_window_at(a, a.spi_addrs[i]));
        } else {
            assert(c.spi_addrs[i] == b.spi_addrs[i - a.spi_addrs.len()]);
            assert(has_window_at(b, b.spi_addrs[i - a.spi_addrs.len()]));
        }
    }
    assert forall|i: int| 0 <= i < c.dmas.len() implies has_window_at(c, (#[trigger] c.dmas[i]).0) by {
        if i < a.dmas.len() {
            assert(c.dmas[i] == a.dmas[i]);
            assert(has_window_at(a, a.dmas[i].0));
        } else {
            assert(c.dmas[i] == b.dmas[i - a.dmas.len()]);
            assert(has_window_at(b, b.dmas[i - a.dmas.len()].0));
        }
    }
}

proof fn lemma_local_backed(node: DtNode, path: Seq<char>)
    ensures
        controllers_backed(walk_local(node, path)),
{
    let out = walk_local(node, path);
    let regs = spec_reg(node);
    assert forall|i: int| 0 <= i < regs.len() implies has_window_at(out, #[trigger] regs[i].0) by {
        assert(out.regions[i].0 == regs[i].0);
    }
    assert forall|i: int| 0 <= i < out.dmas.len() implies has_window_at(out, (#[trigger] out.dmas[i]).0) by {
        assert(out.dmas[i].0 == regs[i].0);
        assert(out.regions[i].0 == regs[i].0);
    }
    assert forall|i: int| 0 <= i < out.gpio_bases.len() implies has_window_at(out, #[trigger] out.gpio_bases[i]) by {
        assert(out.gpio_bases[i] == regs[i].0);
        assert(out.regions[i].0 == regs[i].0);
    }
    assert forall|i: int| 0 <= i < out.i2c_addrs.len() implies has_window_at(out, #[trigger] out.i2c_addrs[i]) by {
        assert(out.i2c_addrs[i] == regs[i].0);
        assert(out.regions[i].0 == regs[i].0);
    }
    assert forall|i: int| 0 <= i < out.spi_addrs.len() implies has_window_at(out, #[trigger] out.spi_addrs[i]) by {
        assert(out.spi_addrs[i] == regs[i].0);
        assert(out.regions[i].0 == regs[i].0);
    }
}

proof fn lemma_walk_backed(node: DtNode, parent: Seq<char>)
    ensures
        controllers_backed(walk(node, parent)),
    decreases node, 0int,
{
    let path = node_path(parent, node.name@);
    lemma_local_backed(node, path);
    lemma_children_backed(node.children@, path, node.children@.len() as int);
    lemma_cat_backed(walk_local(node, path), walk_children(node.children@, path, node.children@.len() as int));
}

proof fn lemma_children_backed(children: Seq<DtNode>, path: Seq<char>, k: int)
    ensures
        controllers_backed(walk_children(children, path, k)),
    decreases children, k,
{
    if k <= 0 || k > children.len() {
    } else {
        lemma_children_backed(children, path, k - 1);
        lemma_walk_backed(children[k - 1], path);
        lemma_cat_backed(walk_children(children, path, k - 1), walk(children[k - 1], path));
    }
}

// ---------------------------------------------------------------------------
// Whole blob
// ---------------------------------------------------------------------------

/// `info` is what the tree `tree` describes: the root's compatible strings and
/// model, and what a walk from the root (with an empty parent path) collects;
/// GPIO banks and I2C and SPI buses are numbered from zero in walk order.
pub open spec fn dtb_info_matches(info: DtbInfo, tree: DtNode) -> bool {
    let out = walk(tree, ""@);
    &&& str_views(info.compatible@) == spec_compatible(tree)
    &&& match info.model {
        Some(m) => spec_model(tree) == Some(m@),
        None => spec_model(tree) is None,
    }
    &&& info.mmio_regions@.map_values(|r: MmioRegion| region_view(r)) == out.regions
    &&& info.irqs@.map_values(|q: IrqMap| irq_view(q)) == out.irqs
    &&& info.clocks@.len() == 0
    &&& info.gpios@ == gpio_entries(0, out.gpio_bases)
    &&& info.i2c_buses@ == i2c_entries(0, out.i2c_addrs)
    &&& info.spi_buses@ == spi_entries(0, out.spi_addrs)
    &&& info.dma_controllers@.map_values(|d: DmaController| dma_view(d)) == out.dmas
}

/// The hardware description in a device tree: the root's compatible strings
/// and model, and everything a walk of the whole tree collects.
pub fn dtb_info_from_tree(tree: &DtNode) -> (info: DtbInfo)
    ensures
        dtb_info_matches(info, *tree),
{
    proof {
        reveal_strlit("model");
    }
    let compatible = get_compatible_list(tree);
    let model = match find_property(&tree.properties, "model") {
        Some(i) => match &tree.properties[i].value {
            PropValue::String(s) => Some(s.clone()),
            _ => None,
        },
        None => None,
    };
    let mut mmio_regions: Vec<MmioRegion> = Vec::new();
    let mut irqs: Vec<IrqMap> = Vec::new();
    let mut clocks: Vec<ClockMap> = Vec::new();
    let mut gpios: Vec<GpioMap> = Vec::new();
    let mut i2c_buses: Vec<I2cBus> = Vec::new();
    let mut spi_buses: Vec<SpiBus> = Vec::new();
    let mut dma_controllers: Vec<DmaController> = Vec::new();
    walk_node(
        tree,
        "",
        &mut mmio_regions,
        &mut irqs,
        &mut clocks,
        &mut gpios,
        &mut i2c_buses,
        &mut spi_buses,
        &mut dma_controllers,
    );
    let info = DtbInfo {
        compatible,
        model,
        mmio_regions,
        irqs,
        clocks,
        gpios,
        i2c_buses,
        spi_buses,
        dma_controllers,
    };
    proof {
        let out = walk(*tree, ""@);
        assert(info.mmio_regions@.map_values(|r: MmioRegion| region_view(r)) =~= out.regions);
        assert(info.irqs@.map_values(|q: IrqMap| irq_view(q)) =~= out.irqs);
        assert(info.gpios@ =~= gpio_entries(0, out.gpio_bases));
        assert(info.i2c_buses@ =~= i2c_entries(0, out.i2c_addrs));
        assert(info.spi_buses@ =~= spi_entries(0, out.spi_addrs));
        assert(info.dma_controllers@.map_values(|d: DmaController| dma_view(d)) =~= out.dmas);
    }
    info
}

// ---------------------------------------------------------------------------
// Structure-block guard
// ---------------------------------------------------------------------------

/// Padding that brings a length up to a multiple of four.
pub open spec fn pad4(n: int) -> int {
    (4 - n % 4) % 4
}

/// Index of the first zero byte of `s` at or after `i`, or -1.
pub open spec fn first_zero_from(s: Seq<u8>, i: int) -> int
    decreases s.len() - i,
{
    if i < 0 || i >= s.len() {
        -1
    } else if s[i] == 0 {
        i
    } else {
        first_zero_from(s, i + 1)
    }
}

/// Whether the zero-terminated name at offset `off` of the strings block
/// `strs` can be read: the offset lies in the block, a zero byte follows, and
/// the bytes before it are UTF-8.
pub open spec fn name_readable(strs: Seq<u8>, off: int) -> bool {
    let z = first_zero_from(strs, off);
    0 <= off < strs.len() && z >= off && valid_utf8(strs.subrange(off, z))
}

/// Whether the token walk over the structure block `s`, from position `pos`
/// with `depth` nodes open, meets no property record whose data fits in the
/// block but whose data and padding do not (`strs` is the strings block).
/// The walk follows the block's records (a begin-node token and its
/// zero-terminated, UTF-8, padded name; a property token with its length,
/// name offset and padded data; an end-node token) and stops where a parse of
/// the block stops: at a short or unknown token, a node name that is
/// unterminated, not UTF-8 or whose padding does not fit, property data that
/// does not fit, a property whose name cannot be read or that belongs to no
/// node, the end token, an end-node token with no node open, or the closing
/// of the outermost node.
pub open spec fn records_fit(s: Seq<u8>, strs: Seq<u8>, pos: int, depth: int) -> bool
    decreases s.len() - pos,
{
    if pos < 0 || pos + 4 > s.len() {
        true
    } else {
        let tok = be_u32(s, pos);
        let rest = pos + 4;
        if tok == 1 {
            let z = first_zero_from(s, rest);
            let next = z + 1 + pad4(z + 1 - rest);
            if z < rest || !valid_utf8(s.subrange(rest, z)) || next > s.len() {
                true
            } else {
                records_fit(s, strs, next, depth + 1)
            }
        } else if tok == 3 {
            if rest + 8 > s.len() {
                true
            } else {
                let end = rest + 8 + be_u32(s, rest) as int;
                if end > s.len() {
                    true
                } else if end + pad4(be_u32(s, rest) as int) > s.len() {
                    false
                } else if !name_readable(strs, be_u32(s, rest + 4) as int) || depth == 0 {
                    true
                } else {
                    records_fit(s, strs, end + pad4(be_u32(s, rest) as int), depth)
                }
            }
        } else if tok == 2 && depth > 1 {
            records_fit(s, strs, rest, depth - 1)
        } else {
            true
        }
    }
}

/// Whether a blob can be handed to the parser: it is no device tree header,
/// its structure or strings block lies outside the blob, or the walk over its
/// structure block meets no property whose padded data runs past the block.
/// A block whose end does not fit in a `usize` is refused.
pub open spec fn blob_walk_fits(data: Seq<u8>) -> bool {
    if data.len() < 40 || be_u32(data, 0) != 0xd00d_feed {
        true
    } else {
        let start = be_u32(data, 8) as int;
        let size = be_u32(data, 36) as int;
        let strings = be_u32(data, 12) as int;
        if start + size > usize::MAX {
            false
        } else if start >= data.len() || start + size > data.len() || strings >= data.len() {
            true
        } else {
            records_fit(data.subrange(start, start + size), data.subrange(strings, data.len() as int), 0, 0)
        }
    }
}

/// Whether `data[lo..hi]` is UTF-8, as `core::str::from_utf8` decides.
#[verifier::external_body]
fn is_utf8(data: &[u8], lo: usize, hi: usize) -> (ok: bool)
    requires
        lo <= hi <= data@.len(),
    ensures
        ok == valid_utf8(data@.subrange(lo as int, hi as int)),
{
    core::str::from_utf8(&data[lo..hi]).is_ok()
}

/// Index (from `lo`) of the first zero byte of `data[lo..hi]` at or after `i`, or `hi - lo`.
fn find_zero(data: &[u8], lo: usize, hi: usize, i: usize) -> (z: usize)
    requires
        lo <= hi <= data@.len(),
        i <= hi - lo,
    ensures
        i <= z <= hi - lo,
        z == hi - lo ==> first_zero_from(data@.subrange(lo as int, hi as int), i as int) == -1,
        z < hi - lo ==> first_zero_from(data@.subrange(lo as int, hi as int), i as int) == z,
{
    let ghost s = data@.subrange(lo as int, hi as int);
    let n = hi - lo;
    let mut z = i;
    while z < n && data[lo + z] != 0
        invariant
            lo <= hi <= data@.len(),
            n == hi - lo,
            s == data@.subrange(lo as int, hi as int),
            i <= z <= n,
            first_zero_from(s, i as int) == first_zero_from(s, z as int),
        decreases n - z,
    {
        assert(s[z as int] == data@[lo + z]);
        z = z + 1;
    }
    if z < n {
        assert(s[z as int] == data@[lo + z]);
    }
    z
}

/// Whether the name at offset `off` of the strings block `data[strings..]` can be read.
fn check_name(data: &[u8], strings: usize, off: usize) -> (ok: bool)
    requires
        strings <= data@.len(),
    ensures
        ok == name_readable(data@.subrange(strings as int, data@.len() as int), off as int),
{
    let ghost strs = data@.subrange(strings as int, data@.len() as int);
    let n = data.len();
    if off >= n - strings {
        return false;
    }
    let z = find_zero(data, strings, n, off);
    if z == n - strings {
        return false;
    }
    let ok = is_utf8(data, strings + off, strings + z);
    assert(strs.subrange(off as int, z as int) =~= data@.subrange(strings + off, strings + z));
    ok
}

/// One record of the walk over the structure block `data[start..end]` at
/// position `pos` with `depth` nodes open: the position and depth after it
/// where the walk goes on, or the walk's verdict where it stops there.
fn walk_step(data: &[u8], start: usize, end: usize, strings: usize, pos: usize, depth: usize) -> (r: Result<
    (usize, usize),
    bool,
>)
    requires
        start <= end <= data@.len(),
        strings <= data@.len(),
        pos + 4 <= end - start,
        depth <= pos,
    ensures
        ({
            let s = data@.subrange(start as int, end as int);
            let strs = data@.subrange(strings as int, data@.len() as int);
            match r {
                Ok((p, d)) => pos < p <= end - start && d <= p && records_fit(s, strs, pos as int, depth as int)
                    == records_fit(s, strs, p as int, d as int),
                Err(b) => records_fit(s, strs, pos as int, depth as int) == b,
            }
        }),
{
    let ghost s = data@.subrange(start as int, end as int);
    let ghost strs = data@.subrange(strings as int, data@.len() as int);
    let size = end - start;
    let tok = be_u32_at(data, start + pos);
    proof {
        assert(be_u32(s, pos as int) == be_u32(data@, start + pos));
    }
    let rest = pos + 4;
    if tok == 1 {
        let z = find_zero(data, start, end, rest);
        if z == size {
            return Err(true);
        }
        let name_ok = is_utf8(data, start + rest, start + z);
        assert(s.subrange(rest as int, z as int) =~= data@.subrange(start + rest, start + z));
        if !name_ok {
            return Err(true);
        }
        let name_len = z + 1 - rest;
        let padding = (4 - name_len % 4) % 4;
        if padding > size - (z + 1) {
            return Err(true);
        }
        Ok((z + 1 + padding, depth + 1))
    } else if tok == 3 {
        if size - rest < 8 {
            return Err(true);
        }
        let len = be_u32_at(data, start + rest) as usize;
        let off = be_u32_at(data, start + rest + 4) as usize;
        proof {
            assert(be_u32(s, rest as int) == be_u32(data@, start + rest));
            assert(be_u32(s, rest + 4) == be_u32(data@, start + rest + 4));
        }
        let after = size - (rest + 8);
        if len > after {
            return Err(true);
        }
        let padding = (4 - len % 4) % 4;
        if padding > after - len {
            return Err(false);
        }
        if !check_name(data, strings, off) || depth == 0 {
            return Err(true);
        }
        Ok((rest + 8 + len + padding, depth))
    } else if tok == 2 && depth > 1 {
        Ok((rest, depth - 1))
    } else {
        Err(true)
    }
}

/// Whether the walk over the structure block `data[start..end]` meets no
/// property whose padded data runs past the block (`data[strings..]` is the
/// strings block).
fn check_records(data: &[u8], start: usize, end: usize, strings: usize) -> (ok: bool)
    requires
        start <= end <= data@.len(),
        strings <= data@.len(),
    ensures
        ok == records_fit(
            data@.subrange(start as int, end as int),
            data@.subrange(strings as int, data@.len() as int),
            0,
            0,
        ),
{
    let ghost s = data@.subrange(start as int, end as int);
    let ghost strs = data@.subrange(strings as int, data@.len() as int);
    let size = end - start;
    let mut pos: usize = 0;
    let mut depth: usize = 0;
    while size - pos >= 4
        invariant
            start <= end <= data@.len(),
            strings <= data@.len(),
            size == end - start,
            s == data@.subrange(start as int, end as int),
            strs == data@.subrange(strings as int, data@.len() as int),
            pos <= size,
            depth <= pos,
            records_fit(s, strs, 0, 0) == records_fit(s, strs, pos as int, depth as int),
        decreases size - pos,
    {
        match walk_step(data, start, end, strings, pos, depth) {
            Ok((p, d)) => {
                pos = p;
                depth = d;
            },
            Err(b) => {
                return b;
            },
        }
    }
    true
}

/// Whether a blob can be handed to the parser (see `blob_walk_fits`).
fn check_blob(data: &[u8]) -> (ok: bool)
    ensures
        ok == blob_walk_fits(data@),
{
    let n = data.len();
    if n < 40 {
        return true;
    }
    if be_u32_at(data, 0) != 0xd00d_feed {
        return true;
    }
    let start = be_u32_at(data, 8) as usize;
    let size = be_u32_at(data, 36) as usize;
    let strings = be_u32_at(data, 12) as usize;
    if size > usize::MAX - start {
        return false;
    }
    let end = start + size;
    if start >= n || end > n || strings >= n {
        return true;
    }
    check_records(data, start, end, strings)
}

// ---------------------------------------------------------------------------
// Parsing
// ---------------------------------------------------------------------------

/// The prefix of every parse error message.
pub open spec fn parse_error_prefix() -> Seq<char> {
    "DTB parse error: "@
}

/// The error text for a blob with a property whose padded data runs past the
/// structure block.
pub open spec fn overrun_text() -> Seq<char> {
    "property data runs past the structure block"@
}

/// The outcome of a parse: the hardware description of the parsed tree, or
/// the parser's error text after the fixed prefix.
pub fn dtb_outcome(parsed: Result<DtNode, String>) -> (r: Result<DtbInfo, DtbParseError>)
    ensures
        match parsed {
            Ok(tree) => r matches Ok(info) && dtb_info_matches(info, tree),
            Err(text) => r matches Err(e) && e.message@ == parse_error_prefix() + text@,
        },
{
    match parsed {
        Ok(tree) => Ok(dtb_info_from_tree(&tree)),
        Err(text) => {
            let mut message = String::from_str("DTB parse error: ");
            proof {
                reveal_strlit("DTB parse error: ");
            }
            push_str(&mut message, text.as_str());
            Err(DtbParseError { message })
        },
    }
}

/// No text of a parser error is the overrun text.
proof fn lemma_overrun_is_no_parser_error()
    ensures
        !dtb_error_display(overrun_text()),
{
    reveal_strlit("property data runs past the structure block");
    reveal_strlit("Invalid magic number in DTB header");
    reveal_strlit("Malformed DTB header structure");
    reveal_strlit("Invalid token in structure block");
    reveal_strlit("Data alignment error");
    reveal_strlit("Invalid #address-cells value: ");
    reveal_strlit("Invalid #size-cells value: ");
    reveal_strlit("Cannot translate address 0x");
    reveal_strlit("Invalid ranges property format");
    reveal_strlit("Translation cycle detected in device tree hierarchy");
    reveal_strlit("Maximum translation depth exceeded");
    let o = overrun_text();
    assert(o[0] == 'p');
    assert forall|n: u32| o != "Invalid #address-cells value: "@ + dec(n as nat) + " (must be 1-4)"@ by {
        assert(("Invalid #address-cells value: "@ + dec(n as nat) + " (must be 1-4)"@)[0] == 'I');
    }
    assert forall|n: u32| o != "Invalid #size-cells value: "@ + dec(n as nat) + " (must be 0-4)"@ by {
        assert(("Invalid #size-cells value: "@ + dec(n as nat) + " (must be 0-4)"@)[0] == 'I');
    }
    assert forall|a: u64| o != "Cannot translate address 0x"@ + hex(a as nat) by {
        assert(("Cannot translate address 0x"@ + hex(a as nat))[0] == 'C');
    }
    assert(o != "Invalid magic number in DTB header"@);
    assert(o != "Malformed DTB header structure"@);
    assert(o != "Invalid token in structure block"@);
    assert(o != "Data alignment error"@);
    assert(o != "Invalid ranges property format"@);
    assert(o != "Translation cycle detected in device tree hierarchy"@);
    assert(o != "Maximum translation depth exceeded"@);
}

/// Parses a device tree blob and draws the hardware description out of it.
/// Fails with the parser's error text after a fixed prefix where
/// `device_tree_parser` rejects the blob, and with the overrun text exactly
/// where the parser would meet a property whose padded data runs past the
/// structure block (the parser panics there). The parser checks the memory
/// alignment of the structure block before reading it: where the block is
/// misaligned and the walk would meet such a property, the parser reports an
/// alignment error while this function reports the overrun.
pub fn parse_dtb(data: &[u8]) -> (r: Result<DtbInfo, DtbParseError>)
    ensures
        !blob_walk_fits(data@) ==> (r matches Err(e) && e.message@ == parse_error_prefix() + overrun_text()),
        blob_walk_fits(data@) ==> !(r matches Err(e) && e.message@ == parse_error_prefix() + overrun_text()),
        blob_walk_fits(data@) ==> (r matches Err(e) ==> exists|t: Seq<char>|
            dtb_error_display(t) && e.message@ == parse_error_prefix() + t),
        r matches Ok(info) ==> (parsed_device_tree(data@) matches Some(tree) && dtb_info_matches(info, tree)),
        parsed_device_tree(data@) is None ==> r is Err,
        r matches Err(e) ==> parse_error_prefix().is_prefix_of(e.message@),
{
    if !check_blob(data) {
        let text = String::from_str("property data runs past the structure block");
        proof {
            reveal_strlit("property data runs past the structure block");
        }
        let r = dtb_outcome(Err(text));
        proof {
            if r is Err {
                assert(r->Err_0.message@.subrange(0, parse_error_prefix().len() as int) =~= parse_error_prefix());
            }
        }
        return r;
    }
    let parsed = match parse_device_tree(data) {
        Ok(tree) => Ok(tree),
        Err(e) => Err(dtb_error_text(&e)),
    };
    let ghost text = if parsed is Err { parsed->Err_0@ } else { Seq::<char>::empty() };
    let r = dtb_outcome(parsed);
    proof {
        if r is Err {
            let m = r->Err_0.message@;
            let p = parse_error_prefix();
            assert(m == p + text);
            assert(dtb_error_display(text));
            assert(m.subrange(0, p.len() as int) =~= p);
            lemma_overrun_is_no_parser_error();
            if m == p + overrun_text() {
                assert(text =~= m.subrange(p.len() as int, m.len() as int));
                assert(overrun_text() =~= m.subrange(p.len() as int, m.len() as int));
            }
        }
    }
    r
}


/// Some register window starts at `a`.
pub open spec fn has_region_at(regions: Seq<MmioRegion>, a: u64) -> bool {
    exists|j: int| 0 <= j < regions.len() && (#[trigger] regions[j]).address == a
}

/// Every GPIO bank, I2C bus, SPI bus and DMA controller drawn from a device
/// tree sits at the address of one of the register windows drawn from it.
pub proof fn controllers_lie_in_register_windows(info: DtbInfo, tree: DtNode)
    requires
        dtb_info_matches(info, tree),
    ensures
        forall|i: int|
            0 <= i < info.gpios@.len() ==> has_region_at(info.mmio_regions@, (#[trigger] info.gpios@[i]).base),
        forall|i: int|
            0 <= i < info.i2c_buses@.len() ==> has_region_at(
                info.mmio_regions@,
                (#[trigger] info.i2c_buses@[i]).address,
            ),
        forall|i: int|
            0 <= i < info.spi_buses@.len() ==> has_region_at(
                info.mmio_regions@,
                (#[trigger] info.spi_buses@[i]).address,
            ),
        forall|i: int|
            0 <= i < info.dma_controllers@.len() ==> has_region_at(
                info.mmio_regions@,
                (#[trigger] info.dma_controllers@[i]).address,
            ),
{
    let out = walk(tree, ""@);
    lemma_walk_backed(tree, ""@);
    let views = info.mmio_regions@.map_values(|r: MmioRegion| region_view(r));
    assert forall|x: u64| has_window_at(out, x) implies has_region_at(info.mmio_regions@, x) by {
        let j = choose|j: int| 0 <= j < out.regions.len() && (#[trigger] out.regions[j]).0 == x;
        assert(views[j] == out.regions[j]);
        assert(info.mmio_regions@[j].address == x);
    }
    assert forall|i: int| 0 <= i < info.gpios@.len() implies has_region_at(
        info.mmio_regions@,
        (#[trigger] info.gpios@[i]).base,
    ) by {
        assert(info.gpios@[i].base == out.gpio_bases[i]);
        assert(has_window_at(out, out.gpio_bases[i]));
    }
    assert forall|i: int| 0 <= i < info.i2c_buses@.len() implies has_region_at(
        info.mmio_regions@,
        (#[trigger] info.i2c_buses@[i]).address,
    ) by {
        assert(info.i2c_buses@[i].address == out.i2c_addrs[i]);
        assert(has_window_at(out, out.i2c_addrs[i]));
    }
    assert forall|i: int| 0 <= i < info.spi_buses@.len() implies has_region_at(
        info.mmio_regions@,
        (#[trigger] info.spi_buses@[i]).address,
    ) by {
        assert(info.spi_buses@[i].address == out.spi_addrs[i]);
        assert(has_window_at(out, out.spi_addrs[i]));
    }
    let dviews = info.dma_controllers@.map_values(|d: DmaController| dma_view(d));
    assert forall|i: int| 0 <= i < info.dma_controllers@.len() implies has_region_at(
        info.mmio_regions@,
        (#[trigger] info.dma_controllers@[i]).address,
    ) by {
        assert(dviews[i] == out.dmas[i]);
        assert(has_window_at(out, out.dmas[i].0));
    }
}

/// GPIO banks, I2C buses and SPI buses drawn from a device tree are numbered
/// from zero in the order the walk meets them: entry `i` has number `i`, GPIO
/// banks have 32 lines, I2C buses no clock and SPI buses chip select 0.
pub proof fn controllers_numbered_in_order(info: DtbInfo, tree: DtNode)
    requires
        dtb_info_matches(info, tree),
    ensures
        forall|i: int|
            0 <= i < info.gpios@.len() ==> (#[trigger] info.gpios@[i]).bank == i as u32 && info.gpios@[i].count == 32,
        forall|i: int|
            0 <= i < info.i2c_buses@.len() ==> (#[trigger] info.i2c_buses@[i]).bus_id == i as u32
                && info.i2c_buses@[i].clock is None,
        forall|i: int|
            0 <= i < info.spi_buses@.len() ==> (#[trigger] info.spi_buses@[i]).bus_id == i as u32
                && info.spi_buses@[i].chip_select == 0,
{
}

} // verus!
