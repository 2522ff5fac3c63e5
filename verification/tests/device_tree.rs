use specter_probe::acquisition::dtb::{dtb_info_from_tree, dtb_outcome, parse_dtb};
use specter_probe::acquisition::types::{DtNode, DtProperty, PropValue};

fn prop(name: &str, value: PropValue) -> DtProperty {
    DtProperty { name: name.to_string(), value }
}

fn node(name: &str, properties: Vec<DtProperty>, children: Vec<DtNode>) -> DtNode {
    DtNode { name: name.to_string(), properties, children }
}

fn cells(values: &[u32]) -> Vec<u8> {
    values.iter().flat_map(|v| v.to_be_bytes()).collect()
}

fn compat(s: &str) -> DtProperty {
    prop("compatible", PropValue::String(s.to_string()))
}

fn board() -> DtNode {
    node(
        "",
        vec![
            prop("compatible", PropValue::StringList(vec!["acme,board".to_string(), "acme,soc".to_string()])),
            prop("model", PropValue::String("Acme Board".to_string())),
        ],
        vec![node(
            "soc",
            vec![],
            vec![
                node(
                    "gpio@ff000000",
                    vec![
                        compat("acme,gpio"),
                        prop("reg", PropValue::U32Array(cells(&[0xff00_0000, 0x1000, 0xff00_2000, 0x1000]))),
                        prop("interrupts", PropValue::U32Array(cells(&[10, 11]))),
                    ],
                    vec![],
                ),
                node(
                    "i2c@80000000",
                    vec![
                        prop("compatible", PropValue::StringList(vec!["acme,i2c".to_string(), "acme,spi".to_string()])),
                        prop("reg", PropValue::U32Array(cells(&[0x8000_0000, 0x100]))),
                        prop("interrupts", PropValue::U32(33)),
                    ],
                    vec![],
                ),
                node(
                    "dma@90000000",
                    vec![
                        compat("acme,pdma"),
                        prop("reg", PropValue::U64Array(cells(&[0x1, 0x9000_0000, 0, 0x4000]))),
                        prop("interrupts", PropValue::U32Array(cells(&[40, 41, 42]))),
                    ],
                    vec![],
                ),
            ],
        )],
    )
}

#[test]
fn root_compatible_and_model() {
    let info = dtb_info_from_tree(&board());
    assert_eq!(info.compatible, vec!["acme,board".to_string(), "acme,soc".to_string()]);
    assert_eq!(info.model, Some("Acme Board".to_string()));
    assert!(info.clocks.is_empty());
}

#[test]
fn register_windows_in_walk_order_with_paths() {
    let info = dtb_info_from_tree(&board());
    let regions: Vec<(u64, u64, Option<String>)> =
        info.mmio_regions.iter().map(|r| (r.address, r.size, r.peripheral.clone())).collect();
    assert_eq!(regions, vec![
        (0xff00_0000, 0x1000, Some("soc/gpio@ff000000".to_string())),
        (0xff00_2000, 0x1000, Some("soc/gpio@ff000000".to_string())),
        (0x8000_0000, 0x100, Some("soc/i2c@80000000".to_string())),
        (0x1_9000_0000, 0x4000, Some("soc/dma@90000000".to_string())),
    ]);
    assert_eq!(info.mmio_regions[2].compatible, vec!["acme,i2c".to_string(), "acme,spi".to_string()]);
    assert_eq!(info.mmio_regions[3].compatible, vec!["acme,pdma".to_string()]);
}

#[test]
fn interrupt_lines_from_arrays_and_single_cells() {
    let info = dtb_info_from_tree(&board());
    let irqs: Vec<(u32, &str, u32)> = info.irqs.iter().map(|q| (q.irq, q.peripheral.as_str(), q.flags)).collect();
    assert_eq!(irqs, vec![
        (10, "soc/gpio@ff000000", 0),
        (11, "soc/gpio@ff000000", 0),
        (33, "soc/i2c@80000000", 0),
        (40, "soc/dma@90000000", 0),
        (41, "soc/dma@90000000", 0),
        (42, "soc/dma@90000000", 0),
    ]);
}

#[test]
fn controllers_are_numbered_in_order() {
    let info = dtb_info_from_tree(&board());
    let gpios: Vec<(u32, u64, u32)> = info.gpios.iter().map(|g| (g.bank, g.base, g.count)).collect();
    assert_eq!(gpios, vec![(0, 0xff00_0000, 32), (1, 0xff00_2000, 32)]);
    let i2c: Vec<(u32, u64, Option<u32>)> = info.i2c_buses.iter().map(|b| (b.bus_id, b.address, b.clock)).collect();
    assert_eq!(i2c, vec![(0, 0x8000_0000, None)]);
    let spi: Vec<(u32, u64, u32)> = info.spi_buses.iter().map(|b| (b.bus_id, b.address, b.chip_select)).collect();
    assert_eq!(spi, vec![(0, 0x8000_0000, 0)]);
    assert_eq!(info.dma_controllers.len(), 1);
    assert_eq!(info.dma_controllers[0].address, 0x1_9000_0000);
    assert_eq!(info.dma_controllers[0].channels, 8);
    assert_eq!(info.dma_controllers[0].interrupts, vec![40, 41, 42]);
}

#[test]
fn every_controller_sits_at_a_register_window() {
    let info = dtb_info_from_tree(&board());
    let starts: Vec<u64> = info.mmio_regions.iter().map(|r| r.address).collect();
    assert!(info.gpios.iter().all(|g| starts.contains(&g.base)));
    assert!(info.i2c_buses.iter().all(|b| starts.contains(&b.address)));
    assert!(info.spi_buses.iter().all(|b| starts.contains(&b.address)));
    assert!(info.dma_controllers.iter().all(|d| starts.contains(&d.address)));
}

#[test]
fn odd_shapes_give_no_windows() {
    let tree = node(
        "root",
        vec![prop("model", PropValue::StringList(vec!["x".to_string()]))],
        vec![
            node("a", vec![compat("gpio"), prop("reg", PropValue::U32(5))], vec![]),
            node("b", vec![prop("reg", PropValue::U32Array(cells(&[1, 2, 3])))], vec![]),
            node("c", vec![prop("reg", PropValue::Bytes(vec![1, 2, 3])), prop("interrupts", PropValue::U64(3))], vec![]),
        ],
    );
    let info = dtb_info_from_tree(&tree);
    assert!(info.compatible.is_empty());
    assert_eq!(info.model, None);
    let regions: Vec<(u64, u64, Option<String>)> =
        info.mmio_regions.iter().map(|r| (r.address, r.size, r.peripheral.clone())).collect();
    assert_eq!(regions, vec![(1, 2, Some("root/b".to_string()))]);
    assert!(info.gpios.is_empty());
    assert!(info.irqs.is_empty());
}

#[test]
fn first_of_repeated_properties_wins() {
    let tree = node(
        "",
        vec![compat("first"), compat("second"), prop("reg", PropValue::U32Array(cells(&[7, 8])))],
        vec![],
    );
    let info = dtb_info_from_tree(&tree);
    assert_eq!(info.compatible, vec!["first".to_string()]);
    assert_eq!(info.mmio_regions.len(), 1);
    assert_eq!(info.mmio_regions[0].peripheral, Some(String::new()));
}

// A flattened device tree, laid out by hand.

fn push_be(out: &mut Vec<u8>, v: u32) {
    out.extend_from_slice(&v.to_be_bytes());
}

fn pad(out: &mut Vec<u8>) {
    while out.len() % 4 != 0 {
        out.push(0);
    }
}

fn begin_node(out: &mut Vec<u8>, name: &str) {
    push_be(out, 1);
    out.extend_from_slice(name.as_bytes());
    out.push(0);
    pad(out);
}

fn property(out: &mut Vec<u8>, name_off: u32, data: &[u8]) {
    push_be(out, 3);
    push_be(out, data.len() as u32);
    push_be(out, name_off);
    out.extend_from_slice(data);
    pad(out);
}

fn end_node(out: &mut Vec<u8>) {
    push_be(out, 2);
}

fn blob() -> Vec<u8> {
    let strings = b"compatible\0model\0reg\0interrupts\0".to_vec();
    let (compatible, model, reg, interrupts) = (0u32, 11u32, 17u32, 21u32);
    let mut st = Vec::new();
    begin_node(&mut st, "");
    property(&mut st, compatible, b"acme,board\0");
    property(&mut st, model, b"Acme\0");
    begin_node(&mut st, "gpio@ff000000");
    property(&mut st, compatible, b"acme,gpio\0");
    property(&mut st, reg, &cells(&[0xff00_0000, 0x1000]));
    property(&mut st, interrupts, &cells(&[0x10, 0x11]));
    end_node(&mut st);
    begin_node(&mut st, "i2c@80000000");
    property(&mut st, compatible, b"acme,i2c\0");
    property(&mut st, reg, &cells(&[0x8000_0000, 0x100]));
    end_node(&mut st);
    end_node(&mut st);
    push_be(&mut st, 9);

    let off_struct = 40u32;
    let off_strings = off_struct + st.len() as u32;
    let total = off_strings + strings.len() as u32;
    let mut out = Vec::new();
    for v in [0xd00d_feed, total, off_struct, off_strings, 40, 17, 16, 0, strings.len() as u32, st.len() as u32] {
        push_be(&mut out, v);
    }
    out.extend_from_slice(&st);
    out.extend_from_slice(&strings);
    out
}

#[test]
fn parse_dtb_reads_a_flattened_tree() {
    let info = parse_dtb(&blob()).unwrap();
    assert_eq!(info.compatible, vec!["acme,board".to_string()]);
    assert_eq!(info.model, Some("Acme".to_string()));
    let regions: Vec<(u64, u64, Option<String>)> =
        info.mmio_regions.iter().map(|r| (r.address, r.size, r.peripheral.clone())).collect();
    assert_eq!(regions, vec![
        (0xff00_0000, 0x1000, Some("gpio@ff000000".to_string())),
        (0x8000_0000, 0x100, Some("i2c@80000000".to_string())),
    ]);
    let irqs: Vec<u32> = info.irqs.iter().map(|q| q.irq).collect();
    assert_eq!(irqs, vec![0x10, 0x11]);
    assert_eq!(info.gpios.len(), 1);
    assert_eq!(info.gpios[0].base, 0xff00_0000);
    assert_eq!(info.i2c_buses.len(), 1);
    assert_eq!(info.i2c_buses[0].address, 0x8000_0000);
    assert!(info.spi_buses.is_empty());
    assert!(info.dma_controllers.is_empty());
}

#[test]
fn parse_dtb_rejects_a_bad_magic_number() {
    let mut data = blob();
    data[0] = 0;
    let err = parse_dtb(&data).unwrap_err();
    assert_eq!(err.message, "DTB parse error: Invalid magic number in DTB header");
}

#[test]
fn parse_dtb_rejects_a_short_blob() {
    let err = parse_dtb(&[0u8; 10]).unwrap_err();
    assert_eq!(err.message, "DTB parse error: Malformed DTB header structure");
}

#[test]
fn parse_dtb_rejects_a_truncated_structure() {
    let mut data = blob();
    data.truncate(60);
    assert!(parse_dtb(&data).is_err());
}

fn blob_with_struct(st: &[u8], strings: &[u8]) -> Vec<u8> {
    let off_struct = 40u32;
    let off_strings = off_struct + st.len() as u32;
    let total = off_strings + strings.len() as u32;
    let mut out = Vec::new();
    for v in [0xd00d_feed, total, off_struct, off_strings, 40, 17, 16, 0, strings.len() as u32, st.len() as u32] {
        push_be(&mut out, v);
    }
    out.extend_from_slice(st);
    out.extend_from_slice(strings);
    out
}

#[test]
fn parse_dtb_refuses_property_padding_past_the_structure_block() {
    // A root node with one property of length 1 whose padding lies past the block.
    let mut st = Vec::new();
    begin_node(&mut st, "");
    push_be(&mut st, 3);
    push_be(&mut st, 1);
    push_be(&mut st, 0);
    st.push(b'x');
    let data = blob_with_struct(&st, b"compatible\0");
    let err = parse_dtb(&data).unwrap_err();
    assert_eq!(err.message, "DTB parse error: property data runs past the structure block");
}

#[test]
fn parse_dtb_accepts_property_padding_inside_the_structure_block() {
    let mut st = Vec::new();
    begin_node(&mut st, "");
    property(&mut st, 0, b"x");
    end_node(&mut st);
    let data = blob_with_struct(&st, b"model\0");
    let info = parse_dtb(&data).unwrap();
    assert!(info.mmio_regions.is_empty());
    assert_eq!(info.model, Some("x".to_string()));
}

#[test]
fn parse_dtb_reports_data_that_does_not_fit_as_the_parser_does() {
    // The property claims more data than the block holds: the parser's own error.
    let mut st = Vec::new();
    begin_node(&mut st, "");
    push_be(&mut st, 3);
    push_be(&mut st, 100);
    push_be(&mut st, 0);
    let data = blob_with_struct(&st, b"compatible\0");
    let err = parse_dtb(&data).unwrap_err();
    assert_eq!(err.message, "DTB parse error: Malformed DTB header structure");
}

#[test]
fn dtb_outcome_puts_the_prefix_before_the_error_text() {
    let err = dtb_outcome(Err("Invalid token in structure block".to_string())).unwrap_err();
    assert_eq!(err.message, "DTB parse error: Invalid token in structure block");
    let err = dtb_outcome(Err(String::new())).unwrap_err();
    assert_eq!(err.message, "DTB parse error: ");
}

#[test]
fn dtb_outcome_of_a_tree_is_its_description() {
    let info = dtb_outcome(Ok(board())).unwrap();
    let direct = dtb_info_from_tree(&board());
    assert_eq!(info.compatible, direct.compatible);
    assert_eq!(info.mmio_regions.len(), direct.mmio_regions.len());
    assert_eq!(info.irqs.len(), 6);
}

#[test]
fn controllers_numbered_from_zero_in_walk_order() {
    let info = dtb_info_from_tree(&board());
    for (i, g) in info.gpios.iter().enumerate() {
        assert_eq!(g.bank, i as u32);
    }
    for (i, b) in info.i2c_buses.iter().enumerate() {
        assert_eq!(b.bus_id, i as u32);
    }
    for (i, b) in info.spi_buses.iter().enumerate() {
        assert_eq!(b.bus_id, i as u32);
    }
}

fn overrunning_property(st: &mut Vec<u8>, name_off: u32) {
    push_be(st, 3);
    push_be(st, 1);
    push_be(st, name_off);
    st.push(b'x');
}

#[test]
fn parse_dtb_reports_a_bad_node_name_before_an_overrun() {
    let mut st = Vec::new();
    push_be(&mut st, 1);
    st.extend_from_slice(&[0xff, 0xfe, 0, 0]);
    overrunning_property(&mut st, 0);
    let data = blob_with_struct(&st, b"compatible\0");
    let err = parse_dtb(&data).unwrap_err();
    assert_eq!(err.message, "DTB parse error: Malformed DTB header structure");
}

#[test]
fn parse_dtb_reports_a_bad_property_name_before_an_overrun() {
    let mut st = Vec::new();
    begin_node(&mut st, "");
    property(&mut st, 500, b"ab\0");
    overrunning_property(&mut st, 0);
    let data = blob_with_struct(&st, b"compatible\0");
    let err = parse_dtb(&data).unwrap_err();
    assert_eq!(err.message, "DTB parse error: Malformed DTB header structure");
}

#[test]
fn parse_dtb_reports_a_property_outside_any_node_before_an_overrun() {
    let mut st = Vec::new();
    property(&mut st, 0, b"ab\0");
    begin_node(&mut st, "");
    overrunning_property(&mut st, 0);
    let data = blob_with_struct(&st, b"compatible\0");
    let err = parse_dtb(&data).unwrap_err();
    assert_eq!(err.message, "DTB parse error: Invalid token in structure block");
}

#[test]
fn parse_dtb_refuses_an_overrun_after_a_closed_sibling() {
    let mut st = Vec::new();
    begin_node(&mut st, "");
    begin_node(&mut st, "child");
    property(&mut st, 0, b"acme\0");
    end_node(&mut st);
    overrunning_property(&mut st, 0);
    let data = blob_with_struct(&st, b"compatible\0");
    let err = parse_dtb(&data).unwrap_err();
    assert_eq!(err.message, "DTB parse error: property data runs past the structure block");
}
