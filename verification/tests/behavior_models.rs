use specter_probe::behavior::analyzer::{build_device_models, detect_bitfields, guess_purpose};
use specter_probe::behavior::types::{AccessType, RegisterModel};
use specter_probe::mmio::types::{AccessType as MmioAccessType, MmioAccess, MmioRegion};

const READ: MmioAccessType = MmioAccessType::Read;
const WRITE: MmioAccessType = MmioAccessType::Write;

fn access(address: u64, t: MmioAccessType, func: &str, at: u64) -> MmioAccess {
    MmioAccess {
        address,
        size: 4,
        access_type: t,
        instruction_addr: at,
        function_name: func.to_string(),
        confidence: 70,
    }
}

fn region(base: u64, class: &str, accesses: Vec<MmioAccess>) -> MmioRegion {
    MmioRegion { base, size: 0x1000, accesses, classification: class.to_string(), confidence: 80 }
}

fn reg(access: AccessType, count: usize, polling: bool) -> RegisterModel {
    RegisterModel {
        offset: 0,
        name: None,
        access,
        width: 4,
        observed_writes: Vec::new(),
        observed_reads: Vec::new(),
        bitfields: Vec::new(),
        polling,
        count,
        purpose: None,
    }
}

fn uart_region() -> MmioRegion {
    region(0x1000, "uart", vec![
        access(0x1000, WRITE, "init", 0x10),
        access(0x1004, WRITE, "init", 0x14),
        access(0x1008, READ, "poll", 0x30),
        access(0x1008, READ, "poll", 0x34),
        access(0x100c, READ, "poll", 0x20),
        access(0x1008, READ, "poll", 0x38),
        access(0x1008, READ, "poll", 0x3c),
        access(0x1004, WRITE, "init", 0x18),
    ])
}

#[test]
fn guess_purpose_of_each_kind() {
    assert_eq!(guess_purpose(&reg(AccessType::Read, 5, true)), Some("status".to_string()));
    assert_eq!(guess_purpose(&reg(AccessType::Write, 7, true)), Some("status".to_string()));
    assert_eq!(guess_purpose(&reg(AccessType::Write, 1, false)), Some("control".to_string()));
    assert_eq!(guess_purpose(&reg(AccessType::Write, 2, false)), None);
    assert_eq!(guess_purpose(&reg(AccessType::Write, 3, false)), Some("config".to_string()));
    assert_eq!(guess_purpose(&reg(AccessType::Read, 1, false)), Some("version".to_string()));
    assert_eq!(guess_purpose(&reg(AccessType::Read, 2, false)), Some("version".to_string()));
    assert_eq!(guess_purpose(&reg(AccessType::Read, 3, false)), None);
}

#[test]
fn detect_bitfields_needs_two_values() {
    let mut r = reg(AccessType::Write, 1, false);
    assert!(detect_bitfields(&r).is_empty());
    r.observed_writes = vec![5];
    assert!(detect_bitfields(&r).is_empty());
    r.observed_reads = vec![5, 5];
    assert!(detect_bitfields(&r).is_empty());
}

#[test]
fn detect_bitfields_groups_adjacent_changed_bits() {
    let mut r = reg(AccessType::Write, 2, false);
    r.observed_writes = vec![0, 6];
    let f = detect_bitfields(&r);
    assert_eq!(f.len(), 1);
    assert_eq!(f[0].offset, 1);
    assert_eq!(f[0].width, 2);
    assert_eq!(f[0].name, None);
    assert_eq!(f[0].values, vec![(0, "val_0".to_string()), (3, "val_3".to_string())]);
    assert_eq!(f[0].observed_mask, 3);
}

#[test]
fn detect_bitfields_reads_follow_writes_and_reach_the_top_bit() {
    let mut r = reg(AccessType::Write, 2, false);
    r.observed_writes = vec![1];
    r.observed_reads = vec![0x8000_0000_0000_0000, 1];
    let f = detect_bitfields(&r);
    assert_eq!(f.len(), 2);
    assert_eq!((f[0].offset, f[0].width, f[0].observed_mask), (0, 1, 1));
    assert_eq!(f[0].values, vec![(1, "val_1".to_string()), (0, "val_0".to_string())]);
    assert_eq!((f[1].offset, f[1].width, f[1].observed_mask), (63, 1, 1));
    assert_eq!(f[1].values, vec![(0, "val_0".to_string()), (1, "val_1".to_string())]);
}

#[test]
fn detect_bitfields_splits_separated_runs() {
    let mut r = reg(AccessType::Read, 3, false);
    r.observed_reads = vec![0x0, 0xf0f, 0xf00f];
    let f = detect_bitfields(&r);
    assert_eq!(f.len(), 2);
    assert_eq!((f[0].offset, f[0].width, f[0].observed_mask), (0, 4, 0xf));
    assert_eq!(f[0].values, vec![(0, "val_0".to_string()), (15, "val_15".to_string())]);
    assert_eq!((f[1].offset, f[1].width, f[1].observed_mask), (8, 8, 0xff));
    assert_eq!(
        f[1].values,
        vec![(0, "val_0".to_string()), (15, "val_15".to_string()), (240, "val_240".to_string())]
    );
}

#[test]
fn device_model_registers_are_sorted_and_counted() {
    let models = build_device_models(&[uart_region()], &[]);
    assert_eq!(models.len(), 1);
    let m = &models[0];
    assert_eq!(m.base, 0x1000);
    assert_eq!(m.name, "uart");
    assert_eq!(m.classification, "uart");
    assert_eq!(m.confidence, 80);
    let offs: Vec<u32> = m.registers.iter().map(|r| r.offset).collect();
    assert_eq!(offs, vec![0, 4, 8, 0xc]);
    let counts: Vec<usize> = m.registers.iter().map(|r| r.count).collect();
    assert_eq!(counts, vec![1, 2, 4, 1]);
    assert_eq!(m.registers[1].observed_writes, vec![0, 0]);
    assert!(m.registers[1].observed_reads.is_empty());
    assert_eq!(m.registers[2].observed_reads, vec![0, 0, 0, 0]);
    assert_eq!(m.registers[2].access, AccessType::Read);
    assert_eq!(m.registers[0].access, AccessType::Write);
    assert_eq!(m.registers[0].width, 4);
}

#[test]
fn device_model_register_purposes_and_polling() {
    let models = build_device_models(&[uart_region()], &[]);
    let regs = &models[0].registers;
    let polling: Vec<bool> = regs.iter().map(|r| r.polling).collect();
    assert_eq!(polling, vec![false, false, true, false]);
    let purposes: Vec<Option<String>> = regs.iter().map(|r| r.purpose.clone()).collect();
    assert_eq!(purposes, vec![
        Some("control".to_string()),
        None,
        Some("status".to_string()),
        Some("version".to_string()),
    ]);
    assert!(regs.iter().all(|r| r.bitfields.is_empty()));
}

#[test]
fn device_model_sequences_group_by_function_in_address_order() {
    let models = build_device_models(&[uart_region()], &[]);
    let seqs = &models[0].sequences;
    assert_eq!(seqs.len(), 2);
    assert_eq!(seqs[0].function, "init");
    let init: Vec<(u32, u64)> = seqs[0].accesses.iter().map(|a| (a.offset, a.instruction_addr)).collect();
    assert_eq!(init, vec![(0, 0x10), (4, 0x14), (4, 0x18)]);
    assert_eq!(seqs[1].function, "poll");
    let poll: Vec<(u32, u64)> = seqs[1].accesses.iter().map(|a| (a.offset, a.instruction_addr)).collect();
    assert_eq!(poll, vec![(0xc, 0x20), (8, 0x30), (8, 0x34), (8, 0x38), (8, 0x3c)]);
    assert!(seqs.iter().all(|s| s.accesses.iter().all(|a| a.value.is_none())));
    assert_eq!(seqs[1].accesses[0].access_type, AccessType::Read);
    assert_eq!(seqs[0].accesses[0].access_type, AccessType::Write);
}

#[test]
fn device_model_init_sequence_skips_polled_registers_and_repeats() {
    let models = build_device_models(&[uart_region()], &[]);
    assert_eq!(models[0].init_sequence, vec![
        "write(+0x0)".to_string(),
        "write(+0x4)".to_string(),
        "read(+0xc)".to_string(),
    ]);
}

#[test]
fn device_model_state_machine_with_writes_and_polling() {
    let models = build_device_models(&[uart_region()], &[]);
    let sm = models[0].state_machine.as_ref().unwrap();
    assert_eq!(sm.states, vec!["idle", "init", "running", "unknown"]);
    assert_eq!(sm.transitions.len(), 2);
    assert_eq!((sm.transitions[0].from.as_str(), sm.transitions[0].to.as_str()), ("idle", "init"));
    assert_eq!(sm.transitions[0].trigger.kind, "first_write");
    assert_eq!(sm.transitions[0].trigger.register_offset, None);
    assert_eq!(sm.transitions[0].trigger.value, None);
    assert_eq!((sm.transitions[1].from.as_str(), sm.transitions[1].to.as_str()), ("init", "running"));
    assert_eq!(sm.transitions[1].trigger.kind, "polling_start");
}

#[test]
fn device_model_of_an_empty_region() {
    let models = build_device_models(&[region(0x2000, "gpio", vec![])], &[]);
    assert_eq!(models.len(), 1);
    assert!(models[0].registers.is_empty());
    assert!(models[0].sequences.is_empty());
    assert!(models[0].init_sequence.is_empty());
    assert!(models[0].state_machine.is_none());
}

#[test]
fn device_model_state_machine_of_a_read_only_device() {
    let r = region(0x3000, "rom", vec![access(0x3000, READ, "id", 0x1), access(0x3004, READ, "id", 0x2)]);
    let models = build_device_models(&[r], &[]);
    let sm = models[0].state_machine.as_ref().unwrap();
    assert_eq!(sm.states, vec!["idle", "unknown"]);
    assert!(sm.transitions.is_empty());
    assert_eq!(models[0].init_sequence, vec!["read(+0x0)".to_string(), "read(+0x4)".to_string()]);
}

#[test]
fn device_model_polled_register_is_named_after_its_first_access() {
    let r = region(0x4000, "timer", vec![
        access(0x4010, READ, "t", 0x1),
        access(0x4010, WRITE, "t", 0x2),
        access(0x4010, WRITE, "t", 0x3),
        access(0x4010, WRITE, "t", 0x4),
    ]);
    let models = build_device_models(&[r], &[]);
    let regs = &models[0].registers;
    assert_eq!(regs.len(), 1);
    assert_eq!(regs[0].offset, 0x10);
    assert_eq!(regs[0].access, AccessType::Read);
    assert!(regs[0].polling);
    assert_eq!(regs[0].observed_reads.len(), 1);
    assert_eq!(regs[0].observed_writes.len(), 3);
    assert!(models[0].init_sequence.is_empty());
    let sm = models[0].state_machine.as_ref().unwrap();
    assert_eq!(sm.states, vec!["idle", "running", "unknown"]);
    assert_eq!((sm.transitions[0].from.as_str(), sm.transitions[0].to.as_str()), ("init", "running"));
}

#[test]
fn device_models_one_per_region_in_order() {
    let models = build_device_models(&[region(0x10, "a", vec![]), uart_region(), region(0x20, "b", vec![])], &[]);
    let names: Vec<&str> = models.iter().map(|m| m.name.as_str()).collect();
    assert_eq!(names, vec!["a", "uart", "b"]);
}

#[test]
fn every_access_lands_in_exactly_one_sequence() {
    let region = uart_region();
    let models = build_device_models(&[region.clone()], &[]);
    let total: usize = models[0].sequences.iter().map(|s| s.accesses.len()).sum();
    assert_eq!(total, region.accesses.len());
    let counted: usize = models[0].registers.iter().map(|r| r.count).sum();
    assert_eq!(counted, region.accesses.len());
}

#[test]
fn bitfields_cover_exactly_the_changed_bits() {
    let mut r = reg(AccessType::Write, 4, false);
    r.observed_writes = vec![0x0, 0x30, 0x1_0000_0031];
    r.observed_reads = vec![0x8000_0000_0000_0000];
    let vals: Vec<u64> = r.observed_writes.iter().chain(r.observed_reads.iter()).copied().collect();
    let mut mask = 0u64;
    for w in vals.windows(2) {
        mask |= w[0] ^ w[1];
    }
    let fields = detect_bitfields(&r);
    let mut covered = 0u64;
    for (i, f) in fields.iter().enumerate() {
        assert!(f.width >= 1 && f.offset as u32 + f.width as u32 <= 64);
        if i + 1 < fields.len() {
            assert!(f.offset as u32 + (f.width as u32) < fields[i + 1].offset as u32);
        }
        let bits = if f.width == 64 { u64::MAX } else { ((1u64 << f.width) - 1) << f.offset };
        assert_eq!(covered & bits, 0);
        covered |= bits;
    }
    assert_eq!(covered, mask);
}

#[test]
fn init_sequence_has_no_repeated_lines() {
    let r = region(0x5000, "spi", vec![
        access(0x5000, WRITE, "a", 0x1),
        access(0x5000, WRITE, "a", 0x2),
        access(0x5004, READ, "b", 0x3),
        access(0x5000, WRITE, "b", 0x4),
        access(0x5004, READ, "a", 0x5),
        access(0x5000, READ, "b", 0x6),
    ]);
    let models = build_device_models(&[r], &[]);
    let init = &models[0].init_sequence;
    assert_eq!(init, &vec!["write(+0x0)".to_string(), "read(+0x4)".to_string(), "read(+0x0)".to_string()]);
    for i in 0..init.len() {
        for j in i + 1..init.len() {
            assert_ne!(init[i], init[j]);
        }
    }
}

#[test]
fn state_machine_runs_from_idle_to_unknown() {
    let models = build_device_models(&[uart_region()], &[]);
    let sm = models[0].state_machine.as_ref().unwrap();
    assert_eq!(sm.states.first().map(|s| s.as_str()), Some("idle"));
    assert_eq!(sm.states.last().map(|s| s.as_str()), Some("unknown"));
    assert_eq!(sm.transitions.len(), sm.states.len() - 2);
    for t in &sm.transitions {
        let a = sm.states.iter().position(|s| *s == t.from).unwrap();
        let b = sm.states.iter().position(|s| *s == t.to).unwrap();
        assert!(a < b);
    }
}

#[test]
fn state_machine_follows_only_the_written_and_polled_flags() {
    let a = region(0x6000, "a", vec![access(0x6000, WRITE, "f", 0x1)]);
    let b = region(0x7000, "b", vec![
        access(0x7010, WRITE, "g", 0x9),
        access(0x7020, READ, "g", 0x8),
        access(0x7010, WRITE, "h", 0x7),
    ]);
    let models = build_device_models(&[a, b], &[]);
    let s1 = models[0].state_machine.as_ref().unwrap();
    let s2 = models[1].state_machine.as_ref().unwrap();
    assert_eq!(s1.states, s2.states);
    assert_eq!(s1.transitions.len(), s2.transitions.len());
    for (x, y) in s1.transitions.iter().zip(s2.transitions.iter()) {
        assert_eq!((&x.from, &x.to, &x.trigger.kind), (&y.from, &y.to, &y.trigger.kind));
    }
}

#[test]
fn raw_accesses_do_not_change_the_models() {
    let raw = vec![access(0x1000, READ, "other", 0x99)];
    let with = build_device_models(&[uart_region()], &raw);
    let without = build_device_models(&[uart_region()], &[]);
    let offs = |m: &specter_probe::behavior::types::DeviceModel| m.registers.iter().map(|r| (r.offset, r.count)).collect::<Vec<_>>();
    assert_eq!(offs(&with[0]), offs(&without[0]));
    assert_eq!(with[0].init_sequence, without[0].init_sequence);
}
