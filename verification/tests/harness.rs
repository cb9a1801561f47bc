use bn6f_harness::bios::{crc32, verify, BiosRejection, GBA_BIOS_SIZE};
use bn6f_harness::emu::{Core, RunStep, Snapshot};
use bn6f_harness::fnv1a64;
use bn6f_harness::num::IntErrorKind;
use bn6f_harness::symbols::{parse_map, Function, MapError, MapErrorKind};

#[test]
fn crc32_known_vector() {
    // IEEE CRC32 of "123456789" is 0xCBF43926, the standard check value.
    assert_eq!(crc32(b"123456789"), 0xCBF4_3926);
}

#[test]
fn crc32_of_nothing_is_zero() {
    assert_eq!(crc32(b""), 0);
}

#[test]
fn fnv1a64_known_values() {
    assert_eq!(fnv1a64(b""), 0xcbf2_9ce4_8422_2325);
    assert_eq!(fnv1a64(b"a"), 0xaf63_dc4c_8601_ec8c);
    assert_eq!(fnv1a64(b"foobar"), 0x8594_4171_f739_67e8);
}

#[test]
fn bios_wrong_size_refused() {
    assert_eq!(verify(&[0u8; 100]), Err(BiosRejection::WrongSize { size: 100 }));
}

#[test]
fn bios_wrong_crc_refused() {
    let image = vec![0u8; GBA_BIOS_SIZE];
    let crc = crc32(&image);
    assert_eq!(verify(&image), Err(BiosRejection::WrongCrc { crc }));
    assert_ne!(crc, 0x8197_7335);
}

#[test]
fn iwram_class() {
    let rom = Function { name: "SetInterruptCallback".to_string(), addr: 0x0800_024c, thumb: true };
    let iwram = Function { name: "f".to_string(), addr: 0x0300_1000, thumb: false };
    assert!(!rom.is_iwram());
    assert!(iwram.is_iwram());
}

#[test]
fn function_map_sorted_by_address_stably() {
    let text = "08000200\tB\tthumb\n\n03001000\tI\tarm\n08000200\tB2\tthumb\n0800024c\tSetInterruptCallback\tthumb\n";
    let fns = parse_map(text).ok().expect("map");
    let got: Vec<(u32, &str, bool)> = fns.iter().map(|f| (f.addr, f.name.as_str(), f.thumb)).collect();
    assert_eq!(
        got,
        vec![
            (0x0300_1000, "I", false),
            (0x0800_0200, "B", true),
            (0x0800_0200, "B2", true),
            (0x0800_024c, "SetInterruptCallback", true),
        ]
    );
    assert!(fns.windows(2).all(|w| w[0].addr <= w[1].addr));
}

#[test]
fn function_map_isa_and_trimming() {
    let fns = parse_map("  0800024C \tname with space\t thumb \r\n").ok().expect("map");
    assert_eq!(fns.len(), 1);
    assert_eq!(fns[0].addr, 0x0800_024c);
    assert_eq!(fns[0].name, "name with space");
    assert!(fns[0].thumb);
}

#[test]
fn function_map_missing_field() {
    match parse_map("08000000\tonly\n") {
        Err(MapError { line, kind }) => {
            assert_eq!(line, 1);
            assert_eq!(kind, MapErrorKind::MissingField);
        }
        Ok(_) => panic!("accepted"),
    }
}

#[test]
fn function_map_bad_address_line_number() {
    match parse_map("08000000\ta\tthumb\n\nzz\tb\tarm\n") {
        Err(e) => assert_eq!(e, MapError { line: 3, kind: MapErrorKind::BadAddr(IntErrorKind::InvalidDigit) }),
        Ok(_) => panic!("accepted"),
    }
    match parse_map("123456789\ta\tthumb\n") {
        Err(e) => assert_eq!(e.kind, MapErrorKind::BadAddr(IntErrorKind::PosOverflow)),
        Ok(_) => panic!("accepted"),
    }
}

fn make_core(r15: u32, lr: u32, cpsr: u32) -> Core {
    let mut gprs = [0u32; 16];
    gprs[14] = lr;
    gprs[15] = r15;
    Core { gprs, cpsr }
}

#[test]
fn pc_is_one_fetch_behind_r15() {
    // ARM at reset: r15 = 4 means the next instruction is at 0.
    assert_eq!(make_core(4, 0, 0x13).pc(), 0);
    assert!(!make_core(4, 0, 0x13).is_thumb());
    // Thumb: width 2.
    assert_eq!(make_core(0x0800_0102, 0, 0x3F).pc(), 0x0800_0100);
    assert!(make_core(0, 0, 0x3F).is_thumb());
    // wraps below zero
    assert_eq!(make_core(2, 0, 0x1F).pc(), 0xFFFF_FFFE);
    assert_eq!(make_core(0, 0x0800_0321, 0x1F).lr(), 0x0800_0321);
    assert_eq!(make_core(0, 7, 0x1F).gpr(14), 7);
    assert_eq!(make_core(0, 7, 0x1F).cpsr(), 0x1F);
}

#[test]
fn run_to_pc_decisions() {
    let at = make_core(0x0800_0104, 0, 0x1F);
    // already there: 0 steps; the Thumb bit of the target is ignored
    assert_eq!(at.run_to_pc(0x0800_0101, 10, 0), RunStep::Reached(0));
    assert_eq!(at.run_to_pc(0x0800_0100, 10, 7), RunStep::Reached(7));
    let away = make_core(0x0800_0204, 0, 0x1F);
    assert_eq!(away.run_to_pc(0x0800_0100, 10, 3), RunStep::Step);
    assert_eq!(away.run_to_pc(0x0800_0100, 10, 10), RunStep::LastStep);
}

#[test]
fn run_to_pc_trace_outcome() {
    // drive the decisions over a trace of r15 values
    let trace = [0x0800_0010u32, 0x0800_0014, 0x0800_0104, 0x0800_0108];
    let mut taken = 0u64;
    let result = loop {
        let c = make_core(trace[taken as usize], 0, 0x1F);
        match c.run_to_pc(0x0800_0100, 3, taken) {
            RunStep::Reached(k) => break Ok(k),
            RunStep::Step => taken += 1,
            RunStep::LastStep => break Err(()),
        }
    };
    assert_eq!(result, Ok(2));
}

#[test]
fn snapshot_and_hashes() {
    let s = Snapshot::from_bytes(b"foobar".to_vec());
    assert_eq!(s.len(), 6);
    assert!(!s.is_empty());
    assert_eq!(s.bytes(), b"foobar");
    assert_eq!(Core::state_hash(&s), 0x8594_4171_f739_67e8);
    assert_eq!(Core::canonical_hash(&s), fnv1a64(b"foobar"));
    assert!(Snapshot::from_bytes(Vec::new()).is_empty());
}

#[test]
fn rom_title_stops_at_zero_and_twelve() {
    assert_eq!(Core::rom_title(b"MEGAMAN6_FXXBR6E"), "MEGAMAN6_FXX");
    assert_eq!(Core::rom_title(b"ABC\0DEF"), "ABC");
    assert_eq!(Core::rom_title(b""), "");
    assert_eq!(Core::rom_title(&[0x41, 0xff, 0x42]), "A\u{fffd}B");
}

fn run_over_trace(trace: &[u32], target: u32, max_steps: u64) -> Result<u64, ()> {
    let mut taken = 0u64;
    loop {
        let c = make_core(trace[taken as usize], 0, 0x1F);
        match c.run_to_pc(target, max_steps, taken) {
            RunStep::Reached(k) => return Ok(k),
            RunStep::Step => taken += 1,
            RunStep::LastStep => return Err(()),
        }
    }
}

#[test]
fn run_to_pc_thumb_bit_changes_nothing() {
    let trace = [0x0800_0010u32, 0x0800_0014, 0x0800_0104, 0x0800_0108];
    assert_eq!(run_over_trace(&trace, 0x0800_0101, 3), run_over_trace(&trace, 0x0800_0100, 3));
    assert_eq!(run_over_trace(&trace, 0x0800_0101, 3), Ok(2));
    assert_eq!(run_over_trace(&trace, 0x0800_0301, 3), run_over_trace(&trace, 0x0800_0300, 3));
    assert_eq!(run_over_trace(&trace, 0x0800_0301, 3), Err(()));
}
