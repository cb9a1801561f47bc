use sha1::Digest;
use bn6f_harness::cache::{join_path, sha1_file_short, Bk2CacheDir};
use bn6f_harness::entries::EntryBitset;
use bn6f_harness::fleet::{
    entry_file_name, entry_seq, exit_file_name, lookup_name, merge_pair_pass, parse_target, prior_pass, resolve_targets, should_skip, tally,
    FnOutcome,
};
use bn6f_harness::hex::{hex32, hex_lower};
use bn6f_harness::emu::run_to_pc_failure;
use bn6f_harness::isolate::{isolated_failure, irq_masked, isolated_step, replay_target, IsolatedStep, ISOLATED_MAX_STEPS};
use bn6f_harness::num::IntErrorKind;
use bn6f_harness::radius::{build_fn_ranges, radius_closure, radius_sha_for, range_of};
use bn6f_harness::record::{name_edges, split_cached, target_hex_list};
use bn6f_harness::report::{describe_diff, track_row, DiffSummary, RegMismatch};
use bn6f_harness::symtab::{read_symbols, SymbolError};
use bn6f_harness::tracker::{CallAction, StepAction, Tracker};

fn s(x: &str) -> String {
    x.to_string()
}

#[test]
fn symbols_read() {
    let text = "# generated\n0x08000100 Main\n\n  08000200   Sub Routine  \n";
    let syms = read_symbols(text).ok().expect("symbols");
    assert_eq!(syms, vec![(0x0800_0100, s("Main")), (0x0800_0200, s("Sub Routine"))]);
}

#[test]
fn symbols_missing_name() {
    assert!(matches!(read_symbols("0x08000100\n"), Err(SymbolError::MissingName)));
}

#[test]
fn symbols_bad_address() {
    match read_symbols("0xZZ Main\n") {
        Err(SymbolError::BadAddr { text, kind }) => {
            assert_eq!(text, "ZZ");
            assert_eq!(kind, IntErrorKind::InvalidDigit);
        }
        _ => panic!("accepted"),
    }
    match read_symbols("0x Main\n") {
        Err(SymbolError::BadAddr { text, kind }) => {
            assert_eq!(text, "");
            assert_eq!(kind, IntErrorKind::Empty);
        }
        _ => panic!("accepted"),
    }
}

#[test]
fn fn_ranges_end_at_next_entry() {
    let syms = vec![(0x0800_0200, s("B")), (0x0800_0100, s("A")), (0x0800_0300, s("C"))];
    let r = build_fn_ranges(&syms);
    let got: Vec<(String, u32, u32)> = r.iter().map(|x| (x.name.clone(), x.start, x.end)).collect();
    assert_eq!(
        got,
        vec![
            (s("A"), 0x0800_0100, 0x0800_0200),
            (s("B"), 0x0800_0200, 0x0800_0300),
            (s("C"), 0x0800_0300, u32::MAX),
        ]
    );
    assert_eq!(range_of(&r, &s("B")), Some((0x0800_0200, 0x0800_0300)));
    assert_eq!(range_of(&r, &s("Z")), None);
}

#[test]
fn fn_ranges_duplicate_name_keeps_last() {
    let syms = vec![(0x0800_0100, s("A")), (0x0800_0300, s("A")), (0x0800_0200, s("B"))];
    let r = build_fn_ranges(&syms);
    assert_eq!(range_of(&r, &s("A")), Some((0x0800_0300, u32::MAX)));
}

fn graph() -> Vec<(String, Vec<String>)> {
    vec![
        (s("main"), vec![s("b"), s("a")]),
        (s("a"), vec![s("c")]),
        (s("c"), vec![s("a")]),
        (s("z"), vec![s("main")]),
    ]
}

#[test]
fn radius_closure_is_reachable_set_sorted() {
    assert_eq!(radius_closure(&s("main"), &graph()), vec![s("a"), s("b"), s("c"), s("main")]);
    assert_eq!(radius_closure(&s("c"), &graph()), vec![s("a"), s("c")]);
    assert_eq!(radius_closure(&s("leaf"), &graph()), vec![s("leaf")]);
}

#[test]
fn radius_closure_later_entry_wins() {
    let g = vec![(s("main"), vec![s("a")]), (s("main"), vec![s("b")])];
    assert_eq!(radius_closure(&s("main"), &g), vec![s("b"), s("main")]);
}

#[test]
fn radius_sha_matches_sha1_of_ranges() {
    let rom: Vec<u8> = (0..64u8).collect();
    let syms = vec![(0x0800_0000, s("main")), (0x0800_0010, s("a")), (0x0800_0020, s("b")), (0x0800_0030, s("c"))];
    let ranges = build_fn_ranges(&syms);
    let g = vec![(s("main"), vec![s("b")])];
    let got = radius_sha_for("main", &g, &ranges, &rom);
    // closure sorted: b, main -> bytes 0x20..0x30 then 0x00..0x10
    let mut bytes = rom[0x20..0x30].to_vec();
    bytes.extend_from_slice(&rom[0x00..0x10]);
    let d = sha1::Sha1::digest(&bytes);
    assert_eq!(got, hex_lower(&d[..6]));
    assert_eq!(got.len(), 12);
    // callee order and repeats do not matter
    let g2 = vec![(s("main"), vec![s("b"), s("b")])];
    assert_eq!(radius_sha_for("main", &g2, &ranges, &rom), got);
}

#[test]
fn radius_last_range_clipped_to_rom() {
    let rom: Vec<u8> = (0..64u8).collect();
    let syms = vec![(0x0800_0030, s("tail")), (0x0200_0000, s("ewram"))];
    let ranges = build_fn_ranges(&syms);
    let got = radius_sha_for("tail", &[], &ranges, &rom);
    assert_eq!(got, hex_lower(&sha1::Sha1::digest(&rom[0x30..])[..6]));
    // a function below ROM contributes nothing
    assert_eq!(radius_sha_for("ewram", &[], &ranges, &rom), sha1_file_short(b""));
}

#[test]
fn sha1_short_known() {
    assert_eq!(sha1_file_short(b"abc"), "a9993e364706");
    assert_eq!(sha1_file_short(b""), "da39a3ee5e6b");
}

#[test]
fn hex_rendering() {
    assert_eq!(hex_lower(&[0x00, 0xab, 0x0f]), "00ab0f");
    let mut d = [0u8; 32];
    d[0] = 0xde;
    d[31] = 0x01;
    let h = hex32(&d);
    assert_eq!(h.len(), 64);
    assert!(h.starts_with("de00"));
    assert!(h.ends_with("0001"));
}

#[test]
fn cache_layout() {
    let c = Bk2CacheDir::new("/tmp/cache", "0676ecd4abcd", "1234567890ab");
    assert_eq!(c.root, "/tmp/cache/0676ecd4abcd/1234567890ab");
    assert_eq!(c.fn_dir("GameMain"), "/tmp/cache/0676ecd4abcd/1234567890ab/GameMain");
    assert_eq!(c.marker_path("F"), "/tmp/cache/0676ecd4abcd/1234567890ab/F/.recorded");
    assert_eq!(c.callgraph_path(), "/tmp/cache/0676ecd4abcd/1234567890ab/callgraph.txt");
    assert_eq!(c.pair_pass_path(), "/tmp/cache/0676ecd4abcd/1234567890ab/pair_pass.txt");
    assert!(!c.is_fn_cached("surely-not-here"));
}

#[test]
fn path_join_rules() {
    assert_eq!(join_path("a", "b"), "a/b");
    assert_eq!(join_path("a/", "b"), "a/b");
    assert_eq!(join_path("", "b"), "b");
    assert_eq!(join_path("a", "/abs"), "/abs");
    assert_eq!(join_path("a", ""), "a/");
}

#[test]
fn target_addresses() {
    assert_eq!(parse_target("0x08000100").ok(), Some(0x0800_0100));
    assert_eq!(parse_target(" 0x8000100 ").ok(), Some(0x0800_0100));
    assert_eq!(parse_target("8000100").ok(), Some(0x0800_0100));
    match parse_target(" 8000100") {
        Err(e) => {
            assert_eq!(e.kind, IntErrorKind::InvalidDigit);
            assert_eq!(e.text, " 8000100");
        }
        Ok(_) => panic!("untrimmed text without 0x is parsed as given"),
    }
    assert!(matches!(parse_target("0x1_0000_0000"), Err(e) if e.kind == IntErrorKind::InvalidDigit));
    assert!(matches!(parse_target("0x100000000"), Err(e) if e.kind == IntErrorKind::PosOverflow));
}

#[test]
fn target_names() {
    let syms = vec![(1, s("one")), (2, s("two")), (1, s("uno"))];
    assert_eq!(lookup_name(&syms, 1), Some(s("uno")));
    assert_eq!(resolve_targets(&[2, 1], &syms).ok(), Some(vec![s("two"), s("uno")]));
    assert_eq!(resolve_targets(&[2, 9, 8], &syms).err(), Some(9));
}

#[test]
fn incremental_skip() {
    let rows = vec![(s("F"), vec![s("aaaaaaaaaaaa")]), (s("G"), vec![]), (s("F"), vec![s("x"), s("bbbbbbbbbbbb")])];
    assert_eq!(prior_pass(&rows, &s("F")), Some(s("bbbbbbbbbbbb")));
    assert_eq!(prior_pass(&rows, &s("G")), None);
    let r = s("bbbbbbbbbbbb");
    assert!(should_skip(true, &r, &prior_pass(&rows, &s("F"))));
    assert!(!should_skip(false, &r, &prior_pass(&rows, &s("F"))));
    assert!(!should_skip(true, &s(""), &Some(s(""))));
    assert!(!should_skip(true, &s("cccccccccccc"), &prior_pass(&rows, &s("F"))));
}

#[test]
fn entry_file_sequence_numbers() {
    assert_eq!(entry_seq("0007.entry.bin"), Some(7));
    assert_eq!(entry_seq("0007.exit.delta.bin"), None);
    assert_eq!(entry_seq(".entry.bin"), None);
    assert_eq!(entry_seq("x1.entry.bin"), None);
}

#[test]
fn pair_tallies() {
    let results = vec![
        (s("bk1"), s("F"), true),
        (s("bk1"), s("F"), false),
        (s("bk1"), s("G"), true),
        (s("bk2"), s("F"), true),
    ];
    assert_eq!(tally(&results, &s("bk1"), &None), (2, 1));
    assert_eq!(tally(&results, &s("bk1"), &Some(s("F"))), (1, 1));
    assert_eq!(tally(&results, &s("bk2"), &None), (1, 0));
}

#[test]
fn pair_pass_merge() {
    let prior = vec![(s("F"), vec![s("old")]), (s("G"), vec![s("g")]), (s("H"), vec![s("h")])];
    let outcomes = vec![
        FnOutcome { name: s("F"), failed: 0, radius: Some(s("new")) },
        FnOutcome { name: s("G"), failed: 2, radius: Some(s("g")) },
        FnOutcome { name: s("K"), failed: 0, radius: Some(s("")) },
        FnOutcome { name: s("L"), failed: 0, radius: Some(s("l")) },
    ];
    let mut merged = merge_pair_pass(&prior, &outcomes);
    merged.sort();
    assert_eq!(merged, vec![(s("F"), s("new")), (s("H"), s("h")), (s("L"), s("l"))]);
}

#[test]
fn record_plan() {
    let (hit, miss) = split_cached(&[1, 2, 3], &[s("a"), s("b"), s("c")], &[true, false, false]);
    assert_eq!(hit, 1);
    assert_eq!(miss, vec![(2, s("b")), (3, s("c"))]);
    assert_eq!(target_hex_list(&miss), vec![s("00000002"), s("00000003")]);
    assert_eq!(target_hex_list(&[(0x0800_ABCD, s("x"))]), vec![s("0800ABCD")]);
}

#[test]
fn callgraph_by_name() {
    let syms = vec![(1, s("one")), (2, s("two")), (3, s("three"))];
    let edges = vec![(1, vec![3, 2, 9, 3]), (9, vec![1])];
    let named = name_edges(&edges, &syms);
    assert_eq!(named, vec![(s("one"), vec![s("three"), s("two")])]);
}

#[test]
fn isolated_run_steps() {
    assert_eq!(irq_masked(0x1F), 0x9F);
    assert_eq!(replay_target(0x0800_0321), 0x0800_0320);
    assert_eq!(isolated_step(0, None, 0x0800_0100), IsolatedStep::Step);
    // ARM: r15 - 4
    assert_eq!(isolated_step(1, Some((0x0800_0104, 0x9F)), 0x0800_0100), IsolatedStep::Arrived);
    // Thumb: r15 - 2
    assert_eq!(isolated_step(1, Some((0x0800_0102, 0xBF)), 0x0800_0100), IsolatedStep::Arrived);
    assert_eq!(isolated_step(5, Some((0x0800_0200, 0x9F)), 0x0800_0100), IsolatedStep::Step);
    assert_eq!(isolated_step(ISOLATED_MAX_STEPS, Some((0x0800_0200, 0x9F)), 0x0800_0100), IsolatedStep::GiveUp);
}

#[test]
fn hit_table_row() {
    assert_eq!(
        track_row(0x0800_024c, 12, 3, 3, "SetInterruptCallback"),
        "0x0800024C        12        3        3  SetInterruptCallback"
    );
    assert_eq!(track_row(1, 123456789, 0, 0, "x"), "0x00000001  123456789        0        0  x");
}

#[test]
fn diff_descriptions() {
    let reg = DiffSummary {
        reg_mismatches: vec![RegMismatch { name: s("r0"), expected: 0x1234, actual: 0xABCD }],
        ewram_diff_bytes: 3,
        ewram_first_diff: Some(0x10),
        iwram_diff_bytes: 0,
        iwram_first_diff: None,
    };
    assert_eq!(describe_diff(&reg), "r0 mismatch: expected 0x00001234, got 0x0000ABCD");
    let ew = DiffSummary { reg_mismatches: vec![], ..reg };
    assert_eq!(describe_diff(&ew), "EWRAM diff: 3 bytes (first at 0x02000010)");
    let iw = DiffSummary {
        reg_mismatches: vec![],
        ewram_diff_bytes: 0,
        ewram_first_diff: None,
        iwram_diff_bytes: 2,
        iwram_first_diff: Some(0x7FF0),
    };
    assert_eq!(describe_diff(&iw), "IWRAM diff: 2 bytes (first at 0x03007FF0)");
    let clean = DiffSummary { iwram_diff_bytes: 0, ..iw };
    assert_eq!(describe_diff(&clean), "");
}

#[test]
fn entry_bitset_membership() {
    let b = EntryBitset::from_addrs(&[0x0800_0100, 0x0800_0104, 0x0300_0000]);
    assert!(b.contains(0x0800_0100));
    assert!(b.contains(0x0800_0104));
    assert!(!b.contains(0x0800_0102));
    assert!(!EntryBitset::empty().contains(0x0800_0100));
}

#[test]
fn tracker_counts_call_and_exit() {
    let mut t = Tracker::new(&[0x0800_0100, 0x0800_0200], &[], 0, false);
    // branch into the first entry from outside: a call
    assert_eq!(t.step(0x0800_0104, 0x1F), StepAction::InspectCallSite { site: 0, thumb: false });
    // an ARM BL at the site; return address 0x08000010
    assert_eq!(t.resolve_call_site(0xEB00_0000, 0x0800_0010), CallAction::Continue);
    assert_eq!(t.pending_len(), 1);
    // sequential instruction
    assert_eq!(t.step(0x0800_0108, 0x1F), StepAction::Continue);
    // return to the call site's return address: the exit
    assert_eq!(t.step(0x0800_0014, 0x1F), StepAction::Continue);
    assert_eq!(t.pending_len(), 0);
    assert!(t.is_idle());
    assert_eq!(t.observed(), 3);
    let r = t.report();
    assert_eq!(r.rows, vec![(0x0800_0100, 1, 1, 1)]);
    assert_eq!((r.total_hits, r.total_calls, r.total_exits), (1, 1, 1));
    assert_eq!(r.cleanly_paired, 1);
    assert_eq!(r.pending_remaining, 0);
    assert!(t.call_edges().is_empty());
}

#[test]
fn tracker_record_mode_dedups_captures() {
    let mut t = Tracker::new(&[0x0800_0100, 0x0800_0200], &[0x0800_0200], 50, true);
    // enter 0x100 by BL
    assert_eq!(t.step(0x0800_0104, 0x1F), StepAction::InspectCallSite { site: 0, thumb: false });
    t.resolve_call_site(0xEB00_0000, 0x0800_0010);
    // from inside 0x100, BL into the target 0x200
    assert_eq!(t.step(0x0800_0108, 0x1F), StepAction::Continue);
    assert_eq!(t.step(0x0800_0204, 0x1F), StepAction::InspectCallSite { site: 0x0800_0104, thumb: false });
    assert_eq!(
        t.resolve_call_site(0xEB00_0000, 0x0800_0108),
        CallAction::Capture { fn_addr: 0x0800_0200, return_addr: 0x0800_0108 }
    );
    assert!(t.settle_capture(Some(42)));
    // back to the return address, then call again with the same state
    assert_eq!(t.step(0x0800_010C, 0x1F), StepAction::Continue);
    assert_eq!(t.step(0x0800_0204, 0x1F), StepAction::InspectCallSite { site: 0x0800_0108, thumb: false });
    assert_eq!(
        t.resolve_call_site(0xEB00_0000, 0x0800_010C),
        CallAction::Capture { fn_addr: 0x0800_0200, return_addr: 0x0800_010C }
    );
    assert!(!t.settle_capture(Some(42)));
    assert_eq!(t.dedup_skipped(), 1);
    let edges = t.call_edges();
    assert_eq!(edges.len(), 1);
    assert_eq!(edges[0].0, 0x0800_0100);
    assert_eq!(edges[0].1, vec![0x0800_0200]);
}

#[test]
fn pair_file_names_read_back() {
    assert_eq!(entry_file_name(7), "0007.entry.bin");
    assert_eq!(exit_file_name(7), "0007.exit.delta.bin");
    assert_eq!(entry_file_name(12345), "12345.entry.bin");
    for n in [0usize, 1, 42, 9999, 10000, usize::MAX] {
        assert_eq!(entry_seq(&entry_file_name(n)), Some(n));
    }
}

#[test]
fn entries_accept_every_address() {
    let b = EntryBitset::from_addrs(&[0xFFFF_FFFF, 0x0800_0010, 0x0100_0000]);
    assert!(b.contains(0xFFFF_FFFF));
    assert!(b.contains(0xFFFF_FFFE));
    assert!(!b.contains(0xFFFF_FFFC));
    assert!(b.contains(0x0800_0011));
    assert!(!b.contains(0x0100_0000));
    let t = Tracker::new(&[0xFFFF_FFFE, 0x0800_0000], &[], 0, false);
    assert!(t.is_idle());
}

#[test]
fn failure_messages() {
    assert_eq!(
        run_to_pc_failure(0x0800_0101, 16, 0x1234),
        "run_to_pc: 0x08000100 not reached within 16 steps (pc now 0x00001234)"
    );
    assert_eq!(isolated_failure(0x0800_01ab), "didn't reach LR 0x080001AB in 1000000 steps");
}

#[test]
fn report_lists_only_entries_that_fired() {
    let mut t = Tracker::new(&[0x0800_0100, 0x0800_0200, 0x0800_0300], &[], 0, false);
    assert_eq!(t.step(0x0800_0104, 0x1F), StepAction::InspectCallSite { site: 0, thumb: false });
    t.resolve_call_site(0x0000_0000, 0x0800_0010);
    assert_eq!(t.step(0x0800_0108, 0x1F), StepAction::Continue);
    let r = t.report();
    assert_eq!(r.rows.len(), 1);
    assert!(r.rows.iter().all(|row| row.1 >= 1));
    assert_eq!(r.rows[0].0, 0x0800_0100);
}
