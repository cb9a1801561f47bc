use bn6f_harness::cache_run::{CacheAction, CacheEvent, CacheRun, CacheStage, cache_step};
use bn6f_harness::fleet_run::{
    fleet_exit, fleet_final_line, fleet_step, no_symbol_message, phase_b_line, session_line, FleetAction, FleetEvent,
    FleetRun,
};
use bn6f_harness::record::{
    capture_line, display_name, isolated_failure_line, record_pair, target_line, wrote_line,
};
use bn6f_harness::replay::{replay_fn, replay_report};

fn s(x: &str) -> String {
    x.to_string()
}

fn said(a: &FleetAction) -> Option<String> {
    match a {
        FleetAction::Say(l) => Some(l.clone()),
        _ => None,
    }
}

#[test]
fn replay_fn_quiet_pass_prints_nothing() {
    let r = replay_fn("Foo", &[None, None], false);
    assert_eq!((r.pass, r.fail), (2, 0));
    assert!(r.lines.is_empty());
}

#[test]
fn replay_fn_verbose_pass_prints_head() {
    let r = replay_fn("Foo", &[None, None, None], true);
    assert_eq!(r.lines, vec![s("[PASS] Foo: 3/3 pairs")]);
}

#[test]
fn replay_fn_failure_reports_first_message() {
    let outcomes = vec![None, Some(s("")), Some(s("r0 mismatch: expected 0x00000001, got 0x00000002")), Some(s("later"))];
    let r = replay_fn("sub_8000", &outcomes, false);
    assert_eq!((r.pass, r.fail), (1, 3));
    assert_eq!(
        r.lines,
        vec![
            s("[FAIL] sub_8000: 1/4 pairs"),
            s("       first failure: r0 mismatch: expected 0x00000001, got 0x00000002"),
        ]
    );
}

#[test]
fn replay_fn_failure_without_description() {
    let r = replay_fn("Bar", &[Some(s(""))], false);
    assert_eq!(r.lines, vec![s("[FAIL] Bar: 0/1 pairs")]);
}

#[test]
fn replay_report_totals_and_status() {
    let groups = vec![(s("A"), vec![None, None]), (s("B"), vec![None, Some(s("EWRAM diff: 4 bytes (first at 0x02000010)"))])];
    let r = replay_report(&groups, false);
    assert_eq!((r.pass, r.fail, r.exit_code), (3, 1, 1));
    assert_eq!(
        r.lines,
        vec![
            s("[FAIL] B: 1/2 pairs"),
            s("       first failure: EWRAM diff: 4 bytes (first at 0x02000010)"),
            s("\nTotal: 3/4 pairs passed (1 failed)"),
        ]
    );
}

#[test]
fn replay_report_all_green_exits_zero() {
    let r = replay_report(&[(s("A"), vec![None])], true);
    assert_eq!(r.exit_code, 0);
    assert_eq!(r.lines, vec![s("[PASS] A: 1/1 pairs"), s("\nTotal: 1/1 pairs passed (0 failed)")]);
    let empty = replay_report(&[], false);
    assert_eq!(empty.lines, vec![s("\nTotal: 0/0 pairs passed (0 failed)")]);
}

#[test]
fn record_pair_numbers_per_function() {
    let mut log: Vec<(u32, usize)> = Vec::new();
    let a = record_pair(&mut log, 0x0800_0100, "Foo", "cache/r");
    let b = record_pair(&mut log, 0x0800_0200, "Bar", "cache/r");
    let c = record_pair(&mut log, 0x0800_0100, "Foo", "cache/r");
    assert_eq!((a.seq, b.seq, c.seq), (0, 0, 1));
    assert_eq!(a.fn_dir, "cache/r/Foo");
    assert_eq!(a.entry_path, "cache/r/Foo/0000.entry.bin");
    assert_eq!(c.exit_path, "cache/r/Foo/0001.exit.delta.bin");
    assert_eq!(b.entry_path, "cache/r/Bar/0000.entry.bin");
}

#[test]
fn record_names_and_lines() {
    let symbols = vec![(0x0800_0100u32, s("Foo")), (0x0800_0100u32, s("FooAlias"))];
    assert_eq!(display_name(&symbols, 0x0800_0100), "FooAlias");
    assert_eq!(display_name(&symbols, 0x0800_0104), "<unknown>");
    assert_eq!(
        capture_line(12, 3, true),
        "captured 12 target entries (3 dropped by dedup); waiting for phase 2 to drain..."
    );
    assert_eq!(capture_line(12, 3, false), "captured 12 target entries; waiting for phase 2 to drain...");
    assert_eq!(capture_line(12, 0, true), "captured 12 target entries; waiting for phase 2 to drain...");
    assert_eq!(wrote_line(10, "sess", 2), "wrote 10 pairs to sess (2 entries failed isolated run)");
    assert_eq!(isolated_failure_line("Foo", 7, "boom"), "  Foo #0007 isolated run failed: boom");
    assert_eq!(target_line(0x0800_00ab, "Foo"), "  0x080000AB  Foo");
}

#[test]
fn fleet_run_counts_and_reports() {
    let run = FleetRun::new();
    let (run, a) = fleet_step(run, FleetEvent::Recorded(s("demo1"), s("cache/o/b1")));
    assert!(matches!(a, FleetAction::Proceed));
    let (run, a) = fleet_step(run, FleetEvent::RecordsDone);
    assert_eq!(said(&a), Some(s("\n--- phase B: replay vs decomp ---")));
    let (run, _) = fleet_step(run, FleetEvent::FnSkipped);
    let (run, _) = fleet_step(run, FleetEvent::PairReplayed(true));
    let (run, _) = fleet_step(run, FleetEvent::PairReplayed(false));
    let (run, a) = fleet_step(run, FleetEvent::PassWriteFailed(s("demo1"), s("disk full")));
    assert_eq!(said(&a), Some(s("[demo1] write pair_pass: disk full")));
    assert_eq!(run.roots, vec![(s("demo1"), s("cache/o/b1"))]);
    assert_eq!((run.passed_pairs, run.failed_pairs, run.skipped_fns), (1, 1, 1));
    assert_eq!(fleet_final_line(&run), "\nverify-all: 1/2 pairs passed (1 failed); 1 fns trusted via incremental cache");
    assert_eq!(fleet_exit(&run), 1);
}

#[test]
fn fleet_run_all_trusted() {
    let run = FleetRun::new();
    let (run, _) = fleet_step(run, FleetEvent::RecordsDone);
    let (run, _) = fleet_step(run, FleetEvent::FnSkipped);
    let (run, _) = fleet_step(run, FleetEvent::FnSkipped);
    assert_eq!(fleet_final_line(&run), "\nverify-all: all 2 fns trusted via incremental cache (no pairs needed replay)");
    assert_eq!(fleet_exit(&run), 0);
}

#[test]
fn fleet_run_record_failure_stops() {
    let run = FleetRun::new();
    let (run, a) = fleet_step(run, FleetEvent::RecordFailed(s("demo2"), s("open cache: denied")));
    assert_eq!(said(&a), Some(s("[demo2] record failed: open cache: denied")));
    let (run, a) = fleet_step(run, FleetEvent::RecordsDone);
    match a {
        FleetAction::Stop(l, c) => {
            assert_eq!(l, "verify-all: one or more bk2 records failed");
            assert_eq!(c, 1);
        },
        _ => panic!("expected a stop"),
    }
    assert!(!run.replaying);
    assert_eq!(fleet_exit(&run), 1);
}

#[test]
fn fleet_run_setup_failure_stops() {
    let (run, a) = fleet_step(FleetRun::new(), FleetEvent::SetupFailed(no_symbol_message(0x0800_1234)));
    match a {
        FleetAction::Stop(l, c) => {
            assert_eq!(l, "target 0x08001234 has no symbol \u{2014} can't cache it");
            assert_eq!(c, 1);
        },
        _ => panic!("expected a stop"),
    }
    assert_eq!(fleet_exit(&run), 1);
}

#[test]
fn fleet_lines() {
    assert_eq!(phase_b_line(7, 3), "phase B: 7 pairs to run, 3 fns skipped via incremental cache");
    assert_eq!(session_line("demo1", 5, 2, 4), "[demo1] 5/7 pairs (2 failed; 4 fns skipped)");
}

fn start_run(addrs: Vec<u32>, names: Vec<String>) -> CacheRun {
    let (run, a) = CacheRun::start(s("demo1"), s("cache"), s("0123456789ab"), addrs, names);
    assert!(matches!(a, CacheAction::ReadInput));
    run
}

#[test]
fn cache_run_records_uncached_targets() {
    let run = start_run(vec![0x0800_0100, 0x0800_0200, 0x0800_0300], vec![s("Foo"), s("Bar"), s("Baz")]);
    let (run, a) = cache_step(run, CacheEvent::InputRead(b"abc".to_vec()));
    match a {
        CacheAction::MakeRoot(p) => assert_eq!(p, "cache/0123456789ab/a9993e364706"),
        _ => panic!("expected MakeRoot"),
    }
    let (run, a) = cache_step(run, CacheEvent::Done);
    assert!(matches!(a, CacheAction::Probe));
    let (run, a) = cache_step(run, CacheEvent::Probed(vec![false, true, false]));
    match a {
        CacheAction::Say(l) => assert_eq!(l, "[demo1] cache: 1 hit, 2 miss"),
        _ => panic!("expected Say"),
    }
    let (run, a) = cache_step(run, CacheEvent::Done);
    match a {
        CacheAction::Record(root, hex) => {
            assert_eq!(root, "cache/0123456789ab/a9993e364706");
            assert_eq!(hex, vec![s("08000100"), s("08000300")]);
        },
        _ => panic!("expected Record"),
    }
    let (run, a) = cache_step(run, CacheEvent::Done);
    match a {
        CacheAction::Mark(n) => assert_eq!(n, "Foo"),
        _ => panic!("expected Mark"),
    }
    let (run, a) = cache_step(run, CacheEvent::Done);
    match a {
        CacheAction::Mark(n) => assert_eq!(n, "Baz"),
        _ => panic!("expected Mark"),
    }
    let (run, a) = cache_step(run, CacheEvent::Done);
    assert!(matches!(a, CacheAction::ReadSymbols));
    let (run, a) = cache_step(run, CacheEvent::Done);
    match a {
        CacheAction::WriteGraph(p) => assert_eq!(p, "cache/0123456789ab/a9993e364706/callgraph.txt"),
        _ => panic!("expected WriteGraph"),
    }
    let (run, a) = cache_step(run, CacheEvent::Done);
    match a {
        CacheAction::Finish(r) => assert_eq!(r, Ok(s("cache/0123456789ab/a9993e364706"))),
        _ => panic!("expected Finish"),
    }
    assert!(run.stage == CacheStage::Finished);
    let (_, a) = cache_step(run, CacheEvent::Done);
    assert!(matches!(a, CacheAction::Ignore));
}

#[test]
fn cache_run_all_cached_finishes_after_report() {
    let run = start_run(vec![0x0800_0100], vec![s("Foo")]);
    let (run, _) = cache_step(run, CacheEvent::InputRead(b"abc".to_vec()));
    let (run, _) = cache_step(run, CacheEvent::Done);
    let (run, a) = cache_step(run, CacheEvent::Probed(vec![true]));
    match a {
        CacheAction::Say(l) => assert_eq!(l, "[demo1] cache: 1 hit, 0 miss"),
        _ => panic!("expected Say"),
    }
    let (_, a) = cache_step(run, CacheEvent::Done);
    match a {
        CacheAction::Finish(r) => assert_eq!(r, Ok(s("cache/0123456789ab/a9993e364706"))),
        _ => panic!("expected Finish"),
    }
}

#[test]
fn cache_run_errors() {
    let run = start_run(vec![0x0800_0100], vec![s("Foo")]);
    let (_, a) = cache_step(run, CacheEvent::Failed(s("no such file")));
    match a {
        CacheAction::Finish(r) => assert_eq!(r, Err(s("no such file"))),
        _ => panic!("expected Finish"),
    }

    let run = start_run(vec![0x0800_0100], vec![s("Foo")]);
    let (run, _) = cache_step(run, CacheEvent::InputRead(b"abc".to_vec()));
    let (_, a) = cache_step(run, CacheEvent::Failed(s("denied")));
    match a {
        CacheAction::Finish(r) => assert_eq!(r, Err(s("open cache: denied"))),
        _ => panic!("expected Finish"),
    }

    let run = start_run(vec![0x0800_0100], vec![s("Foo")]);
    let (run, _) = cache_step(run, CacheEvent::InputRead(b"abc".to_vec()));
    let (run, _) = cache_step(run, CacheEvent::Done);
    let (run, a) = cache_step(run, CacheEvent::Probed(vec![]));
    assert!(matches!(a, CacheAction::Ignore));
    let (run, _) = cache_step(run, CacheEvent::Probed(vec![false]));
    let (run, _) = cache_step(run, CacheEvent::Done);
    let (run, _) = cache_step(run, CacheEvent::Done);
    let (_, a) = cache_step(run, CacheEvent::Failed(s("read-only")));
    match a {
        CacheAction::Finish(r) => assert_eq!(r, Err(s("mark considered Foo: read-only"))),
        _ => panic!("expected Finish"),
    }

    let run = start_run(vec![0x0800_0100], vec![s("Foo")]);
    let (run, _) = cache_step(run, CacheEvent::InputRead(b"abc".to_vec()));
    let (run, _) = cache_step(run, CacheEvent::Done);
    let (run, _) = cache_step(run, CacheEvent::Probed(vec![false]));
    let (run, _) = cache_step(run, CacheEvent::Done);
    let (run, _) = cache_step(run, CacheEvent::Done);
    let (run, _) = cache_step(run, CacheEvent::Done);
    let (run, _) = cache_step(run, CacheEvent::Done);
    let (_, a) = cache_step(run, CacheEvent::Failed(s("full")));
    match a {
        CacheAction::Finish(r) => assert_eq!(r, Err(s("write callgraph: full"))),
        _ => panic!("expected Finish"),
    }
}
