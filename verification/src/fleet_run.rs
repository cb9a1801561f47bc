//! The decisions of `verify-all`, the fleet orchestrator, as a state
//! machine. The caller does the outside work (reading the symbols, the
//! per-bk2 records, replaying pairs, writing the pass record) and reports
//! each outcome as an event; the machine answers with what to print and
//! whether to stop, and keeps the counts the closing lines are made of.
use vstd::prelude::*;
use crate::compare::{push_all, push_str};
use crate::num::{dec_chars, decimal};
use crate::report::{hex_upper, hex_upper_chars, pad_left};
use crate::text::string_of;

verus! {

/// Where a fleet run stands.
pub struct FleetRun {
    /// A setup step (symbols, targets, bk2 discovery, ROM hash) failed.
    pub setup_failed: bool,
    /// No bk2 record has failed so far.
    pub records_ok: bool,
    /// The replay phase has begun.
    pub replaying: bool,
    /// The cache roots of the bk2s recorded so far: stem and root.
    pub roots: Vec<(String, String)>,
    /// Functions trusted through the incremental cache.
    pub skipped_fns: usize,
    pub passed_pairs: usize,
    pub failed_pairs: usize,
}

/// The mathematical state of a fleet run.
pub struct FleetState {
    pub setup_failed: bool,
    pub records_ok: bool,
    pub replaying: bool,
    pub roots: Seq<(Seq<char>, Seq<char>)>,
    pub skipped_fns: nat,
    pub passed_pairs: nat,
    pub failed_pairs: nat,
}

/// What the caller reports.
pub enum FleetEvent {
    /// A setup step failed with this message.
    SetupFailed(String),
    /// A bk2 (its stem) was recorded into this cache root.
    Recorded(String, String),
    /// A bk2's record failed with this error.
    RecordFailed(String, String),
    /// Every bk2 has been recorded or has failed.
    RecordsDone,
    /// A function was trusted through the incremental cache.
    FnSkipped,
    /// A pair was replayed; whether it matched.
    PairReplayed(bool),
    /// Writing a session's pass record failed with this error.
    PassWriteFailed(String, String),
}

/// The machine's answer.
pub enum FleetAction {
    /// Nothing to print; go on.
    Proceed,
    /// Print this line on the error stream and go on.
    Say(String),
    /// Print this line on the error stream and exit with this status.
    Stop(String, i32),
}

/// The mathematical view of an answer.
pub enum FleetOut {
    Proceed,
    Say(Seq<char>),
    Stop(Seq<char>, i32),
}

/// The view of an answer.
pub open spec fn action_view(a: FleetAction) -> FleetOut {
    match a {
        FleetAction::Proceed => FleetOut::Proceed,
        FleetAction::Say(s) => FleetOut::Say(s@),
        FleetAction::Stop(s, c) => FleetOut::Stop(s@, c),
    }
}

/// The views of recorded roots.
pub open spec fn root_views(r: Seq<(String, String)>) -> Seq<(Seq<char>, Seq<char>)> {
    r.map_values(|x: (String, String)| (x.0@, x.1@))
}

impl View for FleetRun {
    type V = FleetState;

    open spec fn view(&self) -> FleetState {
        FleetState {
            setup_failed: self.setup_failed,
            records_ok: self.records_ok,
            replaying: self.replaying,
            roots: root_views(self.roots@),
            skipped_fns: self.skipped_fns as nat,
            passed_pairs: self.passed_pairs as nat,
            failed_pairs: self.failed_pairs as nat,
        }
    }
}

/// `[{stem}] record failed: {error}`.
pub open spec fn record_failed_line(stem: Seq<char>, error: Seq<char>) -> Seq<char> {
    "["@ + stem + "] record failed: "@ + error
}

/// `[{session}] write pair_pass: {error}`.
pub open spec fn pass_write_line(session: Seq<char>, error: Seq<char>) -> Seq<char> {
    "["@ + session + "] write pair_pass: "@ + error
}

/// The line that stops a run one of whose records failed.
pub open spec fn records_failed_line() -> Seq<char> {
    "verify-all: one or more bk2 records failed"@
}

/// The line that opens the replay phase.
pub open spec fn phase_b_banner() -> Seq<char> {
    "\n--- phase B: replay vs decomp ---"@
}

/// One step of the machine.
pub open spec fn fleet_step_spec(s: FleetState, e: FleetEvent) -> (FleetState, FleetOut) {
    match e {
        FleetEvent::SetupFailed(m) => (FleetState { setup_failed: true, ..s }, FleetOut::Stop(m@, 1)),
        FleetEvent::Recorded(stem, root) => (
            FleetState { roots: s.roots.push((stem@, root@)), ..s },
            FleetOut::Proceed,
        ),
        FleetEvent::RecordFailed(stem, err) => (
            FleetState { records_ok: false, ..s },
            FleetOut::Say(record_failed_line(stem@, err@)),
        ),
        FleetEvent::RecordsDone => if s.records_ok {
            (FleetState { replaying: true, ..s }, FleetOut::Say(phase_b_banner()))
        } else {
            (s, FleetOut::Stop(records_failed_line(), 1))
        },
        FleetEvent::FnSkipped => (FleetState { skipped_fns: s.skipped_fns + 1, ..s }, FleetOut::Proceed),
        FleetEvent::PairReplayed(ok) => if ok {
            (FleetState { passed_pairs: s.passed_pairs + 1, ..s }, FleetOut::Proceed)
        } else {
            (FleetState { failed_pairs: s.failed_pairs + 1, ..s }, FleetOut::Proceed)
        },
        FleetEvent::PassWriteFailed(session, err) => (s, FleetOut::Say(pass_write_line(session@, err@))),
    }
}

/// Whether the counts have room for the event.
pub open spec fn fleet_room(s: FleetState, e: FleetEvent) -> bool {
    match e {
        FleetEvent::FnSkipped => s.skipped_fns < usize::MAX,
        FleetEvent::PairReplayed(_) => s.passed_pairs + s.failed_pairs < usize::MAX,
        _ => true,
    }
}

/// A run before any work.
pub open spec fn fleet_start() -> FleetState {
    FleetState {
        setup_failed: false,
        records_ok: true,
        replaying: false,
        roots: Seq::empty(),
        skipped_fns: 0,
        passed_pairs: 0,
        failed_pairs: 0,
    }
}

/// The state after taking the events in order.
pub open spec fn fleet_after(s: FleetState, es: Seq<FleetEvent>) -> FleetState
    decreases es.len(),
{
    if es.len() == 0 {
        s
    } else {
        fleet_step_spec(fleet_after(s, es.drop_last()), es.last()).0
    }
}

/// Pairs reported as replayed with outcome `ok`.
pub open spec fn replayed(es: Seq<FleetEvent>, ok: bool) -> nat
    decreases es.len(),
{
    if es.len() == 0 {
        0
    } else {
        replayed(es.drop_last(), ok) + if es.last() == FleetEvent::PairReplayed(ok) {
            1nat
        } else {
            0nat
        }
    }
}

/// A failed setup step, a failed record or a pair that did not match.
pub open spec fn is_failure(e: FleetEvent) -> bool {
    match e {
        FleetEvent::SetupFailed(_) => true,
        FleetEvent::RecordFailed(_, _) => true,
        FleetEvent::PairReplayed(ok) => !ok,
        _ => false,
    }
}

/// Whether any of the events is a failure.
pub open spec fn failure_in(es: Seq<FleetEvent>) -> bool
    decreases es.len(),
{
    es.len() > 0 && (failure_in(es.drop_last()) || is_failure(es.last()))
}

/// The exit status a state calls for.
pub open spec fn fleet_status(s: FleetState) -> i32 {
    if s.setup_failed || !s.records_ok || s.failed_pairs > 0 {
        1
    } else {
        0
    }
}

/// The fleet run reports pass and fail in one place: after any sequence of
/// events from the start, the pass and fail counts are the numbers of pairs
/// reported as matching and as not matching, and the run's status is 1
/// exactly when some setup step, some bk2 record or some pair failed.
pub proof fn lemma_fleet_status(es: Seq<FleetEvent>)
    ensures
        fleet_after(fleet_start(), es).passed_pairs == replayed(es, true),
        fleet_after(fleet_start(), es).failed_pairs == replayed(es, false),
        fleet_status(fleet_after(fleet_start(), es)) == (if failure_in(es) { 1i32 } else { 0i32 }),
    decreases es.len(),
{
    if es.len() > 0 {
        lemma_fleet_status(es.drop_last());
    }
}

impl FleetRun {
    /// The run's invariant: the total of replayed pairs fits a `usize`.
    pub open spec fn wf(&self) -> bool {
        self.passed_pairs + self.failed_pairs <= usize::MAX
    }

    /// A run before any work: nothing failed, nothing recorded or replayed.
    pub fn new() -> (r: FleetRun)
        ensures
            r.wf(),
            r@ == fleet_start(),
    {
        let r = FleetRun {
            setup_failed: false,
            records_ok: true,
            replaying: false,
            roots: Vec::new(),
            skipped_fns: 0,
            passed_pairs: 0,
            failed_pairs: 0,
        };
        assert(root_views(r.roots@) =~= Seq::empty());
        r
    }
}

fn line(parts: Vec<char>) -> (s: String)
    ensures
        s@ == parts@,
{
    string_of(parts.as_slice())
}

/// Takes one event into the run.
pub fn fleet_step(s: FleetRun, e: FleetEvent) -> (r: (FleetRun, FleetAction))
    requires
        s.wf(),
        fleet_room(s@, e),
    ensures
        r.0.wf(),
        (r.0@, action_view(r.1)) == fleet_step_spec(s@, e),
{
    let ghost e0 = e;
    let mut s = s;
    let ghost s0 = s@;
    match e {
        FleetEvent::SetupFailed(m) => {
            s.setup_failed = true;
            (s, FleetAction::Stop(m, 1))
        },
        FleetEvent::Recorded(stem, root) => {
            s.roots.push((stem, root));
            assert(root_views(s.roots@) =~= s0.roots.push((e0->Recorded_0@, e0->Recorded_1@)));
            (s, FleetAction::Proceed)
        },
        FleetEvent::RecordFailed(stem, err) => {
            s.records_ok = false;
            let mut out: Vec<char> = Vec::new();
            push_str(&mut out, "[");
            push_str(&mut out, stem.as_str());
            push_str(&mut out, "] record failed: ");
            push_str(&mut out, err.as_str());
            assert(out@ =~= record_failed_line(stem@, err@));
            (s, FleetAction::Say(line(out)))
        },
        FleetEvent::RecordsDone => {
            if s.records_ok {
                s.replaying = true;
                let mut out: Vec<char> = Vec::new();
                push_str(&mut out, "\n--- phase B: replay vs decomp ---");
                (s, FleetAction::Say(line(out)))
            } else {
                let mut out: Vec<char> = Vec::new();
                push_str(&mut out, "verify-all: one or more bk2 records failed");
                (s, FleetAction::Stop(line(out), 1))
            }
        },
        FleetEvent::FnSkipped => {
            s.skipped_fns = s.skipped_fns + 1;
            (s, FleetAction::Proceed)
        },
        FleetEvent::PairReplayed(ok) => {
            if ok {
                s.passed_pairs = s.passed_pairs + 1;
            } else {
                s.failed_pairs = s.failed_pairs + 1;
            }
            (s, FleetAction::Proceed)
        },
        FleetEvent::PassWriteFailed(session, err) => {
            let mut out: Vec<char> = Vec::new();
            push_str(&mut out, "[");
            push_str(&mut out, session.as_str());
            push_str(&mut out, "] write pair_pass: ");
            push_str(&mut out, err.as_str());
            assert(out@ =~= pass_write_line(session@, err@));
            (s, FleetAction::Say(line(out)))
        },
    }
}

/// The exit status of a finished run: 1 when setup or a record failed or a
/// replayed pair did not match, else 0.
pub fn fleet_exit(s: &FleetRun) -> (code: i32)
    ensures
        code == (if s.setup_failed || !s.records_ok || s.failed_pairs > 0 { 1i32 } else { 0i32 }),
        code == fleet_status(s@),
{
    if s.setup_failed || !s.records_ok || s.failed_pairs > 0 {
        1
    } else {
        0
    }
}

/// The closing line of a run: the pass count over the replayed pairs and
/// the functions the cache vouched for, or only the latter when nothing
/// needed replay.
pub open spec fn fleet_final_spec(s: FleetState) -> Seq<char> {
    let n = s.passed_pairs + s.failed_pairs;
    if n == 0 {
        "\nverify-all: all "@ + dec_chars(s.skipped_fns) + " fns trusted via incremental cache (no pairs needed replay)"@
    } else {
        "\nverify-all: "@ + dec_chars(s.passed_pairs) + "/"@ + dec_chars(n) + " pairs passed ("@ + dec_chars(
            s.failed_pairs,
        ) + " failed); "@ + dec_chars(s.skipped_fns) + " fns trusted via incremental cache"@
    }
}

/// The closing line printed on the output stream.
pub fn fleet_final_line(s: &FleetRun) -> (r: String)
    requires
        s.wf(),
    ensures
        r@ == fleet_final_spec(s@),
{
    let mut out: Vec<char> = Vec::new();
    let n = s.passed_pairs + s.failed_pairs;
    if n == 0 {
        push_str(&mut out, "\nverify-all: all ");
        push_all(&mut out, &decimal(s.skipped_fns as u64));
        push_str(&mut out, " fns trusted via incremental cache (no pairs needed replay)");
    } else {
        push_str(&mut out, "\nverify-all: ");
        push_all(&mut out, &decimal(s.passed_pairs as u64));
        push_str(&mut out, "/");
        push_all(&mut out, &decimal(n as u64));
        push_str(&mut out, " pairs passed (");
        push_all(&mut out, &decimal(s.failed_pairs as u64));
        push_str(&mut out, " failed); ");
        push_all(&mut out, &decimal(s.skipped_fns as u64));
        push_str(&mut out, " fns trusted via incremental cache");
    }
    assert(out@ =~= fleet_final_spec(s@));
    line(out)
}

/// `phase B: {pairs} pairs to run, {skipped} fns skipped via incremental cache`.
pub open spec fn phase_b_line_spec(pairs: nat, skipped: nat) -> Seq<char> {
    "phase B: "@ + dec_chars(pairs) + " pairs to run, "@ + dec_chars(skipped) + " fns skipped via incremental cache"@
}

/// The line announcing the replay work left after the cache lookups.
pub fn phase_b_line(pairs: usize, skipped: usize) -> (r: String)
    ensures
        r@ == phase_b_line_spec(pairs as nat, skipped as nat),
{
    let mut out: Vec<char> = Vec::new();
    push_str(&mut out, "phase B: ");
    push_all(&mut out, &decimal(pairs as u64));
    push_str(&mut out, " pairs to run, ");
    push_all(&mut out, &decimal(skipped as u64));
    push_str(&mut out, " fns skipped via incremental cache");
    assert(out@ =~= phase_b_line_spec(pairs as nat, skipped as nat));
    line(out)
}

/// `[{name}] {pass}/{pass + fail} pairs ({fail} failed; {skipped} fns skipped)`.
pub open spec fn session_line_spec(name: Seq<char>, pass: nat, fail: nat, skipped: nat) -> Seq<char> {
    "["@ + name + "] "@ + dec_chars(pass) + "/"@ + dec_chars(pass + fail) + " pairs ("@ + dec_chars(fail)
        + " failed; "@ + dec_chars(skipped) + " fns skipped)"@
}

/// The per-session line of a run.
pub fn session_line(name: &str, pass: usize, fail: usize, skipped: usize) -> (r: String)
    requires
        pass + fail <= usize::MAX,
    ensures
        r@ == session_line_spec(name@, pass as nat, fail as nat, skipped as nat),
{
    let mut out: Vec<char> = Vec::new();
    push_str(&mut out, "[");
    push_str(&mut out, name);
    push_str(&mut out, "] ");
    push_all(&mut out, &decimal(pass as u64));
    push_str(&mut out, "/");
    push_all(&mut out, &decimal((pass + fail) as u64));
    push_str(&mut out, " pairs (");
    push_all(&mut out, &decimal(fail as u64));
    push_str(&mut out, " failed; ");
    push_all(&mut out, &decimal(skipped as u64));
    push_str(&mut out, " fns skipped)");
    assert(out@ =~= session_line_spec(name@, pass as nat, fail as nat, skipped as nat));
    line(out)
}

/// `target 0x{addr:08X} has no symbol — can't cache it`.
pub open spec fn no_symbol_spec(addr: u32) -> Seq<char> {
    "target 0x"@ + pad_left(hex_upper_chars(addr as nat), 8, '0') + " has no symbol \u{2014} can't cache it"@
}

/// The message refusing a target the symbol table does not name.
pub fn no_symbol_message(addr: u32) -> (r: String)
    ensures
        r@ == no_symbol_spec(addr),
{
    let mut out: Vec<char> = Vec::new();
    push_str(&mut out, "target 0x");
    push_all(&mut out, &hex_upper(addr as u64, 8));
    push_str(&mut out, " has no symbol \u{2014} can't cache it");
    assert(out@ =~= no_symbol_spec(addr));
    line(out)
}

} // verus!
