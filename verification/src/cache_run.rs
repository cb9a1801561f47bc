//! The decisions of recording one bk2 through the cache, as a state
//! machine: hash the bk2 input, open its cache slice, split the targets
//! into cached and uncached ones, record the uncached ones, mark each as
//! considered, and write the call graph down. The caller does each piece
//! of outside work the machine asks for and reports how it went; the
//! machine answers with the next piece, or with the run's result.
use vstd::prelude::*;
use crate::cache::{join_spec, sha1_file_short, Bk2CacheDir};
use crate::compare::{push_all, push_str};
use crate::digests::sha1_digest;
use crate::hex::hex_chars;
use crate::num::{dec_chars, decimal};
use crate::radius::symbol_views;
use crate::record::{split_cached, target_hex_list, uncached_targets};
use crate::report::{hex_upper_chars, pad_left};
use crate::strorder::views;
use crate::text::string_of;

verus! {

/// The step a cache run is at.
#[derive(PartialEq, Eq, Structural)]
pub enum CacheStage {
    /// Waiting for the bk2 input's bytes.
    HashInput,
    /// Waiting for the cache slice to be created.
    OpenCache,
    /// Waiting for whether each target's slot is cached.
    Probe,
    /// Waiting for the hit/miss line to be printed.
    Report,
    /// Waiting for the record pass over the uncached targets.
    Record,
    /// Waiting for the considered marker of the uncached target at this index.
    Mark(usize),
    /// Waiting for the symbol table to be read again.
    ReadSymbols,
    /// Waiting for the call graph to be written.
    WriteGraph,
    /// The run has its result.
    Finished,
}

/// One bk2's cache run.
pub struct CacheRun {
    pub stem: String,
    pub cache_dir: String,
    pub orig_sha: String,
    pub addrs: Vec<u32>,
    pub names: Vec<String>,
    pub stage: CacheStage,
    /// The bk2's cache slice, once the input is hashed.
    pub root: String,
    /// Targets whose slot was already cached.
    pub hits: usize,
    /// Targets that need recording, in order.
    pub uncached: Vec<(u32, String)>,
}

/// The mathematical state of a cache run.
pub struct CacheState {
    pub stem: Seq<char>,
    pub cache_dir: Seq<char>,
    pub orig_sha: Seq<char>,
    pub addrs: Seq<u32>,
    pub names: Seq<Seq<char>>,
    pub stage: CacheStage,
    pub root: Seq<char>,
    pub hits: nat,
    pub uncached: Seq<(u32, Seq<char>)>,
}

impl View for CacheRun {
    type V = CacheState;

    open spec fn view(&self) -> CacheState {
        CacheState {
            stem: self.stem@,
            cache_dir: self.cache_dir@,
            orig_sha: self.orig_sha@,
            addrs: self.addrs@,
            names: views(self.names@),
            stage: self.stage,
            root: self.root@,
            hits: self.hits as nat,
            uncached: symbol_views(self.uncached@),
        }
    }
}

/// What the caller reports.
pub enum CacheEvent {
    /// The bk2 input's bytes.
    InputRead(Vec<u8>),
    /// The outside work asked for failed with this error.
    Failed(String),
    /// The outside work asked for is done.
    Done,
    /// For each target, in order, whether its slot is cached.
    Probed(Vec<bool>),
}

/// What the machine asks for next.
pub enum CacheAction {
    /// Read the bk2 input file.
    ReadInput,
    /// Create this directory and its parents.
    MakeRoot(String),
    /// Tell, for each target name in order, whether its slot is cached.
    Probe,
    /// Print this line.
    Say(String),
    /// Record these targets (`{addr:08X}`) into this cache root.
    Record(String, Vec<String>),
    /// Mark this function considered in the cache slice.
    Mark(String),
    /// Read the symbol table again.
    ReadSymbols,
    /// Write the named call graph to this file.
    WriteGraph(String),
    /// The run is over: the cache root, or why it failed.
    Finish(Result<String, String>),
    /// The event does not belong to this step; nothing changed.
    Ignore,
}

/// The mathematical view of a request.
pub enum CacheOut {
    ReadInput,
    MakeRoot(Seq<char>),
    Probe,
    Say(Seq<char>),
    Record(Seq<char>, Seq<Seq<char>>),
    Mark(Seq<char>),
    ReadSymbols,
    WriteGraph(Seq<char>),
    Finish(Result<Seq<char>, Seq<char>>),
    Ignore,
}

/// The view of a request.
pub open spec fn cache_action_view(a: CacheAction) -> CacheOut {
    match a {
        CacheAction::ReadInput => CacheOut::ReadInput,
        CacheAction::MakeRoot(p) => CacheOut::MakeRoot(p@),
        CacheAction::Probe => CacheOut::Probe,
        CacheAction::Say(l) => CacheOut::Say(l@),
        CacheAction::Record(r, t) => CacheOut::Record(r@, views(t@)),
        CacheAction::Mark(n) => CacheOut::Mark(n@),
        CacheAction::ReadSymbols => CacheOut::ReadSymbols,
        CacheAction::WriteGraph(p) => CacheOut::WriteGraph(p@),
        CacheAction::Finish(r) => CacheOut::Finish(
            match r {
                Ok(x) => Ok(x@),
                Err(x) => Err(x@),
            },
        ),
        CacheAction::Ignore => CacheOut::Ignore,
    }
}

/// `{addr:08X}` of each target.
pub open spec fn hex_targets(t: Seq<(u32, Seq<char>)>) -> Seq<Seq<char>> {
    t.map_values(|x: (u32, Seq<char>)| pad_left(hex_upper_chars(x.0 as nat), 8, '0'))
}

/// `[{stem}] cache: {hit} hit, {miss} miss`.
pub open spec fn cache_line_spec(stem: Seq<char>, hit: nat, miss: nat) -> Seq<char> {
    "["@ + stem + "] cache: "@ + dec_chars(hit) + " hit, "@ + dec_chars(miss) + " miss"@
}

/// `mark considered {name}: {error}`.
pub open spec fn mark_error_spec(name: Seq<char>, error: Seq<char>) -> Seq<char> {
    "mark considered "@ + name + ": "@ + error
}

/// `write callgraph: {error}`.
pub open spec fn graph_error_spec(error: Seq<char>) -> Seq<char> {
    "write callgraph: "@ + error
}

/// `open cache: {error}`.
pub open spec fn open_error_spec(error: Seq<char>) -> Seq<char> {
    "open cache: "@ + error
}

/// The number of targets: addresses and names are paired up to the
/// shorter list.
pub open spec fn target_count(s: CacheState) -> nat {
    if s.addrs.len() < s.names.len() {
        s.addrs.len()
    } else {
        s.names.len()
    }
}

/// The cache slice of a bk2 whose input holds `bytes`: the reference ROM's
/// hash, then the first 6 bytes of the input's SHA-1 in hex.
pub open spec fn bk2_root_spec(s: CacheState, bytes: Seq<u8>) -> Seq<char> {
    join_spec(join_spec(s.cache_dir, s.orig_sha), hex_chars(sha1_digest(bytes).take(6)))
}

/// The run with its result.
pub open spec fn finished(s: CacheState) -> CacheState {
    CacheState { stage: CacheStage::Finished, ..s }
}

/// One step of the machine.
pub open spec fn cache_step_spec(s: CacheState, e: CacheEvent) -> (CacheState, CacheOut) {
    let ignore = (s, CacheOut::Ignore);
    match s.stage {
        CacheStage::HashInput => match e {
            CacheEvent::InputRead(b) => {
                let root = bk2_root_spec(s, b@);
                (CacheState { stage: CacheStage::OpenCache, root, ..s }, CacheOut::MakeRoot(root))
            },
            CacheEvent::Failed(m) => (finished(s), CacheOut::Finish(Err(m@))),
            _ => ignore,
        },
        CacheStage::OpenCache => match e {
            CacheEvent::Done => (CacheState { stage: CacheStage::Probe, ..s }, CacheOut::Probe),
            CacheEvent::Failed(m) => (finished(s), CacheOut::Finish(Err(open_error_spec(m@)))),
            _ => ignore,
        },
        CacheStage::Probe => match e {
            CacheEvent::Probed(c) => if c@.len() >= target_count(s) {
                let u = uncached_targets(s.addrs, s.names, c@);
                let hits = (target_count(s) - u.len()) as nat;
                (
                    CacheState { stage: CacheStage::Report, hits, uncached: u, ..s },
                    CacheOut::Say(cache_line_spec(s.stem, hits, u.len())),
                )
            } else {
                ignore
            },
            _ => ignore,
        },
        CacheStage::Report => match e {
            CacheEvent::Done => if s.uncached.len() == 0 {
                (finished(s), CacheOut::Finish(Ok(s.root)))
            } else {
                (CacheState { stage: CacheStage::Record, ..s }, CacheOut::Record(s.root, hex_targets(s.uncached)))
            },
            _ => ignore,
        },
        CacheStage::Record => match e {
            CacheEvent::Done => (CacheState { stage: CacheStage::Mark(0), ..s }, CacheOut::Mark(s.uncached[0].1)),
            CacheEvent::Failed(m) => (finished(s), CacheOut::Finish(Err(m@))),
            _ => ignore,
        },
        CacheStage::Mark(i) => match e {
            CacheEvent::Done => if i + 1 < s.uncached.len() {
                (
                    CacheState { stage: CacheStage::Mark((i + 1) as usize), ..s },
                    CacheOut::Mark(s.uncached[i + 1].1),
                )
            } else {
                (CacheState { stage: CacheStage::ReadSymbols, ..s }, CacheOut::ReadSymbols)
            },
            CacheEvent::Failed(m) => (finished(s), CacheOut::Finish(Err(mark_error_spec(s.uncached[i as int].1, m@)))),
            _ => ignore,
        },
        CacheStage::ReadSymbols => match e {
            CacheEvent::Done => (
                CacheState { stage: CacheStage::WriteGraph, ..s },
                CacheOut::WriteGraph(join_spec(s.root, "callgraph.txt"@)),
            ),
            CacheEvent::Failed(m) => (finished(s), CacheOut::Finish(Err(m@))),
            _ => ignore,
        },
        CacheStage::WriteGraph => match e {
            CacheEvent::Done => (finished(s), CacheOut::Finish(Ok(s.root))),
            CacheEvent::Failed(m) => (finished(s), CacheOut::Finish(Err(graph_error_spec(m@)))),
            _ => ignore,
        },
        CacheStage::Finished => ignore,
    }
}

impl CacheRun {
    /// The run's invariant: a record or marking step has a target to work on.
    pub open spec fn wf(&self) -> bool {
        match self.stage {
            CacheStage::Record => self.uncached@.len() > 0,
            CacheStage::Mark(i) => i < self.uncached@.len(),
            _ => true,
        }
    }

    /// A run over the targets (addresses with their names) of one bk2; it
    /// first asks for the bk2 input.
    pub fn start(stem: String, cache_dir: String, orig_sha: String, addrs: Vec<u32>, names: Vec<String>) -> (r: (
        CacheRun,
        CacheAction,
    ))
        ensures
            r.0.wf(),
            r.0@ == (CacheState {
                stem: stem@,
                cache_dir: cache_dir@,
                orig_sha: orig_sha@,
                addrs: addrs@,
                names: views(names@),
                stage: CacheStage::HashInput,
                root: Seq::empty(),
                hits: 0,
                uncached: Seq::empty(),
            }),
            cache_action_view(r.1) == CacheOut::ReadInput,
    {
        let run = CacheRun {
            stem,
            cache_dir,
            orig_sha,
            addrs,
            names,
            stage: CacheStage::HashInput,
            root: string_of(Vec::<char>::new().as_slice()),
            hits: 0,
            uncached: Vec::new(),
        };
        assert(symbol_views(run.uncached@) =~= Seq::empty());
        (run, CacheAction::ReadInput)
    }
}

fn text(parts: Vec<char>) -> (s: String)
    ensures
        s@ == parts@,
{
    string_of(parts.as_slice())
}

fn prefixed(head: &str, rest: &str) -> (s: String)
    ensures
        s@ == head@ + rest@,
{
    let mut out: Vec<char> = Vec::new();
    push_str(&mut out, head);
    push_str(&mut out, rest);
    assert(out@ =~= head@ + rest@);
    text(out)
}

/// Takes one report of the caller into the run.
pub fn cache_step(s: CacheRun, e: CacheEvent) -> (r: (CacheRun, CacheAction))
    requires
        s.wf(),
    ensures
        r.0.wf(),
        (r.0@, cache_action_view(r.1)) == cache_step_spec(s@, e),
{
    let ghost s0 = s@;
    let ghost e0 = e;
    let mut s = s;
    match s.stage {
        CacheStage::HashInput => match e {
            CacheEvent::InputRead(b) => {
                let sha = sha1_file_short(b.as_slice());
                let dir = Bk2CacheDir::new(s.cache_dir.as_str(), s.orig_sha.as_str(), sha.as_str());
                s.root = dir.root;
                s.stage = CacheStage::OpenCache;
                let p = s.root.clone();
                (s, CacheAction::MakeRoot(p))
            },
            CacheEvent::Failed(m) => {
                s.stage = CacheStage::Finished;
                (s, CacheAction::Finish(Err(m)))
            },
            _ => (s, CacheAction::Ignore),
        },
        CacheStage::OpenCache => match e {
            CacheEvent::Done => {
                s.stage = CacheStage::Probe;
                (s, CacheAction::Probe)
            },
            CacheEvent::Failed(m) => {
                s.stage = CacheStage::Finished;
                let msg = prefixed("open cache: ", m.as_str());
                (s, CacheAction::Finish(Err(msg)))
            },
            _ => (s, CacheAction::Ignore),
        },
        CacheStage::Probe => match e {
            CacheEvent::Probed(c) => {
                let n = if s.addrs.len() < s.names.len() { s.addrs.len() } else { s.names.len() };
                if c.len() >= n {
                    let (hits, miss) = split_cached(s.addrs.as_slice(), s.names.as_slice(), c.as_slice());
                    let mut out: Vec<char> = Vec::new();
                    push_str(&mut out, "[");
                    push_str(&mut out, s.stem.as_str());
                    push_str(&mut out, "] cache: ");
                    push_all(&mut out, &decimal(hits as u64));
                    push_str(&mut out, " hit, ");
                    push_all(&mut out, &decimal(miss.len() as u64));
                    push_str(&mut out, " miss");
                    assert(out@ =~= cache_line_spec(s0.stem, hits as nat, miss@.len() as nat));
                    s.hits = hits;
                    s.uncached = miss;
                    s.stage = CacheStage::Report;
                    (s, CacheAction::Say(text(out)))
                } else {
                    (s, CacheAction::Ignore)
                }
            },
            _ => (s, CacheAction::Ignore),
        },
        CacheStage::Report => match e {
            CacheEvent::Done => {
                if s.uncached.len() == 0 {
                    s.stage = CacheStage::Finished;
                    let root = s.root.clone();
                    (s, CacheAction::Finish(Ok(root)))
                } else {
                    s.stage = CacheStage::Record;
                    let hex = target_hex_list(s.uncached.as_slice());
                    assert(views(hex@) =~= hex_targets(s0.uncached));
                    let root = s.root.clone();
                    (s, CacheAction::Record(root, hex))
                }
            },
            _ => (s, CacheAction::Ignore),
        },
        CacheStage::Record => match e {
            CacheEvent::Done => {
                s.stage = CacheStage::Mark(0);
                let name = s.uncached[0].1.clone();
                (s, CacheAction::Mark(name))
            },
            CacheEvent::Failed(m) => {
                s.stage = CacheStage::Finished;
                (s, CacheAction::Finish(Err(m)))
            },
            _ => (s, CacheAction::Ignore),
        },
        CacheStage::Mark(i) => match e {
            CacheEvent::Done => {
                let n = s.uncached.len();
                assert(i < n);
                if i < n - 1 {
                    s.stage = CacheStage::Mark(i + 1);
                    let name = s.uncached[i + 1].1.clone();
                    (s, CacheAction::Mark(name))
                } else {
                    s.stage = CacheStage::ReadSymbols;
                    (s, CacheAction::ReadSymbols)
                }
            },
            CacheEvent::Failed(m) => {
                let mut out: Vec<char> = Vec::new();
                push_str(&mut out, "mark considered ");
                push_str(&mut out, s.uncached[i].1.as_str());
                push_str(&mut out, ": ");
                push_str(&mut out, m.as_str());
                assert(out@ =~= mark_error_spec(s0.uncached[i as int].1, m@));
                s.stage = CacheStage::Finished;
                (s, CacheAction::Finish(Err(text(out))))
            },
            _ => (s, CacheAction::Ignore),
        },
        CacheStage::ReadSymbols => match e {
            CacheEvent::Done => {
                s.stage = CacheStage::WriteGraph;
                let p = Bk2CacheDir { root: s.root.clone() }.callgraph_path();
                (s, CacheAction::WriteGraph(p))
            },
            CacheEvent::Failed(m) => {
                s.stage = CacheStage::Finished;
                (s, CacheAction::Finish(Err(m)))
            },
            _ => (s, CacheAction::Ignore),
        },
        CacheStage::WriteGraph => match e {
            CacheEvent::Done => {
                s.stage = CacheStage::Finished;
                let root = s.root.clone();
                (s, CacheAction::Finish(Ok(root)))
            },
            CacheEvent::Failed(m) => {
                s.stage = CacheStage::Finished;
                let msg = prefixed("write callgraph: ", m.as_str());
                (s, CacheAction::Finish(Err(msg)))
            },
            _ => (s, CacheAction::Ignore),
        },
        CacheStage::Finished => (s, CacheAction::Ignore),
    }
}

} // verus!
