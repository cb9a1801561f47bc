//! The per-instruction function tracker.
//!
//! After every executed instruction the emulator reports the raw PC
//! register and CPSR. The tracker recovers the address of the instruction
//! just executed, detects branches, and classifies a branch that lands on a
//! known function entry as a hit, and as a call when it came from outside
//! the function's body. For calls it asks the emulator for the instruction
//! at the branch source, to tell BL calls (which set a useful return
//! address) from plain branches; BL calls are pushed on a bounded stack of
//! pending returns, and a later branch to the top return address counts as
//! the function's exit. In record mode, calls of target functions are
//! offered for snapshot capture, capped per target and optionally
//! deduplicated by a fingerprint of the captured state.
//!
//! The emulator work (reading the bus, capturing snapshots, fingerprinting
//! them) is the caller's: each method returns the next thing to do.
use vstd::prelude::*;
use std::collections::{HashMap, HashSet};
use vstd::std_specs::iter::IteratorSpec;
use crate::entries::{EntryBitset, fn_end_table, is_body_end};

verus! {

broadcast use vstd::std_specs::hash::group_hash_axioms;

/// Bound on the pending-return stack.
pub const PENDING_MAX: usize = 4096;

/// Default per-target capture cap in record mode.
pub const DEFAULT_PER_TARGET_CAP: usize = 50;

/// A count in a map of counts; absent keys count as zero.
pub open spec fn count_of(m: Map<u32, u64>, k: u32) -> int {
    if m.contains_key(k) {
        m[k] as int
    } else {
        0
    }
}

/// `m` with the count of `k` incremented.
pub open spec fn bumped(m: Map<u32, u64>, k: u32) -> Map<u32, u64> {
    m.insert(k, (count_of(m, k) + 1) as u64)
}

/// A count in a map of `usize` counts; absent keys count as zero.
pub open spec fn ucount_of(m: Map<u32, usize>, k: u32) -> int {
    if m.contains_key(k) {
        m[k] as int
    } else {
        0
    }
}

/// `m` with the `usize` count of `k` incremented.
pub open spec fn ubumped(m: Map<u32, usize>, k: u32) -> Map<u32, usize> {
    m.insert(k, (ucount_of(m, k) + 1) as usize)
}

/// Number of pending returns that belong to function `f`.
pub open spec fn pending_count(s: Seq<(u32, u32)>, f: u32) -> int
    decreases s.len(),
{
    if s.len() == 0 {
        0
    } else {
        pending_count(s.drop_last(), f) + if s.last().1 == f {
            1int
        } else {
            0int
        }
    }
}

/// Sum of the counts of the keys listed in `ks`.
pub open spec fn sum_over(ks: Seq<u32>, m: Map<u32, u64>) -> int
    decreases ks.len(),
{
    if ks.len() == 0 {
        0
    } else {
        sum_over(ks.drop_last(), m) + count_of(m, ks.last())
    }
}

/// Address of the instruction just executed, from the raw PC register
/// (one fetch ahead) and CPSR (bit 5 = Thumb).
pub open spec fn executed_pc(pc_reg: u32, cpsr: u32) -> u32 {
    vstd::wrapping::u32_specs::wrapping_sub(pc_reg, instr_len(cpsr))
}

/// Instruction width in bytes for the given CPSR: 2 in Thumb state, else 4.
pub open spec fn instr_len(cpsr: u32) -> u32 {
    if cpsr & 0x20 != 0 {
        2
    } else {
        4
    }
}

/// True when the instruction word read at a call source is a BL (or the
/// branching second half of a Thumb BL pair).
pub open spec fn is_bl_word(word: u32, thumb: bool) -> bool {
    if thumb {
        ((word as u16) >> 11u16) == 0x1Fu16
    } else {
        ((word >> 24u32) & 0xFu32) == 0xBu32
    }
}

/// What the tracker waits for between calls.
#[derive(Clone, Copy, PartialEq, Eq, Debug)]
pub enum Awaiting {
    /// Ready for the next instruction.
    Nothing,
    /// A call into `entry` was seen; the instruction at its source is needed.
    CallSite { entry: u32, thumb: bool },
    /// A call of target `fn_addr` was offered for capture.
    Capture { fn_addr: u32 },
}

/// 1 if the tracker is waiting on a call into `f`, else 0.
pub open spec fn awaiting_on(a: Awaiting, f: u32) -> int {
    match a {
        Awaiting::Nothing => 0,
        Awaiting::CallSite { entry, .. } => if entry == f {
            1
        } else {
            0
        },
        Awaiting::Capture { fn_addr } => if fn_addr == f {
            1
        } else {
            0
        },
    }
}

/// 1 if the tracker waits on the call-site read of a call into `f`, else 0.
pub open spec fn awaiting_site_of(a: Awaiting, f: u32) -> int {
    match a {
        Awaiting::CallSite { entry, .. } => if entry == f {
            1
        } else {
            0
        },
        _ => 0,
    }
}

/// Next step after an instruction was observed.
#[derive(Clone, Copy, PartialEq, Eq, Debug)]
pub enum StepAction {
    /// Nothing more to do for this instruction.
    Continue,
    /// Read the instruction at `site` (16 bits in Thumb state, else 32) and
    /// hand it to `resolve_call_site`.
    InspectCallSite { site: u32, thumb: bool },
}

/// Next step after a call site was resolved.
#[derive(Clone, Copy, PartialEq, Eq, Debug)]
pub enum CallAction {
    /// Nothing more to do for this instruction.
    Continue,
    /// Capture an entry snapshot for target `fn_addr`, whose return address
    /// is `return_addr`, and hand its fingerprint to `settle_capture`.
    Capture { fn_addr: u32, return_addr: u32 },
}

/// The tracker's state. See the module documentation.
pub struct Tracker {
    entries: EntryBitset,
    fn_end: HashMap<u32, u32>,
    hits: HashMap<u32, u64>,
    fired: Vec<u32>,
    calls: HashMap<u32, u64>,
    exits: HashMap<u32, u64>,
    callgraph: HashMap<u32, HashSet<u32>>,
    pending: Vec<(u32, u32)>,
    last_true_pc: u32,
    targets: HashSet<u32>,
    per_target_cap: usize,
    dedup: bool,
    seen: HashMap<u32, HashSet<u64>>,
    dedup_skipped: usize,
    captured: HashMap<u32, usize>,
    observed: u64,
    awaiting: Awaiting,
    hit_total: Ghost<int>,
}

impl Tracker {
    /// Entry membership as the tracker's lookup table answers it.
    pub closed spec fn is_entry(self, pc: u32) -> bool {
        self.entries.spec_contains(pc)
    }

    /// Body-end table: entry -> exclusive end of its body.
    pub closed spec fn fn_end_view(self) -> Map<u32, u32> {
        self.fn_end@
    }

    /// Branch-into-entry counts per entry (loop iterations included).
    pub closed spec fn hits_view(self) -> Map<u32, u64> {
        self.hits@
    }

    /// Call counts per entry: branches into an entry from outside its body.
    pub closed spec fn calls_view(self) -> Map<u32, u64> {
        self.calls@
    }

    /// Matched-return counts per function.
    pub closed spec fn exits_view(self) -> Map<u32, u64> {
        self.exits@
    }

    /// Call-graph edges: caller entry -> set of callee entries.
    pub closed spec fn callgraph_view(self) -> Map<u32, HashSet<u32>> {
        self.callgraph@
    }

    /// The pending-return stack, (return address, function) pairs.
    pub closed spec fn pending_view(self) -> Seq<(u32, u32)> {
        self.pending@
    }

    /// Address of the last executed instruction.
    pub closed spec fn last_pc_view(self) -> u32 {
        self.last_true_pc
    }

    /// Record-mode target functions.
    pub closed spec fn targets_view(self) -> Set<u32> {
        self.targets@
    }

    /// Per-target capture cap (0 = uncapped).
    pub closed spec fn cap_view(self) -> usize {
        self.per_target_cap
    }

    /// Whether captured entries are deduplicated by fingerprint.
    pub closed spec fn dedup_view(self) -> bool {
        self.dedup
    }

    /// Fingerprints already kept, per target.
    pub closed spec fn seen_view(self) -> Map<u32, HashSet<u64>> {
        self.seen@
    }

    /// Number of captures dropped as duplicates.
    pub closed spec fn skipped_view(self) -> usize {
        self.dedup_skipped
    }

    /// Number of captures kept, per target.
    pub closed spec fn captured_view(self) -> Map<u32, usize> {
        self.captured@
    }

    /// Number of instructions observed.
    pub closed spec fn observed_view(self) -> u64 {
        self.observed
    }

    /// What the tracker waits for.
    pub closed spec fn awaiting_view(self) -> Awaiting {
        self.awaiting
    }

    /// The tracker's invariant.
    pub closed spec fn wf(self) -> bool {
        &&& self.pending@.len() <= PENDING_MAX
        &&& forall|i: int| 0 <= i < self.pending@.len() ==> self.entries.spec_contains(
            #[trigger] self.pending@[i].1,
        )
        &&& forall|f: u32| #[trigger] self.hits@.contains_key(f) ==> self.entries.spec_contains(f)
            && self.hits@[f] >= 1
        &&& self.fired@.no_duplicates()
        &&& forall|f: u32| self.hits@.contains_key(f) <==> #[trigger] self.fired@.contains(f)
        &&& forall|f: u32| #[trigger]
            count_of(self.calls@, f) <= count_of(self.hits@, f)
        &&& forall|f: u32| #[trigger]
            count_of(self.exits@, f) + pending_count(self.pending@, f) + awaiting_site_of(
                self.awaiting,
                f,
            ) <= count_of(self.calls@, f)
        &&& forall|f: u32| #[trigger]
            ucount_of(self.captured@, f) + awaiting_on(self.awaiting, f) <= count_of(
                self.calls@,
                f,
            )
        &&& forall|f: u32|
            self.per_target_cap > 0 ==> #[trigger] ucount_of(self.captured@, f) + (
            match self.awaiting {
                Awaiting::Capture { fn_addr } => if fn_addr == f {
                    1int
                } else {
                    0int
                },
                _ => 0int,
            }) <= self.per_target_cap
        &&& forall|f: u32| #[trigger]
            self.captured@.contains_key(f) ==> self.targets@.contains(f)
        &&& forall|c: u32| #[trigger]
            self.callgraph@.contains_key(c) ==> self.entries.spec_contains(c) && forall|x: u32|
                #[trigger] self.callgraph@[c]@.contains(x) ==> self.entries.spec_contains(x)
        &&& match self.awaiting {
            Awaiting::Nothing => true,
            Awaiting::CallSite { entry, .. } => self.entries.spec_contains(entry),
            Awaiting::Capture { fn_addr } => self.targets@.contains(fn_addr)
                && self.entries.spec_contains(fn_addr),
        }
        &&& self.dedup_skipped + (if self.awaiting == Awaiting::Nothing {
            0int
        } else {
            1int
        }) <= self.observed
        &&& self.hit_total@ <= self.observed
        &&& self.observed <= usize::MAX
        &&& forall|ks: Seq<u32>| #[trigger]
            ks.no_duplicates() ==> sum_over(ks, self.hits@) <= self.hit_total@
    }

    /// Whether the tracker is ready for the next instruction.
    pub fn is_idle(&self) -> (r: bool)
        ensures
            r == (self.awaiting_view() == Awaiting::Nothing),
    {
        match self.awaiting {
            Awaiting::Nothing => true,
            _ => false,
        }
    }

    /// Number of instructions observed so far.
    pub fn observed(&self) -> (r: u64)
        ensures
            r == self.observed_view(),
    {
        self.observed
    }

    /// Current depth of the pending-return stack.
    pub fn pending_len(&self) -> (r: usize)
        ensures
            r == self.pending_view().len(),
    {
        self.pending.len()
    }

    /// Number of captures dropped as duplicates.
    pub fn dedup_skipped(&self) -> (r: usize)
        ensures
            r == self.skipped_view(),
    {
        self.dedup_skipped
    }
}

/// `after` is `before` with edge `c -> x` added.
pub open spec fn edge_added(before: Map<u32, HashSet<u32>>, after: Map<u32, HashSet<u32>>, c: u32, x: u32) -> bool {
    &&& after.dom() == before.dom().insert(c)
    &&& forall|k: u32| k != c && #[trigger] before.contains_key(k) ==> after[k] == before[k]
    &&& after[c]@ == (if before.contains_key(c) {
        before[c]@
    } else {
        Set::<u32>::empty()
    }).insert(x)
}

/// `after` is `before` with fingerprint `h` added to the set of `f`.
pub open spec fn key_added(before: Map<u32, HashSet<u64>>, after: Map<u32, HashSet<u64>>, f: u32, h: u64) -> bool {
    &&& after.dom() == before.dom().insert(f)
    &&& forall|k: u32| k != f && #[trigger] before.contains_key(k) ==> after[k] == before[k]
    &&& after[f]@ == (if before.contains_key(f) {
        before[f]@
    } else {
        Set::<u64>::empty()
    }).insert(h)
}

proof fn lemma_sum_bump_absent(ks: Seq<u32>, m: Map<u32, u64>, k: u32)
    requires
        !ks.contains(k),
    ensures
        sum_over(ks, bumped(m, k)) == sum_over(ks, m),
    decreases ks.len(),
{
    if ks.len() > 0 {
        assert(!ks.drop_last().contains(k)) by {
            if ks.drop_last().contains(k) {
                let i = choose|i: int| 0 <= i < ks.drop_last().len() && ks.drop_last()[i] == k;
                assert(ks[i] == k);
            }
        }
        lemma_sum_bump_absent(ks.drop_last(), m, k);
        assert(ks.last() != k) by {
            assert(ks[ks.len() - 1] == ks.last());
        }
    }
}

proof fn lemma_sum_bump(ks: Seq<u32>, m: Map<u32, u64>, k: u32)
    requires
        ks.no_duplicates(),
    ensures
        sum_over(ks, bumped(m, k)) <= sum_over(ks, m) + 1,
    decreases ks.len(),
{
    if ks.len() > 0 {
        let init = ks.drop_last();
        assert(init.no_duplicates());
        if ks.last() == k {
            assert(!init.contains(k)) by {
                if init.contains(k) {
                    let i = choose|i: int| 0 <= i < init.len() && init[i] == k;
                    assert(ks[i] == ks[ks.len() - 1]);
                }
            }
            lemma_sum_bump_absent(init, m, k);
        } else {
            lemma_sum_bump(init, m, k);
        }
    }
}

proof fn lemma_count_within_sum(m: Map<u32, u64>, k: u32)
    ensures
        seq![k].no_duplicates(),
        sum_over(seq![k], m) == count_of(m, k),
{
    assert(seq![k].drop_last() =~= Seq::<u32>::empty());
    assert(sum_over(Seq::<u32>::empty(), m) == 0);
    assert(seq![k].last() == k);
}

proof fn lemma_pending_push(s: Seq<(u32, u32)>, e: (u32, u32), f: u32)
    ensures
        pending_count(s.push(e), f) == pending_count(s, f) + if e.1 == f {
            1int
        } else {
            0int
        },
{
    assert(s.push(e).drop_last() =~= s);
}

impl Tracker {
    /// A fresh tracker for the given function entries. `targets`,
    /// `per_target_cap` (0 = uncapped) and `dedup` configure record mode;
    /// an empty target list is plain tracking.
    pub fn new(entry_addrs: &[u32], targets: &[u32], per_target_cap: usize, dedup: bool) -> (t: Self)
        ensures
            t.wf(),
            forall|pc: u32| t.is_entry(pc) <==> crate::entries::slot_listed(entry_addrs@, pc),
            forall|a: u32| t.fn_end_view().contains_key(a) <==> entry_addrs@.contains(a),
            forall|a: u32| #[trigger]
                t.fn_end_view().contains_key(a) ==> is_body_end(entry_addrs@, a, t.fn_end_view()[a]),
            t.hits_view() == Map::<u32, u64>::empty(),
            t.calls_view() == Map::<u32, u64>::empty(),
            t.exits_view() == Map::<u32, u64>::empty(),
            t.callgraph_view() == Map::<u32, HashSet<u32>>::empty(),
            t.pending_view() == Seq::<(u32, u32)>::empty(),
            t.last_pc_view() == 0,
            forall|x: u32| t.targets_view().contains(x) <==> targets@.contains(x),
            t.cap_view() == per_target_cap,
            t.dedup_view() == dedup,
            t.seen_view() == Map::<u32, HashSet<u64>>::empty(),
            t.skipped_view() == 0,
            t.captured_view() == Map::<u32, usize>::empty(),
            t.observed_view() == 0,
            t.awaiting_view() == Awaiting::Nothing,
    {
        let entries = EntryBitset::from_addrs(entry_addrs);
        let fn_end = fn_end_table(entry_addrs);
        let mut tset: HashSet<u32> = HashSet::new();
        let mut i: usize = 0;
        while i < targets.len()
            invariant
                i <= targets.len(),
                forall|x: u32| tset@.contains(x) <==> targets@.subrange(0, i as int).contains(x),
            decreases targets.len() - i,
        {
            let ghost before = tset@;
            tset.insert(targets[i]);
            proof {
                crate::seq_facts::lemma_prefix_push(targets@, i as int);
                assert forall|x: u32| tset@.contains(x) <==> targets@.subrange(0, i as int + 1).contains(x) by {
                    crate::seq_facts::lemma_push_contains(targets@.subrange(0, i as int), targets@[i as int], x);
                }
            }
            i = i + 1;
        }
        assert(targets@.subrange(0, targets.len() as int) =~= targets@);
        let t = Tracker {
            entries,
            fn_end,
            hits: HashMap::new(),
            fired: Vec::new(),
            calls: HashMap::new(),
            exits: HashMap::new(),
            callgraph: HashMap::new(),
            pending: Vec::new(),
            last_true_pc: 0,
            targets: tset,
            per_target_cap,
            dedup,
            seen: HashMap::new(),
            dedup_skipped: 0,
            captured: HashMap::new(),
            observed: 0,
            awaiting: Awaiting::Nothing,
            hit_total: Ghost(0),
        };
        assert forall|ks: Seq<u32>| #[trigger] ks.no_duplicates() implies sum_over(ks, t.hits@) <= 0 by {
            lemma_sum_empty(ks);
        }
        t
    }
}

proof fn lemma_pending_nonneg(s: Seq<(u32, u32)>, f: u32)
    ensures
        pending_count(s, f) >= 0,
    decreases s.len(),
{
    if s.len() > 0 {
        lemma_pending_nonneg(s.drop_last(), f);
    }
}

proof fn lemma_sum_empty(ks: Seq<u32>)
    ensures
        sum_over(ks, Map::<u32, u64>::empty()) == 0,
    decreases ks.len(),
{
    if ks.len() > 0 {
        lemma_sum_empty(ks.drop_last());
    }
}

fn bump(m: &mut HashMap<u32, u64>, k: u32)
    requires
        count_of(old(m)@, k) < u64::MAX,
    ensures
        final(m)@ == bumped(old(m)@, k),
{
    let c: u64 = match m.get(&k) {
        Some(v) => *v,
        None => 0,
    };
    m.insert(k, c + 1);
}

fn ubump(m: &mut HashMap<u32, usize>, k: u32)
    requires
        ucount_of(old(m)@, k) < usize::MAX,
    ensures
        final(m)@ == ubumped(old(m)@, k),
{
    let c: usize = match m.get(&k) {
        Some(v) => *v,
        None => 0,
    };
    m.insert(k, c + 1);
}

impl Tracker {
    /// Observe one executed instruction, given the raw PC register (one
    /// fetch ahead) and the CPSR. See the module documentation for the
    /// classification; `InspectCallSite` asks for the instruction at the
    /// branch source.
    pub fn step(&mut self, pc_reg: u32, cpsr: u32) -> (a: StepAction)
        requires
            old(self).wf(),
            old(self).awaiting_view() == Awaiting::Nothing,
            old(self).observed_view() < usize::MAX,
        ensures
            final(self).wf(),
            ({
                let o = *old(self);
                let n = *final(self);
                let t = executed_pc(pc_reg, cpsr);
                let last = o.last_pc_view();
                let branch = t != vstd::wrapping::u32_specs::wrapping_add(last, instr_len(cpsr));
                let popped = o.pending_view().len() > 0 && o.pending_view().last().0 == t;
                let internal = o.fn_end_view().contains_key(t) && last >= t && last < o.fn_end_view()[t];
                &&& n.last_pc_view() == t
                &&& n.observed_view() == o.observed_view() + 1
                &&& n.is_entry(t) == o.is_entry(t)
                &&& (forall|pc: u32| n.is_entry(pc) == o.is_entry(pc))
                &&& n.fn_end_view() == o.fn_end_view()
                &&& n.callgraph_view() == o.callgraph_view()
                &&& n.targets_view() == o.targets_view()
                &&& n.cap_view() == o.cap_view()
                &&& n.dedup_view() == o.dedup_view()
                &&& n.seen_view() == o.seen_view()
                &&& n.skipped_view() == o.skipped_view()
                &&& n.captured_view() == o.captured_view()
                &&& n.pending_view() == (if branch && popped {
                    o.pending_view().drop_last()
                } else {
                    o.pending_view()
                })
                &&& n.exits_view() == (if branch && popped {
                    bumped(o.exits_view(), o.pending_view().last().1)
                } else {
                    o.exits_view()
                })
                &&& n.hits_view() == (if branch && o.is_entry(t) {
                    bumped(o.hits_view(), t)
                } else {
                    o.hits_view()
                })
                &&& if branch && o.is_entry(t) && !internal {
                    &&& n.calls_view() == bumped(o.calls_view(), t)
                    &&& a == StepAction::InspectCallSite { site: last, thumb: cpsr & 0x20 != 0 }
                    &&& n.awaiting_view() == Awaiting::CallSite { entry: t, thumb: cpsr & 0x20 != 0 }
                } else {
                    &&& n.calls_view() == o.calls_view()
                    &&& a == StepAction::Continue
                    &&& n.awaiting_view() == Awaiting::Nothing
                }
            }),
            cpsr & 0x20u32 != 0 && pc_reg >= 2 ==> final(self).last_pc_view() == pc_reg - 2,
            cpsr & 0x20u32 == 0 && pc_reg >= 4 ==> final(self).last_pc_view() == pc_reg - 4,
            cpsr & 0x20u32 != 0 && pc_reg >= 4 && old(self).last_pc_view() == pc_reg - 4 ==> a == StepAction::Continue
                && final(self).hits_view() == old(self).hits_view() && final(self).calls_view() == old(self).calls_view()
                && final(self).pending_view() == old(self).pending_view(),
            cpsr & 0x20u32 == 0 && pc_reg >= 8 && old(self).last_pc_view() == pc_reg - 8 ==> a == StepAction::Continue
                && final(self).hits_view() == old(self).hits_view() && final(self).calls_view() == old(self).calls_view()
                && final(self).pending_view() == old(self).pending_view(),
    {
        proof {
            lemma_executed_pc(pc_reg, cpsr);
        }
        let ghost o = *self;
        let thumb = (cpsr & (1u32 << 5u32)) != 0;
        assert(thumb == (cpsr & 0x20 != 0)) by (bit_vector)
            requires
                thumb == ((cpsr & (1u32 << 5u32)) != 0),
        ;
        let instr_len: u32 = if thumb { 2 } else { 4 };
        let true_pc = pc_reg.wrapping_sub(instr_len);
        let last = self.last_true_pc;
        let is_branch = true_pc != last.wrapping_add(instr_len);
        self.last_true_pc = true_pc;
        self.observed = self.observed + 1;
        if !is_branch {
            return StepAction::Continue;
        }
        // Exit detection: did this branch land on the top pending return?
        let plen = self.pending.len();
        if plen > 0 && self.pending[plen - 1].0 == true_pc {
            let top = self.pending.pop();
            proof {
                let f = o.pending@.last().1;
                assert(self.pending@ == o.pending@.drop_last());
                lemma_pending_push(o.pending@.drop_last(), o.pending@.last(), f);
                assert(o.pending@.drop_last().push(o.pending@.last()) =~= o.pending@);
                assert(count_of(o.exits@, f) < u64::MAX) by {
                    lemma_count_within_sum(o.hits@, f);
                    lemma_pending_nonneg(o.pending@, f);
                    assert(count_of(o.exits@, f) + pending_count(o.pending@, f) + awaiting_site_of(o.awaiting, f)
                        <= count_of(o.calls@, f));
                    assert(count_of(o.calls@, f) <= count_of(o.hits@, f));
                    assert(sum_over(seq![f], o.hits@) <= o.hit_total@);
                }
            }
            if let Some(top) = top {
                bump(&mut self.exits, top.1);
            }
            proof {
                let f = o.pending@.last().1;
                assert forall|g: u32| #[trigger]
                    count_of(self.exits@, g) + pending_count(self.pending@, g) + awaiting_site_of(
                        self.awaiting,
                        g,
                    ) <= count_of(self.calls@, g) by {
                    lemma_pending_push(o.pending@.drop_last(), o.pending@.last(), g);
                    assert(o.pending@.drop_last().push(o.pending@.last()) =~= o.pending@);
                    assert(count_of(o.exits@, g) + pending_count(o.pending@, g) + awaiting_site_of(o.awaiting, g)
                        <= count_of(o.calls@, g));
                }
                assert forall|i: int| 0 <= i < self.pending@.len() implies self.entries.spec_contains(
                    #[trigger] self.pending@[i].1,
                ) by {
                    assert(self.pending@[i] == o.pending@[i]);
                }
            }
        }
        let ghost mid = *self;
        // Entry detection: the branch landed on a known function entry.
        if self.entries.contains(true_pc) {
            proof {
                lemma_count_within_sum(self.hits@, true_pc);
            }
            if !self.hits.contains_key(&true_pc) {
                proof {
                    assert(!self.fired@.contains(true_pc));
                    assert forall|i: int, j: int| 0 <= i < j < self.fired@.len() + 1 implies
                        self.fired@.push(true_pc)[i] != self.fired@.push(true_pc)[j] by {
                        if j == self.fired@.len() {
                            assert(self.fired@[i] != true_pc);
                        }
                    }
                }
                self.fired.push(true_pc);
                proof {
                    assert forall|f: u32| #[trigger] self.fired@.contains(f) <==> (mid.fired@.contains(f) || f == true_pc) by {
                        crate::seq_facts::lemma_push_contains(mid.fired@, true_pc, f);
                    }
                }
            }
            bump(&mut self.hits, true_pc);
            proof {
                self.hit_total@ = self.hit_total@ + 1;
                assert forall|ks: Seq<u32>| #[trigger]
                    ks.no_duplicates() implies sum_over(ks, self.hits@) <= self.hit_total@ by {
                    lemma_sum_bump(ks, mid.hits@, true_pc);
                }
            }
            let internal = match self.fn_end.get(&true_pc) {
                Some(end) => last >= true_pc && last < *end,
                None => false,
            };
            if !internal {
                proof {
                    assert(count_of(self.calls@, true_pc) <= count_of(mid.hits@, true_pc));
                }
                bump(&mut self.calls, true_pc);
                self.awaiting = Awaiting::CallSite { entry: true_pc, thumb };
                proof {
                    assert forall|g: u32| #[trigger]
                        count_of(self.calls@, g) <= count_of(self.hits@, g) by {
                        assert(count_of(mid.calls@, g) <= count_of(mid.hits@, g));
                    }
                    assert forall|g: u32| #[trigger]
                        count_of(self.exits@, g) + pending_count(self.pending@, g) + awaiting_site_of(
                            self.awaiting,
                            g,
                        ) <= count_of(self.calls@, g) by {
                        assert(count_of(mid.exits@, g) + pending_count(mid.pending@, g) + awaiting_site_of(
                            mid.awaiting,
                            g,
                        ) <= count_of(mid.calls@, g));
                    }
                    assert forall|g: u32| #[trigger]
                        ucount_of(self.captured@, g) + awaiting_on(self.awaiting, g) <= count_of(
                            self.calls@,
                            g,
                        ) by {
                        assert(ucount_of(mid.captured@, g) + awaiting_on(mid.awaiting, g) <= count_of(
                            mid.calls@,
                            g,
                        ));
                    }
                    assert forall|g: u32|
                        self.per_target_cap > 0 implies #[trigger] ucount_of(self.captured@, g) + (
                        match self.awaiting {
                            Awaiting::Capture { fn_addr } => if fn_addr == g {
                                1int
                            } else {
                                0int
                            },
                            _ => 0int,
                        }) <= self.per_target_cap by {
                        assert(ucount_of(mid.captured@, g) + (
                        match mid.awaiting {
                            Awaiting::Capture { fn_addr } => if fn_addr == g {
                                1int
                            } else {
                                0int
                            },
                            _ => 0int,
                        }) <= mid.per_target_cap);
                    }
                }
                return StepAction::InspectCallSite { site: last, thumb };
            }
        }
        StepAction::Continue
    }
}

impl Tracker {
    /// Classify the call whose source instruction was requested by `step`:
    /// `word` is the bus read at the source (16-bit in Thumb state, else
    /// 32-bit) and `lr` the link register now. Only BL calls record a call
    /// edge and a pending return, and only they can be offered for capture.
    pub fn resolve_call_site(&mut self, word: u32, lr: u32) -> (a: CallAction)
        requires
            old(self).wf(),
            old(self).awaiting_view() is CallSite,
        ensures
            final(self).wf(),
            ({
                let o = *old(self);
                let n = *final(self);
                let entry = o.awaiting_view()->entry;
                let thumb = o.awaiting_view()->thumb;
                let ret = lr & 0xFFFF_FFFEu32;
                let bl = is_bl_word(word, thumb);
                let offer = bl && o.targets_view().contains(entry) && (o.cap_view() == 0
                    || ucount_of(o.captured_view(), entry) < o.cap_view());
                &&& n.last_pc_view() == o.last_pc_view()
                &&& n.observed_view() == o.observed_view()
                &&& (forall|pc: u32| n.is_entry(pc) == o.is_entry(pc))
                &&& n.fn_end_view() == o.fn_end_view()
                &&& n.hits_view() == o.hits_view()
                &&& n.calls_view() == o.calls_view()
                &&& n.exits_view() == o.exits_view()
                &&& n.targets_view() == o.targets_view()
                &&& n.cap_view() == o.cap_view()
                &&& n.dedup_view() == o.dedup_view()
                &&& n.seen_view() == o.seen_view()
                &&& n.skipped_view() == o.skipped_view()
                &&& n.captured_view() == o.captured_view()
                &&& if bl && o.pending_view().len() > 0 {
                    edge_added(o.callgraph_view(), n.callgraph_view(), o.pending_view().last().1, entry)
                } else {
                    n.callgraph_view() == o.callgraph_view()
                }
                &&& n.pending_view() == (if bl && o.pending_view().len() < PENDING_MAX {
                    o.pending_view().push((ret, entry))
                } else {
                    o.pending_view()
                })
                &&& if offer {
                    &&& a == CallAction::Capture { fn_addr: entry, return_addr: ret }
                    &&& n.awaiting_view() == Awaiting::Capture { fn_addr: entry }
                } else {
                    &&& a == CallAction::Continue
                    &&& n.awaiting_view() == Awaiting::Nothing
                }
            }),
            old(self).awaiting_view()->thumb && (word & 0xFFFFu32) >= 0xF800u32 && old(self).pending_view().len()
                < PENDING_MAX ==> final(self).pending_view() == old(self).pending_view().push(
                (lr & 0xFFFF_FFFEu32, old(self).awaiting_view()->entry),
            ),
            old(self).awaiting_view()->thumb && (word & 0xFFFFu32) < 0xF800u32 ==> final(self).pending_view()
                == old(self).pending_view() && final(self).callgraph_view() == old(self).callgraph_view(),
            !old(self).awaiting_view()->thumb && (word & 0x0F00_0000u32) == 0x0B00_0000u32 && old(self).pending_view().len()
                < PENDING_MAX ==> final(self).pending_view() == old(self).pending_view().push(
                (lr & 0xFFFF_FFFEu32, old(self).awaiting_view()->entry),
            ),
    {
        proof {
            lemma_bl_words(word);
        }
        let ghost o = *self;
        let (entry, thumb) = match self.awaiting {
            Awaiting::CallSite { entry, thumb } => (entry, thumb),
            _ => {
                proof {
                    assert(false);
                }
                (0, false)
            },
        };
        let bl_call = if thumb {
            let val = word as u16;
            (val >> 11u16) == 0x1Fu16
        } else {
            ((word >> 24u32) & 0xFu32) == 0xBu32
        };
        self.awaiting = Awaiting::Nothing;
        if !bl_call {
            proof {
                assert forall|g: u32| #[trigger]
                    count_of(self.exits@, g) + pending_count(self.pending@, g) + awaiting_site_of(
                        self.awaiting,
                        g,
                    ) <= count_of(self.calls@, g) by {
                    assert(count_of(o.exits@, g) + pending_count(o.pending@, g) + awaiting_site_of(
                        o.awaiting,
                        g,
                    ) <= count_of(o.calls@, g));
                }
                assert forall|g: u32| #[trigger]
                    ucount_of(self.captured@, g) + awaiting_on(self.awaiting, g) <= count_of(
                        self.calls@,
                        g,
                    ) by {
                    assert(ucount_of(o.captured@, g) + awaiting_on(o.awaiting, g) <= count_of(
                        o.calls@,
                        g,
                    ));
                }
            }
            return CallAction::Continue;
        }
        let ret_addr = lr & !1u32;
        assert(ret_addr == lr & 0xFFFF_FFFEu32) by (bit_vector)
            requires
                ret_addr == lr & !1u32,
        ;
        // Call-graph edge from the function this call is nested in.
        let plen = self.pending.len();
        if plen > 0 {
            let caller = self.pending[plen - 1].1;
            let ghost before = self.callgraph@;
            let mut set: HashSet<u32> = match self.callgraph.remove(&caller) {
                Some(s) => s,
                None => HashSet::new(),
            };
            set.insert(entry);
            self.callgraph.insert(caller, set);
            proof {
                assert(self.callgraph@ == before.insert(caller, set));
                assert(o.entries.spec_contains(caller)) by {
                    assert(o.pending@[plen - 1] == o.pending@.last());
                }
                assert forall|c: u32| #[trigger] self.callgraph@.contains_key(c) implies self.entries.spec_contains(c)
                    && forall|x: u32| #[trigger] self.callgraph@[c]@.contains(x) ==> self.entries.spec_contains(x) by {
                    if c != caller {
                        assert(before.contains_key(c));
                    } else {
                        assert forall|x: u32| #[trigger] self.callgraph@[c]@.contains(x) implies self.entries.spec_contains(x) by {
                            if x != entry {
                                assert(before.contains_key(c));
                            }
                        }
                    }
                }
                assert(edge_added(o.callgraph@, self.callgraph@, caller, entry));
            }
        }
        let ghost mid = *self;
        if self.pending.len() < PENDING_MAX {
            self.pending.push((ret_addr, entry));
            proof {
                assert forall|g: u32| #[trigger]
                    count_of(self.exits@, g) + pending_count(self.pending@, g) + awaiting_site_of(
                        self.awaiting,
                        g,
                    ) <= count_of(self.calls@, g) by {
                    lemma_pending_push(mid.pending@, (ret_addr, entry), g);
                    assert(count_of(o.exits@, g) + pending_count(o.pending@, g) + awaiting_site_of(
                        o.awaiting,
                        g,
                    ) <= count_of(o.calls@, g));
                }
                assert forall|i: int| 0 <= i < self.pending@.len() implies self.entries.spec_contains(
                    #[trigger] self.pending@[i].1,
                ) by {
                    if i < mid.pending@.len() {
                        assert(self.pending@[i] == mid.pending@[i]);
                    }
                }
            }
        } else {
            proof {
                assert forall|g: u32| #[trigger]
                    count_of(self.exits@, g) + pending_count(self.pending@, g) + awaiting_site_of(
                        self.awaiting,
                        g,
                    ) <= count_of(self.calls@, g) by {
                    assert(count_of(o.exits@, g) + pending_count(o.pending@, g) + awaiting_site_of(
                        o.awaiting,
                        g,
                    ) <= count_of(o.calls@, g));
                }
            }
        }
        // Record mode: offer the call for capture when it is a target under its cap.
        if self.targets.contains(&entry) {
            let cap = self.per_target_cap;
            let already: usize = match self.captured.get(&entry) {
                Some(c) => *c,
                None => 0,
            };
            if cap == 0 || already < cap {
                self.awaiting = Awaiting::Capture { fn_addr: entry };
                proof {
                    assert forall|g: u32| #[trigger]
                        ucount_of(self.captured@, g) + awaiting_on(self.awaiting, g) <= count_of(
                            self.calls@,
                            g,
                        ) by {
                        assert(ucount_of(o.captured@, g) + awaiting_on(o.awaiting, g) <= count_of(
                            o.calls@,
                            g,
                        ));
                    }
                    assert forall|g: u32|
                        self.per_target_cap > 0 implies #[trigger] ucount_of(self.captured@, g) + (
                        match self.awaiting {
                            Awaiting::Capture { fn_addr } => if fn_addr == g {
                                1int
                            } else {
                                0int
                            },
                            _ => 0int,
                        }) <= self.per_target_cap by {
                        assert(ucount_of(o.captured@, g) + (
                        match o.awaiting {
                            Awaiting::Capture { fn_addr } => if fn_addr == g {
                                1int
                            } else {
                                0int
                            },
                            _ => 0int,
                        }) <= o.per_target_cap);
                    }
                }
                return CallAction::Capture { fn_addr: entry, return_addr: ret_addr };
            }
        }
        proof {
            assert forall|g: u32| #[trigger]
                ucount_of(self.captured@, g) + awaiting_on(self.awaiting, g) <= count_of(
                    self.calls@,
                    g,
                ) by {
                assert(ucount_of(o.captured@, g) + awaiting_on(o.awaiting, g) <= count_of(
                    o.calls@,
                    g,
                ));
            }
        }
        CallAction::Continue
    }

    /// Settle a capture offered by `resolve_call_site`. With deduplication
    /// on, `dedup_key` is the captured state's fingerprint and the capture
    /// is kept only if the target has not kept that fingerprint before.
    /// Returns whether the capture is kept.
    pub fn settle_capture(&mut self, dedup_key: Option<u64>) -> (keep: bool)
        requires
            old(self).wf(),
            old(self).awaiting_view() is Capture,
            old(self).dedup_view() ==> dedup_key is Some,
        ensures
            final(self).wf(),
            ({
                let o = *old(self);
                let n = *final(self);
                let f = o.awaiting_view()->fn_addr;
                let fresh = !o.dedup_view() || !(o.seen_view().contains_key(f) && o.seen_view()[f]@.contains(
                    dedup_key->0,
                ));
                &&& keep == fresh
                &&& n.awaiting_view() == Awaiting::Nothing
                &&& n.last_pc_view() == o.last_pc_view()
                &&& n.observed_view() == o.observed_view()
                &&& (forall|pc: u32| n.is_entry(pc) == o.is_entry(pc))
                &&& n.fn_end_view() == o.fn_end_view()
                &&& n.hits_view() == o.hits_view()
                &&& n.calls_view() == o.calls_view()
                &&& n.exits_view() == o.exits_view()
                &&& n.callgraph_view() == o.callgraph_view()
                &&& n.pending_view() == o.pending_view()
                &&& n.targets_view() == o.targets_view()
                &&& n.cap_view() == o.cap_view()
                &&& n.dedup_view() == o.dedup_view()
                &&& if o.dedup_view() {
                    key_added(o.seen_view(), n.seen_view(), f, dedup_key->0)
                } else {
                    n.seen_view() == o.seen_view()
                }
                &&& if fresh {
                    &&& n.captured_view() == ubumped(o.captured_view(), f)
                    &&& n.skipped_view() == o.skipped_view()
                } else {
                    &&& n.captured_view() == o.captured_view()
                    &&& n.skipped_view() == o.skipped_view() + 1
                }
            }),
    {
        let ghost o = *self;
        let f = match self.awaiting {
            Awaiting::Capture { fn_addr } => fn_addr,
            _ => {
                proof {
                    assert(false);
                }
                0
            },
        };
        let is_new = if self.dedup {
            let key = match dedup_key {
                Some(k) => k,
                None => {
                    proof {
                        assert(false);
                    }
                    0
                },
            };
            let ghost before = self.seen@;
            let mut set: HashSet<u64> = match self.seen.remove(&f) {
                Some(s) => s,
                None => HashSet::new(),
            };
            let fresh = set.insert(key);
            self.seen.insert(f, set);
            proof {
                assert(self.seen@ == before.insert(f, set));
                assert(key_added(o.seen@, self.seen@, f, key));
            }
            fresh
        } else {
            true
        };
        self.awaiting = Awaiting::Nothing;
        if is_new {
            proof {
                assert(ucount_of(o.captured@, f) + 1 <= count_of(o.calls@, f));
                assert(count_of(o.calls@, f) <= count_of(o.hits@, f));
                lemma_count_within_sum(o.hits@, f);
                assert(sum_over(seq![f], o.hits@) <= o.hit_total@);
            }
            ubump(&mut self.captured, f);
        } else {
            self.dedup_skipped = self.dedup_skipped + 1;
        }
        proof {
            assert forall|g: u32| #[trigger]
                count_of(self.exits@, g) + pending_count(self.pending@, g) + awaiting_site_of(
                    self.awaiting,
                    g,
                ) <= count_of(self.calls@, g) by {
                assert(count_of(o.exits@, g) + pending_count(o.pending@, g) + awaiting_site_of(
                    o.awaiting,
                    g,
                ) <= count_of(o.calls@, g));
            }
            assert forall|g: u32| #[trigger]
                ucount_of(self.captured@, g) + awaiting_on(self.awaiting, g) <= count_of(
                    self.calls@,
                    g,
                ) by {
                assert(ucount_of(o.captured@, g) + awaiting_on(o.awaiting, g) <= count_of(
                    o.calls@,
                    g,
                ));
            }
            assert forall|g: u32|
                self.per_target_cap > 0 implies #[trigger] ucount_of(self.captured@, g) + (
                match self.awaiting {
                    Awaiting::Capture { fn_addr } => if fn_addr == g {
                        1int
                    } else {
                        0int
                    },
                    _ => 0int,
                }) <= self.per_target_cap by {
                assert(ucount_of(o.captured@, g) + (
                match o.awaiting {
                    Awaiting::Capture { fn_addr } => if fn_addr == g {
                        1int
                    } else {
                        0int
                    },
                    _ => 0int,
                }) <= o.per_target_cap);
            }
            assert forall|g: u32| #[trigger] self.captured@.contains_key(g) implies self.targets@.contains(g) by {
                if g != f {
                    assert(o.captured@.contains_key(g));
                }
            }
        }
        is_new
    }
}

impl Tracker {
    /// The call edges captured so far: each caller with the callees it
    /// dispatched by BL (each caller once, in no particular order).
    pub fn call_edges(&self) -> (r: Vec<(u32, Vec<u32>)>)
        ensures
            forall|i: int| 0 <= i < r@.len() ==> self.callgraph_view().contains_key((#[trigger] r@[i]).0)
                && forall|x: u32| r@[i].1@.contains(x) <==> self.callgraph_view()[r@[i].0]@.contains(x),
            forall|c: u32| #[trigger] self.callgraph_view().contains_key(c) ==> exists|i: int| 0 <= i < r@.len() && r@[i].0 == c,
            forall|i: int, j: int| 0 <= i < j < r@.len() ==> (#[trigger] r@[i]).0 != (#[trigger] r@[j]).0,
    {
        let mut out: Vec<(u32, Vec<u32>)> = Vec::new();
        let ghost m = self.callgraph@;
        let ghost allkv = vstd::std_specs::hash::spec_hash_map_iter(&self.callgraph).remaining();
        proof {
            vstd::std_specs::hash::axiom_spec_hash_map_iter(&self.callgraph);
        }
        for kv in it: self.callgraph.iter()
            invariant
                m == self.callgraph@,
                it.seq() == allkv,
                allkv.len() == m.dom().len(),
                forall|j: int| #![trigger allkv[j]] 0 <= j < allkv.len() ==> m.contains_key(*allkv[j].0) && m[*allkv[j].0] == *allkv[j].1,
                forall|k: u32| #[trigger] m.contains_key(k) ==> allkv.contains((&k, &m[k])),
                out@.len() == it.index(),
                forall|j: int| 0 <= j < out@.len() ==> (#[trigger] out@[j]).0 == *allkv[j].0
                    && forall|x: u32| out@[j].1@.contains(x) <==> m[out@[j].0]@.contains(x),
        {
            let (k, v) = kv;
            let ghost j = it.index();
            let mut cs: Vec<u32> = Vec::new();
            let ghost all = vstd::std_specs::hash::spec_hash_keys_iter(v).remaining();
            proof {
                vstd::std_specs::hash::axiom_spec_hash_keys_iter(v);
            }
            for x in it2: v.iter()
                invariant
                    it2.seq() == all,
                    all.unref().to_set() == v@,
                    cs@ == all.take(it2.index() as int).map_values(|p: &u32| *p),
            {
                cs.push(*x);
                assert(cs@ =~= all.take(it2.index() as int + 1).map_values(|p: &u32| *p));
            }
            proof {
                assert(cs@ =~= all.map_values(|p: &u32| *p));
                assert forall|x: u32| cs@.contains(x) <==> v@.contains(x) by {
                    if cs@.contains(x) {
                        let i = choose|i: int| 0 <= i < cs@.len() && cs@[i] == x;
                        assert(all.unref()[i] == x);
                        assert(all.unref().contains(x));
                    }
                    if v@.contains(x) {
                        assert(all.unref().to_set().contains(x));
                        assert(all.unref().contains(x));
                        let i = choose|i: int| 0 <= i < all.unref().len() && all.unref()[i] == x;
                        assert(cs@[i] == x);
                    }
                }
            }
            out.push((*k, cs));
        }
        proof {
            assert forall|c: u32| #[trigger] m.contains_key(c) implies exists|i: int| 0 <= i < out@.len() && out@[i].0 == c by {
                assert(allkv.contains((&c, &m[c])));
                let j = choose|j: int| 0 <= j < allkv.len() && allkv[j] == (&c, &m[c]);
                assert(out@[j].0 == c);
            }
            // as many rows as callers, and every caller among them: no caller twice
            let keys = out@.map_values(|p: (u32, Vec<u32>)| p.0);
            assert forall|c: u32| keys.to_set().contains(c) <==> m.dom().contains(c) by {
                if keys.to_set().contains(c) {
                    let i = choose|i: int| 0 <= i < keys.len() && keys[i] == c;
                    assert(out@[i].0 == c);
                    assert(m.contains_key(*allkv[i].0));
                }
                if m.dom().contains(c) {
                    let i = choose|i: int| 0 <= i < out@.len() && out@[i].0 == c;
                    assert(keys[i] == c);
                }
            }
            assert(keys.to_set() =~= m.dom());
            vstd::std_specs::hash::axiom_hashmap_view_finite_dom(self.callgraph);
            keys.lemma_no_dup_set_cardinality();
            assert forall|i: int, j: int| 0 <= i < j < out@.len() implies (#[trigger] out@[i]).0 != (#[trigger] out@[j]).0 by {
                assert(keys[i] == out@[i].0);
                assert(keys[j] == out@[j].0);
            }
        }
        out
    }
}

/// One report row: (entry, hits, calls, exits).
pub type Row = (u32, u64, u64, u64);

/// Report order: more hits first, then lower address first.
pub open spec fn row_before(a: Row, b: Row) -> bool {
    a.1 > b.1 || (a.1 == b.1 && a.0 < b.0)
}

/// Rows in strictly increasing report order.
pub open spec fn rows_sorted(rows: Seq<Row>) -> bool {
    forall|i: int, j: int| 0 <= i < j < rows.len() ==> row_before(#[trigger] rows[i], #[trigger] rows[j])
}

/// Sum of one column (1 = hits, 2 = calls, 3 = exits) over the rows.
pub open spec fn column_sum(rows: Seq<Row>, col: int) -> int
    decreases rows.len(),
{
    if rows.len() == 0 {
        0
    } else {
        column_sum(rows.drop_last(), col) + if col == 1 {
            rows.last().1 as int
        } else if col == 2 {
            rows.last().2 as int
        } else {
            rows.last().3 as int
        }
    }
}

/// Number of rows whose calls equal their exits.
pub open spec fn paired_rows(rows: Seq<Row>) -> int
    decreases rows.len(),
{
    if rows.len() == 0 {
        0
    } else {
        paired_rows(rows.drop_last()) + if rows.last().2 == rows.last().3 {
            1int
        } else {
            0int
        }
    }
}

/// The tracker's end-of-run summary.
pub struct TrackReport {
    /// (entry, hits, calls, exits) for every entry that fired, most hits first.
    pub rows: Vec<Row>,
    pub total_hits: u64,
    pub total_calls: u64,
    pub total_exits: u64,
    /// Rows whose calls equal their exits.
    pub cleanly_paired: usize,
    /// Pending returns left on the stack.
    pub pending_remaining: usize,
}

/// The row of entry `a` in the tracker's counts.
pub open spec fn row_of(t: Tracker, a: u32) -> Row {
    (a, t.hits_view()[a], count_of(t.calls_view(), a) as u64, count_of(t.exits_view(), a) as u64)
}

/// Distinct entries in every pair of positions.
pub open spec fn rows_distinct(rows: Seq<Row>) -> bool {
    forall|a: int, b: int| 0 <= a < b < rows.len() ==> (#[trigger] rows[a]).0 != (#[trigger] rows[b]).0
}

/// Sort rows with distinct entries into report order.
fn sort_rows(rows: &mut Vec<Row>)
    requires
        rows_distinct(old(rows)@),
    ensures
        rows_sorted(final(rows)@),
        rows_distinct(final(rows)@),
        final(rows)@.len() == old(rows)@.len(),
        forall|r: Row| final(rows)@.contains(r) <==> old(rows)@.contains(r),
{
    let ghost orig = rows@;
    if rows.len() == 0 {
        return;
    }
    let mut i: usize = 1;
    proof {
        assert forall|a: int, b: int| 0 <= a < b < rows@.subrange(0, 1).len() implies row_before(
            #[trigger] rows@.subrange(0, 1)[a],
            #[trigger] rows@.subrange(0, 1)[b],
        ) by {}
    }
    while i < rows.len()
        invariant
            rows@.len() == orig.len(),
            1 <= i <= rows@.len(),
            rows_distinct(rows@),
            rows_sorted(rows@.subrange(0, i as int)),
            forall|r: Row| rows@.contains(r) <==> orig.contains(r),
        decreases rows@.len() - i,
    {
        let x = rows[i];
        let mut j: usize = i;
        while j > 0 && (x.1 > rows[j - 1].1 || (x.1 == rows[j - 1].1 && x.0 < rows[j - 1].0))
            invariant
                j <= i,
                i < rows@.len(),
                x == rows@[i as int],
                forall|k: int| j <= k < i ==> row_before(x, #[trigger] rows@[k]),
            decreases j,
        {
            j = j - 1;
        }
        let ghost before = rows@;
        proof {
            assert(rows_sorted(before.subrange(0, i as int)));
            assert forall|a: int, b: int| 0 <= a < b < i implies row_before(#[trigger] before[a], #[trigger] before[b]) by {
                assert(before.subrange(0, i as int)[a] == before[a]);
                assert(before.subrange(0, i as int)[b] == before[b]);
            }
            if j > 0 {
                assert(before[j - 1].0 != x.0);
                assert(row_before(before[j - 1], x));
            }
        }
        let y = rows.remove(i);
        rows.insert(j, y);
        proof {
            assert(rows@ =~= before.subrange(0, j as int).push(x) + before.subrange(j as int, i as int)
                + before.subrange(i as int + 1, before.len() as int));
            assert forall|k: int| 0 <= k < rows@.len() implies #[trigger] rows@[k] == (if k < j {
                before[k]
            } else if k == j {
                x
            } else if k <= i {
                before[k - 1]
            } else {
                before[k]
            }) by {}
            assert forall|r: Row| rows@.contains(r) <==> before.contains(r) by {
                if rows@.contains(r) {
                    let k = choose|k: int| 0 <= k < rows@.len() && rows@[k] == r;
                    if k < j {
                        assert(before[k] == r);
                    } else if k == j {
                        assert(before[i as int] == r);
                    } else if k <= i {
                        assert(before[k - 1] == r);
                    } else {
                        assert(before[k] == r);
                    }
                }
                if before.contains(r) {
                    let k = choose|k: int| 0 <= k < before.len() && before[k] == r;
                    if k < j {
                        assert(rows@[k] == r);
                    } else if k == i {
                        assert(rows@[j as int] == r);
                    } else if k < i {
                        assert(rows@[k + 1] == r);
                    } else {
                        assert(rows@[k] == r);
                    }
                }
            }
            assert forall|a: int, b: int| 0 <= a < b < rows@.len() implies (#[trigger] rows@[a]).0
                != (#[trigger] rows@[b]).0 by {
                let ia = if a < j { a } else if a == j { i as int } else if a <= i { a - 1 } else { a };
                let ib = if b < j { b } else if b == j { i as int } else if b <= i { b - 1 } else { b };
                assert(rows@[a] == before[ia]);
                assert(rows@[b] == before[ib]);
                assert(ia != ib);
                if ia < ib {
                    assert(before[ia].0 != before[ib].0);
                } else {
                    assert(before[ib].0 != before[ia].0);
                }
            }
            let p = rows@.subrange(0, i as int + 1);
            assert forall|a: int, b: int| 0 <= a < b < p.len() implies row_before(#[trigger] p[a], #[trigger] p[b]) by {
                assert(p[a] == rows@[a] && p[b] == rows@[b]);
                if b < j {
                } else if b == j {
                    if a < j - 1 {
                        assert(row_before(before[a], before[j - 1]));
                    }
                } else if a == j {
                } else if a < j {
                    assert(row_before(before[a], before[b - 1]));
                } else {
                    assert(row_before(before[a - 1], before[b - 1]));
                }
            }
        }
        i = i + 1;
    }
    proof {
        assert(rows@.subrange(0, rows@.len() as int) =~= rows@);
    }
}

proof fn lemma_rows_sorted_distinct(rows: Seq<Row>, t: Tracker)
    requires
        rows_sorted(rows),
        forall|i: int| 0 <= i < rows.len() ==> #[trigger] rows[i] == row_of(t, rows[i].0),
    ensures
        rows.map_values(|r: Row| r.0).no_duplicates(),
{
    let addrs = rows.map_values(|r: Row| r.0);
    assert forall|i: int, j: int| 0 <= i < addrs.len() && 0 <= j < addrs.len() && i != j implies addrs[i] != addrs[j] by {
        if i < j {
            assert(row_before(rows[i], rows[j]));
        } else {
            assert(row_before(rows[j], rows[i]));
        }
    }
}

proof fn lemma_column_sums(rows: Seq<Row>, t: Tracker)
    requires
        t.wf(),
        forall|i: int| 0 <= i < rows.len() ==> #[trigger] rows[i] == row_of(t, rows[i].0) && t.hits_view().contains_key(rows[i].0),
    ensures
        column_sum(rows, 1) == sum_over(rows.map_values(|r: Row| r.0), t.hits_view()),
        column_sum(rows, 2) <= column_sum(rows, 1),
        column_sum(rows, 3) <= column_sum(rows, 2),
        column_sum(rows, 3) >= 0,
    decreases rows.len(),
{
    if rows.len() > 0 {
        let init = rows.drop_last();
        assert forall|i: int| 0 <= i < init.len() implies #[trigger] init[i] == row_of(t, init[i].0)
            && t.hits_view().contains_key(init[i].0) by {
            assert(init[i] == rows[i]);
        }
        lemma_column_sums(init, t);
        assert(rows.map_values(|r: Row| r.0).drop_last() =~= init.map_values(|r: Row| r.0));
        let a = rows.last().0;
        assert(rows.last() == rows[rows.len() - 1]);
        reveal(Tracker::wf);
        assert(count_of(t.calls_view(), a) <= count_of(t.hits_view(), a));
        lemma_pending_nonneg(t.pending_view(), a);
        assert(count_of(t.exits_view(), a) + pending_count(t.pending_view(), a) + awaiting_site_of(
            t.awaiting_view(),
            a,
        ) <= count_of(t.calls_view(), a));
    }
}

impl Tracker {
    /// Summarize the run: every entry that fired with its hit, call and
    /// exit counts (most hits first, then by address), the totals, how many
    /// entries are cleanly paired (calls == exits) and the pending depth.
    pub fn report(&self) -> (r: TrackReport)
        requires
            self.wf(),
        ensures
            rows_sorted(r.rows@),
            forall|i: int| 0 <= i < r.rows@.len() ==> #[trigger] r.rows@[i] == row_of(*self, r.rows@[i].0)
                && self.hits_view().contains_key(r.rows@[i].0),
            forall|i: int| 0 <= i < r.rows@.len() ==> (#[trigger] r.rows@[i]).1 >= 1,
            forall|a: u32| self.hits_view().contains_key(a) ==> r.rows@.contains(row_of(*self, a)),
            r.total_hits == column_sum(r.rows@, 1),
            r.total_calls == column_sum(r.rows@, 2),
            r.total_exits == column_sum(r.rows@, 3),
            r.cleanly_paired == paired_rows(r.rows@),
            r.pending_remaining == self.pending_view().len(),
    {
        let mut rows: Vec<Row> = Vec::new();
        let n = self.fired.len();
        let mut i: usize = 0;
        while i < n
            invariant
                self.wf(),
                n == self.fired@.len(),
                i <= n,
                rows@.len() == i,
                forall|k: int| 0 <= k < i ==> #[trigger] rows@[k] == row_of(*self, self.fired@[k]),
            decreases n - i,
        {
            let a = self.fired[i];
            proof {
                assert(self.fired@.contains(a));
            }
            let h: u64 = match self.hits.get(&a) {
                Some(v) => *v,
                None => 0,
            };
            let c: u64 = match self.calls.get(&a) {
                Some(v) => *v,
                None => 0,
            };
            let e: u64 = match self.exits.get(&a) {
                Some(v) => *v,
                None => 0,
            };
            proof {
                reveal(Tracker::wf);
                assert(count_of(self.calls@, a) <= count_of(self.hits@, a));
                lemma_pending_nonneg(self.pending@, a);
                assert(count_of(self.exits@, a) + pending_count(self.pending@, a) + awaiting_site_of(
                    self.awaiting,
                    a,
                ) <= count_of(self.calls@, a));
            }
            rows.push((a, h, c, e));
            i = i + 1;
        }
        proof {
            assert forall|a: int, b: int| 0 <= a < b < rows@.len() implies (#[trigger] rows@[a]).0
                != (#[trigger] rows@[b]).0 by {
                assert(self.fired@[a] != self.fired@[b]);
            }
        }
        let ghost unsorted = rows@;
        sort_rows(&mut rows);
        proof {
            assert forall|i: int| 0 <= i < rows@.len() implies #[trigger] rows@[i] == row_of(*self, rows@[i].0)
                && self.hits_view().contains_key(rows@[i].0) by {
                assert(unsorted.contains(rows@[i]));
                let k = choose|k: int| 0 <= k < unsorted.len() && unsorted[k] == rows@[i];
                assert(self.fired@.contains(self.fired@[k]));
            }
            assert forall|a: u32| self.hits_view().contains_key(a) implies rows@.contains(row_of(*self, a)) by {
                assert(self.fired@.contains(a));
                let k = choose|k: int| 0 <= k < self.fired@.len() && self.fired@[k] == a;
                assert(unsorted[k] == row_of(*self, a));
                assert(unsorted.contains(row_of(*self, a)));
            }
        }
        let mut total_hits: u64 = 0;
        let mut total_calls: u64 = 0;
        let mut total_exits: u64 = 0;
        let mut cleanly_paired: usize = 0;
        let m = rows.len();
        let mut k: usize = 0;
        while k < m
            invariant
                self.wf(),
                m == rows@.len(),
                k <= m,
                rows_sorted(rows@),
                forall|i: int| 0 <= i < rows@.len() ==> #[trigger] rows@[i] == row_of(*self, rows@[i].0)
                    && self.hits_view().contains_key(rows@[i].0),
                total_hits == column_sum(rows@.subrange(0, k as int), 1),
                total_calls == column_sum(rows@.subrange(0, k as int), 2),
                total_exits == column_sum(rows@.subrange(0, k as int), 3),
                cleanly_paired == paired_rows(rows@.subrange(0, k as int)),
                cleanly_paired <= k,
            decreases m - k,
        {
            let r = rows[k];
            proof {
                let pre = rows@.subrange(0, k as int + 1);
                assert(pre.drop_last() =~= rows@.subrange(0, k as int));
                assert(pre.last() == r);
                assert forall|i: int| 0 <= i < pre.len() implies #[trigger] pre[i] == row_of(*self, pre[i].0)
                    && self.hits_view().contains_key(pre[i].0) by {
                    assert(pre[i] == rows@[i]);
                }
                assert forall|a: int, b: int| 0 <= a < b < pre.len() implies row_before(#[trigger] pre[a], #[trigger] pre[b]) by {
                    assert(pre[a] == rows@[a] && pre[b] == rows@[b]);
                }
                lemma_rows_sorted_distinct(pre, *self);
                lemma_column_sums(pre, *self);
                reveal(Tracker::wf);
                assert(sum_over(pre.map_values(|r: Row| r.0), self.hits@) <= self.hit_total@);
            }
            total_hits = total_hits + r.1;
            total_calls = total_calls + r.2;
            total_exits = total_exits + r.3;
            if r.2 == r.3 {
                cleanly_paired = cleanly_paired + 1;
            }
            k = k + 1;
        }
        proof {
            assert(rows@.subrange(0, m as int) =~= rows@);
        }
        TrackReport {
            rows,
            total_hits,
            total_calls,
            total_exits,
            cleanly_paired,
            pending_remaining: self.pending.len(),
        }
    }
}

/// Which call-site words are BL calls. In Thumb state the halfword read at
/// the branch source is the branching second half of a BL pair exactly when
/// its top five bits are all set (`0xF800..=0xFFFF`); the BL prefix half
/// (`0xF000..=0xF7FF`) and every other halfword is not. In ARM state the
/// word is a BL exactly when bits 24..28 read `0b1011`, whatever the
/// condition field.
pub proof fn lemma_bl_words(word: u32)
    ensures
        is_bl_word(word, true) <==> (word & 0xFFFFu32) >= 0xF800u32,
        (word & 0xFFFFu32) >= 0xF000u32 && (word & 0xFFFFu32) < 0xF800u32 ==> !is_bl_word(word, true),
        is_bl_word(word, false) <==> (word & 0x0F00_0000u32) == 0x0B00_0000u32,
{
    assert((((word as u16) >> 11u16) == 0x1Fu16) <==> (word & 0xFFFFu32) >= 0xF800u32) by (bit_vector);
    assert((((word >> 24u32) & 0xFu32) == 0xBu32) <==> (word & 0x0F00_0000u32) == 0x0B00_0000u32) by (bit_vector);
}

/// The address of the executed instruction: the PC register runs one fetch
/// ahead, 2 bytes in Thumb state (CPSR bit 5 set) and 4 in ARM state.
pub proof fn lemma_executed_pc(pc_reg: u32, cpsr: u32)
    ensures
        cpsr & 0x20u32 != 0 && pc_reg >= 2 ==> executed_pc(pc_reg, cpsr) == pc_reg - 2,
        cpsr & 0x20u32 == 0 && pc_reg >= 4 ==> executed_pc(pc_reg, cpsr) == pc_reg - 4,
        cpsr & 0x20u32 != 0 ==> instr_len(cpsr) == 2,
        cpsr & 0x20u32 == 0 ==> instr_len(cpsr) == 4,
{
}

/// Consecutive instructions are no branch: in Thumb state the next
/// instruction is 2 bytes on, in ARM state 4, so a PC register that moved
/// on by that width gives an executed address right after the last one.
pub proof fn lemma_sequential_not_branch(pc_reg: u32, cpsr: u32)
    requires
        4 <= pc_reg,
        pc_reg <= 0xFFFF_FFFBu32,
    ensures
        cpsr & 0x20u32 != 0 ==> executed_pc((pc_reg + 2) as u32, cpsr) == vstd::wrapping::u32_specs::wrapping_add(
            executed_pc(pc_reg, cpsr),
            instr_len(cpsr),
        ),
        cpsr & 0x20u32 == 0 ==> executed_pc((pc_reg + 4) as u32, cpsr) == vstd::wrapping::u32_specs::wrapping_add(
            executed_pc(pc_reg, cpsr),
            instr_len(cpsr),
        ),
        cpsr & 0x20u32 != 0 ==> executed_pc((pc_reg + 2) as u32, cpsr) == pc_reg,
{
}

/// An entry is never called more often than it is branched into.
pub proof fn lemma_calls_within_hits(t: Tracker, f: u32)
    requires
        t.wf(),
    ensures
        count_of(t.calls_view(), f) <= count_of(t.hits_view(), f),
{
}

/// Every exit is matched by an earlier call: the exits of a function plus
/// its returns still pending never exceed its calls.
pub proof fn lemma_exits_match_calls(t: Tracker, f: u32)
    requires
        t.wf(),
    ensures
        0 <= pending_count(t.pending_view(), f),
        count_of(t.exits_view(), f) + pending_count(t.pending_view(), f) <= count_of(t.calls_view(), f),
{
    lemma_pending_nonneg(t.pending_view(), f);
}

/// The pending-return stack never grows past its bound and holds only
/// function entries.
pub proof fn lemma_pending_bounded(t: Tracker)
    requires
        t.wf(),
    ensures
        t.pending_view().len() <= PENDING_MAX,
        forall|i: int| 0 <= i < t.pending_view().len() ==> t.is_entry(#[trigger] t.pending_view()[i].1),
{
}

/// Only targets are captured, and never more often than the cap allows.
pub proof fn lemma_captures_capped(t: Tracker, f: u32)
    requires
        t.wf(),
    ensures
        t.cap_view() > 0 ==> ucount_of(t.captured_view(), f) <= t.cap_view(),
        t.captured_view().contains_key(f) ==> t.targets_view().contains(f),
        ucount_of(t.captured_view(), f) <= count_of(t.calls_view(), f),
{
}

/// Hits are only counted at function entries, and the call graph only
/// relates function entries.
pub proof fn lemma_only_entries_counted(t: Tracker, c: u32, x: u32)
    requires
        t.wf(),
    ensures
        t.hits_view().contains_key(c) ==> t.is_entry(c),
        t.callgraph_view().contains_key(c) ==> t.is_entry(c),
        t.callgraph_view().contains_key(c) && t.callgraph_view()[c]@.contains(x) ==> t.is_entry(x),
{
}

} // verus!
