//! The emulated GBA as the harness reads it: the ARM7TDMI's architectural
//! registers, serialized machine states and their fingerprints, the
//! cartridge title, and the stepping decisions of `run_to_pc`. The
//! emulator itself is driven from outside; these are the rules applied to
//! what it reports.
use vstd::prelude::*;
use crate::{fnv1a64, fnv1a64_spec};

verus! {

/// The CPU's registers as read off the emulator.
#[derive(Clone, Copy, Debug)]
pub struct Core {
    /// r0..r15; r15 is the raw pipeline PC.
    pub gprs: [u32; 16],
    /// CPSR, raw. Bit 5 = Thumb, low 5 bits = privilege mode.
    pub cpsr: u32,
}

/// Thumb state: CPSR bit 5.
pub open spec fn thumb_state(cpsr: u32) -> bool {
    cpsr & 0x20 != 0
}

/// The address of the next instruction: r15 is one fetch ahead (2 bytes in
/// Thumb, 4 in ARM), wrapping below zero.
pub open spec fn exec_pc(r15: u32, cpsr: u32) -> u32 {
    vstd::wrapping::u32_specs::wrapping_sub(r15, if thumb_state(cpsr) { 2u32 } else { 4u32 })
}

/// The next `run_to_pc` decision.
#[derive(Clone, Copy, Debug, PartialEq, Eq, Structural)]
pub enum RunStep {
    /// The next instruction is at the target: done, after this many steps.
    Reached(u64),
    /// Step once more and ask again.
    Step,
    /// Step once more; the step budget is then spent and the run fails.
    LastStep,
}

impl Core {
    pub open spec fn pc_spec(self) -> u32 {
        exec_pc(self.gprs[15], self.cpsr)
    }

    /// CPSR, raw.
    pub fn cpsr(&self) -> (r: u32)
        ensures
            r == self.cpsr,
    {
        self.cpsr
    }

    pub fn is_thumb(&self) -> (r: bool)
        ensures
            r == thumb_state(self.cpsr),
    {
        self.cpsr & 0x20 != 0
    }

    /// General-purpose register `n` (0..=15).
    pub fn gpr(&self, n: usize) -> (r: u32)
        requires
            n < 16,
        ensures
            r == self.gprs[n as int],
    {
        self.gprs[n]
    }

    /// Address of the next instruction the CPU will execute.
    pub fn pc(&self) -> (r: u32)
        ensures
            r == self.pc_spec(),
    {
        let width: u32 = if self.is_thumb() { 2 } else { 4 };
        self.gpr(15).wrapping_sub(width)
    }

    /// Link register (return address as the CPU sees it, Thumb bit included).
    pub fn lr(&self) -> (r: u32)
        ensures
            r == self.gprs[14],
    {
        self.gpr(14)
    }

    /// One decision of running to `target` (Thumb bit ignored) within
    /// `max_steps` steps, `taken` steps in: the run checks before stepping,
    /// so a core already at the target takes 0 steps, and it never steps
    /// more than `max_steps + 1` times.
    pub fn run_to_pc(&self, target: u32, max_steps: u64, taken: u64) -> (r: RunStep)
        requires
            taken <= max_steps,
        ensures
            r == run_step_spec(self.pc_spec(), target, max_steps, taken),
    {
        let target = target & !1u32;
        if self.pc() == target {
            RunStep::Reached(taken)
        } else if taken < max_steps {
            RunStep::Step
        } else {
            RunStep::LastStep
        }
    }
}

/// The `run_to_pc` decision at a core whose next instruction is at `pc`.
pub open spec fn run_step_spec(pc: u32, target: u32, max_steps: u64, taken: u64) -> RunStep {
    if pc == target & !1u32 {
        RunStep::Reached(taken)
    } else if taken < max_steps {
        RunStep::Step
    } else {
        RunStep::LastStep
    }
}

/// The first step count `k <= max_steps` at which the run is at the
/// target, given the pc before each step.
pub open spec fn first_arrival(pcs: Seq<u32>, target: u32, max_steps: u64) -> Option<int> {
    if exists|k: int| 0 <= k <= max_steps && k < pcs.len() && pcs[k] == target & !1u32 {
        Some(choose|k: int| 0 <= k <= max_steps && k < pcs.len() && pcs[k] == target & !1u32 && forall|j: int|
            0 <= j < k ==> pcs[j] != target & !1u32)
    } else {
        None
    }
}

/// Run to a pc, over the pcs the run sees before each of its steps: it
/// steps on until the first arrival at the target and reports that step
/// count; without an arrival within `max_steps`, it steps `max_steps + 1`
/// times and fails.
pub proof fn lemma_run_to_pc_outcome(pcs: Seq<u32>, target: u32, max_steps: u64)
    requires
        pcs.len() == max_steps + 1,
    ensures
        first_arrival(pcs, target, max_steps) matches Some(k) ==> {
            &&& run_step_spec(pcs[k], target, max_steps, k as u64) == RunStep::Reached(k as u64)
            &&& forall|j: int| 0 <= j < k ==> #[trigger] run_step_spec(pcs[j], target, max_steps, j as u64) == RunStep::Step
        },
        first_arrival(pcs, target, max_steps) is None ==> {
            &&& run_step_spec(pcs[max_steps as int], target, max_steps, max_steps) == RunStep::LastStep
            &&& forall|j: int| 0 <= j < max_steps ==> #[trigger] run_step_spec(pcs[j], target, max_steps, j as u64) == RunStep::Step
        },
{
    let t = target & !1u32;
    if exists|k: int| 0 <= k <= max_steps && k < pcs.len() && pcs[k] == t {
        let w = choose|k: int| 0 <= k <= max_steps && k < pcs.len() && pcs[k] == t;
        lemma_least_arrival(pcs, t, w);
        let k = first_arrival(pcs, target, max_steps)->Some_0;
        assert forall|j: int| 0 <= j < k implies #[trigger] run_step_spec(pcs[j], target, max_steps, j as u64) == RunStep::Step by {
            assert(pcs[j] != t);
        }
    } else {
        assert forall|j: int| 0 <= j < max_steps implies #[trigger] run_step_spec(pcs[j], target, max_steps, j as u64) == RunStep::Step by {
            assert(pcs[j] != t);
        }
        assert(pcs[max_steps as int] != t);
    }
}

/// The Thumb bit of the target never changes a run to a pc: every
/// decision, and so the first arrival over any pcs the run sees (the steps
/// it takes and where it stops), are the same for `target | 1` and for
/// `target & !1`.
pub proof fn lemma_run_to_pc_ignores_thumb(pcs: Seq<u32>, target: u32, max_steps: u64)
    ensures
        forall|pc: u32, k: u64| #[trigger] run_step_spec(pc, target | 1u32, max_steps, k)
            == run_step_spec(pc, target & !1u32, max_steps, k),
        first_arrival(pcs, target | 1u32, max_steps) == first_arrival(pcs, target & !1u32, max_steps),
{
    assert((target | 1u32) & !1u32 == (target & !1u32) & !1u32) by (bit_vector);
}

/// Some arrival implies a first one.
proof fn lemma_least_arrival(pcs: Seq<u32>, t: u32, w: int)
    requires
        0 <= w < pcs.len(),
        pcs[w] == t,
    ensures
        exists|k: int| 0 <= k <= w && pcs[k] == t && forall|j: int| 0 <= j < k ==> pcs[j] != t,
    decreases w,
{
    if exists|j: int| 0 <= j < w && pcs[j] == t {
        let j = choose|j: int| 0 <= j < w && pcs[j] == t;
        lemma_least_arrival(pcs, t, j);
    } else {
        assert(forall|j: int| 0 <= j < w ==> pcs[j] != t);
    }
}

/// A full serialized machine state.
pub struct Snapshot {
    bytes: Vec<u8>,
}

impl View for Snapshot {
    type V = Seq<u8>;

    closed spec fn view(&self) -> Seq<u8> {
        self.bytes@
    }
}

impl Snapshot {
    /// A snapshot of the serialized bytes.
    pub fn from_bytes(bytes: Vec<u8>) -> (s: Snapshot)
        ensures
            s@ == bytes@,
    {
        Snapshot { bytes }
    }

    /// The serialized bytes.
    pub fn bytes(&self) -> (b: &[u8])
        ensures
            b@ == self@,
    {
        self.bytes.as_slice()
    }

    pub fn len(&self) -> (n: usize)
        ensures
            n == self@.len(),
    {
        self.bytes.len()
    }

    pub fn is_empty(&self) -> (b: bool)
        ensures
            b == (self@.len() == 0),
    {
        self.bytes.len() == 0
    }
}

impl Core {
    /// FNV-1a fingerprint of a full serialized state.
    pub fn state_hash(state: &Snapshot) -> (h: u64)
        ensures
            h == fnv1a64_spec(state@),
    {
        fnv1a64(state.bytes())
    }

    /// FNV-1a fingerprint of a state in canonical form (saved, restored and
    /// saved again): use this whenever the states compared may differ in
    /// restore history.
    pub fn canonical_hash(canonical: &Snapshot) -> (h: u64)
        ensures
            h == fnv1a64_spec(canonical@),
    {
        fnv1a64(canonical.bytes())
    }
}

/// Bus address of the cartridge title in the ROM header.
pub const TITLE_ADDR: u32 = 0x0800_00A0;

/// The title field is at most this long.
pub const TITLE_LEN: u32 = 12;

/// The title bytes: the header field up to its first zero byte.
pub open spec fn title_bytes(header: Seq<u8>) -> Seq<u8> {
    let n = if header.len() < 12 { header.len() as int } else { 12 };
    let z = first_zero(header, n);
    header.take(z)
}

/// The first index below `n` holding zero, or `n`.
pub open spec fn first_zero(s: Seq<u8>, n: int) -> int
    decreases n,
{
    if n <= 0 {
        0
    } else {
        let z = first_zero(s, n - 1);
        if z < n - 1 {
            z
        } else if s[n - 1] == 0 {
            n - 1
        } else {
            n
        }
    }
}

/// What `String::from_utf8_lossy` makes of some bytes.
pub uninterp spec fn utf8_lossy(bytes: Seq<u8>) -> Seq<char>;

/// Calls `String::from_utf8_lossy`. Trusted to return the string named
/// `utf8_lossy` of the bytes, which is their decoding when they are valid
/// UTF-8 (the documented borrowed case). How invalid sequences are replaced
/// is not restated.
#[verifier::external_body]
fn from_utf8_lossy(bytes: &[u8]) -> (s: String)
    ensures
        s@ == utf8_lossy(bytes@),
        vstd::utf8::valid_utf8(bytes@) ==> s@ == vstd::utf8::decode_utf8(bytes@),
{
    String::from_utf8_lossy(bytes).into_owned()
}

impl Core {
    /// The cartridge-header game title from the bytes read off the bus at
    /// `TITLE_ADDR`: up to 12 bytes, ending at the first zero byte.
    pub fn rom_title(header: &[u8]) -> (t: String)
        ensures
            t@ == utf8_lossy(title_bytes(header@)),
            vstd::utf8::valid_utf8(title_bytes(header@)) ==> t@ == vstd::utf8::decode_utf8(title_bytes(header@)),
    {
        let n: usize = if header.len() < 12 { header.len() } else { 12 };
        let mut bytes: Vec<u8> = Vec::new();
        let mut i: usize = 0;
        while i < n && header[i] != 0
            invariant
                i <= n <= header.len(),
                n == if header@.len() < 12 { header@.len() as int } else { 12 },
                first_zero(header@, i as int) == i,
                bytes@ == header@.take(i as int),
            decreases n - i,
        {
            bytes.push(header[i]);
            assert(bytes@ =~= header@.take(i as int + 1));
            i = i + 1;
        }
        proof {
            if i < n {
                lemma_first_zero_stays(header@, i as int + 1, n as int);
            }
            assert(title_bytes(header@) == header@.take(i as int));
        }
        from_utf8_lossy(bytes.as_slice())
    }
}

proof fn lemma_first_zero_stays(s: Seq<u8>, k: int, n: int)
    requires
        1 <= k <= n,
        first_zero(s, k) < k,
    ensures
        first_zero(s, n) == first_zero(s, k),
    decreases n - k,
{
    if k < n {
        lemma_first_zero_stays(s, k + 1, n);
    }
}

/// `{v:#010x}`: `0x` and eight lower-case hex digits.
pub open spec fn hex_prefixed(v: u32) -> Seq<char> {
    "0x"@ + crate::report::pad_left(crate::report::hex_lower_num_chars(v as nat), 8, '0')
}

/// The message of a `run_to_pc` that spent its budget: the target (Thumb
/// bit cleared), the budget and where the PC is now.
pub open spec fn run_to_pc_failure_spec(target: u32, max_steps: u64, pc_now: u32) -> Seq<char> {
    "run_to_pc: "@ + hex_prefixed(target & !1u32) + " not reached within "@ + crate::num::dec_chars(max_steps as nat)
        + " steps (pc now "@ + hex_prefixed(pc_now) + ")"@
}

fn push_hex_prefixed(out: &mut Vec<char>, v: u32)
    ensures
        final(out)@ == old(out)@ + hex_prefixed(v),
{
    crate::compare::push_str(out, "0x");
    crate::compare::push_all(out, &crate::report::hex_lower_padded(v as u64, 8));
}

/// The error text of a `run_to_pc` that did not reach `target` within
/// `max_steps` steps, with the PC it stopped at.
pub fn run_to_pc_failure(target: u32, max_steps: u64, pc_now: u32) -> (s: String)
    ensures
        s@ == run_to_pc_failure_spec(target, max_steps, pc_now),
{
    let mut out: Vec<char> = Vec::new();
    crate::compare::push_str(&mut out, "run_to_pc: ");
    push_hex_prefixed(&mut out, target & !1u32);
    crate::compare::push_str(&mut out, " not reached within ");
    crate::compare::push_all(&mut out, &crate::num::decimal(max_steps));
    crate::compare::push_str(&mut out, " steps (pc now ");
    push_hex_prefixed(&mut out, pc_now);
    crate::compare::push_str(&mut out, ")");
    crate::text::string_of(out.as_slice())
}

} // verus!
