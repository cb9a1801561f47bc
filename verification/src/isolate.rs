//! Isolated runs: an entry snapshot restored with IRQs masked, stepped
//! until the PC reaches the captured return address, so the exit state is
//! free of interrupt interleavings that differ between two builds.
use vstd::prelude::*;

verus! {

/// A run gives up after this many steps.
pub const ISOLATED_MAX_STEPS: usize = 1_000_000;

/// CPSR with the I bit (bit 7) set: IRQs masked at the CPU.
pub fn irq_masked(cpsr: u32) -> (r: u32)
    ensures
        r == cpsr | 0x80,
{
    cpsr | 0x80
}

/// The return address of a captured entry: its link register without the
/// Thumb bit.
pub fn replay_target(entry_lr: u32) -> (t: u32)
    ensures
        t == entry_lr & !1u32,
{
    entry_lr & !1u32
}

/// The instruction just executed, read from r15 after a step: r15 less the
/// instruction length (2 in Thumb state, 4 in ARM), wrapping.
pub open spec fn stepped_pc(r15: u32, cpsr: u32) -> u32 {
    vstd::wrapping::u32_specs::wrapping_sub(r15, if cpsr & 0x20 != 0 { 2u32 } else { 4u32 })
}

/// What an isolated run does next.
#[derive(Clone, Copy, Debug, PartialEq, Eq, Structural)]
pub enum IsolatedStep {
    Step,
    /// The target is reached: capture the exit state.
    Arrived,
    /// The step budget is spent without reaching the target.
    GiveUp,
}

/// The decision after `steps` steps, given the registers (r15, CPSR) read
/// after the last one (`None` before the first): arrived when that step
/// landed on `target`; else give up once the budget is spent; else step.
pub open spec fn isolated_step_spec(steps: int, last: Option<(u32, u32)>, target: u32) -> IsolatedStep {
    if last matches Some(r) && stepped_pc(r.0, r.1) == target {
        IsolatedStep::Arrived
    } else if steps >= ISOLATED_MAX_STEPS {
        IsolatedStep::GiveUp
    } else {
        IsolatedStep::Step
    }
}

/// The next step of an isolated run.
pub fn isolated_step(steps: usize, last: Option<(u32, u32)>, target: u32) -> (r: IsolatedStep)
    ensures
        r == isolated_step_spec(steps as int, last, target),
{
    match last {
        Some((r15, cpsr)) => {
            let len: u32 = if cpsr & 0x20 != 0 { 2 } else { 4 };
            if r15.wrapping_sub(len) == target {
                return IsolatedStep::Arrived;
            }
        },
        None => {},
    }
    if steps >= ISOLATED_MAX_STEPS {
        IsolatedStep::GiveUp
    } else {
        IsolatedStep::Step
    }
}

/// Step `k` (from 1) of the trace lands on the target.
pub open spec fn lands(regs: Seq<(u32, u32)>, k: int, target: u32) -> bool {
    stepped_pc(regs[k - 1].0, regs[k - 1].1) == target
}

/// The number of steps after which an isolated run stops on a given
/// trace of registers read after each step: the first step landing on the
/// target, if one does within the budget.
pub open spec fn isolated_arrival(regs: Seq<(u32, u32)>, target: u32) -> Option<int> {
    if exists|k: int| 1 <= k <= ISOLATED_MAX_STEPS && k <= regs.len() && #[trigger] lands(regs, k, target) {
        Some(choose|k: int| 1 <= k <= ISOLATED_MAX_STEPS && k <= regs.len() && #[trigger] lands(regs, k, target)
            && forall|j: int| 1 <= j < k ==> !lands(regs, j, target))
    } else {
        None
    }
}

/// An isolated run steps until the first step that lands on the target and
/// then captures the exit; if no step within the budget lands there, it
/// gives up after exactly the budget of steps. Always at least one step.
pub proof fn lemma_isolated_outcome(regs: Seq<(u32, u32)>, target: u32)
    requires
        regs.len() == ISOLATED_MAX_STEPS,
    ensures
        isolated_step_spec(0, None, target) == IsolatedStep::Step,
        isolated_arrival(regs, target) matches Some(k) ==> {
            &&& isolated_step_spec(k, Some(regs[k - 1]), target) == IsolatedStep::Arrived
            &&& forall|j: int| 1 <= j < k ==> #[trigger] isolated_step_spec(j, Some(regs[j - 1]), target) == IsolatedStep::Step
        },
        isolated_arrival(regs, target) is None ==> {
            &&& isolated_step_spec(ISOLATED_MAX_STEPS as int, Some(regs[ISOLATED_MAX_STEPS - 1]), target) == IsolatedStep::GiveUp
            &&& forall|j: int| 1 <= j < ISOLATED_MAX_STEPS ==> #[trigger] isolated_step_spec(j, Some(regs[j - 1]), target) == IsolatedStep::Step
        },
{
    if exists|k: int| 1 <= k <= ISOLATED_MAX_STEPS && k <= regs.len() && #[trigger] lands(regs, k, target) {
        let w = choose|k: int| 1 <= k <= ISOLATED_MAX_STEPS && k <= regs.len() && #[trigger] lands(regs, k, target);
        lemma_least_landing(regs, target, w);
        let k = isolated_arrival(regs, target)->Some_0;
        assert forall|j: int| 1 <= j < k implies #[trigger] isolated_step_spec(j, Some(regs[j - 1]), target) == IsolatedStep::Step by {
            assert(!lands(regs, j, target));
        }
    } else {
        assert forall|j: int| 1 <= j < ISOLATED_MAX_STEPS implies #[trigger] isolated_step_spec(j, Some(regs[j - 1]), target) == IsolatedStep::Step by {
            assert(!lands(regs, j, target));
        }
        assert(!lands(regs, ISOLATED_MAX_STEPS as int, target));
    }
}

proof fn lemma_least_landing(regs: Seq<(u32, u32)>, target: u32, w: int)
    requires
        1 <= w <= regs.len(),
        lands(regs, w, target),
    ensures
        exists|k: int| 1 <= k <= w && #[trigger] lands(regs, k, target)
            && forall|j: int| 1 <= j < k ==> !lands(regs, j, target),
    decreases w,
{
    if exists|j: int| 1 <= j < w && #[trigger] lands(regs, j, target) {
        let j = choose|j: int| 1 <= j < w && #[trigger] lands(regs, j, target);
        lemma_least_landing(regs, target, j);
    }
}

/// The message of an isolated run that spent its budget:
/// `didn't reach LR 0x{target:08X} in 1000000 steps`.
pub open spec fn isolated_failure_spec(target: u32) -> Seq<char> {
    "didn't reach LR 0x"@ + crate::report::pad_left(crate::report::hex_upper_chars(target as nat), 8, '0') + " in "@
        + crate::num::dec_chars(ISOLATED_MAX_STEPS as nat) + " steps"@
}

/// The error text of an isolated run that gave up short of `target`.
pub fn isolated_failure(target: u32) -> (s: String)
    ensures
        s@ == isolated_failure_spec(target),
{
    let mut out: Vec<char> = Vec::new();
    crate::compare::push_str(&mut out, "didn't reach LR 0x");
    crate::compare::push_all(&mut out, &crate::report::hex_upper(target as u64, 8));
    crate::compare::push_str(&mut out, " in ");
    crate::compare::push_all(&mut out, &crate::num::decimal(ISOLATED_MAX_STEPS as u64));
    crate::compare::push_str(&mut out, " steps");
    crate::text::string_of(out.as_slice())
}

} // verus!
