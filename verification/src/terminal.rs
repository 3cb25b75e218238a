//! Model of the terminal/process-group handoff used for interactive job
//! control. The handoff blocks the job-control signals, tries to hand the
//! controlling terminal to a target process group, and restores the
//! previous signal mask unconditionally — also when the foreground-group
//! call failed. The OS calls themselves (sigmask, tcsetpgrp) live in the
//! host program; the decisions and the mask bookkeeping are modeled here as
//! pure functions over masks held as bit sets, so that the restore
//! guarantee is proved rather than hoped for.

use vstd::prelude::*;

verus! {

/// A scoped save of the signal mask: blocking signals hands back a guard
/// holding the mask to restore.
pub struct MaskGuard {
    pub saved: u64,
}

impl MaskGuard {
    /// Blocks `to_block` on top of the current mask, saving the current
    /// mask for the restore.
    pub fn block(current: u64, to_block: u64) -> (r: (MaskGuard, u64))
        ensures
            r.0.saved == current,
            r.1 == current | to_block,
    {
        (MaskGuard { saved: current }, current | to_block)
    }

    /// Restores the saved mask, unconditionally.
    pub fn restore(self) -> (r: u64)
        ensures
            r == self.saved,
    {
        self.saved
    }
}

/// The handoff as a function of the starting mask, the job-control signal
/// set, and the outcome of the foreground-group call: reported success, the
/// mask held during the critical section, and the mask after the restore.
pub open spec fn handoff_spec(initial_mask: u64, job_signals: u64, fg_ok: bool) -> (
    bool,
    u64,
    u64,
) {
    (fg_ok, initial_mask | job_signals, initial_mask)
}

/// Runs the mask bookkeeping of the handoff: blocks the job-control
/// signals, reports whether the terminal was given (exactly the outcome of
/// the foreground-group call), and restores the starting mask whatever that
/// outcome was.
pub fn give_terminal_outcome(initial_mask: u64, job_signals: u64, fg_ok: bool) -> (r: (
    bool,
    u64,
    u64,
))
    ensures
        r == handoff_spec(initial_mask, job_signals, fg_ok),
{
    let (guard, blocked) = MaskGuard::block(initial_mask, job_signals);
    let given = fg_ok;
    let restored = guard.restore();
    (given, blocked, restored)
}

/// On failure of the foreground-group call the handoff reports `false`;
/// whatever the outcome, the restored mask equals the mask before the call,
/// and every job-control signal was blocked throughout the critical
/// section.
pub proof fn lemma_handoff_restores_mask(initial_mask: u64, job_signals: u64, fg_ok: bool)
    ensures
        handoff_spec(initial_mask, job_signals, fg_ok).2 == initial_mask,
        handoff_spec(initial_mask, job_signals, fg_ok).0 == fg_ok,
        !fg_ok ==> !handoff_spec(initial_mask, job_signals, fg_ok).0,
        handoff_spec(initial_mask, job_signals, fg_ok).1 & job_signals == job_signals,
{
    assert((initial_mask | job_signals) & job_signals == job_signals) by (bit_vector);
}

} // verus!
