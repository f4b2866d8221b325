//! The preferred-target fast path shared by TCP and serial discovery: the
//! preferred host or port is probed once, then up to `retry` more times
//! with a delay in between, before discovery falls back to a full sweep.

use vstd::prelude::*;

verus! {

/// What discovery does after a probe of its preferred target.
#[derive(Debug, Clone, Copy, PartialEq, Eq, Structural)]
pub enum PreferredNext {
    /// The target answered: its matches are the result.
    Found,
    /// Wait the retry delay, then probe the target again.
    RetryAfterDelay,
    /// Give up on the target and sweep.
    FallBack,
}

/// The step after probe number `attempt` (counting from 0) of a target
/// allowed `retry` retries.
pub open spec fn preferred_next_spec(attempt: nat, retry: nat, found: bool) -> PreferredNext {
    if found {
        PreferredNext::Found
    } else if attempt < retry {
        PreferredNext::RetryAfterDelay
    } else {
        PreferredNext::FallBack
    }
}

/// Decides the step after a probe of the preferred target.
pub fn preferred_next(attempt: u32, retry: u32, found: bool) -> (r: PreferredNext)
    ensures
        r == preferred_next_spec(attempt as nat, retry as nat, found),
{
    if found {
        PreferredNext::Found
    } else if attempt < retry {
        PreferredNext::RetryAfterDelay
    } else {
        PreferredNext::FallBack
    }
}

/// A silent target is probed exactly `retry + 1` times: every probe before
/// number `retry` is followed by another, and that one by the sweep.
pub proof fn lemma_preferred_attempts(retry: nat)
    ensures
        forall|a: nat| a < retry ==> #[trigger] preferred_next_spec(a, retry, false)
            == PreferredNext::RetryAfterDelay,
        preferred_next_spec(retry, retry, false) == PreferredNext::FallBack,
{
}

} // verus!
