use vstd::prelude::*;

verus! {

/// Whether failure simulation is bypassed: recoveries are already nested as
/// deep as allowed.
#[verifier::allow_in_spec]
pub fn should_bypass_failures(recovery_depth: usize, max_recovery_depth: usize) -> (bypass: bool)
    returns
        recovery_depth >= max_recovery_depth,
{
    recovery_depth >= max_recovery_depth
}

/// Whether mistakes may be simulated for a call: the caller allows them and
/// failures are not bypassed.
#[verifier::allow_in_spec]
pub fn failures_enabled(allow_error: bool, recovery_depth: usize, max_recovery_depth: usize) -> (enabled: bool)
    returns
        allow_error && recovery_depth < max_recovery_depth,
{
    allow_error && !should_bypass_failures(recovery_depth, max_recovery_depth)
}

/// The recovery depth inside a recovery context entered at `recovery_depth`.
#[verifier::allow_in_spec]
pub fn enter_recovery(recovery_depth: usize) -> (inner: usize)
    requires
        recovery_depth < usize::MAX,
    returns
        (recovery_depth + 1) as usize,
{
    recovery_depth + 1
}

/// The recovery depth once a recovery context entered at `recovery_depth - 1` is left.
#[verifier::allow_in_spec]
pub fn leave_recovery(recovery_depth: usize) -> (outer: usize)
    requires
        recovery_depth > 0,
    returns
        (recovery_depth - 1) as usize,
{
    recovery_depth - 1
}

/// The recursion guard: leaving a recovery context restores the depth it was
/// entered at, and inside it failures are bypassed exactly when the inner
/// depth reaches the maximum. With the default maximum of one, failures are
/// simulated at the top level and bypassed inside its recovery, so a
/// recovery never triggers a nested one.
pub proof fn lemma_recovery_context(depth: usize, max_depth: usize)
    requires
        depth < usize::MAX,
    ensures
        leave_recovery(enter_recovery(depth)) == depth,
        should_bypass_failures(enter_recovery(depth), max_depth) == (depth + 1 >= max_depth),
        !should_bypass_failures(0, 1),
        should_bypass_failures(enter_recovery(0), 1),
{
}

} // verus!
