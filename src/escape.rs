use vstd::prelude::*;

verus! {

/// What the escape loop reports once it stopped after `iterations` steps:
/// a loop that reached the cap never escaped, so the point counts as a member.
pub open spec fn outcome_of(iterations: u32, max_iterations: u32) -> Option<u32> {
    if iterations >= max_iterations {
        None
    } else {
        Some(iterations)
    }
}

/// Final decision of the escape-time test: `None` for a member of the set,
/// `Some(n)` for a point that escaped after `n` steps.
pub fn escape_outcome(iterations: u32, max_iterations: u32) -> (r: Option<u32>)
    ensures
        r == outcome_of(iterations, max_iterations),
        r matches Some(n) ==> n < max_iterations,
{
    if iterations >= max_iterations {
        None
    } else {
        Some(iterations)
    }
}

/// With a cap of zero no step is taken, and every point counts as a member.
pub proof fn lemma_zero_cap_is_member(iterations: u32)
    ensures
        outcome_of(iterations, 0) is None,
{
}

/// Entry of the results buffer for an escape result: `-1` for a member,
/// the iteration count otherwise.
pub open spec fn code_of(e: Option<u32>) -> i32 {
    match e {
        None => -1i32,
        Some(n) => n as i32,
    }
}

/// An escape result whose count is representable in the results buffer.
pub open spec fn code_fits(e: Option<u32>) -> bool {
    e matches Some(n) ==> n <= i32::MAX
}

pub fn result_code(e: Option<u32>) -> (r: i32)
    requires
        code_fits(e),
    ensures
        r == code_of(e),
        e is None <==> r == -1,
        e matches Some(n) ==> r == n,
{
    match e {
        None => -1i32,
        Some(n) => n as i32,
    }
}

} // verus!
