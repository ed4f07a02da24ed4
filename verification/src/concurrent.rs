//! Awaiting the futures that a stream yields concurrently.

use vstd::prelude::*;

verus! {

/// The bounds on how many outputs are still to come: those of the inner stream (`lower`, and
/// `upper` if it has one), plus one for every future that is already running. The lower bound
/// saturates; an upper bound that overflows is no bound.
pub fn concurrent_size_hint(lower: usize, upper: Option<usize>, running: usize) -> (r: (
    usize,
    Option<usize>,
))
    ensures
        r.0 == (if lower + running <= usize::MAX {
            lower + running
        } else {
            usize::MAX as int
        }),
        upper is None ==> r.1 is None,
        upper matches Some(u) ==> (if u + running <= usize::MAX {
            r.1 == Some((u + running) as usize)
        } else {
            r.1 is None
        }),
{
    let lo = lower.saturating_add(running);
    let hi = match upper {
        Some(u) => u.checked_add(running),
        None => None,
    };
    (lo, hi)
}

} // verus!
