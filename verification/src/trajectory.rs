//! Orbits of an iterated map: the initial state followed by the result of
//! each step.

use vstd::prelude::*;

verus! {

/// The orbit of `x0` under `step` for `n` steps: `n + 1` states, the first
/// being `x0` and each next one what `step` returned for the one before.
pub fn trajectory<T, F: Fn(&T) -> T>(x0: T, n: usize, step: F) -> (traj: Vec<T>)
    requires
        n < usize::MAX,
        forall|x: &T| call_requires(step, (x,)),
    ensures
        traj@.len() == n + 1,
        traj@[0] == x0,
        forall|k: int| 0 <= k < n ==> call_ensures(step, (&traj@[k],), #[trigger] traj@[k + 1]),
{
    let mut traj: Vec<T> = Vec::new();
    traj.push(x0);
    let mut k: usize = 0;
    while k < n
        invariant
            k <= n < usize::MAX,
            forall|x: &T| call_requires(step, (x,)),
            traj@.len() == k + 1,
            traj@[0] == x0,
            forall|m: int| 0 <= m < k ==> call_ensures(step, (&traj@[m],), #[trigger] traj@[m + 1]),
        decreases n - k,
    {
        let next = step(&traj[k]);
        traj.push(next);
        k = k + 1;
    }
    traj
}

} // verus!
