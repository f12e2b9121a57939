//! The iteration of Newton's method for fixed points: take Newton steps
//! until the residual is small enough, the linear system is singular, or
//! the iteration budget is spent, then test the last iterate once more.

use vstd::prelude::*;

verus! {

/// What one Newton step found at the current iterate.
pub enum NewtonStep<X> {
    /// The residual is within the tolerance: the iterate is a fixed point.
    Converged,
    /// The Jacobian system has no solution: the search stops.
    Singular,
    /// The next iterate.
    Moved(X),
}

/// `iterates` is a run of the search from `x0` with at most `max_iter`
/// steps that ended in `result`: each iterate moved to the next, and the
/// last one either stopped the search (converged or singular) before the
/// budget was spent, or was tested by `accept_final` once it was.
pub open spec fn newton_run<X, S: Fn(&X) -> NewtonStep<X>, A: Fn(&X) -> bool>(
    step: S,
    accept_final: A,
    x0: X,
    max_iter: int,
    iterates: Seq<X>,
    result: Option<X>,
) -> bool {
    let m = iterates.len() - 1;
    &&& 1 <= iterates.len() <= max_iter + 1
    &&& iterates[0] == x0
    &&& forall|k: int|
        0 <= k < m ==> call_ensures(step, (&iterates[k],), NewtonStep::Moved(#[trigger] iterates[k + 1]))
    &&& if m < max_iter {
        ||| call_ensures(step, (&iterates[m],), NewtonStep::Converged) && result == Some(iterates[m])
        ||| call_ensures(step, (&iterates[m],), NewtonStep::Singular) && result == None::<X>
    } else {
        ||| call_ensures(accept_final, (&iterates[m],), true) && result == Some(iterates[m])
        ||| call_ensures(accept_final, (&iterates[m],), false) && result == None::<X>
    }
}

/// Newton's method from `x0`: at most `max_iter` steps; a converged step
/// returns its iterate, a singular one returns `None`, and when the budget
/// is spent the last iterate is returned if `accept_final` accepts it.
pub fn newton_search<X, S: Fn(&X) -> NewtonStep<X>, A: Fn(&X) -> bool>(
    x0: X,
    max_iter: usize,
    step: S,
    accept_final: A,
) -> (result: Option<X>)
    requires
        forall|x: &X| call_requires(step, (x,)),
        forall|x: &X| call_requires(accept_final, (x,)),
    ensures
        exists|iterates: Seq<X>| newton_run(step, accept_final, x0, max_iter as int, iterates, result),
{
    let ghost mut iterates: Seq<X> = seq![x0];
    let mut x = x0;
    let mut it: usize = 0;
    while it < max_iter
        invariant
            it <= max_iter,
            forall|x: &X| call_requires(step, (x,)),
            forall|x: &X| call_requires(accept_final, (x,)),
            iterates.len() == it + 1,
            iterates[0] == x0,
            iterates[it as int] == x,
            forall|k: int|
                0 <= k < it ==> call_ensures(step, (&iterates[k],), NewtonStep::Moved(#[trigger] iterates[k + 1])),
        decreases max_iter - it,
    {
        match step(&x) {
            NewtonStep::Converged => {
                assert(newton_run(step, accept_final, x0, max_iter as int, iterates, Some(x)));
                return Some(x);
            },
            NewtonStep::Singular => {
                assert(newton_run(step, accept_final, x0, max_iter as int, iterates, None));
                return None;
            },
            NewtonStep::Moved(next) => {
                proof {
                    iterates = iterates.push(next);
                }
                x = next;
            },
        }
        it = it + 1;
    }
    if accept_final(&x) {
        assert(newton_run(step, accept_final, x0, max_iter as int, iterates, Some(x)));
        Some(x)
    } else {
        assert(newton_run(step, accept_final, x0, max_iter as int, iterates, None));
        None
    }
}

/// What a search can return: a fixed point only when a step confirmed it or
/// the final test accepted it, and nothing only when a step found the
/// system singular or the final test rejected the last iterate. When each
/// call answers one way only, a search whose start already converges
/// returns the start, and a search with no step budget returns the start
/// exactly when the final test accepts it.
pub proof fn lemma_newton_outcomes<X, S: Fn(&X) -> NewtonStep<X>, A: Fn(&X) -> bool>(
    step: S,
    accept_final: A,
    x0: X,
    max_iter: int,
    iterates: Seq<X>,
    result: Option<X>,
)
    requires
        newton_run(step, accept_final, x0, max_iter, iterates, result),
    ensures
        result matches Some(x) ==> call_ensures(step, (&x,), NewtonStep::Converged) || call_ensures(
            accept_final,
            (&x,),
            true,
        ),
        result is None ==> exists|x: X|
            call_ensures(step, (&x,), NewtonStep::Singular) || call_ensures(accept_final, (&x,), false),
        (forall|x: &X, a: NewtonStep<X>, b: NewtonStep<X>|
            call_ensures(step, (x,), a) && call_ensures(step, (x,), b) ==> a == b) && max_iter > 0
            && call_ensures(step, (&x0,), NewtonStep::Converged) ==> result == Some(x0),
        (forall|x: &X, a: bool, b: bool|
            call_ensures(accept_final, (x,), a) && call_ensures(accept_final, (x,), b) ==> a == b)
            && max_iter == 0 ==> (result == Some(x0) <==> call_ensures(accept_final, (&x0,), true)),
{
    let m = iterates.len() - 1;
    if result is None {
        assert(call_ensures(step, (&iterates[m],), NewtonStep::Singular) || call_ensures(
            accept_final,
            (&iterates[m],),
            false,
        ));
    }
    if (forall|x: &X, a: NewtonStep<X>, b: NewtonStep<X>|
        call_ensures(step, (x,), a) && call_ensures(step, (x,), b) ==> a == b) && max_iter > 0
        && call_ensures(step, (&x0,), NewtonStep::Converged) {
        if m > 0 {
            assert(call_ensures(step, (&iterates[0],), NewtonStep::Moved(iterates[0int + 1])));
            assert(NewtonStep::<X>::Converged != NewtonStep::Moved(iterates[1]));
        } else {
            assert(call_ensures(step, (&iterates[0],), NewtonStep::<X>::Converged));
            assert(NewtonStep::<X>::Converged != NewtonStep::<X>::Singular);
        }
    }
}

} // verus!
