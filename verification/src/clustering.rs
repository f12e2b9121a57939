//! First-fit grouping of final states into attractors: each state joins the
//! first known attractor that it lies near, or becomes a new attractor.

use vstd::prelude::*;

verus! {

/// The attractors found among a list of items and the attractor of each.
pub struct Clustering {
    /// For each attractor, in order of discovery, the item that founded it.
    pub representatives: Vec<usize>,
    /// For each item, the index of its attractor in `representatives`, or
    /// `None` for an item left out (such as a diverged orbit).
    pub assignment: Vec<Option<usize>>,
}

/// The item with this assignment belongs to attractor `k`.
pub open spec fn assigned_to(a: Option<usize>, k: int) -> bool {
    a is Some && a->0 == k
}

/// `reps` lists item indices below `bound` in strictly increasing order.
pub open spec fn increasing_below(reps: Seq<usize>, bound: int) -> bool {
    &&& forall|k: int| 0 <= k < reps.len() ==> #[trigger] reps[k] < bound
    &&& forall|k: int, l: int| 0 <= k < l < reps.len() ==> #[trigger] reps[k] < #[trigger] reps[l]
}

/// Item `i` was found near none of the first `k` attractors.
pub open spec fn near_none_before<F: Fn(usize, usize) -> bool>(
    near: F,
    reps: Seq<usize>,
    i: usize,
    k: int,
) -> bool {
    forall|j: int| 0 <= j < k ==> #[trigger] call_ensures(near, (i, reps[j]), false)
}

/// Item `i` is placed correctly in attractor `k`: it was found near none of
/// the earlier attractors, and either it founded attractor `k` or it was
/// found near that attractor's founder.
pub open spec fn first_fit<F: Fn(usize, usize) -> bool>(
    near: F,
    reps: Seq<usize>,
    i: usize,
    k: int,
) -> bool {
    &&& 0 <= k < reps.len()
    &&& reps[k] <= i
    &&& near_none_before(near, reps, i, k)
    &&& (reps[k] == i || call_ensures(near, (i, reps[k]), true))
}

/// The post-state of first-fit clustering on the first `n` items.
pub open spec fn clustered<F: Fn(usize, usize) -> bool>(
    near: F,
    n_seeds: int,
    included: Seq<bool>,
    reps: Seq<usize>,
    assignment: Seq<Option<usize>>,
    n: int,
) -> bool {
    &&& assignment.len() == n
    &&& n_seeds <= reps.len()
    &&& increasing_below(reps, n)
    &&& forall|k: int| 0 <= k < n_seeds ==> #[trigger] reps[k] == k && assigned_to(assignment[k], k)
    &&& forall|k: int|
        n_seeds <= k < reps.len() ==> included[#[trigger] reps[k] as int] && assigned_to(assignment[reps[k] as int], k)
    &&& forall|i: int|
        n_seeds <= i < n ==> match #[trigger] assignment[i] {
            None => !included[i],
            Some(k) => included[i] && first_fit(near, reps, i as usize, k as int),
        }
}

/// Leaving out an item keeps the grouping of the items before it.
proof fn lemma_step_left_out<F: Fn(usize, usize) -> bool>(
    near: F,
    n_seeds: int,
    included: Seq<bool>,
    reps: Seq<usize>,
    assignment: Seq<Option<usize>>,
    i: usize,
)
    requires
        0 <= n_seeds <= i < included.len(),
        clustered(near, n_seeds, included, reps, assignment, i as int),
        !included[i as int],
    ensures
        clustered(near, n_seeds, included, reps, assignment.push(None), i + 1),
{
    let a2 = assignment.push(None);
    assert forall|j: int| n_seeds <= j < i + 1 implies match #[trigger] a2[j] {
        None => !included[j],
        Some(k) => included[j] && first_fit(near, reps, j as usize, k as int),
    } by {
        if j < i {
            assert(a2[j] == assignment[j]);
        }
    }
    assert forall|c: int| 0 <= c < n_seeds implies #[trigger] reps[c] == c && assigned_to(a2[c], c) by {
        assert(a2[c] == assignment[c]);
    }
    assert forall|c: int| n_seeds <= c < reps.len() implies included[#[trigger] reps[c] as int]
        && assigned_to(a2[reps[c] as int], c) by {
        assert(reps[c] < i);
        assert(a2[reps[c] as int] == assignment[reps[c] as int]);
    }
}

/// An item joining the first attractor it is near extends the grouping.
proof fn lemma_step_joins<F: Fn(usize, usize) -> bool>(
    near: F,
    n_seeds: int,
    included: Seq<bool>,
    reps: Seq<usize>,
    assignment: Seq<Option<usize>>,
    i: usize,
    k: int,
)
    requires
        0 <= n_seeds <= i < included.len(),
        clustered(near, n_seeds, included, reps, assignment, i as int),
        included[i as int],
        0 <= k < reps.len(),
        near_none_before(near, reps, i, k),
        call_ensures(near, (i, reps[k]), true),
    ensures
        clustered(near, n_seeds, included, reps, assignment.push(Some(k as usize)), i + 1),
{
    let a2 = assignment.push(Some(k as usize));
    assert forall|j: int| n_seeds <= j < i + 1 implies match #[trigger] a2[j] {
        None => !included[j],
        Some(c) => included[j] && first_fit(near, reps, j as usize, c as int),
    } by {
        if j < i {
            assert(a2[j] == assignment[j]);
        } else {
            assert(reps[k] < i);
            assert(j as usize == i);
            assert(a2[j] == Some(k as usize));
            assert(first_fit(near, reps, i, k));
        }
    }
    assert forall|c: int| 0 <= c < n_seeds implies #[trigger] reps[c] == c && assigned_to(a2[c], c) by {
        assert(a2[c] == assignment[c]);
    }
    assert forall|c: int| n_seeds <= c < reps.len() implies included[#[trigger] reps[c] as int]
        && assigned_to(a2[reps[c] as int], c) by {
        assert(reps[c] < i);
        assert(a2[reps[c] as int] == assignment[reps[c] as int]);
    }
}

/// An item near no known attractor founds the next one.
proof fn lemma_step_founds<F: Fn(usize, usize) -> bool>(
    near: F,
    n_seeds: int,
    included: Seq<bool>,
    reps: Seq<usize>,
    assignment: Seq<Option<usize>>,
    i: usize,
)
    requires
        0 <= n_seeds <= i < included.len(),
        clustered(near, n_seeds, included, reps, assignment, i as int),
        included[i as int],
        near_none_before(near, reps, i, reps.len() as int),
        reps.len() <= usize::MAX,
    ensures
        clustered(
            near,
            n_seeds,
            included,
            reps.push(i),
            assignment.push(Some(reps.len() as usize)),
            i + 1,
        ),
{
    let r2 = reps.push(i);
    let a2 = assignment.push(Some(reps.len() as usize));
    assert forall|c: int| 0 <= c < reps.len() implies #[trigger] r2[c] == reps[c] by {}
    assert forall|j: int| n_seeds <= j < i + 1 implies match #[trigger] a2[j] {
        None => !included[j],
        Some(c) => included[j] && first_fit(near, r2, j as usize, c as int),
    } by {
        if j < i {
            assert(a2[j] == assignment[j]);
            match assignment[j] {
                None => {},
                Some(c) => {
                    assert(first_fit(near, reps, j as usize, c as int));
                    assert forall|m: int| 0 <= m < c implies #[trigger] call_ensures(
                        near,
                        (j as usize, r2[m]),
                        false,
                    ) by {
                        assert(r2[m] == reps[m]);
                    }
                    assert(r2[c as int] == reps[c as int]);
                },
            }
        } else {
            assert forall|m: int| 0 <= m < reps.len() implies #[trigger] call_ensures(
                near,
                (i, r2[m]),
                false,
            ) by {
                assert(r2[m] == reps[m]);
            }
        }
    }
    assert forall|c: int| 0 <= c < n_seeds implies #[trigger] r2[c] == c && assigned_to(a2[c], c) by {
        assert(r2[c] == reps[c]);
        assert(a2[c] == assignment[c]);
    }
    assert forall|c: int| n_seeds <= c < r2.len() implies included[#[trigger] r2[c] as int]
        && assigned_to(a2[r2[c] as int], c) by {
        if c < reps.len() {
            assert(r2[c] == reps[c]);
            assert(reps[c] < i);
            assert(a2[r2[c] as int] == assignment[r2[c] as int]);
        }
    }
    assert forall|k: int, l: int| 0 <= k < l < r2.len() implies #[trigger] r2[k] < #[trigger] r2[l] by {
        assert(r2[k] == reps[k]);
        if l < reps.len() {
            assert(r2[l] == reps[l]);
        }
    }
}

/// Group `included.len()` items into attractors by first fit.
///
/// The first `n_seeds` items are attractors already known, one each. Every
/// later item that is included is compared, by `near(item, founder)`, with
/// the founders of the attractors known so far, in order; it joins the first
/// one it is near, or founds a new attractor. Items not included get `None`.
pub fn cluster_first_fit<F: Fn(usize, usize) -> bool>(
    n_seeds: usize,
    included: &Vec<bool>,
    near: F,
) -> (c: Clustering)
    requires
        n_seeds <= included@.len(),
        forall|i: usize, r: usize| r < i < included@.len() ==> call_requires(near, (i, r)),
    ensures
        clustered(
            near,
            n_seeds as int,
            included@,
            c.representatives@,
            c.assignment@,
            included@.len() as int,
        ),
{
    let n = included.len();
    let mut reps: Vec<usize> = Vec::new();
    let mut assignment: Vec<Option<usize>> = Vec::new();
    let mut i: usize = 0;
    while i < n_seeds
        invariant
            i <= n_seeds <= n == included@.len(),
            reps@.len() == i,
            assignment@.len() == i,
            forall|k: int| 0 <= k < i ==> #[trigger] reps@[k] == k && assigned_to(assignment@[k], k),
        decreases n_seeds - i,
    {
        reps.push(i);
        assignment.push(Some(i));
        i = i + 1;
    }
    while i < n
        invariant
            n_seeds <= i <= n == included@.len(),
            forall|a: usize, r: usize| r < a < included@.len() ==> call_requires(near, (a, r)),
            clustered(near, n_seeds as int, included@, reps@, assignment@, i as int),
        decreases n - i,
    {
        if !included[i] {
            proof {
                lemma_step_left_out(near, n_seeds as int, included@, reps@, assignment@, i);
            }
            assignment.push(None);
        } else {
            let mut k: usize = 0;
            let mut found = false;
            while !found && k < reps.len()
                invariant
                    n_seeds <= i < n == included@.len(),
                    included@[i as int],
                    forall|a: usize, r: usize| r < a < included@.len() ==> call_requires(near, (a, r)),
                    clustered(near, n_seeds as int, included@, reps@, assignment@, i as int),
                    k <= reps@.len(),
                    near_none_before(near, reps@, i, k as int),
                    found ==> k < reps@.len() && call_ensures(near, (i, reps@[k as int]), true),
                decreases reps@.len() - k + (if found { 0int } else { 1int }),
            {
                let r = reps[k];
                assert(r < i);
                if near(i, r) {
                    found = true;
                } else {
                    k = k + 1;
                }
            }
            if found {
                proof {
                    lemma_step_joins(near, n_seeds as int, included@, reps@, assignment@, i, k as int);
                }
                assignment.push(Some(k));
            } else {
                proof {
                    lemma_step_founds(near, n_seeds as int, included@, reps@, assignment@, i);
                }
                assignment.push(Some(reps.len()));
                reps.push(i);
            }
        }
        i = i + 1;
    }
    Clustering { representatives: reps, assignment }
}

/// Attractors found apart stay apart: the founder of every attractor found
/// after the seeds was compared with the founder of each earlier attractor
/// and found near none of them.
pub proof fn lemma_founders_apart<F: Fn(usize, usize) -> bool>(
    near: F,
    n_seeds: int,
    included: Seq<bool>,
    reps: Seq<usize>,
    assignment: Seq<Option<usize>>,
    n: int,
    k: int,
    l: int,
)
    requires
        0 <= n_seeds,
        clustered(near, n_seeds, included, reps, assignment, n),
        0 <= k < l < reps.len(),
        n_seeds <= l,
    ensures
        call_ensures(near, (reps[l], reps[k]), false),
{
    if n_seeds > 0 {
        assert(reps[n_seeds - 1] == n_seeds - 1);
        assert(reps[n_seeds - 1] < reps[l]);
    }
    let i = reps[l] as int;
    assert(included[i] && assigned_to(assignment[i], l));
    assert(first_fit(near, reps, reps[l], l));
}

/// Discovery adds no attractor when every item was already known to be near
/// one of the known attractors: if the comparison answers each question one
/// way only, and every included later item is near some seed, then the
/// seeds are all the attractors and every included item joins one of them.
pub proof fn lemma_no_new_attractors<F: Fn(usize, usize) -> bool>(
    near: F,
    n_seeds: int,
    included: Seq<bool>,
    reps: Seq<usize>,
    assignment: Seq<Option<usize>>,
    n: int,
)
    requires
        0 <= n_seeds,
        clustered(near, n_seeds, included, reps, assignment, n),
        forall|a: usize, b: usize|
            !(#[trigger] call_ensures(near, (a, b), true) && call_ensures(near, (a, b), false)),
        forall|i: int|
            n_seeds <= i < n && #[trigger] included[i] ==> exists|k: int|
                0 <= k < n_seeds && #[trigger] call_ensures(near, (i as usize, k as usize), true),
    ensures
        reps.len() == n_seeds,
        forall|i: int|
            n_seeds <= i < n && #[trigger] included[i] ==> assignment[i] is Some && assignment[i]->0
                < n_seeds,
{
    if reps.len() > n_seeds {
        let l = n_seeds;
        let i = reps[l] as int;
        assert(included[i] && assigned_to(assignment[i], l));
        if n_seeds > 0 {
            assert(reps[n_seeds - 1] == n_seeds - 1);
            assert(reps[n_seeds - 1] < reps[l]);
        }
        assert(first_fit(near, reps, reps[l], l));
        let k = choose|k: int| 0 <= k < n_seeds && #[trigger] call_ensures(near, (i as usize, k as usize), true);
        assert(reps[k] == k);
        assert(call_ensures(near, (reps[l], reps[k]), false));
        assert(false);
    }
}

/// What a first-fit grouping says of each item: a left-out later item gets
/// no attractor; an included later item gets an attractor `k` whose founder
/// comes no later than the item, it was found near none of the founders of
/// attractors `0..k`, and it either founded attractor `k` or was found near
/// its founder; every seed is its own attractor; founders are listed in
/// increasing order, each below `n`.
pub proof fn lemma_first_fit_meaning<F: Fn(usize, usize) -> bool>(
    near: F,
    n_seeds: int,
    included: Seq<bool>,
    reps: Seq<usize>,
    assignment: Seq<Option<usize>>,
    n: int,
    i: int,
)
    requires
        clustered(near, n_seeds, included, reps, assignment, n),
        0 <= n_seeds,
        0 <= i < n <= included.len(),
        n <= usize::MAX,
    ensures
        assignment.len() == n,
        i < n_seeds ==> reps[i] == i && assignment[i] == Some(i as usize),
        i >= n_seeds && !included[i] ==> assignment[i] is None,
        i >= n_seeds && included[i] ==> assignment[i] is Some && {
            let k = assignment[i]->0 as int;
            &&& 0 <= k < reps.len()
            &&& reps[k] <= i
            &&& forall|j: int| 0 <= j < k ==> #[trigger] call_ensures(near, (i as usize, reps[j]), false)
            &&& (reps[k] == i || call_ensures(near, (i as usize, reps[k]), true))
        },
        forall|a: int, b: int| 0 <= a < b < reps.len() ==> #[trigger] reps[a] < #[trigger] reps[b],
        forall|a: int| 0 <= a < reps.len() ==> #[trigger] reps[a] < n,
{
    if i < n_seeds {
        assert(forall|k: int| 0 <= k < n_seeds ==> #[trigger] reps[k] == k && assigned_to(assignment[k], k));
        assert(reps[i] == i);
        assert(assigned_to(assignment[i], i));
    } else {
        assert(match assignment[i] {
            None => !included[i],
            Some(k) => included[i] && first_fit(near, reps, i as usize, k as int),
        });
    }
}

} // verus!
