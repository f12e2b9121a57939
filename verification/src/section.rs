//! Poincaré sections: which steps of a trajectory cross the section
//! hyperplane upward, return-map pairs, and projection onto the section.

use vstd::prelude::*;

verus! {

/// Where one state lies relative to the section value along the section
/// component.
#[derive(Debug, Clone, Copy, PartialEq, Eq, Structural)]
pub enum SectionSide {
    /// The coordinate is less than the section value.
    Below,
    /// The coordinate is greater than or equal to the section value.
    AtOrAbove,
    /// The coordinate compares with the section value neither way.
    Unordered,
}

/// Step `i` (from state `i - 1` to state `i`) crosses the section upward.
pub open spec fn crosses_upward(sides: Seq<SectionSide>, i: int) -> bool {
    1 <= i < sides.len() && sides[i - 1] == SectionSide::Below && sides[i]
        == SectionSide::AtOrAbove
}

/// The upward crossings among the steps that end before state `n`, in order.
pub open spec fn crossings_before(sides: Seq<SectionSide>, n: int) -> Seq<usize>
    decreases n,
{
    if n <= 1 {
        Seq::empty()
    } else if crosses_upward(sides, n - 1) {
        crossings_before(sides, n - 1).push((n - 1) as usize)
    } else {
        crossings_before(sides, n - 1)
    }
}

/// The indices `i` at which a trajectory crosses the section in the
/// positive direction: state `i - 1` lies below the section value and state
/// `i` at or above it.
pub fn upward_crossings(sides: &Vec<SectionSide>) -> (idx: Vec<usize>)
    ensures
        idx@ == crossings_before(sides@, sides@.len() as int),
        forall|k: int|
            0 <= k < idx@.len() ==> 1 <= #[trigger] idx@[k] < sides@.len() && sides@[idx@[k] - 1]
                == SectionSide::Below && sides@[idx@[k] as int] == SectionSide::AtOrAbove,
        forall|k: int, l: int| 0 <= k < l < idx@.len() ==> #[trigger] idx@[k] < #[trigger] idx@[l],
        forall|i: int|
            1 <= i < sides@.len() && sides@[i - 1] == SectionSide::Below && sides@[i]
                == SectionSide::AtOrAbove ==> #[trigger] idx@.contains(i as usize),
{
    let mut idx: Vec<usize> = Vec::new();
    if sides.len() == 0 {
        return idx;
    }
    let mut i: usize = 1;
    while i < sides.len()
        invariant
            1 <= i <= sides.len(),
            idx@ == crossings_before(sides@, i as int),
        decreases sides.len() - i,
    {
        if sides[i - 1] == SectionSide::Below && sides[i] == SectionSide::AtOrAbove {
            idx.push(i);
        }
        i = i + 1;
    }
    proof {
        lemma_crossings_exact(sides@, sides@.len() as int);
    }
    idx
}

/// The crossings found among the steps ending before state `n` are exactly
/// the steps `i` from a state below the section (`i - 1`) to a state at or
/// above it (`i`), whatever the states before, listed in increasing order.
pub proof fn lemma_crossings_exact(sides: Seq<SectionSide>, n: int)
    requires
        n <= sides.len() <= usize::MAX,
    ensures
        forall|k: int|
            0 <= k < crossings_before(sides, n).len() ==> {
                let i = #[trigger] crossings_before(sides, n)[k] as int;
                &&& 1 <= i < n
                &&& sides[i - 1] == SectionSide::Below
                &&& sides[i] == SectionSide::AtOrAbove
            },
        forall|k: int, l: int|
            0 <= k < l < crossings_before(sides, n).len() ==> #[trigger] crossings_before(
                sides,
                n,
            )[k] < #[trigger] crossings_before(sides, n)[l],
        forall|i: int|
            1 <= i < n && sides[i - 1] == SectionSide::Below && sides[i] == SectionSide::AtOrAbove
                ==> #[trigger] crossings_before(sides, n).contains(i as usize),
    decreases n,
{
    if n > 1 {
        lemma_crossings_exact(sides, n - 1);
        let prev = crossings_before(sides, n - 1);
        let cur = crossings_before(sides, n);
        if crosses_upward(sides, n - 1) {
            assert(cur == prev.push((n - 1) as usize));
            assert forall|k: int| 0 <= k < cur.len() implies {
                let i = #[trigger] cur[k] as int;
                &&& 1 <= i < n
                &&& sides[i - 1] == SectionSide::Below
                &&& sides[i] == SectionSide::AtOrAbove
            } by {
                if k < prev.len() {
                    assert(cur[k] == prev[k]);
                }
            }
            assert forall|k: int, l: int| 0 <= k < l < cur.len() implies #[trigger] cur[k]
                < #[trigger] cur[l] by {
                assert(cur[k] == prev[k]);
                if l < prev.len() {
                    assert(cur[l] == prev[l]);
                }
            }
        } else {
            assert(cur == prev);
        }
        assert forall|i: int|
            1 <= i < n && sides[i - 1] == SectionSide::Below && sides[i] == SectionSide::AtOrAbove
                implies #[trigger] cur.contains(i as usize) by {
            if i < n - 1 {
                assert(prev.contains(i as usize));
                let k = choose|k: int| 0 <= k < prev.len() && prev[k] == i as usize;
                assert(cur[k] == prev[k]);
            } else {
                assert(cur[cur.len() - 1] == (n - 1) as usize);
            }
        }
    }
}

/// The pairs of consecutive entries `(v[k], v[k + 1])`, in order.
pub fn consecutive_pairs<T: Copy>(v: &Vec<T>) -> (pairs: Vec<(T, T)>)
    ensures
        pairs@.len() == (if v@.len() == 0 {
            0
        } else {
            v@.len() - 1
        }),
        forall|k: int| 0 <= k < pairs@.len() ==> #[trigger] pairs@[k] == (v@[k], v@[k + 1]),
{
    let mut pairs: Vec<(T, T)> = Vec::new();
    if v.len() == 0 {
        return pairs;
    }
    let mut k: usize = 1;
    while k < v.len()
        invariant
            1 <= k <= v.len(),
            pairs@.len() == k - 1,
            forall|j: int| 0 <= j < pairs@.len() ==> #[trigger] pairs@[j] == (v@[j], v@[j + 1]),
        decreases v.len() - k,
    {
        pairs.push((v[k - 1], v[k]));
        k = k + 1;
    }
    pairs
}

/// The first `dim` entries of `coords` without the entry at `skip`: the
/// coordinates of a state on the section hyperplane of component `skip`.
pub fn project_out<T: Copy>(coords: &Vec<T>, dim: usize, skip: usize) -> (p: Vec<T>)
    requires
        dim <= coords@.len(),
    ensures
        p@ == (if skip < dim {
            coords@.take(dim as int).remove(skip as int)
        } else {
            coords@.take(dim as int)
        }),
{
    let mut p: Vec<T> = Vec::new();
    let mut i: usize = 0;
    while i < dim
        invariant
            i <= dim <= coords@.len(),
            p@ == (if skip < i {
                coords@.take(i as int).remove(skip as int)
            } else {
                coords@.take(i as int)
            }),
        decreases dim - i,
    {
        let ghost before = p@;
        if i != skip {
            p.push(coords[i]);
        }
        proof {
            if skip < i {
                assert(p@ =~= coords@.take(i + 1).remove(skip as int));
            } else if skip == i {
                assert(p@ =~= coords@.take(i + 1).remove(skip as int));
            } else {
                assert(p@ =~= coords@.take(i + 1));
            }
        }
        i = i + 1;
    }
    p
}

/// Projecting onto the section of a component within the state drops exactly
/// that coordinate: a state of dimension `dim` gives `dim - 1` coordinates,
/// those before the component in place and those after it shifted down.
pub proof fn lemma_projection_dim<T>(coords: Seq<T>, dim: int, skip: int)
    requires
        0 <= skip < dim <= coords.len(),
    ensures
        coords.take(dim).remove(skip).len() == dim - 1,
        forall|i: int| 0 <= i < skip ==> #[trigger] coords.take(dim).remove(skip)[i] == coords[i],
        forall|i: int|
            skip <= i < dim - 1 ==> #[trigger] coords.take(dim).remove(skip)[i] == coords[i + 1],
{
}

/// How the linearized return map is estimated from the section crossings.
#[derive(Debug, Clone, Copy, PartialEq, Eq, Structural)]
pub struct FloquetPlan {
    /// The dimension of the section: one less than that of the states.
    pub section_dim: usize,
    /// Whether the first column of the return-map Jacobian is taken from
    /// the step between the first two crossings (it stays zero otherwise).
    pub use_first_return: bool,
}

/// Decide whether Floquet multipliers can be estimated from `n_crossings`
/// crossings of states of dimension `state_dim` for a system of dimension
/// `dim`: it takes at least `dim + 2` crossings and nonempty states. The
/// first return step is used when at least three of the first `dim + 5`
/// crossings are available and the section has a dimension.
pub fn floquet_plan(n_crossings: usize, dim: usize, state_dim: usize) -> (plan: Option<FloquetPlan>)
    requires
        dim + 2 <= usize::MAX,
        n_crossings >= dim + 2 && state_dim != 0 ==> dim + 5 <= usize::MAX,
    ensures
        plan is None <==> (n_crossings < dim + 2 || state_dim == 0),
        plan matches Some(p) ==> p.section_dim == state_dim - 1 && p.use_first_return == (
        state_dim >= 2 && (if n_crossings < dim + 5 {
            n_crossings as int
        } else {
            dim + 5
        }) >= 3),
{
    if n_crossings < dim + 2 {
        return None;
    }
    if state_dim == 0 {
        return None;
    }
    let k = if n_crossings < dim + 5 {
        n_crossings
    } else {
        dim + 5
    };
    let section_dim = state_dim - 1;
    Some(FloquetPlan { section_dim, use_first_return: k >= 3 && section_dim >= 1 })
}

} // verus!
