//! Stability classification of a fixed point from the signs of its
//! eigenvalues.

use vstd::prelude::*;

verus! {

/// Stability classification of a fixed point.
#[derive(Debug, Clone, Copy, PartialEq, Eq, Structural)]
pub enum Stability {
    /// All eigenvalues have negative real part (continuous) or |λ| < 1
    /// (discrete): every eigenvalue contracts, none expands, and there is at
    /// least one.
    Stable,
    /// At least one eigenvalue has positive real part (continuous) or
    /// |λ| > 1 (discrete), and none contracts.
    Unstable,
    /// No eigenvalue expands, but not all of them contract: some lie on the
    /// boundary, within `eps` of it (or there are none).
    Marginal,
    /// Has both stable and unstable directions.
    Saddle,
}

/// Where one eigenvalue lies relative to the neutral band of width `eps`.
///
/// For a flow, `growing` means `Re(λ) > eps` and `decaying` means
/// `Re(λ) < -eps`; for a map, `growing` means `|λ| > 1 + eps` and
/// `decaying` means `|λ| < 1 - eps`. Both may hold when `eps` is negative.
#[derive(Debug, Clone, Copy, PartialEq, Eq, Structural)]
pub struct EigenSigns {
    pub growing: bool,
    pub decaying: bool,
}

/// Some eigenvalue grows.
pub open spec fn any_growing(signs: Seq<EigenSigns>) -> bool {
    exists|i: int| 0 <= i < signs.len() && (#[trigger] signs[i]).growing
}

/// Some eigenvalue decays.
pub open spec fn any_decaying(signs: Seq<EigenSigns>) -> bool {
    exists|i: int| 0 <= i < signs.len() && (#[trigger] signs[i]).decaying
}

/// There is at least one eigenvalue and every eigenvalue decays.
pub open spec fn all_decaying(signs: Seq<EigenSigns>) -> bool {
    &&& signs.len() > 0
    &&& forall|i: int| 0 <= i < signs.len() ==> (#[trigger] signs[i]).decaying
}

/// The classification of a list of eigenvalue signs: expanding and
/// contracting directions together make a saddle, expanding ones alone an
/// unstable point; with none expanding, the point is stable when every
/// eigenvalue contracts and marginal otherwise.
pub open spec fn classification(signs: Seq<EigenSigns>) -> Stability {
    if any_growing(signs) && any_decaying(signs) {
        Stability::Saddle
    } else if any_growing(signs) {
        Stability::Unstable
    } else if all_decaying(signs) {
        Stability::Stable
    } else {
        Stability::Marginal
    }
}

impl Stability {
    /// Whether this class has an expanding direction.
    pub open spec fn expands(self) -> bool {
        self == Stability::Unstable || self == Stability::Saddle
    }
}

/// Classify stability from the per-eigenvalue signs: expanding and
/// contracting directions together give `Saddle`, expanding alone
/// `Unstable`; with none expanding, `Stable` when every eigenvalue
/// contracts and there is one, `Marginal` otherwise.
pub fn classify_signs(signs: &Vec<EigenSigns>) -> (s: Stability)
    ensures
        s == classification(signs@),
        (s == Stability::Stable) <==> (signs@.len() > 0 && forall|i: int|
            0 <= i < signs@.len() ==> (#[trigger] signs@[i]).decaying && !signs@[i].growing),
        (s == Stability::Saddle) <==> ((exists|i: int|
            0 <= i < signs@.len() && (#[trigger] signs@[i]).growing) && (exists|j: int|
            0 <= j < signs@.len() && (#[trigger] signs@[j]).decaying)),
        (s == Stability::Unstable) <==> ((exists|i: int|
            0 <= i < signs@.len() && (#[trigger] signs@[i]).growing) && (forall|j: int|
            0 <= j < signs@.len() ==> !(#[trigger] signs@[j]).decaying)),
        (s == Stability::Marginal) <==> ((forall|i: int|
            0 <= i < signs@.len() ==> !(#[trigger] signs@[i]).growing) && !(signs@.len() > 0
            && forall|j: int| 0 <= j < signs@.len() ==> (#[trigger] signs@[j]).decaying)),
{
    let mut has_growing = false;
    let mut has_decaying = false;
    let mut all_decay = true;
    let mut i: usize = 0;
    while i < signs.len()
        invariant
            i <= signs.len(),
            has_growing <==> exists|k: int| 0 <= k < i && (#[trigger] signs@[k]).growing,
            has_decaying <==> exists|k: int| 0 <= k < i && (#[trigger] signs@[k]).decaying,
            all_decay <==> forall|k: int| 0 <= k < i ==> (#[trigger] signs@[k]).decaying,
        decreases signs.len() - i,
    {
        if signs[i].growing {
            has_growing = true;
        }
        if signs[i].decaying {
            has_decaying = true;
        } else {
            all_decay = false;
        }
        i = i + 1;
    }
    proof {
        lemma_classification_meaning(signs@);
    }
    if has_growing && has_decaying {
        Stability::Saddle
    } else if has_growing {
        Stability::Unstable
    } else if all_decay && signs.len() > 0 {
        Stability::Stable
    } else {
        Stability::Marginal
    }
}

impl Stability {
    /// The name under which this class is displayed.
    pub fn name(&self) -> (s: &'static str)
        ensures
            *self == Stability::Stable ==> s@ == "Stable"@,
            *self == Stability::Unstable ==> s@ == "Unstable"@,
            *self == Stability::Marginal ==> s@ == "Marginal"@,
            *self == Stability::Saddle ==> s@ == "Saddle"@,
    {
        match self {
            Stability::Stable => "Stable",
            Stability::Unstable => "Unstable",
            Stability::Marginal => "Marginal",
            Stability::Saddle => "Saddle",
        }
    }

    /// Whether this is the `Stable` class.
    pub fn is_stable(&self) -> (b: bool)
        ensures
            b <==> *self == Stability::Stable,
    {
        match self {
            Stability::Stable => true,
            _ => false,
        }
    }
}

/// Number of `Stable` entries among the first `n` of `classes`.
pub open spec fn stable_count(classes: Seq<Stability>, n: int) -> nat
    decreases n,
{
    if n <= 0 {
        0
    } else {
        stable_count(classes, n - 1) + (if classes[n - 1] == Stability::Stable {
            1nat
        } else {
            0nat
        })
    }
}

/// Count the `Stable` entries of a list of classes.
pub fn count_stable(classes: &Vec<Stability>) -> (c: usize)
    ensures
        c == stable_count(classes@, classes@.len() as int),
{
    let mut c: usize = 0;
    let mut i: usize = 0;
    while i < classes.len()
        invariant
            i <= classes.len(),
            c == stable_count(classes@, i as int),
            c <= i,
        decreases classes.len() - i,
    {
        if classes[i].is_stable() {
            c = c + 1;
        }
        i = i + 1;
    }
    c
}

/// The count of the first `n` classes does not look past them.
proof fn lemma_stable_count_prefix(a: Seq<Stability>, b: Seq<Stability>, n: int)
    requires
        0 <= n <= a.len(),
        n <= b.len(),
        forall|i: int| 0 <= i < n ==> a[i] == b[i],
    ensures
        stable_count(a, n) == stable_count(b, n),
    decreases n,
{
    if n > 0 {
        lemma_stable_count_prefix(a, b, n - 1);
    }
}

/// Counting stable classes: an empty list counts none; appending `Stable`
/// adds one to the count, appending any other class (`Unstable`, `Marginal`
/// or `Saddle`) leaves it unchanged; and the count never exceeds the length.
pub proof fn lemma_count_stable_push(classes: Seq<Stability>, c: Stability)
    ensures
        stable_count(Seq::<Stability>::empty(), 0) == 0,
        c == Stability::Stable ==> stable_count(classes.push(c), classes.len() + 1int) == stable_count(
            classes,
            classes.len() as int,
        ) + 1,
        c != Stability::Stable ==> stable_count(classes.push(c), classes.len() + 1int) == stable_count(
            classes,
            classes.len() as int,
        ),
        stable_count(classes, classes.len() as int) <= classes.len(),
    decreases classes.len(),
{
    lemma_stable_count_prefix(classes.push(c), classes, classes.len() as int);
    if classes.len() > 0 {
        lemma_count_stable_push(classes.drop_last(), classes.last());
        assert(classes.drop_last().push(classes.last()) == classes);
    }
}

/// Putting two lists of eigenvalue signs together: the result expands
/// exactly when one of the parts does; a saddle part keeps it a saddle; a
/// stable and an unstable part make a saddle; and for two nonempty parts it
/// is stable exactly when both are.
pub proof fn lemma_classification_of_concat(a: Seq<EigenSigns>, b: Seq<EigenSigns>)
    ensures
        classification(a + b).expands() <==> (classification(a).expands() || classification(
            b,
        ).expands()),
        classification(a) == Stability::Saddle ==> classification(a + b) == Stability::Saddle,
        classification(b) == Stability::Saddle ==> classification(a + b) == Stability::Saddle,
        classification(a) == Stability::Stable && classification(b) == Stability::Unstable
            ==> classification(a + b) == Stability::Saddle,
        a.len() > 0 && b.len() > 0 ==> ((classification(a + b) == Stability::Stable) <==> (
        classification(a) == Stability::Stable && classification(b) == Stability::Stable)),
{
    let ab = a + b;
    assert(any_growing(ab) == (any_growing(a) || any_growing(b))) by {
        if any_growing(a) {
            let i = choose|i: int| 0 <= i < a.len() && (#[trigger] a[i]).growing;
            assert(ab[i] == a[i]);
        }
        if any_growing(b) {
            let i = choose|i: int| 0 <= i < b.len() && (#[trigger] b[i]).growing;
            assert(ab[a.len() + i] == b[i]);
        }
        if any_growing(ab) {
            let i = choose|i: int| 0 <= i < ab.len() && (#[trigger] ab[i]).growing;
            if i < a.len() {
                assert(ab[i] == a[i]);
            } else {
                assert(ab[i] == b[i - a.len()]);
            }
        }
    }
    assert(any_decaying(ab) == (any_decaying(a) || any_decaying(b))) by {
        if any_decaying(a) {
            let i = choose|i: int| 0 <= i < a.len() && (#[trigger] a[i]).decaying;
            assert(ab[i] == a[i]);
        }
        if any_decaying(b) {
            let i = choose|i: int| 0 <= i < b.len() && (#[trigger] b[i]).decaying;
            assert(ab[a.len() + i] == b[i]);
        }
        if any_decaying(ab) {
            let i = choose|i: int| 0 <= i < ab.len() && (#[trigger] ab[i]).decaying;
            if i < a.len() {
                assert(ab[i] == a[i]);
            } else {
                assert(ab[i] == b[i - a.len()]);
            }
        }
    }
    if a.len() > 0 && b.len() > 0 {
        assert(all_decaying(ab) == (all_decaying(a) && all_decaying(b))) by {
            if all_decaying(a) && all_decaying(b) {
                assert forall|i: int| 0 <= i < ab.len() implies (#[trigger] ab[i]).decaying by {
                    if i < a.len() {
                        assert(ab[i] == a[i]);
                    } else {
                        assert(ab[i] == b[i - a.len()]);
                    }
                }
            }
            if all_decaying(ab) {
                assert forall|i: int| 0 <= i < a.len() implies (#[trigger] a[i]).decaying by {
                    assert(ab[i] == a[i]);
                }
                assert forall|i: int| 0 <= i < b.len() implies (#[trigger] b[i]).decaying by {
                    assert(ab[a.len() + i] == b[i]);
                }
            }
        }
    }
    if classification(a) == Stability::Stable {
        assert(a[0].decaying);
    }
    if classification(b) == Stability::Stable {
        assert(b[0].decaying);
    }
}

/// The classification depends only on which signs occur, not on their order
/// or multiplicity: two lists holding the same signs are classified alike.
pub proof fn lemma_classification_ignores_order(a: Seq<EigenSigns>, b: Seq<EigenSigns>)
    requires
        forall|x: EigenSigns| a.contains(x) <==> b.contains(x),
    ensures
        classification(a) == classification(b),
{
    assert(any_growing(a) == any_growing(b)) by {
        if any_growing(a) {
            let i = choose|i: int| 0 <= i < a.len() && (#[trigger] a[i]).growing;
            assert(a.contains(a[i]));
            let j = choose|j: int| 0 <= j < b.len() && b[j] == a[i];
            assert(b[j].growing);
        }
        if any_growing(b) {
            let i = choose|i: int| 0 <= i < b.len() && (#[trigger] b[i]).growing;
            assert(b.contains(b[i]));
            let j = choose|j: int| 0 <= j < a.len() && a[j] == b[i];
            assert(a[j].growing);
        }
    }
    assert(any_decaying(a) == any_decaying(b)) by {
        if any_decaying(a) {
            let i = choose|i: int| 0 <= i < a.len() && (#[trigger] a[i]).decaying;
            assert(a.contains(a[i]));
            let j = choose|j: int| 0 <= j < b.len() && b[j] == a[i];
            assert(b[j].decaying);
        }
        if any_decaying(b) {
            let i = choose|i: int| 0 <= i < b.len() && (#[trigger] b[i]).decaying;
            assert(b.contains(b[i]));
            let j = choose|j: int| 0 <= j < a.len() && a[j] == b[i];
            assert(a[j].decaying);
        }
    }
    assert(all_decaying(a) == all_decaying(b)) by {
        if a.len() > 0 {
            assert(a.contains(a[0]));
        }
        if b.len() > 0 {
            assert(b.contains(b[0]));
        }
        if all_decaying(a) {
            assert forall|i: int| 0 <= i < b.len() implies (#[trigger] b[i]).decaying by {
                assert(b.contains(b[i]));
                let j = choose|j: int| 0 <= j < a.len() && a[j] == b[i];
                assert(a[j].decaying);
            }
        }
        if all_decaying(b) {
            assert forall|i: int| 0 <= i < a.len() implies (#[trigger] a[i]).decaying by {
                assert(a.contains(a[i]));
                let j = choose|j: int| 0 <= j < b.len() && b[j] == a[i];
                assert(b[j].decaying);
            }
        }
    }
}

/// What each class promises of the eigenvalues: `Stable` exactly when there
/// is one and all of them contract with none expanding (so a contracting
/// eigenvalue beside a neutral one is not stable); `Unstable` or `Saddle`
/// exactly when one expands; `Saddle` exactly when one expands and one
/// contracts; `Marginal` exactly when none expands and not all contract, in
/// particular when all lie in the neutral band or there are none.
pub proof fn lemma_classification_meaning(signs: Seq<EigenSigns>)
    ensures
        (classification(signs) == Stability::Stable) <==> (signs.len() > 0 && forall|i: int|
            0 <= i < signs.len() ==> (#[trigger] signs[i]).decaying && !signs[i].growing),
        (classification(signs) == Stability::Unstable || classification(signs)
            == Stability::Saddle) <==> any_growing(signs),
        (classification(signs) == Stability::Saddle) <==> (any_growing(signs) && any_decaying(
            signs,
        )),
        (classification(signs) == Stability::Marginal) <==> (!any_growing(signs) && !all_decaying(
            signs,
        )),
        (forall|i: int| 0 <= i < signs.len() ==> !(#[trigger] signs[i]).growing && !signs[i].decaying)
            ==> classification(signs) == Stability::Marginal,
        signs.len() == 0 ==> classification(signs) == Stability::Marginal,
{
    if signs.len() > 0 && forall|i: int|
        0 <= i < signs.len() ==> (#[trigger] signs[i]).decaying && !signs[i].growing {
        assert(signs[0].decaying);
    }
    if classification(signs) == Stability::Stable {
        assert(signs[0].decaying);
    }
    if signs.len() > 0 && (forall|i: int|
        0 <= i < signs.len() ==> !(#[trigger] signs[i]).growing && !signs[i].decaying) {
        assert(!signs[0].decaying);
    }
}

} // verus!
