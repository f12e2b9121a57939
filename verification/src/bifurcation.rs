//! Period detection along an orbit and period-doubling detection.

use vstd::prelude::*;
use vstd::arithmetic::div_mod::{lemma_fundamental_div_mod_converse_div, lemma_fundamental_div_mod_converse_mod};

verus! {

/// Bifurcation type classification.
#[derive(Debug, Clone, Copy, PartialEq, Eq, Structural)]
pub enum BifurcationType {
    SaddleNode,
    Transcritical,
    Pitchfork,
    Hopf,
    PeriodDoubling,
    Unknown,
}

/// The orbit repeats with period `p` on a window of `window` points, as the
/// comparison `differs` reported it: every point `i` of the window was found
/// to agree with point `i + p`.
pub open spec fn repeats_with<F: Fn(usize, usize) -> bool>(differs: F, window: usize, p: usize) -> bool {
    forall|i: usize| i < window ==> #[trigger] call_ensures(differs, (i, (i + p) as usize), false)
}

/// Some point `i` of the window was reported to differ from point `i + p`.
pub open spec fn broken_at<F: Fn(usize, usize) -> bool>(differs: F, window: usize, p: usize) -> bool {
    exists|i: usize| i < window && #[trigger] call_ensures(differs, (i, (i + p) as usize), true)
}

/// What the two period tests say of the comparisons: a period is broken
/// exactly when some point of the window was reported to differ from the
/// point one period later, and it repeats when every point of the window was
/// reported to agree with it.
pub proof fn lemma_period_tests_meaning<F: Fn(usize, usize) -> bool>(
    differs: F,
    window: usize,
    p: usize,
)
    ensures
        broken_at(differs, window, p) <==> exists|i: usize|
            i < window && #[trigger] call_ensures(differs, (i, (i + p) as usize), true),
        repeats_with(differs, window, p) <==> forall|i: usize|
            i < window ==> #[trigger] call_ensures(differs, (i, (i + p) as usize), false),
{
}

/// The smallest period in `1..=max_period` with which an orbit repeats on
/// its first `window` points, or 0 when none does.
///
/// `differs(i, j)` tells whether orbit points `i` and `j` are further apart
/// than the tolerance. Periods are tried in increasing order, and for each
/// the window is scanned from its start until a pair differs.
pub fn smallest_period<F: Fn(usize, usize) -> bool>(
    window: usize,
    max_period: usize,
    differs: F,
) -> (p: usize)
    requires
        window as int + max_period as int <= usize::MAX,
        forall|i: usize, j: usize| i < window && i < j <= i + max_period ==> call_requires(differs, (i, j)),
    ensures
        p <= max_period,
        p == 0 ==> forall|q: usize| 1 <= q <= max_period ==> broken_at(differs, window, q),
        p != 0 ==> p >= 1 && repeats_with(differs, window, p) && forall|q: usize|
            1 <= q < p ==> broken_at(differs, window, q),
        p != 0 ==> forall|i: usize|
            i < window ==> #[trigger] call_ensures(differs, (i, (i + p) as usize), false),
{
    let mut p: usize = 1;
    while p <= max_period
        invariant
            1 <= p <= max_period + 1,
            window as int + max_period as int <= usize::MAX,
            forall|i: usize, j: usize| i < window && i < j <= i + max_period ==> call_requires(differs, (i, j)),
            forall|q: usize| 1 <= q < p ==> broken_at(differs, window, q),
        decreases max_period + 1 - p,
    {
        let mut i: usize = 0;
        let mut ok = true;
        while ok && i < window
            invariant
                1 <= p <= max_period,
                i <= window,
                window as int + max_period as int <= usize::MAX,
                forall|i: usize, j: usize| i < window && i < j <= i + max_period ==> call_requires(differs, (i, j)),
                ok ==> forall|k: usize| k < i ==> #[trigger] call_ensures(differs, (k, (k + p) as usize), false),
                !ok ==> broken_at(differs, window, p),
            decreases window - i + (if ok { 1int } else { 0int }),
        {
            let d = differs(i, i + p);
            if d {
                assert(call_ensures(differs, (i, (i + p) as usize), true));
                ok = false;
            } else {
                i = i + 1;
            }
        }
        if ok {
            assert(repeats_with(differs, window, p));
            return p;
        }
        p = p + 1;
    }
    0
}

/// The verdict of a period-doubling test: `PeriodDoubling` when the period
/// just before the parameter value is the expected one and the period at it
/// is twice that, nothing otherwise.
pub fn period_doubling_verdict(
    expected_period_before: usize,
    period_before: usize,
    period_at: usize,
) -> (verdict: Option<BifurcationType>)
    requires
        expected_period_before * 2 <= usize::MAX,
    ensures
        verdict == (if period_before == expected_period_before && period_at == 2
            * expected_period_before {
            Some(BifurcationType::PeriodDoubling)
        } else {
            None
        }),
{
    let period_after = expected_period_before * 2;
    if period_before == expected_period_before && period_at == period_after {
        Some(BifurcationType::PeriodDoubling)
    } else {
        None
    }
}

/// The samples of the first `upto` grid points, in order, each tagged with
/// the index of its grid point.
pub open spec fn tagged_samples<V>(outs: Seq<Seq<V>>, upto: int) -> Seq<(usize, V)>
    decreases upto,
{
    if upto <= 0 {
        Seq::empty()
    } else {
        tagged_samples(outs, upto - 1) + outs[upto - 1].map_values(|v: V| ((upto - 1) as usize, v))
    }
}

/// The total number of samples of the first `upto` grid points.
pub open spec fn sample_total<V>(outs: Seq<Seq<V>>, upto: int) -> int
    decreases upto,
{
    if upto <= 0 {
        0
    } else {
        sample_total(outs, upto - 1) + outs[upto - 1].len()
    }
}

/// What a sampled grid says of the calls: grid point `g` of `0..=steps` has
/// exactly the samples of one value that `samples_at(g)` returned.
pub proof fn lemma_sampled_grid_meaning<V, F: Fn(usize) -> Vec<V>>(
    samples_at: F,
    steps: int,
    outs: Seq<Seq<V>>,
    g: int,
)
    requires
        sampled_grid(samples_at, steps, outs),
        0 <= g <= steps,
    ensures
        outs.len() == steps + 1,
        exists|v: Vec<V>| #[trigger] call_ensures(samples_at, (g as usize,), v) && v@ == outs[g],
{
    assert(sampled_at(samples_at, g, outs[g]));
}

/// `out` is what `samples_at` returned for grid point `g`.
pub open spec fn sampled_at<V, F: Fn(usize) -> Vec<V>>(samples_at: F, g: int, out: Seq<V>) -> bool {
    exists|v: Vec<V>| #[trigger] call_ensures(samples_at, (g as usize,), v) && v@ == out
}

/// `outs` holds, for each of the grid points `0..=steps`, the samples that
/// `samples_at` returned for it.
pub open spec fn sampled_grid<V, F: Fn(usize) -> Vec<V>>(samples_at: F, steps: int, outs: Seq<Seq<V>>) -> bool {
    &&& outs.len() == steps + 1
    &&& forall|i: int|
        0 <= i <= steps ==> sampled_at(samples_at, i, #[trigger] outs[i])
}

/// A parameter sweep over the grid points `0..=steps`: the samples recorded
/// at each grid point, in grid order, each tagged with its grid index.
pub fn sweep<V: Copy, F: Fn(usize) -> Vec<V>>(steps: usize, samples_at: F) -> (points: Vec<(usize, V)>)
    requires
        steps < usize::MAX,
        forall|i: usize| i <= steps ==> call_requires(samples_at, (i,)),
    ensures
        exists|outs: Seq<Seq<V>>|
            sampled_grid(samples_at, steps as int, outs) && points@ == tagged_samples(
                outs,
                steps + 1,
            ),
{
    let ghost mut outs: Seq<Seq<V>> = Seq::empty();
    let mut points: Vec<(usize, V)> = Vec::new();
    let mut i: usize = 0;
    while i <= steps
        invariant
            i <= steps + 1,
            steps < usize::MAX,
            forall|i: usize| i <= steps ==> call_requires(samples_at, (i,)),
            outs.len() == i,
            forall|g: int|
                0 <= g < i ==> sampled_at(samples_at, g, #[trigger] outs[g]),
            points@ == tagged_samples(outs, i as int),
        decreases steps + 1 - i,
    {
        let values = samples_at(i);
        let ghost base = points@;
        let mut k: usize = 0;
        while k < values.len()
            invariant
                k <= values@.len(),
                points@ == base + values@.take(k as int).map_values(|v: V| (i, v)),
            decreases values@.len() - k,
        {
            points.push((i, values[k]));
            assert(values@.take(k + 1).map_values(|v: V| (i, v)) == values@.take(k as int).map_values(
                |v: V| (i, v),
            ).push((i, values@[k as int])));
            k = k + 1;
        }
        proof {
            assert(values@.take(values@.len() as int) == values@);
            let new_outs = outs.push(values@);
            assert(new_outs.take(i as int) == outs);
            lemma_tagged_prefix(new_outs, outs, i as int);
            assert forall|g: int| 0 <= g < i + 1 implies sampled_at(samples_at, g, #[trigger] new_outs[g]) by {
                if g < i {
                    assert(new_outs[g] == outs[g]);
                } else {
                    assert(new_outs[g] == values@);
                    assert(call_ensures(samples_at, (g as usize,), values));
                }
            }
            outs = new_outs;
        }
        i = i + 1;
    }
    assert(sampled_grid(samples_at, steps as int, outs));
    points
}

/// The tagged samples of a prefix depend only on that prefix.
proof fn lemma_tagged_prefix<V>(a: Seq<Seq<V>>, b: Seq<Seq<V>>, upto: int)
    requires
        0 <= upto <= b.len(),
        upto <= a.len(),
        forall|g: int| 0 <= g < upto ==> a[g] == b[g],
    ensures
        tagged_samples(a, upto) == tagged_samples(b, upto),
    decreases upto,
{
    if upto > 0 {
        lemma_tagged_prefix(a, b, upto - 1);
    }
}

/// A sweep yields every recorded sample once: the number of points is the
/// total number of samples over the grid, so `(steps + 1) * record` when
/// every grid point records `record` samples.
pub proof fn lemma_sweep_size<V>(outs: Seq<Seq<V>>, upto: int, record: int)
    requires
        0 <= upto <= outs.len(),
    ensures
        tagged_samples(outs, upto).len() == sample_total(outs, upto),
        (forall|g: int| 0 <= g < upto ==> #[trigger] outs[g].len() == record) ==> sample_total(
            outs,
            upto,
        ) == upto * record,
    decreases upto,
{
    if upto > 0 {
        lemma_sweep_size(outs, upto - 1, record);
        if forall|g: int| 0 <= g < upto ==> #[trigger] outs[g].len() == record {
            assert(outs[upto - 1].len() == record);
            assert(sample_total(outs, upto) == (upto - 1) * record + record);
            assert((upto - 1) * record + record == upto * record) by (nonlinear_arith);
        }
    } else {
        assert(upto * record == 0) by (nonlinear_arith)
            requires
                upto == 0,
        ;
    }
}

/// When every grid point records `record` samples, point `k` of a sweep
/// belongs to grid point `k / record` and is that grid point's sample number
/// `k % record`.
pub proof fn lemma_sweep_index<V>(outs: Seq<Seq<V>>, upto: int, record: int, k: int)
    requires
        0 <= upto <= outs.len(),
        upto <= usize::MAX + 1,
        record > 0,
        forall|g: int| 0 <= g < upto ==> #[trigger] outs[g].len() == record,
        0 <= k < upto * record,
    ensures
        tagged_samples(outs, upto)[k] == ((k / record) as usize, outs[k / record][k % record]),
    decreases upto,
{
    lemma_sweep_size(outs, upto, record);
    if upto > 0 {
        let prev = tagged_samples(outs, upto - 1);
        lemma_sweep_size(outs, upto - 1, record);
        assert(prev.len() == (upto - 1) * record);
        assert((upto - 1) * record == upto * record - record) by (nonlinear_arith);
        if k < (upto - 1) * record {
            lemma_sweep_index(outs, upto - 1, record, k);
        } else {
            let r = k - (upto - 1) * record;
            assert(0 <= r < record);
            assert(k == (upto - 1) * record + r);
            lemma_fundamental_div_mod_converse_div(k, record, upto - 1, r);
            lemma_fundamental_div_mod_converse_mod(k, record, upto - 1, r);
            assert(outs[upto - 1].len() == record);
        }
    }
}

} // verus!
