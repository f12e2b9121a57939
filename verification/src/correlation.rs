//! Subsampling of point pairs for the Grassberger-Procaccia correlation
//! integral: pairs are enumerated in order and every `step`-th one is kept,
//! so that no more than a fixed number of distances is computed.

use vstd::prelude::*;
use vstd::arithmetic::div_mod::{
    lemma_fundamental_div_mod,
    lemma_fundamental_div_mod_converse_div,
    lemma_fundamental_div_mod_converse_mod,
};

verus! {

/// The largest number of pair distances the correlation dimension computes.
pub const MAX_SAMPLED_PAIRS: usize = 10000;

/// The fewest points from which a correlation dimension is estimated.
pub const MIN_CORRELATION_POINTS: usize = 10;

/// The number of unordered pairs among `n` points.
pub open spec fn pair_count(n: int) -> int {
    n * (n - 1) / 2
}

/// Keep every `step`-th pair, so that at most `max_pairs` remain:
/// `step = max(1, ceil(pair_count / max_pairs))`.
pub open spec fn sample_step(n: int, max_pairs: int) -> int {
    let t = pair_count(n);
    let q = if t % max_pairs == 0 {
        t / max_pairs
    } else {
        t / max_pairs + 1
    };
    if q < 1 {
        1
    } else {
        q
    }
}

/// The number of pairs `(a, b)` with `a < i` and `a < b < n`.
pub open spec fn pairs_before(n: int, i: int) -> int
    decreases i,
{
    if i <= 0 {
        0
    } else {
        pairs_before(n, i - 1) + (n - 1 - (i - 1))
    }
}

/// The position, counted from 1, of the pair `(i, j)` when the pairs
/// `i < j < n` are listed by `i`, then by `j`.
pub open spec fn pair_rank(n: int, i: int, j: int) -> int {
    pairs_before(n, i) + (j - i)
}

/// Closed form of the number of pairs before row `i`.
proof fn lemma_pairs_before_closed(n: int, i: int)
    requires
        0 <= i,
    ensures
        2 * pairs_before(n, i) == i * (2 * n - 1 - i),
    decreases i,
{
    if i > 0 {
        lemma_pairs_before_closed(n, i - 1);
        assert(2 * pairs_before(n, i) == i * (2 * n - 1 - i)) by (nonlinear_arith)
            requires
                2 * pairs_before(n, i - 1) == (i - 1) * (2 * n - 1 - (i - 1)),
                pairs_before(n, i) == pairs_before(n, i - 1) + (n - 1 - (i - 1)),
        ;
    } else {
        assert(i * (2 * n - 1 - i) == 0) by (nonlinear_arith)
            requires
                i == 0,
        ;
    }
}

/// More rows hold more pairs.
proof fn lemma_pairs_before_mono(n: int, i: int, k: int)
    requires
        0 <= i <= k <= n,
    ensures
        pairs_before(n, i) <= pairs_before(n, k),
    decreases k - i,
{
    if i < k {
        lemma_pairs_before_mono(n, i, k - 1);
    }
}

/// All pairs among `n` points come before row `n`.
proof fn lemma_pairs_before_all(n: int)
    requires
        0 <= n,
    ensures
        pairs_before(n, n) == pair_count(n),
{
    lemma_pairs_before_closed(n, n);
    assert(n * (2 * n - 1 - n) == n * (n - 1)) by (nonlinear_arith);
}

/// Counting one more pair: the number of multiples of `s` up to `c + 1`.
proof fn lemma_count_step(c: int, s: int)
    requires
        c >= 0,
        s > 0,
    ensures
        (c + 1) % s == 0 ==> (c + 1) / s == c / s + 1 && c + 1 == (c / s + 1) * s,
        (c + 1) % s != 0 ==> (c + 1) / s == c / s,
{
    let q = c / s;
    let r = c % s;
    lemma_fundamental_div_mod(c, s);
    assert(0 <= r < s);
    assert(s * q == q * s) by (nonlinear_arith);
    if r + 1 < s {
        lemma_fundamental_div_mod_converse_div(c + 1, s, q, r + 1);
        lemma_fundamental_div_mod_converse_mod(c + 1, s, q, r + 1);
    } else {
        assert(c + 1 == (q + 1) * s + 0) by (nonlinear_arith)
            requires
                c == q * s + r,
                r + 1 == s,
        ;
        lemma_fundamental_div_mod_converse_div(c + 1, s, q + 1, 0);
        lemma_fundamental_div_mod_converse_mod(c + 1, s, q + 1, 0);
    }
}

/// With the sampling step, the kept pairs never exceed `max_pairs`.
proof fn lemma_step_bounds_count(t: int, m: int, s: int)
    requires
        t >= 0,
        m > 0,
        s >= 1,
        s >= (if t % m == 0 {
            t / m
        } else {
            t / m + 1
        }),
    ensures
        t / s <= m,
{
    lemma_fundamental_div_mod(t, m);
    lemma_fundamental_div_mod(t, s);
    let qm = if t % m == 0 {
        t / m
    } else {
        t / m + 1
    };
    assert(t <= m * qm) by (nonlinear_arith)
        requires
            t == m * (t / m) + t % m,
            0 <= t % m < m,
            qm == (if t % m == 0 {
                t / m
            } else {
                t / m + 1
            }),
    ;
    assert(t / s <= m) by (nonlinear_arith)
        requires
            t == s * (t / s) + t % s,
            0 <= t % s < s,
            t <= m * qm,
            qm <= s,
            m > 0,
            s >= 1,
            t >= 0,
    ;
}

/// The pairs `(i, j)` with `i < j < n` whose rank is a multiple of the
/// sampling step, in order: the pairs whose distances the correlation
/// integral is computed from.
pub fn sampled_pairs(n: usize, max_pairs: usize) -> (pairs: Vec<(usize, usize)>)
    requires
        max_pairs > 0,
        n * (n - 1) <= usize::MAX,
    ensures
        pairs@.len() == pair_count(n as int) / sample_step(n as int, max_pairs as int),
        pairs@.len() <= max_pairs,
        forall|k: int|
            #![trigger pairs@[k]]
            0 <= k < pairs@.len() ==> {
                let (i, j) = pairs@[k];
                &&& i < j < n
                &&& pair_rank(n as int, i as int, j as int) == (k + 1) * sample_step(
                    n as int,
                    max_pairs as int,
                )
            },
{
    let total: usize = if n == 0 {
        0
    } else {
        n * (n - 1) / 2
    };
    proof {
        if n == 0 {
            assert(pair_count(0) == 0);
        }
    }
    let q: usize = if total % max_pairs == 0 {
        total / max_pairs
    } else {
        total / max_pairs + 1
    };
    let step: usize = if q < 1 {
        1
    } else {
        q
    };
    assert(step == sample_step(n as int, max_pairs as int));
    proof {
        lemma_pairs_before_all(n as int);
        lemma_step_bounds_count(total as int, max_pairs as int, step as int);
    }
    let mut pairs: Vec<(usize, usize)> = Vec::new();
    let mut count: usize = 0;
    let mut i: usize = 0;
    while i < n
        invariant
            i <= n,
            step >= 1,
            total == pair_count(n as int) == pairs_before(n as int, n as int),
            step == sample_step(n as int, max_pairs as int),
            count == pairs_before(n as int, i as int),
            pairs@.len() == count / step,
            forall|k: int|
                #![trigger pairs@[k]]
                0 <= k < pairs@.len() ==> {
                    let (a, b) = pairs@[k];
                    &&& a < b < n
                    &&& pair_rank(n as int, a as int, b as int) == (k + 1) * step
                },
        decreases n - i,
    {
        proof {
            lemma_pairs_before_mono(n as int, i as int + 1, n as int);
        }
        let mut j: usize = i + 1;
        while j < n
            invariant
                i < n,
                i + 1 <= j <= n,
                step >= 1,
                total == pair_count(n as int) == pairs_before(n as int, n as int),
                pairs_before(n as int, i as int + 1) <= total,
                step == sample_step(n as int, max_pairs as int),
                count == pairs_before(n as int, i as int) + (j - i - 1),
                pairs@.len() == count / step,
                forall|k: int|
                    #![trigger pairs@[k]]
                    0 <= k < pairs@.len() ==> {
                        let (a, b) = pairs@[k];
                        &&& a < b < n
                        &&& pair_rank(n as int, a as int, b as int) == (k + 1) * step
                    },
            decreases n - j,
        {
            proof {
                lemma_count_step(count as int, step as int);
            }
            count = count + 1;
            if count % step == 0 {
                pairs.push((i, j));
            }
            j = j + 1;
        }
        i = i + 1;
    }
    pairs
}

/// The point pairs whose distances the correlation integral of `n` points
/// is computed from: none for fewer than `MIN_CORRELATION_POINTS` points,
/// otherwise the pairs sampled with at most `MAX_SAMPLED_PAIRS` kept.
pub fn correlation_pairs(n: usize) -> (pairs: Vec<(usize, usize)>)
    requires
        n >= MIN_CORRELATION_POINTS ==> n * (n - 1) <= usize::MAX,
    ensures
        n < MIN_CORRELATION_POINTS ==> pairs@.len() == 0,
        n >= MIN_CORRELATION_POINTS ==> pairs@.len() == pair_count(n as int) / sample_step(
            n as int,
            MAX_SAMPLED_PAIRS as int,
        ),
        pairs@.len() <= MAX_SAMPLED_PAIRS,
        forall|k: int|
            #![trigger pairs@[k]]
            0 <= k < pairs@.len() ==> {
                let (i, j) = pairs@[k];
                &&& i < j < n
                &&& pair_rank(n as int, i as int, j as int) == (k + 1) * sample_step(
                    n as int,
                    MAX_SAMPLED_PAIRS as int,
                )
            },
{
    if n < MIN_CORRELATION_POINTS {
        return Vec::new();
    }
    sampled_pairs(n, MAX_SAMPLED_PAIRS)
}

/// The sampling step is the smallest step of at least one that keeps at
/// most `max_pairs` of the pairs: `step * max_pairs` covers all pairs, and
/// one step less would not.
pub proof fn lemma_sample_step_meaning(n: int, max_pairs: int)
    requires
        n >= 0,
        max_pairs > 0,
    ensures
        sample_step(n, max_pairs) >= 1,
        sample_step(n, max_pairs) * max_pairs >= pair_count(n),
        sample_step(n, max_pairs) > 1 ==> (sample_step(n, max_pairs) - 1) * max_pairs < pair_count(n),
        pair_count(n) / sample_step(n, max_pairs) <= max_pairs,
{
    let t = pair_count(n);
    assert(t >= 0) by (nonlinear_arith)
        requires
            n >= 0,
            t == n * (n - 1) / 2,
    ;
    lemma_fundamental_div_mod(t, max_pairs);
    let q = if t % max_pairs == 0 {
        t / max_pairs
    } else {
        t / max_pairs + 1
    };
    assert(q * max_pairs >= t && (q - 1) * max_pairs < t || q == 0) by (nonlinear_arith)
        requires
            t == max_pairs * (t / max_pairs) + t % max_pairs,
            0 <= t % max_pairs < max_pairs,
            q == (if t % max_pairs == 0 {
                t / max_pairs
            } else {
                t / max_pairs + 1
            }),
            t >= 0,
            max_pairs > 0,
    ;
    assert(t / max_pairs >= 0) by (nonlinear_arith)
        requires
            t >= 0,
            max_pairs > 0,
    ;
    if q < 1 {
        assert(t == 0) by (nonlinear_arith)
            requires
                t == max_pairs * (t / max_pairs) + t % max_pairs,
                0 <= t % max_pairs < max_pairs,
                q == (if t % max_pairs == 0 {
                    t / max_pairs
                } else {
                    t / max_pairs + 1
                }),
                q < 1,
                t / max_pairs >= 0,
        ;
    }
    lemma_step_bounds_count(t, max_pairs, sample_step(n, max_pairs));
}

/// Pair ranks list the pairs `i < j < n` row by row: the first pair `(0, 1)`
/// has rank 1, the next pair in a row has the next rank, the first pair of
/// a row follows the last pair of the row before, and the last pair
/// `(n - 2, n - 1)` has rank `n (n - 1) / 2`.
pub proof fn lemma_pair_rank_order(n: int, i: int, j: int)
    requires
        n >= 2,
    ensures
        pair_rank(n, 0, 1) == 1,
        0 <= i < j && j + 1 < n ==> pair_rank(n, i, j + 1) == pair_rank(n, i, j) + 1,
        0 <= i && i + 2 < n ==> pair_rank(n, i + 1, i + 2) == pair_rank(n, i, n - 1) + 1,
        pair_rank(n, n - 2, n - 1) == pair_count(n),
        0 <= i ==> 2 * pairs_before(n, i) == i * (2 * n - 1 - i),
{
    if 0 <= i {
        lemma_pairs_before_closed(n, i);
    }
    lemma_pairs_before_all(n);
    assert(pairs_before(n, n - 1) == pairs_before(n, n - 2) + (n - 1 - (n - 2)));
    assert(pairs_before(n, n) == pairs_before(n, n - 1) + 0);
}

} // verus!
