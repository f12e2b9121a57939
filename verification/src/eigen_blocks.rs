//! The diagonal blocks of a converged real Schur form: each eigenvalue is
//! read from a 1x1 block, and each complex-conjugate or real pair from a
//! 2x2 block whose subdiagonal entry has not vanished.

use vstd::prelude::*;

verus! {

/// A diagonal block of a quasi-triangular matrix, by the row it starts at.
#[derive(Debug, Clone, Copy, PartialEq, Eq, Structural)]
pub enum DiagonalBlock {
    /// The 1x1 block at `(i, i)`.
    Single(usize),
    /// The 2x2 block at rows and columns `i` and `i + 1`.
    Pair(usize),
}

impl DiagonalBlock {
    /// The row this block starts at.
    pub open spec fn start(self) -> int {
        match self {
            DiagonalBlock::Single(r) => r as int,
            DiagonalBlock::Pair(r) => r as int,
        }
    }

    /// The number of eigenvalues this block holds.
    pub open spec fn size(self) -> nat {
        match self {
            DiagonalBlock::Single(_) => 1,
            DiagonalBlock::Pair(_) => 2,
        }
    }
}

/// The blocks from row `i` on: starting at row `i`, a pair when row `i + 1`
/// exists and is coupled to row `i`, a single otherwise.
pub open spec fn blocks_from(coupled: Seq<bool>, i: int) -> Seq<DiagonalBlock>
    decreases coupled.len() - i,
{
    if i < 0 || i >= coupled.len() {
        Seq::empty()
    } else if i + 1 < coupled.len() && coupled[i] {
        seq![DiagonalBlock::Pair(i as usize)] + blocks_from(coupled, i + 2)
    } else {
        seq![DiagonalBlock::Single(i as usize)] + blocks_from(coupled, i + 1)
    }
}

/// The number of eigenvalues the blocks hold together.
pub open spec fn total_size(blocks: Seq<DiagonalBlock>) -> nat
    decreases blocks.len(),
{
    if blocks.len() == 0 {
        0
    } else {
        blocks[0].size() + total_size(blocks.drop_first())
    }
}

/// Split the diagonal of an `n x n` quasi-triangular matrix into blocks,
/// scanning rows from the top: `coupled[i]` tells whether the subdiagonal
/// entry `(i + 1, i)` is nonzero; its last entry is never read.
pub fn diagonal_blocks(coupled: &Vec<bool>) -> (blocks: Vec<DiagonalBlock>)
    ensures
        blocks@ == blocks_from(coupled@, 0),
        (blocks@.len() == 0) <==> (coupled@.len() == 0),
        blocks@.len() > 0 ==> blocks@[0].start() == 0,
        forall|k: int|
            0 <= k < blocks@.len() - 1 ==> #[trigger] blocks@[k + 1].start() == blocks@[k].start()
                + blocks@[k].size(),
        blocks@.len() > 0 ==> blocks@.last().start() + blocks@.last().size() == coupled@.len(),
        forall|k: int|
            0 <= k < blocks@.len() ==> ((#[trigger] blocks@[k] is Pair) <==> (blocks@[k].start() + 1
                < coupled@.len() && coupled@[blocks@[k].start()])),
{
    let n = coupled.len();
    let mut blocks: Vec<DiagonalBlock> = Vec::new();
    let mut i: usize = 0;
    while i < n
        invariant
            n == coupled@.len(),
            i <= n,
            blocks@ + blocks_from(coupled@, i as int) == blocks_from(coupled@, 0),
        decreases n - i,
    {
        let ghost prev = blocks@;
        if i + 1 < n && coupled[i] {
            blocks.push(DiagonalBlock::Pair(i));
            assert(prev + blocks_from(coupled@, i as int) == blocks@ + blocks_from(
                coupled@,
                i + 2,
            ));
            i = i + 2;
        } else {
            blocks.push(DiagonalBlock::Single(i));
            assert(prev + blocks_from(coupled@, i as int) == blocks@ + blocks_from(
                coupled@,
                i + 1,
            ));
            i = i + 1;
        }
    }
    assert(blocks@ + blocks_from(coupled@, n as int) == blocks@);
    proof {
        lemma_blocks_tile(coupled@, 0);
    }
    blocks
}

/// The blocks from row `i` on tile the rows `i..n` from the top down: the
/// first starts at row `i`, each next one starts right after the one before,
/// the last ends at row `n`, and a block is a pair exactly when the row it
/// starts at has a row below it and is coupled to it. So a coupled row with
/// a row below that starts a block always starts a 2x2 block, the last rows
/// included.
pub proof fn lemma_blocks_tile(coupled: Seq<bool>, i: int)
    requires
        0 <= i <= coupled.len() <= usize::MAX,
    ensures
        (blocks_from(coupled, i).len() == 0) <==> (i == coupled.len()),
        blocks_from(coupled, i).len() > 0 ==> blocks_from(coupled, i)[0].start() == i,
        forall|k: int|
            0 <= k < blocks_from(coupled, i).len() - 1 ==> #[trigger] blocks_from(coupled, i)[k
                + 1].start() == blocks_from(coupled, i)[k].start() + blocks_from(coupled, i)[k].size(),
        blocks_from(coupled, i).len() > 0 ==> blocks_from(coupled, i).last().start() + blocks_from(
            coupled,
            i,
        ).last().size() == coupled.len(),
        forall|k: int|
            0 <= k < blocks_from(coupled, i).len() ==> ((#[trigger] blocks_from(coupled, i)[k] is Pair)
                <==> (blocks_from(coupled, i)[k].start() + 1 < coupled.len() && coupled[blocks_from(
                coupled,
                i,
            )[k].start()])),
    decreases coupled.len() - i,
{
    let b = blocks_from(coupled, i);
    if i < coupled.len() {
        let pair = i + 1 < coupled.len() && coupled[i];
        let step: int = if pair {
            2
        } else {
            1
        };
        lemma_blocks_tile(coupled, i + step);
        let rest = blocks_from(coupled, i + step);
        assert(b == seq![b[0]] + rest);
        assert(b[0].start() == i);
        assert(b[0].size() == step);
        assert forall|k: int| 0 <= k < b.len() - 1 implies #[trigger] b[k + 1].start() == b[k].start()
            + b[k].size() by {
            assert(b[k + 1] == rest[k]);
            if k > 0 {
                assert(b[k] == rest[k - 1]);
                assert(rest[(k - 1) + 1].start() == rest[k - 1].start() + rest[k - 1].size());
            } else {
                assert(rest[0].start() == i + step);
            }
        }
        assert forall|k: int| 0 <= k < b.len() implies ((#[trigger] b[k] is Pair) <==> (b[k].start() + 1
            < coupled.len() && coupled[b[k].start()])) by {
            if k > 0 {
                assert(b[k] == rest[k - 1]);
            }
        }
        if rest.len() > 0 {
            assert(b.last() == rest.last());
        }
    }
}

/// The blocks from row `i` on hold exactly `n - i` eigenvalues, so the
/// blocks of an `n x n` matrix give `n` eigenvalues; every pair starts on a
/// coupled row with a row below it, and every block lies within the matrix.
pub proof fn lemma_blocks_cover(coupled: Seq<bool>, i: int)
    requires
        0 <= i <= coupled.len() <= usize::MAX,
    ensures
        total_size(blocks_from(coupled, i)) == coupled.len() - i,
        forall|k: int|
            0 <= k < blocks_from(coupled, i).len() ==> match #[trigger] blocks_from(coupled, i)[k] {
                DiagonalBlock::Single(r) => i <= r < coupled.len(),
                DiagonalBlock::Pair(r) => i <= r && r + 1 < coupled.len() && coupled[r as int],
            },
    decreases coupled.len() - i,
{
    let b = blocks_from(coupled, i);
    if i < coupled.len() {
        let step: int = if i + 1 < coupled.len() && coupled[i] {
            2
        } else {
            1
        };
        lemma_blocks_cover(coupled, i + step);
        let rest = blocks_from(coupled, i + step);
        assert(b.drop_first() == rest);
        assert forall|k: int| 0 <= k < b.len() implies match #[trigger] b[k] {
            DiagonalBlock::Single(r) => i <= r < coupled.len(),
            DiagonalBlock::Pair(r) => i <= r && r + 1 < coupled.len() && coupled[r as int],
        } by {
            if k > 0 {
                assert(b[k] == rest[k - 1]);
            }
        }
    }
}

} // verus!
