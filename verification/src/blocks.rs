//! Distribution of an `n x n` row-major matrix over a `q x q` process grid:
//! rank `i * q + j` holds block `(i, j)`, the `bs x bs` sub-matrix with
//! `bs = n / q` whose top left element is at row `i * bs`, column `j * bs`.
use vstd::prelude::*;
use vstd::arithmetic::div_mod::{lemma_fundamental_div_mod, lemma_fundamental_div_mod_converse};
use crate::matrix::append_range;

verus! {

/// Position in the whole matrix of element `k` (row-major) of block `(bi, bj)`.
pub open spec fn block_elem_index(n: int, bs: int, bi: int, bj: int, k: int) -> int {
    (bi * bs + k / bs) * n + bj * bs + k % bs
}

/// Block `(bi, bj)` of the `n x n` matrix `data`, row by row.
pub open spec fn block_of<T>(data: Seq<T>, n: int, bs: int, bi: int, bj: int) -> Seq<T> {
    Seq::new((bs * bs) as nat, |k: int| data[block_elem_index(n, bs, bi, bj, k)])
}

/// Rank whose block holds element `x` of the whole matrix.
pub open spec fn owner_rank(n: int, q: int, x: int) -> int {
    ((x / n) / (n / q)) * q + (x % n) / (n / q)
}

/// Position of element `x` of the whole matrix inside its block.
pub open spec fn pos_in_block(n: int, q: int, x: int) -> int {
    ((x / n) % (n / q)) * (n / q) + (x % n) % (n / q)
}

/// The whole matrix that the blocks of all ranks make up.
pub open spec fn assembled<T>(blocks: Seq<Vec<T>>, n: int, q: int) -> Seq<T> {
    Seq::new((n * n) as nat, |x: int| blocks[owner_rank(n, q, x)]@[pos_in_block(n, q, x)])
}

proof fn lemma_split_index(x: int, d: int, a: int, b: int)
    requires
        d > 0,
        0 <= b < d,
        x == a * d + b,
    ensures
        x / d == a,
        x % d == b,
{
    lemma_fundamental_div_mod_converse(x, d, a, b);
}

proof fn lemma_block_geometry(n: int, q: int, x: int)
    requires
        q > 0,
        n >= 0,
        n % q == 0,
        0 <= x < n * n,
    ensures
        n > 0,
        n / q > 0,
        n == q * (n / q),
        0 <= x / n < n,
        0 <= x % n < n,
        x == (x / n) * n + x % n,
        0 <= (x / n) / (n / q) < q,
        0 <= (x % n) / (n / q) < q,
        0 <= owner_rank(n, q, x) < q * q,
        owner_rank(n, q, x) / q == (x / n) / (n / q),
        owner_rank(n, q, x) % q == (x % n) / (n / q),
        0 <= pos_in_block(n, q, x) < (n / q) * (n / q),
        pos_in_block(n, q, x) / (n / q) == (x / n) % (n / q),
        pos_in_block(n, q, x) % (n / q) == (x % n) % (n / q),
        (x / n) == ((x / n) / (n / q)) * (n / q) + (x / n) % (n / q),
        (x % n) == ((x % n) / (n / q)) * (n / q) + (x % n) % (n / q),
{
    let bs = n / q;
    assert(n > 0) by (nonlinear_arith)
        requires
            0 <= x < n * n,
            n >= 0,
    ;
    lemma_fundamental_div_mod(n, q);
    assert(bs > 0) by (nonlinear_arith)
        requires
            n == q * bs,
            n > 0,
            q > 0,
    ;
    lemma_fundamental_div_mod(x, n);
    assert(0 <= x % n < n) by (nonlinear_arith)
        requires
            n > 0,
    ;
    let row = x / n;
    let col = x % n;
    assert(0 <= row < n) by (nonlinear_arith)
        requires
            x == n * row + col,
            0 <= col < n,
            0 <= x < n * n,
    ;
    lemma_fundamental_div_mod(row, bs);
    lemma_fundamental_div_mod(col, bs);
    let bi = row / bs;
    let r = row % bs;
    let bj = col / bs;
    let c = col % bs;
    assert(0 <= r < bs && 0 <= c < bs) by (nonlinear_arith)
        requires
            bs > 0,
            r == row % bs,
            c == col % bs,
    ;
    assert(0 <= bi < q && 0 <= bj < q) by (nonlinear_arith)
        requires
            row == bs * bi + r,
            col == bs * bj + c,
            0 <= r < bs,
            0 <= c < bs,
            0 <= row < n,
            0 <= col < n,
            n == q * bs,
            bs > 0,
    ;
    lemma_split_index(bi * q + bj, q, bi, bj);
    lemma_split_index(r * bs + c, bs, r, c);
    assert(0 <= bi * q + bj < q * q) by (nonlinear_arith)
        requires
            0 <= bi < q,
            0 <= bj < q,
    ;
    assert(0 <= r * bs + c < bs * bs) by (nonlinear_arith)
        requires
            0 <= r < bs,
            0 <= c < bs,
    ;
    assert(row * n == n * row) by (nonlinear_arith);
    assert(bi * bs == bs * bi) by (nonlinear_arith);
    assert(bj * bs == bs * bj) by (nonlinear_arith);
}

/// Copies block `(bi, bj)` out of the `n x n` matrix `data`.
fn extract_block<T: Copy>(data: &[T], n: usize, bs: usize, bi: usize, bj: usize) -> (block: Vec<T>)
    requires
        data.len() == n * n,
        bs > 0,
        (bi + 1) * bs <= n,
        (bj + 1) * bs <= n,
    ensures
        block@ == block_of(data@, n as int, bs as int, bi as int, bj as int),
{
    let mut block: Vec<T> = Vec::new();
    assert(0 * bs == 0);
    for r in 0..bs
        invariant
            data.len() == n * n,
            bs > 0,
            (bi + 1) * bs <= n,
            (bj + 1) * bs <= n,
            block.len() == r * bs,
            forall|k: int|
                0 <= k < r * bs ==> #[trigger] block@[k] == data@[block_elem_index(
                    n as int,
                    bs as int,
                    bi as int,
                    bj as int,
                    k,
                )],
    {
        assert(bi * bs + r < n && (bi * bs + r + 1) * n <= n * n && (bj * bs + bs) <= n
            && (bi * bs + r) * n + bj * bs + bs <= n * n) by (nonlinear_arith)
            requires
                (bi + 1) * bs <= n,
                (bj + 1) * bs <= n,
                r < bs,
        ;
        let start = (bi * bs + r) * n + bj * bs;
        append_range(&mut block, data, start, start + bs);
        proof {
            assert((r + 1) * bs == r * bs + bs) by (nonlinear_arith);
            assert forall|k: int| 0 <= k < (r + 1) * bs implies #[trigger] block@[k]
                == data@[block_elem_index(n as int, bs as int, bi as int, bj as int, k)] by {
                if k >= r * bs {
                    let c = k - r * bs;
                    lemma_split_index(k, bs as int, r as int, c);
                    assert(block@[k] == data@[start + c]);
                }
            }
        }
    }
    assert(block@ =~= block_of(data@, n as int, bs as int, bi as int, bj as int));
    block
}

/// Cuts the `n x n` matrix `data` into the `q * q` blocks of the process
/// grid; entry `i * q + j` is block `(i, j)`, the block of rank `i * q + j`.
pub fn split_into_blocks<T: Copy>(data: &[T], n: usize, q: usize) -> (blocks: Vec<Vec<T>>)
    requires
        q > 0,
        n % q == 0,
        data.len() == n * n,
    ensures
        blocks.len() == q * q,
        forall|rank: int|
            0 <= rank < q * q ==> #[trigger] blocks[rank]@ == block_of(
                data@,
                n as int,
                (n / q) as int,
                rank / q as int,
                rank % q as int,
            ),
{
    let bs = n / q;
    let mut blocks: Vec<Vec<T>> = Vec::new();
    proof {
        lemma_fundamental_div_mod(n as int, q as int);
    }
    assert(n == q * bs);
    if bs == 0 {
        assert(n == 0) by (nonlinear_arith)
            requires
                n == q * bs,
                bs == 0,
        ;
    }
    assert(0 * q == 0);
    for i in 0..q
        invariant
            q > 0,
            bs == n / q,
            n == q * bs,
            data.len() == n * n,
            blocks.len() == i * q,
            forall|rank: int|
                0 <= rank < i * q ==> #[trigger] blocks[rank]@ == block_of(
                    data@,
                    n as int,
                    bs as int,
                    rank / q as int,
                    rank % q as int,
                ),
    {
        for j in 0..q
            invariant
                q > 0,
                bs == n / q,
                n == q * bs,
                data.len() == n * n,
                i < q,
                blocks.len() == i * q + j,
                forall|rank: int|
                    0 <= rank < i * q + j ==> #[trigger] blocks[rank]@ == block_of(
                        data@,
                        n as int,
                        bs as int,
                        rank / q as int,
                        rank % q as int,
                    ),
        {
            assert((i + 1) * bs <= n && (j + 1) * bs <= n) by (nonlinear_arith)
                requires
                    i < q,
                    j < q,
                    n == q * bs,
            ;
            let block = if bs > 0 {
                extract_block(data, n, bs, i, j)
            } else {
                Vec::new()
            };
            proof {
                lemma_split_index((i * q + j) as int, q as int, i as int, j as int);
                if bs == 0 {
                    assert(block@ =~= block_of(data@, n as int, bs as int, i as int, j as int));
                }
            }
            blocks.push(block);
        }
        assert((i + 1) * q == i * q + q) by (nonlinear_arith);
    }
    blocks
}

/// Rebuilds the `n x n` matrix from the blocks of the `q x q` process grid;
/// entry `i * q + j` of `blocks` is block `(i, j)`.
pub fn assemble_blocks<T: Copy>(blocks: &Vec<Vec<T>>, n: usize, q: usize) -> (data: Vec<T>)
    requires
        q > 0,
        n % q == 0,
        n * n <= usize::MAX,
        blocks.len() == q * q,
        forall|rank: int| 0 <= rank < q * q ==> #[trigger] blocks[rank]@.len() == (n / q) * (n / q),
    ensures
        data@ == assembled(blocks@, n as int, q as int),
{
    let bs = n / q;
    proof {
        lemma_fundamental_div_mod(n as int, q as int);
    }
    let mut out: Vec<T> = Vec::new();
    assert(n == q * bs);
    assert(0 * n == 0);
    for gr in 0..n
        invariant
            q > 0,
            n % q == 0,
            bs == n / q,
            n == q * bs,
            n * n <= usize::MAX,
            blocks.len() == q * q,
            forall|rank: int| 0 <= rank < q * q ==> #[trigger] blocks[rank]@.len() == bs * bs,
            out.len() == gr * n,
            forall|x: int|
                0 <= x < gr * n ==> #[trigger] out@[x] == blocks@[owner_rank(
                    n as int,
                    q as int,
                    x,
                )]@[pos_in_block(n as int, q as int, x)],
    {
        assert(bs > 0) by (nonlinear_arith)
            requires
                n == q * bs,
                gr < n,
        ;
        let bi = gr / bs;
        let r = gr % bs;
        assert(0 * bs == 0);
        assert(bi < q && r < bs && r * bs + bs <= bs * bs && bi * q + q <= q * q) by (nonlinear_arith)
            requires
                bi == gr / bs,
                r == gr % bs,
                gr < n,
                n == q * bs,
                bs > 0,
        ;
        for bj in 0..q
            invariant
                q > 0,
                n % q == 0,
                bs == n / q,
                n == q * bs,
                bs > 0,
                n * n <= usize::MAX,
                gr < n,
                bi == gr / bs,
                r == gr % bs,
                bi < q,
                r < bs,
                r * bs + bs <= bs * bs,
                bi * q + q <= q * q,
                blocks.len() == q * q,
                forall|rank: int| 0 <= rank < q * q ==> #[trigger] blocks[rank]@.len() == bs * bs,
                out.len() == gr * n + bj * bs,
                forall|x: int|
                    0 <= x < gr * n + bj * bs ==> #[trigger] out@[x] == blocks@[owner_rank(
                        n as int,
                        q as int,
                        x,
                    )]@[pos_in_block(n as int, q as int, x)],
        {
            let block = &blocks[bi * q + bj];
            let blen = block.len();
            append_range(&mut out, block.as_slice(), r * bs, r * bs + bs);
            proof {
                assert((bj + 1) * bs == bj * bs + bs) by (nonlinear_arith);
                assert(gr * n + bj * bs + bs <= n * n) by (nonlinear_arith)
                    requires
                        gr < n,
                        bj < q,
                        n == q * bs,
                ;
                assert forall|x: int| 0 <= x < gr * n + (bj + 1) * bs implies #[trigger] out@[x]
                    == blocks@[owner_rank(n as int, q as int, x)]@[pos_in_block(
                    n as int,
                    q as int,
                    x,
                )] by {
                    if x >= gr * n + bj * bs {
                        let c = x - gr * n - bj * bs;
                        lemma_block_geometry(n as int, q as int, x);
                        assert(bj * bs + c < n) by (nonlinear_arith)
                            requires
                                bj < q,
                                0 <= c < bs,
                                n == q * bs,
                        ;
                        lemma_split_index(x, n as int, gr as int, bj * bs + c);
                        lemma_split_index(bj * bs + c, bs as int, bj as int, c);
                        lemma_fundamental_div_mod(gr as int, bs as int);
                        assert(gr == bi * bs + r) by (nonlinear_arith)
                            requires
                                gr == bs * (gr / bs) + gr % bs,
                                bi == gr / bs,
                                r == gr % bs,
                        ;
                        assert(out@[x] == block@[r * bs + c]);
                    }
                }
            }
        }
        assert((gr + 1) * n == gr * n + q * bs) by (nonlinear_arith)
            requires
                n == q * bs,
        ;
    }
    assert(out@ =~= assembled(blocks@, n as int, q as int));
    out
}

/// Cutting a matrix into the blocks of the process grid and rebuilding it
/// from those blocks gives back the matrix: every element returns to its
/// place.
pub proof fn lemma_split_then_assemble<T>(data: Seq<T>, blocks: Seq<Vec<T>>, n: int, q: int)
    requires
        q > 0,
        n >= 0,
        n % q == 0,
        data.len() == n * n,
        blocks.len() == q * q,
        forall|rank: int|
            0 <= rank < q * q ==> #[trigger] blocks[rank]@ == block_of(
                data,
                n,
                n / q,
                rank / q,
                rank % q,
            ),
    ensures
        assembled(blocks, n, q) == data,
{
    assert forall|x: int| 0 <= x < n * n implies #[trigger] assembled(blocks, n, q)[x] == data[x] by {
        lemma_block_geometry(n, q, x);
        let rank = owner_rank(n, q, x);
        let k = pos_in_block(n, q, x);
        let bs = n / q;
        assert(block_elem_index(n, bs, rank / q, rank % q, k) == x);
    }
    assert(assembled(blocks, n, q) =~= data);
}

/// Element `(r, c)` of block `(bi, bj)` is element
/// `(bi * bs + r, bj * bs + c)` of the whole matrix, and a block holds
/// `bs * bs` elements.
pub proof fn lemma_block_entries<T>(
    data: Seq<T>,
    n: int,
    q: int,
    bi: int,
    bj: int,
    r: int,
    c: int,
)
    requires
        q > 0,
        n >= 0,
        n % q == 0,
        0 <= bi < q,
        0 <= bj < q,
        0 <= r < n / q,
        0 <= c < n / q,
    ensures
        block_of(data, n, n / q, bi, bj).len() == (n / q) * (n / q),
        block_of(data, n, n / q, bi, bj)[r * (n / q) + c] == data[(bi * (n / q) + r) * n + bj * (n
            / q) + c],
{
    let bs = n / q;
    lemma_split_index(r * bs + c, bs, r, c);
    assert(0 <= r * bs + c < bs * bs) by (nonlinear_arith)
        requires
            0 <= r < bs,
            0 <= c < bs,
    ;
}

/// Element `(gr, gc)` of the rebuilt matrix comes from block
/// `(gr / bs, gc / bs)`, the block of rank `(gr / bs) * q + gc / bs`, at row
/// `gr % bs` and column `gc % bs` of that block; the rebuilt matrix holds
/// `n * n` elements.
pub proof fn lemma_assembled_entries<T>(blocks: Seq<Vec<T>>, n: int, q: int, gr: int, gc: int)
    requires
        q > 0,
        n >= 0,
        n % q == 0,
        0 <= gr < n,
        0 <= gc < n,
    ensures
        assembled(blocks, n, q).len() == n * n,
        assembled(blocks, n, q)[gr * n + gc] == blocks[(gr / (n / q)) * q + gc / (n / q)]@[(gr % (
        n / q)) * (n / q) + gc % (n / q)],
{
    assert(0 <= gr * n + gc < n * n) by (nonlinear_arith)
        requires
            0 <= gr < n,
            0 <= gc < n,
    ;
    lemma_split_index(gr * n + gc, n, gr, gc);
}

} // verus!
