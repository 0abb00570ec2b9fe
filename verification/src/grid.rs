//! The `q x q` process grid of Cannon's and Fox's matrix multiplication:
//! checks of the preconditions, and the communication plan of every step
//! (which rank sends its block where, and in which order).
use vstd::prelude::*;
use vstd::arithmetic::div_mod::{lemma_fundamental_div_mod, lemma_fundamental_div_mod_converse};
use crate::error::AlgError;

verus! {

/// What a process does in one exchange step of a shift.
#[derive(Debug, Clone, Copy, PartialEq, Eq, Structural)]
pub enum ExchangePlan {
    /// The process keeps its own block.
    KeepLocal,
    /// Send the own block to `dest`, then receive the new block from `src`.
    SendFirst { dest: usize, src: usize },
    /// Receive the new block from `src`, then send the own block to `dest`.
    ReceiveFirst { dest: usize, src: usize },
}

/// What a process does when the `A` block of its grid row is broadcast.
#[derive(Debug)]
pub enum BroadcastPlan {
    /// The process owns the block: it keeps it and sends it to `targets`.
    Send { targets: Vec<usize> },
    /// The process receives the block from rank `from`.
    Receive { from: usize },
}

/// Grid position that sends its block to `pos` in a cyclic shift by
/// `amount` towards lower positions.
pub open spec fn shift_src(pos: int, q: int, amount: int) -> int {
    (pos + amount) % q
}

/// Grid position that receives the block of `pos` in a cyclic shift by
/// `amount` towards lower positions.
pub open spec fn shift_dest(pos: int, q: int, amount: int) -> int {
    (pos + q - amount % q) % q
}

/// The exchange between `rank`, the rank `dest` that gets its block and the
/// rank `src` that it gets a block from; the lower of `rank` and `dest`
/// sends first.
pub open spec fn exchange_spec(rank: int, dest: int, src: int) -> ExchangePlan {
    if rank == dest && rank == src {
        ExchangePlan::KeepLocal
    } else if rank < dest {
        ExchangePlan::SendFirst { dest: dest as usize, src: src as usize }
    } else {
        ExchangePlan::ReceiveFirst { dest: dest as usize, src: src as usize }
    }
}

/// The plan sends the own block to rank `r`.
pub open spec fn sends_to(p: ExchangePlan, r: int) -> bool {
    match p {
        ExchangePlan::KeepLocal => false,
        ExchangePlan::SendFirst { dest, src } => dest == r,
        ExchangePlan::ReceiveFirst { dest, src } => dest == r,
    }
}

/// The plan takes its new block from rank `r`.
pub open spec fn receives_from(p: ExchangePlan, r: int) -> bool {
    match p {
        ExchangePlan::KeepLocal => false,
        ExchangePlan::SendFirst { dest, src } => src == r,
        ExchangePlan::ReceiveFirst { dest, src } => src == r,
    }
}

/// `q` is the side of a square grid of `size` cells.
pub open spec fn is_square_of(q: int, size: int) -> bool {
    0 <= q && q * q == size
}

/// `size` is a perfect square.
pub open spec fn is_perfect_square(size: int) -> bool {
    exists|q: int| #[trigger] is_square_of(q, size)
}

/// Largest `q` with `q * q <= size`.
pub fn integer_sqrt(size: usize) -> (q: usize)
    ensures
        q * q <= size,
        size < (q + 1) * (q + 1),
{
    let mut q: usize = 0;
    while q + 1 <= size / (q + 1)
        invariant
            q * q <= size,
            q < usize::MAX,
        decreases size - q,
    {
        proof {
            lemma_fundamental_div_mod(size as int, (q + 1) as int);
            assert((q + 1) * (q + 1) <= size) by (nonlinear_arith)
                requires
                    q + 1 <= size as int / (q + 1),
                    size == (q + 1) * (size as int / (q + 1)) + size as int % (q + 1),
                    size as int % (q + 1) >= 0,
            ;
            assert(q < size && q + 1 < usize::MAX) by (nonlinear_arith)
                requires
                    (q + 1) * (q + 1) <= size,
                    size <= usize::MAX,
                    q >= 0,
            ;
        }
        q = q + 1;
    }
    proof {
        lemma_fundamental_div_mod(size as int, (q + 1) as int);
        assert(size < (q + 1) * (q + 1)) by (nonlinear_arith)
            requires
                q + 1 > size as int / (q + 1),
                size == (q + 1) * (size as int / (q + 1)) + size as int % (q + 1),
                size as int % (q + 1) < q + 1,
        ;
    }
    q
}

/// Side of the process grid: `q` with `q * q == size`, refused when `size`
/// is not a perfect square.
pub fn grid_side(size: usize) -> (r: Result<usize, AlgError>)
    ensures
        r matches Ok(q) ==> q * q == size,
        r is Err <==> !is_perfect_square(size as int),
        r is Err ==> r == Err::<usize, AlgError>(AlgError::NotPerfectSquare { size }),
{
    let q = integer_sqrt(size);
    if q * q != size {
        proof {
            assert forall|k: int| !is_square_of(k, size as int) by {
                if k < 0 {
                } else if k <= q {
                    assert(k * k <= q * q) by (nonlinear_arith)
                        requires
                            0 <= k <= q,
                    ;
                    if k < q {
                        assert(k * k < q * q) by (nonlinear_arith)
                            requires
                                0 <= k < q,
                        ;
                    }
                } else {
                    assert(k * k >= (q + 1) * (q + 1)) by (nonlinear_arith)
                        requires
                            k >= q + 1,
                    ;
                }
            }
        }
        return Err(AlgError::NotPerfectSquare { size });
    }
    proof {
        assert(is_square_of(q as int, size as int));
    }
    Ok(q)
}

/// Checks what Cannon's algorithm needs on `size` processes for `a * b`:
/// a perfect square process count `q * q`, square matrices of one side `n`,
/// and `n` divisible by `q`.  Returns `(n, q, n / q)`.
pub fn validate_cannon_requirements(
    size: usize,
    a_rows: usize,
    a_cols: usize,
    b_rows: usize,
    b_cols: usize,
) -> (r: Result<(usize, usize, usize), AlgError>)
    requires
        size > 0,
    ensures
        !is_perfect_square(size as int) ==> r == Err::<(usize, usize, usize), AlgError>(
            AlgError::NotPerfectSquare { size },
        ),
        is_perfect_square(size as int) && (a_rows != a_cols || b_rows != b_cols || a_cols
            != b_rows) ==> r == Err::<(usize, usize, usize), AlgError>(AlgError::NotSquareMatrices),
        r matches Ok((n, q, bs)) ==> {
            &&& q * q == size
            &&& n == a_rows && n == a_cols && n == b_rows && n == b_cols
            &&& q > 0 && n % q == 0 && bs == n / q
        },
        is_perfect_square(size as int) && a_rows == a_cols && b_rows == b_cols && a_cols
            == b_rows ==> (r is Err <==> (forall|q: int|
            #[trigger] is_square_of(q, size as int) ==> a_rows as int % q != 0)),
        r is Err && is_perfect_square(size as int) && a_rows == a_cols && b_rows
            == b_cols && a_cols == b_rows ==> r == Err::<(usize, usize, usize), AlgError>(
            AlgError::NotDivisible,
        ),
{
    let q = match grid_side(size) {
        Ok(q) => q,
        Err(e) => return Err(e),
    };
    if a_rows != a_cols || b_rows != b_cols || a_cols != b_rows {
        return Err(AlgError::NotSquareMatrices);
    }
    proof {
        assert forall|k: int| #[trigger] is_square_of(k, size as int) implies k == q by {
            if k < q {
                assert(k * k < q * q) by (nonlinear_arith)
                    requires
                        0 <= k < q,
                ;
            } else if k > q {
                assert(k * k > q * q) by (nonlinear_arith)
                    requires
                        0 <= q < k,
                ;
            }
        }
    }
    assert(q > 0) by (nonlinear_arith)
        requires
            q * q == size,
            size > 0,
    ;
    if a_rows % q != 0 {
        return Err(AlgError::NotDivisible);
    }
    proof {
        assert(is_square_of(q as int, size as int));
        assert(size > 0) by (nonlinear_arith)
            requires
                q > 0,
                q * q == size,
        ;
    }
    Ok((a_rows, q, a_rows / q))
}

/// Checks what Fox's algorithm needs on `size` processes for a matrix with
/// `a_rows` rows and `a_cols` columns: a square matrix, `q * q == size` for
/// the largest `q` with `q * q <= size`, and the side divisible by `q`.
/// Returns `q`.
pub fn validate_fox_requirements(size: usize, a_rows: usize, a_cols: usize) -> (r: Result<
    usize,
    AlgError,
>)
    requires
        size > 0,
    ensures
        r is Ok <==> (a_rows == a_cols && exists|q: int|
            #[trigger] is_square_of(q, size as int) && 0 < q && a_rows as int % q == 0),
        r matches Ok(q) ==> q * q == size && q > 0 && a_rows % q == 0,
        r is Err ==> r == Err::<usize, AlgError>(AlgError::FoxRequirements),
{
    let q = integer_sqrt(size);
    proof {
        if q == 0 {
            assert((q + 1) * (q + 1) == 1) by (nonlinear_arith)
                requires
                    q == 0,
            ;
            assert(size < 1);
        }
        assert forall|k: int| #[trigger] is_square_of(k, size as int) implies k == q by {
            if k < q {
                assert(k * k < q * q) by (nonlinear_arith)
                    requires
                        0 <= k < q,
                ;
            } else if k > q {
                assert(k * k >= (q + 1) * (q + 1)) by (nonlinear_arith)
                    requires
                        k >= q + 1,
                ;
            }
        }
    }
    if a_rows != a_cols || q * q != size || a_rows % q != 0 {
        return Err(AlgError::FoxRequirements);
    }
    proof {
        assert(is_square_of(q as int, size as int));
    }
    Ok(q)
}

/// The order of one exchange: `rank` sends its block to `dest` and gets a
/// block from `src`; nothing moves when both are `rank` itself.
pub fn exchange_plan(rank: usize, dest: usize, src: usize) -> (p: ExchangePlan)
    ensures
        p == exchange_spec(rank as int, dest as int, src as int),
        p is KeepLocal <==> (rank == dest && rank == src),
        !(p is KeepLocal) ==> sends_to(p, dest as int) && receives_from(p, src as int),
        p is SendFirst <==> (!(rank == dest && rank == src) && rank < dest),
        p is ReceiveFirst <==> (!(rank == dest && rank == src) && rank >= dest),
{
    if rank == dest && rank == src {
        ExchangePlan::KeepLocal
    } else if rank < dest {
        ExchangePlan::SendFirst { dest, src }
    } else {
        ExchangePlan::ReceiveFirst { dest, src }
    }
}

/// Plan of process `(row, col)` when the blocks of its grid row move
/// `amount` places to the left (cyclically).
pub fn shift_left_plan(rank: usize, row: usize, col: usize, q: usize, amount: usize) -> (p:
    ExchangePlan)
    requires
        0 < q,
        row < q,
        col < q,
        q * q <= usize::MAX,
        col + amount <= usize::MAX,
    ensures
        amount == 0 ==> p == ExchangePlan::KeepLocal,
        amount != 0 ==> p == exchange_spec(
            rank as int,
            row * q + shift_dest(col as int, q as int, amount as int),
            row * q + shift_src(col as int, q as int, amount as int),
        ),
        amount != 0 && !(rank == row * q + (col + q - amount as int % (q as int)) % (q as int) && rank == row * q + (col
            + amount) % (q as int)) ==> sends_to(p, row * q + (col + q - amount as int % (q as int)) % (q as int)) && receives_from(
            p,
            row * q + (col + amount) % (q as int),
        ),
        amount != 0 && rank == row * q + (col + q - amount as int % (q as int)) % (q as int) && rank == row * q + (col
            + amount) % (q as int) ==> p is KeepLocal,
{
    if amount == 0 {
        return ExchangePlan::KeepLocal;
    }
    proof {
        lemma_below_twice_side(col as int, q as int);
    }
    let dest_col = (col + q - (amount % q)) % q;
    let src_col = (col + amount) % q;
    proof {
        lemma_grid_rank_bound(row as int, dest_col as int, q as int);
        lemma_grid_rank_bound(row as int, src_col as int, q as int);
    }
    let dest_rank = row * q + dest_col;
    let src_rank = row * q + src_col;
    exchange_plan(rank, dest_rank, src_rank)
}

/// Plan of process `(row, col)` when the blocks of its grid column move
/// `amount` places up (cyclically).
pub fn shift_up_plan(rank: usize, row: usize, col: usize, q: usize, amount: usize) -> (p:
    ExchangePlan)
    requires
        0 < q,
        row < q,
        col < q,
        q * q <= usize::MAX,
        row + amount <= usize::MAX,
    ensures
        amount == 0 ==> p == ExchangePlan::KeepLocal,
        amount != 0 ==> p == exchange_spec(
            rank as int,
            shift_dest(row as int, q as int, amount as int) * q + col,
            shift_src(row as int, q as int, amount as int) * q + col,
        ),
        amount != 0 && !(rank == (row + q - amount as int % (q as int)) % (q as int) * q + col && rank == (row + amount)
            % (q as int) * q + col) ==> sends_to(p, (row + q - amount as int % (q as int)) % (q as int) * q + col) && receives_from(
            p,
            (row + amount) % (q as int) * q + col,
        ),
        amount != 0 && rank == (row + q - amount as int % (q as int)) % (q as int) * q + col && rank == (row + amount) % (q as int)
            * q + col ==> p is KeepLocal,
{
    if amount == 0 {
        return ExchangePlan::KeepLocal;
    }
    proof {
        lemma_below_twice_side(row as int, q as int);
    }
    let dest_row = (row + q - (amount % q)) % q;
    let src_row = (row + amount) % q;
    proof {
        lemma_grid_rank_bound(dest_row as int, col as int, q as int);
        lemma_grid_rank_bound(src_row as int, col as int, q as int);
    }
    let dest_rank = dest_row * q + col;
    let src_rank = src_row * q + col;
    exchange_plan(rank, dest_rank, src_rank)
}

/// Fox's algorithm: plan of process `(my_row, my_col)` when the `B` blocks
/// of its grid column move one place up.  Processes in even grid rows send
/// first, those in odd rows receive first.
pub fn shift_b_up_plan(my_row: usize, my_col: usize, q: usize) -> (p: ExchangePlan)
    requires
        my_row < q,
        my_col < q,
        q * q <= usize::MAX,
    ensures
        q <= 1 ==> p == ExchangePlan::KeepLocal,
        q > 1 && my_row % 2 == 0 ==> p == (ExchangePlan::SendFirst {
            dest: (shift_dest(my_row as int, q as int, 1) * q + my_col) as usize,
            src: (shift_src(my_row as int, q as int, 1) * q + my_col) as usize,
        }),
        q > 1 && my_row % 2 == 1 ==> p == (ExchangePlan::ReceiveFirst {
            dest: (shift_dest(my_row as int, q as int, 1) * q + my_col) as usize,
            src: (shift_src(my_row as int, q as int, 1) * q + my_col) as usize,
        }),
{
    if q <= 1 {
        return ExchangePlan::KeepLocal;
    }
    proof {
        lemma_below_twice_side(my_row as int, q as int);
    }
    let up_row = (my_row + q - 1) % q;
    let down_row = (my_row + 1) % q;
    proof {
        assert(1int % (q as int) == 1) by {
            lemma_fundamental_div_mod_converse(1, q as int, 0, 1);
        }
        lemma_grid_rank_bound(up_row as int, my_col as int, q as int);
        lemma_grid_rank_bound(down_row as int, my_col as int, q as int);
    }
    let up_rank = up_row * q + my_col;
    let down_rank = down_row * q + my_col;
    if my_row % 2 == 0 {
        ExchangePlan::SendFirst { dest: up_rank, src: down_rank }
    } else {
        ExchangePlan::ReceiveFirst { dest: up_rank, src: down_rank }
    }
}

/// Fox's algorithm: grid column whose `A` block is broadcast along grid
/// row `my_row` in step `step`.
pub fn fox_root_col(my_row: usize, step: usize, q: usize) -> (c: usize)
    requires
        0 < q,
        my_row < q,
        step < q,
        q * q <= usize::MAX,
    ensures
        c == (my_row + step) % (q as int),
{
    proof {
        lemma_below_twice_side(my_row as int, q as int);
    }
    (my_row + step) % q
}

/// Fox's algorithm: plan of process `(my_row, my_col)` when the `A` block
/// of grid column `root_col` is broadcast along grid row `my_row`.
pub fn broadcast_a_plan(my_row: usize, my_col: usize, root_col: usize, q: usize) -> (p:
    BroadcastPlan)
    requires
        my_row < q,
        my_col < q,
        root_col < q,
        q * q <= usize::MAX,
    ensures
        my_col != root_col ==> p == (BroadcastPlan::Receive { from: (my_row * q + root_col) as usize }),
        my_col == root_col ==> (p matches BroadcastPlan::Send { targets } && targets.len() == q - 1
            && forall|k: int|
            0 <= k < q - 1 ==> #[trigger] targets[k] == my_row * q + if k < my_col {
                k
            } else {
                k + 1
            }),
{
    proof {
        lemma_grid_rank_bound(my_row as int, root_col as int, q as int);
    }
    if my_col == root_col {
        let mut targets: Vec<usize> = Vec::new();
        for c in 0..q
            invariant
                my_row < q,
                my_col < q,
                q * q <= usize::MAX,
                targets.len() == if c <= my_col {
                    c as int
                } else {
                    c - 1
                },
                forall|k: int|
                    0 <= k < targets.len() ==> #[trigger] targets[k] == my_row * q + if k < my_col {
                        k
                    } else {
                        k + 1
                    },
        {
            if c != my_col {
                proof {
                    lemma_grid_rank_bound(my_row as int, c as int, q as int);
                }
                targets.push(my_row * q + c);
            }
        }
        BroadcastPlan::Send { targets }
    } else {
        BroadcastPlan::Receive { from: my_row * q + root_col }
    }
}

proof fn lemma_below_twice_side(a: int, q: int)
    requires
        0 <= a < q,
        q * q <= usize::MAX,
    ensures
        a + q <= usize::MAX,
{
    assert(a + q <= q * q + 1 && (q == 1 || a + q <= q * q)) by (nonlinear_arith)
        requires
            0 <= a < q,
    ;
}

/// Rank `row * q + col` of a grid position lies below `q * q`.
pub proof fn lemma_grid_rank_bound(row: int, col: int, q: int)
    requires
        0 <= row < q,
        0 <= col < q,
    ensures
        0 <= row * q + col < q * q,
        (row * q + col) / q == row,
        (row * q + col) % q == col,
{
    assert(0 <= row * q + col < q * q) by (nonlinear_arith)
        requires
            0 <= row < q,
            0 <= col < q,
    ;
    lemma_fundamental_div_mod_converse(row * q + col, q, row, col);
}

/// In a cyclic shift the moves match: the position that receives the block
/// of `pos` takes it from `pos`, and `pos` receives from the position that
/// sends to it.
pub proof fn lemma_shift_moves_match(pos: int, q: int, amount: int)
    requires
        0 <= pos < q,
        0 <= amount,
    ensures
        0 <= shift_dest(pos, q, amount) < q,
        0 <= shift_src(pos, q, amount) < q,
        shift_src(shift_dest(pos, q, amount), q, amount) == pos,
        shift_dest(shift_src(pos, q, amount), q, amount) == pos,
{
    let a = amount % q;
    lemma_fundamental_div_mod(amount, q);
    assert(0 <= a < q) by (nonlinear_arith)
        requires
            q > 0,
            a == amount % q,
    ;
    let d = (pos + q - a) % q;
    lemma_fundamental_div_mod(pos + q - a, q);
    assert(0 <= d < q) by (nonlinear_arith)
        requires
            q > 0,
            d == (pos + q - a) % q,
    ;
    let s = (pos + amount) % q;
    lemma_fundamental_div_mod(pos + amount, q);
    assert(0 <= s < q) by (nonlinear_arith)
        requires
            q > 0,
            s == (pos + amount) % q,
    ;
    // (d + amount) % q == pos
    let k1 = (pos + q - a) / q;
    let m = amount / q;
    assert(d + amount == (1 - k1 + m) * q + pos) by (nonlinear_arith)
        requires
            pos + q - a == q * k1 + d,
            amount == q * m + a,
    ;
    lemma_fundamental_div_mod_converse(d + amount, q, 1 - k1 + m, pos);
    // (s + q - a) % q == pos
    let k2 = (pos + amount) / q;
    assert(s + q - a == (1 + m - k2) * q + pos) by (nonlinear_arith)
        requires
            pos + amount == q * k2 + s,
            amount == q * m + a,
    ;
    lemma_fundamental_div_mod_converse(s + q - a, q, 1 + m - k2, pos);
}

proof fn max_index(s: Seq<int>, n: int) -> (k: int)
    requires
        1 <= n <= s.len(),
    ensures
        0 <= k < n,
        forall|j: int| 0 <= j < n ==> s[j] <= s[k],
    decreases n,
{
    if n == 1 {
        0
    } else {
        let k = max_index(s, n - 1);
        if s[n - 1] > s[k] {
            n - 1
        } else {
            k
        }
    }
}

/// In the closed chain `ranks`, the position after `i`.
pub open spec fn cycle_next(ranks: Seq<int>, i: int) -> int {
    if i + 1 < ranks.len() - 1 {
        i + 1
    } else {
        0
    }
}

/// In the closed chain `ranks`, the rank before `ranks[i]`.
pub open spec fn cycle_pred(ranks: Seq<int>, i: int) -> int {
    if i == 0 {
        ranks[ranks.len() - 2]
    } else {
        ranks[i - 1]
    }
}

/// The exchange order of `exchange_spec` never blocks a whole cycle of
/// moves: along any closed chain `ranks[0] -> ranks[1] -> ... -> ranks[0]`
/// of distinct consecutive ranks, where each rank sends its block to the
/// next, some rank sends first to a rank that receives first, so that
/// transfer can complete.
pub proof fn lemma_exchange_cycle_has_both_orders(ranks: Seq<int>)
    requires
        ranks.len() >= 3,
        ranks[0] == ranks[ranks.len() - 1],
        forall|i: int| 0 <= i < ranks.len() - 1 ==> #[trigger] ranks[i] != ranks[i + 1],
    ensures
        exists|i: int|
            0 <= i < ranks.len() - 1 && (#[trigger] exchange_spec(
                ranks[i],
                ranks[i + 1],
                cycle_pred(ranks, i),
            )) is SendFirst && exchange_spec(
                ranks[cycle_next(ranks, i)],
                ranks[cycle_next(ranks, i) + 1],
                cycle_pred(ranks, cycle_next(ranks, i)),
            ) is ReceiveFirst,
{
    let n = ranks.len() as int;
    let m = max_index(ranks, n - 1);
    let i = if m == 0 {
        n - 2
    } else {
        m - 1
    };
    assert(ranks[n - 2] != ranks[n - 1]);
    assert(ranks[i] < ranks[i + 1]);
    assert(ranks[cycle_next(ranks, i)] == ranks[m]);
    assert(ranks[m] != ranks[m + 1]);
    assert(ranks[m] > ranks[m + 1]) by {
        if m + 1 < n - 1 {
        } else {
            assert(ranks[m + 1] == ranks[0]);
        }
    }
    assert(exchange_spec(ranks[i], ranks[i + 1], cycle_pred(ranks, i)) is SendFirst);
}

/// Fox's shift of `B` by one row up never blocks a whole grid column: for
/// `q > 1` some even row, which sends first, sends its block to an odd row,
/// which receives first.
pub proof fn lemma_fox_shift_has_both_orders(q: int)
    requires
        q > 1,
    ensures
        exists|r: int|
            0 <= r < q && r % 2 == 0 && #[trigger] shift_dest(r, q, 1) % 2 == 1 && shift_src(
                shift_dest(r, q, 1),
                q,
                1,
            ) == r,
{
    let r = if q == 2 {
        0int
    } else {
        2int
    };
    lemma_fundamental_div_mod_converse(1, q, 0, 1);
    lemma_shift_moves_match(r, q, 1);
    if q == 2 {
        lemma_fundamental_div_mod_converse(0 + q - 1, q, 0, 1);
        assert(shift_dest(r, q, 1) == 1);
    } else {
        lemma_fundamental_div_mod_converse(2 + q - 1, q, 1, 1);
        assert(shift_dest(r, q, 1) == 1);
    }
    assert(shift_dest(r, q, 1) % 2 == 1);
}

/// The exchange order carries the ranks in their roles: a moving plan of
/// `rank` sends to exactly `dest` and receives from exactly `src`, and only
/// a rank that is its own partner both ways keeps its block.
pub proof fn lemma_exchange_roles(rank: int, dest: int, src: int)
    requires
        0 <= rank,
        0 <= dest <= usize::MAX,
        0 <= src <= usize::MAX,
    ensures
        exchange_spec(rank, dest, src) is KeepLocal <==> (rank == dest && rank == src),
        !(rank == dest && rank == src) ==> sends_to(exchange_spec(rank, dest, src), dest)
            && receives_from(exchange_spec(rank, dest, src), src),
        !(rank == dest && rank == src) ==> (exchange_spec(rank, dest, src) is SendFirst <==> rank
            < dest),
{
}

proof fn lemma_shift_moves_something(pos: int, q: int, amount: int)
    requires
        0 <= pos < q,
        0 <= amount,
        amount % q != 0,
    ensures
        shift_dest(pos, q, amount) != pos,
        shift_src(pos, q, amount) != pos,
{
    lemma_shift_moves_match(pos, q, amount);
    if shift_src(pos, q, amount) == pos || shift_dest(pos, q, amount) == pos {
        // in both cases (pos + amount) % q == pos
        assert((pos + amount) % q == pos);
        lemma_fundamental_div_mod(pos + amount, q);
        let k = (pos + amount) / q;
        assert(amount == k * q + 0) by (nonlinear_arith)
            requires
                pos + amount == q * k + pos,
        ;
        lemma_fundamental_div_mod_converse(amount, q, k, 0);
    }
}

/// The exchanges of a cyclic shift along one grid line (ranks
/// `base + step * pos` for `pos < q`) fit together: when the shift moves
/// blocks (`amount % q != 0`), the plan of the rank at `pos` sends to the
/// rank at the place its block moves to, the plan of that rank takes its
/// new block from `pos`, and the rank whose block moves to `pos` sends it
/// there.
pub proof fn lemma_shift_plans_match(base: int, step: int, pos: int, q: int, amount: int)
    requires
        0 <= base,
        0 < step,
        0 <= pos < q,
        0 <= amount,
        amount % q != 0,
        base + step * q <= usize::MAX,
    ensures
        ({
            let r = base + step * pos;
            let d = base + step * ((pos + q - amount % q) % q);
            let s = base + step * ((pos + amount) % q);
            let dd = base + step * (((pos + q - amount % q) % q + q - amount % q) % q);
            let ds = base + step * (((pos + q - amount % q) % q + amount) % q);
            let sd = base + step * (((pos + amount) % q + q - amount % q) % q);
            let ss = base + step * (((pos + amount) % q + amount) % q);
            &&& d != r
            &&& s != r
            &&& sends_to(exchange_spec(r, d, s), d)
            &&& receives_from(exchange_spec(r, d, s), s)
            &&& receives_from(exchange_spec(d, dd, ds), r)
            &&& sends_to(exchange_spec(s, sd, ss), r)
        }),
{
    let dp = shift_dest(pos, q, amount);
    let sp = shift_src(pos, q, amount);
    lemma_shift_moves_match(pos, q, amount);
    lemma_shift_moves_something(pos, q, amount);
    lemma_shift_moves_match(dp, q, amount);
    lemma_shift_moves_match(sp, q, amount);
    let r = base + step * pos;
    let d = base + step * dp;
    let s = base + step * sp;
    assert(d != r && s != r) by (nonlinear_arith)
        requires
            step > 0,
            dp != pos,
            sp != pos,
            d == base + step * dp,
            s == base + step * sp,
            r == base + step * pos,
    ;
    assert(0 <= step * dp <= step * q && 0 <= step * sp <= step * q && 0 <= step
        * shift_dest(dp, q, amount) <= step * q && 0 <= step * shift_src(sp, q, amount) <= step
        * q && 0 <= step * shift_src(dp, q, amount) && 0 <= step * shift_dest(sp, q, amount)
        && 0 <= step * pos <= step * q) by (nonlinear_arith)
        requires
            step > 0,
            0 <= pos < q,
            0 <= dp < q,
            0 <= sp < q,
            0 <= shift_dest(dp, q, amount) < q,
            0 <= shift_src(sp, q, amount) < q,
            0 <= shift_src(dp, q, amount),
            0 <= shift_dest(sp, q, amount),
    ;
    lemma_exchange_roles(r, d, s);
    lemma_exchange_roles(d, base + step * shift_dest(dp, q, amount), base + step * pos);
    lemma_exchange_roles(s, base + step * pos, base + step * shift_src(sp, q, amount));
}

/// Cannon's algorithm: grid column of the `A` block that process `(i, j)`
/// holds after the initial skew (row `i` shifted left by `i`) and `s`
/// further shifts left by one.
pub open spec fn cannon_a_col(i: int, j: int, s: nat, q: int) -> int
    decreases s,
{
    if s == 0 {
        shift_src(j, q, i)
    } else {
        cannon_a_col(i, shift_src(j, q, 1), (s - 1) as nat, q)
    }
}

/// Cannon's algorithm: grid row of the `B` block that process `(i, j)`
/// holds after the initial skew (column `j` shifted up by `j`) and `s`
/// further shifts up by one.
pub open spec fn cannon_b_row(i: int, j: int, s: nat, q: int) -> int
    decreases s,
{
    if s == 0 {
        shift_src(i, q, j)
    } else {
        cannon_b_row(shift_src(i, q, 1), j, (s - 1) as nat, q)
    }
}

/// Fox's algorithm: grid row of the `B` block that process `(i, j)` holds
/// after `s` shifts up by one.
pub open spec fn fox_b_row(i: int, s: nat, q: int) -> int
    decreases s,
{
    if s == 0 {
        i
    } else {
        fox_b_row(shift_src(i, q, 1), (s - 1) as nat, q)
    }
}

/// Cannon's algorithm: the step in which process `(i, j)` multiplies
/// `A(i, k) * B(k, j)`.
pub open spec fn cannon_step_of(i: int, j: int, k: int, q: int) -> int {
    (k + q - (i + j) % q) % q
}

/// Fox's algorithm: the step in which grid row `i` uses `A(i, k)` and `B(k, j)`.
pub open spec fn fox_step_of(i: int, k: int, q: int) -> int {
    (k + q - i % q) % q
}

proof fn lemma_mod_add_mod(a: int, b: int, q: int)
    requires
        q > 0,
        a >= 0,
        b >= 0,
    ensures
        ((a % q) + b) % q == (a + b) % q,
{
    lemma_fundamental_div_mod(a, q);
    lemma_fundamental_div_mod(a % q + b, q);
    let r = (a % q + b) % q;
    assert(0 <= r < q) by (nonlinear_arith)
        requires
            q > 0,
            r == (a % q + b) % q,
    ;
    let k = (a % q + b) / q;
    assert(a + b == (a / q + k) * q + r) by (nonlinear_arith)
        requires
            a == q * (a / q) + a % q,
            a % q + b == q * k + r,
    ;
    lemma_fundamental_div_mod_converse(a + b, q, a / q + k, r);
}

proof fn lemma_cannon_a_col_closed(i: int, j: int, s: nat, q: int)
    requires
        q > 0,
        0 <= i,
        0 <= j,
    ensures
        cannon_a_col(i, j, s, q) == (i + j + s) % q,
    decreases s,
{
    if s > 0 {
        lemma_cannon_a_col_closed(i, shift_src(j, q, 1), (s - 1) as nat, q);
        lemma_fundamental_div_mod(j + 1, q);
        assert((j + 1) % q >= 0) by (nonlinear_arith)
            requires
                q > 0,
        ;
        lemma_mod_add_mod(j + 1, i + s - 1, q);
    }
}

proof fn lemma_cannon_b_row_closed(i: int, j: int, s: nat, q: int)
    requires
        q > 0,
        0 <= i,
        0 <= j,
    ensures
        cannon_b_row(i, j, s, q) == (i + j + s) % q,
    decreases s,
{
    if s > 0 {
        lemma_cannon_b_row_closed(shift_src(i, q, 1), j, (s - 1) as nat, q);
        assert((i + 1) % q >= 0) by (nonlinear_arith)
            requires
                q > 0,
        ;
        lemma_mod_add_mod(i + 1, j + s - 1, q);
    }
}

proof fn lemma_fox_b_row_closed(i: int, s: nat, q: int)
    requires
        q > 0,
        0 <= i < q,
    ensures
        fox_b_row(i, s, q) == (i + s) % q,
    decreases s,
{
    if s == 0 {
        lemma_fundamental_div_mod_converse(i, q, 0, i);
    } else {
        lemma_fundamental_div_mod(i + 1, q);
        assert(0 <= (i + 1) % q < q) by (nonlinear_arith)
            requires
                q > 0,
        ;
        lemma_fox_b_row_closed(shift_src(i, q, 1), (s - 1) as nat, q);
        lemma_mod_add_mod(i + 1, (s - 1) as int, q);
    }
}

/// The steps `s` in `0 .. q` meet each residue `(c + s) % q` exactly once.
proof fn lemma_steps_cover_residues(c: int, q: int)
    requires
        q > 0,
        c >= 0,
    ensures
        forall|s: int| 0 <= s < q ==> 0 <= #[trigger] ((c + s) % q) < q,
        forall|s1: int, s2: int|
            0 <= s1 < q && 0 <= s2 < q && s1 != s2 ==> #[trigger] ((c + s1) % q) != #[trigger] ((c
                + s2) % q),
        forall|k: int|
            0 <= k < q ==> 0 <= #[trigger] ((k + q - c % q) % q) < q && (c + (k + q - c % q) % q)
                % q == k,
{
    assert forall|s: int| 0 <= s < q implies 0 <= #[trigger] ((c + s) % q) < q by {
        lemma_fundamental_div_mod(c + s, q);
        assert(0 <= (c + s) % q < q) by (nonlinear_arith)
            requires
                q > 0,
        ;
    }
    assert forall|s1: int, s2: int|
        0 <= s1 < q && 0 <= s2 < q && s1 != s2 implies #[trigger] ((c + s1) % q)
        != #[trigger] ((c + s2) % q) by {
        lemma_fundamental_div_mod(c + s1, q);
        lemma_fundamental_div_mod(c + s2, q);
        let k1 = (c + s1) / q;
        let k2 = (c + s2) / q;
        if (c + s1) % q == (c + s2) % q {
            assert(s1 - s2 == q * (k1 - k2)) by (nonlinear_arith)
                requires
                    c + s1 == q * k1 + (c + s1) % q,
                    c + s2 == q * k2 + (c + s2) % q,
                    (c + s1) % q == (c + s2) % q,
            ;
            assert(false) by (nonlinear_arith)
                requires
                    s1 - s2 == q * (k1 - k2),
                    0 <= s1 < q,
                    0 <= s2 < q,
                    s1 != s2,
            ;
        }
    }
    assert forall|k: int| 0 <= k < q implies 0 <= #[trigger] ((k + q - c % q) % q) < q && (c + (k
        + q - c % q) % q) % q == k by {
        lemma_fundamental_div_mod(c, q);
        assert(0 <= c % q < q) by (nonlinear_arith)
            requires
                q > 0,
        ;
        let s = (k + q - c % q) % q;
        lemma_fundamental_div_mod(k + q - c % q, q);
        assert(0 <= s < q) by (nonlinear_arith)
            requires
                q > 0,
                s == (k + q - c % q) % q,
        ;
        let t = (k + q - c % q) / q;
        assert(c + s == (c / q + 1 - t) * q + k) by (nonlinear_arith)
            requires
                c == q * (c / q) + c % q,
                k + q - c % q == q * t + s,
        ;
        lemma_fundamental_div_mod_converse(c + s, q, c / q + 1 - t, k);
    }
}

/// Cannon's schedule: in every step `s < q` process `(i, j)` holds the `A`
/// block of grid column `k = (i + j + s) % q` and the `B` block of grid row
/// `k`, so it multiplies `A(i, k) * B(k, j)`; over the `q` steps every `k`
/// in `0 .. q` comes exactly once, so the sum of the products is block
/// `(i, j)` of `A * B`.
pub proof fn lemma_cannon_schedule(i: int, j: int, q: int)
    requires
        0 <= i < q,
        0 <= j < q,
    ensures
        forall|s: nat|
            s < q ==> #[trigger] cannon_a_col(i, j, s, q) == cannon_b_row(i, j, s, q) && 0
                <= cannon_a_col(i, j, s, q) < q,
        forall|s1: nat, s2: nat|
            s1 < q && s2 < q && s1 != s2 ==> #[trigger] cannon_a_col(i, j, s1, q)
                != #[trigger] cannon_a_col(i, j, s2, q),
        forall|k: int|
            0 <= k < q ==> 0 <= #[trigger] cannon_step_of(i, j, k, q) < q && cannon_a_col(
                i,
                j,
                cannon_step_of(i, j, k, q) as nat,
                q,
            ) == k,
{
    lemma_steps_cover_residues(i + j, q);
    assert forall|s: nat| s < q implies #[trigger] cannon_a_col(i, j, s, q) == cannon_b_row(
        i,
        j,
        s,
        q,
    ) && 0 <= cannon_a_col(i, j, s, q) < q by {
        lemma_cannon_a_col_closed(i, j, s, q);
        lemma_cannon_b_row_closed(i, j, s, q);
        assert(0 <= ((i + j) + s) % q < q);
    }
    assert forall|s1: nat, s2: nat| s1 < q && s2 < q && s1 != s2 implies #[trigger] cannon_a_col(
        i,
        j,
        s1,
        q,
    ) != #[trigger] cannon_a_col(i, j, s2, q) by {
        lemma_cannon_a_col_closed(i, j, s1, q);
        lemma_cannon_a_col_closed(i, j, s2, q);
        assert(((i + j) + s1) % q != ((i + j) + s2) % q);
    }
    assert forall|k: int| 0 <= k < q implies 0 <= #[trigger] cannon_step_of(i, j, k, q) < q
        && cannon_a_col(i, j, cannon_step_of(i, j, k, q) as nat, q) == k by {
        let s = cannon_step_of(i, j, k, q);
        assert(0 <= s < q && (i + j + s) % q == k);
        lemma_cannon_a_col_closed(i, j, s as nat, q);
    }
}

/// Fox's schedule: in step `s < q` grid row `i` broadcasts the `A` block of
/// grid column `fox_root_col = (i + s) % q`, while every process `(i, j)`
/// holds the `B` block of that same grid row, so it multiplies
/// `A(i, k) * B(k, j)` with `k = (i + s) % q`; over the `q` steps every
/// `k` in `0 .. q` comes exactly once.
pub proof fn lemma_fox_schedule(i: int, q: int)
    requires
        0 <= i < q,
    ensures
        forall|s: nat|
            s < q ==> #[trigger] fox_b_row(i, s, q) == (i + s) % q && 0 <= fox_b_row(i, s, q) < q,
        forall|s1: nat, s2: nat|
            s1 < q && s2 < q && s1 != s2 ==> #[trigger] fox_b_row(i, s1, q) != #[trigger] fox_b_row(
                i,
                s2,
                q,
            ),
        forall|k: int|
            0 <= k < q ==> 0 <= #[trigger] fox_step_of(i, k, q) < q && fox_b_row(
                i,
                fox_step_of(i, k, q) as nat,
                q,
            ) == k,
{
    lemma_steps_cover_residues(i, q);
    assert forall|s: nat| s < q implies #[trigger] fox_b_row(i, s, q) == (i + s) % q && 0
        <= fox_b_row(i, s, q) < q by {
        lemma_fox_b_row_closed(i, s, q);
        assert(0 <= (i + s) % q < q);
    }
    assert forall|s1: nat, s2: nat| s1 < q && s2 < q && s1 != s2 implies #[trigger] fox_b_row(
        i,
        s1,
        q,
    ) != #[trigger] fox_b_row(i, s2, q) by {
        lemma_fox_b_row_closed(i, s1, q);
        lemma_fox_b_row_closed(i, s2, q);
        assert((i + s1) % q != (i + s2) % q);
    }
    assert forall|k: int| 0 <= k < q implies 0 <= #[trigger] fox_step_of(i, k, q) < q && fox_b_row(
        i,
        fox_step_of(i, k, q) as nat,
        q,
    ) == k by {
        let s = fox_step_of(i, k, q);
        assert(0 <= s < q && (i + s) % q == k);
        lemma_fox_b_row_closed(i, s as nat, q);
    }
}

} // verus!
