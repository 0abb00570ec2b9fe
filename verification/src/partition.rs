//! Block partition of `total` items over `size` ranks: every rank gets
//! `total / size` items and the first `total % size` ranks get one more.
//! The same counts describe the cyclic (round-robin) ownership of rows.
use vstd::prelude::*;
use vstd::arithmetic::div_mod::{lemma_fundamental_div_mod, lemma_fundamental_div_mod_converse};
use vstd::arithmetic::mul::lemma_mul_inequality;

verus! {

/// Number of items that rank `rank` holds.
pub open spec fn local_size(rank: int, size: int, total: int) -> int {
    if rank < total % size {
        total / size + 1
    } else {
        total / size
    }
}

/// Index of the first item of rank `rank` in the global sequence.
pub open spec fn local_offset(rank: int, size: int, total: int) -> int {
    rank * (total / size) + if rank < total % size {
        rank
    } else {
        total % size
    }
}

/// Sum of the local sizes of ranks `0 .. r`.
pub open spec fn sizes_before(r: int, size: int, total: int) -> int
    decreases r,
{
    if r <= 0 {
        0
    } else {
        sizes_before(r - 1, size, total) + local_size(r - 1, size, total)
    }
}

/// Number of items that `rank` receives when `total_elements` items are split
/// over `size` ranks.
pub fn calculate_local_size(rank: usize, size: usize, total_elements: usize) -> (n: usize)
    requires
        size > 0,
    ensures
        n == local_size(rank as int, size as int, total_elements as int),
{
    let base_n = total_elements / size;
    let remainder = total_elements % size;
    proof {
        lemma_fundamental_div_mod(total_elements as int, size as int);
    }
    if rank < remainder {
        assert(base_n + 1 <= total_elements) by (nonlinear_arith)
            requires
                total_elements == size * base_n + remainder,
                remainder > 0,
                size > 0,
                base_n >= 0,
        ;
        base_n + 1
    } else {
        base_n
    }
}

/// Position of the first item of `rank` in the global sequence.
pub fn calculate_local_offset(rank: usize, size: usize, total_elements: usize) -> (o: usize)
    requires
        size > 0,
        rank <= size,
    ensures
        o == local_offset(rank as int, size as int, total_elements as int),
{
    let base_n = total_elements / size;
    let remainder = total_elements % size;
    proof {
        lemma_fundamental_div_mod(total_elements as int, size as int);
        lemma_mul_inequality(rank as int, size as int, base_n as int);
        assert(rank * base_n <= size * base_n);
    }
    let extra = if rank < remainder {
        rank
    } else {
        remainder
    };
    rank * base_n + extra
}

/// The local sizes never differ by more than one: each is `total / size`
/// or `total / size + 1`.
pub proof fn lemma_local_sizes_balanced(rank: int, size: int, total: int)
    requires
        size > 0,
        total >= 0,
    ensures
        total / size <= local_size(rank, size, total) <= total / size + 1,
        local_size(rank, size, total) >= 0,
{
    lemma_fundamental_div_mod(total, size);
    assert(total / size >= 0) by (nonlinear_arith)
        requires
            size > 0,
            total >= 0,
    ;
}

/// The remainder goes to the first ranks: a rank never holds fewer items
/// than a later one.
pub proof fn lemma_local_sizes_nonincreasing(r1: int, r2: int, size: int, total: int)
    requires
        size > 0,
        total >= 0,
        0 <= r1 <= r2,
    ensures
        local_size(r1, size, total) >= local_size(r2, size, total),
{
}

/// The offset of rank `r` is the sum of the sizes of all earlier ranks: the
/// ranks' pieces follow one another without gap or overlap.
pub proof fn lemma_offset_is_sizes_before(r: int, size: int, total: int)
    requires
        size > 0,
        total >= 0,
        0 <= r,
    ensures
        local_offset(r, size, total) == sizes_before(r, size, total),
        local_offset(r + 1, size, total) == local_offset(r, size, total) + local_size(
            r,
            size,
            total,
        ),
    decreases r,
{
    let base = total / size;
    assert((r + 1) * base == r * base + base) by (nonlinear_arith);
    assert(r * base == (r - 1) * base + base) by (nonlinear_arith);
    assert(total % size >= 0) by (nonlinear_arith)
        requires
            size > 0,
    ;
    if r > 0 {
        lemma_offset_is_sizes_before(r - 1, size, total);
        assert(sizes_before(r, size, total) == sizes_before(r - 1, size, total) + local_size(
            r - 1,
            size,
            total,
        ));
    } else {
        assert(0 * base == 0);
    }
}

/// The pieces of all `size` ranks together cover exactly `total` items.
pub proof fn lemma_partition_covers_all(size: int, total: int)
    requires
        size > 0,
        total >= 0,
    ensures
        local_offset(size, size, total) == total,
        sizes_before(size, size, total) == total,
{
    lemma_fundamental_div_mod(total, size);
    assert(size * (total / size) == size * (total / size));
    lemma_offset_is_sizes_before(size, size, total);
}

/// Every piece lies inside the global sequence.
pub proof fn lemma_piece_in_bounds(r: int, size: int, total: int)
    requires
        size > 0,
        total >= 0,
        0 <= r < size,
    ensures
        0 <= local_offset(r, size, total),
        local_offset(r, size, total) + local_size(r, size, total) <= total,
{
    lemma_offset_is_sizes_before(r, size, total);
    lemma_sizes_before_monotone(r + 1, size, size, total);
    lemma_partition_covers_all(size, total);
    lemma_sizes_before_monotone(0, r, size, total);
}

proof fn lemma_sizes_before_monotone(a: int, b: int, size: int, total: int)
    requires
        size > 0,
        total >= 0,
        0 <= a <= b,
    ensures
        sizes_before(a, size, total) <= sizes_before(b, size, total),
    decreases b - a,
{
    if a < b {
        lemma_sizes_before_monotone(a, b - 1, size, total);
        lemma_local_sizes_balanced(b - 1, size, total);
    }
}

/// Cyclic ownership: the rows owned by `rank` under the round-robin rule
/// `row % size == rank` are exactly the rows `i * size + rank` for
/// `i < local_size(rank)`, and row `i * size + rank` has local index `i`.
pub proof fn lemma_cyclic_rows(rank: int, size: int, total: int, i: int)
    requires
        size > 0,
        total >= 0,
        0 <= rank < size,
        0 <= i,
    ensures
        (i * size + rank < total) <==> (i < local_size(rank, size, total)),
        (i * size + rank) % size == rank,
        (i * size + rank) / size == i,
{
    let base = total / size;
    let rem = total % size;
    lemma_fundamental_div_mod(total, size);
    lemma_fundamental_div_mod_converse(i * size + rank, size, i, rank);
    assert(0 <= rem < size) by (nonlinear_arith)
        requires
            size > 0,
            rem == total % size,
    ;
    assert((i * size + rank < total) <==> (i < local_size(rank, size, total))) by (nonlinear_arith)
        requires
            total == size * base + rem,
            0 <= rem < size,
            0 <= rank < size,
            0 <= i,
            local_size(rank, size, total) == if rank < rem {
                base + 1
            } else {
                base
            },
    ;
}

proof fn lemma_cyclic_count_step(r: int, size: int, i: int)
    requires
        size > 0,
        i >= 0,
        0 <= r < size,
    ensures
        local_size(r, size, i + 1) == local_size(r, size, i) + if r == i % size {
            1int
        } else {
            0int
        },
        local_size(i % size, size, i) == i / size,
{
    let b = i / size;
    let m = i % size;
    lemma_fundamental_div_mod(i, size);
    assert(0 <= m < size) by (nonlinear_arith)
        requires
            size > 0,
            m == i % size,
    ;
    if m + 1 < size {
        lemma_fundamental_div_mod_converse(i + 1, size, b, m + 1);
    } else {
        assert(i + 1 == (b + 1) * size + 0) by (nonlinear_arith)
            requires
                i == size * b + m,
                m + 1 == size,
        ;
        lemma_fundamental_div_mod_converse(i + 1, size, b + 1, 0);
    }
}

/// Round-robin assignment of `n` rows to `size` ranks: entry `i` is the
/// pair (owner rank, index among the owner's rows) of row `i`, counted in
/// the order in which the rows are handed out.
pub fn cyclic_assignment(n: usize, size: usize) -> (a: Vec<(usize, usize)>)
    requires
        size > 0,
    ensures
        a.len() == n,
        forall|i: int| #![trigger a@[i]] 0 <= i < n ==> a@[i].0 == i % size as int && a@[i].1 == i / size as int,
{
    let mut local_idx_counts: Vec<usize> = Vec::new();
    for r in 0..size
        invariant
            local_idx_counts.len() == r,
            forall|k: int| 0 <= k < r ==> local_idx_counts[k] == 0,
    {
        local_idx_counts.push(0);
    }
    let mut a: Vec<(usize, usize)> = Vec::new();
    proof {
        assert forall|r: int| 0 <= r < size implies local_idx_counts[r] == local_size(r, size as int, 0) by {
            lemma_cyclic_count_step(r, size as int, 0);
            lemma_local_sizes_balanced(r, size as int, 0);
            assert(0int / (size as int) == 0);
        }
    }
    for i in 0..n
        invariant
            size > 0,
            local_idx_counts.len() == size,
            forall|r: int| 0 <= r < size ==> local_idx_counts[r] == local_size(r, size as int, i as int),
            a.len() == i,
            forall|j: int| #![trigger a@[j]] 0 <= j < i ==> a@[j].0 == j % size as int && a@[j].1 == j / size as int,
    {
        let target_rank = i % size;
        let local_idx = local_idx_counts[target_rank];
        proof {
            lemma_cyclic_count_step(target_rank as int, size as int, i as int);
            assert(local_idx <= i) by (nonlinear_arith)
                requires
                    local_idx == i / size,
                    size > 0,
            ;
            assert forall|r: int| 0 <= r < size implies local_size(r, size as int, i + 1) == local_size(r, size as int, i as int) + if r == target_rank { 1int } else { 0int } by {
                lemma_cyclic_count_step(r, size as int, i as int);
            }
        }
        local_idx_counts[target_rank] = local_idx + 1;
        a.push((target_rank, local_idx));
    }
    a
}

} // verus!
