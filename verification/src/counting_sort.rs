//! Counting sort of `u32` values, sequential and in the pieces that a
//! distributed run computes: local frequency counts, their sum, and the
//! reconstruction of the sorted sequence from the counts.
use vstd::prelude::*;
use vstd::seq_lib::{lemma_multiset_commutative, group_to_multiset_ensures};
use vstd::multiset::group_multiset_axioms;
use crate::rows::row_piece;
use crate::partition::{
    local_offset,
    local_size,
    lemma_offset_is_sizes_before,
    lemma_partition_covers_all,
    lemma_piece_in_bounds,
};

verus! {

/// Number of occurrences of the value `v` in `s`.
pub open spec fn occ(s: Seq<u32>, v: int) -> nat {
    if 0 <= v <= u32::MAX {
        s.to_multiset().count(v as u32)
    } else {
        0
    }
}

/// `s` is in non-decreasing order.
pub open spec fn is_sorted(s: Seq<u32>) -> bool {
    forall|i: int, j: int| 0 <= i <= j < s.len() ==> s[i] <= s[j]
}

/// Every value of `s` is at most `max_val`.
pub open spec fn all_at_most(s: Seq<u32>, max_val: int) -> bool {
    forall|i: int| 0 <= i < s.len() ==> s[i] <= max_val
}

/// No value occurs in `s` more often than a `u32` counter can count.
pub open spec fn counts_fit_u32(s: Seq<u32>) -> bool {
    forall|v: int| occ(s, v) <= u32::MAX
}

/// The sequence that lists, for each value `v` in increasing order,
/// `counts[v]` copies of `v`.
pub open spec fn expand(counts: Seq<u32>) -> Seq<u32>
    decreases counts.len(),
{
    if counts.len() == 0 {
        Seq::empty()
    } else {
        expand(counts.drop_last()) + Seq::new(
            counts.last() as nat,
            |k: int| (counts.len() - 1) as u32,
        )
    }
}

/// The frequency table of `s` for the values `0 ..= max_val`.
pub open spec fn count_table(s: Seq<u32>, max_val: int) -> Seq<u32> {
    Seq::new((max_val + 1) as nat, |v: int| occ(s, v) as u32)
}

/// The result of counting sort on `s`.
pub open spec fn counting_sorted(s: Seq<u32>, max_val: int) -> Seq<u32> {
    expand(count_table(s, max_val))
}

/// The piece of `data` that rank `r` of `size` holds (the data seen as a
/// matrix of one column, split by rows).
pub open spec fn piece(data: Seq<u32>, r: int, size: int) -> Seq<u32> {
    row_piece(data, r, size, data.len() as int, 1)
}

/// Sum over the ranks `0 .. k` of the occurrences of `v` in their pieces.
pub open spec fn pieces_occ(data: Seq<u32>, k: int, size: int, v: int) -> nat
    decreases k,
{
    if k <= 0 {
        0
    } else {
        pieces_occ(data, k - 1, size, v) + occ(piece(data, k - 1, size), v)
    }
}

proof fn lemma_occ_empty(v: int)
    ensures
        occ(Seq::<u32>::empty(), v) == 0,
{
    broadcast use group_to_multiset_ensures;

    if 0 <= v <= u32::MAX {
        assert(!Seq::<u32>::empty().contains(v as u32));
    }
}

proof fn lemma_occ_concat(a: Seq<u32>, b: Seq<u32>, v: int)
    ensures
        occ(a + b, v) == occ(a, v) + occ(b, v),
{
    broadcast use group_multiset_axioms;

    lemma_multiset_commutative(a, b);
}

proof fn lemma_occ_push(a: Seq<u32>, x: u32, v: int)
    ensures
        occ(a.push(x), v) == occ(a, v) + if v == x as int {
            1nat
        } else {
            0nat
        },
{
    broadcast use group_multiset_axioms, group_to_multiset_ensures;

}

proof fn lemma_occ_repeat(n: nat, x: u32, v: int)
    ensures
        occ(Seq::new(n, |k: int| x), v) == if v == x as int {
            n
        } else {
            0
        },
    decreases n,
{
    broadcast use group_multiset_axioms;

    if n == 0 {
        assert(Seq::new(n, |k: int| x) =~= Seq::<u32>::empty());
        lemma_occ_empty(v);
    } else {
        lemma_occ_repeat((n - 1) as nat, x, v);
        assert(Seq::new(n, |k: int| x) =~= Seq::new((n - 1) as nat, |k: int| x).push(x));
        lemma_occ_push(Seq::new((n - 1) as nat, |k: int| x), x, v);
    }
}

proof fn lemma_occ_absent(s: Seq<u32>, v: int)
    requires
        forall|i: int| 0 <= i < s.len() ==> s[i] as int != v,
    ensures
        occ(s, v) == 0,
    decreases s.len(),
{
    if s.len() == 0 {
        assert(s =~= Seq::<u32>::empty());
        lemma_occ_empty(v);
    } else {
        lemma_occ_absent(s.drop_last(), v);
        assert(s =~= s.drop_last().push(s.last()));
        lemma_occ_push(s.drop_last(), s.last(), v);
    }
}

/// Two sequences with the same number of occurrences of every value have
/// the same multiset of elements.
proof fn lemma_occ_multiset(a: Seq<u32>, b: Seq<u32>)
    requires
        forall|v: int| occ(a, v) == occ(b, v),
    ensures
        a.to_multiset() =~= b.to_multiset(),
{
    assert forall|x: u32| a.to_multiset().count(x) == b.to_multiset().count(x) by {
        assert(occ(a, x as int) == occ(b, x as int));
    }
}

/// Under counts that vanish above `u32::MAX`, `expand` yields a sorted
/// sequence that holds `counts[v]` copies of each `v` and nothing else.
pub proof fn lemma_expand_sorted_with_counts(counts: Seq<u32>)
    requires
        forall|i: int| u32::MAX < i < counts.len() ==> counts[i] == 0,
    ensures
        is_sorted(expand(counts)),
        forall|i: int|
            0 <= i < expand(counts).len() ==> (#[trigger] expand(counts)[i] as int) < counts.len(),
        forall|v: int|
            occ(expand(counts), v) == if 0 <= v < counts.len() {
                counts[v] as nat
            } else {
                0
            },
    decreases counts.len(),
{
    if counts.len() > 0 {
        let init = counts.drop_last();
        let last = (counts.len() - 1) as int;
        let block = Seq::new(counts.last() as nat, |k: int| last as u32);
        lemma_expand_sorted_with_counts(init);
        let e = expand(init);
        assert(expand(counts) == e + block);
        if counts.last() > 0 {
            assert(last <= u32::MAX);
        }
        assert forall|i: int, j: int|
            0 <= i <= j < expand(counts).len() implies expand(counts)[i] <= expand(counts)[j] by {
            if j >= e.len() {
                assert(expand(counts)[j] == last as u32);
                if i < e.len() {
                    assert((e[i] as int) < init.len());
                }
            } else {
                assert(expand(counts)[i] == e[i]);
                assert(expand(counts)[j] == e[j]);
            }
        }
        assert forall|i: int| 0 <= i < expand(counts).len() implies (
        #[trigger] expand(counts)[i] as int) < counts.len() by {
            if i < e.len() {
                assert(expand(counts)[i] == e[i]);
                assert((e[i] as int) < init.len());
            } else {
                assert(expand(counts)[i] == last as u32);
            }
        }
        assert forall|v: int|
            occ(expand(counts), v) == if 0 <= v < counts.len() {
                counts[v] as nat
            } else {
                0
            } by {
            lemma_occ_concat(e, block, v);
            lemma_occ_repeat(counts.last() as nat, last as u32, v);
            if counts.last() > 0 {
                assert(v == (last as u32) as int <==> v == last);
            } else {
                assert(block.len() == 0);
            }
        }
    } else {
        assert(expand(counts) =~= Seq::<u32>::empty());
        assert forall|v: int| occ(expand(counts), v) == 0 by {
            lemma_occ_empty(v);
        }
    }
}

/// Counting sort returns the sorted permutation of its input.
pub proof fn lemma_counting_sorted_is_sorted_permutation(s: Seq<u32>, max_val: int)
    requires
        0 <= max_val,
        all_at_most(s, max_val),
        counts_fit_u32(s),
    ensures
        is_sorted(counting_sorted(s, max_val)),
        counting_sorted(s, max_val).to_multiset() =~= s.to_multiset(),
{
    let c = count_table(s, max_val);
    assert forall|i: int| u32::MAX < i < c.len() implies c[i] == 0 by {
        assert(occ(s, i) == 0);
    }
    lemma_expand_sorted_with_counts(c);
    assert forall|v: int| occ(counting_sorted(s, max_val), v) == occ(s, v) by {
        if 0 <= v <= max_val {
        } else {
            lemma_occ_absent(s, v);
        }
    }
    lemma_occ_multiset(counting_sorted(s, max_val), s);
}

/// Sorts `arr`, whose values are at most `max_val`, by counting how often
/// each value occurs.
pub fn counting_sort_sequential(arr: &[u32], max_val: usize) -> (sorted: Vec<u32>)
    requires
        all_at_most(arr@, max_val as int),
        arr.len() > 0 ==> max_val < usize::MAX,
        counts_fit_u32(arr@),
    ensures
        sorted@ == counting_sorted(arr@, max_val as int),
        is_sorted(sorted@),
        sorted@.to_multiset() =~= arr@.to_multiset(),
{
    proof {
        lemma_counting_sorted_is_sorted_permutation(arr@, max_val as int);
    }
    if arr.len() == 0 {
        let v: Vec<u32> = Vec::new();
        proof {
            broadcast use group_to_multiset_ensures;

            let e = counting_sorted(arr@, max_val as int);
            assert(e.len() == e.to_multiset().len());
            assert(arr@.len() == arr@.to_multiset().len());
            assert(v@ =~= e);
        }
        return v;
    }
    let counts = count_local_frequencies(arr, max_val);
    reconstruct_sorted_array(&counts, arr.len())
}

/// Frequency table of `data` for the values `0 ..= max_val`.
pub fn count_local_frequencies(data: &[u32], max_val: usize) -> (counts: Vec<u32>)
    requires
        all_at_most(data@, max_val as int),
        max_val < usize::MAX,
        counts_fit_u32(data@),
    ensures
        counts@ == count_table(data@, max_val as int),
{
    let mut counts: Vec<u32> = vec![0u32; max_val + 1];
    let n = data.len();
    proof {
        assert(data@.take(0) =~= Seq::<u32>::empty());
        assert forall|v: int| 0 <= v <= max_val implies counts[v] == occ(data@.take(0), v) by {
            lemma_occ_empty(v);
        }
    }
    for i in 0..n
        invariant
            n == data.len(),
            counts_fit_u32(data@),
            all_at_most(data@, max_val as int),
            counts.len() == max_val + 1,
            forall|v: int| 0 <= v <= max_val ==> counts[v] == occ(data@.take(i as int), v),
    {
        let val = data[i];
        proof {
            assert(data@.take(i + 1) =~= data@.take(i as int).push(val));
            assert(data@ =~= data@.take(i + 1) + data@.skip(i + 1));
            lemma_occ_concat(data@.take(i + 1), data@.skip(i + 1), val as int);
            lemma_occ_push(data@.take(i as int), val, val as int);
        }
        counts[val as usize] = counts[val as usize] + 1;
        proof {
            assert forall|v: int| 0 <= v <= max_val implies counts[v] == occ(
                data@.take(i + 1),
                v,
            ) by {
                lemma_occ_push(data@.take(i as int), val, v);
            }
        }
    }
    proof {
        assert(data@.take(n as int) =~= data@);
    }
    assert(counts@ =~= count_table(data@, max_val as int));
    counts
}

/// Lists, for each value `v` in increasing order, `counts[v]` copies of
/// `v`.  `total_elements` only sizes the first allocation.
pub fn reconstruct_sorted_array(counts: &[u32], total_elements: usize) -> (sorted: Vec<u32>)
    ensures
        sorted@ == expand(counts@),
{
    let mut sorted: Vec<u32> = Vec::with_capacity(total_elements);
    let len = counts.len();
    for val in 0..len
        invariant
            len == counts.len(),
            sorted@ == expand(counts@.take(val as int)),
    {
        let count = counts[val];
        let ghost start = sorted@;
        for k in 0..count
            invariant
                start == expand(counts@.take(val as int)),
                sorted@ == start + Seq::new(k as nat, |j: int| val as u32),
        {
            sorted.push(val as u32);
            proof {
                assert(sorted@ =~= start + Seq::new((k + 1) as nat, |j: int| val as u32));
            }
        }
        proof {
            let t = counts@.take(val + 1);
            assert(t.drop_last() =~= counts@.take(val as int));
            assert(t.last() == count);
            assert(sorted@ =~= expand(t));
        }
    }
    proof {
        assert(counts@.take(len as int) =~= counts@);
    }
    sorted
}

proof fn lemma_prefix_occ(data: Seq<u32>, k: int, size: int, v: int)
    requires
        size > 0,
        0 <= k <= size,
    ensures
        pieces_occ(data, k, size, v) == occ(
            data.subrange(0, local_offset(k, size, data.len() as int)),
            v,
        ),
    decreases k,
{
    let n = data.len() as int;
    if k == 0 {
        assert(local_offset(0, size, n) == 0) by {
            lemma_offset_is_sizes_before(0, size, n);
        }
        assert(data.subrange(0, 0) =~= Seq::<u32>::empty());
        lemma_occ_empty(v);
    } else {
        lemma_prefix_occ(data, k - 1, size, v);
        lemma_offset_is_sizes_before(k - 1, size, n);
        lemma_piece_in_bounds(k - 1, size, n);
        let a = local_offset(k - 1, size, n);
        let b = local_offset(k, size, n);
        assert(a * 1 == a && b * 1 == b && local_size(k - 1, size, n) * 1 == local_size(
            k - 1,
            size,
            n,
        ));
        assert(data.subrange(0, b) =~= data.subrange(0, a) + piece(data, k - 1, size));
        lemma_occ_concat(data.subrange(0, a), piece(data, k - 1, size), v);
    }
}

/// Law of the distributed counting sort: the occurrences of `v` counted by
/// all `size` ranks in their pieces add up to the occurrences in the whole
/// data.
pub proof fn lemma_pieces_count_whole(data: Seq<u32>, size: int, v: int)
    requires
        size > 0,
    ensures
        pieces_occ(data, size, size, v) == occ(data, v),
{
    lemma_prefix_occ(data, size, size, v);
    lemma_partition_covers_all(size, data.len() as int);
    assert(data.subrange(0, data.len() as int) =~= data);
}

/// Law of the distributed counting sort: reconstructing from the table that
/// sums the ranks' local tables gives the same result as the sequential
/// counting sort of the whole data.
pub proof fn lemma_distributed_sort_matches_sequential(
    data: Seq<u32>,
    size: int,
    max_val: int,
    global_counts: Seq<u32>,
)
    requires
        size > 0,
        0 <= max_val,
        global_counts.len() == max_val + 1,
        forall|v: int| 0 <= v <= max_val ==> global_counts[v] == pieces_occ(data, size, size, v),
    ensures
        expand(global_counts) == counting_sorted(data, max_val),
{
    assert forall|v: int| 0 <= v <= max_val implies global_counts[v] == count_table(
        data,
        max_val,
    )[v] by {
        lemma_pieces_count_whole(data, size, v);
    }
    assert(global_counts =~= count_table(data, max_val));
}

/// Input data of the benchmark: element `i` is `(i * 137) % (max_val + 1)`.
pub fn generate_data(n: usize, max_val: usize) -> (data: Vec<u32>)
    requires
        max_val < usize::MAX,
        n * 137 <= usize::MAX,
    ensures
        data.len() == n,
        forall|i: int| 0 <= i < n ==> data[i] == ((i * 137) % (max_val + 1)) as u32,
{
    let mut data: Vec<u32> = Vec::with_capacity(n);
    for i in 0..n
        invariant
            max_val < usize::MAX,
            n * 137 <= usize::MAX,
            data.len() == i,
            forall|j: int| 0 <= j < i ==> data[j] == ((j * 137) % (max_val + 1)) as u32,
    {
        assert(i * 137 <= n * 137) by (nonlinear_arith)
            requires
                i < n,
        ;
        data.push(((i * 137) % (max_val + 1)) as u32);
    }
    data
}

} // verus!
