//! Distribution of a row-major matrix by blocks of whole rows: rank `p`
//! holds the rows `local_offset(p) .. local_offset(p) + local_size(p)`, the
//! root splits the matrix into these pieces and later joins the pieces that
//! the ranks send back.
use vstd::prelude::*;
use crate::error::AlgError;
use crate::matrix::append_range;
use crate::partition::{
    local_offset,
    local_size,
    calculate_local_offset,
    calculate_local_size,
    lemma_offset_is_sizes_before,
    lemma_partition_covers_all,
    lemma_piece_in_bounds,
    lemma_local_sizes_balanced,
};

verus! {

/// First element of the rows of rank `p`.
pub open spec fn piece_start(p: int, size: int, total_rows: int, cols: int) -> int {
    local_offset(p, size, total_rows) * cols
}

/// Number of elements in the rows of rank `p`.
pub open spec fn piece_len(p: int, size: int, total_rows: int, cols: int) -> int {
    local_size(p, size, total_rows) * cols
}

/// The elements of the rows of rank `p`.
pub open spec fn row_piece<T>(data: Seq<T>, p: int, size: int, total_rows: int, cols: int) -> Seq<
    T,
> {
    data.subrange(
        piece_start(p, size, total_rows, cols),
        piece_start(p, size, total_rows, cols) + piece_len(p, size, total_rows, cols),
    )
}

/// Rank `p` (not the root) sent a nonempty piece of the wrong length.
pub open spec fn bad_piece<T>(
    pieces: Seq<Vec<T>>,
    p: int,
    size: int,
    total_rows: int,
    cols: int,
) -> bool {
    &&& 1 <= p < size
    &&& piece_len(p, size, total_rows, cols) > 0
    &&& pieces[p]@.len() != piece_len(p, size, total_rows, cols)
}

/// The pieces of ranks `0 .. k` one after another, leaving out those that
/// are expected to be empty.
pub open spec fn joined_pieces<T>(
    pieces: Seq<Vec<T>>,
    k: int,
    size: int,
    total_rows: int,
    cols: int,
) -> Seq<T>
    decreases k,
{
    if k <= 0 {
        Seq::empty()
    } else if piece_len(k - 1, size, total_rows, cols) > 0 {
        joined_pieces(pieces, k - 1, size, total_rows, cols) + pieces[k - 1]@
    } else {
        joined_pieces(pieces, k - 1, size, total_rows, cols)
    }
}

proof fn lemma_piece_fits(p: int, size: int, total_rows: int, cols: int)
    requires
        size > 0,
        total_rows >= 0,
        cols >= 0,
        0 <= p < size,
    ensures
        0 <= piece_start(p, size, total_rows, cols),
        0 <= piece_len(p, size, total_rows, cols),
        piece_start(p, size, total_rows, cols) + piece_len(p, size, total_rows, cols)
            <= total_rows * cols,
        piece_start(p + 1, size, total_rows, cols) == piece_start(p, size, total_rows, cols)
            + piece_len(p, size, total_rows, cols),
{
    lemma_piece_in_bounds(p, size, total_rows);
    lemma_offset_is_sizes_before(p, size, total_rows);
    lemma_local_sizes_balanced(p, size, total_rows);
    let o = local_offset(p, size, total_rows);
    let l = local_size(p, size, total_rows);
    assert(0 <= o * cols && 0 <= l * cols && o * cols + l * cols <= total_rows * cols && (o + l)
        * cols == o * cols + l * cols) by (nonlinear_arith)
        requires
            0 <= o,
            0 <= l,
            o + l <= total_rows,
            cols >= 0,
    ;
}

/// Splits the `total_rows x cols` matrix `data` into the row pieces of the
/// `size` ranks, in rank order.
pub fn split_rows<T: Copy>(data: &[T], total_rows: usize, cols: usize, size: usize) -> (pieces: Vec<
    Vec<T>,
>)
    requires
        size > 0,
        data.len() == total_rows * cols,
    ensures
        pieces.len() == size,
        forall|p: int|
            0 <= p < size ==> #[trigger] pieces[p]@ == row_piece(
                data@,
                p,
                size as int,
                total_rows as int,
                cols as int,
            ),
{
    let mut pieces: Vec<Vec<T>> = Vec::new();
    for p in 0..size
        invariant
            size > 0,
            data.len() == total_rows * cols,
            pieces.len() == p,
            forall|r: int|
                0 <= r < p ==> #[trigger] pieces[r]@ == row_piece(
                    data@,
                    r,
                    size as int,
                    total_rows as int,
                    cols as int,
                ),
    {
        proof {
            lemma_piece_fits(p as int, size as int, total_rows as int, cols as int);
        }
        let offset = calculate_local_offset(p, size, total_rows);
        let rows = calculate_local_size(p, size, total_rows);
        let start = offset * cols;
        let len = rows * cols;
        let mut piece: Vec<T> = Vec::new();
        append_range(&mut piece, data, start, start + len);
        proof {
            assert(piece@ =~= row_piece(data@, p as int, size as int, total_rows as int, cols as int));
        }
        pieces.push(piece);
    }
    pieces
}

/// Joins the row pieces that the ranks hold back into one matrix, in rank
/// order.  A piece that is expected to be empty is not read.  A nonempty
/// piece of another length from a rank other than the root is refused,
/// naming the first such rank.
pub fn assemble_row_pieces<T: Copy>(pieces: &Vec<Vec<T>>, total_rows: usize, cols: usize) -> (r:
    Result<Vec<T>, AlgError>)
    requires
        pieces.len() > 0,
        total_rows * cols <= usize::MAX,
        pieces[0]@.len() == piece_len(0, pieces.len() as int, total_rows as int, cols as int),
    ensures
        r is Err <==> exists|p: int|
            bad_piece(pieces@, p, pieces.len() as int, total_rows as int, cols as int),
        r matches Err(e) ==> exists|p: int|
            {
                &&& bad_piece(pieces@, p, pieces.len() as int, total_rows as int, cols as int)
                &&& forall|p2: int|
                    0 <= p2 < p ==> !bad_piece(
                        pieces@,
                        p2,
                        pieces.len() as int,
                        total_rows as int,
                        cols as int,
                    )
                &&& e == AlgError::WrongPieceLength {
                    rank: p as usize,
                    got: pieces[p]@.len() as usize,
                    expected: piece_len(p, pieces.len() as int, total_rows as int, cols as int)
                        as usize,
                }
            },
        r matches Ok(v) ==> v@ == joined_pieces(
            pieces@,
            pieces.len() as int,
            pieces.len() as int,
            total_rows as int,
            cols as int,
        ),
        r is Ok ==> forall|p: int|
            0 <= p < pieces.len() && local_size(p, pieces.len() as int, total_rows as int) * cols
                > 0 ==> #[trigger] pieces[p]@.len() == local_size(
                p,
                pieces.len() as int,
                total_rows as int,
            ) * cols,
        (exists|p: int|
            1 <= p < pieces.len() && local_size(p, pieces.len() as int, total_rows as int) * cols
                > 0 && #[trigger] pieces[p]@.len() != local_size(
                p,
                pieces.len() as int,
                total_rows as int,
            ) * cols) ==> r is Err,
        r matches Ok(v) ==> v@.len() == total_rows * cols,
{
    let size = pieces.len();
    let mut out: Vec<T> = Vec::new();
    for p in 0..size
        invariant
            size == pieces.len(),
            size > 0,
            total_rows * cols <= usize::MAX,
            pieces[0]@.len() == piece_len(0, size as int, total_rows as int, cols as int),
            forall|p2: int|
                0 <= p2 < p ==> !bad_piece(pieces@, p2, size as int, total_rows as int, cols as int),
            out@ == joined_pieces(pieces@, p as int, size as int, total_rows as int, cols as int),
    {
        proof {
            lemma_piece_fits(p as int, size as int, total_rows as int, cols as int);
        }
        let p_len = calculate_local_size(p, size, total_rows) * cols;
        let piece = &pieces[p];
        if p > 0 && p_len > 0 && piece.len() != p_len {
            proof {
                assert(bad_piece(pieces@, p as int, size as int, total_rows as int, cols as int));
            }
            return Err(AlgError::WrongPieceLength { rank: p, got: piece.len(), expected: p_len });
        }
        if p_len > 0 {
            append_range(&mut out, piece.as_slice(), 0, piece.len());
            proof {
                assert(piece@.subrange(0, piece@.len() as int) =~= piece@);
            }
        }
    }
    proof {
        assert forall|p: int|
            !bad_piece(pieces@, p, size as int, total_rows as int, cols as int) by {
            if 0 <= p < size {
            }
        }
        assert forall|p: int|
            0 <= p < size && local_size(p, size as int, total_rows as int) * cols > 0 implies #[trigger] pieces[p]@.len()
                == local_size(p, size as int, total_rows as int) * cols by {
            if p >= 1 {
                assert(!bad_piece(pieces@, p, size as int, total_rows as int, cols as int));
            }
        }
        lemma_joined_length(pieces@, size as int, total_rows as int, cols as int);
        lemma_partition_covers_all(size as int, total_rows as int);
    }
    Ok(out)
}

proof fn lemma_joined_prefix_length<T>(
    pieces: Seq<Vec<T>>,
    k: int,
    size: int,
    total_rows: int,
    cols: int,
)
    requires
        size > 0,
        total_rows >= 0,
        cols >= 0,
        0 <= k <= size,
        pieces.len() == size,
        forall|p: int|
            0 <= p < size && local_size(p, size, total_rows) * cols > 0 ==> #[trigger] pieces[p]@.len()
                == local_size(p, size, total_rows) * cols,
    ensures
        joined_pieces(pieces, k, size, total_rows, cols).len() == local_offset(k, size, total_rows)
            * cols,
    decreases k,
{
    if k == 0 {
        lemma_offset_is_sizes_before(0, size, total_rows);
        assert(0 * cols == 0);
    } else {
        lemma_joined_prefix_length(pieces, k - 1, size, total_rows, cols);
        lemma_piece_fits(k - 1, size, total_rows, cols);
    }
}

/// When every piece that should hold rows holds exactly its share, the
/// joined pieces hold the whole `total_rows x cols` matrix, no more and no
/// less.
pub proof fn lemma_joined_length<T>(pieces: Seq<Vec<T>>, size: int, total_rows: int, cols: int)
    requires
        size > 0,
        total_rows >= 0,
        cols >= 0,
        pieces.len() == size,
        forall|p: int|
            0 <= p < size && local_size(p, size, total_rows) * cols > 0 ==> #[trigger] pieces[p]@.len()
                == local_size(p, size, total_rows) * cols,
    ensures
        joined_pieces(pieces, size, size, total_rows, cols).len() == total_rows * cols,
{
    lemma_joined_prefix_length(pieces, size, size, total_rows, cols);
    lemma_partition_covers_all(size, total_rows);
}

proof fn lemma_joined_prefix<T>(
    data: Seq<T>,
    pieces: Seq<Vec<T>>,
    k: int,
    size: int,
    total_rows: int,
    cols: int,
)
    requires
        size > 0,
        total_rows >= 0,
        cols >= 0,
        data.len() == total_rows * cols,
        pieces.len() == size,
        forall|p: int|
            0 <= p < size ==> #[trigger] pieces[p]@ == row_piece(data, p, size, total_rows, cols),
        0 <= k <= size,
    ensures
        joined_pieces(pieces, k, size, total_rows, cols) == data.subrange(
            0,
            piece_start(k, size, total_rows, cols),
        ),
    decreases k,
{
    if k == 0 {
        lemma_offset_is_sizes_before(0, size, total_rows);
        assert(0 * cols == 0);
        assert(data.subrange(0, 0) =~= Seq::<T>::empty());
    } else {
        lemma_joined_prefix(data, pieces, k - 1, size, total_rows, cols);
        lemma_piece_fits(k - 1, size, total_rows, cols);
        let a = piece_start(k - 1, size, total_rows, cols);
        let b = piece_start(k, size, total_rows, cols);
        if piece_len(k - 1, size, total_rows, cols) > 0 {
            assert(data.subrange(0, b) =~= data.subrange(0, a) + pieces[k - 1]@);
        } else {
            assert(a == b);
        }
    }
}

/// Splitting the matrix into the ranks' row pieces and joining the pieces
/// again gives back the matrix: no row is lost, repeated or moved.
pub proof fn lemma_split_then_join<T>(
    data: Seq<T>,
    pieces: Seq<Vec<T>>,
    size: int,
    total_rows: int,
    cols: int,
)
    requires
        size > 0,
        total_rows >= 0,
        cols >= 0,
        data.len() == total_rows * cols,
        pieces.len() == size,
        forall|p: int|
            0 <= p < size ==> #[trigger] pieces[p]@ == row_piece(data, p, size, total_rows, cols),
    ensures
        forall|p: int| !bad_piece(pieces, p, size, total_rows, cols),
        joined_pieces(pieces, size, size, total_rows, cols) == data,
{
    assert forall|p: int| !bad_piece(pieces, p, size, total_rows, cols) by {
        if 1 <= p < size {
            lemma_piece_fits(p, size, total_rows, cols);
        }
    }
    lemma_joined_prefix(data, pieces, size, size, total_rows, cols);
    lemma_partition_covers_all(size, total_rows);
    assert(data.subrange(0, total_rows * cols) =~= data);
}

} // verus!
