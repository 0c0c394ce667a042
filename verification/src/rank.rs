//! Rank of a bit matrix by row reduction: block by block with lookup
//! tables while full blocks of pivots can be had, and column by column
//! for the rest.

use vstd::prelude::*;
use crate::error::MatrixError;
use crate::fallback::fallback_reduce;
use crate::gf2::{
    gf2_rank, is_row_echelon, leads_at, lemma_echelon_rank, lemma_same_row_space_rank,
    lemma_same_row_space_trans, same_row_space,
};
use crate::matrix::Matrix;
use crate::pivot::find_block_pivots;
use crate::row::zero_before;
use crate::rowops::{block_rows_clear, diagonal, pivot_rows, zero_below};
use crate::table::{build_lookup_table, reduce_below_block};
use crate::util::{log_2, Index, WORD_SIZE};
use crate::word::{lemma_low_mask_step, low_mask};

verus! {

/// What a rank computation leaves behind: the matrix keeps its shape
/// and its row space, it is in row echelon form, and the number of its
/// nonzero rows is the rank of the matrix it was before.
pub open spec fn reduced_from(before: Matrix, after: Matrix, rank: nat) -> bool {
    &&& after.wf()
    &&& after.word_count() == before.word_count()
    &&& after.row_count() == before.row_count()
    &&& same_row_space(before@, after@, before.bit_col_count())
    &&& is_row_echelon(after@, before.bit_col_count(), rank)
    &&& rank == gf2_rank(before@, before.bit_col_count())
    &&& rank == gf2_rank(after@, before.bit_col_count())
    &&& rank <= before.row_count()
    &&& rank <= before.bit_col_count()
}

/// A second rank computation, on the matrix that a first one left
/// behind, returns the same rank.
pub proof fn lemma_rank_repeats(first: Matrix, second: Matrix, third: Matrix, rank1: nat, rank2: nat)
    requires
        reduced_from(first, second, rank1),
        reduced_from(second, third, rank2),
    ensures
        rank1 == rank2,
{
}

/// Two rank computations on the same matrix return the same rank,
/// whatever the block widths they were made with and whatever they leave
/// behind.
pub proof fn lemma_rank_same_for_all_widths(mat: Matrix, left1: Matrix, left2: Matrix, rank1: nat, rank2: nat)
    requires
        reduced_from(mat, left1, rank1),
        reduced_from(mat, left2, rank2),
    ensures
        rank1 == rank2,
{
}

/// Row reduction with blocks of `width` columns while full blocks can be
/// had, then column by column. A width below 2 or of a full word goes
/// column by column from the start.
fn reduce_by_blocks(mat: &mut Matrix, width: Index) -> (rank: u32)
    requires
        old(mat).wf(),
        width <= WORD_SIZE,
    ensures
        reduced_from(*old(mat), *final(mat), rank as nat),
{
    let num_rows: Index = mat.num_rows() as Index;
    let num_bit_cols: Index = mat.num_bit_cols();
    let ghost n = mat.bit_col_count();
    let ghost orig = mat@;
    let mut chunk_start: Index = 0;
    let mut row_index: Index = 0;
    proof {
        old(mat).lemma_view_shape();
        assert forall|v: Seq<bool>| crate::gf2::in_row_space(orig, n, v) <==> crate::gf2::in_row_space(
            mat@,
            n,
            v,
        ) by {}
    }
    if 1 < width && width < WORD_SIZE {
        let shift: u64 = width as u64;
        let wide_size: u64 = 1u64 << shift;
        proof {
            if width < 63 {
                lemma_low_mask_step(width as int);
            } else {
                assert((1u64 << 63u64) >= 1) by (bit_vector);
            }
        }
        if wide_size <= usize::MAX as u64 {
            let size: Index = wide_size as Index;
            let mut blocking: bool = true;
            while blocking && width <= num_rows - chunk_start && width <= num_bit_cols - chunk_start
                invariant
                    mat.wf(),
                    mat.word_count() == old(mat).word_count(),
                    mat.row_count() == old(mat).row_count(),
                    n == old(mat).bit_col_count(),
                    orig == old(mat)@,
                    num_rows == mat.row_count(),
                    num_bit_cols == n,
                    1 < width < 64,
                    size == low_mask(width as int) + 1,
                    chunk_start <= row_index <= num_rows,
                    chunk_start <= num_bit_cols,
                    blocking ==> row_index == chunk_start,
                    same_row_space(orig, mat@, n),
                    pivot_rows(mat@, diagonal(row_index as nat)),
                    zero_below(mat@, row_index as int, chunk_start as int),
                    zero_below(mat@, row_index as int, row_index as int),
                decreases num_rows - chunk_start + if blocking { 1int } else { 0int },
            {
                let ghost before = mat@;
                let found: Index = find_block_pivots(mat, chunk_start, width);
                proof {
                    lemma_same_row_space_trans(orig, before, mat@, n);
                }
                if found < width {
                    row_index = chunk_start + found;
                    blocking = false;
                    proof {
                        assert forall|i: int| row_index <= i < mat@.len() implies zero_before(
                            #[trigger] mat@[i],
                            row_index as int,
                        ) by {
                            assert(zero_before(mat@[i], row_index + 1));
                        }
                    }
                } else {
                    if width < num_rows - chunk_start {
                        let ghost middle = mat@;
                        proof {
                            assert(block_rows_clear(middle, chunk_start as int, width as int)) by {
                                assert forall|r: int|
                                    chunk_start <= r < chunk_start + width && r < middle.len() implies zero_before(
                                    #[trigger] middle[r],
                                    chunk_start as int,
                                ) by {
                                    assert(leads_at(middle[r], diagonal((chunk_start + width) as nat)[r]));
                                }
                            }
                        }
                        let table = build_lookup_table(mat, chunk_start, width, size);
                        reduce_below_block(mat, &table, chunk_start, width);
                        proof {
                            lemma_same_row_space_trans(orig, middle, mat@, n);
                            assert forall|i: int| 0 <= i < chunk_start + width implies leads_at(
                                #[trigger] mat@[i],
                                diagonal((chunk_start + width) as nat)[i],
                            ) by {
                                assert(mat@[i] == middle[i]);
                                assert(leads_at(middle[i], diagonal((chunk_start + width) as nat)[i]));
                            }
                        }
                    }
                    chunk_start += width;
                    row_index = chunk_start;
                }
            }
        }
    }
    let ghost middle = mat@;
    let out = fallback_reduce(mat, row_index, chunk_start, Ghost(diagonal(row_index as nat)));
    proof {
        mat.lemma_view_shape();
        lemma_same_row_space_trans(orig, middle, mat@, n);
        lemma_echelon_rank(mat@, n, out.1@);
        lemma_same_row_space_rank(orig, mat@, n);
    }
    out.0 as u32
}

/// Rank of the matrix over the two-element field, by the Method of Four
/// Russians with blocks of `bits_per_chunk` columns, each with a lookup
/// table of `2^bits_per_chunk` rows. A width of 0 or 1 reduces the matrix
/// column by column only. The matrix is left in row echelon form.
/// Refused with a dimension error, and the matrix left untouched, when
/// the width is larger than a word.
pub fn four_russians_rank_with(mat: &mut Matrix, bits_per_chunk: Index) -> (r: Result<u32, MatrixError>)
    requires
        old(mat).wf(),
    ensures
        r is Err <==> bits_per_chunk > WORD_SIZE,
        r is Err ==> r->Err_0 == MatrixError::Dimension && *final(mat) == *old(mat),
        r is Ok ==> r->Ok_0 == gf2_rank(old(mat)@, old(mat).bit_col_count()),
        r is Ok ==> reduced_from(*old(mat), *final(mat), r->Ok_0 as nat),
{
    if bits_per_chunk > WORD_SIZE {
        return Err(MatrixError::Dimension);
    }
    Ok(reduce_by_blocks(mat, bits_per_chunk))
}

/// Rank of the matrix over the two-element field, by the Method of Four
/// Russians with blocks as wide as the logarithm of the number of rows.
/// The matrix is left in row echelon form.
pub fn four_russians_rank(mat: &mut Matrix) -> (rank: u32)
    requires
        old(mat).wf(),
    ensures
        rank == gf2_rank(old(mat)@, old(mat).bit_col_count()),
        rank <= old(mat).row_count(),
        rank <= old(mat).bit_col_count(),
        reduced_from(*old(mat), *final(mat), rank as nat),
{
    let num_rows: Index = mat.num_rows() as Index;
    let bits_per_chunk: Index = if num_rows > 0 {
        log_2(num_rows)
    } else {
        0
    };
    reduce_by_blocks(mat, bits_per_chunk)
}

} // verus!
