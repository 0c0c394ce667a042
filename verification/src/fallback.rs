//! Row reduction column by column, one pivot at a time.

use vstd::prelude::*;
use crate::gf2::{echelon_with, leads_at, lemma_same_row_space_trans, same_row_space};
use crate::matrix::Matrix;
use crate::row::zero_before;
use crate::rowops::{add_row_from, pivot_rows, same_rows_before, zero_below};
use crate::util::{Index, WORD_SIZE};

verus! {

/// The first row from `from` on that has an entry in column `col`.
fn find_first_set(mat: &Matrix, from: Index, col: Index) -> (found: Option<Index>)
    requires
        mat.wf(),
        from <= mat.row_count(),
        col < mat.bit_col_count(),
    ensures
        match found {
            Some(j) => from <= j < mat.row_count() && mat@[j as int][col as int] && forall|i: int|
                from <= i < j ==> !(#[trigger] mat@[i])[col as int],
            None => forall|i: int| from <= i < mat.row_count() ==> !(#[trigger] mat@[i])[col as int],
        },
{
    let num_rows: Index = mat.num_rows() as Index;
    let mut j: Index = from;
    while j < num_rows
        invariant
            mat.wf(),
            num_rows == mat.row_count(),
            from <= j <= num_rows,
            col < mat.bit_col_count(),
            forall|i: int| from <= i < j ==> !(#[trigger] mat@[i])[col as int],
        decreases num_rows - j,
    {
        if mat.bit_at(j, col) {
            return Some(j);
        }
        j += 1;
    }
    None
}

/// Adds row `pivot_row`, which leads in column `col`, to every later
/// row that has an entry in that column.
fn eliminate_below(mat: &mut Matrix, pivot_row: Index, col: Index)
    requires
        old(mat).wf(),
        pivot_row < old(mat).row_count(),
        col < old(mat).bit_col_count(),
        leads_at(old(mat)@[pivot_row as int], col as int),
        zero_below(old(mat)@, pivot_row + 1, col as int),
    ensures
        final(mat).wf(),
        final(mat).word_count() == old(mat).word_count(),
        final(mat).row_count() == old(mat).row_count(),
        same_row_space(old(mat)@, final(mat)@, old(mat).bit_col_count()),
        same_rows_before(old(mat)@, final(mat)@, pivot_row + 1),
        zero_below(final(mat)@, pivot_row + 1, col + 1),
{
    let num_rows: Index = mat.num_rows() as Index;
    let first_word: Index = col / WORD_SIZE;
    let ghost n = mat.bit_col_count();
    let mut j: Index = pivot_row + 1;
    proof {
        old(mat).lemma_view_shape();
    }
    while j < num_rows
        invariant
            mat.wf(),
            mat.word_count() == old(mat).word_count(),
            mat.row_count() == old(mat).row_count(),
            n == old(mat).bit_col_count(),
            num_rows == mat.row_count(),
            pivot_row < j <= num_rows,
            col < n,
            first_word == col / 64,
            leads_at(old(mat)@[pivot_row as int], col as int),
            old(mat)@.len() == num_rows,
            same_row_space(old(mat)@, mat@, n),
            same_rows_before(old(mat)@, mat@, pivot_row + 1),
            zero_below(mat@, pivot_row + 1, col as int),
            forall|i: int| pivot_row < i < j ==> !(#[trigger] mat@[i])[col as int],
        decreases num_rows - j,
    {
        proof {
            mat.lemma_view_shape();
        }
        if mat.bit_at(j, col) {
            let ghost before = mat@;
            assert(before[pivot_row as int] == old(mat)@[pivot_row as int]);
            add_row_from(mat, j, pivot_row, first_word);
            proof {
                lemma_same_row_space_trans(old(mat)@, before, mat@, n);
                assert(zero_before(before[j as int], col as int));
                assert forall|i: int| pivot_row + 1 <= i < mat@.len() implies zero_before(
                    #[trigger] mat@[i],
                    col as int,
                ) by {
                    assert(zero_before(before[i], col as int));
                }
                assert forall|i: int| pivot_row < i < j + 1 implies !(#[trigger] mat@[i])[col as int] by {
                    if i < j {
                        assert(!before[i][col as int]);
                    }
                }
            }
        }
        j += 1;
    }
    proof {
        assert forall|i: int| pivot_row + 1 <= i < mat@.len() implies zero_before(
            #[trigger] mat@[i],
            col + 1,
        ) by {
            assert(zero_before(mat@[i], col as int));
            assert(!mat@[i][col as int]);
        }
    }
}

/// Reduces the rows from `row_start` on, column by column from
/// `col_start` on, one pivot at a time. Returns the number of pivot rows
/// at the end, and the columns in which they lead.
pub(crate) fn fallback_reduce(
    mat: &mut Matrix,
    row_start: Index,
    col_start: Index,
    Ghost(start_pivots): Ghost<Seq<int>>,
) -> (out: (Index, Ghost<Seq<int>>))
    requires
        old(mat).wf(),
        row_start <= old(mat).row_count(),
        start_pivots.len() == row_start,
        pivot_rows(old(mat)@, start_pivots),
        zero_below(old(mat)@, row_start as int, col_start as int),
        row_start > 0 ==> zero_below(old(mat)@, row_start as int, start_pivots[row_start - 1] + 1),
    ensures
        final(mat).wf(),
        final(mat).word_count() == old(mat).word_count(),
        final(mat).row_count() == old(mat).row_count(),
        same_row_space(old(mat)@, final(mat)@, old(mat).bit_col_count()),
        out.1@.len() == out.0,
        echelon_with(final(mat)@, old(mat).bit_col_count(), out.1@),
{
    let num_rows: Index = mat.num_rows() as Index;
    let num_bit_cols: Index = mat.num_bit_cols();
    let ghost n = mat.bit_col_count();
    let mut row_index: Index = row_start;
    let mut col_index: Index = col_start;
    let ghost mut pivots: Seq<int> = start_pivots;
    proof {
        old(mat).lemma_view_shape();
    }
    while row_index < num_rows && col_index < num_bit_cols
        invariant
            mat.wf(),
            mat.word_count() == old(mat).word_count(),
            mat.row_count() == old(mat).row_count(),
            n == old(mat).bit_col_count(),
            num_rows == mat.row_count(),
            num_bit_cols == n,
            row_index <= num_rows,
            pivots.len() == row_index,
            same_row_space(old(mat)@, mat@, n),
            pivot_rows(mat@, pivots),
            zero_below(mat@, row_index as int, col_index as int),
            row_index > 0 ==> zero_below(mat@, row_index as int, pivots[row_index - 1] + 1),
        decreases num_bit_cols - col_index,
    {
        proof {
            mat.lemma_view_shape();
        }
        let found = find_first_set(mat, row_index, col_index);
        match found {
            None => {
                proof {
                    assert forall|i: int| row_index <= i < mat@.len() implies zero_before(
                        #[trigger] mat@[i],
                        col_index + 1,
                    ) by {
                        assert(zero_before(mat@[i], col_index as int));
                        assert(!mat@[i][col_index as int]);
                    }
                }
            },
            Some(jj) => {
                let ghost before = mat@;
                proof {
                    // The new pivot column lies after the last one.
                    if row_index > 0 {
                        assert(zero_before(before[jj as int], pivots[row_index - 1] + 1));
                    }
                    assert(zero_before(before[jj as int], col_index as int));
                    assert(zero_before(before[row_index as int], col_index as int));
                }
                if jj != row_index {
                    assert(!before[row_index as int][col_index as int]);
                    add_row_from(mat, row_index, jj, col_index / WORD_SIZE);
                    proof {
                        lemma_same_row_space_trans(old(mat)@, before, mat@, n);
                    }
                }
                let ghost middle = mat@;
                proof {
                    mat.lemma_view_shape();
                    assert(leads_at(middle[row_index as int], col_index as int));
                    assert forall|i: int| row_index + 1 <= i < middle.len() implies zero_before(
                        #[trigger] middle[i],
                        col_index as int,
                    ) by {
                        assert(middle[i] == before[i]);
                        assert(zero_before(before[i], col_index as int));
                    }
                }
                eliminate_below(mat, row_index, col_index);
                proof {
                    lemma_same_row_space_trans(old(mat)@, middle, mat@, n);
                    let grown = pivots.push(col_index as int);
                    assert forall|i: int| 0 <= i < grown.len() implies leads_at(#[trigger] mat@[i], grown[i]) by {
                        assert(mat@[i] == middle[i]);
                        if i < row_index {
                            assert(middle[i] == before[i]);
                            assert(leads_at(before[i], pivots[i]));
                        }
                    }
                    assert forall|i: int, j: int| 0 <= i < j < grown.len() implies grown[i] < grown[j] by {
                        if j == row_index {
                            assert(pivots[i] <= pivots[row_index - 1]);
                        }
                    }
                    pivots = grown;
                }
                row_index += 1;
            },
        }
        col_index += 1;
    }
    proof {
        mat.lemma_view_shape();
        assert forall|i: int, c: int| pivots.len() <= i < mat@.len() && 0 <= c < n implies !(
        #[trigger] mat@[i][c]) by {
            assert(zero_before(mat@[i], col_index as int));
        }
    }
    (row_index, Ghost(pivots))
}

} // verus!
