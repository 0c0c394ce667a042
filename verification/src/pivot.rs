//! The pivot rows of one block of columns.

use vstd::prelude::*;
use crate::gf2::{leads_at, lemma_same_row_space_trans, same_row_space};
use crate::matrix::Matrix;
use crate::row::zero_before;
use crate::rowops::{add_row_from, diagonal, pivot_rows, same_rows_before, zero_below};
use crate::util::{Index, WORD_SIZE};

verus! {

/// Clears from candidate row `j` the columns `start..row_index`, by
/// adding to it each pivot row of the block in whose column it has an
/// entry.
fn reduce_candidate(mat: &mut Matrix, start: Index, row_index: Index, j: Index)
    requires
        old(mat).wf(),
        start <= row_index <= j < old(mat).row_count(),
        row_index <= old(mat).bit_col_count(),
        pivot_rows(old(mat)@, diagonal(row_index as nat)),
        zero_before(old(mat)@[j as int], start as int),
    ensures
        final(mat).wf(),
        final(mat).word_count() == old(mat).word_count(),
        final(mat).row_count() == old(mat).row_count(),
        same_row_space(old(mat)@, final(mat)@, old(mat).bit_col_count()),
        forall|i: int| 0 <= i < old(mat)@.len() && i != j ==> #[trigger] final(mat)@[i] == old(mat)@[i],
        zero_before(final(mat)@[j as int], row_index as int),
{
    let first_word: Index = start / WORD_SIZE;
    let ghost n = mat.bit_col_count();
    let mut k: Index = start;
    proof {
        old(mat).lemma_view_shape();
    }
    while k < row_index
        invariant
            mat.wf(),
            mat.word_count() == old(mat).word_count(),
            mat.row_count() == old(mat).row_count(),
            n == old(mat).bit_col_count(),
            old(mat)@.len() == old(mat).row_count(),
            start <= k <= row_index <= j < mat.row_count(),
            row_index <= n,
            first_word == start / 64,
            pivot_rows(old(mat)@, diagonal(row_index as nat)),
            same_row_space(old(mat)@, mat@, n),
            forall|i: int| 0 <= i < old(mat)@.len() && i != j ==> #[trigger] mat@[i] == old(mat)@[i],
            zero_before(mat@[j as int], k as int),
        decreases row_index - k,
    {
        proof {
            mat.lemma_view_shape();
        }
        if mat.bit_at(j, k) {
            let ghost before = mat@;
            proof {
                assert(before[k as int] == old(mat)@[k as int]);
                assert(leads_at(old(mat)@[k as int], diagonal(row_index as nat)[k as int]));
            }
            add_row_from(mat, j, k, first_word);
            proof {
                lemma_same_row_space_trans(old(mat)@, before, mat@, n);
            }
        }
        k += 1;
    }
}

/// Looks among the rows from `row_index` on for one that has an entry in
/// column `row_index` once the pivots of the block are cleared from it.
/// The rows it passes over are left cleared up to and including that
/// column.
fn scan_for_pivot(mat: &mut Matrix, start: Index, row_index: Index) -> (found: Option<Index>)
    requires
        old(mat).wf(),
        start <= row_index < old(mat).row_count(),
        row_index < old(mat).bit_col_count(),
        pivot_rows(old(mat)@, diagonal(row_index as nat)),
        zero_below(old(mat)@, row_index as int, start as int),
    ensures
        final(mat).wf(),
        final(mat).word_count() == old(mat).word_count(),
        final(mat).row_count() == old(mat).row_count(),
        same_row_space(old(mat)@, final(mat)@, old(mat).bit_col_count()),
        same_rows_before(old(mat)@, final(mat)@, row_index as int),
        zero_below(final(mat)@, row_index as int, start as int),
        match found {
            Some(j) => row_index <= j < old(mat).row_count() && leads_at(final(mat)@[j as int], row_index as int)
                && forall|i: int| row_index <= i < j ==> zero_before(#[trigger] final(mat)@[i], row_index + 1),
            None => zero_below(final(mat)@, row_index as int, row_index + 1),
        },
{
    let num_rows: Index = mat.num_rows() as Index;
    let ghost n = mat.bit_col_count();
    let mut j: Index = row_index;
    proof {
        old(mat).lemma_view_shape();
    }
    while j < num_rows
        invariant
            mat.wf(),
            mat.word_count() == old(mat).word_count(),
            mat.row_count() == old(mat).row_count(),
            n == old(mat).bit_col_count(),
            num_rows == mat.row_count(),
            old(mat)@.len() == num_rows,
            start <= row_index <= j <= num_rows,
            row_index < n,
            same_row_space(old(mat)@, mat@, n),
            same_rows_before(old(mat)@, mat@, row_index as int),
            pivot_rows(old(mat)@, diagonal(row_index as nat)),
            zero_below(mat@, row_index as int, start as int),
            forall|i: int| row_index <= i < j ==> zero_before(#[trigger] mat@[i], row_index + 1),
        decreases num_rows - j,
    {
        let ghost before = mat@;
        proof {
            mat.lemma_view_shape();
            assert(zero_before(before[j as int], start as int));
            assert forall|i: int| 0 <= i < row_index implies leads_at(
                #[trigger] before[i],
                diagonal(row_index as nat)[i],
            ) by {
                assert(before[i] == old(mat)@[i]);
                assert(leads_at(old(mat)@[i], diagonal(row_index as nat)[i]));
            }
        }
        reduce_candidate(mat, start, row_index, j);
        proof {
            mat.lemma_view_shape();
            lemma_same_row_space_trans(old(mat)@, before, mat@, n);
            assert forall|i: int| row_index <= i < mat@.len() implies zero_before(
                #[trigger] mat@[i],
                start as int,
            ) by {
                if i != j {
                    assert(mat@[i] == before[i]);
                    assert(zero_before(before[i], start as int));
                }
            }
            assert forall|i: int| row_index <= i < j implies zero_before(#[trigger] mat@[i], row_index + 1) by {
                assert(mat@[i] == before[i]);
                assert(zero_before(before[i], row_index + 1));
            }
        }
        if mat.bit_at(j, row_index) {
            return Some(j);
        }
        j += 1;
    }
    None
}

/// Finds pivot rows for the block of `width` columns that starts at
/// column and row `start`: for one column after the other, the first row
/// that has an entry there is added to the row of the same index as the
/// column. Stops at the first column for which there is none. Returns
/// the number of pivots found.
pub(crate) fn find_block_pivots(mat: &mut Matrix, start: Index, width: Index) -> (found: Index)
    requires
        old(mat).wf(),
        start + width <= old(mat).row_count(),
        start + width <= old(mat).bit_col_count(),
        pivot_rows(old(mat)@, diagonal(start as nat)),
        zero_below(old(mat)@, start as int, start as int),
    ensures
        final(mat).wf(),
        final(mat).word_count() == old(mat).word_count(),
        final(mat).row_count() == old(mat).row_count(),
        same_row_space(old(mat)@, final(mat)@, old(mat).bit_col_count()),
        found <= width,
        pivot_rows(final(mat)@, diagonal((start + found) as nat)),
        zero_below(final(mat)@, start + found, start as int),
        found < width ==> zero_below(final(mat)@, start + found, start + found + 1),
{
    let first_word: Index = start / WORD_SIZE;
    let ghost n = mat.bit_col_count();
    let mut found: Index = 0;
    proof {
        old(mat).lemma_view_shape();
    }
    while found < width
        invariant
            mat.wf(),
            mat.word_count() == old(mat).word_count(),
            mat.row_count() == old(mat).row_count(),
            n == old(mat).bit_col_count(),
            start + width <= mat.row_count(),
            start + width <= n,
            first_word == start / 64,
            found <= width,
            same_row_space(old(mat)@, mat@, n),
            pivot_rows(mat@, diagonal((start + found) as nat)),
            zero_below(mat@, start + found, start as int),
        decreases width - found,
    {
        let row_index: Index = start + found;
        let ghost before = mat@;
        match scan_for_pivot(mat, start, row_index) {
            None => {
                proof {
                    lemma_same_row_space_trans(old(mat)@, before, mat@, n);
                    assert forall|i: int| 0 <= i < row_index implies leads_at(
                        #[trigger] mat@[i],
                        diagonal(row_index as nat)[i],
                    ) by {
                        assert(mat@[i] == before[i]);
                        assert(leads_at(before[i], diagonal(row_index as nat)[i]));
                    }
                }
                return found;
            },
            Some(j) => {
                let ghost middle = mat@;
                proof {
                    mat.lemma_view_shape();
                    lemma_same_row_space_trans(old(mat)@, before, middle, n);
                }
                if j != row_index {
                    proof {
                        assert(zero_before(middle[row_index as int], row_index + 1));
                    }
                    add_row_from(mat, row_index, j, first_word);
                    proof {
                        lemma_same_row_space_trans(old(mat)@, middle, mat@, n);
                    }
                }
                proof {
                    mat.lemma_view_shape();
                    assert(leads_at(mat@[row_index as int], row_index as int));
                    assert forall|i: int| 0 <= i < row_index + 1 implies leads_at(
                        #[trigger] mat@[i],
                        diagonal((row_index + 1) as nat)[i],
                    ) by {
                        if i < row_index {
                            assert(mat@[i] == middle[i]);
                            assert(middle[i] == before[i]);
                            assert(leads_at(before[i], diagonal(row_index as nat)[i]));
                        }
                    }
                    assert forall|i: int| row_index + 1 <= i < mat@.len() implies zero_before(
                        #[trigger] mat@[i],
                        start as int,
                    ) by {
                        assert(mat@[i] == middle[i]);
                        assert(zero_before(middle[i], start as int));
                    }
                }
                found += 1;
            },
        }
    }
    found
}

} // verus!
