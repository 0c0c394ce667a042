//! Row operations that keep the row space, and the shapes that row
//! reduction passes through.

use vstd::prelude::*;
use crate::gf2::{leads_at, lemma_add_row, same_row_space, xor_vec};
use crate::matrix::Matrix;
use crate::row::{lemma_xor_range_row, zero_before, Row};
use crate::util::Index;
use crate::word::row_bits;

verus! {

/// The first `pivots.len()` rows lead in the columns `pivots`, which
/// increase from row to row.
pub open spec fn pivot_rows(a: Seq<Seq<bool>>, pivots: Seq<int>) -> bool {
    &&& pivots.len() <= a.len()
    &&& forall|i: int, j: int| 0 <= i < j < pivots.len() ==> pivots[i] < pivots[j]
    &&& forall|i: int| 0 <= i < pivots.len() ==> leads_at(#[trigger] a[i], pivots[i])
}

/// The rows from `from` on have no entry in the columns before `bound`.
pub open spec fn zero_below(a: Seq<Seq<bool>>, from: int, bound: int) -> bool {
    forall|i: int| from <= i < a.len() ==> zero_before(#[trigger] a[i], bound)
}

/// The pivot columns `0, 1, .., r - 1`.
pub open spec fn diagonal(r: nat) -> Seq<int> {
    Seq::new(r, |i: int| i)
}

/// The rows before `upto` are the same in both matrices.
pub open spec fn same_rows_before(a: Seq<Seq<bool>>, b: Seq<Seq<bool>>, upto: int) -> bool {
    forall|i: int| 0 <= i < upto && i < a.len() ==> #[trigger] a[i] == b[i]
}

/// The rows of the block that starts at `start` have no entry in a
/// column before the block.
pub open spec fn block_rows_clear(a: Seq<Seq<bool>>, start: int, width: int) -> bool {
    forall|r: int| start <= r < start + width && r < a.len() ==> zero_before(#[trigger] a[r], start)
}

/// Adds row `src` to row `dst`, starting at word `first_word`, before
/// which row `src` has no bit set.
pub(crate) fn add_row_from(mat: &mut Matrix, dst: Index, src: Index, first_word: Index)
    requires
        old(mat).wf(),
        dst < old(mat).row_count(),
        src < old(mat).row_count(),
        dst != src,
        first_word <= old(mat).word_count(),
        zero_before(old(mat)@[src as int], first_word * 64),
    ensures
        final(mat).wf(),
        final(mat).word_count() == old(mat).word_count(),
        final(mat).row_count() == old(mat).row_count(),
        final(mat)@ == old(mat)@.update(dst as int, xor_vec(old(mat)@[dst as int], old(mat)@[src as int])),
        same_row_space(old(mat)@, final(mat)@, old(mat).bit_col_count()),
{
    let num_words: Index = mat.num_words();
    mat.add_rows(dst, src, first_word, num_words);
    proof {
        let a = old(mat).words();
        old(mat).lemma_view_shape();
        assert(a[dst as int].len() == num_words);
        assert(a[src as int].len() == num_words);
        lemma_xor_range_row(a[dst as int], a[src as int], first_word as int);
        assert(mat@ =~= old(mat)@.update(dst as int, xor_vec(old(mat)@[dst as int], old(mat)@[src as int])));
        lemma_add_row(old(mat)@, old(mat).bit_col_count(), dst as int, src as int);
    }
}

/// Adds `row` to row `dst`, starting at word `first_word`, before which
/// `row` has no bit set.
pub(crate) fn add_vector_from(mat: &mut Matrix, dst: Index, row: &Row, first_word: Index)
    requires
        old(mat).wf(),
        dst < old(mat).row_count(),
        row@.len() == old(mat).word_count(),
        first_word <= old(mat).word_count(),
        zero_before(row_bits(row@), first_word * 64),
    ensures
        final(mat).wf(),
        final(mat).word_count() == old(mat).word_count(),
        final(mat).row_count() == old(mat).row_count(),
        final(mat)@ == old(mat)@.update(dst as int, xor_vec(old(mat)@[dst as int], row_bits(row@))),
{
    let num_words: Index = mat.num_words();
    mat.update_xor_row(dst, row, first_word, num_words);
    proof {
        let a = old(mat).words();
        old(mat).lemma_view_shape();
        assert(a[dst as int].len() == num_words);
        lemma_xor_range_row(a[dst as int], row@, first_word as int);
        assert(mat@ =~= old(mat)@.update(dst as int, xor_vec(old(mat)@[dst as int], row_bits(row@))));
    }
}

} // verus!
