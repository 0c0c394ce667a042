//! Dense bit matrices: rows of equal length, each a run of words.

use vstd::prelude::*;
use crate::error::MatrixError;
use crate::gf2::{gf2_rank, is_bit_matrix, lemma_add_row, same_row_space, xor_vec};
use crate::row::{get_bit, lemma_xor_range_row, xor_range, Row};
use crate::util::{Index, Word, WORD_SIZE};
use crate::word::row_bits;

verus! {

/// A matrix over the two-element field. Every row holds the same number
/// of words, and each word holds 64 columns.
#[derive(Debug, Clone)]
pub struct Matrix {
    rows: Vec<Row>,
    num_words: Index,
}

/// The words of a list of rows.
pub open spec fn words_of(rows: Seq<Row>) -> Seq<Seq<u64>> {
    Seq::new(rows.len(), |i: int| rows[i]@)
}

/// Row and word counts that a matrix can have: the number of rows and
/// the number of words in a row each fit in 32 bits, and the number of
/// bit columns, 64 for each word of a row, fits in an index.
pub open spec fn valid_dimensions(num_rows: int, num_words: int) -> bool {
    0 <= num_rows <= u32::MAX && 0 <= num_words <= u32::MAX && num_words * 64 <= usize::MAX
}

/// Every one of the rows holds `num_words` words.
pub open spec fn rows_have_length(words: Seq<Seq<u64>>, num_words: int) -> bool {
    forall|r: int| 0 <= r < words.len() ==> (#[trigger] words[r]).len() == num_words
}

impl View for Matrix {
    type V = Seq<Seq<bool>>;

    /// The matrix as rows of bits. The number of words in a row, which a
    /// matrix without rows has as well, is `word_count`.
    open spec fn view(&self) -> Seq<Seq<bool>> {
        Seq::new(self.words().len(), |r: int| row_bits(self.words()[r]))
    }
}

impl Matrix {
    /// The matrix as rows of words. The number of words in a row, which
    /// a matrix without rows has as well, is `word_count`.
    pub closed spec fn words(&self) -> Seq<Seq<u64>> {
        words_of(self.rows@)
    }

    /// Number of words in each row.
    pub closed spec fn word_count(&self) -> nat {
        self.num_words as nat
    }

    /// Number of rows.
    pub open spec fn row_count(&self) -> nat {
        self.words().len()
    }

    /// Number of bit columns: 64 for each word of a row.
    pub open spec fn bit_col_count(&self) -> nat {
        self.word_count() * 64
    }

    /// The rows all have the stated length, and the dimensions fit.
    pub open spec fn wf(&self) -> bool {
        &&& valid_dimensions(self.row_count() as int, self.word_count() as int)
        &&& rows_have_length(self.words(), self.word_count() as int)
    }

    /// Builds a matrix of `num_rows` rows of `num_words` words each from
    /// the given rows. Refused with a dimension error when the number of
    /// rows or the length of a row differs from what is stated, or when
    /// the counts do not fit.
    pub fn new(num_rows: Index, num_words: Index, rows: Vec<Row>) -> (r: Result<Matrix, MatrixError>)
        ensures
            r is Ok <==> rows@.len() == num_rows && rows_have_length(words_of(rows@), num_words as int)
                && valid_dimensions(num_rows as int, num_words as int),
            r is Err ==> r->Err_0 == MatrixError::Dimension,
            r is Ok ==> r->Ok_0.wf() && r->Ok_0.words() == words_of(rows@) && r->Ok_0.word_count()
                == num_words,
    {
        if rows.len() != num_rows || num_rows > 0xffff_ffff || num_words > 0xffff_ffff || num_words > usize::MAX
            / WORD_SIZE {
            return Err(MatrixError::Dimension);
        }
        let mut r: Index = 0;
        while r < num_rows
            invariant
                r <= num_rows == rows@.len(),
                forall|k: int| 0 <= k < r ==> (#[trigger] rows@[k])@.len() == num_words,
            decreases num_rows - r,
        {
            if rows[r].len() != num_words {
                proof {
                    assert(words_of(rows@)[r as int].len() != num_words);
                }
                return Err(MatrixError::Dimension);
            }
            r += 1;
        }
        Ok(Matrix { rows, num_words })
    }

    /// Number of rows.
    pub fn num_rows(&self) -> (m: u32)
        requires
            self.wf(),
        ensures
            m == self.row_count(),
    {
        self.rows.len() as u32
    }

    /// Number of columns of words: the number of words in each row.
    pub fn num_cols(&self) -> (n: u32)
        requires
            self.wf(),
        ensures
            n == self.word_count(),
    {
        self.num_words as u32
    }

    /// Number of rows and number of words in each row.
    pub fn dimensions(&self) -> (d: (u32, u32))
        requires
            self.wf(),
        ensures
            d.0 == self.row_count(),
            d.1 == self.word_count(),
    {
        (self.num_rows(), self.num_cols())
    }

    /// Number of bit columns: 64 for each word of a row.
    pub fn num_bit_cols(&self) -> (n: Index)
        requires
            self.wf(),
        ensures
            n == self.bit_col_count(),
    {
        self.num_words * WORD_SIZE
    }

    /// Number of words in each row.
    pub fn num_words(&self) -> (n: Index)
        ensures
            n == self.word_count(),
    {
        self.num_words
    }

    /// The rows, each as its words.
    pub fn rows(&self) -> (rows: &Vec<Row>)
        ensures
            words_of(rows@) == self.words(),
    {
        &self.rows
    }

    /// The entry in row `r` and column `c`.
    pub fn bit_at(&self, r: Index, c: Index) -> (b: bool)
        requires
            self.wf(),
            r < self.row_count(),
            c < self.bit_col_count(),
        ensures
            b == self@[r as int][c as int],
    {
        assert(self.words()[r as int].len() == self.word_count());
        get_bit(&self.rows[r], c)
    }

    /// A well-formed matrix has as many bits in each row as it has
    /// columns.
    pub proof fn lemma_view_shape(self)
        requires
            self.wf(),
        ensures
            self@.len() == self.row_count(),
            is_bit_matrix(self@, self.bit_col_count()),
    {
        assert forall|i: int| 0 <= i < self@.len() implies (#[trigger] self@[i]).len() == self.bit_col_count() by {
            assert(self.words()[i].len() == self.word_count());
        }
    }

    /// Adding one whole row to another leaves the row space and the rank
    /// of the matrix as they were.
    pub proof fn lemma_add_rows_keeps_rank(self, after: Matrix, r1: int, r2: int)
        requires
            self.wf(),
            0 <= r1 < self.row_count(),
            0 <= r2 < self.row_count(),
            r1 != r2,
            after.word_count() == self.word_count(),
            after.words() == self.words().update(
                r1,
                xor_range(self.words()[r1], self.words()[r2], 0, self.word_count() as int),
            ),
        ensures
            after.wf(),
            same_row_space(self@, after@, self.bit_col_count()),
            gf2_rank(after@, self.bit_col_count()) == gf2_rank(self@, self.bit_col_count()),
    {
        let a = self.words();
        self.lemma_view_shape();
        assert(a[r1].len() == self.word_count());
        assert(a[r2].len() == self.word_count());
        lemma_xor_range_row(a[r1], a[r2], 0);
        assert(after@ =~= self@.update(r1, xor_vec(self@[r1], self@[r2])));
        lemma_add_row(self@, self.bit_col_count(), r1, r2);
    }

    /// Row `r`, as its words.
    pub fn row(&self, r: Index) -> (row: &Row)
        requires
            r < self.row_count(),
        ensures
            row@ == self.words()[r as int],
    {
        &self.rows[r]
    }

    /// Adds row `r2` to row `r1`, word by word, at the word indices from
    /// `i0` up to, not including, `i1`.
    pub fn add_rows(&mut self, r1: Index, r2: Index, i0: Index, i1: Index)
        requires
            old(self).wf(),
            r1 < old(self).row_count(),
            r2 < old(self).row_count(),
            i0 < i1 ==> i1 <= old(self).word_count(),
        ensures
            final(self).wf(),
            final(self).word_count() == old(self).word_count(),
            final(self).words() == old(self).words().update(
                r1 as int,
                xor_range(old(self).words()[r1 as int], old(self).words()[r2 as int], i0 as int, i1 as int),
            ),
    {
        let mut i: Index = i0;
        while i < i1
            invariant
                i0 <= i,
                i <= i1 || i == i0,
                i < i1 ==> i1 <= self.num_words,
                r1 < self.rows@.len(),
                r2 < self.rows@.len(),
                self.num_words == old(self).num_words,
                self.rows@.len() == old(self).rows@.len(),
                old(self).wf(),
                rows_have_length(words_of(self.rows@), self.num_words as int),
                forall|k: int| 0 <= k < self.rows@.len() && k != r1 ==> self.rows@[k] == old(self).rows@[k],
                forall|k: int|
                    0 <= k < self.num_words ==> self.rows@[r1 as int]@[k] == if i0 <= k < i {
                        old(self).rows@[r1 as int]@[k] ^ old(self).rows@[r2 as int]@[k]
                    } else {
                        old(self).rows@[r1 as int]@[k]
                    },
            decreases i1 - i,
        {
            assert(words_of(self.rows@)[r1 as int].len() == self.num_words);
            assert(words_of(self.rows@)[r2 as int].len() == self.num_words);
            let ghost before = self.rows@;
            let x: Word = self.rows[r2][i];
            let y: Word = self.rows[r1][i];
            self.rows[r1][i] = y ^ x;
            assert forall|r: int| 0 <= r < self.rows@.len() implies (#[trigger] words_of(self.rows@)[r]).len()
                == self.num_words by {
                assert(words_of(before)[r].len() == self.num_words);
            }
            i += 1;
        }
        proof {
            assert(words_of(old(self).rows@)[r1 as int].len() == self.num_words);
            assert(words_of(self.rows@)[r1 as int].len() == self.num_words);
            assert(self.rows@[r1 as int]@ =~= xor_range(
                old(self).words()[r1 as int],
                old(self).words()[r2 as int],
                i0 as int,
                i1 as int,
            ));
            assert(self.words() =~= old(self).words().update(
                r1 as int,
                xor_range(old(self).words()[r1 as int], old(self).words()[r2 as int], i0 as int, i1 as int),
            ));
        }
    }

    /// Adds `row` to row `r1`, word by word, at the word indices from
    /// `i0` up to, not including, `i1`.
    pub fn update_xor_row(&mut self, r1: Index, row: &Row, i0: Index, i1: Index)
        requires
            old(self).wf(),
            r1 < old(self).row_count(),
            i0 < i1 ==> i1 <= old(self).word_count() && i1 <= row@.len(),
        ensures
            final(self).wf(),
            final(self).word_count() == old(self).word_count(),
            final(self).words() == old(self).words().update(
                r1 as int,
                xor_range(old(self).words()[r1 as int], row@, i0 as int, i1 as int),
            ),
    {
        let mut i: Index = i0;
        while i < i1
            invariant
                i0 <= i,
                i <= i1 || i == i0,
                i < i1 ==> i1 <= self.num_words && i1 <= row@.len(),
                r1 < self.rows@.len(),
                self.num_words == old(self).num_words,
                self.rows@.len() == old(self).rows@.len(),
                old(self).wf(),
                rows_have_length(words_of(self.rows@), self.num_words as int),
                forall|k: int| 0 <= k < self.rows@.len() && k != r1 ==> self.rows@[k] == old(self).rows@[k],
                forall|k: int|
                    0 <= k < self.num_words ==> self.rows@[r1 as int]@[k] == if i0 <= k < i {
                        old(self).rows@[r1 as int]@[k] ^ row@[k]
                    } else {
                        old(self).rows@[r1 as int]@[k]
                    },
            decreases i1 - i,
        {
            assert(words_of(self.rows@)[r1 as int].len() == self.num_words);
            let ghost before = self.rows@;
            let y: Word = self.rows[r1][i];
            self.rows[r1][i] = y ^ row[i];
            assert forall|r: int| 0 <= r < self.rows@.len() implies (#[trigger] words_of(self.rows@)[r]).len()
                == self.num_words by {
                assert(words_of(before)[r].len() == self.num_words);
            }
            i += 1;
        }
        proof {
            assert(words_of(old(self).rows@)[r1 as int].len() == self.num_words);
            assert(words_of(self.rows@)[r1 as int].len() == self.num_words);
            assert(self.rows@[r1 as int]@ =~= xor_range(old(self).words()[r1 as int], row@, i0 as int, i1 as int));
            assert(self.words() =~= old(self).words().update(
                r1 as int,
                xor_range(old(self).words()[r1 as int], row@, i0 as int, i1 as int),
            ));
        }
    }
}

} // verus!
