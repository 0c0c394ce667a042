//! Rows of bits packed into words: single-bit tests, bit fields, and XOR
//! over a range of words.

use vstd::prelude::*;
use crate::error::MatrixError;
use crate::util::{Index, Word, WORD_SIZE};
use crate::gf2::xor_vec;
use crate::word::{field_word, lemma_field_bit, lemma_field_bound, low_mask, lemma_probe_bit, lemma_xor_bit, lemma_zero_word, row_bits, word_bit};

verus! {

/// One matrix row: bit `c` is bit `c % 64` of word `c / 64`.
pub type Row = Vec<Word>;

/// Whether `width` bits starting at bit `start` form a field that fits
/// in one word and lies inside a row of `len` bits.
pub open spec fn field_in_range(len: int, start: int, width: int) -> bool {
    1 <= width <= WORD_SIZE && start + width <= len
}

/// Read access to the bits of a row.
pub trait Bit {
    /// The bits of the row, in order.
    spec fn bit_view(&self) -> Seq<bool>;

    /// Bit `i` of the row, or an index error when the row is shorter.
    fn bit(&self, i: Index) -> (r: Result<bool, MatrixError>)
        ensures
            i < self.bit_view().len() ==> r == Ok::<bool, MatrixError>(self.bit_view()[i as int]),
            i >= self.bit_view().len() ==> r == Err::<bool, MatrixError>(MatrixError::Index),
    ;

    /// The `width` bits from bit `start` on, as a word whose bit 0 is bit
    /// `start` of the row. Refused with an index error unless
    /// `1 <= width <= 64` and the field lies inside the row.
    fn bits(&self, start: Index, width: Index) -> (r: Result<Word, MatrixError>)
        ensures
            r is Ok <==> field_in_range(self.bit_view().len() as int, start as int, width as int),
            r is Err ==> r == Err::<Word, MatrixError>(MatrixError::Index),
            r is Ok ==> forall|t: int|
                0 <= t < 64 ==> #[trigger] word_bit(r->Ok_0, t) == (t < width && self.bit_view()[start + t]),
    ;
}

impl Bit for Row {
    open spec fn bit_view(&self) -> Seq<bool> {
        row_bits(self@)
    }

    fn bit(&self, i: Index) -> (r: Result<bool, MatrixError>) {
        if i / WORD_SIZE < self.len() {
            Ok(get_bit(self, i))
        } else {
            Err(MatrixError::Index)
        }
    }

    fn bits(&self, start: Index, width: Index) -> (r: Result<Word, MatrixError>) {
        if width < 1 || width > WORD_SIZE {
            return Err(MatrixError::Index);
        }
        let last_word: Index = start / WORD_SIZE + (start % WORD_SIZE + width - 1) / WORD_SIZE;
        if last_word < self.len() {
            Ok(get_bits(self, start, width))
        } else {
            Err(MatrixError::Index)
        }
    }
}

/// Bit `i` of `row`, for an index inside the row.
pub fn get_bit(row: &Row, i: Index) -> (b: bool)
    requires
        i < row@.len() * 64,
    ensures
        b == row_bits(row@)[i as int],
{
    let shift: usize = i % WORD_SIZE;
    let probe: Word = 1u64 << shift;
    proof {
        lemma_probe_bit(row@[i as int / 64], shift as int);
    }
    row[i / WORD_SIZE] & probe != 0
}

/// The `width` bits of `row` from bit `start` on, for a field inside the
/// row. A field may lie across two neighbouring words.
pub fn get_bits(row: &Row, start: Index, width: Index) -> (field: Word)
    requires
        field_in_range((row@.len() * 64) as int, start as int, width as int),
    ensures
        forall|t: int|
            0 <= t < 64 ==> #[trigger] word_bit(field, t) == (t < width && row_bits(row@)[start + t]),
        field <= low_mask(width as int),
{
    let w0: Index = start / WORD_SIZE;
    let offset: Index = start % WORD_SIZE;
    let w1: Index = w0 + (offset + width - 1) / WORD_SIZE;
    let mut result: Word = row[w0] >> offset;
    if w0 < w1 {
        result ^= row[w1] << (WORD_SIZE - offset);
    }
    if width < WORD_SIZE {
        assert((1u64 << width) >= 1) by (bit_vector)
            requires
                width < 64,
        ;
        result = result & ((1u64 << width) - 1);
    }
    proof {
        let lo: u64 = row@[w0 as int];
        let hi: u64 = if w0 < w1 { row@[w1 as int] } else { 0u64 };
        assert(w0 < w1 <==> offset + width > 64);
        assert(w0 < w1 ==> w1 == w0 + 1);
        assert(result == field_word(lo, hi, offset as int, width as int)) by {
            let raw: u64 = if w0 < w1 { (lo >> offset) ^ (hi << ((64 - offset) as u64)) } else { lo >> offset };
            assert(width == 64 ==> raw & 0xffff_ffff_ffff_ffffu64 == raw) by (bit_vector);
        }
        assert forall|t: int| 0 <= t < 64 implies #[trigger] word_bit(result, t) == (t < width && row_bits(
            row@,
        )[start + t]) by {
            lemma_field_bit(lo, hi, offset as int, width as int, t);
        }
        lemma_field_bound(lo, hi, offset as int, width as int);
    }
    result
}

/// The words of `a`, with those of `b` added to them at the indices from
/// `i0` up to, not including, `i1`.
pub open spec fn xor_range(a: Seq<u64>, b: Seq<u64>, i0: int, i1: int) -> Seq<u64> {
    Seq::new(a.len(), |i: int| if i0 <= i < i1 { a[i] ^ b[i] } else { a[i] })
}

/// All bits of the row before bit `bound` are zero.
pub open spec fn zero_before(bits: Seq<bool>, bound: int) -> bool {
    forall|c: int| 0 <= c < bound && c < bits.len() ==> !bits[c]
}

/// Writes `r1 XOR r2` into `dst`, word by word, at the indices from `i0`
/// up to, not including, `i1`. The other words of `dst` stay.
pub fn update_add_rows(dst: &mut Row, r1: &Row, r2: &Row, i0: Index, i1: Index)
    requires
        i0 < i1 ==> i1 <= old(dst)@.len() && i1 <= r1@.len() && i1 <= r2@.len(),
    ensures
        final(dst)@ == Seq::new(
            old(dst)@.len(),
            |i: int| if i0 <= i < i1 { r1@[i] ^ r2@[i] } else { old(dst)@[i] },
        ),
{
    let mut i: Index = i0;
    while i < i1
        invariant
            i0 <= i,
            i <= i1 || i == i0,
            i < i1 ==> i1 <= dst@.len() && i1 <= r1@.len() && i1 <= r2@.len(),
            dst@.len() == old(dst)@.len(),
            forall|k: int|
                0 <= k < dst@.len() ==> dst@[k] == if i0 <= k < i { r1@[k] ^ r2@[k] } else { old(dst)@[k] },
        decreases i1 - i,
    {
        dst[i] = r1[i] ^ r2[i];
        i += 1;
    }
    assert(dst@ =~= Seq::new(
        old(dst)@.len(),
        |i: int| if i0 <= i < i1 { r1@[i] ^ r2@[i] } else { old(dst)@[i] },
    ));
}

/// Adding words over a range adds the bits that lie in those words.
pub proof fn lemma_xor_range_bit(a: Seq<u64>, b: Seq<u64>, i0: int, i1: int, c: int)
    requires
        0 <= c < a.len() * 64,
        i0 < i1 ==> 0 <= i0 && i1 <= a.len() && i1 <= b.len(),
    ensures
        row_bits(xor_range(a, b, i0, i1))[c] == if i0 <= c / 64 < i1 {
            row_bits(a)[c] != row_bits(b)[c]
        } else {
            row_bits(a)[c]
        },
{
    if i0 <= c / 64 < i1 {
        lemma_xor_bit(a[c / 64], b[c / 64], c % 64);
    }
}

/// Adding the words of `b` from word `i0` to the end is adding the whole
/// row, when `b` has no bit set before word `i0`.
pub proof fn lemma_xor_range_row(a: Seq<u64>, b: Seq<u64>, i0: int)
    requires
        a.len() == b.len(),
        0 <= i0 <= a.len(),
        zero_before(row_bits(b), i0 * 64),
    ensures
        row_bits(xor_range(a, b, i0, a.len() as int)) == xor_vec(row_bits(a), row_bits(b)),
{
    let x = xor_range(a, b, i0, a.len() as int);
    assert forall|c: int| 0 <= c < a.len() * 64 implies row_bits(x)[c] == (row_bits(a)[c] != row_bits(b)[c]) by {
        lemma_xor_range_bit(a, b, i0, a.len() as int, c);
    }
    assert(row_bits(x) =~= xor_vec(row_bits(a), row_bits(b)));
}

/// A row of zero words has no bit set.
pub proof fn lemma_zero_row(a: Seq<u64>)
    requires
        forall|i: int| 0 <= i < a.len() ==> a[i] == 0,
    ensures
        forall|c: int| 0 <= c < a.len() * 64 ==> !(#[trigger] row_bits(a)[c]),
{
    assert forall|c: int| 0 <= c < a.len() * 64 implies !(#[trigger] row_bits(a)[c]) by {
        lemma_zero_word(c % 64);
    }
}

} // verus!
