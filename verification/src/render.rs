//! Text form of bit matrices: one line for each row, the bits in column
//! order, with a gap after each word and a bar after each chunk.

use vstd::prelude::*;
use crate::matrix::Matrix;
use crate::row::{get_bit, Row};
use crate::util::{Index, WORD_SIZE};
use crate::word::row_bits;

verus! {

/// The character that stands for a bit.
pub open spec fn bit_char(b: bool) -> char {
    if b {
        '1'
    } else {
        '0'
    }
}

/// What follows bit number `k`, counted from 1: a gap if it ends a word,
/// then a bar if it ends a chunk. A chunk width of 0 stands for no bars.
pub open spec fn separators(k: int, chunk: int) -> Seq<char> {
    let gap = if k % 64 == 0 {
        seq![' ']
    } else {
        Seq::<char>::empty()
    };
    let bar = if chunk > 0 && k % chunk == 0 {
        seq!['|']
    } else {
        Seq::<char>::empty()
    };
    gap + bar
}

/// The first `k` bits of a row with their separators.
pub open spec fn bits_text(bits: Seq<bool>, chunk: int, k: nat) -> Seq<char>
    decreases k,
{
    if k == 0 {
        Seq::<char>::empty()
    } else {
        bits_text(bits, chunk, (k - 1) as nat).push(bit_char(bits[k - 1])) + separators(k as int, chunk)
    }
}

/// The line for one row: its bits between brackets, and a line feed.
pub open spec fn row_line(bits: Seq<bool>, chunk: int) -> Seq<char> {
    seq!['[', ' '] + bits_text(bits, chunk, bits.len()) + seq![']', '\n']
}

/// The lines of the first `m` rows, one after the other.
pub open spec fn rows_text(rows: Seq<Seq<bool>>, chunk: int, m: nat) -> Seq<char>
    decreases m,
{
    if m == 0 {
        Seq::<char>::empty()
    } else {
        rows_text(rows, chunk, (m - 1) as nat) + row_line(rows[m - 1], chunk)
    }
}

/// Appends the line for `row` to `text`.
fn push_row_line(text: &mut Vec<char>, row: &Row, chunk: Index)
    requires
        row@.len() * 64 <= usize::MAX,
    ensures
        final(text)@ == old(text)@ + row_line(row_bits(row@), chunk as int),
{
    let num_bits: Index = row.len() * WORD_SIZE;
    let ghost bits = row_bits(row@);
    text.push('[');
    text.push(' ');
    let mut k: Index = 0;
    while k < num_bits
        invariant
            k <= num_bits == row@.len() * 64,
            bits == row_bits(row@),
            text@ == old(text)@ + seq!['[', ' '] + bits_text(bits, chunk as int, k as nat),
        decreases num_bits - k,
    {
        let ghost before = text@;
        let bit: bool = get_bit(row, k);
        text.push(if bit { '1' } else { '0' });
        k += 1;
        if k % WORD_SIZE == 0 {
            text.push(' ');
        }
        if chunk > 0 && k % chunk == 0 {
            text.push('|');
        }
        proof {
            assert(text@ =~= before.push(bit_char(bits[k - 1])) + separators(k as int, chunk as int));
            assert(text@ =~= old(text)@ + seq!['[', ' '] + bits_text(bits, chunk as int, k as nat));
        }
    }
    text.push(']');
    text.push('\n');
    proof {
        assert(text@ =~= old(text)@ + row_line(bits, chunk as int));
    }
}

/// Appends the lines of all rows of `mat` to a new text.
fn mat_text(mat: &Matrix, chunk: Index) -> (text: Vec<char>)
    requires
        mat.wf(),
    ensures
        text@ == rows_text(mat@, chunk as int, mat@.len()),
{
    let num_rows: Index = mat.num_rows() as Index;
    let mut text: Vec<char> = Vec::new();
    let mut r: Index = 0;
    while r < num_rows
        invariant
            mat.wf(),
            r <= num_rows == mat.row_count() == mat@.len(),
            text@ == rows_text(mat@, chunk as int, r as nat),
        decreases num_rows - r,
    {
        assert(mat.words()[r as int].len() == mat.word_count());
        push_row_line(&mut text, mat.row(r), chunk);
        r += 1;
    }
    text
}

/// The matrix as text, one line for each row: the bits of the row in
/// column order between brackets, with a gap after every word.
pub fn gf2_mat_text(mat: &Matrix) -> (text: Vec<char>)
    requires
        mat.wf(),
    ensures
        text@ == rows_text(mat@, 0, mat@.len()),
{
    mat_text(mat, 0)
}

/// The matrix as text, one line for each row: the bits of the row in
/// column order between brackets, with a gap after every word and a bar
/// after every `bits_per_chunk` bits.
pub fn four_russians_mat_text(bits_per_chunk: Index, mat: &Matrix) -> (text: Vec<char>)
    requires
        mat.wf(),
        bits_per_chunk > 0,
    ensures
        text@ == rows_text(mat@, bits_per_chunk as int, mat@.len()),
{
    mat_text(mat, bits_per_chunk)
}

} // verus!
