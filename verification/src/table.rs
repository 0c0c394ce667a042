//! The lookup table of a block: every sum of its pivot rows, stored
//! under the bits that the sum has in the columns of the block.

use vstd::prelude::*;
use crate::gf2::{
    combination, combination_bit, is_bit_matrix, leads_at, lemma_add_combination,
    lemma_combination_single, lemma_combination_within, lemma_combination_xor, lemma_least_selected,
    lemma_same_row_space_trans, same_row_space, selects_within, unit_coeffs, xor_coeffs, xor_vec,
};
use crate::matrix::Matrix;
use crate::row::{get_bits, lemma_zero_row, update_add_rows, zero_before, Row};
use crate::rowops::{
    add_vector_from, block_rows_clear, diagonal, pivot_rows, same_rows_before, zero_below,
};
use crate::util::{Index, Word, WORD_SIZE};
use crate::word::{
    lemma_agree_step, lemma_below_mask, lemma_low_bits_clear, lemma_low_mask_increases,
    lemma_low_mask_step, lemma_xor_bit, lemma_zero_word, low_mask, row_bits, word_bit,
};

verus! {

/// The words are a sum of rows of the block of `width` rows and columns
/// that starts at `start`, and the entries of that sum in the columns of
/// the block are the bits of `key`.
pub open spec fn is_table_entry(
    a: Seq<Seq<bool>>,
    n: nat,
    start: int,
    width: int,
    key: u64,
    words: Seq<u64>,
) -> bool {
    &&& words.len() * 64 == n
    &&& exists|coeffs: Seq<bool>|
        coeffs.len() == a.len() && selects_within(coeffs, start, start + width) && #[trigger] combination(
            a,
            coeffs,
            n,
        ) == row_bits(words)
    &&& forall|t: int| 0 <= t < width ==> row_bits(words)[start + t] == #[trigger] word_bit(key, t)
}

/// Every row of the table has `num_words` words, those before
/// `first_word` zero.
pub open spec fn table_shape(table: Seq<Row>, num_words: int, first_word: int) -> bool {
    forall|r: int|
        0 <= r < table.len() ==> (#[trigger] table[r])@.len() == num_words && forall|w: int|
            0 <= w < first_word && w < num_words ==> table[r]@[w] == 0
}

/// Each of the first `filled` keys is the key of the table row at its
/// own index.
pub open spec fn table_filled(
    a: Seq<Seq<bool>>,
    n: nat,
    start: int,
    width: int,
    keys: Seq<u64>,
    table: Seq<Row>,
    filled: int,
) -> bool {
    forall|k: int|
        0 <= k < filled ==> (#[trigger] keys[k]) <= low_mask(width) && is_table_entry(
            a,
            n,
            start,
            width,
            keys[k],
            table[keys[k] as int]@,
        )
}

/// The words agree in their lowest `i` bits.
pub open spec fn agree_low(x: u64, p: u64, i: int) -> bool {
    (x ^ p) & low_mask(i) == 0
}

/// One of the first `count` keys agrees with `p` in its lowest `i` bits.
pub open spec fn covered(keys: Seq<u64>, p: u64, i: int, count: int) -> bool {
    exists|k: int| 0 <= k < count && #[trigger] agree_low(keys[k], p, i)
}

/// Every word below `2^width` is covered.
pub open spec fn keys_cover(keys: Seq<u64>, width: int, i: int, count: int) -> bool {
    forall|p: u64| p <= low_mask(width) ==> #[trigger] covered(keys, p, i, count)
}

/// A sum of rows of the block has no entry in a column before the block.
proof fn lemma_block_sum_clear(a: Seq<Seq<bool>>, start: int, width: int, coeffs: Seq<bool>, col: int)
    requires
        0 <= start,
        coeffs.len() == a.len(),
        selects_within(coeffs, start, start + width),
        block_rows_clear(a, start, width),
        0 <= col < start,
        forall|r: int| 0 <= r < a.len() ==> col < (#[trigger] a[r]).len(),
    ensures
        !combination_bit(a, coeffs, col, a.len()),
{
    assert forall|r: int| 0 <= r < a.len() implies !(coeffs[r] && #[trigger] a[r][col]) by {
        if coeffs[r] {
            assert(zero_before(a[r], start));
        }
    }
    lemma_combination_single(a, coeffs, col, a.len(), -1);
}

/// The zero row is the table entry with key zero.
proof fn lemma_zero_entry(a: Seq<Seq<bool>>, n: nat, start: int, width: int, words: Seq<u64>)
    requires
        words.len() * 64 == n,
        0 <= start,
        0 <= width <= 64,
        start + width <= n,
        forall|w: int| 0 <= w < words.len() ==> words[w] == 0,
    ensures
        is_table_entry(a, n, start, width, 0, words),
{
    let coeffs = Seq::new(a.len(), |i: int| false);
    lemma_zero_row(words);
    assert forall|col: int| 0 <= col < n implies !combination_bit(a, coeffs, col, a.len()) by {
        lemma_combination_single(a, coeffs, col, a.len(), -1);
    }
    assert(combination(a, coeffs, n) =~= row_bits(words));
    assert forall|t: int| 0 <= t < width implies row_bits(words)[start + t] == #[trigger] word_bit(0, t) by {
        lemma_zero_word(t);
    }
}

/// Adding a pivot row of the block to a table entry gives the entry
/// whose key is the old key plus the bits of the pivot row in the
/// columns of the block.
proof fn lemma_extend_entry(
    a: Seq<Seq<bool>>,
    n: nat,
    start: int,
    width: int,
    i: int,
    key: u64,
    field: u64,
    entry: Seq<u64>,
    pivot: Seq<u64>,
    blank: Seq<u64>,
)
    requires
        is_bit_matrix(a, n),
        0 <= start,
        0 <= i < width < 64,
        start + width <= a.len(),
        start + width <= n,
        block_rows_clear(a, start, width),
        is_table_entry(a, n, start, width, key, entry),
        pivot.len() * 64 == n,
        row_bits(pivot) == a[start + i],
        forall|t: int| 0 <= t < width ==> #[trigger] word_bit(field, t) == a[start + i][start + t],
        blank.len() == entry.len(),
        forall|w: int| 0 <= w < start / 64 ==> blank[w] == 0,
    ensures
        is_table_entry(
            a,
            n,
            start,
            width,
            key ^ field,
            Seq::new(
                blank.len(),
                |w: int| if start / 64 <= w < entry.len() { entry[w] ^ pivot[w] } else { blank[w] },
            ),
        ),
{
    let first_word = start / 64;
    let num_words = entry.len() as int;
    let sum = Seq::new(blank.len(), |w: int| if first_word <= w < num_words { entry[w] ^ pivot[w] } else { blank[w] });
    let ca = choose|ca: Seq<bool>|
        ca.len() == a.len() && selects_within(ca, start, start + width) && #[trigger] combination(a, ca, n)
            == row_bits(entry);
    let unit = unit_coeffs(a.len(), start + i);
    let cb = xor_coeffs(ca, unit);
    assert(selects_within(cb, start, start + width));
    assert(zero_before(a[start + i], start));
    assert forall|col: int| 0 <= col < n implies combination_bit(a, cb, col, a.len()) == row_bits(sum)[col] by {
        lemma_combination_xor(a, ca, unit, col, a.len());
        lemma_combination_single(a, unit, col, a.len(), start + i);
        assert(combination(a, ca, n)[col] == row_bits(entry)[col]);
        if col / 64 >= first_word {
            lemma_xor_bit(entry[col / 64], pivot[col / 64], col % 64);
        } else {
            lemma_zero_word(col % 64);
            lemma_block_sum_clear(a, start, width, ca, col);
        }
    }
    assert(combination(a, cb, n) =~= row_bits(sum));
    assert forall|t: int| 0 <= t < width implies row_bits(sum)[start + t] == #[trigger] word_bit(
        key ^ field,
        t,
    ) by {
        let col = start + t;
        lemma_xor_bit(entry[col / 64], pivot[col / 64], col % 64);
        lemma_xor_bit(key, field, t);
        assert(row_bits(entry)[start + t] == word_bit(key, t));
        assert(word_bit(field, t) == a[start + i][start + t]);
    }
}

/// Once the keys made with one more pivot row are in place, the keys
/// cover every word in one more bit.
proof fn lemma_cover_step(before: Seq<u64>, keys: Seq<u64>, field: u64, width: int, i: int, count: int)
    requires
        0 <= i < width < 64,
        count == low_mask(i) + 1,
        keys.len() >= 2 * count,
        before.len() == keys.len(),
        keys_cover(before, width, i, count),
        forall|k: int| 0 <= k < count ==> keys[k] == before[k],
        forall|k: int| 0 <= k < count ==> keys[count + k] == before[k] ^ field,
        field & low_mask(i) == 0,
        word_bit(field, i),
    ensures
        keys_cover(keys, width, i + 1, 2 * count),
{
    assert forall|p: u64| p <= low_mask(width) implies #[trigger] covered(keys, p, i + 1, 2 * count) by {
        assert(covered(before, p, i, count));
        let k = choose|k: int| 0 <= k < count && #[trigger] agree_low(before[k], p, i);
        lemma_agree_step(before[k], p, field, i);
        if word_bit(before[k] ^ p, i) {
            assert(agree_low(keys[count + k], p, i + 1));
        } else {
            assert(agree_low(keys[k], p, i + 1));
        }
    }
}

/// A table whose keys cover every word in all `width` bits holds at
/// each index the entry with that index as key.
proof fn lemma_table_complete(
    a: Seq<Seq<bool>>,
    n: nat,
    start: int,
    width: int,
    keys: Seq<u64>,
    table: Seq<Row>,
    size: int,
)
    requires
        0 <= width < 64,
        size == low_mask(width) + 1,
        table_filled(a, n, start, width, keys, table, size),
        keys_cover(keys, width, width, size),
    ensures
        forall|p: u64| p <= low_mask(width) ==> is_table_entry(a, n, start, width, p, #[trigger] table[p as int]@),
{
    assert forall|p: u64| p <= low_mask(width) implies is_table_entry(
        a,
        n,
        start,
        width,
        p,
        #[trigger] table[p as int]@,
    ) by {
        assert(covered(keys, p, width, size));
        let k = choose|k: int| 0 <= k < size && #[trigger] agree_low(keys[k], p, width);
        assert(keys[k] <= low_mask(width));
        lemma_below_mask(keys[k], p, width);
    }
}

/// A row of `num_words` zero words.
fn zero_row(num_words: Index) -> (row: Row)
    ensures
        row@.len() == num_words,
        forall|w: int| 0 <= w < num_words ==> row@[w] == 0,
{
    let mut row: Row = Vec::new();
    let mut w: Index = 0;
    while w < num_words
        invariant
            w <= num_words,
            row@.len() == w,
            forall|k: int| 0 <= k < w ==> row@[k] == 0,
        decreases num_words - w,
    {
        row.push(0);
        w += 1;
    }
    row
}

/// A table of `size` zero rows.
fn zero_table(size: Index, num_words: Index) -> (table: Vec<Row>)
    ensures
        table@.len() == size,
        forall|r: int|
            0 <= r < size ==> (#[trigger] table@[r])@.len() == num_words && forall|w: int|
                0 <= w < num_words ==> table@[r]@[w] == 0,
{
    let mut table: Vec<Row> = Vec::new();
    let mut r: Index = 0;
    while r < size
        invariant
            r <= size,
            table@.len() == r,
            forall|k: int|
                0 <= k < r ==> (#[trigger] table@[k])@.len() == num_words && forall|w: int|
                    0 <= w < num_words ==> table@[k]@[w] == 0,
        decreases size - r,
    {
        table.push(zero_row(num_words));
        r += 1;
    }
    table
}

/// Doubles the filled part of the table with pivot row `start + i`: for
/// each sum built from the pivot rows before it, the sum with this row
/// added is stored under its own key.
fn extend_table(
    mat: &Matrix,
    start: Index,
    width: Index,
    i: Index,
    keys: &mut Vec<Word>,
    table: &mut Vec<Row>,
)
    requires
        mat.wf(),
        i < width < 64,
        start + width <= mat.row_count(),
        start + width <= mat.bit_col_count(),
        pivot_rows(mat@, diagonal((start + width) as nat)),
        old(keys)@.len() == low_mask(width as int) + 1,
        old(table)@.len() == old(keys)@.len(),
        table_shape(old(table)@, mat.word_count() as int, start as int / 64),
        table_filled(
            mat@,
            mat.bit_col_count(),
            start as int,
            width as int,
            old(keys)@,
            old(table)@,
            low_mask(i as int) + 1,
        ),
        keys_cover(old(keys)@, width as int, i as int, low_mask(i as int) + 1),
    ensures
        final(keys)@.len() == old(keys)@.len(),
        final(table)@.len() == old(table)@.len(),
        table_shape(final(table)@, mat.word_count() as int, start as int / 64),
        table_filled(
            mat@,
            mat.bit_col_count(),
            start as int,
            width as int,
            final(keys)@,
            final(table)@,
            low_mask(i + 1) + 1,
        ),
        keys_cover(final(keys)@, width as int, i + 1, low_mask(i + 1) + 1),
{
    let num_words: Index = mat.num_words();
    let first_word: Index = start / WORD_SIZE;
    let ghost n = mat.bit_col_count();
    let ghost a = mat@;
    proof {
        lemma_low_mask_step(i as int);
        lemma_low_mask_increases(i + 1, width as int);
        mat.lemma_view_shape();
    }
    let size: Index = keys.len();
    let shift: u64 = i as u64;
    let wide_count: u64 = 1u64 << shift;
    assert(2 * wide_count <= size);
    let count: Index = wide_count as Index;
    let pivot: &Row = mat.row(start + i);
    let field: Word = get_bits(pivot, start, width);
    proof {
        assert(block_rows_clear(a, start as int, width as int)) by {
            assert forall|r: int| start <= r < start + width && r < a.len() implies zero_before(
                #[trigger] a[r],
                start as int,
            ) by {
                assert(leads_at(a[r], diagonal((start + width) as nat)[r]));
            }
        }
        assert(leads_at(a[start + i], diagonal((start + width) as nat)[start + i]));
        assert(row_bits(pivot@) == a[start + i]);
        assert forall|t: int| 0 <= t < i implies !word_bit(field, t) by {
            assert(word_bit(field, t) == a[start + i][start + t]);
        }
        lemma_low_bits_clear(field, i as int);
        assert(word_bit(field, i as int) == a[start + i][start + i]);
    }
    let mut j: Index = 0;
    while j < count
        invariant
            mat.wf(),
            a == mat@,
            n == mat.bit_col_count(),
            num_words == mat.word_count(),
            is_bit_matrix(a, n),
            first_word == start / 64,
            i < width < 64,
            start + width <= a.len(),
            start + width <= n,
            j <= count == low_mask(i as int) + 1,
            2 * count <= size == keys@.len() == low_mask(width as int) + 1,
            keys@.len() == old(keys)@.len(),
            table@.len() == keys@.len(),
            field <= low_mask(width as int),
            pivot@.len() == num_words,
            row_bits(pivot@) == a[start + i],
            block_rows_clear(a, start as int, width as int),
            forall|t: int| 0 <= t < width ==> #[trigger] word_bit(field, t) == a[start + i][start + t],
            forall|k: int| 0 <= k < count ==> keys@[k] == old(keys)@[k],
            forall|k: int| 0 <= k < j ==> keys@[count + k] == old(keys)@[k] ^ field,
            table_shape(table@, num_words as int, first_word as int),
            table_filled(a, n, start as int, width as int, keys@, table@, count + j),
        decreases count - j,
    {
        let key: Word = keys[j];
        let sum_key: Word = key ^ field;
        proof {
            assert(keys@[j as int] <= low_mask(width as int));
            lemma_below_mask(key, field, width as int);
        }
        let ghost keys_before = keys@;
        let ghost table_before = table@;
        keys[j + count] = sum_key;
        let entry: Row = table[key as usize].clone();
        assert(entry@ =~= table_before[key as int]@) by {
            assert forall|w: int| 0 <= w < entry@.len() implies entry@[w] == table_before[key as int]@[w] by {
                assert(cloned::<u64>(table_before[key as int][w], entry[w]));
            }
        }
        let ghost blank = table_before[sum_key as int]@;
        update_add_rows(&mut table[sum_key as usize], &entry, pivot, first_word, num_words);
        proof {
            lemma_extend_entry(a, n, start as int, width as int, i as int, key, field, entry@, pivot@, blank);
            let sum = table@[sum_key as int]@;
            assert(sum =~= Seq::new(
                blank.len(),
                |w: int| if start as int / 64 <= w < entry@.len() { entry@[w] ^ pivot@[w] } else { blank[w] },
            ));
            assert forall|k: int| 0 <= k < count + j + 1 implies (#[trigger] keys@[k]) <= low_mask(width as int)
                && is_table_entry(a, n, start as int, width as int, keys@[k], table@[keys@[k] as int]@) by {
                if k < count + j {
                    assert(keys@[k] == keys_before[k]);
                    assert(is_table_entry(
                        a,
                        n,
                        start as int,
                        width as int,
                        keys_before[k],
                        table_before[keys_before[k] as int]@,
                    ));
                    if keys@[k] != sum_key {
                        assert(table@[keys@[k] as int] == table_before[keys@[k] as int]);
                    }
                }
            }
            assert forall|r: int| 0 <= r < table@.len() implies (#[trigger] table@[r])@.len() == num_words
                && forall|w: int| 0 <= w < first_word && w < num_words ==> table@[r]@[w] == 0 by {
                if r != sum_key {
                    assert(table@[r] == table_before[r]);
                }
            }
        }
        j += 1;
    }
    proof {
        lemma_cover_step(old(keys)@, keys@, field, width as int, i as int, count as int);
    }
}

/// The table entry with key zero is the zero row: a sum of pivot rows
/// that selects any has an entry in the column of the first it selects.
proof fn lemma_zero_key_entry(a: Seq<Seq<bool>>, n: nat, start: int, width: int, words: Seq<u64>)
    requires
        is_bit_matrix(a, n),
        0 <= start,
        0 <= width <= 64,
        start + width <= a.len(),
        start + width <= n,
        pivot_rows(a, diagonal((start + width) as nat)),
        is_table_entry(a, n, start, width, 0, words),
    ensures
        forall|c: int| 0 <= c < n ==> !(#[trigger] row_bits(words)[c]),
{
    let coeffs = choose|coeffs: Seq<bool>|
        coeffs.len() == a.len() && selects_within(coeffs, start, start + width) && #[trigger] combination(
            a,
            coeffs,
            n,
        ) == row_bits(words);
    if exists|i: int| 0 <= i < a.len() && coeffs[i] {
        let i0 = lemma_least_selected(coeffs, a.len() as int);
        assert forall|i: int| 0 <= i < a.len() && i != i0 implies !(coeffs[i] && #[trigger] a[i][i0]) by {
            if coeffs[i] {
                assert(leads_at(a[i], diagonal((start + width) as nat)[i]));
            }
        }
        lemma_combination_single(a, coeffs, i0, a.len(), i0);
        assert(leads_at(a[i0], diagonal((start + width) as nat)[i0]));
        assert(combination(a, coeffs, n)[i0] == row_bits(words)[i0]);
        let t = i0 - start;
        assert(row_bits(words)[start + t] == word_bit(0, t));
        lemma_zero_word(t);
        assert(false);
    }
    assert forall|c: int| 0 <= c < n implies !(#[trigger] row_bits(words)[c]) by {
        lemma_combination_single(a, coeffs, c, a.len(), -1);
        assert(combination(a, coeffs, n)[c] == row_bits(words)[c]);
    }
}

/// Builds the lookup table of the block of `width` rows and columns
/// that starts at `start`, whose rows are pivot rows: the entry at index
/// `key` is the sum of pivot rows of the block that has the bits of `key`
/// in the columns of the block, and so the zero row at index zero. The
/// table starts with that row and doubles with each pivot row.
pub(crate) fn build_lookup_table(mat: &Matrix, start: Index, width: Index, size: Index) -> (table: Vec<Row>)
    requires
        mat.wf(),
        1 <= width < 64,
        size == low_mask(width as int) + 1,
        start + width <= mat.row_count(),
        start + width <= mat.bit_col_count(),
        pivot_rows(mat@, diagonal((start + width) as nat)),
    ensures
        table@.len() == size,
        forall|p: u64|
            p <= low_mask(width as int) ==> is_table_entry(
                mat@,
                mat.bit_col_count(),
                start as int,
                width as int,
                p,
                #[trigger] table@[p as int]@,
            ),
        zero_before(row_bits(table@[0]@), mat.bit_col_count() as int),
{
    let num_words: Index = mat.num_words();
    let ghost n = mat.bit_col_count();
    let mut keys: Vec<Word> = zero_row(size);
    let mut table: Vec<Row> = zero_table(size, num_words);
    proof {
        lemma_low_mask_step(0);
        lemma_zero_entry(mat@, n, start as int, width as int, table@[0]@);
        assert forall|p: u64| p <= low_mask(width as int) implies #[trigger] covered(keys@, p, 0, 1) by {
            let m: u64 = low_mask(0);
            let x: u64 = keys@[0];
            assert((x ^ p) & m == 0) by (bit_vector)
                requires
                    m == 0,
            ;
            assert(agree_low(keys@[0], p, 0));
        }
    }
    let mut i: Index = 0;
    while i < width
        invariant
            mat.wf(),
            n == mat.bit_col_count(),
            num_words == mat.word_count(),
            1 <= width < 64,
            i <= width,
            size == low_mask(width as int) + 1,
            start + width <= mat.row_count(),
            start + width <= n,
            pivot_rows(mat@, diagonal((start + width) as nat)),
            keys@.len() == size,
            table@.len() == size,
            table_shape(table@, num_words as int, start as int / 64),
            table_filled(mat@, n, start as int, width as int, keys@, table@, low_mask(i as int) + 1),
            keys_cover(keys@, width as int, i as int, low_mask(i as int) + 1),
        decreases width - i,
    {
        extend_table(mat, start, width, i, &mut keys, &mut table);
        i += 1;
    }
    proof {
        lemma_table_complete(mat@, n, start as int, width as int, keys@, table@, size as int);
        mat.lemma_view_shape();
        assert(is_table_entry(mat@, n, start as int, width as int, 0, table@[0u64 as int]@));
        lemma_zero_key_entry(mat@, n, start as int, width as int, table@[0]@);
    }
    table
}

/// Clears the columns of a block from every row below it: each row gets
/// added the table entry whose key is what the row holds in those
/// columns.
pub(crate) fn reduce_below_block(mat: &mut Matrix, table: &Vec<Row>, start: Index, width: Index)
    requires
        old(mat).wf(),
        1 <= width < 64,
        start + width <= old(mat).row_count(),
        start + width <= old(mat).bit_col_count(),
        table@.len() == low_mask(width as int) + 1,
        forall|p: u64|
            p <= low_mask(width as int) ==> is_table_entry(
                old(mat)@,
                old(mat).bit_col_count(),
                start as int,
                width as int,
                p,
                #[trigger] table@[p as int]@,
            ),
        block_rows_clear(old(mat)@, start as int, width as int),
        zero_below(old(mat)@, start + width, start as int),
    ensures
        final(mat).wf(),
        final(mat).word_count() == old(mat).word_count(),
        final(mat).row_count() == old(mat).row_count(),
        same_row_space(old(mat)@, final(mat)@, old(mat).bit_col_count()),
        same_rows_before(old(mat)@, final(mat)@, start + width),
        zero_below(final(mat)@, start + width, start + width),
{
    let num_rows: Index = mat.num_rows() as Index;
    let first_word: Index = start / WORD_SIZE;
    let ghost n = mat.bit_col_count();
    let ghost a = mat@;
    let size: Index = table.len();
    let mut r: Index = start + width;
    proof {
        old(mat).lemma_view_shape();
    }
    while r < num_rows
        invariant
            mat.wf(),
            mat.word_count() == old(mat).word_count(),
            mat.row_count() == old(mat).row_count(),
            n == old(mat).bit_col_count(),
            a == old(mat)@,
            a.len() == num_rows,
            is_bit_matrix(a, n),
            num_rows == mat.row_count(),
            first_word == start / 64,
            1 <= width < 64,
            start + width <= r <= num_rows,
            start + width <= n,
            table@.len() == size == low_mask(width as int) + 1,
            forall|p: u64|
                p <= low_mask(width as int) ==> is_table_entry(
                    a,
                    n,
                    start as int,
                    width as int,
                    p,
                    #[trigger] table@[p as int]@,
                ),
            block_rows_clear(a, start as int, width as int),
            same_row_space(a, mat@, n),
            same_rows_before(a, mat@, start + width),
            zero_below(mat@, start + width, start as int),
            forall|i: int| start + width <= i < r ==> zero_before(#[trigger] mat@[i], start + width),
        decreases num_rows - r,
    {
        let ghost before = mat@;
        proof {
            mat.lemma_view_shape();
        }
        let key: Word = get_bits(mat.row(r), start, width);
        let entry: &Row = &table[key as usize];
        let ghost words = entry@;
        proof {
            assert(is_table_entry(a, n, start as int, width as int, key, table@[key as int]@));
            assert(words == table@[key as int]@);
            let coeffs = choose|coeffs: Seq<bool>|
                coeffs.len() == a.len() && selects_within(coeffs, start as int, start + width)
                    && #[trigger] combination(a, coeffs, n) == row_bits(words);
            assert forall|col: int| 0 <= col < n implies combination_bit(before, coeffs, col, before.len())
                == row_bits(words)[col] by {
                lemma_combination_within(a, before, coeffs, start as int, start + width, col, a.len());
                assert(combination(a, coeffs, n)[col] == row_bits(words)[col]);
            }
            assert(combination(before, coeffs, n) =~= row_bits(words));
            assert forall|col: int| 0 <= col < first_word * 64 && col < row_bits(words).len() implies !row_bits(
                words,
            )[col] by {
                lemma_block_sum_clear(a, start as int, width as int, coeffs, col);
                assert(combination(a, coeffs, n)[col] == row_bits(words)[col]);
            }
            lemma_add_combination(before, n, r as int, coeffs);
            lemma_same_row_space_trans(a, before, before.update(r as int, xor_vec(before[r as int], row_bits(words))), n);
            assert forall|col: int| 0 <= col < start implies !(#[trigger] row_bits(words)[col]) by {
                lemma_block_sum_clear(a, start as int, width as int, coeffs, col);
                assert(combination(a, coeffs, n)[col] == row_bits(words)[col]);
            }
        }
        add_vector_from(mat, r, entry, first_word);
        proof {
            assert(zero_before(before[r as int], start as int));
            assert forall|col: int| 0 <= col < start + width && col < mat@[r as int].len() implies !mat@[r as int][col] by {
                if col >= start {
                    let t = col - start;
                    assert(word_bit(key, t) == before[r as int][start + t]);
                    assert(row_bits(words)[start + t] == word_bit(key, t));
                }
            }
            assert forall|i: int| start + width <= i < mat@.len() implies zero_before(
                #[trigger] mat@[i],
                start as int,
            ) by {
                if i != r {
                    assert(mat@[i] == before[i]);
                    assert(zero_before(before[i], start as int));
                }
            }
            assert forall|i: int| start + width <= i < r + 1 implies zero_before(
                #[trigger] mat@[i],
                start + width,
            ) by {
                if i != r {
                    assert(mat@[i] == before[i]);
                    assert(zero_before(before[i], start + width));
                }
            }
        }
        r += 1;
    }
    proof {
        assert forall|i: int| start + width <= i < mat@.len() implies zero_before(
            #[trigger] mat@[i],
            start + width,
        ) by {}
    }
}

} // verus!
