//! Single bits of machine words, and how the bitwise operators act on them.

use vstd::prelude::*;

verus! {

/// Bit `i` of `w`, counted from the least significant bit.
pub open spec fn word_bit(w: u64, i: int) -> bool {
    (w >> (i as u64)) & 1 == 1
}

/// The bits of a row of words, word after word, each word from its least
/// significant bit: bit `c` of the row is bit `c % 64` of word `c / 64`.
pub open spec fn row_bits(words: Seq<u64>) -> Seq<bool> {
    Seq::new(words.len() * 64, |c: int| word_bit(words[c / 64], c % 64))
}

/// No bit of the zero word is set.
pub proof fn lemma_zero_word(i: int)
    requires
        0 <= i < 64,
    ensures
        !word_bit(0, i),
{
    let s: u64 = i as u64;
    assert((0u64 >> s) & 1 == 0) by (bit_vector);
}

/// XOR of words is XOR of their bits.
pub proof fn lemma_xor_bit(a: u64, b: u64, i: int)
    requires
        0 <= i < 64,
    ensures
        word_bit(a ^ b, i) == (word_bit(a, i) != word_bit(b, i)),
{
    let s: u64 = i as u64;
    assert((((a ^ b) >> s) & 1 == 1) == (((a >> s) & 1 == 1) != ((b >> s) & 1 == 1))) by (bit_vector);
}

/// AND of words is AND of their bits.
pub proof fn lemma_and_bit(a: u64, b: u64, i: int)
    requires
        0 <= i < 64,
    ensures
        word_bit(a & b, i) == (word_bit(a, i) && word_bit(b, i)),
{
    let s: u64 = i as u64;
    assert((((a & b) >> s) & 1 == 1) == (((a >> s) & 1 == 1) && ((b >> s) & 1 == 1))) by (bit_vector);
}

/// Masking with a single shifted one tests the bit at that place.
pub proof fn lemma_probe_bit(w: u64, i: int)
    requires
        0 <= i < 64,
    ensures
        (w & (1u64 << (i as u64)) != 0) == word_bit(w, i),
{
    let s: u64 = i as u64;
    assert((w & (1u64 << s) != 0) == ((w >> s) & 1 == 1)) by (bit_vector)
        requires
            s < 64,
    ;
}

/// Mask that keeps the lowest `width` bits of a word.
pub open spec fn low_mask(width: int) -> u64 {
    if width < 64 {
        ((1u64 << (width as u64)) - 1) as u64
    } else {
        0xffff_ffff_ffff_ffffu64
    }
}

/// The `width` bits that start at bit `offset` of the double word `hi:lo`,
/// moved down to bit 0.
pub open spec fn field_word(lo: u64, hi: u64, offset: int, width: int) -> u64 {
    if offset + width > 64 {
        ((lo >> (offset as u64)) ^ (hi << ((64 - offset) as u64))) & low_mask(width)
    } else {
        (lo >> (offset as u64)) & low_mask(width)
    }
}

/// Bit `t` of a field is bit `offset + t` of the double word it was cut
/// from, and no bit at or above the field's width is set.
pub proof fn lemma_field_bit(lo: u64, hi: u64, offset: int, width: int, t: int)
    requires
        0 <= offset < 64,
        1 <= width <= 64,
        0 <= t < 64,
    ensures
        word_bit(field_word(lo, hi, offset, width), t) == (t < width && if offset + t < 64 {
            word_bit(lo, offset + t)
        } else {
            word_bit(hi, offset + t - 64)
        }),
{
    let o: u64 = offset as u64;
    let w: u64 = width as u64;
    let s: u64 = t as u64;
    let m: u64 = low_mask(width);
    let f: u64 = field_word(lo, hi, offset, width);
    assert(w < 64 ==> ((m >> s) & 1 == 1) == (s < w)) by (bit_vector)
        requires
            s < 64,
            w < 64 ==> m == ((1u64 << w) - 1) as u64,
    ;
    assert(w == 64 ==> (m >> s) & 1 == 1) by (bit_vector)
        requires
            s < 64,
            w == 64 ==> m == 0xffff_ffff_ffff_ffffu64,
    ;
    assert(word_bit(m, t) == (t < width));
    if offset + width > 64 {
        let raw: u64 = (lo >> o) ^ (hi << ((64 - o) as u64));
        assert(f == raw & m);
        lemma_and_bit(raw, m, t);
        if offset + t < 64 {
            let os: u64 = (offset + t) as u64;
            assert((raw >> s) & 1 == (lo >> os) & 1) by (bit_vector)
                requires
                    0 < o < 64,
                    s < 64,
                    o + s < 64,
                    os == o + s,
                    raw == (lo >> o) ^ (hi << ((64 - o) as u64)),
            ;
        } else {
            let os: u64 = (offset + t - 64) as u64;
            assert((raw >> s) & 1 == (hi >> os) & 1) by (bit_vector)
                requires
                    0 < o < 64,
                    s < 64,
                    o + s >= 64,
                    os == o + s - 64,
                    raw == (lo >> o) ^ (hi << ((64 - o) as u64)),
            ;
        }
    } else {
        let raw: u64 = lo >> o;
        assert(f == raw & m);
        lemma_and_bit(raw, m, t);
        if t < width {
            let os: u64 = (offset + t) as u64;
            assert((raw >> s) & 1 == (lo >> os) & 1) by (bit_vector)
                requires
                    o < 64,
                    s < 64,
                    o + s < 64,
                    os == o + s,
                    raw == lo >> o,
            ;
        }
    }
}

/// The mask of `width` bits is one less than a power of two, and the
/// mask of one bit more is twice as large and one more.
pub proof fn lemma_low_mask_step(width: int)
    requires
        0 <= width < 63,
    ensures
        low_mask(width) + 1 == 1u64 << (width as u64),
        low_mask(width + 1) == 2 * low_mask(width) + 1,
        low_mask(0) == 0,
{
    let w: u64 = width as u64;
    let w1: u64 = (width + 1) as u64;
    assert((1u64 << w) >= 1 && (1u64 << w1) == 2 * (1u64 << w) && (1u64 << w) <= 0x4000_0000_0000_0000u64) by (bit_vector)
        requires
            w < 63,
            w1 == w + 1,
    ;
    assert((1u64 << 0u64) == 1) by (bit_vector);
}

/// A wider mask is at least as large.
pub proof fn lemma_low_mask_increases(i: int, c: int)
    requires
        0 <= i <= c < 64,
    ensures
        low_mask(i) <= low_mask(c),
    decreases c - i,
{
    if i < c {
        lemma_low_mask_step(i);
        lemma_low_mask_increases(i + 1, c);
    }
}

/// A word that has none of its lowest `i` bits set is zero under the
/// mask of `i` bits.
pub proof fn lemma_low_bits_clear(x: u64, i: int)
    requires
        0 <= i < 64,
        forall|t: int| 0 <= t < i ==> !word_bit(x, t),
    ensures
        x & low_mask(i) == 0,
    decreases i,
{
    if i == 0 {
        assert(x & (((1u64 << 0u64) - 1) as u64) == 0) by (bit_vector);
    } else {
        lemma_low_bits_clear(x, i - 1);
        let m0: u64 = low_mask(i - 1);
        let m1: u64 = low_mask(i);
        let s: u64 = (i - 1) as u64;
        assert(!word_bit(x, i - 1));
        assert(x & m1 == 0) by (bit_vector)
            requires
                s < 63,
                m0 == ((1u64 << s) - 1) as u64,
                m1 == ((1u64 << ((s + 1) as u64)) - 1) as u64,
                x & m0 == 0,
                (x >> s) & 1 != 1,
        ;
    }
}

/// Two words that agree in their lowest `i` bits either agree in bit
/// `i` as well, or do so once a word is added to one of them that has
/// bit `i` as its lowest set bit.
pub proof fn lemma_agree_step(a: u64, p: u64, v: u64, i: int)
    requires
        0 <= i < 63,
        (a ^ p) & low_mask(i) == 0,
        v & low_mask(i) == 0,
        word_bit(v, i),
    ensures
        word_bit(a ^ p, i) ==> ((a ^ v) ^ p) & low_mask(i + 1) == 0,
        !word_bit(a ^ p, i) ==> (a ^ p) & low_mask(i + 1) == 0,
{
    let m0: u64 = low_mask(i);
    let m1: u64 = low_mask(i + 1);
    let s: u64 = i as u64;
    assert((((a ^ p) >> s) & 1 == 1 ==> ((a ^ v) ^ p) & m1 == 0) && (((a ^ p) >> s) & 1 != 1 ==> (a ^ p) & m1
        == 0)) by (bit_vector)
        requires
            s < 63,
            m0 == ((1u64 << s) - 1) as u64,
            m1 == ((1u64 << ((s + 1) as u64)) - 1) as u64,
            (a ^ p) & m0 == 0,
            v & m0 == 0,
            (v >> s) & 1 == 1,
    ;
}

/// Two words below a power of two that agree in all bits below it are
/// equal, and the sum of two such words is below it too.
pub proof fn lemma_below_mask(a: u64, p: u64, c: int)
    requires
        0 <= c < 64,
        a <= low_mask(c),
        p <= low_mask(c),
    ensures
        a ^ p <= low_mask(c),
        (a ^ p) & low_mask(c) == 0 ==> a == p,
{
    let m: u64 = low_mask(c);
    let s: u64 = c as u64;
    assert(a ^ p <= m && ((a ^ p) & m == 0 ==> a == p)) by (bit_vector)
        requires
            s < 64,
            m == ((1u64 << s) - 1) as u64,
            a <= m,
            p <= m,
    ;
}

/// A field of `width` bits is at most the mask of that width.
pub proof fn lemma_field_bound(lo: u64, hi: u64, offset: int, width: int)
    requires
        0 <= offset < 64,
        1 <= width <= 64,
    ensures
        field_word(lo, hi, offset, width) <= low_mask(width),
{
    let m: u64 = low_mask(width);
    let x: u64 = (lo >> (offset as u64)) ^ (hi << ((64 - offset) as u64));
    let y: u64 = lo >> (offset as u64);
    assert(x & m <= m && y & m <= m) by (bit_vector);
}

/// Two words with the same bits are equal.
pub proof fn lemma_word_extensional(a: u64, b: u64)
    requires
        forall|t: int| 0 <= t < 64 ==> word_bit(a, t) == word_bit(b, t),
    ensures
        a == b,
{
    let x: u64 = a ^ b;
    assert forall|t: int| 0 <= t < 64 implies !word_bit(x, t) by {
        lemma_xor_bit(a, b, t);
    }
    lemma_low_bits_clear(x, 63);
    let m: u64 = low_mask(63);
    assert(!word_bit(x, 63));
    assert(a == b) by (bit_vector)
        requires
            x == a ^ b,
            m == ((1u64 << 63u64) - 1) as u64,
            x & m == 0,
            (x >> 63u64) & 1 != 1,
    ;
}

} // verus!
