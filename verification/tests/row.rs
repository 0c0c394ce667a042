use four_russians::error::MatrixError;
use four_russians::row::{get_bit, get_bits, update_add_rows, Bit};

#[test]
fn bit_reads_from_the_least_significant_end() {
    let row: Vec<u64> = vec![0b101, 1 << 63];
    assert_eq!(Ok(true), row.bit(0));
    assert_eq!(Ok(false), row.bit(1));
    assert_eq!(Ok(true), row.bit(2));
    assert_eq!(Ok(false), row.bit(63));
    assert_eq!(Ok(false), row.bit(64));
    assert_eq!(Ok(true), row.bit(127));
}

#[test]
fn bit_past_the_end_is_an_index_error() {
    let row: Vec<u64> = vec![0b101, 1 << 63];
    assert_eq!(Err(MatrixError::Index), row.bit(128));
    assert_eq!(Err(MatrixError::Index), row.bit(usize::MAX));
    let empty: Vec<u64> = Vec::new();
    assert_eq!(Err(MatrixError::Index), empty.bit(0));
}

#[test]
fn bits_inside_one_word() {
    let row: Vec<u64> = vec![0b1011_0110, 0];
    assert_eq!(Ok(0b0110), row.bits(0, 4));
    assert_eq!(Ok(0b011), row.bits(1, 3));
    assert_eq!(Ok(0b1011), row.bits(4, 4));
    assert_eq!(Ok(0b1), row.bits(7, 1));
    assert_eq!(Ok(0b1011_0110), row.bits(0, 64));
    assert_eq!(Ok(0), row.bits(64, 64));
}

#[test]
fn bits_across_two_words() {
    let row: Vec<u64> = vec![0b11 << 62, 0b101];
    // Bits 62 and 63 of the first word, then bits 0 to 2 of the second.
    assert_eq!(Ok(0b10111), row.bits(62, 5));
    assert_eq!(Ok(0b0111), row.bits(62, 4));
    assert_eq!(Ok(0b1011), row.bits(63, 4));
    assert_eq!(Ok(0b101), row.bits(64, 3));
    assert_eq!(Ok((0b101 << 1) | 1), row.bits(63, 64));
    let all: Vec<u64> = vec![u64::MAX, u64::MAX];
    assert_eq!(Ok(u64::MAX), all.bits(1, 64));
    assert_eq!(Ok(u64::MAX >> 1), all.bits(33, 63));
}

#[test]
fn bits_out_of_range_is_an_index_error() {
    let row: Vec<u64> = vec![7, 7];
    assert_eq!(Err(MatrixError::Index), row.bits(0, 0));
    assert_eq!(Err(MatrixError::Index), row.bits(0, 65));
    assert_eq!(Err(MatrixError::Index), row.bits(127, 2));
    assert_eq!(Err(MatrixError::Index), row.bits(128, 1));
    assert_eq!(Err(MatrixError::Index), row.bits(usize::MAX, 1));
    assert_eq!(Err(MatrixError::Index), row.bits(usize::MAX, 64));
    assert_eq!(Ok(0), row.bits(127, 1));
    assert_eq!(Ok(7), row.bits(64, 64));
}

#[test]
fn bits_round_trips_with_bit() {
    let row: Vec<u64> = vec![0x0123_4567_89ab_cdef, 0xfedc_ba98_7654_3210, 0xdead_beef_0bad_f00d];
    for start in 0..192usize {
        for width in 1..=64usize {
            if start + width > 192 {
                assert_eq!(Err(MatrixError::Index), row.bits(start, width));
                continue;
            }
            let field = row.bits(start, width).unwrap();
            for t in 0..64usize {
                let expected = t < width && row.bit(start + t).unwrap();
                assert_eq!(expected, (field >> t) & 1 == 1);
            }
        }
    }
}

#[test]
fn get_bit_and_get_bits_agree_with_the_trait() {
    let row: Vec<u64> = vec![0xf0f0_f0f0_f0f0_f0f0, 0x0000_ffff_0000_ffff];
    for i in 0..128usize {
        assert_eq!(row.bit(i), Ok(get_bit(&row, i)));
    }
    assert_eq!(row.bits(60, 8), Ok(get_bits(&row, 60, 8)));
    assert_eq!(0xff, get_bits(&row, 60, 8));
}

#[test]
fn update_add_rows_writes_the_sum_over_the_range() {
    let mut dst: Vec<u64> = vec![0, 0, 0];
    update_add_rows(&mut dst, &vec![7, 7, 7], &vec![3, 3, 3], 1, 3);
    assert_eq!(dst, vec![0, 4, 4]);
    update_add_rows(&mut dst, &vec![7, 7, 7], &vec![3, 3, 3], 2, 2);
    assert_eq!(dst, vec![0, 4, 4]);
    update_add_rows(&mut dst, &vec![1, 1, 1], &vec![1, 0, 1], 0, 1);
    assert_eq!(dst, vec![0, 4, 4]);
    update_add_rows(&mut dst, &vec![1, 1, 1], &vec![1, 0, 1], 0, 2);
    assert_eq!(dst, vec![0, 1, 4]);
}
