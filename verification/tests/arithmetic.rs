use four_russians::arithmetic::{add_rows, dot, dot_gf2, trunc_dot_gf2};

#[test]
fn dot_test() {
    let dot1 = dot(&[1, 2], &[3, 4]);
    let dot2 = dot(&vec![1, 2], &vec![3, 4]);
    assert_eq!(11, dot1);
    assert_eq!(dot1, dot2);
}

#[test]
fn dotgf2_test() {
    let dot1 = dot_gf2(&[1, 2], &[3, 3]);
    let dot2 = dot_gf2(&vec![1, 2], &vec![3, 3]);
    assert_eq!(0, dot1);
    assert_eq!(dot1, dot2);
}

#[test]
fn trunc_dot_gf2_test() {
    let dot1 = trunc_dot_gf2(&[7, 1, 2], &[7, 3, 3], 1, 2);
    let dot2 = trunc_dot_gf2(&vec![7, 1, 2], &vec![7, 3, 3], 1, 3);
    assert_eq!(1, dot1);
    assert_eq!(0, dot2);
}

#[test]
fn add_rows_test() {
    let row0 = &mut [0, 0, 0];
    let row7 = &[7, 7, 7];
    let row3 = &[3, 3, 3];
    add_rows(row0, row7, row3, 1, 3);
    assert_eq!(row0, &[0, 4, 4])
}

#[test]
fn dot_of_empty_rows_is_zero() {
    let empty: [u64; 0] = [];
    assert_eq!(0, dot(&empty, &empty));
    assert_eq!(0, dot_gf2(&empty, &empty));
}

#[test]
fn dot_reaches_the_largest_word() {
    assert_eq!(u64::MAX, dot(&[u64::MAX, 5], &[1, 0]));
    assert_eq!(u64::MAX, dot(&[0xffff_ffff, 0xffff_ffff], &[0xffff_ffff, 2]));
}

#[test]
fn dot_gf2_counts_common_bits() {
    // One common bit in each of the two words, then all 64 in a third.
    assert_eq!(0, dot_gf2(&[0b0110, 0b1000], &[0b0011, 0b1000]));
    assert_eq!(1, dot_gf2(&[0b0110, 0b1000], &[0b0011, 0b0111]));
    assert_eq!(0, dot_gf2(&[u64::MAX], &[u64::MAX]));
    assert_eq!(1, dot_gf2(&[u64::MAX], &[u64::MAX >> 1]));
    assert_eq!(1, dot_gf2(&[1 << 63], &[1 << 63]));
}

#[test]
fn dot_gf2_counts_bits_and_not_values() {
    // The common bits make the even words 2 and 4, with one bit each,
    // and the odd word 3, with two.
    assert_eq!(1, dot_gf2(&[2], &[2]));
    assert_eq!(1, dot_gf2(&[4], &[6]));
    assert_eq!(0, dot_gf2(&[3], &[7]));
    assert_eq!(0, dot_gf2(&[6], &[7]));
    assert_eq!(1, dot_gf2(&[7], &[7]));
}

#[test]
fn trunc_dot_gf2_of_empty_range_is_zero() {
    assert_eq!(0, trunc_dot_gf2(&[7, 1, 2], &[7, 3, 3], 2, 2));
    assert_eq!(0, trunc_dot_gf2(&[7, 1, 2], &[7, 3, 3], 3, 1));
    assert_eq!(1, trunc_dot_gf2(&[7, 1, 2], &[7, 3, 3], 0, 1));
}

#[test]
fn add_rows_leaves_words_outside_the_range() {
    let mut a = vec![9u64, 9, 9, 9];
    add_rows(&mut a, &[1, 2, 4, 8], &[1, 1, 1, 1], 1, 3);
    assert_eq!(a, vec![9, 3, 5, 9]);
    add_rows(&mut a, &[1, 2, 4, 8], &[1, 1, 1, 1], 3, 1);
    assert_eq!(a, vec![9, 3, 5, 9]);
}
