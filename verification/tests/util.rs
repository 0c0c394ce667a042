use four_russians::util::{ceil_div, ceil_rem, log_2, WORD_SIZE};

#[test]
fn ceil_div_rounds_up() {
    assert_eq!(0, ceil_div(0, 5));
    assert_eq!(1, ceil_div(1, 5));
    assert_eq!(1, ceil_div(5, 5));
    assert_eq!(2, ceil_div(6, 5));
    assert_eq!(2, ceil_div(128, 64));
    assert_eq!(3, ceil_div(129, 64));
    assert_eq!(usize::MAX, ceil_div(usize::MAX, 1));
    assert_eq!(usize::MAX / 2 + 1, ceil_div(usize::MAX, 2));
}

#[test]
fn ceil_rem_counts_the_last_block() {
    assert_eq!(5, ceil_rem(0, 5));
    assert_eq!(1, ceil_rem(1, 5));
    assert_eq!(5, ceil_rem(5, 5));
    assert_eq!(1, ceil_rem(6, 5));
    assert_eq!(64, ceil_rem(128, 64));
    assert_eq!(63, ceil_rem(127, 64));
    assert_eq!(1, ceil_rem(7, 1));
}

#[test]
fn log_2_is_the_floor_of_the_logarithm() {
    assert_eq!(0, log_2(1));
    assert_eq!(1, log_2(2));
    assert_eq!(1, log_2(3));
    assert_eq!(2, log_2(4));
    assert_eq!(4, log_2(31));
    assert_eq!(5, log_2(32));
    assert_eq!(5, log_2(63));
    assert_eq!(10, log_2(1024));
    assert_eq!(31, log_2(0xffff_ffff));
}

#[test]
fn word_size_is_the_width_of_a_word() {
    assert_eq!(64, WORD_SIZE);
    assert_eq!(u64::BITS as usize, WORD_SIZE);
}
