use four_russians::matrix::Matrix;
use four_russians::render::{four_russians_mat_text, gf2_mat_text};

fn text_of(chars: Vec<char>) -> String {
    chars.into_iter().collect()
}

#[test]
fn words_are_written_from_the_lowest_bit() {
    let mat = Matrix::new(2, 1, vec![vec![0b1011], vec![1 << 63]]).unwrap();
    let first = format!("[ 1101{} ]\n", "0".repeat(60));
    let second = format!("[ {}1 ]\n", "0".repeat(63));
    assert_eq!(format!("{}{}", first, second), text_of(gf2_mat_text(&mat)));
}

#[test]
fn each_word_is_followed_by_a_gap() {
    let mat = Matrix::new(1, 2, vec![vec![1, 2]]).unwrap();
    let expected = format!("[ 1{} 01{} ]\n", "0".repeat(63), "0".repeat(62));
    assert_eq!(expected, text_of(gf2_mat_text(&mat)));
}

#[test]
fn each_chunk_is_followed_by_a_bar() {
    let mat = Matrix::new(1, 1, vec![vec![0b0110_0101]]).unwrap();
    let text = text_of(four_russians_mat_text(16, &mat));
    let expected = format!("[ 1010011000000000|{z}|{z}|{z} |]\n", z = "0".repeat(16));
    assert_eq!(expected, text);
}

#[test]
fn chunks_need_not_divide_a_word() {
    let mat = Matrix::new(1, 2, vec![vec![u64::MAX, 0]]).unwrap();
    let text = text_of(four_russians_mat_text(5, &mat));
    let mut expected = String::from("[ ");
    for i in 1..=128 {
        expected.push(if i <= 64 { '1' } else { '0' });
        if i % 64 == 0 {
            expected.push(' ');
        }
        if i % 5 == 0 {
            expected.push('|');
        }
    }
    expected.push_str("]\n");
    assert_eq!(expected, text);
    assert_eq!(2 + 128 + 2 + 25 + 2, text.len());
}

#[test]
fn matrices_without_rows_or_columns_have_short_texts() {
    let none = Matrix::new(0, 3, Vec::new()).unwrap();
    assert_eq!("", text_of(gf2_mat_text(&none)));
    assert_eq!("", text_of(four_russians_mat_text(3, &none)));
    let narrow = Matrix::new(2, 0, vec![vec![], vec![]]).unwrap();
    assert_eq!("[ ]\n[ ]\n", text_of(gf2_mat_text(&narrow)));
    assert_eq!("[ ]\n[ ]\n", text_of(four_russians_mat_text(1, &narrow)));
}
