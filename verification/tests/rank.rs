use four_russians::error::MatrixError;
use four_russians::matrix::Matrix;
use four_russians::rank::{four_russians_rank, four_russians_rank_with};

/// Rank by plain elimination on a copy, one column after the other,
/// with row swaps.
fn reference_rank(rows: &Vec<Vec<u64>>, num_words: usize) -> u32 {
    let mut rows = rows.clone();
    let mut rank = 0;
    for col in 0..num_words * 64 {
        let (word, bit) = (col / 64, col % 64);
        let pivot = (rank..rows.len()).find(|&j| (rows[j][word] >> bit) & 1 == 1);
        if let Some(p) = pivot {
            rows.swap(rank, p);
            let pivot_row = rows[rank].clone();
            for j in 0..rows.len() {
                if j != rank && (rows[j][word] >> bit) & 1 == 1 {
                    for w in 0..num_words {
                        rows[j][w] ^= pivot_row[w];
                    }
                }
            }
            rank += 1;
        }
    }
    rank as u32
}

/// A fixed stream of pseudo-random words.
struct Stream(u64);

impl Stream {
    fn next(&mut self) -> u64 {
        self.0 ^= self.0 << 13;
        self.0 ^= self.0 >> 7;
        self.0 ^= self.0 << 17;
        self.0
    }
}

/// A matrix of the given shape whose rows are drawn from at most
/// `independent` random rows, so that ranks of all sizes occur.
fn random_rows(stream: &mut Stream, num_rows: usize, num_words: usize, independent: usize, used_bits: usize) -> Vec<Vec<u64>> {
    let mut basis: Vec<Vec<u64>> = Vec::new();
    for _ in 0..independent {
        let mut row = vec![0u64; num_words];
        for bit in 0..used_bits.min(num_words * 64) {
            if stream.next() & 1 == 1 {
                row[bit / 64] |= 1 << (bit % 64);
            }
        }
        basis.push(row);
    }
    let mut rows = Vec::new();
    for _ in 0..num_rows {
        let mut row = vec![0u64; num_words];
        let choice = stream.next();
        for (i, b) in basis.iter().enumerate() {
            if (choice >> (i % 64)) & 1 == 1 {
                for w in 0..num_words {
                    row[w] ^= b[w];
                }
            }
        }
        rows.push(row);
    }
    rows
}

fn rank_of(rows: &Vec<Vec<u64>>, num_words: usize) -> u32 {
    let mut mat = Matrix::new(rows.len(), num_words, rows.clone()).unwrap();
    four_russians_rank(&mut mat)
}

fn rank_with(rows: &Vec<Vec<u64>>, num_words: usize, width: usize) -> u32 {
    let mut mat = Matrix::new(rows.len(), num_words, rows.clone()).unwrap();
    four_russians_rank_with(&mut mat, width).unwrap()
}

fn sample_rows() -> Vec<Vec<u64>> {
    vec![
        vec![2, 2],
        vec![4, 5],
        vec![7, 28],
        vec![31, 13],
        vec![127, 5011],
        vec![3456, 255],
        vec![123456, 78910],
        vec![666, 666666],
        vec![11166744151617181920, 11121314847317181920],
        vec![11121314234517181920, 11123854151617181920],
        vec![15536314151617181920, 12342344151617181920],
        vec![11121314198647181920, 11121314151901281920],
        vec![17733314151617181920, 11121314151617181234],
        vec![11121334151617181920, 11958314151432081920],
        vec![11121314151617181234, 11121314151617183253],
        vec![11122344151617181920, 11121314151689321920],
        vec![11121314151617590420, 11123424151617181920],
        vec![11121314151695861920, 1112131415138581920],
        vec![11121319090161718120, 16221314151617181920],
        vec![18390314151617181920, 11112344151617181920],
        vec![11121312291617181920, 11121311230617181920],
        vec![12345313453617181920, 18341314151617181920],
        vec![11121312201617181920, 11121314151612312920],
        vec![17121314151617181920, 11121323451617181920],
        vec![11121314151933381920, 11121314151349181920],
        vec![11125963151617181920, 11121314151619085920],
        vec![11121313859617181920, 11289534151617181920],
        vec![11121393485617181920, 11121314151937581920],
        vec![11132454151617181920, 11196744151617181920],
        vec![11121314169737181920, 11121314123487181920],
        vec![11188844151617181920, 11139774151617181920],
        vec![11121314128357181920, 11121314151698524920],
    ]
}

/// Whether the rows are in row echelon form with `rank` nonzero rows.
fn is_echelon(rows: &Vec<Vec<u64>>, rank: usize) -> bool {
    let lead = |row: &Vec<u64>| row.iter().enumerate().find(|(_, w)| **w != 0).map(|(i, w)| i * 64 + w.trailing_zeros() as usize);
    let mut last: Option<usize> = None;
    for (i, row) in rows.iter().enumerate() {
        match lead(row) {
            None => {
                if i < rank {
                    return false;
                }
            }
            Some(c) => {
                if i >= rank || last.map_or(false, |l| l >= c) {
                    return false;
                }
                last = Some(c);
            }
        }
    }
    true
}

#[test]
fn two_independent_rows_have_rank_two() {
    assert_eq!(2, rank_of(&vec![vec![1], vec![2]], 1));
}

#[test]
fn two_equal_rows_have_rank_one() {
    assert_eq!(1, rank_of(&vec![vec![3], vec![3]], 1));
}

#[test]
fn sample_matrix_has_full_rank() {
    let rows = sample_rows();
    assert_eq!(32, reference_rank(&rows, 2));
    assert_eq!(32, rank_of(&rows, 2));
}

#[test]
fn sample_matrix_with_two_zero_rows_has_lower_rank() {
    let mut rows = sample_rows();
    rows[3] = vec![0, 0];
    rows[17] = vec![0, 0];
    assert_eq!(30, rank_of(&rows, 2));
    assert!(rank_of(&rows, 2) < 32);
}

#[test]
fn sparse_matrix_has_rank_two() {
    let mut rows = vec![vec![0u64, 0]; 32];
    rows[17] = vec![0, 11121312291617181920];
    rows[19] = vec![0, 11121312234598345340];
    assert_eq!(2, rank_of(&rows, 2));
}

#[test]
fn zero_matrix_has_rank_zero() {
    for &(m, n) in &[(0usize, 0usize), (0, 3), (1, 1), (5, 0), (7, 2), (40, 1), (100, 3)] {
        let rows = vec![vec![0u64; n]; m];
        assert_eq!(0, rank_of(&rows, n));
        for width in 0..8 {
            assert_eq!(0, rank_with(&rows, n, width));
        }
    }
}

#[test]
fn identity_matrix_has_full_rank() {
    for &n in &[1usize, 2, 3, 5, 16, 63, 64, 65, 100, 130] {
        let num_words = (n + 63) / 64;
        let mut rows = vec![vec![0u64; num_words]; n];
        for i in 0..n {
            rows[i][i / 64] = 1 << (i % 64);
        }
        assert_eq!(n as u32, rank_of(&rows, num_words));
        for width in 0..8 {
            assert_eq!(n as u32, rank_with(&rows, num_words, width));
        }
    }
}

#[test]
fn rank_is_at_most_rows_and_columns() {
    let mut stream = Stream(0x9e37_79b9_7f4a_7c15);
    for &(m, n) in &[(3usize, 1usize), (70, 1), (200, 1), (10, 3), (64, 1), (65, 2), (130, 2)] {
        let rows = random_rows(&mut stream, m, n, m, n * 64);
        let mat = Matrix::new(m, n, rows.clone()).unwrap();
        let rank = rank_of(&rows, n);
        assert!(rank <= mat.num_rows());
        assert!(rank as usize <= mat.num_bit_cols());
        assert_eq!(reference_rank(&rows, n), rank);
    }
}

#[test]
fn tall_random_matrix_fills_its_columns() {
    let mut stream = Stream(42);
    let mut rows = random_rows(&mut stream, 300, 1, 300, 64);
    assert_eq!(reference_rank(&rows, 1), rank_of(&rows, 1));
    for i in 0..64 {
        rows.push(vec![1 << i]);
    }
    assert_eq!(64, rank_of(&rows, 1));
    for width in 0..10 {
        assert_eq!(64, rank_with(&rows, 1, width));
    }
}

#[test]
fn rank_matches_plain_elimination() {
    let mut stream = Stream(0x1234_5678_9abc_def1);
    for &(m, n) in &[(1usize, 1usize), (2, 1), (4, 1), (9, 1), (16, 2), (33, 1), (64, 2), (100, 2), (256, 4)] {
        for &independent in &[0usize, 1, 3, m / 2, m] {
            for &used_bits in &[5usize, 64, n * 64] {
                let rows = random_rows(&mut stream, m, n, independent, used_bits);
                let expected = reference_rank(&rows, n);
                assert_eq!(expected, rank_of(&rows, n));
                assert_eq!(expected, rank_with(&rows, n, 0));
            }
        }
    }
}

#[test]
fn every_block_width_gives_the_same_rank() {
    let mut stream = Stream(7);
    for &(m, n) in &[(5usize, 1usize), (32, 1), (50, 2), (128, 2)] {
        for &independent in &[2usize, m / 2, m] {
            let rows = random_rows(&mut stream, m, n, independent, n * 64);
            let expected = rank_with(&rows, n, 0);
            assert_eq!(expected, reference_rank(&rows, n));
            for width in 1..=12 {
                assert_eq!(expected, rank_with(&rows, n, width));
            }
            assert_eq!(expected, rank_with(&rows, n, 64));
        }
    }
}

#[test]
fn blocks_and_table_are_used() {
    // With the unit rows in order every block is complete, and the rows
    // below are cleared through the table alone.
    let n = 16usize;
    let mut rows = vec![vec![0u64; 1]; 40];
    for i in 0..n {
        rows[i][0] = 1 << i;
    }
    for i in n..40 {
        rows[i][0] = (i as u64 * 2654435761) & 0xffff;
    }
    let mut mat = Matrix::new(40, 1, rows.clone()).unwrap();
    assert_eq!(Ok(16), four_russians_rank_with(&mut mat, 4));
    for i in 0..n {
        assert_eq!(mat.row(i), &rows[i]);
    }
    for i in n..40 {
        assert_eq!(mat.row(i), &vec![0u64]);
    }
}

#[test]
fn rank_is_the_same_after_adding_one_row_to_another() {
    let mut stream = Stream(99);
    for &(m, n) in &[(6usize, 1usize), (40, 1), (70, 2)] {
        let rows = random_rows(&mut stream, m, n, m / 2 + 1, n * 64);
        let expected = rank_of(&rows, n);
        for _ in 0..20 {
            let i = (stream.next() % m as u64) as usize;
            let j = (stream.next() % m as u64) as usize;
            if i == j {
                continue;
            }
            let mut changed = rows.clone();
            for w in 0..n {
                changed[i][w] ^= rows[j][w];
            }
            assert_eq!(expected, rank_of(&changed, n));
            assert_eq!(expected, reference_rank(&changed, n));
        }
    }
}

#[test]
fn rank_is_the_same_after_permuting_rows() {
    let mut stream = Stream(1001);
    for &(m, n) in &[(6usize, 1usize), (40, 1), (70, 2)] {
        let rows = random_rows(&mut stream, m, n, m / 2 + 1, n * 64);
        let expected = rank_of(&rows, n);
        let mut shuffled = rows.clone();
        for _ in 0..5 {
            for i in (1..m).rev() {
                let j = (stream.next() % (i as u64 + 1)) as usize;
                shuffled.swap(i, j);
            }
            assert_eq!(expected, rank_of(&shuffled, n));
        }
        shuffled.reverse();
        assert_eq!(expected, rank_of(&shuffled, n));
    }
}

#[test]
fn second_call_returns_the_same_rank() {
    let mut stream = Stream(555);
    for &(m, n) in &[(2usize, 1usize), (32, 2), (90, 2)] {
        for &independent in &[1usize, m / 3, m] {
            let rows = random_rows(&mut stream, m, n, independent, n * 64);
            let mut mat = Matrix::new(m, n, rows).unwrap();
            let first = four_russians_rank(&mut mat);
            let reduced = mat.rows().clone();
            let second = four_russians_rank(&mut mat);
            assert_eq!(first, second);
            assert_eq!(&reduced, mat.rows());
        }
    }
    let mut mat = Matrix::new(32, 2, sample_rows()).unwrap();
    assert_eq!(32, four_russians_rank(&mut mat));
    assert_eq!(32, four_russians_rank(&mut mat));
}

#[test]
fn matrix_is_left_in_echelon_form() {
    let mut stream = Stream(2024);
    for &(m, n) in &[(3usize, 1usize), (32, 2), (90, 2), (20, 3)] {
        for &independent in &[0usize, 2, m / 2, m] {
            for width in [0usize, 2, 3, 5] {
                let rows = random_rows(&mut stream, m, n, independent, n * 64);
                let mut mat = Matrix::new(m, n, rows.clone()).unwrap();
                let rank = four_russians_rank_with(&mut mat, width).unwrap();
                assert!(is_echelon(mat.rows(), rank as usize));
                assert_eq!((m as u32, n as u32), mat.dimensions());
                assert_eq!(n * 64, mat.num_bit_cols());
                // The reduced rows still span the rows that were given.
                let mut both = mat.rows().clone();
                both.extend(rows.iter().cloned());
                assert_eq!(rank, reference_rank(&both, n));
            }
        }
    }
}

#[test]
fn width_above_a_word_is_a_dimension_error() {
    let rows = vec![vec![1u64], vec![3], vec![7]];
    let mut mat = Matrix::new(3, 1, rows.clone()).unwrap();
    assert_eq!(Err(MatrixError::Dimension), four_russians_rank_with(&mut mat, 65));
    assert_eq!(Err(MatrixError::Dimension), four_russians_rank_with(&mut mat, usize::MAX));
    assert_eq!(mat.rows(), &rows);
    assert_eq!(Ok(3), four_russians_rank_with(&mut mat, 64));
}

#[test]
fn matrices_without_rows_or_columns_have_rank_zero() {
    assert_eq!(0, rank_of(&Vec::new(), 0));
    assert_eq!(0, rank_of(&Vec::new(), 2));
    assert_eq!(0, rank_of(&vec![vec![], vec![], vec![]], 0));
    assert_eq!(1, rank_of(&vec![vec![1 << 63]], 1));
}

#[test]
fn pivot_found_late_in_a_block() {
    // The first block needs rows from further down for both of its pivots.
    let rows = vec![vec![0b1100u64], vec![0b0000], vec![0b0011], vec![0b0001], vec![0b1000]];
    assert_eq!(4, rank_with(&rows, 1, 2));
    assert_eq!(4, rank_with(&rows, 1, 0));
    // Column 0 is empty: the first block cannot be completed.
    let rows = vec![vec![0b1100u64], vec![0b0110], vec![0b0010], vec![0b1000], vec![0b1110]];
    assert_eq!(3, rank_with(&rows, 1, 2));
    assert_eq!(3, rank_with(&rows, 1, 0));
}
