//! Linear algebra over the two-element field, on matrices given as rows
//! of bits: linear combinations, row spaces, pivot columns and rank.

use vstd::prelude::*;

verus! {

/// Every row of `rows` has exactly `n` entries.
pub open spec fn is_bit_matrix(rows: Seq<Seq<bool>>, n: nat) -> bool {
    forall|i: int| 0 <= i < rows.len() ==> (#[trigger] rows[i]).len() == n
}

/// Entrywise sum of two vectors.
pub open spec fn xor_vec(a: Seq<bool>, b: Seq<bool>) -> Seq<bool> {
    Seq::new(a.len(), |c: int| a[c] != b[c])
}

/// The coefficient vector that selects row `j` alone.
pub open spec fn unit_coeffs(len: nat, j: int) -> Seq<bool> {
    Seq::new(len, |i: int| i == j)
}

/// Entrywise sum of two coefficient vectors.
pub open spec fn xor_coeffs(c1: Seq<bool>, c2: Seq<bool>) -> Seq<bool> {
    Seq::new(c1.len(), |i: int| c1[i] != c2[i])
}

/// Entry `col` of the sum of those among the first `k` rows that `coeffs`
/// selects.
pub open spec fn combination_bit(rows: Seq<Seq<bool>>, coeffs: Seq<bool>, col: int, k: nat) -> bool
    decreases k,
{
    if k == 0 {
        false
    } else {
        combination_bit(rows, coeffs, col, (k - 1) as nat) != (coeffs[k - 1] && rows[k - 1][col])
    }
}

/// The sum of the rows that `coeffs` selects, as a vector of `n` entries.
pub open spec fn combination(rows: Seq<Seq<bool>>, coeffs: Seq<bool>, n: nat) -> Seq<bool> {
    Seq::new(n, |c: int| combination_bit(rows, coeffs, c, rows.len()))
}

/// `v` is a sum of rows of the matrix.
pub open spec fn in_row_space(rows: Seq<Seq<bool>>, n: nat, v: Seq<bool>) -> bool {
    exists|coeffs: Seq<bool>| coeffs.len() == rows.len() && #[trigger] combination(rows, coeffs, n) == v
}

/// The two matrices have the same sums of rows.
pub open spec fn same_row_space(a: Seq<Seq<bool>>, b: Seq<Seq<bool>>, n: nat) -> bool {
    forall|v: Seq<bool>| in_row_space(a, n, v) <==> in_row_space(b, n, v)
}

/// The first nonzero entry of `v` stands at index `c`.
pub open spec fn leads_at(v: Seq<bool>, c: int) -> bool {
    0 <= c < v.len() && v[c] && forall|j: int| 0 <= j < c ==> !v[j]
}

/// Some vector of the row space has its first nonzero entry in column `c`.
pub open spec fn is_pivot_column(rows: Seq<Seq<bool>>, n: nat, c: int) -> bool {
    exists|v: Seq<bool>| in_row_space(rows, n, v) && #[trigger] leads_at(v, c)
}

/// How many of the first `m` columns are pivot columns.
pub open spec fn count_pivot_columns(rows: Seq<Seq<bool>>, n: nat, m: nat) -> nat
    decreases m,
{
    if m == 0 {
        0
    } else {
        count_pivot_columns(rows, n, (m - 1) as nat) + if is_pivot_column(rows, n, m - 1) {
            1nat
        } else {
            0nat
        }
    }
}

/// The rank of a matrix with `n` columns over the two-element field: the
/// dimension of its row space, counted as the number of columns in which
/// some vector of the row space has its first nonzero entry. A basis in
/// echelon form has exactly one vector for each such column. The module
/// `dimension` shows that this is the largest number of linearly
/// independent rows of the matrix.
pub open spec fn gf2_rank(rows: Seq<Seq<bool>>, n: nat) -> nat {
    count_pivot_columns(rows, n, n)
}

/// A sum in which no selected row has an entry in column `col`, with at
/// most the exception of row `i0`, has the entry of that row there.
pub proof fn lemma_combination_single(rows: Seq<Seq<bool>>, coeffs: Seq<bool>, col: int, k: nat, i0: int)
    requires
        forall|i: int| 0 <= i < k && i != i0 ==> !(coeffs[i] && #[trigger] rows[i][col]),
    ensures
        combination_bit(rows, coeffs, col, k) == (0 <= i0 < k && coeffs[i0] && rows[i0][col]),
    decreases k,
{
    if k > 0 {
        lemma_combination_single(rows, coeffs, col, (k - 1) as nat, i0);
    }
}

/// The sum taken with the sum of two coefficient vectors is the sum of
/// the two sums.
pub proof fn lemma_combination_xor(rows: Seq<Seq<bool>>, c1: Seq<bool>, c2: Seq<bool>, col: int, k: nat)
    requires
        k <= c1.len(),
    ensures
        combination_bit(rows, xor_coeffs(c1, c2), col, k) == (combination_bit(rows, c1, col, k)
            != combination_bit(rows, c2, col, k)),
    decreases k,
{
    if k > 0 {
        lemma_combination_xor(rows, c1, c2, col, (k - 1) as nat);
    }
}

/// Replacing row `r` changes a sum by the difference of the two rows, if
/// the sum selects row `r`.
pub proof fn lemma_combination_update(
    rows: Seq<Seq<bool>>,
    r: int,
    row: Seq<bool>,
    coeffs: Seq<bool>,
    col: int,
    k: nat,
)
    requires
        0 <= r < rows.len(),
        k <= rows.len(),
    ensures
        combination_bit(rows.update(r, row), coeffs, col, k) == (combination_bit(rows, coeffs, col, k) != (r
            < k && coeffs[r] && (row[col] != rows[r][col]))),
    decreases k,
{
    if k > 0 {
        lemma_combination_update(rows, r, row, coeffs, col, (k - 1) as nat);
    }
}

/// The coefficient vector selects only rows with indices from `lo` up
/// to, not including, `hi`.
pub open spec fn selects_within(coeffs: Seq<bool>, lo: int, hi: int) -> bool {
    forall|i: int| 0 <= i < coeffs.len() && coeffs[i] ==> lo <= i < hi
}

/// A sum depends only on the rows that it selects.
pub proof fn lemma_combination_within(
    a: Seq<Seq<bool>>,
    b: Seq<Seq<bool>>,
    coeffs: Seq<bool>,
    lo: int,
    hi: int,
    col: int,
    k: nat,
)
    requires
        k <= a.len() == b.len() == coeffs.len(),
        selects_within(coeffs, lo, hi),
        forall|i: int| lo <= i < hi && 0 <= i < a.len() ==> #[trigger] a[i] == b[i],
    ensures
        combination_bit(a, coeffs, col, k) == combination_bit(b, coeffs, col, k),
    decreases k,
{
    if k > 0 {
        lemma_combination_within(a, b, coeffs, lo, hi, col, (k - 1) as nat);
    }
}

/// Every row of a matrix lies in its row space.
pub proof fn lemma_row_in_row_space(rows: Seq<Seq<bool>>, n: nat, j: int)
    requires
        is_bit_matrix(rows, n),
        0 <= j < rows.len(),
    ensures
        combination(rows, unit_coeffs(rows.len(), j), n) == rows[j],
        in_row_space(rows, n, rows[j]),
{
    let e = unit_coeffs(rows.len(), j);
    assert forall|c: int| 0 <= c < n implies combination_bit(rows, e, c, rows.len()) == rows[j][c] by {
        lemma_combination_single(rows, e, c, rows.len(), j);
    }
    assert(combination(rows, e, n) =~= rows[j]);
}

/// Coefficients over `a` for the sum of the first `k` rows of `b` that
/// `cb` selects, when every row of `b` lies in the row space of `a`.
pub proof fn lemma_combination_transfer(
    a: Seq<Seq<bool>>,
    b: Seq<Seq<bool>>,
    n: nat,
    cb: Seq<bool>,
    k: nat,
) -> (ca: Seq<bool>)
    requires
        k <= b.len(),
        cb.len() == b.len(),
        forall|i: int| 0 <= i < b.len() ==> in_row_space(a, n, #[trigger] b[i]),
    ensures
        ca.len() == a.len(),
        forall|col: int|
            0 <= col < n ==> #[trigger] combination_bit(a, ca, col, a.len()) == combination_bit(b, cb, col, k),
    decreases k,
{
    if k == 0 {
        let ca = Seq::new(a.len(), |i: int| false);
        assert forall|col: int| 0 <= col < n implies #[trigger] combination_bit(a, ca, col, a.len())
            == combination_bit(b, cb, col, k) by {
            lemma_combination_single(a, ca, col, a.len(), -1);
        }
        ca
    } else {
        let prev = lemma_combination_transfer(a, b, n, cb, (k - 1) as nat);
        if cb[k - 1] {
            assert(in_row_space(a, n, b[k - 1]));
            let d = choose|d: Seq<bool>| d.len() == a.len() && #[trigger] combination(a, d, n) == b[k - 1];
            let ca = xor_coeffs(prev, d);
            assert forall|col: int| 0 <= col < n implies #[trigger] combination_bit(a, ca, col, a.len())
                == combination_bit(b, cb, col, k) by {
                lemma_combination_xor(a, prev, d, col, a.len());
                assert(combination(a, d, n)[col] == b[k - 1][col]);
                assert(combination_bit(a, prev, col, a.len()) == combination_bit(b, cb, col, (k - 1) as nat));
            }
            ca
        } else {
            assert forall|col: int| 0 <= col < n implies #[trigger] combination_bit(a, prev, col, a.len())
                == combination_bit(b, cb, col, k) by {
                assert(combination_bit(a, prev, col, a.len()) == combination_bit(b, cb, col, (k - 1) as nat));
            }
            prev
        }
    }
}

/// A matrix whose rows all lie in the row space of another has its whole
/// row space inside that of the other.
pub proof fn lemma_row_space_subset(a: Seq<Seq<bool>>, b: Seq<Seq<bool>>, n: nat)
    requires
        forall|i: int| 0 <= i < b.len() ==> in_row_space(a, n, #[trigger] b[i]),
    ensures
        forall|v: Seq<bool>| in_row_space(b, n, v) ==> in_row_space(a, n, v),
{
    assert forall|v: Seq<bool>| in_row_space(b, n, v) implies in_row_space(a, n, v) by {
        let cb = choose|cb: Seq<bool>| cb.len() == b.len() && #[trigger] combination(b, cb, n) == v;
        let ca = lemma_combination_transfer(a, b, n, cb, b.len());
        assert forall|col: int| 0 <= col < n implies combination(a, ca, n)[col] == v[col] by {
            assert(combination(b, cb, n)[col] == v[col]);
        }
        assert(combination(a, ca, n) =~= v);
    }
}

/// Matrices with the same row space have the same pivot columns.
pub proof fn lemma_same_row_space_pivots(a: Seq<Seq<bool>>, b: Seq<Seq<bool>>, n: nat, m: nat)
    requires
        same_row_space(a, b, n),
    ensures
        count_pivot_columns(a, n, m) == count_pivot_columns(b, n, m),
    decreases m,
{
    if m > 0 {
        lemma_same_row_space_pivots(a, b, n, (m - 1) as nat);
        let c = m - 1;
        if is_pivot_column(a, n, c) {
            let v = choose|v: Seq<bool>| in_row_space(a, n, v) && #[trigger] leads_at(v, c);
            assert(in_row_space(b, n, v));
        }
        if is_pivot_column(b, n, c) {
            let v = choose|v: Seq<bool>| in_row_space(b, n, v) && #[trigger] leads_at(v, c);
            assert(in_row_space(a, n, v));
        }
    }
}

/// Matrices with the same row space have the same rank.
pub proof fn lemma_same_row_space_rank(a: Seq<Seq<bool>>, b: Seq<Seq<bool>>, n: nat)
    requires
        same_row_space(a, b, n),
    ensures
        gf2_rank(a, n) == gf2_rank(b, n),
{
    lemma_same_row_space_pivots(a, b, n, n);
}

/// Having the same row space is transitive.
pub proof fn lemma_same_row_space_trans(a: Seq<Seq<bool>>, b: Seq<Seq<bool>>, c: Seq<Seq<bool>>, n: nat)
    requires
        same_row_space(a, b, n),
        same_row_space(b, c, n),
    ensures
        same_row_space(a, c, n),
{
    assert forall|v: Seq<bool>| in_row_space(a, n, v) <==> in_row_space(c, n, v) by {
        assert(in_row_space(a, n, v) <==> in_row_space(b, n, v));
    }
}

/// Adding to row `r` a sum of other rows leaves the row space as it was.
pub proof fn lemma_add_combination(a: Seq<Seq<bool>>, n: nat, r: int, d: Seq<bool>)
    requires
        is_bit_matrix(a, n),
        0 <= r < a.len(),
        d.len() == a.len(),
        !d[r],
    ensures
        is_bit_matrix(a.update(r, xor_vec(a[r], combination(a, d, n))), n),
        same_row_space(a, a.update(r, xor_vec(a[r], combination(a, d, n))), n),
{
    let v = combination(a, d, n);
    let b = a.update(r, xor_vec(a[r], v));
    assert(is_bit_matrix(b, n));
    // The sum that `d` selects is the same in both matrices.
    assert forall|col: int| 0 <= col < n implies combination_bit(b, d, col, b.len()) == v[col] by {
        lemma_combination_update(a, r, xor_vec(a[r], v), d, col, a.len());
    }
    assert(combination(b, d, n) =~= v);
    // Row `r` of each matrix is row `r` of the other plus that sum.
    let er = xor_coeffs(unit_coeffs(a.len(), r), d);
    assert forall|i: int| 0 <= i < b.len() implies in_row_space(a, n, #[trigger] b[i]) by {
        if i == r {
            assert forall|col: int| 0 <= col < n implies combination_bit(a, er, col, a.len())
                == b[r][col] by {
                lemma_combination_xor(a, unit_coeffs(a.len(), r), d, col, a.len());
                lemma_combination_single(a, unit_coeffs(a.len(), r), col, a.len(), r);
            }
            assert(combination(a, er, n) =~= b[r]);
        } else {
            lemma_row_in_row_space(a, n, i);
        }
    }
    assert forall|i: int| 0 <= i < a.len() implies in_row_space(b, n, #[trigger] a[i]) by {
        if i == r {
            assert forall|col: int| 0 <= col < n implies combination_bit(b, er, col, b.len())
                == a[r][col] by {
                lemma_combination_xor(b, unit_coeffs(a.len(), r), d, col, b.len());
                lemma_combination_single(b, unit_coeffs(a.len(), r), col, b.len(), r);
            }
            assert(combination(b, er, n) =~= a[r]);
        } else {
            lemma_row_in_row_space(b, n, i);
        }
    }
    lemma_row_space_subset(a, b, n);
    lemma_row_space_subset(b, a, n);
}

/// Adding one row to another leaves the row space, and so the rank, as
/// it was.
pub proof fn lemma_add_row(a: Seq<Seq<bool>>, n: nat, r: int, j: int)
    requires
        is_bit_matrix(a, n),
        0 <= r < a.len(),
        0 <= j < a.len(),
        r != j,
    ensures
        is_bit_matrix(a.update(r, xor_vec(a[r], a[j])), n),
        same_row_space(a, a.update(r, xor_vec(a[r], a[j])), n),
        gf2_rank(a.update(r, xor_vec(a[r], a[j])), n) == gf2_rank(a, n),
{
    lemma_row_in_row_space(a, n, j);
    lemma_add_combination(a, n, r, unit_coeffs(a.len(), j));
    lemma_same_row_space_rank(a, a.update(r, xor_vec(a[r], a[j])), n);
}

/// The matrix is in row echelon form, with its first nonzero entries in
/// the columns `pivots`: row `i` leads at `pivots[i]`, these columns
/// increase from row to row, and the rows after them are zero.
pub open spec fn echelon_with(rows: Seq<Seq<bool>>, n: nat, pivots: Seq<int>) -> bool {
    &&& pivots.len() <= rows.len()
    &&& forall|i: int, j: int| 0 <= i < j < pivots.len() ==> pivots[i] < pivots[j]
    &&& forall|i: int| 0 <= i < pivots.len() ==> leads_at(#[trigger] rows[i], pivots[i])
    &&& forall|i: int, c: int| pivots.len() <= i < rows.len() && 0 <= c < n ==> !(#[trigger] rows[i][c])
}

/// The matrix is in row echelon form with exactly `r` nonzero rows.
pub open spec fn is_row_echelon(rows: Seq<Seq<bool>>, n: nat, r: nat) -> bool {
    exists|pivots: Seq<int>| pivots.len() == r && #[trigger] echelon_with(rows, n, pivots)
}

/// Column `c` is one of the listed columns.
pub open spec fn is_listed(pivots: Seq<int>, c: int) -> bool {
    exists|i: int| 0 <= i < pivots.len() && #[trigger] pivots[i] == c
}

/// The least index below `k` that `coeffs` selects.
pub proof fn lemma_least_selected(coeffs: Seq<bool>, k: int) -> (i0: int)
    requires
        0 <= k <= coeffs.len(),
        exists|i: int| 0 <= i < k && coeffs[i],
    ensures
        0 <= i0 < k,
        coeffs[i0],
        forall|i: int| 0 <= i < i0 ==> !coeffs[i],
    decreases k,
{
    if exists|i: int| 0 <= i < k - 1 && coeffs[i] {
        lemma_least_selected(coeffs, k - 1)
    } else {
        k - 1
    }
}

/// In a matrix in echelon form, the pivot columns are the columns in
/// which its nonzero rows lead.
proof fn lemma_echelon_pivot_columns(rows: Seq<Seq<bool>>, n: nat, pivots: Seq<int>, c: int)
    requires
        is_bit_matrix(rows, n),
        echelon_with(rows, n, pivots),
        0 <= c < n,
    ensures
        is_pivot_column(rows, n, c) == is_listed(pivots, c),
{
    let r = pivots.len() as int;
    let m = rows.len();
    if is_listed(pivots, c) {
        let i = choose|i: int| 0 <= i < pivots.len() && #[trigger] pivots[i] == c;
        lemma_row_in_row_space(rows, n, i);
        assert(leads_at(rows[i], c));
    }
    if is_pivot_column(rows, n, c) {
        let v = choose|v: Seq<bool>| in_row_space(rows, n, v) && #[trigger] leads_at(v, c);
        let coeffs = choose|coeffs: Seq<bool>|
            coeffs.len() == rows.len() && #[trigger] combination(rows, coeffs, n) == v;
        assert(v[c] == combination_bit(rows, coeffs, c, m));
        if !(exists|i: int| 0 <= i < r && coeffs[i]) {
            lemma_combination_single(rows, coeffs, c, m, -1);
            assert(false);
        }
        let i0 = lemma_least_selected(coeffs, r);
        let p = pivots[i0];
        assert(leads_at(rows[i0], p));
        assert forall|col: int| 0 <= col <= p implies v[col] == rows[i0][col] by {
            assert forall|i: int| 0 <= i < m && i != i0 implies !(coeffs[i] && #[trigger] rows[i][col]) by {
                if i0 < i < r {
                    assert(leads_at(rows[i], pivots[i]));
                }
            }
            lemma_combination_single(rows, coeffs, col, m, i0);
            assert(v[col] == combination_bit(rows, coeffs, col, m));
        }
        assert(v[p]);
        assert(p == c);
        assert(pivots[i0] == c);
    }
}

/// Counts the pivot columns of a matrix in echelon form among the first
/// `m` columns: as many as rows lead there.
proof fn lemma_echelon_count(rows: Seq<Seq<bool>>, n: nat, pivots: Seq<int>, m: nat, k: int)
    requires
        is_bit_matrix(rows, n),
        echelon_with(rows, n, pivots),
        m <= n,
        0 <= k <= pivots.len(),
        k > 0 ==> pivots[k - 1] < m,
        k < pivots.len() ==> pivots[k] >= m,
    ensures
        count_pivot_columns(rows, n, m) == k,
    decreases m,
{
    if m == 0 {
        if k > 0 {
            assert(leads_at(rows[k - 1], pivots[k - 1]));
        }
    } else {
        let c = m - 1;
        lemma_echelon_pivot_columns(rows, n, pivots, c);
        if k > 0 && pivots[k - 1] == c {
            assert(is_listed(pivots, c));
            lemma_echelon_count(rows, n, pivots, (m - 1) as nat, k - 1);
        } else {
            if is_listed(pivots, c) {
                let i = choose|i: int| 0 <= i < pivots.len() && #[trigger] pivots[i] == c;
                if i < k {
                    assert(i < k - 1 ==> pivots[i] < pivots[k - 1]);
                } else {
                    assert(i > k ==> pivots[k] < pivots[i]);
                }
                assert(false);
            }
            lemma_echelon_count(rows, n, pivots, (m - 1) as nat, k);
        }
    }
}

/// A matrix in row echelon form has as rank the number of its nonzero
/// rows.
pub proof fn lemma_echelon_rank(rows: Seq<Seq<bool>>, n: nat, pivots: Seq<int>)
    requires
        is_bit_matrix(rows, n),
        echelon_with(rows, n, pivots),
    ensures
        gf2_rank(rows, n) == pivots.len(),
        pivots.len() <= rows.len(),
        pivots.len() <= n,
{
    let r = pivots.len() as int;
    assert forall|i: int| 0 <= i < pivots.len() implies 0 <= #[trigger] pivots[i] < n by {
        assert(leads_at(rows[i], pivots[i]));
    }
    lemma_echelon_count(rows, n, pivots, n, r);
    lemma_increasing_bound(pivots, n as int);
}

/// A list of `r` increasing numbers from `0..n` has at most `n` entries,
/// and its entry `i` is at least `i`.
proof fn lemma_increasing_bound(pivots: Seq<int>, n: int)
    requires
        forall|i: int, j: int| 0 <= i < j < pivots.len() ==> pivots[i] < pivots[j],
        forall|i: int| 0 <= i < pivots.len() ==> 0 <= #[trigger] pivots[i] < n,
    ensures
        pivots.len() <= n || pivots.len() == 0,
        forall|i: int| 0 <= i < pivots.len() ==> #[trigger] pivots[i] >= i,
    decreases pivots.len(),
{
    if pivots.len() > 0 {
        let r = pivots.len() as int;
        let front = pivots.drop_last();
        lemma_increasing_bound(front, n);
        assert forall|i: int| 0 <= i < pivots.len() implies #[trigger] pivots[i] >= i by {
            if i == r - 1 {
                if r >= 2 {
                    assert(front[r - 2] >= r - 2);
                    assert(pivots[r - 2] < pivots[r - 1]);
                }
            } else {
                assert(front[i] >= i);
            }
        }
        assert(pivots[r - 1] >= r - 1);
    }
}

/// The zero matrix has rank 0.
pub proof fn lemma_zero_matrix_rank(rows: Seq<Seq<bool>>, n: nat)
    requires
        is_bit_matrix(rows, n),
        forall|i: int, c: int| 0 <= i < rows.len() && 0 <= c < n ==> !(#[trigger] rows[i][c]),
    ensures
        gf2_rank(rows, n) == 0,
{
    let pivots = Seq::<int>::empty();
    assert(echelon_with(rows, n, pivots));
    lemma_echelon_rank(rows, n, pivots);
}

/// A matrix in which row `i` has its only entry in column `i` has as
/// rank the number of its rows.
pub proof fn lemma_identity_rank(rows: Seq<Seq<bool>>, n: nat)
    requires
        is_bit_matrix(rows, n),
        rows.len() <= n,
        forall|i: int, c: int| 0 <= i < rows.len() && 0 <= c < n ==> (#[trigger] rows[i][c]) == (c == i),
    ensures
        gf2_rank(rows, n) == rows.len(),
{
    let pivots = Seq::new(rows.len(), |i: int| i);
    assert forall|i: int| 0 <= i < pivots.len() implies leads_at(#[trigger] rows[i], pivots[i]) by {
        assert(rows[i][i]);
        assert forall|j: int| 0 <= j < i implies !rows[i][j] by {
            assert(rows[i][j] == (j == i));
        }
    }
    assert(echelon_with(rows, n, pivots));
    lemma_echelon_rank(rows, n, pivots);
}

/// Two matrices that hold the same rows, in whatever order, have the
/// same row space and the same rank.
pub proof fn lemma_permutation_rank(a: Seq<Seq<bool>>, b: Seq<Seq<bool>>, n: nat)
    requires
        is_bit_matrix(a, n),
        a.to_multiset() == b.to_multiset(),
    ensures
        same_row_space(a, b, n),
        gf2_rank(a, n) == gf2_rank(b, n),
{
    a.to_multiset_ensures();
    b.to_multiset_ensures();
    assert forall|i: int| 0 <= i < b.len() implies in_row_space(a, n, #[trigger] b[i]) by {
        assert(b.contains(b[i]));
        assert(a.to_multiset().count(b[i]) > 0);
        assert(a.contains(b[i]));
        let j = choose|j: int| 0 <= j < a.len() && a[j] == b[i];
        lemma_row_in_row_space(a, n, j);
    }
    assert(is_bit_matrix(b, n)) by {
        assert forall|i: int| 0 <= i < b.len() implies (#[trigger] b[i]).len() == n by {
            assert(b.contains(b[i]));
            assert(a.to_multiset().count(b[i]) > 0);
            assert(a.contains(b[i]));
            let j = choose|j: int| 0 <= j < a.len() && a[j] == b[i];
        }
    }
    assert forall|i: int| 0 <= i < a.len() implies in_row_space(b, n, #[trigger] a[i]) by {
        assert(a.contains(a[i]));
        assert(b.to_multiset().count(a[i]) > 0);
        assert(b.contains(a[i]));
        let j = choose|j: int| 0 <= j < b.len() && b[j] == a[i];
        lemma_row_in_row_space(b, n, j);
    }
    lemma_row_space_subset(a, b, n);
    lemma_row_space_subset(b, a, n);
    lemma_same_row_space_rank(a, b, n);
}

} // verus!
