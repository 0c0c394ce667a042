//! The rank as a dimension: no linearly independent family of vectors of
//! the row space has more members than the rank, and one has as many.

use vstd::prelude::*;
use crate::gf2::{
    combination, combination_bit, count_pivot_columns, echelon_with, gf2_rank, in_row_space, is_bit_matrix,
    is_pivot_column, leads_at, lemma_combination_single, lemma_combination_xor, lemma_least_selected,
    lemma_row_in_row_space, lemma_row_space_subset, xor_coeffs, xor_vec,
};
use crate::row::zero_before;

verus! {

/// The vector of `n` zero entries.
pub open spec fn zero_vec(n: nat) -> Seq<bool> {
    Seq::new(n, |c: int| false)
}

/// Only the empty selection of the vectors has the zero vector as sum.
pub open spec fn linearly_independent(vs: Seq<Seq<bool>>, n: nat) -> bool {
    forall|coeffs: Seq<bool>|
        coeffs.len() == vs.len() && #[trigger] combination(vs, coeffs, n) == zero_vec(n) ==> forall|i: int|
            0 <= i < coeffs.len() ==> !coeffs[i]
}

/// The vectors `vs` are linearly independent vectors of the row space of
/// the matrix.
pub open spec fn independent_in_row_space(rows: Seq<Seq<bool>>, n: nat, vs: Seq<Seq<bool>>) -> bool {
    &&& is_bit_matrix(vs, n)
    &&& forall|i: int| 0 <= i < vs.len() ==> in_row_space(rows, n, #[trigger] vs[i])
    &&& linearly_independent(vs, n)
}

/// The zero vector lies in every row space.
pub proof fn lemma_zero_in_row_space(rows: Seq<Seq<bool>>, n: nat)
    ensures
        in_row_space(rows, n, zero_vec(n)),
{
    let coeffs = Seq::new(rows.len(), |i: int| false);
    assert forall|col: int| 0 <= col < n implies !combination_bit(rows, coeffs, col, rows.len()) by {
        lemma_combination_single(rows, coeffs, col, rows.len(), -1);
    }
    assert(combination(rows, coeffs, n) =~= zero_vec(n));
}

/// The sum of two vectors of a row space lies in it.
pub proof fn lemma_row_space_closed(rows: Seq<Seq<bool>>, n: nat, v1: Seq<bool>, v2: Seq<bool>)
    requires
        in_row_space(rows, n, v1),
        in_row_space(rows, n, v2),
    ensures
        in_row_space(rows, n, xor_vec(v1, v2)),
{
    let c1 = choose|c: Seq<bool>| c.len() == rows.len() && #[trigger] combination(rows, c, n) == v1;
    let c2 = choose|c: Seq<bool>| c.len() == rows.len() && #[trigger] combination(rows, c, n) == v2;
    let c = xor_coeffs(c1, c2);
    assert forall|col: int| 0 <= col < n implies combination_bit(rows, c, col, rows.len()) == (v1[col]
        != v2[col]) by {
        lemma_combination_xor(rows, c1, c2, col, rows.len());
        assert(combination(rows, c1, n)[col] == v1[col]);
        assert(combination(rows, c2, n)[col] == v2[col]);
    }
    assert(combination(rows, c, n) =~= xor_vec(v1, v2));
}

/// A sum over the first `k` rows depends on those rows and their
/// coefficients only.
pub proof fn lemma_combination_prefix(
    a: Seq<Seq<bool>>,
    b: Seq<Seq<bool>>,
    ca: Seq<bool>,
    cb: Seq<bool>,
    col: int,
    k: nat,
)
    requires
        k <= a.len(),
        k <= b.len(),
        k <= ca.len(),
        k <= cb.len(),
        forall|i: int| 0 <= i < k ==> a[i] == b[i] && ca[i] == cb[i],
    ensures
        combination_bit(a, ca, col, k) == combination_bit(b, cb, col, k),
    decreases k,
{
    if k > 0 {
        lemma_combination_prefix(a, b, ca, cb, col, (k - 1) as nat);
    }
}

/// A vector outside a row space can be brought, by adding a vector of
/// the row space, to lead in a column that is no pivot column.
proof fn lemma_new_pivot(rows: Seq<Seq<bool>>, n: nat, w: Seq<bool>, from: nat) -> (out: (int, Seq<bool>))
    requires
        w.len() == n,
        from <= n,
        !in_row_space(rows, n, w),
        zero_before(w, from as int),
    ensures
        0 <= out.0 < n,
        !is_pivot_column(rows, n, out.0),
        in_row_space(rows, n, out.1),
        leads_at(xor_vec(w, out.1), out.0),
    decreases n - from,
{
    lemma_zero_in_row_space(rows, n);
    if from == n {
        assert(w =~= zero_vec(n));
        (0, zero_vec(n))
    } else if !w[from as int] {
        lemma_new_pivot(rows, n, w, from + 1)
    } else if !is_pivot_column(rows, n, from as int) {
        assert(xor_vec(w, zero_vec(n)) =~= w);
        (from as int, zero_vec(n))
    } else {
        let s0 = choose|v: Seq<bool>| in_row_space(rows, n, v) && #[trigger] leads_at(v, from as int);
        let c0 = choose|c: Seq<bool>| c.len() == rows.len() && #[trigger] combination(rows, c, n) == s0;
        assert(s0.len() == n);
        let reduced = xor_vec(w, s0);
        if in_row_space(rows, n, reduced) {
            lemma_row_space_closed(rows, n, reduced, s0);
            assert(xor_vec(reduced, s0) =~= w);
        }
        let (c, s1) = lemma_new_pivot(rows, n, reduced, from + 1);
        let c1 = choose|c: Seq<bool>| c.len() == rows.len() && #[trigger] combination(rows, c, n) == s1;
        assert(s1.len() == n);
        lemma_row_space_closed(rows, n, s0, s1);
        assert(xor_vec(w, xor_vec(s0, s1)) =~= xor_vec(reduced, s1));
        (c, xor_vec(s0, s1))
    }
}

/// A matrix whose pivot columns are all pivot columns of another has at
/// most as many, and fewer if the other has one more.
proof fn lemma_count_monotone(a: Seq<Seq<bool>>, b: Seq<Seq<bool>>, n: nat, m: nat, extra: int)
    requires
        forall|c: int| 0 <= c < m && is_pivot_column(a, n, c) ==> is_pivot_column(b, n, c),
    ensures
        count_pivot_columns(a, n, m) <= count_pivot_columns(b, n, m),
        0 <= extra < m && is_pivot_column(b, n, extra) && !is_pivot_column(a, n, extra) ==> count_pivot_columns(
            a,
            n,
            m,
        ) < count_pivot_columns(b, n, m),
    decreases m,
{
    if m > 0 {
        lemma_count_monotone(a, b, n, (m - 1) as nat, extra);
    }
}

/// A matrix whose rows lie in the row space of another has at most the
/// rank of the other.
pub proof fn lemma_rank_monotone(a: Seq<Seq<bool>>, b: Seq<Seq<bool>>, n: nat)
    requires
        forall|i: int| 0 <= i < a.len() ==> in_row_space(b, n, #[trigger] a[i]),
    ensures
        gf2_rank(a, n) <= gf2_rank(b, n),
{
    lemma_row_space_subset(b, a, n);
    assert forall|c: int| 0 <= c < n && is_pivot_column(a, n, c) implies is_pivot_column(b, n, c) by {
        let v = choose|v: Seq<bool>| in_row_space(a, n, v) && #[trigger] leads_at(v, c);
        assert(in_row_space(b, n, v));
    }
    lemma_count_monotone(a, b, n, n, -1);
}

/// A family of linearly independent vectors has as many pivot columns as
/// members, or more.
proof fn lemma_independent_rank(vs: Seq<Seq<bool>>, n: nat)
    requires
        is_bit_matrix(vs, n),
        linearly_independent(vs, n),
    ensures
        vs.len() <= gf2_rank(vs, n),
    decreases vs.len(),
{
    if vs.len() > 0 {
        let k = vs.len();
        let front = vs.drop_last();
        let last = vs[k - 1];
        // The vectors before the last are independent,
        assert forall|coeffs: Seq<bool>|
            coeffs.len() == front.len() && #[trigger] combination(front, coeffs, n) == zero_vec(
                n,
            ) implies forall|i: int| 0 <= i < coeffs.len() ==> !coeffs[i] by {
            let longer = coeffs.push(false);
            assert forall|col: int| 0 <= col < n implies !combination_bit(vs, longer, col, k) by {
                lemma_combination_prefix(vs, front, longer, coeffs, col, (k - 1) as nat);
                assert(combination(front, coeffs, n)[col] == zero_vec(n)[col]);
            }
            assert(combination(vs, longer, n) =~= zero_vec(n));
            assert forall|i: int| 0 <= i < coeffs.len() implies !coeffs[i] by {
                assert(longer[i] == coeffs[i]);
            }
        }
        lemma_independent_rank(front, n);
        // and the last is none of their sums.
        if in_row_space(front, n, last) {
            let coeffs = choose|c: Seq<bool>| c.len() == front.len() && #[trigger] combination(front, c, n) == last;
            let longer = coeffs.push(true);
            assert forall|col: int| 0 <= col < n implies !combination_bit(vs, longer, col, k) by {
                lemma_combination_prefix(vs, front, longer, coeffs, col, (k - 1) as nat);
                assert(combination(front, coeffs, n)[col] == last[col]);
            }
            assert(combination(vs, longer, n) =~= zero_vec(n));
            assert(longer[k - 1]);
            assert(false);
        }
        let (c, s) = lemma_new_pivot(front, n, last, 0);
        // That column is a pivot column of the whole family.
        assert forall|i: int| 0 <= i < front.len() implies in_row_space(vs, n, #[trigger] front[i]) by {
            lemma_row_in_row_space(vs, n, i);
        }
        lemma_row_space_subset(vs, front, n);
        lemma_row_in_row_space(vs, n, k - 1);
        lemma_row_space_closed(vs, n, last, s);
        assert(is_pivot_column(vs, n, c));
        assert forall|c2: int| 0 <= c2 < n && is_pivot_column(front, n, c2) implies is_pivot_column(vs, n, c2) by {
            let v = choose|v: Seq<bool>| in_row_space(front, n, v) && #[trigger] leads_at(v, c2);
            assert(in_row_space(vs, n, v));
        }
        lemma_count_monotone(front, vs, n, n, c);
    }
}

/// No family of linearly independent vectors of the row space has more
/// members than the rank.
pub proof fn lemma_independent_bound(rows: Seq<Seq<bool>>, n: nat, vs: Seq<Seq<bool>>)
    requires
        independent_in_row_space(rows, n, vs),
    ensures
        vs.len() <= gf2_rank(rows, n),
{
    lemma_independent_rank(vs, n);
    lemma_rank_monotone(vs, rows, n);
}

/// For each pivot column among the first `m` columns, a vector of the
/// row space that leads there.
proof fn lemma_pivot_vectors(rows: Seq<Seq<bool>>, n: nat, m: nat) -> (out: (Seq<Seq<bool>>, Seq<int>))
    requires
        m <= n,
    ensures
        out.0.len() == count_pivot_columns(rows, n, m),
        out.1.len() == out.0.len(),
        forall|i: int| 0 <= i < out.0.len() ==> in_row_space(rows, n, #[trigger] out.0[i]),
        forall|i: int| 0 <= i < out.0.len() ==> leads_at(#[trigger] out.0[i], out.1[i]) && out.1[i] < m,
        forall|i: int, j: int| 0 <= i < j < out.1.len() ==> out.1[i] < out.1[j],
    decreases m,
{
    if m == 0 {
        (Seq::empty(), Seq::empty())
    } else {
        let found = lemma_pivot_vectors(rows, n, (m - 1) as nat);
        let vs = found.0;
        let pivots = found.1;
        if is_pivot_column(rows, n, m - 1) {
            let v = choose|v: Seq<bool>| in_row_space(rows, n, v) && #[trigger] leads_at(v, m - 1);
            let vs2 = vs.push(v);
            let pivots2 = pivots.push(m - 1);
            assert forall|i: int, j: int| 0 <= i < j < pivots2.len() implies pivots2[i] < pivots2[j] by {
                assert(leads_at(vs[i], pivots[i]) && pivots[i] < m - 1);
            }
            assert forall|i: int| 0 <= i < vs2.len() implies leads_at(#[trigger] vs2[i], pivots2[i])
                && pivots2[i] < m by {
                if i < vs.len() {
                    assert(leads_at(vs[i], pivots[i]) && pivots[i] < m - 1);
                }
            }
            (vs2, pivots2)
        } else {
            (vs, pivots)
        }
    }
}

/// The nonzero rows of a matrix in row echelon form are linearly
/// independent.
pub proof fn lemma_echelon_independent(vs: Seq<Seq<bool>>, n: nat, pivots: Seq<int>)
    requires
        is_bit_matrix(vs, n),
        echelon_with(vs, n, pivots),
        pivots.len() == vs.len(),
    ensures
        linearly_independent(vs, n),
{
    let k = vs.len();
    assert forall|coeffs: Seq<bool>|
        coeffs.len() == vs.len() && #[trigger] combination(vs, coeffs, n) == zero_vec(n) implies forall|i: int|
        0 <= i < coeffs.len() ==> !coeffs[i] by {
        if exists|i: int| 0 <= i < k && coeffs[i] {
            let i0 = lemma_least_selected(coeffs, k as int);
            let p = pivots[i0];
            assert(leads_at(vs[i0], p));
            assert forall|i: int| 0 <= i < k && i != i0 implies !(coeffs[i] && #[trigger] vs[i][p]) by {
                if i0 < i {
                    assert(leads_at(vs[i], pivots[i]));
                }
            }
            lemma_combination_single(vs, coeffs, p, k, i0);
            assert(combination(vs, coeffs, n)[p] == zero_vec(n)[p]);
            assert(false);
        }
    }
}

/// A sum of rows is a sum of the rows before the last, and the last row
/// added to it if it is selected.
proof fn lemma_split_last(rows: Seq<Seq<bool>>, n: nat, coeffs: Seq<bool>) -> (s: Seq<bool>)
    requires
        rows.len() > 0,
        coeffs.len() == rows.len(),
        is_bit_matrix(rows, n),
    ensures
        s == combination(rows.drop_last(), coeffs.drop_last(), n),
        in_row_space(rows.drop_last(), n, s),
        combination(rows, coeffs, n) == if coeffs[rows.len() - 1] {
            xor_vec(s, rows[rows.len() - 1])
        } else {
            s
        },
{
    let k = rows.len();
    let front = rows.drop_last();
    let shorter = coeffs.drop_last();
    let s = combination(front, shorter, n);
    assert forall|col: int| 0 <= col < n implies combination_bit(rows, coeffs, col, (k - 1) as nat) == s[col] by {
        lemma_combination_prefix(rows, front, coeffs, shorter, col, (k - 1) as nat);
    }
    if coeffs[k - 1] {
        assert(combination(rows, coeffs, n) =~= xor_vec(s, rows[k - 1]));
    } else {
        assert(combination(rows, coeffs, n) =~= s);
    }
    s
}

/// A matrix that has all pivot columns of another but for one column
/// has at most one more.
proof fn lemma_count_one_more(a: Seq<Seq<bool>>, b: Seq<Seq<bool>>, n: nat, m: nat, extra: int)
    requires
        forall|c: int| 0 <= c < m && is_pivot_column(b, n, c) ==> is_pivot_column(a, n, c) || c == extra,
    ensures
        count_pivot_columns(b, n, m) <= count_pivot_columns(a, n, m) + 1,
        !(0 <= extra < m) ==> count_pivot_columns(b, n, m) <= count_pivot_columns(a, n, m),
    decreases m,
{
    if m > 0 {
        lemma_count_one_more(a, b, n, (m - 1) as nat, extra);
    }
}

/// At most as many columns are pivot columns as are counted.
proof fn lemma_count_bound(a: Seq<Seq<bool>>, n: nat, m: nat)
    ensures
        count_pivot_columns(a, n, m) <= m,
    decreases m,
{
    if m > 0 {
        lemma_count_bound(a, n, (m - 1) as nat);
    }
}

/// The rank of a matrix is at most the number of its rows and at most
/// the number of its columns.
pub proof fn lemma_rank_bounds(rows: Seq<Seq<bool>>, n: nat)
    requires
        is_bit_matrix(rows, n),
    ensures
        gf2_rank(rows, n) <= rows.len(),
        gf2_rank(rows, n) <= n,
    decreases rows.len(),
{
    lemma_count_bound(rows, n, n);
    let k = rows.len();
    if k == 0 {
        assert forall|c: int| 0 <= c < n implies !is_pivot_column(rows, n, c) by {
            if is_pivot_column(rows, n, c) {
                let v = choose|v: Seq<bool>| in_row_space(rows, n, v) && #[trigger] leads_at(v, c);
                let coeffs = choose|co: Seq<bool>| co.len() == rows.len() && #[trigger] combination(rows, co, n) == v;
                assert(v[c] == combination_bit(rows, coeffs, c, 0));
            }
        }
        assert(count_pivot_columns(rows, n, n) == 0) by {
            lemma_count_none(rows, n, n);
        }
    } else {
        lemma_rank_bounds(rows.drop_last(), n);
        lemma_rank_push(rows, n);
    }
}

/// A matrix without pivot columns among the first `m` has none to count.
proof fn lemma_count_none(a: Seq<Seq<bool>>, n: nat, m: nat)
    requires
        forall|c: int| 0 <= c < m ==> !is_pivot_column(a, n, c),
    ensures
        count_pivot_columns(a, n, m) == 0,
    decreases m,
{
    if m > 0 {
        lemma_count_none(a, n, (m - 1) as nat);
    }
}

/// Increasing indices of rows of the matrix.
pub open spec fn is_row_selection(rows: Seq<Seq<bool>>, idx: Seq<int>) -> bool {
    &&& forall|i: int| 0 <= i < idx.len() ==> 0 <= #[trigger] idx[i] < rows.len()
    &&& forall|i: int, j: int| 0 <= i < j < idx.len() ==> idx[i] < idx[j]
}

/// The rows with the given indices.
pub open spec fn select_rows(rows: Seq<Seq<bool>>, idx: Seq<int>) -> Seq<Seq<bool>> {
    Seq::new(idx.len(), |i: int| rows[idx[i]])
}

/// Linearly independent vectors stay so with one more that is none of
/// their sums.
proof fn lemma_independent_push(vs: Seq<Seq<bool>>, n: nat, v: Seq<bool>)
    requires
        is_bit_matrix(vs, n),
        v.len() == n,
        linearly_independent(vs, n),
        !in_row_space(vs, n, v),
    ensures
        linearly_independent(vs.push(v), n),
{
    let more = vs.push(v);
    let k = more.len();
    assert(more.drop_last() =~= vs);
    assert forall|coeffs: Seq<bool>|
        coeffs.len() == more.len() && #[trigger] combination(more, coeffs, n) == zero_vec(n) implies forall|i: int|
        0 <= i < coeffs.len() ==> !coeffs[i] by {
        let s = lemma_split_last(more, n, coeffs);
        let shorter = coeffs.drop_last();
        assert(s == combination(vs, shorter, n));
        if coeffs[k - 1] {
            assert(s =~= v) by {
                assert(xor_vec(s, v) == zero_vec(n));
                assert forall|col: int| 0 <= col < n implies s[col] == v[col] by {
                    assert(xor_vec(s, v)[col] == zero_vec(n)[col]);
                }
            }
            assert(false);
        }
        assert forall|i: int| 0 <= i < coeffs.len() implies !coeffs[i] by {
            if i < k - 1 {
                assert(shorter[i] == coeffs[i]);
            }
        }
    }
}

/// Some rows of the matrix are linearly independent and as many as the
/// rank.
proof fn lemma_row_basis(rows: Seq<Seq<bool>>, n: nat) -> (idx: Seq<int>)
    requires
        is_bit_matrix(rows, n),
    ensures
        is_row_selection(rows, idx),
        linearly_independent(select_rows(rows, idx), n),
        idx.len() == gf2_rank(rows, n),
        forall|v: Seq<bool>| in_row_space(rows, n, v) ==> in_row_space(select_rows(rows, idx), n, v),
    decreases rows.len(),
{
    let k = rows.len();
    if k == 0 {
        lemma_rank_bounds(rows, n);
        let idx = Seq::<int>::empty();
        let none = select_rows(rows, idx);
        assert forall|v: Seq<bool>| in_row_space(rows, n, v) implies in_row_space(none, n, v) by {
            let c = choose|c: Seq<bool>| c.len() == rows.len() && #[trigger] combination(rows, c, n) == v;
            assert(combination(none, c, n) =~= v);
        }
        idx
    } else {
        let front = rows.drop_last();
        let last = rows[k - 1];
        let idx0 = lemma_row_basis(front, n);
        let vs0 = select_rows(front, idx0);
        assert(select_rows(rows, idx0) =~= vs0);
        assert(is_bit_matrix(vs0, n));
        assert forall|i: int| 0 <= i < front.len() implies in_row_space(rows, n, #[trigger] front[i]) by {
            lemma_row_in_row_space(rows, n, i);
        }
        lemma_row_in_row_space(rows, n, k - 1);
        if in_row_space(front, n, last) {
            // The last row adds nothing to the row space.
            assert forall|i: int| 0 <= i < rows.len() implies in_row_space(front, n, #[trigger] rows[i]) by {
                if i < k - 1 {
                    lemma_row_in_row_space(front, n, i);
                }
            }
            lemma_rank_monotone(rows, front, n);
            lemma_rank_monotone(front, rows, n);
            lemma_row_space_subset(front, rows, n);
            idx0
        } else {
            // The last row brings one more pivot column, and no more.
            let idx = idx0.push(k - 1);
            let vs = select_rows(rows, idx);
            assert(vs =~= vs0.push(last));
            assert forall|i: int| 0 <= i < vs0.len() implies in_row_space(front, n, #[trigger] vs0[i]) by {
                lemma_row_in_row_space(front, n, idx0[i]);
            }
            lemma_row_space_subset(front, vs0, n);
            lemma_independent_push(vs0, n, last);
            assert forall|i: int| 0 <= i < vs.len() implies in_row_space(rows, n, #[trigger] vs[i]) by {
                lemma_row_in_row_space(rows, n, idx[i]);
            }
            lemma_independent_bound(rows, n, vs);
            lemma_rank_push(rows, n);
            assert forall|i: int| 0 <= i < rows.len() implies in_row_space(vs, n, #[trigger] rows[i]) by {
                if i < k - 1 {
                    lemma_row_in_row_space(front, n, i);
                    assert(in_row_space(vs0, n, front[i]));
                    assert forall|j: int| 0 <= j < vs0.len() implies in_row_space(vs, n, #[trigger] vs0[j]) by {
                        lemma_row_in_row_space(vs, n, j);
                    }
                    lemma_row_space_subset(vs, vs0, n);
                } else {
                    lemma_row_in_row_space(vs, n, vs.len() - 1);
                }
            }
            lemma_row_space_subset(vs, rows, n);
            idx
        }
    }
}

/// One more row raises the rank by one at most.
proof fn lemma_rank_push(rows: Seq<Seq<bool>>, n: nat)
    requires
        is_bit_matrix(rows, n),
        rows.len() > 0,
    ensures
        gf2_rank(rows, n) <= gf2_rank(rows.drop_last(), n) + 1,
{
    let k = rows.len();
    let front = rows.drop_last();
    let extra = if exists|c: int| 0 <= c < n && is_pivot_column(rows, n, c) && !is_pivot_column(front, n, c) {
        choose|c: int| 0 <= c < n && is_pivot_column(rows, n, c) && !is_pivot_column(front, n, c)
    } else {
        -1
    };
    assert forall|c: int| 0 <= c < n && is_pivot_column(rows, n, c) implies is_pivot_column(front, n, c) || c
        == extra by {
        if !is_pivot_column(front, n, c) && c != extra {
            // Two vectors that lead in different new columns both hold
            // the last row, so their sum is a sum of the rows before it,
            // and it leads in the lower of the two columns.
            let u1 = choose|v: Seq<bool>| in_row_space(rows, n, v) && #[trigger] leads_at(v, c);
            let c1 = choose|co: Seq<bool>| co.len() == rows.len() && #[trigger] combination(rows, co, n) == u1;
            let s1 = lemma_split_last(rows, n, c1);
            let u2 = choose|v: Seq<bool>| in_row_space(rows, n, v) && #[trigger] leads_at(v, extra);
            let c2 = choose|co: Seq<bool>| co.len() == rows.len() && #[trigger] combination(rows, co, n) == u2;
            let s2 = lemma_split_last(rows, n, c2);
            assert(c1[k - 1]);
            assert(c2[k - 1]);
            lemma_row_space_closed(front, n, s1, s2);
            let sum = xor_vec(s1, s2);
            assert(sum =~= xor_vec(u1, u2));
            if c < extra {
                assert(leads_at(sum, c));
            } else {
                assert(leads_at(sum, extra));
            }
            assert(false);
        }
    }
    lemma_count_one_more(front, rows, n, n, extra);
}

/// The rank is the largest number of linearly independent rows: some
/// rows of the matrix are linearly independent and as many as the rank,
/// and no linearly independent rows are more.
pub proof fn lemma_rank_is_row_count(rows: Seq<Seq<bool>>, n: nat)
    requires
        is_bit_matrix(rows, n),
    ensures
        exists|idx: Seq<int>|
            is_row_selection(rows, idx) && linearly_independent(#[trigger] select_rows(rows, idx), n) && idx.len()
                == gf2_rank(rows, n),
        forall|idx: Seq<int>|
            is_row_selection(rows, idx) && linearly_independent(#[trigger] select_rows(rows, idx), n)
                ==> idx.len() <= gf2_rank(rows, n),
{
    let basis = lemma_row_basis(rows, n);
    assert(linearly_independent(select_rows(rows, basis), n));
    assert forall|idx: Seq<int>|
        is_row_selection(rows, idx) && linearly_independent(#[trigger] select_rows(rows, idx), n) implies idx.len()
        <= gf2_rank(rows, n) by {
        let vs = select_rows(rows, idx);
        assert forall|i: int| 0 <= i < vs.len() implies in_row_space(rows, n, #[trigger] vs[i]) by {
            lemma_row_in_row_space(rows, n, idx[i]);
        }
        lemma_independent_bound(rows, n, vs);
    }
}

/// The rank is the dimension of the row space: some family of linearly
/// independent vectors of the row space has as many members as the rank,
/// and none has more.
pub proof fn lemma_rank_is_dimension(rows: Seq<Seq<bool>>, n: nat)
    ensures
        exists|vs: Seq<Seq<bool>>| #[trigger] independent_in_row_space(rows, n, vs) && vs.len() == gf2_rank(rows, n),
        forall|vs: Seq<Seq<bool>>| #[trigger] independent_in_row_space(rows, n, vs) ==> vs.len() <= gf2_rank(rows, n),
{
    let (basis, pivots) = lemma_pivot_vectors(rows, n, n);
    assert(is_bit_matrix(basis, n)) by {
        assert forall|i: int| 0 <= i < basis.len() implies (#[trigger] basis[i]).len() == n by {
            assert(in_row_space(rows, n, basis[i]));
            let c = choose|c: Seq<bool>| c.len() == rows.len() && #[trigger] combination(rows, c, n) == basis[i];
        }
    }
    assert(echelon_with(basis, n, pivots));
    lemma_echelon_independent(basis, n, pivots);
    assert(independent_in_row_space(rows, n, basis));
    assert forall|vs: Seq<Seq<bool>>| #[trigger] independent_in_row_space(rows, n, vs) implies vs.len()
        <= gf2_rank(rows, n) by {
        lemma_independent_bound(rows, n, vs);
    }
}

} // verus!
