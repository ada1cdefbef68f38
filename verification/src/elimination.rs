//! Integer elimination: diagonalising a matrix by unimodular row and column
//! operations while recording the row operations.
//!
//! The bookkeeping is carried by a ghost matrix `C` of column operations, so
//! that at every step `R·A = M·C`, where `A` is the input, `M` the current
//! matrix and `R` the accumulated row transform.
use vstd::prelude::*;
use vstd::arithmetic::mul::*;
use vstd::arithmetic::div_mod::*;
use crate::homology::{abs_int, radix};

verus! {

/// `mat` has `n` rows of `m` entries.
pub open spec fn is_matrix(mat: Seq<Vec<i64>>, n: int, m: int) -> bool {
    mat.len() == n && forall|i: int| 0 <= i < n ==> (#[trigger] mat[i])@.len() == m
}

/// The entry in row `i` and column `j`.
pub open spec fn entry(mat: Seq<Vec<i64>>, i: int, j: int) -> i64 {
    mat[i]@[j]
}

/// Every off-diagonal entry in the first `t` rows and columns is zero.
pub open spec fn clear_before(mat: Seq<Vec<i64>>, t: int, n: int, m: int) -> bool {
    forall|i: int, j: int|
        0 <= i < n && 0 <= j < m && i != j && (i < t || j < t) ==> #[trigger] entry(mat, i, j)
            == 0
}

/// Every off-diagonal entry is zero.
pub open spec fn is_diagonal(mat: Seq<Vec<i64>>, n: int, m: int) -> bool {
    forall|i: int, j: int| 0 <= i < n && 0 <= j < m && i != j ==> #[trigger] entry(mat, i, j) == 0
}

/// The block of rows `t..n` and columns `t..m` is zero.
pub open spec fn block_zero(mat: Seq<Vec<i64>>, t: int, n: int, m: int) -> bool {
    forall|i: int, j: int| t <= i < n && t <= j < m ==> #[trigger] entry(mat, i, j) == 0
}

/// The block of rows `t..n` and columns `t..m` holds a nonzero entry of
/// absolute value below `bound`.
pub open spec fn block_small(mat: Seq<Vec<i64>>, t: int, n: int, m: int, bound: int) -> bool {
    exists|i: int, j: int|
        t <= i < n && t <= j < m && #[trigger] entry(mat, i, j) != 0 && abs_int(
            entry(mat, i, j) as int,
        ) < bound
}

/// `|x|`, exactly, for every `i64`.
fn abs_u64(x: i64) -> (r: u64)
    ensures
        r == abs_int(x as int),
{
    if x < 0 {
        ((-(x + 1)) as u64) + 1
    } else {
        x as u64
    }
}

/// The first nonzero entry of least absolute value in the block of rows
/// `t..n` and columns `t..m`, scanning row by row; `None` when the block is
/// zero.
fn find_pivot(mat: &Vec<Vec<i64>>, t: usize, n: usize, m: usize) -> (r: Option<(usize, usize)>)
    requires
        is_matrix(mat@, n as int, m as int),
        t <= n,
        t <= m,
    ensures
        r is None ==> block_zero(mat@, t as int, n as int, m as int),
        r matches Some((pi, pj)) ==> t <= pi < n && t <= pj < m && entry(mat@, pi as int, pj as int)
            != 0 && forall|i: int, j: int|
            t <= i < n && t <= j < m && #[trigger] entry(mat@, i, j) != 0 ==> abs_int(
                entry(mat@, pi as int, pj as int) as int,
            ) <= abs_int(entry(mat@, i, j) as int),
        r matches Some((pi, pj)) ==> is_first_least(rows(mat@), t as int, m as int, pi as int, pj as int),
{
    let ghost g = rows(mat@);
    let mut best: Option<(usize, usize)> = None;
    let mut best_abs: u64 = 0;
    let mut i: usize = t;
    while i < n
        invariant
            is_matrix(mat@, n as int, m as int),
            g == rows(mat@),
            t <= i <= n,
            t <= m,
            best is None ==> forall|a: int, b: int|
                t <= a < i && t <= b < m ==> #[trigger] entry(mat@, a, b) == 0,
            best matches Some((pi, pj)) ==> t <= pi < i && t <= pj < m && entry(
                mat@,
                pi as int,
                pj as int,
            ) != 0 && best_abs == abs_int(entry(mat@, pi as int, pj as int) as int)
                && forall|a: int, b: int|
                t <= a < i && t <= b < m && #[trigger] entry(mat@, a, b) != 0 ==> best_abs
                    <= abs_int(entry(mat@, a, b) as int) && (row_major_before(a, b, pi as int, pj as int)
                    ==> best_abs < abs_int(entry(mat@, a, b) as int)),
        decreases n - i,
    {
        let row = &mat[i];
        let mut j: usize = t;
        while j < m
            invariant
                is_matrix(mat@, n as int, m as int),
                g == rows(mat@),
                t <= i < n,
                t <= j <= m,
                row@ == mat@[i as int]@,
                best is None ==> forall|a: int, b: int|
                    ((t <= a < i && t <= b < m) || (a == i && t <= b < j)) ==> #[trigger] entry(
                        mat@,
                        a,
                        b,
                    ) == 0,
                best matches Some((pi, pj)) ==> t <= pi <= i && t <= pj < m && (pi < i || pj < j) && entry(
                    mat@,
                    pi as int,
                    pj as int,
                ) != 0 && best_abs == abs_int(entry(mat@, pi as int, pj as int) as int)
                    && forall|a: int, b: int|
                    ((t <= a < i && t <= b < m) || (a == i && t <= b < j)) && #[trigger] entry(
                        mat@,
                        a,
                        b,
                    ) != 0 ==> best_abs <= abs_int(entry(mat@, a, b) as int) && (row_major_before(
                        a,
                        b,
                        pi as int,
                        pj as int,
                    ) ==> best_abs < abs_int(entry(mat@, a, b) as int)),
            decreases m - j,
        {
            let x = row[j];
            if x != 0 {
                let ax = abs_u64(x);
                let better = match best {
                    None => true,
                    Some(_) => ax < best_abs,
                };
                if better {
                    best = Some((i, j));
                    best_abs = ax;
                }
            }
            j = j + 1;
        }
        i = i + 1;
    }
    proof {
        if let Some((pi, pj)) = best {
            assert forall|a: int, b: int|
                t <= a < g.len() && t <= b < m && #[trigger] g[a][b] != 0 implies abs_int(
                g[pi as int][pj as int] as int,
            ) <= abs_int(g[a][b] as int) && (row_major_before(a, b, pi as int, pj as int) ==> abs_int(
                g[pi as int][pj as int] as int,
            ) < abs_int(g[a][b] as int)) by {
                assert(g[a][b] == entry(mat@, a, b));
                assert(g[pi as int][pj as int] == entry(mat@, pi as int, pj as int));
            }
        }
    }
    best
}


/// `Σₖ x[k]·z[k]` over the indices of `x`.
pub open spec fn dot(x: Seq<int>, z: Seq<int>) -> int
    decreases x.len(),
{
    if x.len() == 0 {
        0
    } else {
        dot(x.drop_last(), z) + x.last() * z[x.len() - 1]
    }
}

/// A row of machine integers, read as integers.
pub open spec fn ints(v: Seq<i64>) -> Seq<int> {
    v.map_values(|e: i64| e as int)
}

/// Column `j` of a machine matrix.
pub open spec fn icol(a: Seq<Vec<i64>>, j: int) -> Seq<int> {
    Seq::new(a.len(), |k: int| a[k]@[j] as int)
}

/// Column `j` of an integer matrix.
pub open spec fn gcol(c: Seq<Seq<int>>, j: int) -> Seq<int> {
    Seq::new(c.len(), |k: int| c[k][j])
}

/// `x` with the entries at `a` and `b` exchanged.
pub open spec fn swapped<T>(x: Seq<T>, a: int, b: int) -> Seq<T> {
    x.update(a, x[b]).update(b, x[a])
}

/// Changing one entry of the left factor changes the sum by one term.
pub proof fn lemma_dot_update_left(x: Seq<int>, z: Seq<int>, a: int, v: int)
    requires
        0 <= a < x.len(),
    ensures
        dot(x.update(a, v), z) == dot(x, z) + (v - x[a]) * z[a],
    decreases x.len(),
{
    let y = x.update(a, v);
    if a == x.len() - 1 {
        assert(y.drop_last() =~= x.drop_last());
        lemma_mul_is_distributive_sub_other_way(z[a], v, x[a]);
    } else {
        assert(y.drop_last() =~= x.drop_last().update(a, v));
        lemma_dot_update_left(x.drop_last(), z, a, v);
    }
}

/// Changing one entry of the right factor changes the sum by one term.
pub proof fn lemma_dot_update_right(x: Seq<int>, z: Seq<int>, a: int, v: int)
    requires
        0 <= a < x.len(),
        x.len() <= z.len(),
    ensures
        dot(x, z.update(a, v)) == dot(x, z) + x[a] * (v - z[a]),
    decreases x.len(),
{
    if a == x.len() - 1 {
        lemma_dot_agree(x.drop_last(), z, z.update(a, v));
        lemma_mul_is_distributive_sub(x[a], v, z[a]);
    } else {
        lemma_dot_update_right(x.drop_last(), z, a, v);
    }
}

/// The sum reads only the first `x.len()` entries of `z`.
pub proof fn lemma_dot_agree(x: Seq<int>, z: Seq<int>, w: Seq<int>)
    requires
        forall|k: int| 0 <= k < x.len() ==> z[k] == w[k],
    ensures
        dot(x, z) == dot(x, w),
    decreases x.len(),
{
    if x.len() > 0 {
        lemma_dot_agree(x.drop_last(), z, w);
    }
}

/// The sum is linear in its left factor.
pub proof fn lemma_dot_linear(x: Seq<int>, y: Seq<int>, w: Seq<int>, z: Seq<int>, q: int)
    requires
        x.len() == y.len(),
        w.len() == x.len(),
        forall|k: int| 0 <= k < x.len() ==> #[trigger] w[k] == x[k] - q * y[k],
    ensures
        dot(w, z) == dot(x, z) - q * dot(y, z),
    decreases x.len(),
{
    if x.len() > 0 {
        let l = x.len() - 1;
        lemma_dot_linear(x.drop_last(), y.drop_last(), w.drop_last(), z, q);
        assert(w[l] == x[l] - q * y[l]);
        assert(dot(w, z) == dot(w.drop_last(), z) + w[l] * z[l]);
        assert(dot(y, z) == dot(y.drop_last(), z) + y[l] * z[l]);
        assert(w[l] * z[l] == x[l] * z[l] - q * (y[l] * z[l])) by (nonlinear_arith)
            requires
                w[l] == x[l] - q * y[l],
        ;
        assert(q * dot(y, z) == q * dot(y.drop_last(), z) + q * (y[l] * z[l])) by (nonlinear_arith)
            requires
                dot(y, z) == dot(y.drop_last(), z) + y[l] * z[l],
        ;
    }
}

/// Exchanging two positions in both factors leaves the sum unchanged.
pub proof fn lemma_dot_swap(x: Seq<int>, z: Seq<int>, a: int, b: int)
    requires
        0 <= a < x.len(),
        0 <= b < x.len(),
        x.len() == z.len(),
    ensures
        dot(swapped(x, a, b), swapped(z, a, b)) == dot(x, z),
{
    if a != b {
        let x1 = x.update(a, x[b]);
        let z1 = z.update(a, z[b]);
        let sx = x1.update(b, x[a]);
        let sz = z1.update(b, z[a]);
        let (xa, xb, za, zb) = (x[a], x[b], z[a], z[b]);
        lemma_dot_update_left(x1, sz, b, xa);
        assert(dot(sx, sz) == dot(x1, sz) + (xa - xb) * za);
        lemma_dot_update_left(x, sz, a, xb);
        assert(dot(x1, sz) == dot(x, sz) + (xb - xa) * zb);
        lemma_dot_update_right(x, z1, b, za);
        assert(dot(x, sz) == dot(x, z1) + xb * (za - zb));
        lemma_dot_update_right(x, z, a, zb);
        assert(dot(x, z1) == dot(x, z) + xa * (zb - za));
        assert((xa - xb) * za + (xb - xa) * zb + xb * (za - zb) + xa * (zb - za) == 0)
            by (nonlinear_arith);
    } else {
        assert(swapped(x, a, b) =~= x);
        assert(swapped(z, a, b) =~= z);
    }
}

/// A column operation `col_j -= q·col_t` on the left factor, matched by the
/// inverse row operation `row_t += q·row_j` on the right factor, leaves the
/// sum unchanged.
pub proof fn lemma_dot_column_op(x: Seq<int>, z: Seq<int>, t: int, j: int, q: int)
    requires
        0 <= t < x.len(),
        0 <= j < x.len(),
        t != j,
        x.len() == z.len(),
    ensures
        dot(x.update(j, x[j] - q * x[t]), z.update(t, z[t] + q * z[j])) == dot(x, z),
{
    let z1 = z.update(t, z[t] + q * z[j]);
    lemma_dot_update_left(x, z1, j, x[j] - q * x[t]);
    lemma_dot_update_right(x, z, t, z[t] + q * z[j]);
    assert(z1[j] == z[j]);
    assert((x[j] - q * x[t] - x[j]) * z[j] + x[t] * (z[t] + q * z[j] - z[t]) == 0)
        by (nonlinear_arith);
}

/// The `i`-th unit vector of length `n`.
pub open spec fn unit_vec(n: nat, i: int) -> Seq<int> {
    Seq::new(n, |k: int| if k == i { 1int } else { 0int })
}

/// The zero vector of length `n`.
pub open spec fn zeros(n: nat) -> Seq<int> {
    Seq::new(n, |k: int| 0int)
}

/// The sum against a unit vector picks one entry.
pub proof fn lemma_dot_unit_left(n: nat, i: int, z: Seq<int>)
    requires
        0 <= i < n,
    ensures
        dot(unit_vec(n, i), z) == z[i],
{
    lemma_dot_zero_left(n, z);
    lemma_dot_update_left(zeros(n), z, i, 1);
    assert(dot(zeros(n).update(i, 1), z) == (1 - 0) * z[i]);
    assert(zeros(n).update(i, 1) =~= unit_vec(n, i));
}

/// The sum against a zero right factor vanishes.
pub proof fn lemma_dot_zero_right(x: Seq<int>)
    ensures
        dot(x, zeros(x.len())) == 0,
{
    lemma_dot_agree_zero(x, zeros(x.len()));
}

/// The sum against a right factor that vanishes on the indices of `x`.
pub proof fn lemma_dot_agree_zero(x: Seq<int>, z: Seq<int>)
    requires
        forall|k: int| 0 <= k < x.len() ==> z[k] == 0,
    ensures
        dot(x, z) == 0,
    decreases x.len(),
{
    if x.len() > 0 {
        lemma_dot_agree_zero(x.drop_last(), z);
        assert(x.last() * z[x.len() - 1] == x.last() * 0);
    }
}

/// The sum against a unit vector on the right picks one entry.
pub proof fn lemma_dot_unit_right(x: Seq<int>, j: int)
    requires
        0 <= j < x.len(),
    ensures
        dot(x, unit_vec(x.len(), j)) == x[j],
{
    lemma_dot_zero_right(x);
    lemma_dot_update_right(x, zeros(x.len()), j, 1);
    assert(dot(x, zeros(x.len()).update(j, 1)) == x[j] * (1 - 0));
    assert(zeros(x.len()).update(j, 1) =~= unit_vec(x.len(), j));
}

/// The sum with a zero left factor vanishes.
pub proof fn lemma_dot_zero_left(n: nat, z: Seq<int>)
    ensures
        dot(zeros(n), z) == 0,
    decreases n,
{
    if n > 0 {
        assert(zeros(n).drop_last() =~= zeros((n - 1) as nat));
        lemma_dot_zero_left((n - 1) as nat, z);
        assert(zeros(n).last() == 0);
        assert(dot(zeros(n), z) == dot(zeros((n - 1) as nat), z) + 0 * z[n - 1]);
    }
}

/// The sum with a left factor supported on one index is that one term.
pub proof fn lemma_dot_single(x: Seq<int>, z: Seq<int>, i: int)
    requires
        0 <= i < x.len(),
        forall|k: int| 0 <= k < x.len() && k != i ==> x[k] == 0,
    ensures
        dot(x, z) == x[i] * z[i],
{
    lemma_dot_zero_left(x.len(), z);
    lemma_dot_update_left(zeros(x.len()), z, i, x[i]);
    assert(zeros(x.len()).update(i, x[i]) =~= x);
}

/// The sum with a zero left factor vanishes.
pub proof fn lemma_dot_all_zero(x: Seq<int>, z: Seq<int>)
    requires
        forall|k: int| 0 <= k < x.len() ==> x[k] == 0,
    ensures
        dot(x, z) == 0,
{
    lemma_dot_zero_left(x.len(), z);
    assert(x =~= zeros(x.len()));
}

/// Entry `(i, j)` of `R·A`: row `i` of `r` against column `j` of `a`.
pub open spec fn image(r: Seq<Vec<i64>>, a: Seq<Vec<i64>>, i: int, j: int) -> int {
    dot(ints(r[i]@), icol(a, j))
}

/// `R·A = M·C` on an `n × m` target, `C` being `m × m`.
pub open spec fn relates(
    r: Seq<Vec<i64>>,
    a: Seq<Vec<i64>>,
    mat: Seq<Vec<i64>>,
    c: Seq<Seq<int>>,
    n: int,
    m: int,
) -> bool {
    &&& c.len() == m
    &&& forall|k: int| 0 <= k < m ==> (#[trigger] c[k]).len() == m
    &&& forall|i: int, j: int|
        0 <= i < n && 0 <= j < m ==> #[trigger] image(r, a, i, j) == dot(ints(mat[i]@), gcol(c, j))
}

/// `x` is an integer multiple of `d`.
pub open spec fn multiple_of(x: int, d: int) -> bool {
    if d == 0 {
        x == 0
    } else {
        x % (abs_int(d) as int) == 0
    }
}

/// The `i`-th diagonal entry of an `n × m` matrix, `0` past the last column.
pub open spec fn diagonal_entry(mat: Seq<Vec<i64>>, i: int, m: int) -> int {
    if i < m {
        entry(mat, i, i) as int
    } else {
        0
    }
}

/// The `n × n` identity matrix.
pub open spec fn is_identity(r: Seq<Vec<i64>>, n: int) -> bool {
    is_matrix(r, n, n) && forall|i: int, j: int|
        0 <= i < n && 0 <= j < n ==> #[trigger] entry(r, i, j) == (if i == j { 1i64 } else { 0i64 })
}

/// The `m × m` integer identity matrix.
pub open spec fn identity_int(m: nat) -> Seq<Seq<int>> {
    Seq::new(m, |i: int| unit_vec(m, i))
}

/// `C` after the inverse of the column operation `col_j -= q·col_t`.
pub open spec fn column_op_inverse(c: Seq<Seq<int>>, t: int, j: int, q: int) -> Seq<Seq<int>> {
    c.update(t, Seq::new(c.len(), |l: int| c[t][l] + q * c[j][l]))
}

/// `l·r = I` on `n × n`: `l` is an integer left inverse of `r`, so `r` is
/// unimodular.
pub open spec fn left_inverse(l: Seq<Seq<int>>, r: Seq<Vec<i64>>, n: int) -> bool {
    &&& l.len() == n
    &&& r.len() == n
    &&& forall|a: int| 0 <= a < n ==> (#[trigger] l[a]).len() == n
    &&& forall|a: int, b: int|
        0 <= a < n && 0 <= b < n ==> #[trigger] dot(l[a], icol(r, b)) == (if a == b {
            1int
        } else {
            0int
        })
}

/// `l·c = I` on `m × m`: `l` is an integer left inverse of `c`, so `c` is
/// unimodular.
pub open spec fn left_inverse_int(l: Seq<Seq<int>>, c: Seq<Seq<int>>, m: int) -> bool {
    &&& l.len() == m
    &&& c.len() == m
    &&& forall|a: int| 0 <= a < m ==> (#[trigger] l[a]).len() == m
    &&& forall|a: int, b: int|
        0 <= a < m && 0 <= b < m ==> #[trigger] dot(l[a], gcol(c, b)) == (if a == b {
            1int
        } else {
            0int
        })
}

/// The identity is its own inverse.
pub proof fn lemma_left_inverse_int_initial(m: nat)
    ensures
        left_inverse_int(identity_int(m), identity_int(m), m as int),
{
    let l = identity_int(m);
    assert forall|a: int, b: int| 0 <= a < m && 0 <= b < m implies #[trigger] dot(l[a], gcol(l, b)) == (if a
        == b {
        1int
    } else {
        0int
    }) by {
        lemma_dot_unit_left(m, a, gcol(l, b));
    }
}

/// Exchanging rows `x` and `y` of `c` is undone by exchanging columns `x`
/// and `y` of its inverse.
pub proof fn lemma_left_inverse_int_swap(l: Seq<Seq<int>>, c: Seq<Seq<int>>, m: int, x: int, y: int)
    requires
        left_inverse_int(l, c, m),
        0 <= x < m,
        0 <= y < m,
    ensures
        left_inverse_int(Seq::new(m as nat, |a: int| swapped(l[a], x, y)), swapped(c, x, y), m),
{
    let l2 = Seq::new(m as nat, |a: int| swapped(l[a], x, y));
    let c2 = swapped(c, x, y);
    assert forall|a: int, b: int| 0 <= a < m && 0 <= b < m implies #[trigger] dot(l2[a], gcol(c2, b)) == (if a
        == b {
        1int
    } else {
        0int
    }) by {
        assert(gcol(c2, b) =~= swapped(gcol(c, b), x, y));
        lemma_dot_swap(l[a], gcol(c, b), x, y);
    }
}

/// The row operation `row_t += q·row_j` on `c` is undone by the column
/// operation `col_j -= q·col_t` on its inverse.
pub proof fn lemma_left_inverse_int_op(l: Seq<Seq<int>>, c: Seq<Seq<int>>, m: int, t: int, j: int, q: int)
    requires
        left_inverse_int(l, c, m),
        forall|k: int| 0 <= k < m ==> (#[trigger] c[k]).len() == m,
        0 <= t < m,
        0 <= j < m,
        t != j,
    ensures
        left_inverse_int(
            Seq::new(m as nat, |a: int| l[a].update(j, l[a][j] - q * l[a][t])),
            column_op_inverse(c, t, j, q),
            m,
        ),
{
    let l2 = Seq::new(m as nat, |a: int| l[a].update(j, l[a][j] - q * l[a][t]));
    let c2 = column_op_inverse(c, t, j, q);
    assert forall|a: int, b: int| 0 <= a < m && 0 <= b < m implies #[trigger] dot(l2[a], gcol(c2, b)) == (if a
        == b {
        1int
    } else {
        0int
    }) by {
        let z = gcol(c, b);
        assert(gcol(c2, b) =~= z.update(t, z[t] + q * z[j]));
        lemma_dot_column_op(l[a], z, t, j, q);
    }
}

/// Entry `(i, j)` of `U·A`, `U` an integer matrix.
pub open spec fn image_int(u: Seq<Seq<int>>, a: Seq<Vec<i64>>, i: int, j: int) -> int {
    dot(u[i], icol(a, j))
}

/// `U·A = M·C` on an `n × m` target, `U` being `n × n` and `C` `m × m`.
pub open spec fn relates_int(
    u: Seq<Seq<int>>,
    a: Seq<Vec<i64>>,
    mat: Seq<Vec<i64>>,
    c: Seq<Seq<int>>,
    n: int,
    m: int,
) -> bool {
    &&& u.len() == n
    &&& forall|k: int| 0 <= k < n ==> (#[trigger] u[k]).len() == n
    &&& c.len() == m
    &&& forall|k: int| 0 <= k < m ==> (#[trigger] c[k]).len() == m
    &&& forall|i: int, j: int|
        0 <= i < n && 0 <= j < m ==> #[trigger] image_int(u, a, i, j) == dot(ints(mat[i]@), gcol(c, j))
}

/// `R = U·R₀`: the row transform `R` is what the row operations recorded in
/// `U` make of the starting transform `R₀`.
pub open spec fn accumulates(r: Seq<Vec<i64>>, u: Seq<Seq<int>>, r0: Seq<Vec<i64>>, n: int) -> bool {
    forall|i: int, k: int| 0 <= i < n && 0 <= k < n ==> #[trigger] entry(r, i, k) as int == dot(u[i], icol(r0, k))
}

/// At the start no row operation has been recorded: `I·A = A·I` and
/// `R₀ = I·R₀`.
pub proof fn lemma_accumulates_initial(r0: Seq<Vec<i64>>, a: Seq<Vec<i64>>, n: int, m: int)
    requires
        is_matrix(r0, n, n),
        is_matrix(a, n, m),
        n >= 0,
        m >= 0,
    ensures
        relates_int(identity_int(n as nat), a, a, identity_int(m as nat), n, m),
        accumulates(r0, identity_int(n as nat), r0, n),
{
    let u = identity_int(n as nat);
    let c = identity_int(m as nat);
    assert forall|i: int, j: int| 0 <= i < n && 0 <= j < m implies #[trigger] image_int(u, a, i, j)
        == dot(ints(a[i]@), gcol(c, j)) by {
        lemma_dot_unit_left(n as nat, i, icol(a, j));
        assert(gcol(c, j) =~= unit_vec(m as nat, j));
        lemma_dot_unit_right(ints(a[i]@), j);
    }
    assert forall|i: int, k: int| 0 <= i < n && 0 <= k < n implies #[trigger] entry(r0, i, k) as int == dot(
        u[i],
        icol(r0, k),
    ) by {
        lemma_dot_unit_left(n as nat, i, icol(r0, k));
    }
}

/// Exchanging two rows of `R`, `U` and `M` keeps `U·A = M·C` and
/// `R = U·R₀`.
pub proof fn lemma_row_swap_int(
    r: Seq<Vec<i64>>,
    u: Seq<Seq<int>>,
    r0: Seq<Vec<i64>>,
    a: Seq<Vec<i64>>,
    mat: Seq<Vec<i64>>,
    c: Seq<Seq<int>>,
    n: int,
    m: int,
    x: int,
    y: int,
)
    requires
        relates_int(u, a, mat, c, n, m),
        accumulates(r, u, r0, n),
        r.len() == n,
        mat.len() == n,
        0 <= x < n,
        0 <= y < n,
    ensures
        relates_int(swapped(u, x, y), a, swapped(mat, x, y), c, n, m),
        accumulates(swapped(r, x, y), swapped(u, x, y), r0, n),
{
    let u2 = swapped(u, x, y);
    let r2 = swapped(r, x, y);
    let mat2 = swapped(mat, x, y);
    assert forall|k: int| 0 <= k < n implies (#[trigger] u2[k]).len() == n by {
        if k == x {
            assert(u2[k] == u[y]);
        } else if k == y {
            assert(u2[k] == u[x]);
        } else {
            assert(u2[k] == u[k]);
        }
    }
    assert forall|i: int, j: int| 0 <= i < n && 0 <= j < m implies #[trigger] image_int(u2, a, i, j)
        == dot(ints(mat2[i]@), gcol(c, j)) by {
        let src = if i == y {
            x
        } else if i == x {
            y
        } else {
            i
        };
        assert(u2[i] == u[src]);
        assert(mat2[i] == mat[src]);
        assert(image_int(u, a, src, j) == dot(ints(mat[src]@), gcol(c, j)));
    }
    assert forall|i: int, k: int| 0 <= i < n && 0 <= k < n implies #[trigger] entry(r2, i, k) as int == dot(
        u2[i],
        icol(r0, k),
    ) by {
        let src = if i == y {
            x
        } else if i == x {
            y
        } else {
            i
        };
        assert(u2[i] == u[src]);
        assert(r2[i] == r[src]);
        assert(entry(r, src, k) as int == dot(u[src], icol(r0, k)));
    }
}

/// The row operation `row_i -= q·row_t`, applied alike to `R`, `U` and `M`,
/// keeps `U·A = M·C` and `R = U·R₀`.
pub proof fn lemma_row_op_int(
    r: Seq<Vec<i64>>,
    r2: Seq<Vec<i64>>,
    u: Seq<Seq<int>>,
    r0: Seq<Vec<i64>>,
    a: Seq<Vec<i64>>,
    mat: Seq<Vec<i64>>,
    mat2: Seq<Vec<i64>>,
    c: Seq<Seq<int>>,
    n: int,
    m: int,
    i: int,
    t: int,
    q: int,
)
    requires
        relates_int(u, a, mat, c, n, m),
        accumulates(r, u, r0, n),
        is_matrix(r, n, n),
        is_matrix(r2, n, n),
        is_matrix(mat, n, m),
        is_matrix(mat2, n, m),
        0 <= i < n,
        0 <= t < n,
        i != t,
        forall|k: int| 0 <= k < n && k != i ==> r2[k]@ == r[k]@,
        forall|k: int| 0 <= k < n && k != i ==> mat2[k]@ == mat[k]@,
        forall|l: int| 0 <= l < n ==> #[trigger] entry(r2, i, l) == entry(r, i, l) - q * entry(r, t, l),
        forall|l: int| 0 <= l < m ==> #[trigger] entry(mat2, i, l) == entry(mat, i, l) - q * entry(mat, t, l),
    ensures
        relates_int(column_op_inverse(u, i, t, -q), a, mat2, c, n, m),
        accumulates(r2, column_op_inverse(u, i, t, -q), r0, n),
{
    let u2 = column_op_inverse(u, i, t, -q);
    assert forall|k: int| 0 <= k < n implies (#[trigger] u2[k]).len() == n by {}
    assert forall|l: int| 0 <= l < n implies #[trigger] u2[i][l] == u[i][l] - q * u[t][l] by {
        assert(u2[i][l] == u[i][l] + (-q) * u[t][l]);
        assert((-q) * u[t][l] == -(q * u[t][l])) by (nonlinear_arith);
    }
    assert forall|i2: int, j: int| 0 <= i2 < n && 0 <= j < m implies #[trigger] image_int(u2, a, i2, j)
        == dot(ints(mat2[i2]@), gcol(c, j)) by {
        if i2 != i {
            assert(image_int(u, a, i2, j) == dot(ints(mat[i2]@), gcol(c, j)));
            assert(u2[i2] == u[i2]);
            assert(ints(mat2[i2]@) == ints(mat[i2]@));
        } else {
            assert(image_int(u, a, i, j) == dot(ints(mat[i]@), gcol(c, j)));
            assert(image_int(u, a, t, j) == dot(ints(mat[t]@), gcol(c, j)));
            lemma_dot_linear(u[i], u[t], u2[i], icol(a, j), q);
            assert forall|k: int| 0 <= k < m implies #[trigger] ints(mat2[i]@)[k] == ints(mat[i]@)[k]
                - q * ints(mat[t]@)[k] by {
                assert(entry(mat2, i, k) == entry(mat, i, k) - q * entry(mat, t, k));
            }
            lemma_dot_linear(ints(mat[i]@), ints(mat[t]@), ints(mat2[i]@), gcol(c, j), q);
        }
    }
    assert forall|i2: int, k: int| 0 <= i2 < n && 0 <= k < n implies #[trigger] entry(r2, i2, k) as int == dot(
        u2[i2],
        icol(r0, k),
    ) by {
        if i2 != i {
            assert(u2[i2] == u[i2]);
            assert(r2[i2]@ == r[i2]@);
            assert(entry(r, i2, k) as int == dot(u[i2], icol(r0, k)));
        } else {
            assert(entry(r, i, k) as int == dot(u[i], icol(r0, k)));
            assert(entry(r, t, k) as int == dot(u[t], icol(r0, k)));
            lemma_dot_linear(u[i], u[t], u2[i], icol(r0, k), q);
        }
    }
}

/// Exchanging two columns of `M`, with the matching rows of `C`, keeps
/// `U·A = M·C`.
pub proof fn lemma_relates_int_column_swap(
    u: Seq<Seq<int>>,
    a: Seq<Vec<i64>>,
    mat: Seq<Vec<i64>>,
    mat2: Seq<Vec<i64>>,
    c: Seq<Seq<int>>,
    n: int,
    m: int,
    x: int,
    y: int,
)
    requires
        relates_int(u, a, mat, c, n, m),
        is_matrix(mat, n, m),
        is_matrix(mat2, n, m),
        0 <= x < m,
        0 <= y < m,
        forall|k: int| 0 <= k < n ==> (#[trigger] mat2[k])@ == swapped(mat[k]@, x, y),
    ensures
        relates_int(u, a, mat2, swapped(c, x, y), n, m),
{
    let c2 = swapped(c, x, y);
    assert forall|k: int| 0 <= k < m implies (#[trigger] c2[k]).len() == m by {
        if k == x {
            assert(c2[k] == c[y]);
        } else if k == y {
            assert(c2[k] == c[x]);
        } else {
            assert(c2[k] == c[k]);
        }
    }
    assert forall|i: int, j: int| 0 <= i < n && 0 <= j < m implies #[trigger] image_int(u, a, i, j)
        == dot(ints(mat2[i]@), gcol(c2, j)) by {
        assert(image_int(u, a, i, j) == dot(ints(mat[i]@), gcol(c, j)));
        assert(ints(mat2[i]@) =~= swapped(ints(mat[i]@), x, y));
        assert(gcol(c2, j) =~= swapped(gcol(c, j), x, y));
        lemma_dot_swap(ints(mat[i]@), gcol(c, j), x, y);
    }
}

/// A column operation `col_j -= q·col_t` on `M`, with its inverse on `C`,
/// keeps `U·A = M·C`.
pub proof fn lemma_relates_int_column_op(
    u: Seq<Seq<int>>,
    a: Seq<Vec<i64>>,
    mat: Seq<Vec<i64>>,
    mat2: Seq<Vec<i64>>,
    c: Seq<Seq<int>>,
    n: int,
    m: int,
    t: int,
    j: int,
    q: int,
)
    requires
        relates_int(u, a, mat, c, n, m),
        is_matrix(mat, n, m),
        is_matrix(mat2, n, m),
        0 <= t < m,
        0 <= j < m,
        t != j,
        forall|k: int| 0 <= k < n ==> (#[trigger] mat2[k])@ == mat[k]@.update(
            j,
            (mat[k]@[j] - q * mat[k]@[t]) as i64,
        ),
        forall|k: int| 0 <= k < n ==> #[trigger] entry(mat, k, j) - q * entry(mat, k, t) == entry(mat2, k, j),
    ensures
        relates_int(u, a, mat2, column_op_inverse(c, t, j, q), n, m),
{
    let c2 = column_op_inverse(c, t, j, q);
    assert forall|k: int| 0 <= k < m implies (#[trigger] c2[k]).len() == m by {}
    assert forall|i: int, jj: int| 0 <= i < n && 0 <= jj < m implies #[trigger] image_int(u, a, i, jj)
        == dot(ints(mat2[i]@), gcol(c2, jj)) by {
        let x = ints(mat[i]@);
        let z = gcol(c, jj);
        assert(image_int(u, a, i, jj) == dot(x, z));
        assert(entry(mat, i, j) - q * entry(mat, i, t) == entry(mat2, i, j));
        assert(ints(mat2[i]@) =~= x.update(j, x[j] - q * x[t]));
        assert(gcol(c2, jj) =~= z.update(t, z[t] + q * z[j]));
        lemma_dot_column_op(x, z, t, j, q);
    }
}

/// Started from the identity, the row transform is `U` itself: `U·A = M·C`
/// reads `R·A = M·C`, and an integer left inverse of `U` is one of `R`.
pub proof fn lemma_accumulated_from_identity(
    r: Seq<Vec<i64>>,
    u: Seq<Seq<int>>,
    r0: Seq<Vec<i64>>,
    a: Seq<Vec<i64>>,
    mat: Seq<Vec<i64>>,
    c: Seq<Seq<int>>,
    l: Seq<Seq<int>>,
    n: int,
    m: int,
)
    requires
        accumulates(r, u, r0, n),
        is_identity(r0, n),
        is_matrix(r, n, n),
        relates_int(u, a, mat, c, n, m),
        left_inverse_int(l, u, n),
    ensures
        relates(r, a, mat, c, n, m),
        left_inverse(l, r, n),
{
    assert forall|i: int| 0 <= i < n implies ints(r[i]@) =~= #[trigger] u[i] by {
        assert forall|k: int| 0 <= k < n implies ints(r[i]@)[k] == u[i][k] by {
            assert(entry(r, i, k) as int == dot(u[i], icol(r0, k)));
            assert(icol(r0, k) =~= unit_vec(n as nat, k)) by {
                assert forall|p: int| 0 <= p < n implies icol(r0, k)[p] == unit_vec(n as nat, k)[p] by {
                    assert(entry(r0, p, k) == (if p == k { 1i64 } else { 0i64 }));
                }
            }
            lemma_dot_unit_right(u[i], k);
        }
    }
    assert forall|i: int, j: int| 0 <= i < n && 0 <= j < m implies #[trigger] image(r, a, i, j)
        == dot(ints(mat[i]@), gcol(c, j)) by {
        assert(ints(r[i]@) == u[i]);
        assert(image_int(u, a, i, j) == dot(ints(mat[i]@), gcol(c, j)));
    }
    assert forall|x: int, y: int| 0 <= x < n && 0 <= y < n implies #[trigger] dot(l[x], icol(r, y)) == (if x
        == y {
        1int
    } else {
        0int
    }) by {
        assert(icol(r, y) =~= gcol(u, y)) by {
            assert forall|p: int| 0 <= p < n implies icol(r, y)[p] == gcol(u, y)[p] by {
                assert(ints(r[p]@) == u[p]);
                assert(ints(r[p]@)[y] == r[p]@[y] as int);
            }
        }
        assert(dot(l[x], gcol(u, y)) == (if x == y { 1int } else { 0int }));
    }
}

/// Once `M` is diagonal, entry `(i, j)` of `R·A` is `M[i][i]·C[i][j]`, and
/// vanishes past the last column.
pub proof fn lemma_relates_diagonal_exact(
    r: Seq<Vec<i64>>,
    a: Seq<Vec<i64>>,
    mat: Seq<Vec<i64>>,
    c: Seq<Seq<int>>,
    n: int,
    m: int,
)
    requires
        relates(r, a, mat, c, n, m),
        is_matrix(mat, n, m),
        is_diagonal(mat, n, m),
    ensures
        forall|i: int, j: int|
            0 <= i < n && 0 <= j < m ==> #[trigger] image(r, a, i, j) == diagonal_entry(mat, i, m) * c[i][j],
{
    assert forall|i: int, j: int| 0 <= i < n && 0 <= j < m implies #[trigger] image(r, a, i, j)
        == diagonal_entry(mat, i, m) * c[i][j] by {
        let x = ints(mat[i]@);
        let z = gcol(c, j);
        assert(image(r, a, i, j) == dot(x, z));
        if i < m {
            assert forall|k: int| 0 <= k < x.len() && k != i implies x[k] == 0 by {
                assert(entry(mat, i, k) == 0);
            }
            lemma_dot_single(x, z, i);
            assert(x[i] == entry(mat, i, i) as int);
        } else {
            assert forall|k: int| 0 <= k < x.len() implies x[k] == 0 by {
                assert(entry(mat, i, k) == 0);
            }
            lemma_dot_all_zero(x, z);
        }
    }
}

/// Once `M` is diagonal, row `i` of `R·A` is a multiple of the `i`-th
/// diagonal entry, and vanishes past the last column.
pub proof fn lemma_relates_diagonal(
    r: Seq<Vec<i64>>,
    a: Seq<Vec<i64>>,
    mat: Seq<Vec<i64>>,
    c: Seq<Seq<int>>,
    n: int,
    m: int,
)
    requires
        relates(r, a, mat, c, n, m),
        is_matrix(mat, n, m),
        is_diagonal(mat, n, m),
    ensures
        forall|i: int, j: int|
            0 <= i < n && 0 <= j < m ==> multiple_of(#[trigger] image(r, a, i, j), diagonal_entry(mat, i, m)),
{
    assert forall|i: int, j: int| 0 <= i < n && 0 <= j < m implies multiple_of(
        #[trigger] image(r, a, i, j),
        diagonal_entry(mat, i, m),
    ) by {
        let x = ints(mat[i]@);
        let z = gcol(c, j);
        assert(image(r, a, i, j) == dot(x, z));
        if i < m {
            assert forall|k: int| 0 <= k < x.len() && k != i implies x[k] == 0 by {
                assert(entry(mat, i, k) == 0);
            }
            lemma_dot_single(x, z, i);
            let d = entry(mat, i, i) as int;
            assert(x[i] == d);
            assert(image(r, a, i, j) == d * z[i]);
            if d > 0 {
                lemma_mod_multiples_basic(z[i], d);
                lemma_mul_is_commutative(z[i], d);
                assert((d * z[i]) % d == 0);
            } else if d < 0 {
                lemma_mod_multiples_basic(-z[i], -d);
                assert(d * z[i] == (-z[i]) * (-d)) by (nonlinear_arith);
                assert((d * z[i]) % (-d) == 0);
            } else {
                assert(d * z[i] == 0);
            }
            assert(multiple_of(image(r, a, i, j), diagonal_entry(mat, i, m)));
        } else {
            assert forall|k: int| 0 <= k < x.len() implies x[k] == 0 by {
                assert(entry(mat, i, k) == 0);
            }
            lemma_dot_all_zero(x, z);
            assert(multiple_of(image(r, a, i, j), diagonal_entry(mat, i, m)));
        }
    }
}

/// A copy of a row.
pub(crate) fn copy_row(v: &Vec<i64>) -> (r: Vec<i64>)
    ensures
        r@ == v@,
{
    let mut out: Vec<i64> = Vec::new();
    let mut k: usize = 0;
    while k < v.len()
        invariant
            k <= v.len(),
            out@ == v@.take(k as int),
        decreases v.len() - k,
    {
        out.push(v[k]);
        assert(v@.take(k + 1) =~= v@.take(k as int).push(v@[k as int]));
        k = k + 1;
    }
    assert(v@.take(v.len() as int) =~= v@);
    out
}

/// Exchanges rows `x` and `y`.
fn swap_rows(mat: &mut Vec<Vec<i64>>, x: usize, y: usize)
    requires
        x < old(mat).len(),
        y < old(mat).len(),
    ensures
        final(mat)@ == swapped(old(mat)@, x as int, y as int),
{
    if x == y {
        assert(mat@ =~= swapped(old(mat)@, x as int, y as int));
        return;
    }
    let (lo, hi) = if x < y {
        (x, y)
    } else {
        (y, x)
    };
    let row_hi = mat.remove(hi);
    let row_lo = mat.remove(lo);
    mat.insert(lo, row_hi);
    mat.insert(hi, row_lo);
    assert(mat@ =~= swapped(old(mat)@, x as int, y as int));
}

/// Exchanges columns `x` and `y` of every row.
fn swap_columns(mat: &mut Vec<Vec<i64>>, x: usize, y: usize, n: usize, m: usize)
    requires
        is_matrix(old(mat)@, n as int, m as int),
        x < m,
        y < m,
    ensures
        is_matrix(final(mat)@, n as int, m as int),
        forall|k: int| 0 <= k < n ==> (#[trigger] final(mat)@[k])@ == swapped(old(mat)@[k]@, x as int, y as int),
{
    let mut i: usize = 0;
    while i < n
        invariant
            is_matrix(mat@, n as int, m as int),
            is_matrix(old(mat)@, n as int, m as int),
            x < m,
            y < m,
            i <= n,
            forall|k: int| 0 <= k < i ==> (#[trigger] mat@[k])@ == swapped(old(mat)@[k]@, x as int, y as int),
            forall|k: int| i <= k < n ==> (#[trigger] mat@[k])@ == old(mat)@[k]@,
        decreases n - i,
    {
        let mut row = copy_row(&mat[i]);
        let vx = row[x];
        let vy = row[y];
        row.set(x, vy);
        row.set(y, vx);
        assert(row@ =~= swapped(old(mat)@[i as int]@, x as int, y as int));
        mat.set(i, row);
        i = i + 1;
    }
}

/// `x - q·y` can be computed in `i64`: both `q·y` and the difference fit.
pub open spec fn subtract_fits(x: i64, q: i64, y: i64) -> bool {
    i64::MIN <= q * y <= i64::MAX && i64::MIN <= x - q * y <= i64::MAX
}

/// Row `ri` with `q·rt` subtracted on the columns from `from` on; `None` if
/// an entry leaves `i64`.
fn combined_row(ri: &Vec<i64>, rt: &Vec<i64>, q: i64, from: usize) -> (r: Option<Vec<i64>>)
    requires
        ri.len() == rt.len(),
        from <= ri.len(),
    ensures
        r is Some <==> forall|k: int| from <= k < ri.len() ==> #[trigger] subtract_fits(ri@[k], q, rt@[k]),
        r matches Some(v) ==> v.len() == ri.len() && forall|k: int|
            0 <= k < ri.len() ==> #[trigger] v@[k] == (if k < from {
                ri@[k] as int
            } else {
                ri@[k] - q * rt@[k]
            }),
{
    let mut out = copy_row(ri);
    let mut k: usize = from;
    while k < ri.len()
        invariant
            ri.len() == rt.len(),
            from <= k <= ri.len(),
            out.len() == ri.len(),
            forall|l: int| 0 <= l < ri.len() ==> #[trigger] out@[l] == (if from <= l < k {
                ri@[l] - q * rt@[l]
            } else {
                ri@[l] as int
            }),
            forall|l: int| from <= l < k ==> #[trigger] subtract_fits(ri@[l], q, rt@[l]),
        decreases ri.len() - k,
    {
        let p = match q.checked_mul(rt[k]) {
            Some(p) => p,
            None => {
                assert(!subtract_fits(ri@[k as int], q, rt@[k as int]));
                return None;
            },
        };
        let v = match ri[k].checked_sub(p) {
            Some(v) => v,
            None => {
                assert(!subtract_fits(ri@[k as int], q, rt@[k as int]));
                return None;
            },
        };
        out.set(k, v);
        k = k + 1;
    }
    Some(out)
}

/// Subtracts `q` times column `t` from column `j` in the rows from `from`
/// on; `false` if an entry leaves `i64`.
fn column_subtract(mat: &mut Vec<Vec<i64>>, j: usize, t: usize, q: i64, from: usize, n: usize, m: usize) -> (ok: bool)
    requires
        is_matrix(old(mat)@, n as int, m as int),
        j < m,
        t < m,
        j != t,
        from <= n,
    ensures
        is_matrix(final(mat)@, n as int, m as int),
        ok <==> forall|k: int| from <= k < n ==> #[trigger] subtract_fits(
            old(mat)@[k]@[j as int],
            q,
            old(mat)@[k]@[t as int],
        ),
        ok ==> forall|k: int| 0 <= k < from ==> (#[trigger] final(mat)@[k])@ == old(mat)@[k]@,
        ok ==> forall|k: int| from <= k < n ==> (#[trigger] final(mat)@[k])@ == old(mat)@[k]@.update(
            j as int,
            (old(mat)@[k]@[j as int] - q * old(mat)@[k]@[t as int]) as i64,
        ),
        ok ==> forall|k: int| from <= k < n ==> #[trigger] entry(old(mat)@, k, j as int) - q * entry(old(mat)@, k, t as int)
            == entry(final(mat)@, k, j as int),
{
    let mut i: usize = from;
    while i < n
        invariant
            is_matrix(mat@, n as int, m as int),
            is_matrix(old(mat)@, n as int, m as int),
            j < m,
            t < m,
            j != t,
            from <= i <= n,
            forall|k: int| 0 <= k < from ==> (#[trigger] mat@[k])@ == old(mat)@[k]@,
            forall|k: int| i <= k < n ==> (#[trigger] mat@[k])@ == old(mat)@[k]@,
            forall|k: int| from <= k < i ==> (#[trigger] mat@[k])@ == old(mat)@[k]@.update(
                j as int,
                (old(mat)@[k]@[j as int] - q * old(mat)@[k]@[t as int]) as i64,
            ),
            forall|k: int| from <= k < i ==> #[trigger] entry(old(mat)@, k, j as int) - q * entry(old(mat)@, k, t as int)
                == entry(mat@, k, j as int),
            forall|k: int| from <= k < i ==> #[trigger] subtract_fits(
                old(mat)@[k]@[j as int],
                q,
                old(mat)@[k]@[t as int],
            ),
        decreases n - i,
    {
        let mut row = copy_row(&mat[i]);
        proof {
            assert(row@ == old(mat)@[i as int]@);
        }
        let p = match q.checked_mul(row[t]) {
            Some(p) => p,
            None => {
                assert(!subtract_fits(old(mat)@[i as int]@[j as int], q, old(mat)@[i as int]@[t as int]));
                return false;
            },
        };
        let v = match row[j].checked_sub(p) {
            Some(v) => v,
            None => {
                assert(!subtract_fits(old(mat)@[i as int]@[j as int], q, old(mat)@[i as int]@[t as int]));
                return false;
            },
        };
        row.set(j, v);
        mat.set(i, row);
        i = i + 1;
    }
    true
}

/// The first `t` diagonal entries are nonzero.
pub open spec fn pivots_placed(mat: Seq<Vec<i64>>, t: int) -> bool {
    forall|i: int| 0 <= i < t ==> #[trigger] entry(mat, i, i) != 0
}

/// Division truncated toward zero, as machine division computes it.
pub open spec fn trunc_div(x: int, d: int) -> int {
    if x == 0 {
        0
    } else if x > 0 && d > 0 {
        x / d
    } else if x < 0 && d < 0 {
        (x * -1) / (d * -1)
    } else if x < 0 {
        ((x * -1) / d) * -1
    } else {
        (x / (d * -1)) * -1
    }
}

/// The remainder of truncated division is smaller than the divisor.
pub proof fn lemma_trunc_remainder(x: int, d: int)
    requires
        d != 0,
    ensures
        abs_int(x - trunc_div(x, d) * d) < abs_int(d),
{
    let q = trunc_div(x, d);
    if x == 0 {
    } else if x > 0 && d > 0 {
        lemma_fundamental_div_mod(x, d);
        lemma_mod_pos_bound(x, d);
        lemma_mul_is_commutative(q, d);
    } else if x < 0 && d < 0 {
        lemma_fundamental_div_mod(-x, -d);
        lemma_mod_pos_bound(-x, -d);
        assert(x - q * d == -((-x) - q * (-d))) by (nonlinear_arith);
        lemma_mul_is_commutative(q, -d);
    } else if x < 0 {
        let q0 = (-x) / d;
        lemma_fundamental_div_mod(-x, d);
        lemma_mod_pos_bound(-x, d);
        assert(q == -q0);
        assert(x - q * d == -((-x) - q0 * d)) by (nonlinear_arith)
            requires
                q == -q0,
        ;
        lemma_mul_is_commutative(q0, d);
    } else {
        let q0 = x / (-d);
        lemma_fundamental_div_mod(x, -d);
        lemma_mod_pos_bound(x, -d);
        assert(q == -q0);
        assert(x - q * d == x - q0 * (-d)) by (nonlinear_arith)
            requires
                q == -q0,
        ;
        lemma_mul_is_commutative(q0, -d);
    }
}

/// Exchanging two rows at or below `t` keeps the first `t` rows and columns
/// clear.
pub proof fn lemma_clear_row_swap(mat: Seq<Vec<i64>>, t: int, x: int, y: int, n: int, m: int)
    requires
        is_matrix(mat, n, m),
        clear_before(mat, t, n, m),
        0 <= t <= x < n,
        t <= y < n,
    ensures
        clear_before(swapped(mat, x, y), t, n, m),
        is_matrix(swapped(mat, x, y), n, m),
        pivots_placed(mat, t) ==> pivots_placed(swapped(mat, x, y), t),
{
    let s = swapped(mat, x, y);
    assert forall|i: int, j: int|
        0 <= i < n && 0 <= j < m && i != j && (i < t || j < t) implies #[trigger] entry(s, i, j) == 0 by {
        let src = if i == y {
            x
        } else if i == x {
            y
        } else {
            i
        };
        assert(s[i] == mat[src]);
        assert(entry(mat, src, j) == 0);
    }
    if pivots_placed(mat, t) {
        assert forall|i: int| 0 <= i < t implies #[trigger] entry(s, i, i) != 0 by {
            assert(s[i] == mat[i]);
            assert(entry(mat, i, i) != 0);
        }
    }
    assert forall|i: int| 0 <= i < n implies (#[trigger] s[i])@.len() == m by {
        if i == y {
            assert(s[i] == mat[x]);
        } else if i == x {
            assert(s[i] == mat[y]);
        }
    }
}

/// Exchanging two columns at or right of `t` keeps the first `t` rows and
/// columns clear.
pub proof fn lemma_clear_column_swap(mat: Seq<Vec<i64>>, mat2: Seq<Vec<i64>>, t: int, x: int, y: int, n: int, m: int)
    requires
        is_matrix(mat, n, m),
        is_matrix(mat2, n, m),
        clear_before(mat, t, n, m),
        0 <= t <= x < m,
        t <= y < m,
        t <= n,
        forall|k: int| 0 <= k < n ==> (#[trigger] mat2[k])@ == swapped(mat[k]@, x, y),
    ensures
        clear_before(mat2, t, n, m),
        pivots_placed(mat, t) ==> pivots_placed(mat2, t),
{
    assert forall|i: int, j: int|
        0 <= i < n && 0 <= j < m && i != j && (i < t || j < t) implies #[trigger] entry(mat2, i, j) == 0 by {
        assert(mat2[i]@ == swapped(mat[i]@, x, y));
        let src = if j == y {
            x
        } else if j == x {
            y
        } else {
            j
        };
        assert(entry(mat2, i, j) == entry(mat, i, src));
        if i < t {
            assert(i != src);
        }
    }
    if pivots_placed(mat, t) {
        assert forall|i: int| 0 <= i < t implies #[trigger] entry(mat2, i, i) != 0 by {
            assert(mat2[i]@ == swapped(mat[i]@, x, y));
            assert(entry(mat, i, i) != 0);
        }
    }
}

/// The rows of a machine matrix, as sequences.
pub open spec fn rows(mat: Seq<Vec<i64>>) -> Seq<Seq<i64>> {
    Seq::new(mat.len(), |i: int| mat[i]@)
}

/// A state of the elimination: the matrix, the row transform, the pivot index
/// `t`, the phase (`0`: choose a pivot, `1`: clear the pivot column from row
/// `k` on, `2`: clear the pivot row from column `k` on), `k`, and whether a
/// nonzero remainder has been left since the pivot was chosen.
pub type ElimState = (Seq<Seq<i64>>, Seq<Seq<i64>>, int, int, int, bool);

/// Position `(a, b)` comes before `(i, j)` in row-major order.
pub open spec fn row_major_before(a: int, b: int, i: int, j: int) -> bool {
    a < i || (a == i && b < j)
}

/// `(pi, pj)` is the first entry, in row-major order, of least nonzero
/// absolute value in the block of rows and columns from `t` on.
pub open spec fn is_first_least(g: Seq<Seq<i64>>, t: int, m: int, pi: int, pj: int) -> bool {
    &&& t <= pi < g.len() && t <= pj < m
    &&& g[pi][pj] != 0
    &&& forall|a: int, b: int|
        t <= a < g.len() && t <= b < m && #[trigger] g[a][b] != 0 ==> abs_int(g[pi][pj] as int) <= abs_int(
            g[a][b] as int,
        ) && (row_major_before(a, b, pi, pj) ==> abs_int(g[pi][pj] as int) < abs_int(g[a][b] as int))
}

/// The block of rows and columns from `t` on is zero.
pub open spec fn block_is_zero(g: Seq<Seq<i64>>, t: int, m: int) -> bool {
    forall|a: int, b: int| t <= a < g.len() && t <= b < m ==> #[trigger] g[a][b] == 0
}

/// Row `ri` less `q` times row `rt`, on the columns from `from` on.
pub open spec fn row_minus(ri: Seq<i64>, rt: Seq<i64>, q: i64, from: int) -> Seq<i64> {
    Seq::new(ri.len(), |l: int| if l < from { ri[l] } else { (ri[l] - q * rt[l]) as i64 })
}

/// [`row_minus`] stays within `i64`.
pub open spec fn row_fits(ri: Seq<i64>, rt: Seq<i64>, q: i64, from: int) -> bool {
    forall|l: int| from <= l < ri.len() ==> #[trigger] subtract_fits(ri[l], q, rt[l])
}

/// Column `j` less `q` times column `t`, on the rows from `from` on.
pub open spec fn column_minus(g: Seq<Seq<i64>>, j: int, t: int, q: i64, from: int) -> Seq<Seq<i64>> {
    Seq::new(g.len(), |k: int| if k < from { g[k] } else { g[k].update(j, (g[k][j] - q * g[k][t]) as i64) })
}

/// [`column_minus`] stays within `i64`.
pub open spec fn column_fits(g: Seq<Seq<i64>>, j: int, t: int, q: i64, from: int) -> bool {
    forall|k: int| from <= k < g.len() ==> #[trigger] subtract_fits(g[k][j], q, g[k][t])
}

/// Entries `x` and `y` of a row exchanged.
pub open spec fn entries_swapped(v: Seq<i64>, x: int, y: int) -> Seq<i64> {
    v.update(x, v[y]).update(y, v[x])
}

/// Rows `x` and `y` exchanged.
pub open spec fn rows_swapped(g: Seq<Seq<i64>>, x: int, y: int) -> Seq<Seq<i64>> {
    g.update(x, g[y]).update(y, g[x])
}

/// Columns `x` and `y` exchanged.
pub open spec fn columns_swapped(g: Seq<Seq<i64>>, x: int, y: int) -> Seq<Seq<i64>> {
    Seq::new(g.len(), |k: int| entries_swapped(g[k], x, y))
}

/// The elimination has stopped: a pivot is due but the pivot index has run
/// past the rows or the columns, or the remaining block is zero.
pub open spec fn elim_terminal(s: ElimState, m: int) -> bool {
    s.3 == 0 && (s.2 >= s.0.len() || s.2 >= m || block_is_zero(s.0, s.2, m))
}

/// One step of the elimination of an `n × m` matrix; `None` when an entry
/// leaves `i64`.
///
/// - Choosing a pivot: the first least nonzero entry of the remaining block
///   is moved to `(t, t)` by a row and a column exchange.
/// - Clearing the pivot column at row `k`: `row_k -= q·row_t` on the matrix
///   (from column `t` on) and on the transform, `q` the quotient of `M[k][t]`
///   by the pivot rounded toward zero.
/// - Clearing the pivot row at column `k`: `col_k -= q·col_t` (from row `t`
///   on), `q` the quotient of `M[t][k]` by the pivot.
/// - After the row, the pivot is chosen again at `t` if a remainder was left,
///   else at `t + 1`.
pub open spec fn elim_step(s: ElimState, m: int) -> Option<ElimState> {
    let g = s.0;
    let r = s.1;
    let t = s.2;
    let k = s.4;
    let dirty = s.5;
    if s.3 == 0 {
        let p = choose|p: (int, int)| is_first_least(g, t, m, p.0, p.1);
        Some((columns_swapped(rows_swapped(g, t, p.0), t, p.1), rows_swapped(r, t, p.0), t, 1, t + 1, false))
    } else if s.3 == 1 {
        if k >= g.len() {
            Some((g, r, t, 2, t + 1, dirty))
        } else {
            match g[k][t].checked_div(g[t][t]) {
                None => None,
                Some(q) => if q == 0 {
                    Some((g, r, t, 1, k + 1, dirty || g[k][t] != 0))
                } else if row_fits(g[k], g[t], q, t) && row_fits(r[k], r[t], q, 0) {
                    let g2 = g.update(k, row_minus(g[k], g[t], q, t));
                    Some((g2, r.update(k, row_minus(r[k], r[t], q, 0)), t, 1, k + 1, dirty || g2[k][t] != 0))
                } else {
                    None
                },
            }
        }
    } else {
        if k >= m {
            if dirty {
                Some((g, r, t, 0, 0, false))
            } else {
                Some((g, r, t + 1, 0, 0, false))
            }
        } else {
            match g[t][k].checked_div(g[t][t]) {
                None => None,
                Some(q) => if q == 0 {
                    Some((g, r, t, 2, k + 1, dirty || g[t][k] != 0))
                } else if column_fits(g, k, t, q, t) {
                    let g2 = column_minus(g, k, t, q, t);
                    Some((g2, r, t, 2, k + 1, dirty || g2[t][k] != 0))
                } else {
                    None
                },
            }
        }
    }
}

/// The state after `k` steps from `s`, a stopped state staying put; `None`
/// once an entry has left `i64`.
pub open spec fn elim_steps(s: ElimState, m: int, k: nat) -> Option<ElimState>
    decreases k,
{
    if k == 0 {
        Some(s)
    } else {
        match elim_steps(s, m, (k - 1) as nat) {
            None => None,
            Some(s1) => if elim_terminal(s1, m) {
                Some(s1)
            } else {
                elim_step(s1, m)
            },
        }
    }
}

/// The elimination of `a` with row transform `r0` starts here.
pub open spec fn elim_start(a: Seq<Seq<i64>>, r0: Seq<Seq<i64>>) -> ElimState {
    (a, r0, 0, 0, 0, false)
}

/// The elimination of the `n × m` matrix `a`, the row operations applied
/// also to `r0`, reaches an entry outside `i64`.
pub open spec fn elim_overflows(a: Seq<Seq<i64>>, r0: Seq<Seq<i64>>, m: int) -> bool {
    exists|k: nat| #[trigger] elim_steps(elim_start(a, r0), m, k) is None
}

/// `o` is a stopped state with matrix `g` and transform `r`.
pub open spec fn stopped_with(o: Option<ElimState>, m: int, g: Seq<Seq<i64>>, r: Seq<Seq<i64>>) -> bool {
    match o {
        Some(x) => x.0 == g && x.1 == r && elim_terminal(x, m),
        None => false,
    }
}

/// The elimination of `a` (with `r0`) stops with matrix `g` and transform `r`.
pub open spec fn elim_stops_at(a: Seq<Seq<i64>>, r0: Seq<Seq<i64>>, m: int, g: Seq<Seq<i64>>, r: Seq<Seq<i64>>) -> bool {
    exists|k: nat| stopped_with(#[trigger] elim_steps(elim_start(a, r0), m, k), m, g, r)
}

/// A stopped state stays put.
proof fn lemma_steps_stay(s: ElimState, m: int, k: nat, k2: nat, x: ElimState)
    requires
        elim_steps(s, m, k) == Some(x),
        elim_terminal(x, m),
        k <= k2,
    ensures
        elim_steps(s, m, k2) == Some(x),
    decreases k2,
{
    if k2 > k {
        lemma_steps_stay(s, m, k, (k2 - 1) as nat, x);
    }
}

/// Once an entry has left `i64`, it stays so.
proof fn lemma_steps_none_stays(s: ElimState, m: int, k: nat, k2: nat)
    requires
        elim_steps(s, m, k) is None,
        k <= k2,
    ensures
        elim_steps(s, m, k2) is None,
    decreases k2,
{
    if k2 > k {
        lemma_steps_none_stays(s, m, k, (k2 - 1) as nat);
    }
}

/// An elimination that stops never overflows, and it stops at one state.
pub proof fn lemma_elim_deterministic(
    a: Seq<Seq<i64>>,
    r0: Seq<Seq<i64>>,
    m: int,
    g: Seq<Seq<i64>>,
    r: Seq<Seq<i64>>,
)
    requires
        elim_stops_at(a, r0, m, g, r),
    ensures
        !elim_overflows(a, r0, m),
        forall|g2: Seq<Seq<i64>>, r2: Seq<Seq<i64>>| elim_stops_at(a, r0, m, g2, r2) ==> g2 == g && r2 == r,
{
    let s = elim_start(a, r0);
    let k = choose|k: nat| stopped_with(#[trigger] elim_steps(s, m, k), m, g, r);
    let x = elim_steps(s, m, k)->0;
    assert forall|k2: nat| !(#[trigger] elim_steps(s, m, k2) is None) by {
        if k2 <= k {
            if elim_steps(s, m, k2) is None {
                lemma_steps_none_stays(s, m, k2, k);
            }
        } else {
            lemma_steps_stay(s, m, k, k2, x);
        }
    }
    assert forall|g2: Seq<Seq<i64>>, r2: Seq<Seq<i64>>| elim_stops_at(a, r0, m, g2, r2) implies g2 == g && r2
        == r by {
        let k2 = choose|k2: nat| stopped_with(#[trigger] elim_steps(s, m, k2), m, g2, r2);
        let x2 = elim_steps(s, m, k2)->0;
        if k <= k2 {
            lemma_steps_stay(s, m, k, k2, x);
        } else {
            lemma_steps_stay(s, m, k2, k, x2);
        }
    }
}

/// The matrix and transform at which the elimination of `a` (with `r0`)
/// stops, when it does.
pub open spec fn elim_result(a: Seq<Seq<i64>>, r0: Seq<Seq<i64>>, m: int) -> (Seq<Seq<i64>>, Seq<Seq<i64>>) {
    choose|p: (Seq<Seq<i64>>, Seq<Seq<i64>>)| elim_stops_at(a, r0, m, p.0, p.1)
}

/// Where the elimination stops is its result.
pub proof fn lemma_elim_result(a: Seq<Seq<i64>>, r0: Seq<Seq<i64>>, m: int, g: Seq<Seq<i64>>, r: Seq<Seq<i64>>)
    requires
        elim_stops_at(a, r0, m, g, r),
    ensures
        elim_result(a, r0, m) == (g, r),
        !elim_overflows(a, r0, m),
{
    lemma_elim_deterministic(a, r0, m, g, r);
    assert(elim_stops_at(a, r0, m, (g, r).0, (g, r).1));
    let p = elim_result(a, r0, m);
    assert(elim_stops_at(a, r0, m, p.0, p.1));
}

/// The first least entry is unique, so it is the one the step chooses.
proof fn lemma_first_least_chosen(g: Seq<Seq<i64>>, t: int, m: int, pi: int, pj: int)
    requires
        is_first_least(g, t, m, pi, pj),
    ensures
        (choose|p: (int, int)| is_first_least(g, t, m, p.0, p.1)) == (pi, pj),
{
    assert(is_first_least(g, t, m, (pi, pj).0, (pi, pj).1));
    let p = choose|p: (int, int)| is_first_least(g, t, m, p.0, p.1);
    assert(g[p.0][p.1] != 0);
    assert(g[pi][pj] != 0);
    if p != (pi, pj) {
        if row_major_before(p.0, p.1, pi, pj) {
            assert(abs_int(g[pi][pj] as int) < abs_int(g[p.0][p.1] as int));
            assert(abs_int(g[p.0][p.1] as int) <= abs_int(g[pi][pj] as int));
        } else {
            assert(row_major_before(pi, pj, p.0, p.1));
            assert(abs_int(g[p.0][p.1] as int) < abs_int(g[pi][pj] as int));
            assert(abs_int(g[pi][pj] as int) <= abs_int(g[p.0][p.1] as int));
        }
    }
}

/// Diagonalises the `n × m` matrix `mat` by unimodular row and column
/// operations, accumulating the row operations into `row_transform`.
///
/// Afterwards `R = U·R₀` and `U·A = D·C` for the input `A`, the starting and
/// final row transforms `R₀` and `R`, the diagonal result `D` and integer
/// matrices `U` and `C` that both have integer inverses (they are
/// unimodular): `D = U·A·C⁻¹`. Started from the identity, `R` is `U` itself,
/// and row `i` of `R·A` is a multiple of `D[i][i]`. Returns `false`, leaving
/// the shapes intact, exactly when an entry leaves `i64`; an empty or zero
/// matrix always succeeds.
#[verifier::rlimit(60)]
pub fn diagonalise(mat: &mut Vec<Vec<i64>>, row_transform: &mut Vec<Vec<i64>>, m: usize) -> (ok: bool)
    requires
        is_matrix(old(mat)@, old(mat)@.len() as int, m as int),
        is_matrix(old(row_transform)@, old(mat)@.len() as int, old(mat)@.len() as int),
    ensures
        is_matrix(final(mat)@, old(mat)@.len() as int, m as int),
        is_matrix(final(row_transform)@, old(mat)@.len() as int, old(mat)@.len() as int),
        ok ==> is_diagonal(final(mat)@, old(mat)@.len() as int, m as int),
        ok ==> forall|i: int, k: int|
            0 <= i <= k < old(mat)@.len() && #[trigger] diagonal_entry(final(mat)@, i, m as int) == 0
                ==> #[trigger] diagonal_entry(final(mat)@, k, m as int) == 0,
        ok && is_identity(old(row_transform)@, old(mat)@.len() as int) ==> forall|i: int, j: int|
            0 <= i < old(mat)@.len() && 0 <= j < m ==> multiple_of(
                #[trigger] image(final(row_transform)@, old(mat)@, i, j),
                diagonal_entry(final(mat)@, i, m as int),
            ),
        old(mat)@.len() == 0 || m == 0 || (forall|i: int, j: int|
            0 <= i < old(mat)@.len() && 0 <= j < m ==> #[trigger] entry(old(mat)@, i, j) == 0) ==> ok,
        ok <==> !elim_overflows(rows(old(mat)@), rows(old(row_transform)@), m as int),
        ok ==> elim_stops_at(
            rows(old(mat)@),
            rows(old(row_transform)@),
            m as int,
            rows(final(mat)@),
            rows(final(row_transform)@),
        ),
        ok ==> exists|u: Seq<Seq<int>>, c: Seq<Seq<int>>, l: Seq<Seq<int>>, lc: Seq<Seq<int>>|
            #![trigger left_inverse_int(l, u, old(mat)@.len() as int), left_inverse_int(lc, c, m as int)]
            accumulates(final(row_transform)@, u, old(row_transform)@, old(mat)@.len() as int)
                && relates_int(u, old(mat)@, final(mat)@, c, old(mat)@.len() as int, m as int)
                && left_inverse_int(l, u, old(mat)@.len() as int) && left_inverse_int(lc, c, m as int),
        ok && is_identity(old(row_transform)@, old(mat)@.len() as int) ==> exists|l: Seq<Seq<int>>|
            left_inverse(l, final(row_transform)@, old(mat)@.len() as int),
        ok && is_identity(old(row_transform)@, old(mat)@.len() as int) ==> exists|c: Seq<Seq<int>>, l: Seq<Seq<int>>|
            relates(final(row_transform)@, old(mat)@, final(mat)@, c, old(mat)@.len() as int, m as int)
                && #[trigger] left_inverse_int(l, c, m as int),
{
    let n = mat.len();
    let ghost a0 = mat@;
    let ghost r00 = row_transform@;
    let ghost start = elim_start(rows(mat@), rows(row_transform@));
    let ghost mut steps: nat = 0;
    let ghost zero_input = forall|i: int, j: int| 0 <= i < n && 0 <= j < m ==> #[trigger] entry(a0, i, j) == 0;
    let ghost mut c = identity_int(m as nat);
    let ghost mut u = identity_int(n as nat);
    let ghost mut uinv = identity_int(n as nat);
    let ghost mut cinv = identity_int(m as nat);
    proof {
        lemma_left_inverse_int_initial(m as nat);
        lemma_left_inverse_int_initial(n as nat);
        lemma_accumulates_initial(r00, a0, n as int, m as int);
    }
    let lim = if n < m {
        n
    } else {
        m
    };
    let mut t: usize = 0;
    while t < lim
        invariant
            zero_input ==> t == 0 && mat@ == a0,
            start == elim_start(rows(old(mat)@), rows(old(row_transform)@)),
            elim_steps(start, m as int, steps) == Some((rows(mat@), rows(row_transform@), t as int, 0int, 0int, false)),
            zero_input == forall|i: int, j: int| 0 <= i < n && 0 <= j < m ==> #[trigger] entry(a0, i, j) == 0,
            n == a0.len(),
            a0 == old(mat)@,
            is_matrix(a0, n as int, m as int),
            is_matrix(mat@, n as int, m as int),
            is_matrix(row_transform@, n as int, n as int),
            lim <= n,
            lim <= m,
            lim == n || lim == m,
            t <= lim,
            clear_before(mat@, t as int, n as int, m as int),
            pivots_placed(mat@, t as int),
            relates_int(u, a0, mat@, c, n as int, m as int),
                    accumulates(row_transform@, u, r00, n as int),
                    r00 == old(row_transform)@,
                    left_inverse_int(uinv, u, n as int),
                    left_inverse_int(cinv, c, m as int),
        decreases lim - t,
    {
        let ghost mut bound: int = radix() + 1;
        proof {
            if !block_zero(mat@, t as int, n as int, m as int) {
                let (wi, wj) = choose|wi: int, wj: int|
                    t <= wi < n && t <= wj < m && #[trigger] entry(mat@, wi, wj) != 0;
                assert(block_small(mat@, t as int, n as int, m as int, bound));
            }
        }
        loop
            invariant_except_break
                block_zero(mat@, t as int, n as int, m as int) || block_small(
                    mat@,
                    t as int,
                    n as int,
                    m as int,
                    bound,
                ),
                clear_before(mat@, t as int, n as int, m as int),
                elim_steps(start, m as int, steps) == Some((rows(mat@), rows(row_transform@), t as int, 0int, 0int, false)),
            invariant
                start == elim_start(rows(old(mat)@), rows(old(row_transform)@)),
                zero_input ==> mat@ == a0,
                zero_input == forall|i: int, j: int| 0 <= i < n && 0 <= j < m ==> #[trigger] entry(a0, i, j) == 0,
                pivots_placed(mat@, t as int),
                n == a0.len(),
                a0 == old(mat)@,
                is_matrix(a0, n as int, m as int),
                is_matrix(mat@, n as int, m as int),
                is_matrix(row_transform@, n as int, n as int),
                lim <= n,
                lim <= m,
                lim == n || lim == m,
                t < lim,
                relates_int(u, a0, mat@, c, n as int, m as int),
                    accumulates(row_transform@, u, r00, n as int),
                    r00 == old(row_transform)@,
                    left_inverse_int(uinv, u, n as int),
                    left_inverse_int(cinv, c, m as int),
            ensures
                elim_steps(start, m as int, steps) == Some((rows(mat@), rows(row_transform@), (t + 1) as int, 0int, 0int, false)),
                !zero_input,
                clear_before(mat@, t + 1, n as int, m as int),
                pivots_placed(mat@, t + 1),
            decreases bound,
        {
            let found = find_pivot(mat, t, n, m);
            let (pi, pj) = match found {
                None => {
                    proof {
                        assert(is_diagonal(mat@, n as int, m as int)) by {
                            assert forall|i: int, j: int|
                                0 <= i < n && 0 <= j < m && i != j implies #[trigger] entry(mat@, i, j) == 0 by {
                                if i < t || j < t {
                                } else {
                                    assert(block_zero(mat@, t as int, n as int, m as int));
                                }
                            }
                        }
                        if is_identity(r00, n as int) {
                            lemma_accumulated_from_identity(row_transform@, u, r00, a0, mat@, c, uinv, n as int, m as int);
                            lemma_relates_diagonal(row_transform@, a0, mat@, c, n as int, m as int);
                            assert(left_inverse(uinv, row_transform@, n as int));
                            assert(relates(row_transform@, a0, mat@, c, n as int, m as int) && left_inverse_int(cinv, c, m as int));
                        }
                        assert(left_inverse_int(uinv, u, n as int) && left_inverse_int(cinv, c, m as int));
                        assert(block_is_zero(rows(mat@), t as int, m as int)) by {
                            assert forall|a: int, b: int| t <= a < rows(mat@).len() && t <= b < m implies #[trigger] rows(
                                mat@,
                            )[a][b] == 0 by {
                                assert(entry(mat@, a, b) == 0);
                            }
                        }
                        assert(stopped_with(elim_steps(start, m as int, steps), m as int, rows(mat@), rows(row_transform@)));
                        lemma_elim_deterministic(
                            rows(old(mat)@),
                            rows(old(row_transform)@),
                            m as int,
                            rows(mat@),
                            rows(row_transform@),
                        );
                    }
                    return true;
                },
                Some(p) => p,
            };
            proof {
                if !block_zero(mat@, t as int, n as int, m as int) {
                    let (wi, wj) = choose|wi: int, wj: int|
                        t <= wi < n && t <= wj < m && #[trigger] entry(mat@, wi, wj) != 0 && abs_int(
                            entry(mat@, wi, wj) as int,
                        ) < bound;
                    assert(entry(mat@, wi, wj) != 0);
                }
                assert(abs_int(entry(mat@, pi as int, pj as int) as int) < bound);
                if zero_input {
                    assert(entry(a0, pi as int, pj as int) == 0);
                }
            }
            let ghost m_before = mat@;
            let ghost r_before = row_transform@;
            swap_rows(mat, t, pi);
            swap_rows(row_transform, t, pi);
            proof {
                lemma_left_inverse_int_swap(uinv, u, n as int, t as int, pi as int);
                uinv = Seq::new(n as nat, |a: int| swapped(uinv[a], t as int, pi as int));
                lemma_row_swap_int(r_before, u, r00, a0, m_before, c, n as int, m as int, t as int, pi as int);
                u = swapped(u, t as int, pi as int);
                lemma_clear_row_swap(m_before, t as int, t as int, pi as int, n as int, m as int);
            }
            let ghost m_rows = mat@;
            swap_columns(mat, t, pj, n, m);
            proof {
                lemma_relates_int_column_swap(u, a0, m_rows, mat@, c, n as int, m as int, t as int, pj as int);
                lemma_clear_column_swap(m_rows, mat@, t as int, t as int, pj as int, n as int, m as int);
                lemma_left_inverse_int_swap(cinv, c, m as int, t as int, pj as int);
                cinv = Seq::new(m as nat, |a: int| swapped(cinv[a], t as int, pj as int));
                c = swapped(c, t as int, pj as int);
                assert(entry(mat@, t as int, t as int) == entry(m_before, pi as int, pj as int));
                let g0 = rows(m_before);
                lemma_first_least_chosen(g0, t as int, m as int, pi as int, pj as int);
                assert(g0[pi as int][pj as int] != 0);
                assert(!block_is_zero(g0, t as int, m as int));
                assert(rows(mat@) =~= columns_swapped(rows_swapped(g0, t as int, pi as int), t as int, pj as int)) by {
                    assert forall|k: int| 0 <= k < n implies #[trigger] rows(mat@)[k] =~= columns_swapped(
                        rows_swapped(g0, t as int, pi as int),
                        t as int,
                        pj as int,
                    )[k] by {
                        assert(mat@[k]@ == swapped(m_rows[k]@, t as int, pj as int));
                        assert(m_rows == swapped(m_before, t as int, pi as int));
                    }
                }
                assert(rows(row_transform@) =~= rows_swapped(rows(r_before), t as int, pi as int));
                assert(elim_steps(start, m as int, (steps + 1) as nat) == Some(
                    (rows(mat@), rows(row_transform@), t as int, 1int, t + 1, false),
                ));
                steps = steps + 1;
            }
            let pivot = mat[t][t];
            let ghost old_bound = bound;
            let mut dirty = false;
            let ghost mut wi: int = 0;
            let ghost mut wj: int = 0;
            // Clear the pivot column by row operations.
            let mut i = t + 1;
            while i < n
                invariant
                    n == a0.len(),
                    a0 == old(mat)@,
                    is_matrix(mat@, n as int, m as int),
                    is_matrix(row_transform@, n as int, n as int),
                    t < lim,
                    lim <= n,
                    lim <= m,
                    t + 1 <= i <= n,
                    !zero_input,
                    start == elim_start(rows(old(mat)@), rows(old(row_transform)@)),
                    elim_steps(start, m as int, steps) == Some((rows(mat@), rows(row_transform@), t as int, 1int, i as int, dirty)),
                    zero_input == forall|i: int, j: int| 0 <= i < n && 0 <= j < m ==> #[trigger] entry(a0, i, j) == 0,
                    clear_before(mat@, t as int, n as int, m as int),
                    pivots_placed(mat@, t as int),
                    relates_int(u, a0, mat@, c, n as int, m as int),
                    accumulates(row_transform@, u, r00, n as int),
                    r00 == old(row_transform)@,
                    left_inverse_int(uinv, u, n as int),
                    left_inverse_int(cinv, c, m as int),
                    pivot == entry(mat@, t as int, t as int),
                    pivot != 0,
                    dirty ==> t < wi < i && wj == t && entry(mat@, wi, wj) != 0 && abs_int(
                        entry(mat@, wi, wj) as int,
                    ) < abs_int(pivot as int),
                    !dirty ==> forall|k: int| t < k < i ==> #[trigger] entry(mat@, k, t as int) == 0,
                decreases n - i,
            {
                let ghost g0 = rows(mat@);
                let ghost r0 = rows(row_transform@);
                let ghost d0 = dirty;
                let x = mat[i][t];
                let q = match x.checked_div(pivot) {
                    Some(q) => q,
                    None => {
                        proof {
                            assert(elim_steps(start, m as int, (steps + 1) as nat) is None);
                        }
                        return false;
                    },
                };
                proof {
                    assert(q as int == trunc_div(x as int, pivot as int));
                    lemma_trunc_remainder(x as int, pivot as int);
                }
                if q != 0 {
                    let new_row = match combined_row(&mat[i], &mat[t], q, t) {
                        Some(v) => v,
                        None => {
                            proof {
                            assert(elim_steps(start, m as int, (steps + 1) as nat) is None);
                        }
                        return false;
                        },
                    };
                    let new_rt = match combined_row(&row_transform[i], &row_transform[t], q, 0) {
                        Some(v) => v,
                        None => {
                            proof {
                            assert(elim_steps(start, m as int, (steps + 1) as nat) is None);
                        }
                        return false;
                        },
                    };
                    let ghost m_old = mat@;
                    let ghost r_old = row_transform@;
                    let ghost nr = new_row@;
                    let ghost nt = new_rt@;
                    mat.set(i, new_row);
                    row_transform.set(i, new_rt);
                    proof {
                        assert(mat@[i as int]@ == nr);
                        assert(row_transform@[i as int]@ == nt);
                        assert forall|k: int| 0 <= k < n && k != i implies #[trigger] mat@[k] == m_old[k] by {}
                        assert forall|k: int| 0 <= k < t implies #[trigger] entry(mat@, k, k) != 0 by {
                            assert(mat@[k] == m_old[k]);
                            assert(entry(m_old, k, k) != 0);
                        }
                        if dirty {
                            assert(entry(mat@, wi, wj) == entry(m_old, wi, wj));
                        }
                        assert forall|k: int| t < k < i implies #[trigger] entry(mat@, k, t as int) == entry(
                            m_old,
                            k,
                            t as int,
                        ) by {
                            assert(mat@[k] == m_old[k]);
                        }
                        assert forall|l: int| 0 <= l < m implies #[trigger] entry(mat@, i as int, l) == entry(
                            m_old,
                            i as int,
                            l,
                        ) - q * entry(m_old, t as int, l) by {
                            assert(nr[l] == (if l < t {
                                m_old[i as int]@[l] as int
                            } else {
                                m_old[i as int]@[l] - q * m_old[t as int]@[l]
                            }));
                            if l < t {
                                assert(entry(m_old, i as int, l) == 0);
                                assert(entry(m_old, t as int, l) == 0);
                            }
                        }
                        assert forall|l: int| 0 <= l < n implies #[trigger] entry(row_transform@, i as int, l)
                            == entry(r_old, i as int, l) - q * entry(r_old, t as int, l) by {}
                        lemma_left_inverse_int_op(uinv, u, n as int, i as int, t as int, -q);
                        uinv = Seq::new(n as nat, |a: int| uinv[a].update(t as int, uinv[a][t as int] - (-q) * uinv[a][i as int]));
                        assert(rows(mat@) =~= g0.update(i as int, row_minus(g0[i as int], g0[t as int], q, t as int))) by {
                            assert forall|l: int| 0 <= l < m implies #[trigger] nr[l] == row_minus(
                                g0[i as int],
                                g0[t as int],
                                q,
                                t as int,
                            )[l] by {}
                            assert(nr =~= row_minus(g0[i as int], g0[t as int], q, t as int));
                        }
                        assert(rows(row_transform@) =~= r0.update(i as int, row_minus(r0[i as int], r0[t as int], q, 0))) by {
                            assert forall|l: int| 0 <= l < n implies #[trigger] nt[l] == row_minus(
                                r0[i as int],
                                r0[t as int],
                                q,
                                0,
                            )[l] by {}
                            assert(nt =~= row_minus(r0[i as int], r0[t as int], q, 0));
                        }
                        lemma_row_op_int(
                            r_old,
                            row_transform@,
                            u,
                            r00,
                            a0,
                            m_old,
                            mat@,
                            c,
                            n as int,
                            m as int,
                            i as int,
                            t as int,
                            q as int,
                        );
                        u = column_op_inverse(u, i as int, t as int, -q);
                        assert(clear_before(mat@, t as int, n as int, m as int)) by {
                            assert forall|a: int, b: int|
                                0 <= a < n && 0 <= b < m && a != b && (a < t || b < t) implies #[trigger] entry(
                                mat@,
                                a,
                                b,
                            ) == 0 by {
                                assert(entry(m_old, a, b) == 0);
                            }
                        }
                    }
                }
                let rem = mat[i][t];
                if rem != 0 {
                    dirty = true;
                    proof {
                        wi = i as int;
                        wj = t as int;
                    }
                }
                proof {
                    assert(elim_steps(start, m as int, (steps + 1) as nat) == Some(
                        (rows(mat@), rows(row_transform@), t as int, 1int, i + 1, dirty),
                    ));
                    steps = steps + 1;
                }
                i = i + 1;
            }
            proof {
                assert(elim_steps(start, m as int, (steps + 1) as nat) == Some(
                    (rows(mat@), rows(row_transform@), t as int, 2int, t + 1, dirty),
                ));
                steps = steps + 1;
            }
            // Clear the pivot row by column operations.
            let mut j = t + 1;
            while j < m
                invariant
                    n == a0.len(),
                    a0 == old(mat)@,
                    is_matrix(mat@, n as int, m as int),
                    is_matrix(row_transform@, n as int, n as int),
                    t < lim,
                    lim <= n,
                    lim <= m,
                    t + 1 <= j <= m,
                    !zero_input,
                    start == elim_start(rows(old(mat)@), rows(old(row_transform)@)),
                    elim_steps(start, m as int, steps) == Some((rows(mat@), rows(row_transform@), t as int, 2int, j as int, dirty)),
                    zero_input == forall|i: int, j: int| 0 <= i < n && 0 <= j < m ==> #[trigger] entry(a0, i, j) == 0,
                    clear_before(mat@, t as int, n as int, m as int),
                    pivots_placed(mat@, t as int),
                    relates_int(u, a0, mat@, c, n as int, m as int),
                    accumulates(row_transform@, u, r00, n as int),
                    r00 == old(row_transform)@,
                    left_inverse_int(uinv, u, n as int),
                    left_inverse_int(cinv, c, m as int),
                    pivot == entry(mat@, t as int, t as int),
                    pivot != 0,
                    dirty ==> t <= wi < n && t <= wj < m && (wj == t || (wi == t && wj < j)) && entry(
                        mat@,
                        wi,
                        wj,
                    ) != 0 && abs_int(entry(mat@, wi, wj) as int) < abs_int(pivot as int),
                    !dirty ==> forall|k: int| t < k < n ==> #[trigger] entry(mat@, k, t as int) == 0,
                    !dirty ==> forall|l: int| t < l < j ==> #[trigger] entry(mat@, t as int, l) == 0,
                decreases m - j,
            {
                let ghost g0 = rows(mat@);
                let x = mat[t][j];
                let q = match x.checked_div(pivot) {
                    Some(q) => q,
                    None => {
                        proof {
                            assert(elim_steps(start, m as int, (steps + 1) as nat) is None);
                        }
                        return false;
                    },
                };
                proof {
                    assert(q as int == trunc_div(x as int, pivot as int));
                    lemma_trunc_remainder(x as int, pivot as int);
                }
                if q != 0 {
                    let ghost m_old = mat@;
                    if !column_subtract(mat, j, t, q, t, n, m) {
                        proof {
                            assert(!column_fits(g0, j as int, t as int, q, t as int)) by {
                                let k = choose|k: int| t <= k < n && !#[trigger] subtract_fits(
                                    m_old[k]@[j as int],
                                    q,
                                    m_old[k]@[t as int],
                                );
                                assert(g0[k] == m_old[k]@);
                            }
                            assert(elim_steps(start, m as int, (steps + 1) as nat) is None);
                        }
                        return false;
                    }
                    proof {
                        assert(rows(mat@) =~= column_minus(g0, j as int, t as int, q, t as int)) by {
                            assert forall|k: int| 0 <= k < n implies #[trigger] rows(mat@)[k] =~= column_minus(
                                g0,
                                j as int,
                                t as int,
                                q,
                                t as int,
                            )[k] by {}
                        }
                    }
                    proof {
                        assert forall|k: int| 0 <= k < n implies (#[trigger] mat@[k])@ == m_old[k]@.update(
                            j as int,
                            (m_old[k]@[j as int] - q * m_old[k]@[t as int]) as i64,
                        ) by {
                            if k < t {
                                assert(entry(m_old, k, j as int) == 0);
                                assert(entry(m_old, k, t as int) == 0);
                                assert(m_old[k]@.update(j as int, 0) =~= m_old[k]@);
                            }
                        }
                        assert forall|k: int| 0 <= k < n implies #[trigger] entry(m_old, k, j as int) - q
                            * entry(m_old, k, t as int) == entry(mat@, k, j as int) by {
                            if k < t {
                                assert(entry(m_old, k, j as int) == 0);
                                assert(entry(m_old, k, t as int) == 0);
                            }
                        }
                        lemma_relates_int_column_op(
                            u,
                            a0,
                            m_old,
                            mat@,
                            c,
                            n as int,
                            m as int,
                            t as int,
                            j as int,
                            q as int,
                        );
                        lemma_left_inverse_int_op(cinv, c, m as int, t as int, j as int, q as int);
                        cinv = Seq::new(m as nat, |a: int| cinv[a].update(j as int, cinv[a][j as int] - q * cinv[a][t as int]));
                        c = column_op_inverse(c, t as int, j as int, q as int);
                        assert(clear_before(mat@, t as int, n as int, m as int)) by {
                            assert forall|a: int, b: int|
                                0 <= a < n && 0 <= b < m && a != b && (a < t || b < t) implies #[trigger] entry(
                                mat@,
                                a,
                                b,
                            ) == 0 by {
                                assert(entry(m_old, a, b) == 0);
                                if a < t {
                                    assert(mat@[a]@ == m_old[a]@);
                                }
                            }
                        }
                        assert forall|k: int| 0 <= k < n implies #[trigger] entry(mat@, k, t as int)
                            == entry(m_old, k, t as int) by {
                            assert(mat@[k]@ == m_old[k]@.update(
                                j as int,
                                (m_old[k]@[j as int] - q * m_old[k]@[t as int]) as i64,
                            ));
                        }
                        assert forall|k: int| 0 <= k < t implies #[trigger] entry(mat@, k, k) != 0 by {
                            assert(mat@[k]@ == m_old[k]@);
                            assert(entry(m_old, k, k) != 0);
                        }
                        assert(entry(mat@, t as int, t as int) == entry(m_old, t as int, t as int));
                        if dirty {
                            assert(entry(mat@, wi, wj) == entry(m_old, wi, wj));
                        }
                        assert forall|l: int| t < l < j implies #[trigger] entry(mat@, t as int, l) == entry(
                            m_old,
                            t as int,
                            l,
                        ) by {}
                        assert(entry(m_old, t as int, j as int) - q * entry(m_old, t as int, t as int) == entry(
                            mat@,
                            t as int,
                            j as int,
                        ));
                        assert(entry(mat@, t as int, j as int) as int == x as int - q as int * pivot as int);
                    }
                }
                let rem = mat[t][j];
                proof {
                    if q == 0 {
                        assert(q as int * pivot as int == 0) by (nonlinear_arith)
                            requires
                                q == 0,
                        ;
                    }
                    assert(rem as int == x as int - q as int * pivot as int);
                    assert(abs_int(rem as int) < abs_int(pivot as int));
                }
                if rem != 0 {
                    dirty = true;
                    proof {
                        wi = t as int;
                        wj = j as int;
                    }
                }
                proof {
                    assert(elim_steps(start, m as int, (steps + 1) as nat) == Some(
                        (rows(mat@), rows(row_transform@), t as int, 2int, j + 1, dirty),
                    ));
                    steps = steps + 1;
                }
                j = j + 1;
            }
            proof {
                if dirty {
                    assert(elim_steps(start, m as int, (steps + 1) as nat) == Some(
                        (rows(mat@), rows(row_transform@), t as int, 0int, 0int, false),
                    ));
                } else {
                    assert(elim_steps(start, m as int, (steps + 1) as nat) == Some(
                        (rows(mat@), rows(row_transform@), t + 1, 0int, 0int, false),
                    ));
                }
                steps = steps + 1;
            }
            if !dirty {
                proof {
                    assert forall|a: int, b: int|
                        0 <= a < n && 0 <= b < m && a != b && (a < t + 1 || b < t + 1) implies #[trigger] entry(
                        mat@,
                        a,
                        b,
                    ) == 0 by {
                        if a < t || b < t {
                        } else if a == t {
                            assert(t < b < m);
                        } else {
                            assert(b == t);
                        }
                    }
                }
                break;
            }
            proof {
                bound = abs_int(pivot as int) as int;
                assert(block_small(mat@, t as int, n as int, m as int, bound));
            }
        }
        t = t + 1;
    }
    proof {
        assert(is_diagonal(mat@, n as int, m as int)) by {
            assert forall|i: int, j: int| 0 <= i < n && 0 <= j < m && i != j implies #[trigger] entry(
                mat@,
                i,
                j,
            ) == 0 by {
                assert(i < lim || j < lim);
            }
        }
        if is_identity(r00, n as int) {
                            lemma_accumulated_from_identity(row_transform@, u, r00, a0, mat@, c, uinv, n as int, m as int);
                            lemma_relates_diagonal(row_transform@, a0, mat@, c, n as int, m as int);
                            assert(left_inverse(uinv, row_transform@, n as int));
                            assert(relates(row_transform@, a0, mat@, c, n as int, m as int) && left_inverse_int(cinv, c, m as int));
                        }
                        assert(left_inverse_int(uinv, u, n as int) && left_inverse_int(cinv, c, m as int));
        assert(stopped_with(elim_steps(start, m as int, steps), m as int, rows(mat@), rows(row_transform@)));
        lemma_elim_deterministic(
            rows(old(mat)@),
            rows(old(row_transform)@),
            m as int,
            rows(mat@),
            rows(row_transform@),
        );
    }
    true
}

} // verus!
