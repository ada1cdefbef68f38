//! Tensor constructions over a field: direct sums, tensor products of
//! coordinate arrays, and the endomorphism algebra `V ⊗ V*` acting on
//! vectors and covectors.
use vstd::prelude::*;
use crate::algebra::{CMonoid, CGroup, Rig, Field, lemma_no_zero_divisors, lemma_recip_nonzero};

verus! {

/// `Σₖ x[k]·z[k]` over the indices of `x`, summed left to right.
pub open spec fn fdot<F: Rig>(x: Seq<F>, z: Seq<F>) -> F
    decreases x.len(),
{
    if x.len() == 0 {
        F::zero_spec()
    } else {
        fdot(x.drop_last(), z).add_spec(x.last().mul_spec(z[x.len() - 1]))
    }
}

/// The `i`-th unit vector of length `n` over `F`.
pub open spec fn unit<F: Rig>(n: nat, i: int) -> Seq<F> {
    Seq::new(n, |k: int| if k == i { F::one_spec() } else { F::zero_spec() })
}

/// An additive inverse is unique.
pub proof fn lemma_neg_unique<F: CGroup>(x: F, w: F)
    requires
        x.add_spec(w) == F::zero_spec(),
    ensures
        w == x.neg_spec(),
{
    F::lemma_add_identity(w);
    F::lemma_add_inverse(x);
    F::lemma_add_associative(x.neg_spec(), x, w);
    F::lemma_add_identity(x.neg_spec());
}

/// `(-u)·a = -(u·a)`.
pub proof fn lemma_neg_mul_left<F: CGroup + Rig>(u: F, a: F)
    ensures
        u.neg_spec().mul_spec(a) == u.mul_spec(a).neg_spec(),
{
    F::lemma_distributive(u, u.neg_spec(), a);
    F::lemma_add_inverse(u);
    F::lemma_annihilation(a);
    lemma_neg_unique(u.mul_spec(a), u.neg_spec().mul_spec(a));
}

/// `(p + q) + (r + s) = (p + r) + (q + s)`.
pub proof fn lemma_add_swap_middle<F: CMonoid>(p: F, q: F, r: F, s: F)
    ensures
        p.add_spec(q).add_spec(r.add_spec(s)) == p.add_spec(r).add_spec(q.add_spec(s)),
{
    F::lemma_add_associative(p, q, r.add_spec(s));
    F::lemma_add_associative(q, r, s);
    F::lemma_add_commutative(q, r);
    F::lemma_add_associative(r, q, s);
    F::lemma_add_associative(p, r, q.add_spec(s));
}

/// The sum reads only the first `x.len()` entries of `z`.
pub proof fn lemma_fdot_agree<F: Rig>(x: Seq<F>, z: Seq<F>, w: Seq<F>)
    requires
        forall|k: int| 0 <= k < x.len() ==> z[k] == w[k],
    ensures
        fdot(x, z) == fdot(x, w),
    decreases x.len(),
{
    if x.len() > 0 {
        lemma_fdot_agree(x.drop_last(), z, w);
    }
}

/// Scaling the left factor on the left scales the sum.
pub proof fn lemma_fdot_scale<F: Rig>(s: F, x: Seq<F>, y: Seq<F>, z: Seq<F>)
    requires
        y.len() == x.len(),
        forall|k: int| 0 <= k < x.len() ==> #[trigger] y[k] == s.mul_spec(x[k]),
    ensures
        fdot(y, z) == s.mul_spec(fdot(x, z)),
    decreases x.len(),
{
    if x.len() == 0 {
        F::lemma_annihilation(s);
    } else {
        let l = x.len() - 1;
        lemma_fdot_scale(s, x.drop_last(), y.drop_last(), z);
        assert(y[l] == s.mul_spec(x[l]));
        F::lemma_mul_associative(s, x[l], z[l]);
        F::lemma_distributive(s, fdot(x.drop_last(), z), x[l].mul_spec(z[l]));
    }
}

/// The sum is additive in its left factor.
pub proof fn lemma_fdot_add<F: Rig>(x: Seq<F>, y: Seq<F>, w: Seq<F>, z: Seq<F>)
    requires
        y.len() == x.len(),
        w.len() == x.len(),
        forall|k: int| 0 <= k < x.len() ==> #[trigger] w[k] == x[k].add_spec(y[k]),
    ensures
        fdot(w, z) == fdot(x, z).add_spec(fdot(y, z)),
    decreases x.len(),
{
    if x.len() == 0 {
        F::lemma_add_identity(F::zero_spec());
    } else {
        let l = x.len() - 1;
        lemma_fdot_add(x.drop_last(), y.drop_last(), w.drop_last(), z);
        assert(w[l] == x[l].add_spec(y[l]));
        F::lemma_distributive(x[l], y[l], z[l]);
        lemma_add_swap_middle(
            fdot(x.drop_last(), z),
            fdot(y.drop_last(), z),
            x[l].mul_spec(z[l]),
            y[l].mul_spec(z[l]),
        );
    }
}

/// A row operation: `Σ (x[k] - f·y[k])·z[k] = Σ x[k]·z[k] - f·Σ y[k]·z[k]`.
pub proof fn lemma_fdot_row_op<F: CGroup + Rig>(x: Seq<F>, y: Seq<F>, w: Seq<F>, z: Seq<F>, f: F)
    requires
        y.len() == x.len(),
        w.len() == x.len(),
        forall|k: int| 0 <= k < x.len() ==> #[trigger] w[k] == x[k].add_spec(f.mul_spec(y[k]).neg_spec()),
    ensures
        fdot(w, z) == fdot(x, z).add_spec(f.mul_spec(fdot(y, z)).neg_spec()),
{
    let fy = Seq::new(x.len(), |k: int| f.mul_spec(y[k]));
    let nfy = Seq::new(x.len(), |k: int| f.mul_spec(y[k]).neg_spec());
    let m1 = F::one_spec().neg_spec();
    // -(f·y[k]) = (-1)·(f·y[k])
    assert forall|k: int| 0 <= k < x.len() implies #[trigger] nfy[k] == m1.mul_spec(fy[k]) by {
        lemma_neg_mul_left(F::one_spec(), fy[k]);
        F::lemma_mul_identity(fy[k]);
    }
    lemma_fdot_add(x, nfy, w, z);
    lemma_fdot_scale(m1, fy, nfy, z);
    lemma_fdot_scale(f, y, fy, z);
    lemma_neg_mul_left(F::one_spec(), f.mul_spec(fdot(y, z)));
    F::lemma_mul_identity(f.mul_spec(fdot(y, z)));
}

/// The sum against a unit vector on the left picks one entry.
pub proof fn lemma_fdot_unit<F: Rig>(n: nat, i: int, z: Seq<F>)
    requires
        0 <= i < n,
    ensures
        fdot(unit::<F>(n, i), z) == z[i],
    decreases n,
{
    let e = unit::<F>(n, i);
    if i == n - 1 {
        lemma_fdot_zero_left((n - 1) as nat, z, e.drop_last());
        F::lemma_mul_identity(z[i]);
        F::lemma_add_identity(z[i]);
    } else {
        assert(e.drop_last() =~= unit::<F>((n - 1) as nat, i));
        lemma_fdot_unit((n - 1) as nat, i, z);
        F::lemma_annihilation(z[n - 1]);
        F::lemma_add_identity(z[i]);
    }
}

/// The sum with a zero left factor vanishes.
pub proof fn lemma_fdot_zero_left<F: Rig>(n: nat, z: Seq<F>, x: Seq<F>)
    requires
        x.len() == n,
        forall|k: int| 0 <= k < n ==> x[k] == F::zero_spec(),
    ensures
        fdot(x, z) == F::zero_spec(),
    decreases n,
{
    if n > 0 {
        lemma_fdot_zero_left((n - 1) as nat, z, x.drop_last());
        F::lemma_annihilation(z[n - 1]);
        F::lemma_add_identity(F::zero_spec());
    }
}

/// The sum against a unit vector on the right picks one entry.
pub proof fn lemma_fdot_unit_right<F: Rig>(x: Seq<F>, i: int)
    requires
        0 <= i < x.len(),
    ensures
        fdot(x, unit::<F>(x.len(), i)) == x[i],
{
    lemma_fdot_unit_right_prefix(x, unit::<F>(x.len(), i), i, x.len() as int);
    assert(x.take(x.len() as int) =~= x);
}

/// Summing the first `len` terms against a unit vector at `i`.
proof fn lemma_fdot_unit_right_prefix<F: Rig>(x: Seq<F>, e: Seq<F>, i: int, len: int)
    requires
        0 <= i < x.len(),
        0 <= len <= x.len(),
        e == unit::<F>(x.len(), i),
    ensures
        fdot(x.take(len), e) == (if i < len {
            x[i]
        } else {
            F::zero_spec()
        }),
    decreases len,
{
    if len > 0 {
        let t = x.take(len);
        assert(t.drop_last() =~= x.take(len - 1));
        lemma_fdot_unit_right_prefix(x, e, i, len - 1);
        let l = len - 1;
        if l == i {
            F::lemma_mul_identity(x[i]);
            F::lemma_add_identity(x[i]);
        } else {
            F::lemma_annihilation(x[l]);
            F::lemma_add_identity(if i < len - 1 {
                x[i]
            } else {
                F::zero_spec()
            });
        }
    }
    if len == x.len() {
        assert(x.take(len) =~= x);
    }
}

/// Column `j` of a matrix.
pub open spec fn column<T>(a: Seq<Seq<T>>, j: int) -> Seq<T> {
    Seq::new(a.len(), |k: int| a[k][j])
}

/// The rows of a matrix of vectors.
pub open spec fn rows_of<T>(m: Seq<Vec<T>>) -> Seq<Seq<T>> {
    Seq::new(m.len(), |i: int| m[i]@)
}

/// `m` has `n` rows of `c` entries.
pub open spec fn is_grid<T>(m: Seq<Seq<T>>, n: int, c: int) -> bool {
    m.len() == n && forall|i: int| 0 <= i < n ==> (#[trigger] m[i]).len() == c
}

/// The product `a·b` of matrices, entry `(i, j)`.
pub open spec fn product_entry<F: Rig>(a: Seq<Seq<F>>, b: Seq<Seq<F>>, i: int, j: int) -> F {
    fdot(a[i], column(b, j))
}

/// The `n × n` identity.
pub open spec fn identity_grid<F: Rig>(n: nat) -> Seq<Seq<F>> {
    Seq::new(n, |i: int| unit::<F>(n, i))
}

/// A copy of a row of copyable entries.
fn copy_row<T: Copy>(v: &Vec<T>) -> (r: Vec<T>)
    ensures
        r@ == v@,
{
    let mut out: Vec<T> = Vec::new();
    let mut k: usize = 0;
    while k < v.len()
        invariant
            k <= v.len(),
            out@ == v@.take(k as int),
        decreases v.len() - k,
    {
        out.push(v[k]);
        assert(v@.take(k + 1) =~= v@.take(k as int).push(v@[k as int]));
        k = k + 1;
    }
    assert(v@.take(v.len() as int) =~= v@);
    out
}

/// The coordinate array of a tensor product `U ⊗ V`: `U::N` rows of `V::N`
/// entries. Flat index `n` is row `n / V::N`, column `n % V::N`.
pub struct TensorProductArray<T> {
    rows: Vec<Vec<T>>,
    ncols: usize,
}

impl<T> View for TensorProductArray<T> {
    type V = Seq<Seq<T>>;

    closed spec fn view(&self) -> Seq<Seq<T>> {
        rows_of(self.rows@)
    }
}

impl<T: Copy> TensorProductArray<T> {
    /// The number of columns, `V::N`.
    pub closed spec fn width(self) -> nat {
        self.ncols as nat
    }

    /// Every row has `width()` entries.
    pub open spec fn well_formed(self) -> bool {
        is_grid(self@, self@.len() as int, self.width() as int)
    }

    /// The array with entry `(i, j)` given by `f(i, j)`.
    pub fn from_fn_ij<G: Fn(usize, usize) -> T>(n_rows: usize, n_cols: usize, f: G) -> (r: Self)
        requires
            forall|i: usize, j: usize| i < n_rows && j < n_cols ==> f.requires((i, j)),
        ensures
            r.well_formed(),
            r@.len() == n_rows,
            r.width() == n_cols,
            forall|i: int, j: int| 0 <= i < n_rows && 0 <= j < n_cols ==> f.ensures((i as usize, j as usize), #[trigger] r@[i][j]),
    {
        let mut rows: Vec<Vec<T>> = Vec::new();
        let mut i: usize = 0;
        while i < n_rows
            invariant
                i <= n_rows,
                forall|i: usize, j: usize| i < n_rows && j < n_cols ==> f.requires((i, j)),
                is_grid(rows_of(rows@), i as int, n_cols as int),
                forall|a: int, b: int| 0 <= a < i && 0 <= b < n_cols ==> f.ensures((a as usize, b as usize), #[trigger] rows@[a]@[b]),
            decreases n_rows - i,
        {
            let mut row: Vec<T> = Vec::new();
            let mut j: usize = 0;
            while j < n_cols
                invariant
                    i < n_rows,
                    j <= n_cols,
                    forall|i: usize, j: usize| i < n_rows && j < n_cols ==> f.requires((i, j)),
                    row@.len() == j,
                    forall|b: int| 0 <= b < j ==> f.ensures((i, b as usize), #[trigger] row@[b]),
                decreases n_cols - j,
            {
                let x = f(i, j);
                row.push(x);
                j = j + 1;
            }
            let ghost before = rows@;
            let ghost rv = row@;
            rows.push(row);
            proof {
                assert(rows@[i as int]@ == rv);
                assert forall|a: int, b: int| 0 <= a < i + 1 && 0 <= b < n_cols implies f.ensures((a as usize, b as usize), #[trigger] rows@[a]@[b]) by {
                    if a < i {
                        assert(rows@[a] == before[a]);
                    }
                }
                assert forall|a: int| 0 <= a < i + 1 implies (#[trigger] rows_of(rows@)[a]).len() == n_cols by {
                    if a < i {
                        assert(rows@[a] == before[a]);
                        assert(rows_of(before)[a].len() == n_cols);
                    }
                }
            }
            i = i + 1;
        }
        let r = TensorProductArray { rows, ncols: n_cols };
        assert forall|a: int, b: int| 0 <= a < n_rows && 0 <= b < n_cols implies f.ensures((a as usize, b as usize), #[trigger] r@[a][b]) by {
            assert(r@[a] == rows@[a]@);
        }
        r
    }

    /// Entry `(i, j)`.
    pub fn get(&self, i: usize, j: usize) -> (r: T)
        requires
            self.well_formed(),
            i < self@.len(),
            j < self.width(),
        ensures
            r == self@[i as int][j as int],
    {
        assert(self@[i as int] == self.rows@[i as int]@);
        self.rows[i][j]
    }

    /// The entry at flat index `n`: row `n / V::N`, column `n % V::N`.
    pub fn index(&self, n: usize) -> (r: T)
        requires
            self.well_formed(),
            self.width() > 0,
            n < self@.len() * self.width(),
        ensures
            r == self@[(n as int) / (self.width() as int)][(n as int) % (self.width() as int)],
    {
        proof {
            let w = self.width() as int;
            let ni = n as int;
            vstd::arithmetic::div_mod::lemma_fundamental_div_mod(ni, w);
            vstd::arithmetic::div_mod::lemma_mod_pos_bound(ni, w);
            assert(ni / w < self@.len()) by (nonlinear_arith)
                requires
                    ni < self@.len() * w,
                    ni == w * (ni / w) + ni % w,
                    0 <= ni % w,
                    w > 0,
            ;
            assert(ni / w >= 0) by (nonlinear_arith)
                requires
                    ni >= 0,
                    w > 0,
                    ni == w * (ni / w) + ni % w,
                    ni % w < w,
            ;
        }
        assert(self@[(n / self.ncols) as int] == self.rows@[(n / self.ncols) as int]@);
        self.rows[n / self.ncols][n % self.ncols]
    }
}

/// `x - f·0 = x`.
pub proof fn lemma_subtract_zero<F: CGroup + Rig>(x: F, f: F)
    ensures
        x.add_spec(f.mul_spec(F::zero_spec()).neg_spec()) == x,
{
    F::lemma_annihilation(f);
    F::lemma_add_identity(F::zero_spec());
    lemma_neg_unique(F::zero_spec(), F::zero_spec());
    F::lemma_add_identity(x);
}

/// `f - f·1 = 0`.
pub proof fn lemma_subtract_self<F: CGroup + Rig>(f: F)
    ensures
        f.add_spec(f.mul_spec(F::one_spec()).neg_spec()) == F::zero_spec(),
{
    F::lemma_mul_identity(f);
    F::lemma_add_inverse(f);
}

/// `Σₖ row[k]·v[k]`, summed left to right.
fn row_dot<F: Field>(row: &Vec<F>, v: &Vec<F>) -> (r: F)
    requires
        row@.len() <= v@.len(),
    ensures
        r == fdot(row@, v@),
{
    let mut sum = F::zero();
    let mut k: usize = 0;
    while k < row.len()
        invariant
            k <= row@.len(),
            row@.len() <= v@.len(),
            sum == fdot(row@.take(k as int), v@),
        decreases row@.len() - k,
    {
        proof {
            assert(row@.take(k + 1).drop_last() =~= row@.take(k as int));
        }
        sum = sum.add(&row[k].mul(&v[k]));
        k = k + 1;
    }
    assert(row@.take(row@.len() as int) =~= row@);
    sum
}

/// Exchanges rows `x` and `y`, moving the rows themselves.
fn swap_rows<T>(m: &mut Vec<Vec<T>>, x: usize, y: usize)
    requires
        x < old(m).len(),
        y < old(m).len(),
    ensures
        final(m)@ == old(m)@.update(x as int, old(m)@[y as int]).update(y as int, old(m)@[x as int]),
{
    if x == y {
        assert(m@ =~= old(m)@.update(x as int, old(m)@[y as int]).update(y as int, old(m)@[x as int]));
        return;
    }
    let (lo, hi) = if x < y {
        (x, y)
    } else {
        (y, x)
    };
    let row_hi = m.remove(hi);
    let row_lo = m.remove(lo);
    m.insert(lo, row_hi);
    m.insert(hi, row_lo);
    assert(m@ =~= old(m)@.update(x as int, old(m)@[y as int]).update(y as int, old(m)@[x as int]));
}

/// Multiplies row `r` by `s` on the left.
fn scale_row<F: Field>(m: &mut Vec<Vec<F>>, r: usize, s: F)
    requires
        r < old(m).len(),
    ensures
        final(m)@.len() == old(m)@.len(),
        forall|k: int| 0 <= k < old(m)@.len() && k != r ==> (#[trigger] final(m)@[k])@ == old(m)@[k]@,
        final(m)@[r as int]@.len() == old(m)@[r as int]@.len(),
        forall|j: int| 0 <= j < old(m)@[r as int]@.len() ==> #[trigger] final(m)@[r as int]@[j] == s.mul_spec(old(m)@[r as int]@[j]),
{
    let mut row = copy_row(&m[r]);
    let mut j: usize = 0;
    while j < row.len()
        invariant
            r < old(m)@.len(),
            j <= row@.len(),
            row@.len() == old(m)@[r as int]@.len(),
            forall|q: int| 0 <= q < row@.len() ==> #[trigger] row@[q] == (if q < j {
                s.mul_spec(old(m)@[r as int]@[q])
            } else {
                old(m)@[r as int]@[q]
            }),
        decreases row@.len() - j,
    {
        let x = s.mul(&row[j]);
        row.set(j, x);
        j = j + 1;
    }
    m.set(r, row);
}

/// Subtracts `f` times row `c` from row `r`.
fn subtract_row<F: Field>(m: &mut Vec<Vec<F>>, r: usize, c: usize, f: F)
    requires
        r < old(m).len(),
        c < old(m).len(),
        r != c,
        old(m)@[r as int]@.len() == old(m)@[c as int]@.len(),
    ensures
        final(m)@.len() == old(m)@.len(),
        forall|k: int| 0 <= k < old(m)@.len() && k != r ==> (#[trigger] final(m)@[k])@ == old(m)@[k]@,
        final(m)@[r as int]@.len() == old(m)@[r as int]@.len(),
        forall|j: int| 0 <= j < old(m)@[r as int]@.len() ==> #[trigger] final(m)@[r as int]@[j] == old(m)@[r as int]@[j].add_spec(
            f.mul_spec(old(m)@[c as int]@[j]).neg_spec(),
        ),
{
    let mut row = copy_row(&m[r]);
    let pivot_row = &m[c];
    let mut j: usize = 0;
    while j < row.len()
        invariant
            r < old(m)@.len(),
            c < old(m)@.len(),
            pivot_row@ == old(m)@[c as int]@,
            j <= row@.len(),
            row@.len() == old(m)@[r as int]@.len(),
            row@.len() == pivot_row@.len(),
            forall|q: int| 0 <= q < row@.len() ==> #[trigger] row@[q] == (if q < j {
                old(m)@[r as int]@[q].add_spec(f.mul_spec(old(m)@[c as int]@[q]).neg_spec())
            } else {
                old(m)@[r as int]@[q]
            }),
        decreases row@.len() - j,
    {
        let x = row[j].sub(&f.mul(&pivot_row[j]));
        row.set(j, x);
        j = j + 1;
    }
    m.set(r, row);
}

/// `Σᵢ v[i]·m[i][j]`, summed over the rows in order.
fn dual_dot<F: Field>(v: &Vec<F>, m: &Vec<Vec<F>>, j: usize, n: usize) -> (r: F)
    requires
        is_grid(rows_of(m@), n as int, n as int),
        v@.len() == n,
        j < n,
    ensures
        r == fdot(v@, column(rows_of(m@), j as int)),
{
    let ghost col = column(rows_of(m@), j as int);
    let mut sum = F::zero();
    let mut i: usize = 0;
    while i < n
        invariant
            i <= n,
            is_grid(rows_of(m@), n as int, n as int),
            v@.len() == n,
            j < n,
            col == column(rows_of(m@), j as int),
            sum == fdot(v@.take(i as int), col),
        decreases n - i,
    {
        proof {
            assert(v@.take(i + 1).drop_last() =~= v@.take(i as int));
            assert(rows_of(m@)[i as int] == m@[i as int]@);
            assert(rows_of(m@)[i as int].len() == n);
        }
        sum = sum.add(&v[i].mul(&m[i][j]));
        i = i + 1;
    }
    assert(v@.take(n as int) =~= v@);
    sum
}

/// The balanced tensor product `U ⊗ V` of coordinate vectors over a field.
/// Square products `V ⊗ V*` are the endomorphisms of `V`, acting on vectors
/// and covectors and composing.
pub struct TensorProduct<F>(pub(crate) TensorProductArray<F>);

impl<F> View for TensorProduct<F> {
    type V = Seq<Seq<F>>;

    closed spec fn view(&self) -> Seq<Seq<F>> {
        self.0@
    }
}

impl<F: Field> TensorProduct<F> {
    /// The number of columns, `V::N`.
    pub closed spec fn width(self) -> nat {
        self.0.width()
    }

    /// `n` rows of `n` entries each.
    pub open spec fn is_square(self, n: nat) -> bool {
        self.width() == n && is_grid(self@, n as int, n as int)
    }

    /// The tensor with coordinate `(i, j)` given by `f(i, j)`.
    pub fn from_fn_ij<G: Fn(usize, usize) -> F>(n_rows: usize, n_cols: usize, f: G) -> (r: Self)
        requires
            forall|i: usize, j: usize| i < n_rows && j < n_cols ==> f.requires((i, j)),
        ensures
            is_grid(r@, n_rows as int, n_cols as int),
            r.width() == n_cols,
            forall|i: int, j: int| 0 <= i < n_rows && 0 <= j < n_cols ==> f.ensures((i as usize, j as usize), #[trigger] r@[i][j]),
    {
        TensorProduct(TensorProductArray::from_fn_ij(n_rows, n_cols, f))
    }

    /// The pure tensor `a ⊗ b`: coordinate `(i, j)` is `a[i]·b[j]`.
    pub fn pure(a: &Vec<F>, b: &Vec<F>) -> (r: Self)
        ensures
            is_grid(r@, a@.len() as int, b@.len() as int),
            r.width() == b@.len(),
            forall|i: int, j: int| 0 <= i < a@.len() && 0 <= j < b@.len() ==> #[trigger] r@[i][j] == a@[i].mul_spec(b@[j]),
    {
        let f = |i: usize, j: usize| -> (x: F)
            requires
                i < a@.len(),
                j < b@.len(),
            ensures
                x == a@[i as int].mul_spec(b@[j as int]),
            { a[i].mul(&b[j]) };
        TensorProduct(TensorProductArray::from_fn_ij(a.len(), b.len(), f))
    }

    /// Coordinate `(i, j)`.
    pub fn get(&self, i: usize, j: usize) -> (r: F)
        requires
            is_grid(self@, self@.len() as int, self.width() as int),
            i < self@.len(),
            j < self.width(),
        ensures
            r == self@[i as int][j as int],
    {
        self.0.get(i, j)
    }

    /// The coordinate at flat index `n`, outer factor first: row `n / V::N`,
    /// column `n % V::N`.
    pub fn index(&self, n: usize) -> (r: F)
        requires
            is_grid(self@, self@.len() as int, self.width() as int),
            self.width() > 0,
            n < self@.len() * self.width(),
        ensures
            r == self@[(n as int) / (self.width() as int)][(n as int) % (self.width() as int)],
    {
        self.0.index(n)
    }

    /// The identity endomorphism of an `n`-dimensional space.
    pub fn identity(n: usize) -> (r: Self)
        ensures
            r.is_square(n as nat),
            r@ == identity_grid::<F>(n as nat),
    {
        let f = |i: usize, j: usize| -> (x: F)
            ensures
                x == (if i == j {
                    F::one_spec()
                } else {
                    F::zero_spec()
                }),
            {
                if i == j {
                    F::one()
                } else {
                    F::zero()
                }
            };
        let r = TensorProduct(TensorProductArray::from_fn_ij(n, n, f));
        assert(r@ =~= identity_grid::<F>(n as nat)) by {
            assert forall|i: int| 0 <= i < n implies #[trigger] r@[i] == identity_grid::<F>(n as nat)[i] by {
                assert(r@[i] =~= unit::<F>(n as nat, i));
            }
        }
        r
    }

    /// The endomorphism applied to a vector: `(A·v)[i] = Σⱼ A[i][j]·v[j]`.
    pub fn mul_v(&self, v: &Vec<F>) -> (r: Vec<F>)
        requires
            self.is_square(v@.len()),
        ensures
            r@.len() == v@.len(),
            forall|i: int| 0 <= i < v@.len() ==> #[trigger] r@[i] == fdot(self@[i], v@),
    {
        let n = v.len();
        let mut out: Vec<F> = Vec::new();
        let mut i: usize = 0;
        while i < n
            invariant
                i <= n,
                n == v@.len(),
                self.is_square(n as nat),
                out@.len() == i,
                forall|k: int| 0 <= k < i ==> #[trigger] out@[k] == fdot(self@[k], v@),
            decreases n - i,
        {
            proof {
                assert(self@[i as int] == self.0.rows@[i as int]@);
            }
            out.push(row_dot(&self.0.rows[i], v));
            i = i + 1;
        }
        out
    }

    /// The endomorphism applied to a covector: `(v·A)[j] = Σᵢ v[i]·A[i][j]`.
    pub fn mul_dual_v(&self, v: &Vec<F>) -> (r: Vec<F>)
        requires
            self.is_square(v@.len()),
        ensures
            r@.len() == v@.len(),
            forall|j: int| 0 <= j < v@.len() ==> #[trigger] r@[j] == fdot(v@, column(self@, j)),
    {
        let n = v.len();
        let mut out: Vec<F> = Vec::new();
        let mut j: usize = 0;
        while j < n
            invariant
                j <= n,
                n == v@.len(),
                self.is_square(n as nat),
                rows_of(self.0.rows@) == self@,
                out@.len() == j,
                forall|k: int| 0 <= k < j ==> #[trigger] out@[k] == fdot(v@, column(self@, k)),
            decreases n - j,
        {
            out.push(dual_dot(v, &self.0.rows, j, n));
            j = j + 1;
        }
        out
    }

    /// The composite `self ∘ rhs`: `(A·B)[i][j] = Σₖ A[i][k]·B[k][j]`.
    pub fn compose(&self, rhs: &Self) -> (r: Self)
        requires
            self.is_square(self@.len()),
            rhs.is_square(self@.len()),
        ensures
            r.is_square(self@.len()),
            forall|i: int, j: int| 0 <= i < self@.len() && 0 <= j < self@.len() ==> #[trigger] r@[i][j]
                == product_entry(self@, rhs@, i, j),
    {
        let n = self.0.rows.len();
        let mut rows: Vec<Vec<F>> = Vec::new();
        let mut i: usize = 0;
        while i < n
            invariant
                i <= n,
                n == self@.len(),
                self.is_square(n as nat),
                rhs.is_square(n as nat),
                rows_of(self.0.rows@) == self@,
                rows_of(rhs.0.rows@) == rhs@,
                is_grid(rows_of(rows@), i as int, n as int),
                forall|a: int, b: int| 0 <= a < i && 0 <= b < n ==> #[trigger] rows@[a]@[b] == product_entry(self@, rhs@, a, b),
            decreases n - i,
        {
            let mut row: Vec<F> = Vec::new();
            let mut j: usize = 0;
            while j < n
                invariant
                    i < n,
                    j <= n,
                    n == self@.len(),
                    self.is_square(n as nat),
                    rhs.is_square(n as nat),
                    rows_of(self.0.rows@) == self@,
                    rows_of(rhs.0.rows@) == rhs@,
                    row@.len() == j,
                    forall|b: int| 0 <= b < j ==> #[trigger] row@[b] == product_entry(self@, rhs@, i as int, b),
                decreases n - j,
            {
                proof {
                    assert(self@[i as int] == self.0.rows@[i as int]@);
                }
                let x = dual_dot(&self.0.rows[i], &rhs.0.rows, j, n);
                row.push(x);
                j = j + 1;
            }
            let ghost before = rows@;
            let ghost rv = row@;
            rows.push(row);
            proof {
                assert(rows@[i as int]@ == rv);
                assert forall|a: int, b: int| 0 <= a < i + 1 && 0 <= b < n implies #[trigger] rows@[a]@[b] == product_entry(self@, rhs@, a, b) by {
                    if a < i {
                        assert(rows@[a] == before[a]);
                    }
                }
                assert forall|a: int| 0 <= a < i + 1 implies (#[trigger] rows_of(rows@)[a]).len() == n by {
                    if a < i {
                        assert(rows@[a] == before[a]);
                        assert(rows_of(before)[a].len() == n);
                    }
                }
            }
            i = i + 1;
        }
        let r = TensorProduct(TensorProductArray { rows, ncols: n });
        assert forall|a: int, b: int| 0 <= a < n && 0 <= b < n implies #[trigger] r@[a][b] == product_entry(self@, rhs@, a, b) by {
            assert(r@[a] == rows@[a]@);
        }
        r
    }
}

/// A grid of rows of vectors has rows of the given length.
pub proof fn lemma_grid_rows<T>(m: Seq<Vec<T>>, n: int)
    requires
        is_grid(rows_of(m), n, n),
    ensures
        m.len() == n,
        forall|q: int| 0 <= q < n ==> (#[trigger] m[q])@.len() == n,
{
    assert forall|q: int| 0 <= q < n implies (#[trigger] m[q])@.len() == n by {
        assert(rows_of(m)[q] == m[q]@);
    }
}

/// `inv·A = M`: each row of `M` is the matching row of `inv` applied to the
/// columns of `A`.
pub open spec fn transforms<F: Rig>(inv: Seq<Seq<F>>, a: Seq<Seq<F>>, m: Seq<Seq<F>>, n: int) -> bool {
    forall|r: int, j: int| 0 <= r < n && 0 <= j < n ==> #[trigger] fdot(inv[r], column(a, j)) == m[r][j]
}

/// The first `c` columns of `m` are those of the identity.
pub open spec fn reduced_through<F: Rig>(m: Seq<Seq<F>>, c: int, n: int) -> bool {
    forall|r: int, k: int| 0 <= r < n && 0 <= k < c ==> #[trigger] m[r][k] == (if r == k {
        F::one_spec()
    } else {
        F::zero_spec()
    })
}

/// `A·x = 0`: every row of `a` sums to zero against `x`.
pub open spec fn annihilates<F: Rig>(a: Seq<Seq<F>>, x: Seq<F>) -> bool {
    forall|r: int| 0 <= r < a.len() ==> #[trigger] fdot(a[r], x) == F::zero_spec()
}

/// Some nonzero vector with one entry per row of `a` is sent to zero.
pub open spec fn is_singular<F: Rig>(a: Seq<Seq<F>>) -> bool {
    exists|x: Seq<F>|
        #![trigger annihilates(a, x)]
        x.len() == a.len() && annihilates(a, x) && exists|k: int| 0 <= k < x.len() && x[k] != F::zero_spec()
}

/// `a` and `b` send the same vectors of length `n` to zero.
pub open spec fn same_kernel<F: Rig>(a: Seq<Seq<F>>, b: Seq<Seq<F>>, n: int) -> bool {
    forall|x: Seq<F>|
        #![trigger annihilates(a, x)]
        #![trigger annihilates(b, x)]
        x.len() == n ==> (annihilates(a, x) <==> annihilates(b, x))
}

/// The sum is additive in its right factor.
pub proof fn lemma_fdot_add_right<F: Rig>(y: Seq<F>, u: Seq<F>, v: Seq<F>, x: Seq<F>)
    requires
        forall|k: int| 0 <= k < y.len() ==> #[trigger] x[k] == u[k].add_spec(v[k]),
    ensures
        fdot(y, x) == fdot(y, u).add_spec(fdot(y, v)),
    decreases y.len(),
{
    if y.len() == 0 {
        F::lemma_add_identity(F::zero_spec());
    } else {
        let l = y.len() - 1;
        lemma_fdot_add_right(y.drop_last(), u, v, x);
        assert(x[l] == u[l].add_spec(v[l]));
        F::lemma_distributive(y[l], u[l], v[l]);
        lemma_add_swap_middle(
            fdot(y.drop_last(), u),
            fdot(y.drop_last(), v),
            y[l].mul_spec(u[l]),
            y[l].mul_spec(v[l]),
        );
    }
}

/// A sum whose terms vanish away from index `i` is its `i`-th term.
pub proof fn lemma_fdot_single_term<F: Rig>(y: Seq<F>, x: Seq<F>, i: int)
    requires
        0 <= i < y.len(),
        forall|k: int| 0 <= k < y.len() && k != i ==> #[trigger] y[k].mul_spec(x[k]) == F::zero_spec(),
    ensures
        fdot(y, x) == y[i].mul_spec(x[i]),
{
    lemma_fdot_single_term_prefix(y, x, i, y.len() as int);
    assert(y.take(y.len() as int) =~= y);
}

/// The first `len` terms of a sum whose terms vanish away from index `i`.
proof fn lemma_fdot_single_term_prefix<F: Rig>(y: Seq<F>, x: Seq<F>, i: int, len: int)
    requires
        0 <= i < y.len(),
        0 <= len <= y.len(),
        forall|k: int| 0 <= k < y.len() && k != i ==> #[trigger] y[k].mul_spec(x[k]) == F::zero_spec(),
    ensures
        fdot(y.take(len), x) == (if i < len {
            y[i].mul_spec(x[i])
        } else {
            F::zero_spec()
        }),
    decreases len,
{
    if len > 0 {
        let t = y.take(len);
        assert(t.drop_last() =~= y.take(len - 1));
        lemma_fdot_single_term_prefix(y, x, i, len - 1);
        let l = len - 1;
        if l == i {
            F::lemma_add_identity(y[i].mul_spec(x[i]));
        } else {
            assert(y[l].mul_spec(x[l]) == F::zero_spec());
            F::lemma_add_identity(if i < len - 1 {
                y[i].mul_spec(x[i])
            } else {
                F::zero_spec()
            });
        }
    }
}

/// Exchanging the order of a double sum: `Σⱼ (Σₖ x[k]·b[k][j])·c[j] =
/// Σₖ x[k]·(Σⱼ b[k][j]·c[j])`, the entries of `(x·B)·c` and `x·(B·c)`.
pub proof fn lemma_fdot_exchange<F: Rig>(x: Seq<F>, b: Seq<Seq<F>>, c: Seq<F>, m: nat)
    requires
        b.len() >= x.len(),
        forall|k: int| 0 <= k < x.len() ==> (#[trigger] b[k]).len() == m,
    ensures
        fdot(Seq::new(m, |j: int| fdot(x, column(b, j))), c) == fdot(
            x,
            Seq::new(x.len(), |k: int| fdot(b[k], c)),
        ),
    decreases x.len(),
{
    let lhs = Seq::new(m, |j: int| fdot(x, column(b, j)));
    let rhs = Seq::new(x.len(), |k: int| fdot(b[k], c));
    if x.len() == 0 {
        lemma_fdot_zero_left(m, c, lhs);
    } else {
        let l = x.len() - 1;
        let xs = x.drop_last();
        let s = x[l];
        lemma_fdot_exchange(xs, b, c, m);
        let l1 = Seq::new(m, |j: int| fdot(xs, column(b, j)));
        let l2 = Seq::new(m, |j: int| s.mul_spec(b[l][j]));
        assert forall|j: int| 0 <= j < m implies #[trigger] lhs[j] == l1[j].add_spec(l2[j]) by {
            assert(column(b, j)[l] == b[l][j]);
        }
        lemma_fdot_add(l1, l2, lhs, c);
        lemma_fdot_scale(s, b[l], l2, c);
        let rs = Seq::new(xs.len(), |k: int| fdot(b[k], c));
        lemma_fdot_agree(xs, rhs, rs);
    }
}

/// A left inverse with trivial kernel is a right inverse: if `B·A = I` and
/// `B·x = 0` only for `x = 0`, then `A·B = I`.
pub proof fn lemma_left_inverse_is_right<F: CGroup + Rig>(a: Seq<Seq<F>>, b: Seq<Seq<F>>, n: nat)
    requires
        is_grid(a, n as int, n as int),
        is_grid(b, n as int, n as int),
        forall|i: int, j: int| 0 <= i < n && 0 <= j < n ==> #[trigger] product_entry(b, a, i, j) == identity_grid::<F>(n)[i][j],
        forall|x: Seq<F>| x.len() == n && #[trigger] annihilates(b, x) ==> forall|k: int| 0 <= k < n ==> #[trigger] x[k] == F::zero_spec(),
    ensures
        forall|i: int, j: int| 0 <= i < n && 0 <= j < n ==> #[trigger] product_entry(a, b, i, j) == identity_grid::<F>(n)[i][j],
{
    assert forall|i: int, l: int| 0 <= i < n && 0 <= l < n implies #[trigger] product_entry(a, b, i, l) == identity_grid::<F>(n)[i][l] by {
        // `y`, column `l` of `A·B`, and `u`, column `l` of `I`.
        let y = Seq::new(n, |k: int| fdot(a[k], column(b, l)));
        let u = unit::<F>(n, l);
        let z = Seq::new(n, |k: int| y[k].add_spec(u[k].neg_spec()));
        assert forall|r: int| 0 <= r < n implies #[trigger] fdot(b[r], z) == F::zero_spec() by {
            // `B·y = (B·A)·column(B, l) = column(B, l)`.
            lemma_fdot_exchange(b[r], a, column(b, l), n);
            assert(Seq::new(n, |j: int| fdot(b[r], column(a, j))) =~= unit::<F>(n, r)) by {
                assert forall|j: int| 0 <= j < n implies #[trigger] fdot(b[r], column(a, j)) == unit::<F>(n, r)[j] by {
                    assert(product_entry(b, a, r, j) == identity_grid::<F>(n)[r][j]);
                }
            }
            lemma_fdot_unit::<F>(n, r, column(b, l));
            assert(Seq::new(b[r].len(), |k: int| fdot(a[k], column(b, l))) =~= y);
            lemma_fdot_unit_right(b[r], l);
            // `y = u + z`, so `B·z = B·y - B·u = 0`.
            assert forall|k: int| 0 <= k < b[r].len() implies #[trigger] y[k] == u[k].add_spec(z[k]) by {
                F::lemma_add_associative(u[k], y[k], u[k].neg_spec());
                F::lemma_add_commutative(u[k], y[k]);
                F::lemma_add_associative(y[k], u[k], u[k].neg_spec());
                F::lemma_add_inverse(u[k]);
                F::lemma_add_identity(y[k]);
            }
            lemma_fdot_add_right(b[r], u, z, y);
            let w = fdot(b[r], u);
            let t = fdot(b[r], z);
            F::lemma_add_associative(w.neg_spec(), w, t);
            F::lemma_add_inverse(w);
            F::lemma_add_identity(t);
        }
        assert(annihilates(b, z));
        assert(z[i] == F::zero_spec());
        F::lemma_add_associative(y[i], u[i].neg_spec(), u[i]);
        F::lemma_add_inverse(u[i]);
        F::lemma_add_identity(y[i]);
        F::lemma_add_identity(u[i]);
    }
}

/// Exchanging two rows keeps the kernel.
proof fn lemma_kernel_swap<F: Rig>(m0: Seq<Seq<F>>, m1: Seq<Seq<F>>, a0: Seq<Seq<F>>, c: int, p: int, n: int)
    requires
        m0.len() == n,
        0 <= c < n,
        0 <= p < n,
        m1 == m0.update(c, m0[p]).update(p, m0[c]),
        same_kernel(m0, a0, n),
    ensures
        same_kernel(m1, a0, n),
{
    assert forall|x: Seq<F>| x.len() == n implies (annihilates(m1, x) <==> annihilates(m0, x)) by {
        if annihilates(m1, x) {
            assert forall|r: int| 0 <= r < n implies #[trigger] fdot(m0[r], x) == F::zero_spec() by {
                let src = if r == c {
                    p
                } else if r == p {
                    c
                } else {
                    r
                };
                assert(fdot(m1[src], x) == F::zero_spec());
            }
        }
        if annihilates(m0, x) {
            assert forall|r: int| 0 <= r < n implies #[trigger] fdot(m1[r], x) == F::zero_spec() by {
                let src = if r == c {
                    p
                } else if r == p {
                    c
                } else {
                    r
                };
                assert(fdot(m0[src], x) == F::zero_spec());
            }
        }
    }
}

/// Scaling a row by a nonzero factor keeps the kernel.
proof fn lemma_kernel_scale<F: Field>(m1: Seq<Seq<F>>, m2: Seq<Seq<F>>, a0: Seq<Seq<F>>, c: int, s: F, n: int)
    requires
        m1.len() == n,
        m2.len() == n,
        0 <= c < n,
        s != F::zero_spec(),
        forall|r: int| 0 <= r < n && r != c ==> #[trigger] m2[r] == m1[r],
        m2[c].len() == m1[c].len(),
        forall|q: int| 0 <= q < m1[c].len() ==> #[trigger] m2[c][q] == s.mul_spec(m1[c][q]),
        same_kernel(m1, a0, n),
    ensures
        same_kernel(m2, a0, n),
{
    assert forall|x: Seq<F>| x.len() == n implies (annihilates(m2, x) <==> annihilates(m1, x)) by {
        lemma_fdot_scale(s, m1[c], m2[c], x);
        let d = fdot(m1[c], x);
        F::lemma_annihilation(s);
        if d != F::zero_spec() {
            lemma_no_zero_divisors(s, d);
        }
        if annihilates(m2, x) {
            assert forall|r: int| 0 <= r < n implies #[trigger] fdot(m1[r], x) == F::zero_spec() by {
                assert(fdot(m2[r], x) == F::zero_spec());
            }
        }
        if annihilates(m1, x) {
            assert forall|r: int| 0 <= r < n implies #[trigger] fdot(m2[r], x) == F::zero_spec() by {
                assert(fdot(m1[r], x) == F::zero_spec());
            }
        }
    }
}

/// Subtracting a multiple of row `c` from another row keeps the kernel.
proof fn lemma_kernel_row_op<F: Field>(ma: Seq<Seq<F>>, mb: Seq<Seq<F>>, a0: Seq<Seq<F>>, row: int, c: int, f: F, n: int)
    requires
        ma.len() == n,
        mb.len() == n,
        0 <= row < n,
        0 <= c < n,
        row != c,
        forall|r: int| 0 <= r < n && r != row ==> #[trigger] mb[r] == ma[r],
        ma[row].len() == ma[c].len(),
        mb[row].len() == ma[row].len(),
        forall|q: int| 0 <= q < ma[row].len() ==> #[trigger] mb[row][q] == ma[row][q].add_spec(
            f.mul_spec(ma[c][q]).neg_spec(),
        ),
        same_kernel(ma, a0, n),
    ensures
        same_kernel(mb, a0, n),
{
    assert forall|x: Seq<F>| x.len() == n implies (annihilates(mb, x) <==> annihilates(ma, x)) by {
        lemma_fdot_row_op(ma[row], ma[c], mb[row], x, f);
        assert(mb[c] == ma[c]);
        lemma_subtract_zero(fdot(ma[row], x), f);
        if annihilates(mb, x) {
            assert(fdot(mb[c], x) == F::zero_spec());
            assert forall|r: int| 0 <= r < n implies #[trigger] fdot(ma[r], x) == F::zero_spec() by {
                assert(fdot(mb[r], x) == F::zero_spec());
            }
        }
        if annihilates(ma, x) {
            assert(fdot(ma[c], x) == F::zero_spec());
            assert forall|r: int| 0 <= r < n implies #[trigger] fdot(mb[r], x) == F::zero_spec() by {
                assert(fdot(ma[r], x) == F::zero_spec());
            }
        }
    }
}

/// A column with no pivot at or below the diagonal, left of which the matrix
/// is reduced, yields a nonzero vector in the kernel.
proof fn lemma_stuck_column<F: Field>(m: Seq<Seq<F>>, a0: Seq<Seq<F>>, c: int, n: int)
    requires
        is_grid(m, n, n),
        a0.len() == n,
        0 <= c < n,
        reduced_through(m, c, n),
        forall|q: int| c <= q < n ==> #[trigger] m[q][c] == F::zero_spec(),
        same_kernel(m, a0, n),
    ensures
        is_singular(a0),
{
    let u = unit::<F>(n as nat, c);
    let v = Seq::new(n as nat, |k: int| if k < c { m[k][c].neg_spec() } else { F::zero_spec() });
    let x = Seq::new(
        n as nat,
        |k: int|
            if k < c {
                m[k][c].neg_spec()
            } else if k == c {
                F::one_spec()
            } else {
                F::zero_spec()
            },
    );
    assert forall|r: int| 0 <= r < n implies #[trigger] fdot(m[r], x) == F::zero_spec() by {
        let y = m[r];
        assert forall|k: int| 0 <= k < y.len() implies #[trigger] x[k] == u[k].add_spec(v[k]) by {
            F::lemma_add_identity(u[k]);
            F::lemma_add_identity(v[k]);
        }
        lemma_fdot_add_right(y, u, v, x);
        lemma_fdot_unit_right(y, c);
        assert(unit::<F>(y.len(), c) == u);
        if r < c {
            assert forall|k: int| 0 <= k < y.len() && k != r implies #[trigger] y[k].mul_spec(v[k]) == F::zero_spec() by {
                if k < c {
                    assert(m[r][k] == F::zero_spec());
                    F::lemma_annihilation(v[k]);
                } else {
                    F::lemma_annihilation(y[k]);
                }
            }
            lemma_fdot_single_term(y, v, r);
            assert(m[r][r] == F::one_spec());
            F::lemma_mul_identity(v[r]);
            F::lemma_add_inverse(y[c]);
        } else {
            assert forall|k: int| 0 <= k < y.len() && k != c implies #[trigger] y[k].mul_spec(v[k]) == F::zero_spec() by {
                if k < c {
                    assert(m[r][k] == F::zero_spec());
                    F::lemma_annihilation(v[k]);
                } else {
                    F::lemma_annihilation(y[k]);
                }
            }
            lemma_fdot_single_term(y, v, c);
            F::lemma_annihilation(y[c]);
            assert(m[r][c] == F::zero_spec());
            F::lemma_add_identity(F::zero_spec());
        }
    }
    assert(annihilates(m, x));
    assert(annihilates(a0, x));
    F::lemma_nontrivial();
    assert(x[c] != F::zero_spec());
}

/// A matrix reduced to the identity has no nonzero vector in its kernel.
proof fn lemma_reduced_kernel<F: Field>(m: Seq<Seq<F>>, a0: Seq<Seq<F>>, n: int)
    requires
        is_grid(m, n, n),
        a0.len() == n,
        reduced_through(m, n, n),
        same_kernel(m, a0, n),
    ensures
        !is_singular(a0),
{
    assert forall|x: Seq<F>| x.len() == n && annihilates(a0, x) implies forall|k: int|
        0 <= k < x.len() ==> #[trigger] x[k] == F::zero_spec() by {
        assert(annihilates(m, x));
        assert forall|k: int| 0 <= k < x.len() implies #[trigger] x[k] == F::zero_spec() by {
            assert(m[k] =~= unit::<F>(n as nat, k));
            lemma_fdot_unit::<F>(n as nat, k, x);
            assert(fdot(m[k], x) == F::zero_spec());
        }
    }
}

impl<F: Field> TensorProduct<F> {
    /// The inverse of a nonsingular endomorphism: the two-sided inverse `B`
    /// with `B·A = A·B = I`, by Gauss–Jordan elimination.
    pub fn inverse(self) -> (r: Self)
        requires
            self.is_square(self@.len()),
            !is_singular(self@),
        ensures
            r.is_square(self@.len()),
            forall|i: int, j: int|
                0 <= i < self@.len() && 0 <= j < self@.len() ==> #[trigger] product_entry(r@, self@, i, j)
                    == identity_grid::<F>(self@.len())[i][j],
            forall|i: int, j: int|
                0 <= i < self@.len() && 0 <= j < self@.len() ==> #[trigger] product_entry(self@, r@, i, j)
                    == identity_grid::<F>(self@.len())[i][j],
    {
        match self.checked_inverse() {
            Some(b) => b,
            None => {
                proof {
                    assert(false);
                }
                TensorProduct::identity(0)
            },
        }
    }

    /// The inverse endomorphism, by Gauss–Jordan elimination with the first
    /// nonzero pivot of each column.
    ///
    /// `None` exactly when the endomorphism is singular, which is when some
    /// column has no nonzero pivot. Otherwise the result `B` is a two-sided
    /// inverse: `B·A = A·B = I`.
    pub fn checked_inverse(self) -> (r: Option<Self>)
        requires
            self.is_square(self@.len()),
        ensures
            r is Some <==> !is_singular(self@),
            r matches Some(b) ==> b.is_square(self@.len()) && forall|i: int, j: int|
                0 <= i < self@.len() && 0 <= j < self@.len() ==> #[trigger] product_entry(b@, self@, i, j)
                    == identity_grid::<F>(self@.len())[i][j],
            r matches Some(b) ==> forall|i: int, j: int|
                0 <= i < self@.len() && 0 <= j < self@.len() ==> #[trigger] product_entry(self@, b@, i, j)
                    == identity_grid::<F>(self@.len())[i][j],
    {
        let n = self.0.rows.len();
        let ghost a0 = self@;
        let mut m: Vec<Vec<F>> = Vec::new();
        let mut k: usize = 0;
        while k < n
            invariant
                k <= n,
                n == a0.len(),
                self@ == a0,
                rows_of(self.0.rows@) == a0,
                m@.len() == k,
                forall|q: int| 0 <= q < k ==> (#[trigger] m@[q])@ == a0[q],
            decreases n - k,
        {
            m.push(copy_row(&self.0.rows[k]));
            k = k + 1;
        }
        let identity = TensorProduct::<F>::identity(n);
        let mut inv = identity.0.rows;
        proof {
            assert(rows_of(m@) =~= a0);
            assert(rows_of(inv@) == identity_grid::<F>(n as nat));
            assert(same_kernel(rows_of(m@), a0, n as int));
            assert(same_kernel(rows_of(inv@), identity_grid::<F>(n as nat), n as int));
            assert forall|r: int, j: int| 0 <= r < n && 0 <= j < n implies #[trigger] fdot(
                rows_of(inv@)[r],
                column(a0, j),
            ) == rows_of(m@)[r][j] by {
                lemma_fdot_unit::<F>(n as nat, r, column(a0, j));
            }
        }
        let mut c: usize = 0;
        while c < n
            invariant
                c <= n,
                n == a0.len(),
                is_grid(a0, n as int, n as int),
                is_grid(rows_of(m@), n as int, n as int),
                is_grid(rows_of(inv@), n as int, n as int),
                transforms(rows_of(inv@), a0, rows_of(m@), n as int),
                reduced_through(rows_of(m@), c as int, n as int),
                same_kernel(rows_of(m@), a0, n as int),
                same_kernel(rows_of(inv@), identity_grid::<F>(n as nat), n as int),
                self@ == a0,
            decreases n - c,
        {
            // The first row at or below `c` with a nonzero entry in column `c`.
            proof {
                lemma_grid_rows(m@, n as int);
            }
            let mut p = c;
            while p < n && m[p][c].is_zero()
                invariant
                    c <= p <= n,
                    c < n,
                    m@.len() == n,
                    forall|q: int| 0 <= q < n ==> (#[trigger] m@[q])@.len() == n,
                    forall|q: int| c <= q < p ==> #[trigger] m@[q]@[c as int] == F::zero_spec(),
                decreases n - p,
            {
                p = p + 1;
            }
            if p == n {
                proof {
                    let mz = rows_of(m@);
                    assert forall|q: int| c <= q < n implies #[trigger] mz[q][c as int] == F::zero_spec() by {
                        assert(mz[q] == m@[q]@);
                    }
                    lemma_stuck_column(mz, a0, c as int, n as int);
                }
                return None;
            }
            assert(m@[p as int]@[c as int] != F::zero_spec());
            let ghost m0 = rows_of(m@);
            let ghost i0 = rows_of(inv@);
            swap_rows(&mut m, c, p);
            swap_rows(&mut inv, c, p);
            proof {
                let m1 = rows_of(m@);
                let i1 = rows_of(inv@);
                assert(m1 =~= m0.update(c as int, m0[p as int]).update(p as int, m0[c as int]));
                assert(i1 =~= i0.update(c as int, i0[p as int]).update(p as int, i0[c as int]));
                lemma_kernel_swap(m0, m1, a0, c as int, p as int, n as int);
                lemma_kernel_swap(i0, i1, identity_grid::<F>(n as nat), c as int, p as int, n as int);
                assert(is_grid(m1, n as int, n as int));
                assert(is_grid(i1, n as int, n as int));
                assert(transforms(i1, a0, m1, n as int)) by {
                    assert forall|r: int, j: int| 0 <= r < n && 0 <= j < n implies #[trigger] fdot(i1[r], column(a0, j)) == m1[r][j] by {
                        let src = if r == c as int {
                            p as int
                        } else if r == p as int {
                            c as int
                        } else {
                            r
                        };
                        assert(fdot(i0[src], column(a0, j)) == m0[src][j]);
                    }
                }
                assert(reduced_through(m1, c as int, n as int)) by {
                    assert forall|r: int, k: int| 0 <= r < n && 0 <= k < c implies #[trigger] m1[r][k] == (if r == k {
                        F::one_spec()
                    } else {
                        F::zero_spec()
                    }) by {
                        let src = if r == c as int {
                            p as int
                        } else if r == p as int {
                            c as int
                        } else {
                            r
                        };
                        assert(m0[src][k] == (if src == k {
                            F::one_spec()
                        } else {
                            F::zero_spec()
                        }));
                    }
                }
            }
            let pivot = m[c][c];
            proof {
                assert(rows_of(m@)[c as int][c as int] == pivot);
                assert(pivot == m0[p as int][c as int]);
                lemma_recip_nonzero(pivot);
            }
            let pivot_inv = pivot.recip();
            let ghost m1 = rows_of(m@);
            let ghost i1 = rows_of(inv@);
            scale_row(&mut m, c, pivot_inv);
            scale_row(&mut inv, c, pivot_inv);
            proof {
                let m2 = rows_of(m@);
                let i2 = rows_of(inv@);
                F::lemma_recip(pivot);
                assert(is_grid(m2, n as int, n as int)) by {
                    assert forall|r: int| 0 <= r < n implies (#[trigger] m2[r]).len() == n by {
                        assert(m2[r] == m@[r]@);
                        if r != c {
                            assert(m1[r] == m2[r]);
                        }
                    }
                }
                assert(is_grid(i2, n as int, n as int)) by {
                    assert forall|r: int| 0 <= r < n implies (#[trigger] i2[r]).len() == n by {
                        assert(i2[r] == inv@[r]@);
                        if r != c {
                            assert(i1[r] == i2[r]);
                        }
                    }
                }
                assert(transforms(i2, a0, m2, n as int)) by {
                    assert forall|r: int, j: int| 0 <= r < n && 0 <= j < n implies #[trigger] fdot(i2[r], column(a0, j)) == m2[r][j] by {
                        assert(fdot(i1[r], column(a0, j)) == m1[r][j]);
                        if r == c {
                            assert forall|q: int| 0 <= q < n implies #[trigger] i2[c as int][q] == pivot_inv.mul_spec(i1[c as int][q]) by {
                                assert(i2[c as int][q] == inv@[c as int]@[q]);
                            }
                            lemma_fdot_scale(pivot_inv, i1[c as int], i2[c as int], column(a0, j));
                            assert(m2[c as int][j] == m@[c as int]@[j]);
                        } else {
                            assert(i2[r] == i1[r]);
                            assert(m2[r] == m1[r]);
                        }
                    }
                }
                assert(reduced_through(m2, c as int, n as int)) by {
                    assert forall|r: int, k: int| 0 <= r < n && 0 <= k < c implies #[trigger] m2[r][k] == (if r == k {
                        F::one_spec()
                    } else {
                        F::zero_spec()
                    }) by {
                        assert(m1[r][k] == (if r == k {
                            F::one_spec()
                        } else {
                            F::zero_spec()
                        }));
                        if r == c {
                            F::lemma_annihilation(pivot_inv);
                            assert(m2[c as int][k] == m@[c as int]@[k]);
                        } else {
                            assert(m2[r] == m1[r]);
                        }
                    }
                }
                assert(m2[c as int][c as int] == F::one_spec()) by {
                    assert(m2[c as int][c as int] == m@[c as int]@[c as int]);
                }
                assert forall|r: int| 0 <= r < n && r != c implies #[trigger] m2[r] == m1[r] by {
                    assert(m2[r] == m@[r]@);
                }
                assert forall|q: int| 0 <= q < m1[c as int].len() implies #[trigger] m2[c as int][q] == pivot_inv.mul_spec(m1[c as int][q]) by {
                    assert(m2[c as int][q] == m@[c as int]@[q]);
                }
                lemma_kernel_scale(m1, m2, a0, c as int, pivot_inv, n as int);
                assert forall|r: int| 0 <= r < n && r != c implies #[trigger] i2[r] == i1[r] by {
                    assert(i2[r] == inv@[r]@);
                }
                assert forall|q: int| 0 <= q < i1[c as int].len() implies #[trigger] i2[c as int][q] == pivot_inv.mul_spec(i1[c as int][q]) by {
                    assert(i2[c as int][q] == inv@[c as int]@[q]);
                }
                lemma_kernel_scale(i1, i2, identity_grid::<F>(n as nat), c as int, pivot_inv, n as int);
            }
            // Clear column `c` from every other row.
            let mut row: usize = 0;
            while row < n
                invariant
                    c < n,
                    row <= n,
                    n == a0.len(),
                    is_grid(a0, n as int, n as int),
                    is_grid(rows_of(m@), n as int, n as int),
                    is_grid(rows_of(inv@), n as int, n as int),
                    transforms(rows_of(inv@), a0, rows_of(m@), n as int),
                    reduced_through(rows_of(m@), c as int, n as int),
                    same_kernel(rows_of(m@), a0, n as int),
                    same_kernel(rows_of(inv@), identity_grid::<F>(n as nat), n as int),
                    rows_of(m@)[c as int][c as int] == F::one_spec(),
                    forall|r: int| 0 <= r < row && r != c ==> #[trigger] rows_of(m@)[r][c as int] == F::zero_spec(),
                decreases n - row,
            {
                proof {
                    lemma_grid_rows(m@, n as int);
                    lemma_grid_rows(inv@, n as int);
                }
                if row != c {
                    let factor = m[row][c];
                    if !factor.is_zero() {
                        let ghost ma = rows_of(m@);
                        let ghost ia = rows_of(inv@);
                        subtract_row(&mut m, row, c, factor);
                        subtract_row(&mut inv, row, c, factor);
                        proof {
                            let mb = rows_of(m@);
                            let ib = rows_of(inv@);
                            assert(ma[row as int][c as int] == factor);
                            assert(is_grid(mb, n as int, n as int)) by {
                                assert forall|r: int| 0 <= r < n implies (#[trigger] mb[r]).len() == n by {
                                    assert(mb[r] == m@[r]@);
                                    if r != row {
                                        assert(ma[r] == mb[r]);
                                    }
                                }
                            }
                            assert(is_grid(ib, n as int, n as int)) by {
                                assert forall|r: int| 0 <= r < n implies (#[trigger] ib[r]).len() == n by {
                                    assert(ib[r] == inv@[r]@);
                                    if r != row {
                                        assert(ia[r] == ib[r]);
                                    }
                                }
                            }
                            assert forall|q: int| 0 <= q < n implies #[trigger] mb[row as int][q] == ma[row as int][q].add_spec(
                                factor.mul_spec(ma[c as int][q]).neg_spec(),
                            ) by {
                                assert(mb[row as int][q] == m@[row as int]@[q]);
                            }
                            assert forall|q: int| 0 <= q < n implies #[trigger] ib[row as int][q] == ia[row as int][q].add_spec(
                                factor.mul_spec(ia[c as int][q]).neg_spec(),
                            ) by {
                                assert(ib[row as int][q] == inv@[row as int]@[q]);
                            }
                            assert forall|r: int| 0 <= r < n && r != row implies #[trigger] mb[r] == ma[r] by {
                                assert(mb[r] == m@[r]@);
                            }
                            lemma_kernel_row_op(ma, mb, a0, row as int, c as int, factor, n as int);
                            assert forall|r: int| 0 <= r < n && r != row implies #[trigger] ib[r] == ia[r] by {
                                assert(ib[r] == inv@[r]@);
                            }
                            lemma_kernel_row_op(ia, ib, identity_grid::<F>(n as nat), row as int, c as int, factor, n as int);
                            assert(transforms(ib, a0, mb, n as int)) by {
                                assert forall|r: int, j: int| 0 <= r < n && 0 <= j < n implies #[trigger] fdot(ib[r], column(a0, j)) == mb[r][j] by {
                                    assert(fdot(ia[r], column(a0, j)) == ma[r][j]);
                                    if r == row {
                                        assert(fdot(ia[c as int], column(a0, j)) == ma[c as int][j]);
                                        lemma_fdot_row_op(ia[row as int], ia[c as int], ib[row as int], column(a0, j), factor);
                                    } else {
                                        assert(ib[r] == ia[r]);
                                        assert(mb[r] == ma[r]);
                                    }
                                }
                            }
                            assert(reduced_through(mb, c as int, n as int)) by {
                                assert forall|r: int, k: int| 0 <= r < n && 0 <= k < c implies #[trigger] mb[r][k] == (if r == k {
                                    F::one_spec()
                                } else {
                                    F::zero_spec()
                                }) by {
                                    assert(ma[r][k] == (if r == k {
                                        F::one_spec()
                                    } else {
                                        F::zero_spec()
                                    }));
                                    if r == row {
                                        assert(ma[c as int][k] == F::zero_spec());
                                        lemma_subtract_zero(ma[row as int][k], factor);
                                    } else {
                                        assert(mb[r] == ma[r]);
                                    }
                                }
                            }
                            lemma_subtract_self(factor);
                            assert(mb[row as int][c as int] == F::zero_spec());
                            assert(mb[c as int] == ma[c as int]);
                            assert forall|r: int| 0 <= r < row + 1 && r != c implies #[trigger] mb[r][c as int] == F::zero_spec() by {
                                if r != row {
                                    assert(mb[r] == ma[r]);
                                }
                            }
                        }
                    }
                }
                row = row + 1;
            }
            proof {
                let mc = rows_of(m@);
                assert forall|r: int, k: int| 0 <= r < n && 0 <= k < c + 1 implies #[trigger] mc[r][k] == (if r == k {
                    F::one_spec()
                } else {
                    F::zero_spec()
                }) by {
                    if k == c {
                        if r != c {
                            assert(mc[r][c as int] == F::zero_spec());
                        }
                    }
                }
            }
            c = c + 1;
        }
        let r = TensorProduct(TensorProductArray { rows: inv, ncols: n });
        proof {
            lemma_reduced_kernel(rows_of(m@), a0, n as int);
            assert(r@ == rows_of(inv@));
            assert forall|i: int, j: int| 0 <= i < n && 0 <= j < n implies #[trigger] product_entry(r@, a0, i, j)
                == identity_grid::<F>(n as nat)[i][j] by {
                assert(fdot(rows_of(inv@)[i], column(a0, j)) == rows_of(m@)[i][j]);
            }
            let idg = identity_grid::<F>(n as nat);
            let b = rows_of(inv@);
            assert(is_grid(idg, n as int, n as int));
            assert(reduced_through(idg, n as int, n as int));
            assert(same_kernel(idg, b, n as int));
            lemma_reduced_kernel(idg, b, n as int);
            assert forall|x: Seq<F>| x.len() == n && #[trigger] annihilates(b, x) implies forall|k: int|
                0 <= k < n ==> #[trigger] x[k] == F::zero_spec() by {
                if exists|k: int| 0 <= k < n && x[k] != F::zero_spec() {
                    assert(is_singular(b));
                }
            }
            lemma_left_inverse_is_right(a0, b, n as nat);
        }
        Some(r)
    }
}

/// The `n × n` product `a·b`.
pub open spec fn product_grid<F: Rig>(a: Seq<Seq<F>>, b: Seq<Seq<F>>, n: nat) -> Seq<Seq<F>> {
    Seq::new(n, |i: int| Seq::new(n, |j: int| product_entry(a, b, i, j)))
}

/// The product `A·v`.
pub open spec fn apply<F: Rig>(a: Seq<Seq<F>>, v: Seq<F>, n: nat) -> Seq<F> {
    Seq::new(n, |i: int| fdot(a[i], v))
}

/// Composition is associative: `(A·B)·C = A·(B·C)`.
pub proof fn lemma_compose_associative<F: Rig>(a: Seq<Seq<F>>, b: Seq<Seq<F>>, c: Seq<Seq<F>>, n: nat)
    requires
        is_grid(a, n as int, n as int),
        is_grid(b, n as int, n as int),
        is_grid(c, n as int, n as int),
    ensures
        forall|i: int, j: int| 0 <= i < n && 0 <= j < n ==> #[trigger] product_entry(product_grid(a, b, n), c, i, j)
            == product_entry(a, product_grid(b, c, n), i, j),
{
    assert forall|i: int, j: int| 0 <= i < n && 0 <= j < n implies #[trigger] product_entry(product_grid(a, b, n), c, i, j)
        == product_entry(a, product_grid(b, c, n), i, j) by {
        lemma_fdot_exchange(a[i], b, column(c, j), n);
        assert(product_grid(a, b, n)[i] =~= Seq::new(n, |k: int| fdot(a[i], column(b, k))));
        assert(column(product_grid(b, c, n), j) =~= Seq::new(a[i].len(), |k: int| fdot(b[k], column(c, j))));
    }
}

/// Composition acts as applying one map after the other: `(A·B)·v = A·(B·v)`.
pub proof fn lemma_compose_action<F: Rig>(a: Seq<Seq<F>>, b: Seq<Seq<F>>, v: Seq<F>, n: nat)
    requires
        is_grid(a, n as int, n as int),
        is_grid(b, n as int, n as int),
    ensures
        apply(product_grid(a, b, n), v, n) == apply(a, apply(b, v, n), n),
{
    assert forall|i: int| 0 <= i < n implies #[trigger] apply(product_grid(a, b, n), v, n)[i] == apply(a, apply(b, v, n), n)[i] by {
        lemma_fdot_exchange(a[i], b, v, n);
        assert(product_grid(a, b, n)[i] =~= Seq::new(n, |k: int| fdot(a[i], column(b, k))));
        assert(apply(b, v, n) =~= Seq::new(a[i].len(), |k: int| fdot(b[k], v)));
    }
    assert(apply(product_grid(a, b, n), v, n) =~= apply(a, apply(b, v, n), n));
}

/// A covector acting after a map is the map's transpose acting on the
/// covector: `⟨w, A·v⟩ = ⟨w·A, v⟩`.
pub proof fn lemma_dual_action<F: Rig>(a: Seq<Seq<F>>, w: Seq<F>, v: Seq<F>, n: nat)
    requires
        is_grid(a, n as int, n as int),
        w.len() == n,
    ensures
        fdot(w, apply(a, v, n)) == fdot(Seq::new(n, |j: int| fdot(w, column(a, j))), v),
{
    lemma_fdot_exchange(w, a, v, n);
    assert(apply(a, v, n) =~= Seq::new(w.len(), |k: int| fdot(a[k], v)));
}

/// The identity is neutral for composition on either side, and fixes
/// every vector.
pub proof fn lemma_identity_neutral<F: Rig>(a: Seq<Seq<F>>, v: Seq<F>, n: nat)
    requires
        is_grid(a, n as int, n as int),
        v.len() == n,
    ensures
        forall|i: int, j: int| 0 <= i < n && 0 <= j < n ==> #[trigger] product_entry(identity_grid::<F>(n), a, i, j) == a[i][j],
        forall|i: int, j: int| 0 <= i < n && 0 <= j < n ==> #[trigger] product_entry(a, identity_grid::<F>(n), i, j) == a[i][j],
        forall|i: int| 0 <= i < n ==> #[trigger] fdot(identity_grid::<F>(n)[i], v) == v[i],
{
    assert forall|i: int, j: int| 0 <= i < n && 0 <= j < n implies #[trigger] product_entry(identity_grid::<F>(n), a, i, j) == a[i][j] by {
        lemma_fdot_unit::<F>(n, i, column(a, j));
    }
    assert forall|i: int, j: int| 0 <= i < n && 0 <= j < n implies #[trigger] product_entry(a, identity_grid::<F>(n), i, j) == a[i][j] by {
        assert(column(identity_grid::<F>(n), j) =~= unit::<F>(n, j));
        lemma_fdot_unit_right(a[i], j);
    }
    assert forall|i: int| 0 <= i < n implies #[trigger] fdot(identity_grid::<F>(n)[i], v) == v[i] by {
        lemma_fdot_unit::<F>(n, i, v);
    }
}

/// A pure tensor acts through its right factor: `(a ⊗ b)·v = a·⟨b, v⟩`.
pub proof fn lemma_pure_mul_v<F: Rig>(a: Seq<F>, b: Seq<F>, t: Seq<Seq<F>>, v: Seq<F>)
    requires
        is_grid(t, a.len() as int, b.len() as int),
        forall|i: int, j: int| 0 <= i < a.len() && 0 <= j < b.len() ==> #[trigger] t[i][j] == a[i].mul_spec(b[j]),
    ensures
        forall|i: int| 0 <= i < a.len() ==> #[trigger] fdot(t[i], v) == a[i].mul_spec(fdot(b, v)),
{
    assert forall|i: int| 0 <= i < a.len() implies #[trigger] fdot(t[i], v) == a[i].mul_spec(fdot(b, v)) by {
        assert forall|k: int| 0 <= k < b.len() implies #[trigger] t[i][k] == a[i].mul_spec(b[k]) by {}
        lemma_fdot_scale(a[i], b, t[i], v);
    }
}

/// Marks the normalisation of a direct sum.
pub struct NormalizeDirectSum;

/// Marks the normalisation of a tensor product.
pub struct NormalizeTensorProduct;

/// The dual `V*` of a space, carrying the same coordinates.
pub struct Dual<T>(pub T);

/// The coordinates of an external direct sum `U ⊕ V`: those of `U`, then
/// those of `V`.
pub struct DirectSumArray<T> {
    pub(crate) first: Vec<T>,
    pub(crate) second: Vec<T>,
}

impl<T> View for DirectSumArray<T> {
    type V = Seq<T>;

    closed spec fn view(&self) -> Seq<T> {
        self.first@ + self.second@
    }
}

impl<T: Copy> DirectSumArray<T> {
    /// The number of coordinates of `U`.
    pub closed spec fn split_point(self) -> nat {
        self.first@.len()
    }

    /// The split point lies within the coordinates.
    pub proof fn lemma_split_point_bound(self)
        ensures
            self.split_point() <= self@.len(),
    {
    }

    /// The coordinates of `U` followed by those of `V`.
    pub fn new(first: Vec<T>, second: Vec<T>) -> (r: Self)
        ensures
            r@ == first@ + second@,
            r.split_point() == first@.len(),
    {
        DirectSumArray { first, second }
    }

    /// Coordinate `index`: from `U` below the split point, from `V` above.
    pub fn index(&self, index: usize) -> (r: T)
        requires
            index < self@.len(),
        ensures
            r == self@[index as int],
    {
        if index < self.first.len() {
            self.first[index]
        } else {
            self.second[index - self.first.len()]
        }
    }
}

/// The external direct sum `U ⊕ V` of coordinate vectors over a common
/// field; coordinates of `U` precede those of `V`.
pub struct DirectSum<T>(pub(crate) DirectSumArray<T>);

impl<T> View for DirectSum<T> {
    type V = Seq<T>;

    closed spec fn view(&self) -> Seq<T> {
        self.0@
    }
}

impl<T: Copy> DirectSum<T> {
    /// The number of coordinates of the first summand.
    pub closed spec fn split_point(self) -> nat {
        self.0.split_point()
    }

    /// The split point lies within the coordinates.
    pub proof fn lemma_split_point_bound(self)
        ensures
            self.split_point() <= self@.len(),
    {
        self.0.lemma_split_point_bound();
    }

    /// `u ⊕ v`.
    pub fn join(u: Vec<T>, v: Vec<T>) -> (r: Self)
        ensures
            r@ == u@ + v@,
            r.split_point() == u@.len(),
    {
        DirectSum(DirectSumArray::new(u, v))
    }

    /// The two summands.
    pub fn split(self) -> (r: (Vec<T>, Vec<T>))
        ensures
            r.0@ == self@.take(self.split_point() as int),
            r.1@ == self@.skip(self.split_point() as int),
    {
        let DirectSumArray { first, second } = self.0;
        assert((first@ + second@).take(first@.len() as int) =~= first@);
        assert((first@ + second@).skip(first@.len() as int) =~= second@);
        (first, second)
    }

    /// Coordinate `index`.
    pub fn index(&self, index: usize) -> (r: T)
        requires
            index < self@.len(),
        ensures
            r == self@[index as int],
    {
        self.0.index(index)
    }

    /// The canonical isomorphism `(U ⊕ V)* ≅ U* ⊕ V*`: coordinates and the
    /// split point are kept.
    pub fn dual_isomorphism(dual: Dual<Self>) -> (r: DirectSum<T>)
        ensures
            r@ == dual.0@,
            r.split_point() == dual.0.split_point(),
    {
        dual.0
    }

    /// The inverse isomorphism `U* ⊕ V* ≅ (U ⊕ V)*`.
    pub fn dual_isomorphism_inverse(dual: DirectSum<T>) -> (r: Dual<Self>)
        ensures
            r.0@ == dual@,
            r.0.split_point() == dual.split_point(),
    {
        Dual(dual)
    }
}

/// Splitting a joined sum gives back the summands, and joining the halves
/// of a split gives back the sum.
pub proof fn lemma_join_split<T>(u: Seq<T>, v: Seq<T>)
    ensures
        (u + v).take(u.len() as int) == u,
        (u + v).skip(u.len() as int) == v,
        (u + v).take(u.len() as int) + (u + v).skip(u.len() as int) == u + v,
{
    assert((u + v).take(u.len() as int) =~= u);
    assert((u + v).skip(u.len() as int) =~= v);
}

/// Splitting a direct sum and joining the halves gives back its coordinates
/// and its split point.
pub proof fn lemma_split_join<T: Copy>(s: DirectSum<T>)
    ensures
        s@.take(s.split_point() as int) + s@.skip(s.split_point() as int) == s@,
        s@.take(s.split_point() as int).len() == s.split_point(),
{
    s.lemma_split_point_bound();
    assert(s@.take(s.split_point() as int) + s@.skip(s.split_point() as int) =~= s@);
}

/// A derivative as a linear map between tangent spaces, stored output by
/// input.
pub struct TangentMap<F>(pub TensorProduct<F>);

impl<F: Field> TangentMap<F> {
    /// Wraps the tensor representing a tangent map.
    pub fn new(v: TensorProduct<F>) -> (r: Self)
        ensures
            r.0 == v,
    {
        TangentMap(v)
    }
}

/// A tensor's coordinates re-presented over another scalar: the shape of
/// the tensor, with entries of type `S`.
pub struct TensorOver<A>(pub A);

impl<S: Copy> TensorOver<DirectSumArray<S>> {
    /// The parts over the two summands.
    pub fn split(self) -> (r: (TensorOver<Vec<S>>, TensorOver<Vec<S>>))
        ensures
            r.0.0@ + r.1.0@ == self.0@,
            r.0.0@.len() == self.0.split_point(),
    {
        let DirectSumArray { first, second } = self.0;
        (TensorOver(first), TensorOver(second))
    }

    /// The re-presentation of `u ⊕ v`.
    pub fn join(u: TensorOver<Vec<S>>, v: TensorOver<Vec<S>>) -> (r: Self)
        ensures
            r.0@ == u.0@ + v.0@,
            r.0.split_point() == u.0@.len(),
    {
        TensorOver(DirectSumArray::new(u.0, v.0))
    }
}

impl<S> TensorOver<Vec<S>> {
    /// Re-presents `value` over a new scalar: coordinate `i` becomes
    /// `map_scalar(value[i])`.
    pub fn new<T: Copy, G: Fn(T) -> S>(value: &Vec<T>, map_scalar: G) -> (r: Self)
        requires
            forall|x: T| map_scalar.requires((x,)),
        ensures
            r.0@.len() == value@.len(),
            forall|i: int| 0 <= i < value@.len() ==> map_scalar.ensures((value@[i],), #[trigger] r.0@[i]),
    {
        let mut out: Vec<S> = Vec::new();
        let mut i: usize = 0;
        while i < value.len()
            invariant
                i <= value@.len(),
                forall|x: T| map_scalar.requires((x,)),
                out@.len() == i,
                forall|k: int| 0 <= k < i ==> map_scalar.ensures((value@[k],), #[trigger] out@[k]),
            decreases value@.len() - i,
        {
            let x = value[i];
            let y = map_scalar(x);
            out.push(y);
            i = i + 1;
        }
        TensorOver(out)
    }

    /// The coordinates.
    pub fn coordinates(&self) -> (r: &Vec<S>)
        ensures
            r@ == self.0@,
    {
        &self.0
    }
}

} // verus!
