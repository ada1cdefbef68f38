//! The linear core of parallel transport: the fundamental solution of
//! `X' = A·X`, `X(0) = I`, for a matrix `A` of jets in the curve parameter,
//! and its evaluation at a step `h`.
//!
//! The solution is built by Picard iteration: `X ↦ I + ∫ A·X`. Coefficient
//! `k + 1` of an integral depends only on coefficients up to `k` of the
//! integrand, so each iteration fixes one more Taylor coefficient, and `N`
//! iterations solve the equation to the order the jets hold.
use vstd::prelude::*;
use crate::algebra::{Rig, Ring, DivRing, Field, multiple, power};
use crate::jet::{
    Jet, convolution, jet_product, jet_sum, jet_negation, constant_jet, jet_integral, jet_derivative,
    lemma_derivative_of_integral,
};
use crate::tensor::TensorProduct;

verus! {

/// The Kronecker delta: `1` on the diagonal, `0` elsewhere.
pub open spec fn kronecker<F: Rig>(i: int, j: int) -> F {
    if i == j {
        F::one_spec()
    } else {
        F::zero_spec()
    }
}

/// `m` is an `n × n` matrix of jets with `len` coefficients each.
pub open spec fn is_jet_matrix<F>(m: Seq<Seq<Seq<F>>>, n: nat, len: nat) -> bool {
    &&& m.len() == n
    &&& forall|i: int| 0 <= i < n ==> (#[trigger] m[i]).len() == n
    &&& forall|i: int, j: int| 0 <= i < n && 0 <= j < n ==> (#[trigger] m[i][j]).len() == len
}

/// `Σ_{k' < k} row[k']·x[k'][j]`, jets multiplied by truncated convolution
/// and summed left to right from the zero jet of `len` coefficients.
pub open spec fn row_times_column<F: Rig>(
    row: Seq<Seq<F>>,
    x: Seq<Seq<Seq<F>>>,
    j: int,
    k: int,
    len: nat,
) -> Seq<F>
    decreases k,
{
    if k <= 0 {
        constant_jet(F::zero_spec(), len)
    } else {
        jet_sum(row_times_column(row, x, j, k - 1, len), jet_product(row[k - 1], x[k - 1][j]))
    }
}

/// The product `A·X` of square matrices of jets.
pub open spec fn jet_matrix_product<F: Rig>(a: Seq<Seq<Seq<F>>>, x: Seq<Seq<Seq<F>>>, len: nat) -> Seq<Seq<Seq<F>>> {
    Seq::new(
        a.len(),
        |i: int| Seq::new(a.len(), |j: int| row_times_column(a[i], x, j, a.len() as int, len)),
    )
}

/// The identity matrix of constant jets.
pub open spec fn identity_jets<F: Rig>(n: nat, len: nat) -> Seq<Seq<Seq<F>>> {
    Seq::new(n, |i: int| Seq::new(n, |j: int| constant_jet(kronecker::<F>(i, j), len)))
}

/// One Picard iteration `X ↦ I + ∫ A·X`, each entry integrated from the
/// identity's entry.
pub open spec fn picard_step<F: DivRing>(a: Seq<Seq<Seq<F>>>, x: Seq<Seq<Seq<F>>>, len: nat) -> Seq<Seq<Seq<F>>> {
    let p = jet_matrix_product(a, x, len);
    Seq::new(
        a.len(),
        |i: int| Seq::new(a.len(), |j: int| jet_integral(kronecker::<F>(i, j), p[i][j])),
    )
}

/// `m` Picard iterations from the identity.
pub open spec fn picard<F: DivRing>(a: Seq<Seq<Seq<F>>>, m: nat, len: nat) -> Seq<Seq<Seq<F>>>
    decreases m,
{
    if m == 0 {
        identity_jets(a.len(), len)
    } else {
        picard_step(a, picard(a, (m - 1) as nat, len), len)
    }
}

/// The polynomial `Σₙ c[n]·hⁿ`, summed from the constant term.
pub open spec fn polynomial_value<F: Rig>(c: Seq<F>, h: F) -> F
    decreases c.len(),
{
    if c.len() == 0 {
        F::zero_spec()
    } else {
        polynomial_value(c.drop_last(), h).add_spec(c.last().mul_spec(power(h, (c.len() - 1) as nat)))
    }
}

/// The coordinates of a matrix of jets.
pub open spec fn jet_grid<F, const N: usize>(m: Seq<Vec<Jet<F, N>>>) -> Seq<Seq<Seq<F>>> {
    Seq::new(m.len(), |i: int| Seq::new(m[i]@.len(), |j: int| m[i]@[j]@))
}

/// A sum of products has the length of the zero jet it starts from.
proof fn lemma_row_len<F: Rig>(row: Seq<Seq<F>>, x: Seq<Seq<Seq<F>>>, j: int, k: int, len: nat)
    ensures
        row_times_column(row, x, j, k, len).len() == len,
    decreases k,
{
    if k > 0 {
        lemma_row_len(row, x, j, k - 1, len);
    }
}

/// Every Picard iterate is a square matrix of jets of the given length.
proof fn lemma_picard_shape<F: DivRing>(a: Seq<Seq<Seq<F>>>, m: nat, len: nat)
    ensures
        is_jet_matrix(picard(a, m, len), a.len(), len),
    decreases m,
{
    if m > 0 {
        lemma_picard_shape(a, (m - 1) as nat, len);
        let x = picard(a, (m - 1) as nat, len);
        assert forall|i: int, j: int| 0 <= i < a.len() && 0 <= j < a.len() implies (
        #[trigger] picard(a, m, len)[i][j]).len() == len by {
            lemma_row_len(a[i], x, j, a.len() as int, len);
        }
    }
}

/// Coefficient `c` of a truncated product reads only coefficients `0..=c` of
/// its right factor.
proof fn lemma_convolution_local<F: Rig>(p: Seq<F>, q1: Seq<F>, q2: Seq<F>, c: int, k: int)
    requires
        0 <= k <= c + 1,
        forall|t: int| 0 <= t <= c ==> #[trigger] q1[t] == q2[t],
    ensures
        convolution(p, q1, c, k) == convolution(p, q2, c, k),
    decreases k,
{
    if k > 0 {
        lemma_convolution_local(p, q1, q2, c, k - 1);
        assert(q1[c - (k - 1)] == q2[c - (k - 1)]);
    }
}

/// Coefficient `c` of `Σ row[k']·x[k'][j]` reads only coefficients `0..=c`
/// of the column.
proof fn lemma_row_local<F: Rig>(
    row: Seq<Seq<F>>,
    x: Seq<Seq<Seq<F>>>,
    y: Seq<Seq<Seq<F>>>,
    j: int,
    k: int,
    len: nat,
    c: int,
)
    requires
        0 <= c < len,
        forall|m: int| 0 <= m < k ==> (#[trigger] row[m]).len() == len,
        forall|m: int, t: int| 0 <= m < k && 0 <= t <= c ==> #[trigger] x[m][j][t] == y[m][j][t],
    ensures
        row_times_column(row, x, j, k, len)[c] == row_times_column(row, y, j, k, len)[c],
    decreases k,
{
    if k > 0 {
        lemma_row_local(row, x, y, j, k - 1, len, c);
        lemma_row_len(row, x, j, k - 1, len);
        lemma_row_len(row, y, j, k - 1, len);
        assert(row[k - 1].len() == len);
        assert forall|t: int| 0 <= t <= c implies #[trigger] x[k - 1][j][t] == y[k - 1][j][t] by {}
        lemma_convolution_local(row[k - 1], x[k - 1][j], y[k - 1][j], c, c + 1);
        assert(jet_product(row[k - 1], x[k - 1][j])[c] == convolution(row[k - 1], x[k - 1][j], c, c + 1));
        assert(jet_product(row[k - 1], y[k - 1][j])[c] == convolution(row[k - 1], y[k - 1][j], c, c + 1));
    }
}

/// If two iterates agree up to coefficient `c`, the next ones agree up to
/// coefficient `c + 1`.
proof fn lemma_step_local<F: DivRing>(a: Seq<Seq<Seq<F>>>, x: Seq<Seq<Seq<F>>>, y: Seq<Seq<Seq<F>>>, len: nat, c: int)
    requires
        is_jet_matrix(a, a.len(), len),
        is_jet_matrix(x, a.len(), len),
        is_jet_matrix(y, a.len(), len),
        0 <= c,
        c + 1 < len,
        forall|i: int, j: int, t: int|
            0 <= i < a.len() && 0 <= j < a.len() && 0 <= t <= c ==> #[trigger] x[i][j][t] == y[i][j][t],
    ensures
        forall|i: int, j: int, t: int|
            0 <= i < a.len() && 0 <= j < a.len() && 0 <= t <= c + 1 ==> #[trigger] picard_step(a, x, len)[i][j][t]
                == picard_step(a, y, len)[i][j][t],
{
    let n = a.len();
    assert forall|i: int, j: int, t: int|
        0 <= i < n && 0 <= j < n && 0 <= t <= c + 1 implies #[trigger] picard_step(a, x, len)[i][j][t]
        == picard_step(a, y, len)[i][j][t] by {
        lemma_row_len(a[i], x, j, n as int, len);
        lemma_row_len(a[i], y, j, n as int, len);
        if t > 0 {
            assert forall|m: int| 0 <= m < n implies (#[trigger] a[i][m]).len() == len by {}
            assert forall|m: int, s: int| 0 <= m < n && 0 <= s <= t - 1 implies #[trigger] x[m][j][s] == y[m][j][s] by {}
            lemma_row_local(a[i], x, y, j, n as int, len, t - 1);
        }
    }
}

/// The `m`-th and `(m+1)`-th Picard iterates agree up to coefficient `m`.
proof fn lemma_picard_stable<F: DivRing>(a: Seq<Seq<Seq<F>>>, m: nat, len: nat)
    requires
        is_jet_matrix(a, a.len(), len),
        m < len,
    ensures
        forall|i: int, j: int, t: int|
            0 <= i < a.len() && 0 <= j < a.len() && 0 <= t <= m ==> #[trigger] picard(a, m, len)[i][j][t]
                == picard(a, m + 1, len)[i][j][t],
    decreases m,
{
    let n = a.len();
    lemma_picard_shape(a, m, len);
    lemma_picard_shape(a, m + 1, len);
    if m == 0 {
        assert forall|i: int, j: int, t: int|
            0 <= i < n && 0 <= j < n && 0 <= t <= m implies #[trigger] picard(a, m, len)[i][j][t] == picard(
            a,
            m + 1,
            len,
        )[i][j][t] by {
            lemma_row_len(a[i], picard(a, 0, len), j, n as int, len);
            assert(picard(a, 1, len) == picard_step(a, picard(a, 0, len), len));
        }
    } else {
        lemma_picard_stable(a, (m - 1) as nat, len);
        lemma_picard_shape(a, (m - 1) as nat, len);
        lemma_step_local(a, picard(a, (m - 1) as nat, len), picard(a, m, len), len, m - 1);
        assert(picard(a, m, len) == picard_step(a, picard(a, (m - 1) as nat, len), len));
        assert(picard(a, m + 1, len) == picard_step(a, picard(a, m, len), len));
    }
}

/// The fundamental equation. After `order` Picard iterations on jets of
/// `order + 1` coefficients, `X = picard(A)` satisfies `X(0) = I` and
/// `X' = A·X` in every coefficient a jet of that order holds, provided
/// `1, …, order` are nonzero in the field.
pub proof fn lemma_fundamental_equation<F: DivRing>(a: Seq<Seq<Seq<F>>>, order: nat)
    requires
        is_jet_matrix(a, a.len(), order + 1),
        forall|i: nat| 1 <= i <= order ==> #[trigger] multiple(F::one_spec(), i) != F::zero_spec(),
    ensures
        is_jet_matrix(picard(a, order, order + 1), a.len(), order + 1),
        forall|i: int, j: int|
            0 <= i < a.len() && 0 <= j < a.len() ==> #[trigger] picard(a, order, order + 1)[i][j][0]
                == kronecker::<F>(i, j),
        forall|i: int, j: int|
            0 <= i < a.len() && 0 <= j < a.len() ==> #[trigger] jet_derivative(picard(a, order, order + 1)[i][j])
                == jet_matrix_product(a, picard(a, order, order + 1), order + 1)[i][j].update(
                order as int,
                F::zero_spec(),
            ),
{
    let n = a.len();
    let len = order + 1;
    let x = picard(a, order, len);
    lemma_picard_shape(a, order, len);
    lemma_picard_shape(a, order + 1, len);
    lemma_picard_stable(a, order, len);
    assert(picard(a, order + 1, len) == picard_step(a, x, len));
    let p = jet_matrix_product(a, x, len);
    assert forall|i: int, j: int| 0 <= i < n && 0 <= j < n implies #[trigger] x[i][j] == jet_integral(
        kronecker::<F>(i, j),
        p[i][j],
    ) by {
        lemma_row_len(a[i], x, j, n as int, len);
        assert forall|t: int| 0 <= t < len implies x[i][j][t] == #[trigger] picard(a, order + 1, len)[i][j][t] by {}
        assert(x[i][j] =~= picard(a, order + 1, len)[i][j]);
    }
    assert forall|i: int, j: int| 0 <= i < n && 0 <= j < n implies #[trigger] x[i][j][0] == kronecker::<F>(i, j) by {
        assert(x[i][j] == jet_integral(kronecker::<F>(i, j), p[i][j]));
        lemma_row_len(a[i], x, j, n as int, len);
    }
    assert forall|i: int, j: int| 0 <= i < n && 0 <= j < n implies #[trigger] jet_derivative(x[i][j])
        == p[i][j].update(order as int, F::zero_spec()) by {
        assert(x[i][j] == jet_integral(kronecker::<F>(i, j), p[i][j]));
        lemma_row_len(a[i], x, j, n as int, len);
        assert forall|k: nat| 1 <= k < p[i][j].len() implies #[trigger] multiple(F::one_spec(), k) != F::zero_spec() by {}
        lemma_derivative_of_integral(kronecker::<F>(i, j), p[i][j]);
    }
}

/// Horner's step: `Σₙ c[n]·hⁿ = c[0] + (Σₙ c[n+1]·hⁿ)·h`.
pub proof fn lemma_polynomial_head<F: Rig>(c: Seq<F>, h: F)
    requires
        c.len() >= 1,
    ensures
        polynomial_value(c, h) == c[0].add_spec(polynomial_value(c.drop_first(), h).mul_spec(h)),
    decreases c.len(),
{
    if c.len() == 1 {
        assert(c.drop_last().len() == 0);
        assert(c.drop_first().len() == 0);
        assert(power(h, 0) == F::one_spec());
        F::lemma_mul_identity(c[0]);
        F::lemma_add_identity(c[0]);
        F::lemma_annihilation(h);
        assert(c.last() == c[0]);
        assert(polynomial_value(c.drop_last(), h) == F::zero_spec());
        assert(polynomial_value(c.drop_first(), h) == F::zero_spec());
        assert(polynomial_value(c, h) == c[0]);
    } else {
        let d = c.drop_last();
        let t = c.drop_first();
        let mid = t.drop_last();
        assert(d.drop_first() =~= mid);
        lemma_polynomial_head(d, h);
        assert(d[0] == c[0]);
        assert(t.last() == c.last());
        let k = (c.len() - 2) as nat;
        assert(t.len() - 1 == k);
        // pv(t)·h = pv(mid)·h + (last·hᵏ)·h
        F::lemma_distributive(polynomial_value(mid, h), c.last().mul_spec(power(h, k)), h);
        F::lemma_mul_associative(c.last(), power(h, k), h);
        assert(power(h, k + 1) == power(h, k).mul_spec(h));
        assert((c.len() - 1) as nat == k + 1);
        F::lemma_add_associative(
            c[0],
            polynomial_value(mid, h).mul_spec(h),
            c.last().mul_spec(power(h, k + 1)),
        );
        assert(polynomial_value(t, h) == polynomial_value(mid, h).add_spec(c.last().mul_spec(power(h, k))));
        assert(polynomial_value(c, h) == polynomial_value(d, h).add_spec(c.last().mul_spec(power(h, k + 1))));
        assert(polynomial_value(d, h) == c[0].add_spec(polynomial_value(mid, h).mul_spec(h)));
        assert(polynomial_value(t, h).mul_spec(h) == polynomial_value(mid, h).mul_spec(h).add_spec(c.last().mul_spec(power(h, k + 1))));
    }
}

/// At `h = 0` a polynomial is its constant term.
pub proof fn lemma_polynomial_at_zero<F: Rig>(c: Seq<F>)
    requires
        c.len() >= 1,
    ensures
        polynomial_value(c, F::zero_spec()) == c[0],
{
    lemma_polynomial_head(c, F::zero_spec());
    F::lemma_annihilation(polynomial_value(c.drop_first(), F::zero_spec()));
    F::lemma_add_identity(c[0]);
}

/// The identity matrix of constant jets.
fn identity_matrix<F: Field, const N: usize>(n: usize) -> (r: Vec<Vec<Jet<F, N>>>)
    ensures
        jet_grid(r@) == identity_jets::<F>(n as nat, (N + 1) as nat),
{
    let mut rows: Vec<Vec<Jet<F, N>>> = Vec::new();
    let mut i: usize = 0;
    while i < n
        invariant
            i <= n,
            rows@.len() == i,
            forall|p: int| 0 <= p < i ==> (#[trigger] rows@[p])@.len() == n,
            forall|p: int, q: int| 0 <= p < i && 0 <= q < n ==> (#[trigger] rows@[p]@[q])@ == constant_jet(
                kronecker::<F>(p, q),
                (N + 1) as nat,
            ),
        decreases n - i,
    {
        let mut row: Vec<Jet<F, N>> = Vec::new();
        let mut j: usize = 0;
        while j < n
            invariant
                i < n,
                j <= n,
                row@.len() == j,
                forall|q: int| 0 <= q < j ==> (#[trigger] row@[q])@ == constant_jet(
                    kronecker::<F>(i as int, q),
                    (N + 1) as nat,
                ),
            decreases n - j,
        {
            let entry = if i == j {
                Jet::<F, N>::one()
            } else {
                Jet::<F, N>::zero()
            };
            row.push(entry);
            j = j + 1;
        }
        rows.push(row);
        i = i + 1;
    }
    assert(jet_grid(rows@) =~= identity_jets::<F>(n as nat, (N + 1) as nat)) by {
        assert forall|p: int| 0 <= p < n implies #[trigger] jet_grid(rows@)[p] =~= identity_jets::<F>(
            n as nat,
            (N + 1) as nat,
        )[p] by {}
    }
    rows
}

/// `Σ_k a[i][k]·x[k][j]`.
fn product_entry_jet<F: Field, const N: usize>(
    a: &Vec<Vec<Jet<F, N>>>,
    x: &Vec<Vec<Jet<F, N>>>,
    i: usize,
    j: usize,
) -> (r: Jet<F, N>)
    requires
        i < a@.len(),
        a@[i as int]@.len() == a@.len(),
        x@.len() == a@.len(),
        forall|k: int| 0 <= k < x@.len() ==> (#[trigger] x@[k])@.len() == a@.len(),
        j < a@.len(),
    ensures
        r@ == row_times_column(jet_grid(a@)[i as int], jet_grid(x@), j as int, a@.len() as int, (N + 1) as nat),
{
    let n = a.len();
    let row = &a[i];
    let ghost ga = jet_grid(a@);
    let ghost gx = jet_grid(x@);
    let mut acc = Jet::<F, N>::zero();
    let mut k: usize = 0;
    while k < n
        invariant
            n == a@.len(),
            row@ == a@[i as int]@,
            row@.len() == n,
            i < n,
            j < n,
            x@.len() == n,
            forall|m: int| 0 <= m < x@.len() ==> (#[trigger] x@[m])@.len() == n,
            ga == jet_grid(a@),
            gx == jet_grid(x@),
            k <= n,
            acc@ == row_times_column(ga[i as int], gx, j as int, k as int, (N + 1) as nat),
        decreases n - k,
    {
        let term = row[k].mul(&x[k][j]);
        proof {
            assert(ga[i as int][k as int] == row@[k as int]@);
            assert(gx[k as int][j as int] == x@[k as int]@[j as int]@);
        }
        acc = acc.add(&term);
        k = k + 1;
    }
    acc
}

/// One Picard iteration `X ↦ I + ∫ A·X`.
fn picard_iteration<F: Field, const N: usize>(a: &Vec<Vec<Jet<F, N>>>, x: &Vec<Vec<Jet<F, N>>>) -> (r: Vec<Vec<Jet<F, N>>>)
    requires
        forall|i: int| 0 <= i < a@.len() ==> (#[trigger] a@[i])@.len() == a@.len(),
        x@.len() == a@.len(),
        forall|k: int| 0 <= k < x@.len() ==> (#[trigger] x@[k])@.len() == a@.len(),
        forall|i: nat| 1 <= i <= N ==> #[trigger] multiple(F::one_spec(), i) != F::zero_spec(),
    ensures
        jet_grid(r@) == picard_step(jet_grid(a@), jet_grid(x@), (N + 1) as nat),
        r@.len() == a@.len(),
        forall|k: int| 0 <= k < r@.len() ==> (#[trigger] r@[k])@.len() == a@.len(),
{
    let n = a.len();
    let ghost target = picard_step(jet_grid(a@), jet_grid(x@), (N + 1) as nat);
    let mut rows: Vec<Vec<Jet<F, N>>> = Vec::new();
    let mut i: usize = 0;
    while i < n
        invariant
            n == a@.len(),
            forall|p: int| 0 <= p < a@.len() ==> (#[trigger] a@[p])@.len() == a@.len(),
            x@.len() == n,
            forall|k: int| 0 <= k < x@.len() ==> (#[trigger] x@[k])@.len() == n,
            forall|q: nat| 1 <= q <= N ==> #[trigger] multiple(F::one_spec(), q) != F::zero_spec(),
            target == picard_step(jet_grid(a@), jet_grid(x@), (N + 1) as nat),
            i <= n,
            rows@.len() == i,
            forall|p: int| 0 <= p < i ==> (#[trigger] rows@[p])@.len() == n,
            forall|p: int, q: int| 0 <= p < i && 0 <= q < n ==> (#[trigger] rows@[p]@[q])@ == target[p][q],
        decreases n - i,
    {
        let mut row: Vec<Jet<F, N>> = Vec::new();
        let mut j: usize = 0;
        while j < n
            invariant
                n == a@.len(),
                forall|p: int| 0 <= p < a@.len() ==> (#[trigger] a@[p])@.len() == a@.len(),
                x@.len() == n,
                forall|k: int| 0 <= k < x@.len() ==> (#[trigger] x@[k])@.len() == n,
                forall|q: nat| 1 <= q <= N ==> #[trigger] multiple(F::one_spec(), q) != F::zero_spec(),
                target == picard_step(jet_grid(a@), jet_grid(x@), (N + 1) as nat),
                i < n,
                j <= n,
                row@.len() == j,
                forall|q: int| 0 <= q < j ==> (#[trigger] row@[q])@ == target[i as int][q],
            decreases n - j,
        {
            let sum = product_entry_jet(a, x, i, j);
            let start = if i == j {
                F::one()
            } else {
                F::zero()
            };
            let entry = Jet::integrate_from(start, sum);
            proof {
                assert(jet_grid(a@).len() == n);
                assert(jet_matrix_product(jet_grid(a@), jet_grid(x@), (N + 1) as nat)[i as int][j as int]
                    == sum@);
            }
            row.push(entry);
            j = j + 1;
        }
        rows.push(row);
        i = i + 1;
    }
    proof {
        assert(target.len() == n);
        assert forall|p: int| 0 <= p < n implies #[trigger] jet_grid(rows@)[p] =~= target[p] by {}
        assert(jet_grid(rows@) =~= target);
    }
    rows
}

/// The fundamental solution of `X' = A·X`, `X(0) = I`, to the order of the
/// jets: `N` Picard iterations from the identity. Each `1, …, N` must be
/// nonzero in `F`.
pub fn fundamental_solution<F: Field, const N: usize>(a: &Vec<Vec<Jet<F, N>>>) -> (x: Vec<Vec<Jet<F, N>>>)
    requires
        forall|i: int| 0 <= i < a@.len() ==> (#[trigger] a@[i])@.len() == a@.len(),
        forall|i: nat| 1 <= i <= N ==> #[trigger] multiple(F::one_spec(), i) != F::zero_spec(),
    ensures
        jet_grid(x@) == picard(jet_grid(a@), N as nat, (N + 1) as nat),
{
    let n = a.len();
    let mut x = identity_matrix::<F, N>(n);
    proof {
        assert(jet_grid(a@).len() == n);
    }
    let mut m: usize = 0;
    while m < N
        invariant
            n == a@.len(),
            forall|i: int| 0 <= i < a@.len() ==> (#[trigger] a@[i])@.len() == a@.len(),
            forall|i: nat| 1 <= i <= N ==> #[trigger] multiple(F::one_spec(), i) != F::zero_spec(),
            m <= N,
            jet_grid(x@) == picard(jet_grid(a@), m as nat, (N + 1) as nat),
        decreases N - m,
    {
        proof {
            lemma_picard_shape(jet_grid(a@), m as nat, (N + 1) as nat);
            assert(x@.len() == jet_grid(x@).len());
            assert forall|k: int| 0 <= k < x@.len() implies (#[trigger] x@[k])@.len() == n by {
                assert(jet_grid(x@)[k].len() == x@[k]@.len());
            }
        }
        x = picard_iteration(a, &x);
        m = m + 1;
    }
    x
}

/// `Σₙ jet[n]·hⁿ`, by Horner's rule from the highest coefficient.
pub fn evaluate_series<F: Field, const N: usize>(jet: &Jet<F, N>, h: F) -> (r: F)
    ensures
        r == polynomial_value(jet@, h),
{
    let len = jet.len();
    let mut value = jet.index(N);
    let mut n: usize = N;
    proof {
        let s = jet@.skip(N as int);
        assert(s.len() == 1);
        assert(s[0] == value);
        lemma_polynomial_head(s, h);
        assert(s.drop_first().len() == 0);
        F::lemma_annihilation(h);
        F::lemma_add_identity(value);
    }
    while n > 0
        invariant
            len == N + 1,
            jet@.len() == N + 1,
            n <= N,
            value == polynomial_value(jet@.skip(n as int), h),
        decreases n,
    {
        let ghost previous = value;
        n = n - 1;
        let coefficient = jet.index(n);
        value = value.mul(&h).add(&coefficient);
        proof {
            let s = jet@.skip(n as int);
            lemma_polynomial_head(s, h);
            assert(s.drop_first() =~= jet@.skip(n + 1));
            assert(s[0] == coefficient);
            F::lemma_add_commutative(previous.mul_spec(h), coefficient);
        }
    }
    assert(jet@.skip(0) =~= jet@);
    value
}

/// One step of parallel transport with connection matrix `A` (a matrix of
/// jets in the curve parameter): the fundamental solution evaluated at the
/// step `h`. Each `1, …, N` must be nonzero in `F`.
pub fn transport_step<F: Field, const N: usize>(a: &Vec<Vec<Jet<F, N>>>, h: F) -> (r: TensorProduct<F>)
    requires
        forall|i: int| 0 <= i < a@.len() ==> (#[trigger] a@[i])@.len() == a@.len(),
        forall|i: nat| 1 <= i <= N ==> #[trigger] multiple(F::one_spec(), i) != F::zero_spec(),
    ensures
        r.is_square(a@.len()),
        forall|i: int, j: int|
            0 <= i < a@.len() && 0 <= j < a@.len() ==> #[trigger] r@[i][j] == polynomial_value(
                picard(jet_grid(a@), N as nat, (N + 1) as nat)[i][j],
                h,
            ),
{
    let n = a.len();
    let x = fundamental_solution(a);
    let ghost sol = picard(jet_grid(a@), N as nat, (N + 1) as nat);
    proof {
        lemma_picard_shape(jet_grid(a@), N as nat, (N + 1) as nat);
        assert(jet_grid(a@).len() == n);
    }
    let mut values: Vec<Vec<F>> = Vec::new();
    let mut i: usize = 0;
    while i < n
        invariant
            n == a@.len(),
            sol == jet_grid(x@),
            is_jet_matrix(sol, n as nat, (N + 1) as nat),
            i <= n,
            values@.len() == i,
            forall|p: int| 0 <= p < i ==> (#[trigger] values@[p])@.len() == n,
            forall|p: int, q: int| 0 <= p < i && 0 <= q < n ==> (#[trigger] values@[p]@[q]) == polynomial_value(
                sol[p][q],
                h,
            ),
        decreases n - i,
    {
        let mut row: Vec<F> = Vec::new();
        let mut j: usize = 0;
        proof {
            assert(sol[i as int].len() == x@[i as int]@.len());
        }
        while j < n
            invariant
                n == a@.len(),
                sol == jet_grid(x@),
                is_jet_matrix(sol, n as nat, (N + 1) as nat),
                i < n,
                x@[i as int]@.len() == n,
                j <= n,
                row@.len() == j,
                forall|q: int| 0 <= q < j ==> (#[trigger] row@[q]) == polynomial_value(sol[i as int][q], h),
            decreases n - j,
        {
            let v = evaluate_series(&x[i][j], h);
            proof {
                assert(sol[i as int][j as int] == x@[i as int]@[j as int]@);
            }
            row.push(v);
            j = j + 1;
        }
        values.push(row);
        i = i + 1;
    }
    let f = |p: usize, q: usize| -> (e: F)
        requires
            p < values@.len(),
            q < values@[p as int]@.len(),
        ensures
            e == values@[p as int]@[q as int],
        { values[p][q] };
    let r = TensorProduct::from_fn_ij(n, n, f);
    proof {
        assert forall|p: int, q: int| 0 <= p < n && 0 <= q < n implies #[trigger] r@[p][q] == polynomial_value(
            sol[p][q],
            h,
        ) by {
            assert(f.ensures((p as usize, q as usize), r@[p][q]));
        }
    }
    r
}

/// A step of length zero transports nothing: the step at `h = 0` is the
/// identity.
pub proof fn lemma_zero_step_is_identity<F: DivRing>(a: Seq<Seq<Seq<F>>>, order: nat)
    requires
        is_jet_matrix(a, a.len(), order + 1),
        forall|i: nat| 1 <= i <= order ==> #[trigger] multiple(F::one_spec(), i) != F::zero_spec(),
    ensures
        forall|i: int, j: int|
            0 <= i < a.len() && 0 <= j < a.len() ==> #[trigger] polynomial_value(
                picard(a, order, order + 1)[i][j],
                F::zero_spec(),
            ) == kronecker::<F>(i, j),
{
    lemma_fundamental_equation(a, order);
    assert forall|i: int, j: int| 0 <= i < a.len() && 0 <= j < a.len() implies #[trigger] polynomial_value(
        picard(a, order, order + 1)[i][j],
        F::zero_spec(),
    ) == kronecker::<F>(i, j) by {
        lemma_polynomial_at_zero(picard(a, order, order + 1)[i][j]);
    }
}


/// `Ω·X − X·Ω` for square matrices of jets.
pub open spec fn jet_commutator<F: Ring>(omega: Seq<Seq<Seq<F>>>, x: Seq<Seq<Seq<F>>>, len: nat) -> Seq<Seq<Seq<F>>> {
    let p = jet_matrix_product(omega, x, len);
    let q = jet_matrix_product(x, omega, len);
    Seq::new(omega.len(), |i: int| Seq::new(omega.len(), |j: int| jet_sum(p[i][j], jet_negation(q[i][j]))))
}

/// `ad_Ω^k(A)`: the commutator with `Ω` taken `k` times.
pub open spec fn ad_power<F: Ring>(omega: Seq<Seq<Seq<F>>>, a: Seq<Seq<Seq<F>>>, k: nat, len: nat) -> Seq<Seq<Seq<F>>>
    decreases k,
{
    if k == 0 {
        a
    } else {
        jet_commutator(omega, ad_power(omega, a, (k - 1) as nat, len), len)
    }
}

/// `A + Σ_{1 ≤ k ≤ m} ad_Ω^k(A)·b[k]`, summed in order of `k`.
pub open spec fn magnus_series<F: Ring>(
    omega: Seq<Seq<Seq<F>>>,
    a: Seq<Seq<Seq<F>>>,
    b: Seq<F>,
    m: nat,
    len: nat,
) -> Seq<Seq<Seq<F>>>
    decreases m,
{
    if m == 0 {
        a
    } else {
        let prev = magnus_series(omega, a, b, (m - 1) as nat, len);
        let ad = ad_power(omega, a, m, len);
        Seq::new(
            a.len(),
            |i: int| Seq::new(a.len(), |j: int| jet_sum(prev[i][j], jet_product(ad[i][j], constant_jet(b[m as int], len)))),
        )
    }
}

/// The zero matrix of jets.
pub open spec fn zero_jets<F: Rig>(n: nat, len: nat) -> Seq<Seq<Seq<F>>> {
    Seq::new(n, |i: int| Seq::new(n, |j: int| constant_jet(F::zero_spec(), len)))
}

/// One iteration of the Magnus equation for `X = exp(Ω)`:
/// `Ω ↦ ∫₀ (A + Σ_{1 ≤ k ≤ m} b[k]·ad_Ω^k(A))`, each entry integrated from
/// zero; `b[k]` are the Bernoulli coefficients `Bₖ/k!`.
pub open spec fn magnus_step<F: DivRing>(
    a: Seq<Seq<Seq<F>>>,
    omega: Seq<Seq<Seq<F>>>,
    b: Seq<F>,
    m: nat,
    len: nat,
) -> Seq<Seq<Seq<F>>> {
    let s = magnus_series(omega, a, b, m, len);
    Seq::new(a.len(), |i: int| Seq::new(a.len(), |j: int| jet_integral(F::zero_spec(), s[i][j])))
}

/// `r` iterations of the Magnus equation from `Ω = 0`.
pub open spec fn magnus<F: DivRing>(a: Seq<Seq<Seq<F>>>, b: Seq<F>, m: nat, r: nat, len: nat) -> Seq<Seq<Seq<F>>>
    decreases r,
{
    if r == 0 {
        zero_jets(a.len(), len)
    } else {
        magnus_step(a, magnus(a, b, m, (r - 1) as nat, len), b, m, len)
    }
}

/// `x` and `y` agree in coefficients `0..=c` of every entry.
pub open spec fn agree_upto<F>(x: Seq<Seq<Seq<F>>>, y: Seq<Seq<Seq<F>>>, n: nat, c: int) -> bool {
    forall|i: int, j: int, t: int| 0 <= i < n && 0 <= j < n && 0 <= t <= c ==> #[trigger] x[i][j][t] == y[i][j][t]
}

/// Coefficient `c` of a truncated product reads only coefficients `0..=c`
/// of either factor.
proof fn lemma_convolution_local_both<F: Rig>(p1: Seq<F>, p2: Seq<F>, q1: Seq<F>, q2: Seq<F>, c: int, k: int)
    requires
        0 <= k <= c + 1,
        forall|t: int| 0 <= t <= c ==> #[trigger] p1[t] == p2[t],
        forall|t: int| 0 <= t <= c ==> #[trigger] q1[t] == q2[t],
    ensures
        convolution(p1, q1, c, k) == convolution(p2, q2, c, k),
    decreases k,
{
    if k > 0 {
        lemma_convolution_local_both(p1, p2, q1, q2, c, k - 1);
        assert(p1[k - 1] == p2[k - 1]);
        assert(q1[c - (k - 1)] == q2[c - (k - 1)]);
    }
}

/// Coefficient `c` of `Σ row[k']·x[k'][j]` reads only coefficients `0..=c`
/// of the row and of the column.
proof fn lemma_row_local_both<F: Rig>(
    row1: Seq<Seq<F>>,
    row2: Seq<Seq<F>>,
    x: Seq<Seq<Seq<F>>>,
    y: Seq<Seq<Seq<F>>>,
    j: int,
    k: int,
    len: nat,
    c: int,
)
    requires
        0 <= c < len,
        forall|m: int| 0 <= m < k ==> (#[trigger] row1[m]).len() == len,
        forall|m: int| 0 <= m < k ==> (#[trigger] row2[m]).len() == len,
        forall|m: int, t: int| 0 <= m < k && 0 <= t <= c ==> #[trigger] row1[m][t] == row2[m][t],
        forall|m: int, t: int| 0 <= m < k && 0 <= t <= c ==> #[trigger] x[m][j][t] == y[m][j][t],
    ensures
        row_times_column(row1, x, j, k, len)[c] == row_times_column(row2, y, j, k, len)[c],
    decreases k,
{
    if k > 0 {
        lemma_row_local_both(row1, row2, x, y, j, k - 1, len, c);
        lemma_row_len(row1, x, j, k - 1, len);
        lemma_row_len(row2, y, j, k - 1, len);
        assert(row1[k - 1].len() == len);
        assert(row2[k - 1].len() == len);
        assert forall|t: int| 0 <= t <= c implies #[trigger] row1[k - 1][t] == row2[k - 1][t] by {}
        assert forall|t: int| 0 <= t <= c implies #[trigger] x[k - 1][j][t] == y[k - 1][j][t] by {}
        lemma_convolution_local_both(row1[k - 1], row2[k - 1], x[k - 1][j], y[k - 1][j], c, c + 1);
        assert(jet_product(row1[k - 1], x[k - 1][j])[c] == convolution(row1[k - 1], x[k - 1][j], c, c + 1));
        assert(jet_product(row2[k - 1], y[k - 1][j])[c] == convolution(row2[k - 1], y[k - 1][j], c, c + 1));
    }
}

/// A product of square matrices of jets is one, and reads only coefficients
/// `0..=c` of its factors for its coefficients `0..=c`.
proof fn lemma_product_local<F: Rig>(
    x1: Seq<Seq<Seq<F>>>,
    x2: Seq<Seq<Seq<F>>>,
    y1: Seq<Seq<Seq<F>>>,
    y2: Seq<Seq<Seq<F>>>,
    n: nat,
    len: nat,
    c: int,
)
    requires
        is_jet_matrix(x1, n, len),
        is_jet_matrix(x2, n, len),
        0 <= c < len,
        agree_upto(x1, x2, n, c),
        agree_upto(y1, y2, n, c),
    ensures
        is_jet_matrix(jet_matrix_product(x1, y1, len), n, len),
        is_jet_matrix(jet_matrix_product(x2, y2, len), n, len),
        agree_upto(jet_matrix_product(x1, y1, len), jet_matrix_product(x2, y2, len), n, c),
{
    let p1 = jet_matrix_product(x1, y1, len);
    let p2 = jet_matrix_product(x2, y2, len);
    assert forall|i: int, j: int| 0 <= i < n && 0 <= j < n implies (#[trigger] p1[i][j]).len() == len by {
        lemma_row_len(x1[i], y1, j, n as int, len);
    }
    assert forall|i: int, j: int| 0 <= i < n && 0 <= j < n implies (#[trigger] p2[i][j]).len() == len by {
        lemma_row_len(x2[i], y2, j, n as int, len);
    }
    assert forall|i: int, j: int, t: int| 0 <= i < n && 0 <= j < n && 0 <= t <= c implies #[trigger] p1[i][j][t]
        == p2[i][j][t] by {
        assert forall|m: int| 0 <= m < n implies (#[trigger] x1[i][m]).len() == len by {}
        assert forall|m: int| 0 <= m < n implies (#[trigger] x2[i][m]).len() == len by {}
        assert forall|m: int, s: int| 0 <= m < n && 0 <= s <= t implies #[trigger] x1[i][m][s] == x2[i][m][s] by {}
        assert forall|m: int, s: int| 0 <= m < n && 0 <= s <= t implies #[trigger] y1[m][j][s] == y2[m][j][s] by {}
        lemma_row_local_both(x1[i], x2[i], y1, y2, j, n as int, len, t);
    }
}

/// The commutator of square matrices of jets is one, and reads only
/// coefficients `0..=c` of its arguments for its coefficients `0..=c`.
proof fn lemma_commutator_local<F: Ring>(
    o1: Seq<Seq<Seq<F>>>,
    o2: Seq<Seq<Seq<F>>>,
    x1: Seq<Seq<Seq<F>>>,
    x2: Seq<Seq<Seq<F>>>,
    n: nat,
    len: nat,
    c: int,
)
    requires
        is_jet_matrix(o1, n, len),
        is_jet_matrix(o2, n, len),
        is_jet_matrix(x1, n, len),
        is_jet_matrix(x2, n, len),
        0 <= c < len,
        agree_upto(o1, o2, n, c),
        agree_upto(x1, x2, n, c),
    ensures
        is_jet_matrix(jet_commutator(o1, x1, len), n, len),
        is_jet_matrix(jet_commutator(o2, x2, len), n, len),
        agree_upto(jet_commutator(o1, x1, len), jet_commutator(o2, x2, len), n, c),
{
    lemma_product_local(o1, o2, x1, x2, n, len, c);
    lemma_product_local(x1, x2, o1, o2, n, len, c);
    let p1 = jet_matrix_product(o1, x1, len);
    let p2 = jet_matrix_product(o2, x2, len);
    let q1 = jet_matrix_product(x1, o1, len);
    let q2 = jet_matrix_product(x2, o2, len);
    let k1 = jet_commutator(o1, x1, len);
    let k2 = jet_commutator(o2, x2, len);
    assert forall|i: int, j: int| 0 <= i < n && 0 <= j < n implies (#[trigger] k1[i][j]).len() == len
        && k2[i][j].len() == len by {
        assert(p1[i][j].len() == len);
        assert(p2[i][j].len() == len);
    }
    assert forall|i: int, j: int, t: int| 0 <= i < n && 0 <= j < n && 0 <= t <= c implies #[trigger] k1[i][j][t]
        == k2[i][j][t] by {
        assert(p1[i][j].len() == len && p2[i][j].len() == len);
        assert(p1[i][j][t] == p2[i][j][t]);
        assert(q1[i][j][t] == q2[i][j][t]);
    }
}

/// `ad_Ω^k(A)` is a square matrix of jets and reads only coefficients
/// `0..=c` of `Ω` for its coefficients `0..=c`.
proof fn lemma_ad_power_local<F: Ring>(
    o1: Seq<Seq<Seq<F>>>,
    o2: Seq<Seq<Seq<F>>>,
    a: Seq<Seq<Seq<F>>>,
    k: nat,
    n: nat,
    len: nat,
    c: int,
)
    requires
        is_jet_matrix(o1, n, len),
        is_jet_matrix(o2, n, len),
        is_jet_matrix(a, n, len),
        0 <= c < len,
        agree_upto(o1, o2, n, c),
    ensures
        is_jet_matrix(ad_power(o1, a, k, len), n, len),
        is_jet_matrix(ad_power(o2, a, k, len), n, len),
        agree_upto(ad_power(o1, a, k, len), ad_power(o2, a, k, len), n, c),
    decreases k,
{
    if k > 0 {
        lemma_ad_power_local(o1, o2, a, (k - 1) as nat, n, len, c);
        lemma_commutator_local(
            o1,
            o2,
            ad_power(o1, a, (k - 1) as nat, len),
            ad_power(o2, a, (k - 1) as nat, len),
            n,
            len,
            c,
        );
    }
}

/// The Magnus series is a square matrix of jets and reads only coefficients
/// `0..=c` of `Ω` for its coefficients `0..=c`.
proof fn lemma_series_local<F: Ring>(
    o1: Seq<Seq<Seq<F>>>,
    o2: Seq<Seq<Seq<F>>>,
    a: Seq<Seq<Seq<F>>>,
    b: Seq<F>,
    m: nat,
    n: nat,
    len: nat,
    c: int,
)
    requires
        is_jet_matrix(o1, n, len),
        is_jet_matrix(o2, n, len),
        is_jet_matrix(a, n, len),
        0 <= c < len,
        agree_upto(o1, o2, n, c),
    ensures
        is_jet_matrix(magnus_series(o1, a, b, m, len), n, len),
        is_jet_matrix(magnus_series(o2, a, b, m, len), n, len),
        agree_upto(magnus_series(o1, a, b, m, len), magnus_series(o2, a, b, m, len), n, c),
    decreases m,
{
    if m > 0 {
        lemma_series_local(o1, o2, a, b, (m - 1) as nat, n, len, c);
        lemma_ad_power_local(o1, o2, a, m, n, len, c);
        let prev1 = magnus_series(o1, a, b, (m - 1) as nat, len);
        let prev2 = magnus_series(o2, a, b, (m - 1) as nat, len);
        let ad1 = ad_power(o1, a, m, len);
        let ad2 = ad_power(o2, a, m, len);
        let s1 = magnus_series(o1, a, b, m, len);
        let s2 = magnus_series(o2, a, b, m, len);
        let bc = constant_jet(b[m as int], len);
        assert forall|i: int, j: int| 0 <= i < n && 0 <= j < n implies (#[trigger] s1[i][j]).len() == len
            && s2[i][j].len() == len by {
            assert(prev1[i][j].len() == len);
            assert(prev2[i][j].len() == len);
        }
        assert forall|i: int, j: int, t: int| 0 <= i < n && 0 <= j < n && 0 <= t <= c implies #[trigger] s1[i][j][t]
            == s2[i][j][t] by {
            assert(prev1[i][j].len() == len && prev2[i][j].len() == len);
            assert(ad1[i][j].len() == len && ad2[i][j].len() == len);
            assert(prev1[i][j][t] == prev2[i][j][t]);
            assert forall|u: int| 0 <= u <= t implies #[trigger] ad1[i][j][u] == ad2[i][j][u] by {}
            lemma_convolution_local_both(ad1[i][j], ad2[i][j], bc, bc, t, t + 1);
            assert(jet_product(ad1[i][j], bc)[t] == convolution(ad1[i][j], bc, t, t + 1));
            assert(jet_product(ad2[i][j], bc)[t] == convolution(ad2[i][j], bc, t, t + 1));
        }
    }
}

/// One Magnus step is a square matrix of jets, and its coefficients
/// `0..=c + 1` read only coefficients `0..=c` of `Ω`.
proof fn lemma_magnus_step_local<F: DivRing>(
    a: Seq<Seq<Seq<F>>>,
    o1: Seq<Seq<Seq<F>>>,
    o2: Seq<Seq<Seq<F>>>,
    b: Seq<F>,
    m: nat,
    len: nat,
    c: int,
)
    requires
        is_jet_matrix(a, a.len(), len),
        is_jet_matrix(o1, a.len(), len),
        is_jet_matrix(o2, a.len(), len),
        0 <= c < len,
        agree_upto(o1, o2, a.len(), c),
    ensures
        is_jet_matrix(magnus_step(a, o1, b, m, len), a.len(), len),
        is_jet_matrix(magnus_step(a, o2, b, m, len), a.len(), len),
        c + 1 < len ==> agree_upto(magnus_step(a, o1, b, m, len), magnus_step(a, o2, b, m, len), a.len(), c + 1),
{
    let n = a.len();
    lemma_series_local(o1, o2, a, b, m, n, len, c);
    let s1 = magnus_series(o1, a, b, m, len);
    let s2 = magnus_series(o2, a, b, m, len);
    let t1 = magnus_step(a, o1, b, m, len);
    let t2 = magnus_step(a, o2, b, m, len);
    assert forall|i: int, j: int| 0 <= i < n && 0 <= j < n implies (#[trigger] t1[i][j]).len() == len by {
        assert(s1[i][j].len() == len);
    }
    assert forall|i: int, j: int| 0 <= i < n && 0 <= j < n implies (#[trigger] t2[i][j]).len() == len by {
        assert(s2[i][j].len() == len);
    }
    if c + 1 < len {
        assert forall|i: int, j: int, t: int| 0 <= i < n && 0 <= j < n && 0 <= t <= c + 1 implies #[trigger] t1[i][j][t]
            == t2[i][j][t] by {
            assert(s1[i][j].len() == len && s2[i][j].len() == len);
            if t > 0 {
                assert(s1[i][j][t - 1] == s2[i][j][t - 1]);
            }
        }
    }
}

/// Every Magnus iterate is a square matrix of jets of the given length.
proof fn lemma_magnus_shape<F: DivRing>(a: Seq<Seq<Seq<F>>>, b: Seq<F>, m: nat, r: nat, len: nat)
    requires
        is_jet_matrix(a, a.len(), len),
        len >= 1,
    ensures
        is_jet_matrix(magnus(a, b, m, r, len), a.len(), len),
    decreases r,
{
    if r > 0 {
        lemma_magnus_shape(a, b, m, (r - 1) as nat, len);
        let o = magnus(a, b, m, (r - 1) as nat, len);
        lemma_magnus_step_local(a, o, o, b, m, len, 0);
    }
}

/// The `r`-th and `(r+1)`-th Magnus iterates agree up to coefficient `r`.
proof fn lemma_magnus_stable<F: DivRing>(a: Seq<Seq<Seq<F>>>, b: Seq<F>, m: nat, r: nat, len: nat)
    requires
        is_jet_matrix(a, a.len(), len),
        r < len,
    ensures
        agree_upto(magnus(a, b, m, r, len), magnus(a, b, m, r + 1, len), a.len(), r as int),
    decreases r,
{
    let n = a.len();
    lemma_magnus_shape(a, b, m, r, len);
    lemma_magnus_shape(a, b, m, r + 1, len);
    if r == 0 {
        let z = magnus(a, b, m, 0, len);
        let o = magnus(a, b, m, 1, len);
        assert(o == magnus_step(a, z, b, m, len));
        assert forall|i: int, j: int, t: int| 0 <= i < n && 0 <= j < n && 0 <= t <= 0 implies #[trigger] z[i][j][t]
            == o[i][j][t] by {
            lemma_series_local(z, z, a, b, m, n, len, 0);
            assert(magnus_series(z, a, b, m, len)[i][j].len() == len);
        }
    } else {
        lemma_magnus_stable(a, b, m, (r - 1) as nat, len);
        lemma_magnus_shape(a, b, m, (r - 1) as nat, len);
        lemma_magnus_step_local(a, magnus(a, b, m, (r - 1) as nat, len), magnus(a, b, m, r, len), b, m, len, r - 1);
        assert(magnus(a, b, m, r, len) == magnus_step(a, magnus(a, b, m, (r - 1) as nat, len), b, m, len));
        assert(magnus(a, b, m, r + 1, len) == magnus_step(a, magnus(a, b, m, r, len), b, m, len));
    }
}

/// The Magnus equation. After `order` iterations on jets of `order + 1`
/// coefficients, `Ω = magnus(A)` satisfies `Ω(0) = 0` and
/// `Ω' = A + Σ_{1 ≤ k ≤ m} b[k]·ad_Ω^k(A)` in every coefficient a jet of
/// that order holds, provided `1, …, order` are nonzero in the field.
pub proof fn lemma_magnus_equation<F: DivRing>(a: Seq<Seq<Seq<F>>>, b: Seq<F>, m: nat, order: nat)
    requires
        is_jet_matrix(a, a.len(), order + 1),
        forall|i: nat| 1 <= i <= order ==> #[trigger] multiple(F::one_spec(), i) != F::zero_spec(),
    ensures
        is_jet_matrix(magnus(a, b, m, order, order + 1), a.len(), order + 1),
        forall|i: int, j: int|
            0 <= i < a.len() && 0 <= j < a.len() ==> #[trigger] magnus(a, b, m, order, order + 1)[i][j][0]
                == F::zero_spec(),
        forall|i: int, j: int|
            0 <= i < a.len() && 0 <= j < a.len() ==> #[trigger] jet_derivative(magnus(a, b, m, order, order + 1)[i][j])
                == magnus_series(magnus(a, b, m, order, order + 1), a, b, m, order + 1)[i][j].update(
                order as int,
                F::zero_spec(),
            ),
{
    let n = a.len();
    let len = order + 1;
    let o = magnus(a, b, m, order, len);
    lemma_magnus_shape(a, b, m, order, len);
    lemma_magnus_shape(a, b, m, order + 1, len);
    lemma_magnus_stable(a, b, m, order, len);
    assert(magnus(a, b, m, order + 1, len) == magnus_step(a, o, b, m, len));
    lemma_series_local(o, o, a, b, m, n, len, 0);
    let s = magnus_series(o, a, b, m, len);
    assert forall|i: int, j: int| 0 <= i < n && 0 <= j < n implies #[trigger] o[i][j] == jet_integral(
        F::zero_spec(),
        s[i][j],
    ) by {
        assert(s[i][j].len() == len);
        assert forall|t: int| 0 <= t < len implies o[i][j][t] == #[trigger] magnus(a, b, m, order + 1, len)[i][j][t] by {}
        assert(o[i][j] =~= magnus(a, b, m, order + 1, len)[i][j]);
    }
    assert forall|i: int, j: int| 0 <= i < n && 0 <= j < n implies #[trigger] o[i][j][0] == F::zero_spec() by {
        assert(o[i][j] == jet_integral(F::zero_spec(), s[i][j]));
        assert(s[i][j].len() == len);
    }
    assert forall|i: int, j: int| 0 <= i < n && 0 <= j < n implies #[trigger] jet_derivative(o[i][j])
        == s[i][j].update(order as int, F::zero_spec()) by {
        assert(o[i][j] == jet_integral(F::zero_spec(), s[i][j]));
        assert(s[i][j].len() == len);
        assert forall|k: nat| 1 <= k < s[i][j].len() implies #[trigger] multiple(F::one_spec(), k) != F::zero_spec() by {}
        lemma_derivative_of_integral(F::zero_spec(), s[i][j]);
    }
}

/// A square `n × n` matrix of jets.
pub open spec fn is_square_jets<F, const N: usize>(m: Seq<Vec<Jet<F, N>>>, n: nat) -> bool {
    m.len() == n && forall|i: int| 0 <= i < n ==> (#[trigger] m[i])@.len() == n
}

/// `Σ_{i' < i} Γ[(i'·n + j)·n + k]·v[i']` on jets, summed left to right
/// from the zero jet of `len` coefficients.
pub open spec fn christoffel_contraction<F: Rig>(
    gamma: Seq<Seq<F>>,
    velocity: Seq<Seq<F>>,
    n: int,
    j: int,
    k: int,
    i: int,
    len: nat,
) -> Seq<F>
    decreases i,
{
    if i <= 0 {
        constant_jet(F::zero_spec(), len)
    } else {
        jet_sum(
            christoffel_contraction(gamma, velocity, n, j, k, i - 1, len),
            jet_product(gamma[((i - 1) * n + j) * n + k], velocity[i - 1]),
        )
    }
}

/// The coefficients of each jet of a list.
pub open spec fn jet_views<F, const N: usize>(v: Seq<Jet<F, N>>) -> Seq<Seq<F>> {
    Seq::new(v.len(), |q: int| v[q]@)
}

/// The connection matrix `A = −Γ·γ'` along a curve: `A[k][j] = −Σᵢ Γᵏᵢⱼ·γ'ⁱ`,
/// from the Christoffel symbols at the curve's points (`Γᵏᵢⱼ` at index
/// `(i·n + j)·n + k`) and its velocity, all jets in the curve parameter.
/// Transport along the curve solves `X' = A·X`.
pub fn connection_matrix<F: Field, const N: usize>(christoffel: &Vec<Jet<F, N>>, velocity: &Vec<Jet<F, N>>) -> (a: Vec<
    Vec<Jet<F, N>>,
>)
    requires
        christoffel@.len() == velocity@.len() * velocity@.len() * velocity@.len(),
    ensures
        is_square_jets(a@, velocity@.len() as nat),
        forall|k: int, j: int|
            0 <= k < velocity@.len() && 0 <= j < velocity@.len() ==> #[trigger] a@[k]@[j]@ == jet_negation(
                christoffel_contraction(
                    jet_views(christoffel@),
                    jet_views(velocity@),
                    velocity@.len() as int,
                    j,
                    k,
                    velocity@.len() as int,
                    (N + 1) as nat,
                ),
            ),
{
    let n = velocity.len();
    let total: usize = christoffel.len();
    let ghost g = jet_views(christoffel@);
    let ghost v = jet_views(velocity@);
    let mut a: Vec<Vec<Jet<F, N>>> = Vec::new();
    let mut k: usize = 0;
    while k < n
        invariant
            n == velocity@.len(),
            christoffel@.len() == n * n * n,
            total == n * n * n,
            g == jet_views(christoffel@),
            v == jet_views(velocity@),
            k <= n,
            a@.len() == k,
            forall|r: int| 0 <= r < k ==> (#[trigger] a@[r])@.len() == n,
            forall|r: int, j: int| 0 <= r < k && 0 <= j < n ==> #[trigger] a@[r]@[j]@ == jet_negation(
                christoffel_contraction(g, v, n as int, j, r, n as int, (N + 1) as nat),
            ),
        decreases n - k,
    {
        let mut row: Vec<Jet<F, N>> = Vec::new();
        let mut j: usize = 0;
        while j < n
            invariant
                n == velocity@.len(),
                christoffel@.len() == n * n * n,
                total == n * n * n,
                g == jet_views(christoffel@),
                v == jet_views(velocity@),
                k < n,
                j <= n,
                row@.len() == j,
                forall|c: int| 0 <= c < j ==> #[trigger] row@[c]@ == jet_negation(
                    christoffel_contraction(g, v, n as int, c, k as int, n as int, (N + 1) as nat),
                ),
            decreases n - j,
        {
            let mut sum = Jet::<F, N>::zero();
            let mut i: usize = 0;
            while i < n
                invariant
                    n == velocity@.len(),
                    christoffel@.len() == n * n * n,
                    total == n * n * n,
                    g == jet_views(christoffel@),
                    v == jet_views(velocity@),
                    k < n,
                    j < n,
                    i <= n,
                    sum@ == christoffel_contraction(g, v, n as int, j as int, k as int, i as int, (N + 1) as nat),
                decreases n - i,
            {
                proof {
                    assert(i * n + j < n * n) by (nonlinear_arith)
                        requires
                            i < n,
                            j < n,
                    ;
                    assert(n * n <= n * n * n) by (nonlinear_arith)
                        requires
                            1 <= n,
                    ;
                    assert(0 <= i * n) by (nonlinear_arith)
                        requires
                            0 <= i,
                            0 <= n,
                    ;
                    assert((i * n + j) * n + k < n * n * n) by (nonlinear_arith)
                        requires
                            i < n,
                            j < n,
                            k < n,
                    ;
                    assert(0 <= (i * n + j) * n + k) by (nonlinear_arith)
                        requires
                            0 <= i,
                            0 <= j,
                            0 <= k,
                            0 <= n,
                    ;
                }
                let idx: usize = (i * n + j) * n + k;
                let term = christoffel[idx].mul(&velocity[i]);
                proof {
                    assert(g[idx as int] == christoffel@[idx as int]@);
                    assert(v[i as int] == velocity@[i as int]@);
                    assert(idx as int == ((i + 1 - 1) * n + j) * n + k);
                }
                sum = sum.add(&term);
                i = i + 1;
            }
            row.push(sum.neg());
            j = j + 1;
        }
        a.push(row);
        k = k + 1;
    }
    a
}

/// The product of two square matrices of jets.
fn jet_matrix_mul<F: Field, const N: usize>(a: &Vec<Vec<Jet<F, N>>>, x: &Vec<Vec<Jet<F, N>>>) -> (r: Vec<Vec<Jet<F, N>>>)
    requires
        is_square_jets(a@, a@.len()),
        is_square_jets(x@, a@.len()),
    ensures
        is_square_jets(r@, a@.len()),
        jet_grid(r@) == jet_matrix_product(jet_grid(a@), jet_grid(x@), (N + 1) as nat),
{
    let n = a.len();
    let ghost target = jet_matrix_product(jet_grid(a@), jet_grid(x@), (N + 1) as nat);
    let mut rows: Vec<Vec<Jet<F, N>>> = Vec::new();
    let mut i: usize = 0;
    while i < n
        invariant
            n == a@.len(),
            is_square_jets(a@, n as nat),
            is_square_jets(x@, n as nat),
            target == jet_matrix_product(jet_grid(a@), jet_grid(x@), (N + 1) as nat),
            i <= n,
            rows@.len() == i,
            forall|p: int| 0 <= p < i ==> (#[trigger] rows@[p])@.len() == n,
            forall|p: int, q: int| 0 <= p < i && 0 <= q < n ==> (#[trigger] rows@[p]@[q])@ == target[p][q],
        decreases n - i,
    {
        let mut row: Vec<Jet<F, N>> = Vec::new();
        let mut j: usize = 0;
        while j < n
            invariant
                n == a@.len(),
                is_square_jets(a@, n as nat),
                is_square_jets(x@, n as nat),
                target == jet_matrix_product(jet_grid(a@), jet_grid(x@), (N + 1) as nat),
                i < n,
                j <= n,
                row@.len() == j,
                forall|q: int| 0 <= q < j ==> (#[trigger] row@[q])@ == target[i as int][q],
            decreases n - j,
        {
            let e = product_entry_jet(a, x, i, j);
            proof {
                assert(jet_grid(a@).len() == n);
            }
            row.push(e);
            j = j + 1;
        }
        rows.push(row);
        i = i + 1;
    }
    proof {
        assert(jet_grid(a@).len() == n);
        assert forall|p: int| 0 <= p < n implies #[trigger] jet_grid(rows@)[p] =~= target[p] by {}
        assert(jet_grid(rows@) =~= target);
    }
    rows
}

/// `Ω·X − X·Ω`.
fn jet_matrix_commutator<F: Field, const N: usize>(
    omega: &Vec<Vec<Jet<F, N>>>,
    x: &Vec<Vec<Jet<F, N>>>,
) -> (r: Vec<Vec<Jet<F, N>>>)
    requires
        is_square_jets(omega@, omega@.len()),
        is_square_jets(x@, omega@.len()),
    ensures
        is_square_jets(r@, omega@.len()),
        jet_grid(r@) == jet_commutator(jet_grid(omega@), jet_grid(x@), (N + 1) as nat),
{
    let n = omega.len();
    let p = jet_matrix_mul(omega, x);
    let q = jet_matrix_mul(x, omega);
    let ghost target = jet_commutator(jet_grid(omega@), jet_grid(x@), (N + 1) as nat);
    proof {
        assert(jet_grid(omega@).len() == n);
        assert(jet_grid(x@).len() == n);
    }
    let mut rows: Vec<Vec<Jet<F, N>>> = Vec::new();
    let mut i: usize = 0;
    while i < n
        invariant
            n == omega@.len(),
            is_square_jets(p@, n as nat),
            is_square_jets(q@, n as nat),
            jet_grid(omega@).len() == n,
            jet_grid(x@).len() == n,
            jet_grid(p@) == jet_matrix_product(jet_grid(omega@), jet_grid(x@), (N + 1) as nat),
            jet_grid(q@) == jet_matrix_product(jet_grid(x@), jet_grid(omega@), (N + 1) as nat),
            target == jet_commutator(jet_grid(omega@), jet_grid(x@), (N + 1) as nat),
            i <= n,
            rows@.len() == i,
            forall|a: int| 0 <= a < i ==> (#[trigger] rows@[a])@.len() == n,
            forall|a: int, b: int| 0 <= a < i && 0 <= b < n ==> (#[trigger] rows@[a]@[b])@ == target[a][b],
        decreases n - i,
    {
        let mut row: Vec<Jet<F, N>> = Vec::new();
        let mut j: usize = 0;
        while j < n
            invariant
                n == omega@.len(),
                is_square_jets(p@, n as nat),
                is_square_jets(q@, n as nat),
                jet_grid(omega@).len() == n,
                jet_grid(p@) == jet_matrix_product(jet_grid(omega@), jet_grid(x@), (N + 1) as nat),
                jet_grid(q@) == jet_matrix_product(jet_grid(x@), jet_grid(omega@), (N + 1) as nat),
                target == jet_commutator(jet_grid(omega@), jet_grid(x@), (N + 1) as nat),
                i < n,
                j <= n,
                row@.len() == j,
                forall|b: int| 0 <= b < j ==> (#[trigger] row@[b])@ == target[i as int][b],
            decreases n - j,
        {
            let e = p[i][j].sub(&q[i][j]);
            proof {
                assert(jet_grid(p@)[i as int][j as int] == p@[i as int]@[j as int]@);
                assert(jet_grid(q@)[i as int][j as int] == q@[i as int]@[j as int]@);
            }
            row.push(e);
            j = j + 1;
        }
        rows.push(row);
        i = i + 1;
    }
    proof {
        assert forall|a: int| 0 <= a < n implies #[trigger] jet_grid(rows@)[a] =~= target[a] by {}
        assert(jet_grid(rows@) =~= target);
    }
    rows
}

/// `X + Y·c`, entry by entry, `c` read as a constant jet.
fn jet_matrix_add_scaled<F: Field, const N: usize>(
    x: &Vec<Vec<Jet<F, N>>>,
    y: &Vec<Vec<Jet<F, N>>>,
    c: F,
) -> (r: Vec<Vec<Jet<F, N>>>)
    requires
        is_square_jets(x@, x@.len()),
        is_square_jets(y@, x@.len()),
    ensures
        is_square_jets(r@, x@.len()),
        jet_grid(r@) == Seq::new(
            x@.len(),
            |i: int| Seq::new(
                x@.len(),
                |j: int| jet_sum(jet_grid(x@)[i][j], jet_product(jet_grid(y@)[i][j], constant_jet(c, (N + 1) as nat))),
            ),
        ),
{
    let n = x.len();
    let cj = Jet::<F, N>::constant(c);
    let ghost target = Seq::new(
        x@.len(),
        |i: int| Seq::new(
            x@.len(),
            |j: int| jet_sum(jet_grid(x@)[i][j], jet_product(jet_grid(y@)[i][j], constant_jet(c, (N + 1) as nat))),
        ),
    );
    let mut rows: Vec<Vec<Jet<F, N>>> = Vec::new();
    let mut i: usize = 0;
    while i < n
        invariant
            n == x@.len(),
            is_square_jets(x@, n as nat),
            is_square_jets(y@, n as nat),
            cj@ == constant_jet(c, (N + 1) as nat),
            target == Seq::new(
                x@.len(),
                |i: int| Seq::new(
                    x@.len(),
                    |j: int| jet_sum(jet_grid(x@)[i][j], jet_product(jet_grid(y@)[i][j], constant_jet(c, (N + 1) as nat))),
                ),
            ),
            i <= n,
            rows@.len() == i,
            forall|a: int| 0 <= a < i ==> (#[trigger] rows@[a])@.len() == n,
            forall|a: int, b: int| 0 <= a < i && 0 <= b < n ==> (#[trigger] rows@[a]@[b])@ == target[a][b],
        decreases n - i,
    {
        let mut row: Vec<Jet<F, N>> = Vec::new();
        let mut j: usize = 0;
        while j < n
            invariant
                n == x@.len(),
                is_square_jets(x@, n as nat),
                is_square_jets(y@, n as nat),
                cj@ == constant_jet(c, (N + 1) as nat),
                target == Seq::new(
                    x@.len(),
                    |i: int| Seq::new(
                        x@.len(),
                        |j: int| jet_sum(jet_grid(x@)[i][j], jet_product(jet_grid(y@)[i][j], constant_jet(c, (N + 1) as nat))),
                    ),
                ),
                i < n,
                j <= n,
                row@.len() == j,
                forall|b: int| 0 <= b < j ==> (#[trigger] row@[b])@ == target[i as int][b],
            decreases n - j,
        {
            let t = y[i][j].mul(&cj);
            let e = x[i][j].add(&t);
            row.push(e);
            j = j + 1;
        }
        rows.push(row);
        i = i + 1;
    }
    proof {
        assert forall|a: int| 0 <= a < n implies #[trigger] jet_grid(rows@)[a] =~= target[a] by {}
        assert(jet_grid(rows@) =~= target);
    }
    rows
}

/// A copy of a matrix of jets.
fn jet_matrix_copy<F: Field, const N: usize>(x: &Vec<Vec<Jet<F, N>>>) -> (r: Vec<Vec<Jet<F, N>>>)
    requires
        is_square_jets(x@, x@.len()),
    ensures
        is_square_jets(r@, x@.len()),
        jet_grid(r@) == jet_grid(x@),
{
    let n = x.len();
    let mut rows: Vec<Vec<Jet<F, N>>> = Vec::new();
    let mut i: usize = 0;
    while i < n
        invariant
            n == x@.len(),
            is_square_jets(x@, n as nat),
            i <= n,
            rows@.len() == i,
            forall|a: int| 0 <= a < i ==> (#[trigger] rows@[a])@.len() == n,
            forall|a: int, b: int| 0 <= a < i && 0 <= b < n ==> (#[trigger] rows@[a]@[b])@ == x@[a]@[b]@,
        decreases n - i,
    {
        let mut row: Vec<Jet<F, N>> = Vec::new();
        let mut j: usize = 0;
        while j < n
            invariant
                n == x@.len(),
                is_square_jets(x@, n as nat),
                i < n,
                j <= n,
                row@.len() == j,
                forall|b: int| 0 <= b < j ==> (#[trigger] row@[b])@ == x@[i as int]@[b]@,
            decreases n - j,
        {
            row.push(x[i][j].copy());
            j = j + 1;
        }
        rows.push(row);
        i = i + 1;
    }
    proof {
        assert forall|a: int| 0 <= a < n implies #[trigger] jet_grid(rows@)[a] =~= jet_grid(x@)[a] by {}
        assert(jet_grid(rows@) =~= jet_grid(x@));
    }
    rows
}

/// Each entry integrated from zero.
fn jet_matrix_integral<F: Field, const N: usize>(x: Vec<Vec<Jet<F, N>>>) -> (r: Vec<Vec<Jet<F, N>>>)
    requires
        is_square_jets(x@, x@.len()),
        forall|i: nat| 1 <= i <= N ==> #[trigger] multiple(F::one_spec(), i) != F::zero_spec(),
    ensures
        is_square_jets(r@, x@.len()),
        jet_grid(r@) == Seq::new(
            x@.len(),
            |i: int| Seq::new(x@.len(), |j: int| jet_integral(F::zero_spec(), jet_grid(x@)[i][j])),
        ),
{
    let n = x.len();
    let ghost target = Seq::new(
        x@.len(),
        |i: int| Seq::new(x@.len(), |j: int| jet_integral(F::zero_spec(), jet_grid(x@)[i][j])),
    );
    let mut rows: Vec<Vec<Jet<F, N>>> = Vec::new();
    let mut i: usize = 0;
    while i < n
        invariant
            n == x@.len(),
            is_square_jets(x@, n as nat),
            forall|q: nat| 1 <= q <= N ==> #[trigger] multiple(F::one_spec(), q) != F::zero_spec(),
            target == Seq::new(
                x@.len(),
                |i: int| Seq::new(x@.len(), |j: int| jet_integral(F::zero_spec(), jet_grid(x@)[i][j])),
            ),
            i <= n,
            rows@.len() == i,
            forall|a: int| 0 <= a < i ==> (#[trigger] rows@[a])@.len() == n,
            forall|a: int, b: int| 0 <= a < i && 0 <= b < n ==> (#[trigger] rows@[a]@[b])@ == target[a][b],
        decreases n - i,
    {
        let mut row: Vec<Jet<F, N>> = Vec::new();
        let mut j: usize = 0;
        while j < n
            invariant
                n == x@.len(),
                is_square_jets(x@, n as nat),
                forall|q: nat| 1 <= q <= N ==> #[trigger] multiple(F::one_spec(), q) != F::zero_spec(),
                target == Seq::new(
                    x@.len(),
                    |i: int| Seq::new(x@.len(), |j: int| jet_integral(F::zero_spec(), jet_grid(x@)[i][j])),
                ),
                i < n,
                j <= n,
                row@.len() == j,
                forall|b: int| 0 <= b < j ==> (#[trigger] row@[b])@ == target[i as int][b],
            decreases n - j,
        {
            let e = Jet::integrate_from(F::zero(), x[i][j].copy());
            row.push(e);
            j = j + 1;
        }
        rows.push(row);
        i = i + 1;
    }
    proof {
        assert forall|a: int| 0 <= a < n implies #[trigger] jet_grid(rows@)[a] =~= target[a] by {}
        assert(jet_grid(rows@) =~= target);
    }
    rows
}

/// The zero matrix of jets.
fn jet_matrix_zero<F: Field, const N: usize>(n: usize) -> (r: Vec<Vec<Jet<F, N>>>)
    ensures
        is_square_jets(r@, n as nat),
        jet_grid(r@) == zero_jets::<F>(n as nat, (N + 1) as nat),
{
    let mut rows: Vec<Vec<Jet<F, N>>> = Vec::new();
    let mut i: usize = 0;
    while i < n
        invariant
            i <= n,
            rows@.len() == i,
            forall|a: int| 0 <= a < i ==> (#[trigger] rows@[a])@.len() == n,
            forall|a: int, b: int| 0 <= a < i && 0 <= b < n ==> (#[trigger] rows@[a]@[b])@ == constant_jet(
                F::zero_spec(),
                (N + 1) as nat,
            ),
        decreases n - i,
    {
        let mut row: Vec<Jet<F, N>> = Vec::new();
        let mut j: usize = 0;
        while j < n
            invariant
                i < n,
                j <= n,
                row@.len() == j,
                forall|b: int| 0 <= b < j ==> (#[trigger] row@[b])@ == constant_jet(F::zero_spec(), (N + 1) as nat),
            decreases n - j,
        {
            row.push(Jet::<F, N>::zero());
            j = j + 1;
        }
        rows.push(row);
        i = i + 1;
    }
    proof {
        assert forall|a: int| 0 <= a < n implies #[trigger] jet_grid(rows@)[a] =~= zero_jets::<F>(
            n as nat,
            (N + 1) as nat,
        )[a] by {}
        assert(jet_grid(rows@) =~= zero_jets::<F>(n as nat, (N + 1) as nat));
    }
    rows
}

/// Every entry of a square matrix of jets has `N + 1` coefficients.
fn jet_matrix_shape<F: Field, const N: usize>(a: &Vec<Vec<Jet<F, N>>>)
    requires
        is_square_jets(a@, a@.len() as nat),
    ensures
        is_jet_matrix(jet_grid(a@), a@.len() as nat, (N + 1) as nat),
{
    let n = a.len();
    let mut i: usize = 0;
    while i < n
        invariant
            n == a@.len(),
            is_square_jets(a@, n as nat),
            i <= n,
            forall|p: int, q: int| 0 <= p < i && 0 <= q < n ==> (#[trigger] a@[p]@[q])@.len() == N + 1,
        decreases n - i,
    {
        let mut j: usize = 0;
        while j < n
            invariant
                n == a@.len(),
                is_square_jets(a@, n as nat),
                i < n,
                j <= n,
                forall|p: int, q: int| 0 <= p < i && 0 <= q < n ==> (#[trigger] a@[p]@[q])@.len() == N + 1,
                forall|q: int| 0 <= q < j ==> (#[trigger] a@[i as int]@[q])@.len() == N + 1,
            decreases n - j,
        {
            let _coefficients: usize = a[i][j].len();
            j = j + 1;
        }
        i = i + 1;
    }
    proof {
        assert forall|p: int, q: int| 0 <= p < n && 0 <= q < n implies (#[trigger] jet_grid(a@)[p][q]).len() == N + 1 by {
            assert(jet_grid(a@)[p][q] == a@[p]@[q]@);
        }
    }
}

/// The Magnus exponent `Ω` of the transport along a curve with connection
/// matrix `A` (jets in the curve parameter), so that the transport is
/// `exp(Ω)`: `N` iterations of the Magnus equation from `Ω = 0`, each
/// solving one more Taylor coefficient. `bernoulli[k]` is `Bₖ/k!`; the
/// series uses `k = 1, …, N − 1`. Each `1, …, N` must be nonzero in `F`.
/// `Ω(0) = 0`, and `Ω` solves the Magnus equation
/// `Ω' = A + Σ_{1 ≤ k < N} (Bₖ/k!)·ad_Ω^k(A)` in every coefficient a jet
/// of order `N` holds.
pub fn magnus_exponent<F: Field, const N: usize>(a: &Vec<Vec<Jet<F, N>>>, bernoulli: &Vec<F>) -> (omega: Vec<
    Vec<Jet<F, N>>,
>)
    requires
        N >= 1,
        bernoulli@.len() == N,
        forall|i: int| 0 <= i < a@.len() ==> (#[trigger] a@[i])@.len() == a@.len(),
        forall|i: nat| 1 <= i <= N ==> #[trigger] multiple(F::one_spec(), i) != F::zero_spec(),
    ensures
        jet_grid(omega@) == magnus(jet_grid(a@), bernoulli@, (N - 1) as nat, N as nat, (N + 1) as nat),
        forall|i: int, j: int|
            0 <= i < a@.len() && 0 <= j < a@.len() ==> #[trigger] jet_grid(omega@)[i][j][0] == F::zero_spec(),
        forall|i: int, j: int|
            0 <= i < a@.len() && 0 <= j < a@.len() ==> #[trigger] jet_derivative(jet_grid(omega@)[i][j])
                == magnus_series(jet_grid(omega@), jet_grid(a@), bernoulli@, (N - 1) as nat, (N + 1) as nat)[i][j].update(
                N as int,
                F::zero_spec(),
            ),
{
    jet_matrix_shape(a);
    let n = a.len();
    let ghost ga = jet_grid(a@);
    let ghost len = (N + 1) as nat;
    let mut omega = jet_matrix_zero::<F, N>(n);
    proof {
        assert(ga.len() == n);
    }
    let mut it: usize = 0;
    while it < N
        invariant
            n == a@.len(),
            is_square_jets(a@, n as nat),
            ga == jet_grid(a@),
            ga.len() == n,
            len == N + 1,
            bernoulli@.len() == N,
            forall|i: nat| 1 <= i <= N ==> #[trigger] multiple(F::one_spec(), i) != F::zero_spec(),
            it <= N,
            is_square_jets(omega@, n as nat),
            jet_grid(omega@) == magnus(ga, bernoulli@, (N - 1) as nat, it as nat, len),
        decreases N - it,
    {
        let ghost go = jet_grid(omega@);
        let mut rhs = jet_matrix_copy(a);
        let mut ad = jet_matrix_copy(a);
        let mut k: usize = 1;
        while k < N
            invariant
                n == a@.len(),
                is_square_jets(a@, n as nat),
                ga == jet_grid(a@),
                ga.len() == n,
                len == N + 1,
                bernoulli@.len() == N,
                is_square_jets(omega@, n as nat),
                go == jet_grid(omega@),
                1 <= k <= N,
                is_square_jets(rhs@, n as nat),
                is_square_jets(ad@, n as nat),
                jet_grid(ad@) == ad_power(go, ga, (k - 1) as nat, len),
                jet_grid(rhs@) == magnus_series(go, ga, bernoulli@, (k - 1) as nat, len),
            decreases N - k,
        {
            ad = jet_matrix_commutator(&omega, &ad);
            rhs = jet_matrix_add_scaled(&rhs, &ad, bernoulli[k]);
            proof {
                assert(jet_grid(rhs@) =~= magnus_series(go, ga, bernoulli@, k as nat, len));
            }
            k = k + 1;
        }
        omega = jet_matrix_integral(rhs);
        proof {
            assert(jet_grid(omega@) =~= magnus_step(ga, go, bernoulli@, (N - 1) as nat, len));
        }
        it = it + 1;
    }
    proof {
        lemma_magnus_equation(ga, bernoulli@, (N - 1) as nat, N as nat);
    }
    omega
}

} // verus!
