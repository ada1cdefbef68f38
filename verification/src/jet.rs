//! Truncated power series: jets `a₀ + a₁ε + ⋯ + aₙεⁿ` with `εⁿ⁺¹ = 0`.
//!
//! Index `0` is the primal value and index `k` the Taylor coefficient
//! `f⁽ᵏ⁾/k!`. Multiplication is the truncated convolution.
use vstd::prelude::*;
use crate::algebra::{CMonoid, CGroup, Rig, DivRing, Field, multiple};
use crate::tensor::{lemma_neg_unique, TensorOver, TensorProduct, TangentMap, is_grid, column};

verus! {

/// `Σ_{i<k} a[i]·b[n-i]`, summed left to right.
pub open spec fn convolution<F: Rig>(a: Seq<F>, b: Seq<F>, n: int, k: int) -> F
    decreases k,
{
    if k <= 0 {
        F::zero_spec()
    } else {
        convolution(a, b, n, k - 1).add_spec(a[k - 1].mul_spec(b[n - (k - 1)]))
    }
}

/// The truncated product: coefficient `n` is `Σ_{i≤n} a[i]·b[n-i]`.
pub open spec fn jet_product<F: Rig>(a: Seq<F>, b: Seq<F>) -> Seq<F> {
    Seq::new(a.len(), |n: int| convolution(a, b, n, n + 1))
}

/// The coefficientwise sum.
pub open spec fn jet_sum<F: CMonoid>(a: Seq<F>, b: Seq<F>) -> Seq<F> {
    Seq::new(a.len(), |i: int| a[i].add_spec(b[i]))
}

/// The coefficientwise negation.
pub open spec fn jet_negation<F: CGroup>(a: Seq<F>) -> Seq<F> {
    Seq::new(a.len(), |i: int| a[i].neg_spec())
}

/// The constant jet `c`: `c` then zeros, `len` coefficients in all.
pub open spec fn constant_jet<F: CMonoid>(c: F, len: nat) -> Seq<F> {
    Seq::new(len, |i: int| if i == 0 { c } else { F::zero_spec() })
}

/// `Σ_{1≤j≤k} x[j]·y[n-j]`, summed left to right: the terms of coefficient
/// `n` of `x·y` other than `x[0]·y[n]`.
pub open spec fn tail_convolution<F: Rig>(x: Seq<F>, y: Seq<F>, n: int, k: int) -> F
    decreases k,
{
    if k <= 0 {
        F::zero_spec()
    } else {
        tail_convolution(x, y, n, k - 1).add_spec(x[k].mul_spec(y[n - k]))
    }
}

/// The first `n + 1` coefficients of the series inverse of `x`:
/// `y[0] = x[0]⁻¹` and `y[n] = -(x[0]⁻¹ · Σ_{1≤j≤n} x[j]·y[n-j])`.
pub open spec fn series_inverse<F: DivRing>(x: Seq<F>, n: nat) -> Seq<F>
    decreases n,
{
    if n == 0 {
        seq![x[0].recip_spec()]
    } else {
        let y = series_inverse(x, (n - 1) as nat);
        y.push(x[0].recip_spec().mul_spec(tail_convolution(x, y, n as int, n as int)).neg_spec())
    }
}

/// The derivative: coefficient `i` is `(i+1)·a[i+1]`, the last is zero.
pub open spec fn jet_derivative<F: Rig>(a: Seq<F>) -> Seq<F> {
    Seq::new(
        a.len(),
        |i: int|
            if i + 1 < a.len() {
                multiple(F::one_spec(), (i + 1) as nat).mul_spec(a[i + 1])
            } else {
                F::zero_spec()
            },
    )
}

/// The antiderivative with primal value `primal`: coefficient `i ≥ 1` is
/// `d[i-1] / i`.
pub open spec fn jet_integral<F: DivRing>(primal: F, integrand: Seq<F>) -> Seq<F> {
    Seq::new(
        integrand.len(),
        |i: int|
            if i == 0 {
                primal
            } else {
                integrand[i - 1].mul_spec(multiple(F::one_spec(), i as nat).recip_spec())
            },
    )
}

/// A jet of order `N` over `F`: `N + 1` coefficients.
pub struct Jet<F, const N: usize> {
    coeffs: Vec<F>,
}

impl<F, const N: usize> View for Jet<F, N> {
    type V = Seq<F>;

    closed spec fn view(&self) -> Seq<F> {
        self.coeffs@
    }
}

impl<F, const N: usize> Jet<F, N> {
    /// A jet has `N + 1` coefficients.
    #[verifier::type_invariant]
    closed spec fn has_order(self) -> bool {
        self.coeffs@.len() == N + 1
    }
}

impl<F: Field, const N: usize> Jet<F, N> {
    /// The jet `value + Σ coefficients[k-1]·εᵏ`.
    pub fn new(value: F, coefficients: [F; N]) -> (r: Self)
        ensures
            r@ == seq![value] + coefficients@,
    {
        Self::from_parts(value, coefficients)
    }

    /// The jet `value + Σ coefficients[k-1]·εᵏ`.
    pub fn from_parts(value: F, coefficients: [F; N]) -> (r: Self)
        ensures
            r@ == seq![value] + coefficients@,
    {
        let mut coeffs: Vec<F> = Vec::new();
        coeffs.push(value);
        let mut k: usize = 0;
        while k < N
            invariant
                k <= N,
                coefficients@.len() == N,
                coeffs@ == seq![value] + coefficients@.take(k as int),
            decreases N - k,
        {
            coeffs.push(coefficients[k]);
            assert(coefficients@.take(k + 1) =~= coefficients@.take(k as int).push(coefficients@[k as int]));
            k = k + 1;
        }
        assert(coefficients@.take(N as int) =~= coefficients@);
        Jet { coeffs }
    }

    /// The constant jet: `value`, every higher coefficient zero.
    pub fn constant(value: F) -> (r: Self)
        ensures
            r@ == constant_jet(value, (N + 1) as nat),
    {
        let mut coeffs: Vec<F> = Vec::new();
        coeffs.push(value);
        let mut k: usize = 0;
        while k < N
            invariant
                k <= N,
                coeffs@ == constant_jet(value, (k + 1) as nat),
            decreases N - k,
        {
            coeffs.push(F::zero());
            assert(coeffs@ =~= constant_jet(value, (k + 2) as nat));
            k = k + 1;
        }
        Jet { coeffs }
    }

    /// The zero jet.
    pub fn zero() -> (r: Self)
        ensures
            r@ == constant_jet(F::zero_spec(), (N + 1) as nat),
    {
        Self::constant(F::zero())
    }

    /// The unit jet.
    pub fn one() -> (r: Self)
        ensures
            r@ == constant_jet(F::one_spec(), (N + 1) as nat),
    {
        Self::constant(F::one())
    }

    /// Whether the primal value is zero.
    pub fn is_zero(&self) -> (r: bool)
        ensures
            r == (self@[0] == F::zero_spec()),
    {
        proof {
            use_type_invariant(self);
        }
        self.coeffs[0].is_zero()
    }

    /// Coefficient `index`.
    pub fn index(&self, index: usize) -> (r: F)
        requires
            index <= N,
        ensures
            r == self@[index as int],
    {
        proof {
            use_type_invariant(self);
        }
        self.coeffs[index]
    }

    /// The number of coefficients, `N + 1`.
    pub fn len(&self) -> (r: usize)
        ensures
            r == N + 1,
            r == self@.len(),
    {
        proof {
            use_type_invariant(self);
        }
        self.coeffs.len()
    }

    /// The coefficientwise sum.
    pub fn add(&self, rhs: &Self) -> (r: Self)
        ensures
            r@ == jet_sum(self@, rhs@),
            r@.len() == N + 1,
    {
        proof {
            use_type_invariant(self);
            use_type_invariant(rhs);
        }
        let mut coeffs: Vec<F> = Vec::new();
        let mut i: usize = 0;
        while i < self.coeffs.len()
            invariant
                self.coeffs@.len() == N + 1,
                rhs.coeffs@.len() == N + 1,
                i <= N + 1,
                coeffs@.len() == i,
                forall|k: int| 0 <= k < i ==> #[trigger] coeffs@[k] == self@[k].add_spec(rhs@[k]),
            decreases N + 1 - i,
        {
            coeffs.push(self.coeffs[i].add(&rhs.coeffs[i]));
            i = i + 1;
        }
        assert(coeffs@ =~= jet_sum(self@, rhs@));
        Jet { coeffs }
    }

    /// The coefficientwise negation.
    pub fn neg(&self) -> (r: Self)
        ensures
            r@ == jet_negation(self@),
            r@.len() == N + 1,
    {
        proof {
            use_type_invariant(self);
        }
        let mut coeffs: Vec<F> = Vec::new();
        let mut i: usize = 0;
        while i < self.coeffs.len()
            invariant
                self.coeffs@.len() == N + 1,
                i <= N + 1,
                coeffs@.len() == i,
                forall|k: int| 0 <= k < i ==> #[trigger] coeffs@[k] == self@[k].neg_spec(),
            decreases N + 1 - i,
        {
            coeffs.push(self.coeffs[i].neg());
            i = i + 1;
        }
        assert(coeffs@ =~= jet_negation(self@));
        Jet { coeffs }
    }

    /// The difference `self + (-rhs)`.
    pub fn sub(&self, rhs: &Self) -> (r: Self)
        ensures
            r@ == jet_sum(self@, jet_negation(rhs@)),
            r@.len() == N + 1,
    {
        let negated = rhs.neg();
        self.add(&negated)
    }

    /// The truncated product: coefficient `n` is `Σ_{i≤n} self[i]·rhs[n-i]`.
    pub fn mul(&self, rhs: &Self) -> (r: Self)
        ensures
            r@ == jet_product(self@, rhs@),
            r@.len() == N + 1,
    {
        proof {
            use_type_invariant(self);
            use_type_invariant(rhs);
        }
        let len = self.coeffs.len();
        let mut coeffs: Vec<F> = Vec::new();
        let mut n: usize = 0;
        while n < len
            invariant
                len == N + 1,
                self.coeffs@.len() == len,
                rhs.coeffs@.len() == len,
                n <= len,
                coeffs@.len() == n,
                forall|k: int| 0 <= k < n ==> #[trigger] coeffs@[k] == convolution(self@, rhs@, k, k + 1),
            decreases len - n,
        {
            let mut coefficient = F::zero();
            let mut k: usize = 0;
            while k <= n
                invariant
                    len == N + 1,
                    self.coeffs@.len() == len,
                    rhs.coeffs@.len() == len,
                    n < len,
                    k <= n + 1,
                    coefficient == convolution(self@, rhs@, n as int, k as int),
                decreases n + 1 - k,
            {
                coefficient = coefficient.add(&self.coeffs[k].mul(&rhs.coeffs[n - k]));
                k = k + 1;
            }
            coeffs.push(coefficient);
            n = n + 1;
        }
        assert(coeffs@ =~= jet_product(self@, rhs@));
        Jet { coeffs }
    }

    /// The series inverse of a jet with nonzero primal value.
    pub fn inv(&self) -> (r: Self)
        requires
            self@[0] != F::zero_spec(),
        ensures
            r@ == series_inverse(self@, N as nat),
            r@.len() == N + 1,
    {
        proof {
            use_type_invariant(self);
        }
        let x = &self.coeffs;
        let len = x.len();
        let c = x[0].recip();
        let mut out: Vec<F> = Vec::new();
        out.push(c);
        let mut n: usize = 1;
        while n <= N
            invariant
                len == N + 1,
                x@ == self@,
                x@.len() == N + 1,
                c == x@[0].recip_spec(),
                1 <= n <= N + 1,
                out@ == series_inverse(x@, (n - 1) as nat),
                out@.len() == n,
            decreases N + 1 - n,
        {
            let mut sum = F::zero();
            let mut k: usize = 1;
            while k <= n
                invariant
                    len == N + 1,
                    x@.len() == N + 1,
                    1 <= n <= N,
                    1 <= k <= n + 1,
                    out@.len() == n,
                    sum == tail_convolution(x@, out@, n as int, (k - 1) as int),
                decreases n + 1 - k,
            {
                sum = sum.add(&x[k].mul(&out[n - k]));
                k = k + 1;
            }
            let next = c.mul(&sum).neg();
            out.push(next);
            n = n + 1;
        }
        proof {
            lemma_series_inverse_len(x@, N as nat);
        }
        Jet { coeffs: out }
    }

    /// The derivative: coefficient `i` is `(i+1)·self[i+1]`, the last zero.
    pub fn derivative(&self) -> (r: Self)
        ensures
            r@ == jet_derivative(self@),
    {
        proof {
            use_type_invariant(self);
        }
        let mut coeffs: Vec<F> = Vec::new();
        let mut i: usize = 0;
        while i < N
            invariant
                self.coeffs@.len() == N + 1,
                i <= N,
                coeffs@.len() == i,
                forall|k: int| 0 <= k < i ==> #[trigger] coeffs@[k] == jet_derivative(self@)[k],
            decreases N - i,
        {
            let scale = F::from_nat(i + 1);
            coeffs.push(scale.mul(&self.coeffs[i + 1]));
            i = i + 1;
        }
        coeffs.push(F::zero());
        assert(coeffs@ =~= jet_derivative(self@));
        Jet { coeffs }
    }

    /// The antiderivative with primal value `primal`: coefficient `i ≥ 1`
    /// is `derivative[i-1] / i`. Each `i ≤ N` must be nonzero in `F`.
    pub fn integrate_from(primal: F, derivative: Self) -> (r: Self)
        requires
            forall|i: nat| 1 <= i <= N ==> #[trigger] multiple(F::one_spec(), i) != F::zero_spec(),
        ensures
            r@ == jet_integral(primal, derivative@),
    {
        proof {
            use_type_invariant(&derivative);
        }
        let len = derivative.coeffs.len();
        let mut coeffs: Vec<F> = Vec::new();
        coeffs.push(primal);
        let mut i: usize = 1;
        while i <= N
            invariant
                len == N + 1,
                derivative.coeffs@.len() == N + 1,
                forall|i: nat| 1 <= i <= N ==> #[trigger] multiple(F::one_spec(), i) != F::zero_spec(),
                1 <= i <= N + 1,
                coeffs@.len() == i,
                forall|k: int| 0 <= k < i ==> #[trigger] coeffs@[k] == jet_integral(primal, derivative@)[k],
            decreases N + 1 - i,
        {
            let scale = F::from_nat(i);
            proof {
                assert(multiple(F::one_spec(), i as nat) != F::zero_spec());
            }
            coeffs.push(derivative.coeffs[i - 1].div(&scale));
            i = i + 1;
        }
        assert(coeffs@ =~= jet_integral(primal, derivative@));
        Jet { coeffs }
    }

    /// The jet with the given `N + 1` coefficients.
    pub(crate) fn from_coefficients(coeffs: Vec<F>) -> (r: Self)
        requires
            coeffs@.len() == N + 1,
        ensures
            r@ == coeffs@,
    {
        Jet { coeffs }
    }

    /// A copy of the jet.
    pub fn copy(&self) -> (r: Self)
        ensures
            r@ == self@,
    {
        proof {
            use_type_invariant(self);
        }
        let mut coeffs: Vec<F> = Vec::new();
        let mut k: usize = 0;
        while k < self.coeffs.len()
            invariant
                self.coeffs@.len() == N + 1,
                k <= self.coeffs@.len(),
                coeffs@ == self@.take(k as int),
            decreases self.coeffs@.len() - k,
        {
            coeffs.push(self.coeffs[k]);
            assert(self@.take(k + 1) =~= self@.take(k as int).push(self@[k as int]));
            k = k + 1;
        }
        assert(self@.take(k as int) =~= self@);
        Jet { coeffs }
    }

    /// The jet truncated to order `M ≤ N`.
    pub fn truncate<const M: usize>(&self) -> (r: Jet<F, M>)
        requires
            M <= N,
        ensures
            r@ == self@.take(M + 1),
    {
        proof {
            use_type_invariant(self);
        }
        let mut coeffs: Vec<F> = Vec::new();
        coeffs.push(self.coeffs[0]);
        let mut k: usize = 0;
        while k < M
            invariant
                M <= N,
                self.coeffs@.len() == N + 1,
                k <= M,
                coeffs@ == self@.take(k + 1),
            decreases M - k,
        {
            coeffs.push(self.coeffs[k + 1]);
            assert(self@.take(k + 2) =~= self@.take(k + 1).push(self@[k + 1]));
            k = k + 1;
        }
        Jet { coeffs }
    }
}

/// The series inverse of order `n` has `n + 1` coefficients.
pub proof fn lemma_series_inverse_len<F: DivRing>(x: Seq<F>, n: nat)
    ensures
        series_inverse(x, n).len() == n + 1,
    decreases n,
{
    if n > 0 {
        lemma_series_inverse_len(x, (n - 1) as nat);
    }
}

/// `a·(-b) = -(a·b)`.
pub proof fn lemma_neg_mul_right<F: CGroup + Rig>(a: F, b: F)
    ensures
        a.mul_spec(b.neg_spec()) == a.mul_spec(b).neg_spec(),
{
    F::lemma_distributive(a, b, b.neg_spec());
    F::lemma_add_inverse(b);
    F::lemma_annihilation(a);
    lemma_neg_unique(a.mul_spec(b), a.mul_spec(b.neg_spec()));
}

/// A series inverse of higher order extends one of lower order.
pub proof fn lemma_series_inverse_prefix<F: DivRing>(x: Seq<F>, n: nat, m: nat)
    requires
        n <= m,
    ensures
        series_inverse(x, m).take(n as int + 1) == series_inverse(x, n),
    decreases m,
{
    lemma_series_inverse_len(x, m);
    lemma_series_inverse_len(x, n);
    if n < m {
        lemma_series_inverse_prefix(x, n, (m - 1) as nat);
        lemma_series_inverse_len(x, (m - 1) as nat);
        let y = series_inverse(x, (m - 1) as nat);
        assert(series_inverse(x, m).take(n as int + 1) =~= y.take(n as int + 1));
    } else {
        assert(series_inverse(x, m).take(n as int + 1) =~= series_inverse(x, m));
    }
}

/// The tail sum reads `y` only at `n - 1` down to `n - k`.
pub proof fn lemma_tail_agree<F: Rig>(x: Seq<F>, y: Seq<F>, z: Seq<F>, n: int, k: int)
    requires
        forall|j: int| 0 <= j < k ==> #[trigger] y[j + n - k] == z[j + n - k],
    ensures
        tail_convolution(x, y, n, k) == tail_convolution(x, z, n, k),
    decreases k,
{
    if k > 0 {
        assert forall|j: int| 0 <= j < k - 1 implies #[trigger] y[j + n - (k - 1)] == z[j + n - (k - 1)] by {
            assert(y[(j + 1) + n - k] == z[(j + 1) + n - k]);
        }
        lemma_tail_agree(x, y, z, n, k - 1);
        assert(y[0 + n - k] == z[0 + n - k]);
    }
}

/// Coefficient `n` of `x·y` is `x[0]·y[n]` plus the tail sum.
pub proof fn lemma_convolution_split<F: Rig>(x: Seq<F>, y: Seq<F>, n: int, k: int)
    requires
        k >= 0,
    ensures
        convolution(x, y, n, k + 1) == x[0].mul_spec(y[n]).add_spec(tail_convolution(x, y, n, k)),
    decreases k,
{
    if k == 0 {
        F::lemma_add_identity(x[0].mul_spec(y[n]));
        assert(convolution(x, y, n, 0) == F::zero_spec());
    } else {
        lemma_convolution_split(x, y, n, k - 1);
        F::lemma_add_associative(x[0].mul_spec(y[n]), tail_convolution(x, y, n, k - 1), x[k].mul_spec(y[n - k]));
    }
}

/// The series inverse is a right inverse: `x · x⁻¹ = 1` for a jet with
/// nonzero primal value.
pub proof fn lemma_series_inverse_right<F: DivRing>(x: Seq<F>, order: nat)
    requires
        x.len() == order + 1,
        x[0] != F::zero_spec(),
    ensures
        jet_product(x, series_inverse(x, order)) == constant_jet(F::one_spec(), order + 1),
{
    let y = series_inverse(x, order);
    let c = x[0].recip_spec();
    lemma_series_inverse_len(x, order);
    F::lemma_recip(x[0]);
    assert forall|n: int| 0 <= n <= order implies #[trigger] jet_product(x, y)[n] == constant_jet(F::one_spec(), order + 1)[n] by {
        lemma_convolution_split(x, y, n, n);
        if n == 0 {
            lemma_series_inverse_prefix(x, 0, order);
            assert(y[0] == series_inverse(x, 0)[0]);
            F::lemma_add_identity(x[0].mul_spec(c));
        } else {
            let prev = series_inverse(x, (n - 1) as nat);
            let t = tail_convolution(x, prev, n, n);
            lemma_series_inverse_prefix(x, n as nat, order);
            lemma_series_inverse_prefix(x, (n - 1) as nat, order);
            lemma_series_inverse_len(x, (n - 1) as nat);
            lemma_series_inverse_len(x, n as nat);
            assert(y[n] == series_inverse(x, n as nat)[n]);
            assert(series_inverse(x, n as nat)[n] == c.mul_spec(t).neg_spec());
            assert forall|j: int| 0 <= j < n implies #[trigger] y[j + n - n] == prev[j + n - n] by {
                assert(y.take(n) == prev);
                assert(y.take(n)[j] == y[j]);
            }
            lemma_tail_agree(x, y, prev, n, n);
            // x₀·(-(c·t)) = -((x₀·c)·t) = -t
            lemma_neg_mul_right(x[0], c.mul_spec(t));
            F::lemma_mul_associative(x[0], c, t);
            F::lemma_mul_identity(t);
            F::lemma_add_inverse(t);
        }
    }
    assert(jet_product(x, y) =~= constant_jet(F::one_spec(), order + 1));
}

/// `n·1` commutes with every element.
pub proof fn lemma_multiple_central<F: Rig>(a: F, n: nat)
    ensures
        multiple(F::one_spec(), n).mul_spec(a) == a.mul_spec(multiple(F::one_spec(), n)),
    decreases n,
{
    if n == 0 {
        F::lemma_annihilation(a);
    } else {
        lemma_multiple_central(a, (n - 1) as nat);
        let m = multiple(F::one_spec(), (n - 1) as nat);
        F::lemma_distributive(m, F::one_spec(), a);
        F::lemma_distributive(a, m, F::one_spec());
        F::lemma_mul_identity(a);
    }
}

/// Integrating the derivative, from the primal value, gives the jet back,
/// provided `1, …, N` are nonzero in `F`.
pub proof fn lemma_integral_of_derivative<F: DivRing>(a: Seq<F>)
    requires
        a.len() >= 1,
        forall|i: nat| 1 <= i < a.len() ==> #[trigger] multiple(F::one_spec(), i) != F::zero_spec(),
    ensures
        jet_integral(a[0], jet_derivative(a)) == a,
{
    let da = jet_derivative(a);
    assert forall|i: int| 0 <= i < a.len() implies #[trigger] jet_integral(a[0], da)[i] == a[i] by {
        if i > 0 {
            let m = multiple(F::one_spec(), i as nat);
            assert(m != F::zero_spec());
            assert(da[i - 1] == m.mul_spec(a[i]));
            // (m·a)·m⁻¹ = (a·m)·m⁻¹ = a·(m·m⁻¹) = a
            lemma_multiple_central(a[i], i as nat);
            F::lemma_mul_associative(a[i], m, m.recip_spec());
            F::lemma_recip(m);
            F::lemma_mul_identity(a[i]);
        }
    }
    assert(jet_integral(a[0], da) =~= a);
}

/// Differentiating an integral gives the integrand back, except for its
/// highest coefficient, which a jet of the same order cannot hold.
pub proof fn lemma_derivative_of_integral<F: DivRing>(primal: F, integrand: Seq<F>)
    requires
        integrand.len() >= 1,
        forall|i: nat| 1 <= i < integrand.len() ==> #[trigger] multiple(F::one_spec(), i) != F::zero_spec(),
    ensures
        jet_derivative(jet_integral(primal, integrand)) == integrand.update(integrand.len() - 1, F::zero_spec()),
{
    let a = jet_integral(primal, integrand);
    assert forall|i: int| 0 <= i < integrand.len() implies #[trigger] jet_derivative(a)[i] == integrand.update(integrand.len() - 1, F::zero_spec())[i] by {
        if i + 1 < integrand.len() {
            let m = multiple(F::one_spec(), (i + 1) as nat);
            assert(m != F::zero_spec());
            assert(a[i + 1] == integrand[i].mul_spec(m.recip_spec()));
            // m·(integrand·m⁻¹) = (integrand·m⁻¹)·m = integrand·(m⁻¹·m) = integrand
            lemma_multiple_central(integrand[i].mul_spec(m.recip_spec()), (i + 1) as nat);
            F::lemma_mul_associative(integrand[i], m.recip_spec(), m);
            F::lemma_recip(m);
            F::lemma_mul_identity(integrand[i]);
        }
    }
    assert(jet_derivative(a) =~= integrand.update(integrand.len() - 1, F::zero_spec()));
}

/// `jets` are the first-order jets at `point` in direction `direction`:
/// jet `i` is `point[i] + direction[i]·ε`.
pub open spec fn seeded<F: Field>(jets: Seq<Jet<F, 1>>, point: Seq<F>, direction: Seq<F>) -> bool {
    &&& jets.len() == point.len()
    &&& forall|i: int| 0 <= i < point.len() ==> (#[trigger] jets[i])@ == seq![point[i], direction[i]]
}

/// `value` is what differentiating `f` at `point` along `direction` reads:
/// the first-order coefficients of `f` applied to the seeded jets.
pub open spec fn is_directional_derivative<F: Field, G: Fn(Vec<Jet<F, 1>>) -> Vec<Jet<F, 1>>>(
    f: G,
    point: Seq<F>,
    direction: Seq<F>,
    value: Seq<F>,
) -> bool {
    exists|input: Vec<Jet<F, 1>>, output: Vec<Jet<F, 1>>|
        seeded(input@, point, direction) && #[trigger] call_ensures(f, (input,), output) && value == first_order(
            output@,
        )
}

/// `f` sends inputs of one length to outputs of one length, as a map between
/// spaces of fixed dimension does.
pub open spec fn has_fixed_dimensions<F, G: Fn(Vec<Jet<F, 1>>) -> Vec<Jet<F, 1>>>(f: G) -> bool {
    forall|x1: Vec<Jet<F, 1>>, x2: Vec<Jet<F, 1>>, y1: Vec<Jet<F, 1>>, y2: Vec<Jet<F, 1>>|
        #[trigger] call_ensures(f, (x1,), y1) && #[trigger] call_ensures(f, (x2,), y2) && x1@.len()
            == x2@.len() ==> y1@.len() == y2@.len()
}

/// The first-order coefficients of a list of jets.
pub open spec fn first_order<F>(jets: Seq<Jet<F, 1>>) -> Seq<F> {
    Seq::new(jets.len(), |i: int| jets[i]@[1])
}

/// The `j`-th basis vector of length `n`.
pub open spec fn basis<F: Rig>(n: nat, j: int) -> Seq<F> {
    Seq::new(n, |k: int| if k == j { F::one_spec() } else { F::zero_spec() })
}

/// A differential program: `d(f)` for a map `f` on first-order jets.
#[allow(non_camel_case_types)]
pub struct d<G>(pub G);

/// A differential program with its derivative slot contracted with a
/// direction: the map `p ↦ Df_p(direction)`.
pub struct Along<G, V> {
    f: G,
    direction: V,
}

impl<G, V> Along<G, V> {
    /// The program being differentiated.
    pub closed spec fn program(self) -> G {
        self.f
    }

    /// The direction of differentiation.
    pub closed spec fn direction_of(self) -> V {
        self.direction
    }
}

/// The first-order jets at `point` in direction `direction`.
fn seed<F: Field>(point: &Vec<F>, direction: &Vec<F>) -> (r: Vec<Jet<F, 1>>)
    requires
        direction@.len() == point@.len(),
    ensures
        seeded(r@, point@, direction@),
{
    let mut out: Vec<Jet<F, 1>> = Vec::new();
    let mut i: usize = 0;
    while i < point.len()
        invariant
            direction@.len() == point@.len(),
            i <= point@.len(),
            out@.len() == i,
            forall|k: int| 0 <= k < i ==> (#[trigger] out@[k])@ == seq![point@[k], direction@[k]],
        decreases point@.len() - i,
    {
        let jet = Jet::<F, 1>::from_parts(point[i], [direction[i]]);
        proof {
            assert(seq![point@[i as int]] + seq![direction@[i as int]] =~= seq![point@[i as int], direction@[i as int]]);
        }
        out.push(jet);
        i = i + 1;
    }
    out
}

/// The first-order coefficients of a list of jets.
fn read_first_order<F: Field>(jets: &Vec<Jet<F, 1>>) -> (r: Vec<F>)
    ensures
        r@ == first_order(jets@),
{
    let mut out: Vec<F> = Vec::new();
    let mut i: usize = 0;
    while i < jets.len()
        invariant
            i <= jets@.len(),
            out@.len() == i,
            forall|k: int| 0 <= k < i ==> #[trigger] out@[k] == jets@[k]@[1],
        decreases jets@.len() - i,
    {
        out.push(jets[i].index(1));
        i = i + 1;
    }
    assert(out@ =~= first_order(jets@));
    out
}

impl<G> d<G> {
    /// Contracts the derivative slot with `direction`.
    pub fn along<V>(self, direction: V) -> (r: Along<G, V>)
        ensures
            r.program() == self.0,
            r.direction_of() == direction,
    {
        Along { f: self.0, direction }
    }

    /// The derivative at `point`, as the tangent map whose entry
    /// `(o, i)` is `∂fₒ/∂xᵢ`: column `i` is the derivative along the `i`-th
    /// basis vector, read from `f` applied to the seeded jets.
    pub fn at<F: Field>(&self, point: &Vec<F>) -> (r: TangentMap<F>) where G: Fn(Vec<Jet<F, 1>>) -> Vec<Jet<F, 1>>
        requires
            forall|x: Vec<Jet<F, 1>>| self.0.requires((x,)),
            has_fixed_dimensions(self.0),
        ensures
            r.0.width() == point@.len(),
            is_grid(r.0@, r.0@.len() as int, point@.len() as int),
            forall|i: int|
                0 <= i < point@.len() ==> is_directional_derivative(
                    self.0,
                    point@,
                    basis::<F>(point@.len(), i),
                    #[trigger] column(r.0@, i),
                ),
    {
        let n = point.len();
        let mut columns: Vec<Vec<F>> = Vec::new();
        let ghost mut inputs: Seq<Vec<Jet<F, 1>>> = Seq::empty();
        let ghost mut outputs: Seq<Vec<Jet<F, 1>>> = Seq::empty();
        let mut j: usize = 0;
        while j < n
            invariant
                n == point@.len(),
                forall|x: Vec<Jet<F, 1>>| self.0.requires((x,)),
                j <= n,
                columns@.len() == j,
                inputs.len() == j,
                outputs.len() == j,
                forall|q: int| 0 <= q < j ==> seeded(#[trigger] inputs[q]@, point@, basis::<F>(n as nat, q)),
                forall|q: int| 0 <= q < j ==> call_ensures(self.0, (inputs[q],), #[trigger] outputs[q]),
                forall|q: int| 0 <= q < j ==> (#[trigger] columns@[q])@ == first_order(outputs[q]@),
            decreases n - j,
        {
            let mut direction: Vec<F> = Vec::new();
            let mut k: usize = 0;
            while k < n
                invariant
                    j < n,
                    k <= n,
                    direction@ == basis::<F>(k as nat, j as int),
                decreases n - k,
            {
                direction.push(if k == j {
                    F::one()
                } else {
                    F::zero()
                });
                assert(direction@ =~= basis::<F>((k + 1) as nat, j as int));
                k = k + 1;
            }
            let input = seed(point, &direction);
            let ghost input_copy = input;
            let output = (self.0)(input);
            assert(call_ensures(self.0, (input_copy,), output));
            let column = read_first_order(&output);
            let ghost before = columns@;
            columns.push(column);
            proof {
                inputs = inputs.push(input_copy);
                outputs = outputs.push(output);
                assert forall|q: int| 0 <= q < j + 1 implies seeded(#[trigger] inputs[q]@, point@, basis::<F>(n as nat, q)) by {
                    if q == j {
                        assert(inputs[q] == input_copy);
                    }
                }
                assert forall|q: int| 0 <= q < j + 1 implies call_ensures(self.0, (inputs[q],), #[trigger] outputs[q]) by {
                    if q == j {
                        assert(inputs[q] == input_copy);
                        assert(outputs[q] == output);
                    }
                }
                assert forall|q: int| 0 <= q < j + 1 implies (#[trigger] columns@[q])@ == first_order(outputs[q]@) by {
                    if q < j {
                        assert(columns@[q] == before[q]);
                    }
                }
            }
            j = j + 1;
        }
        let m = if n > 0 {
            columns[0].len()
        } else {
            0
        };
        proof {
            assert forall|q: int| 0 <= q < n implies (#[trigger] columns@[q])@.len() == m by {
                assert(inputs[q]@.len() == n);
                assert(inputs[0]@.len() == n);
                assert(call_ensures(self.0, (inputs[q],), outputs[q]));
                assert(call_ensures(self.0, (inputs[0],), outputs[0]));
            }
        }
        let entry = |o: usize, i: usize| -> (e: F)
            requires
                i < columns@.len(),
                o < columns@[i as int]@.len(),
            ensures
                e == columns@[i as int]@[o as int],
            { columns[i][o] };
        let map = TensorProduct::from_fn_ij(m, n, entry);
        proof {
            assert forall|q: int| 0 <= q < n implies is_directional_derivative(
                self.0,
                point@,
                basis::<F>(point@.len(), q),
                #[trigger] column(map@, q),
            ) by {
                assert(seeded(inputs[q]@, point@, basis::<F>(point@.len(), q)));
                assert(call_ensures(self.0, (inputs[q],), outputs[q]));
                assert(columns@[q]@ == first_order(outputs[q]@));
                assert forall|o: int| 0 <= o < m implies map@[o][q] == columns@[q]@[o] by {
                    assert(entry.ensures((o as usize, q as usize), map@[o][q]));
                }
                assert(column(map@, q) =~= columns@[q]@);
            }
        }
        TangentMap::new(map)
    }
}

impl<G, F: Field> Along<G, Vec<F>> {
    /// The directional derivative at `point`, read from `f` applied to the
    /// jets seeded at `point` in the direction.
    pub fn at(&self, point: &Vec<F>) -> (r: Vec<F>) where G: Fn(Vec<Jet<F, 1>>) -> Vec<Jet<F, 1>>
        requires
            forall|x: Vec<Jet<F, 1>>| self.program().requires((x,)),
            self.direction_of()@.len() == point@.len(),
        ensures
            is_directional_derivative(self.program(), point@, self.direction_of()@, r@),
    {
        let input = seed(point, &self.direction);
        assert(self.program() == self.f);
        assert(self.program().requires((input,)));
        assert(self.f.requires((input,)));
        let output = (self.f)(input);
        read_first_order(&output)
    }
}

impl<F: Field, const N: usize> TensorOver<Vec<Jet<F, N>>> {
    /// Embeds every coordinate of `v` as a constant jet.
    pub fn constant(v: &Vec<F>) -> (r: Self)
        ensures
            r.0@.len() == v@.len(),
            forall|i: int| 0 <= i < v@.len() ==> (#[trigger] r.0@[i])@ == constant_jet(v@[i], (N + 1) as nat),
    {
        let mut out: Vec<Jet<F, N>> = Vec::new();
        let mut i: usize = 0;
        while i < v.len()
            invariant
                i <= v@.len(),
                out@.len() == i,
                forall|k: int| 0 <= k < i ==> (#[trigger] out@[k])@ == constant_jet(v@[k], (N + 1) as nat),
            decreases v@.len() - i,
        {
            out.push(Jet::constant(v[i]));
            i = i + 1;
        }
        TensorOver(out)
    }
}

} // verus!
