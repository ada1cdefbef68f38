//! The elementary functions of jets, from their primal values.
//!
//! Each function `g` solves a differential equation `g(x)' = x'·h` whose
//! right side `h` is built from the jets being computed. Given the primal
//! values (`g(x₀)`, read from whatever computes `g` on scalars), coefficient
//! `n ≥ 1` is `(x'·h)[n-1] / n`, which reads only coefficients below `n`:
//! the jet is the unique fixed point `y = ∫ x'·h` with `y[0]` the primal.
use vstd::prelude::*;
use crate::algebra::{Rig, DivRing, Field, CField, multiple, lemma_no_zero_divisors};
use crate::jet::{Jet, convolution, tail_convolution, constant_jet, jet_product, jet_sum, jet_derivative, jet_integral, jet_negation, series_inverse, lemma_derivative_of_integral, lemma_convolution_split};

verus! {

/// Coefficient `c` of a truncated product reads only coefficients `0..=c`
/// of its right factor.
pub proof fn lemma_convolution_prefix<F: Rig>(p: Seq<F>, q1: Seq<F>, q2: Seq<F>, c: int, k: int)
    requires
        0 <= k <= c + 1,
        forall|t: int| 0 <= t <= c ==> #[trigger] q1[t] == q2[t],
    ensures
        convolution(p, q1, c, k) == convolution(p, q2, c, k),
    decreases k,
{
    if k > 0 {
        lemma_convolution_prefix(p, q1, q2, c, k - 1);
        assert(q1[c - (k - 1)] == q2[c - (k - 1)]);
    }
}

/// The reciprocal of `n` in the field.
pub open spec fn reciprocal<F: DivRing>(n: nat) -> F {
    multiple(F::one_spec(), n).recip_spec()
}

/// The first `n + 1` coefficients of the exponential of a jet with
/// derivative `dx` and primal value `primal`:
/// `y[m] = (dx·y)[m-1] / m`.
pub open spec fn exp_coefficients<F: DivRing>(dx: Seq<F>, primal: F, n: nat) -> Seq<F>
    decreases n,
{
    if n == 0 {
        seq![primal]
    } else {
        let y = exp_coefficients(dx, primal, (n - 1) as nat);
        y.push(convolution(dx, y, n - 1, n as int).mul_spec(reciprocal::<F>(n)))
    }
}

/// The sine and cosine (or, `hyperbolic`, the hyperbolic sine and cosine) of
/// a jet with derivative `dx`, from their primal values `s0`, `c0`:
/// `s[m] = (dx·c)[m-1] / m` and `c[m] = ∓(dx·s)[m-1] / m`.
pub open spec fn trig_coefficients<F: DivRing>(dx: Seq<F>, s0: F, c0: F, hyperbolic: bool, n: nat) -> (Seq<F>, Seq<F>)
    decreases n,
{
    if n == 0 {
        (seq![s0], seq![c0])
    } else {
        let (s, c) = trig_coefficients(dx, s0, c0, hyperbolic, (n - 1) as nat);
        let ds = convolution(dx, c, n - 1, n as int);
        let dc = convolution(dx, s, n - 1, n as int);
        (
            s.push(ds.mul_spec(reciprocal::<F>(n))),
            c.push(
                (if hyperbolic {
                    dc
                } else {
                    dc.neg_spec()
                }).mul_spec(reciprocal::<F>(n)),
            ),
        )
    }
}

/// The exponential has `n + 1` coefficients, and a longer one extends it.
pub proof fn lemma_exp_prefix<F: DivRing>(dx: Seq<F>, primal: F, n: nat, m: nat)
    requires
        n <= m,
    ensures
        exp_coefficients(dx, primal, m).len() == m + 1,
        exp_coefficients(dx, primal, m).take(n as int + 1) == exp_coefficients(dx, primal, n),
    decreases m,
{
    if m > 0 {
        lemma_exp_prefix(dx, primal, 0, (m - 1) as nat);
    }
    if n < m {
        lemma_exp_prefix(dx, primal, n, (m - 1) as nat);
        let y = exp_coefficients(dx, primal, (m - 1) as nat);
        assert(exp_coefficients(dx, primal, m).take(n as int + 1) =~= y.take(n as int + 1));
    } else {
        assert(exp_coefficients(dx, primal, m).take(n as int + 1) =~= exp_coefficients(dx, primal, m));
    }
}

/// The trigonometric pair has `n + 1` coefficients each, and a longer pair
/// extends it.
pub proof fn lemma_trig_prefix<F: DivRing>(dx: Seq<F>, s0: F, c0: F, hyperbolic: bool, n: nat, m: nat)
    requires
        n <= m,
    ensures
        trig_coefficients(dx, s0, c0, hyperbolic, m).0.len() == m + 1,
        trig_coefficients(dx, s0, c0, hyperbolic, m).1.len() == m + 1,
        trig_coefficients(dx, s0, c0, hyperbolic, m).0.take(n as int + 1) == trig_coefficients(dx, s0, c0, hyperbolic, n).0,
        trig_coefficients(dx, s0, c0, hyperbolic, m).1.take(n as int + 1) == trig_coefficients(dx, s0, c0, hyperbolic, n).1,
    decreases m,
{
    if m > 0 {
        lemma_trig_prefix(dx, s0, c0, hyperbolic, 0, (m - 1) as nat);
    }
    if n < m {
        lemma_trig_prefix(dx, s0, c0, hyperbolic, n, (m - 1) as nat);
        let (s, c) = trig_coefficients(dx, s0, c0, hyperbolic, (m - 1) as nat);
        assert(trig_coefficients(dx, s0, c0, hyperbolic, m).0.take(n as int + 1) =~= s.take(n as int + 1));
        assert(trig_coefficients(dx, s0, c0, hyperbolic, m).1.take(n as int + 1) =~= c.take(n as int + 1));
    } else {
        assert(trig_coefficients(dx, s0, c0, hyperbolic, m).0.take(n as int + 1) =~= trig_coefficients(
            dx,
            s0,
            c0,
            hyperbolic,
            m,
        ).0);
        assert(trig_coefficients(dx, s0, c0, hyperbolic, m).1.take(n as int + 1) =~= trig_coefficients(
            dx,
            s0,
            c0,
            hyperbolic,
            m,
        ).1);
    }
}

/// The exponential solves its equation: `y = ∫ dx·y` from its primal value,
/// so `y' = x'·y` in every coefficient a jet of this order holds.
pub proof fn lemma_exp_solves<F: DivRing>(dx: Seq<F>, primal: F, order: nat)
    requires
        dx.len() == order + 1,
        forall|i: nat| 1 <= i <= order ==> #[trigger] multiple(F::one_spec(), i) != F::zero_spec(),
    ensures
        exp_coefficients(dx, primal, order) == jet_integral(primal, jet_product(dx, exp_coefficients(dx, primal, order))),
        jet_derivative(exp_coefficients(dx, primal, order)) == jet_product(dx, exp_coefficients(dx, primal, order)).update(
            order as int,
            F::zero_spec(),
        ),
{
    let y = exp_coefficients(dx, primal, order);
    lemma_exp_prefix(dx, primal, order, order);
    assert forall|i: int| 0 <= i < y.len() implies #[trigger] y[i] == jet_integral(primal, jet_product(dx, y))[i] by {
        if i == 0 {
            lemma_exp_prefix(dx, primal, 0, order);
            assert(y[0] == y.take(1)[0]);
        } else {
            let n = i as nat;
            lemma_exp_prefix(dx, primal, n, order);
            lemma_exp_prefix(dx, primal, (n - 1) as nat, order);
            let prev = exp_coefficients(dx, primal, (n - 1) as nat);
            assert(y[i] == y.take(n as int + 1)[i]);
            assert(exp_coefficients(dx, primal, n)[i] == convolution(dx, prev, n - 1, n as int).mul_spec(
                reciprocal::<F>(n),
            ));
            assert forall|t: int| 0 <= t <= n - 1 implies #[trigger] prev[t] == y[t] by {
                assert(prev[t] == y.take(n as int)[t]);
            }
            lemma_convolution_prefix(dx, prev, y, n - 1, n as int);
        }
    }
    assert(y =~= jet_integral(primal, jet_product(dx, y)));
    assert forall|i: nat| 1 <= i < jet_product(dx, y).len() implies #[trigger] multiple(F::one_spec(), i) != F::zero_spec() by {}
    lemma_derivative_of_integral(primal, jet_product(dx, y));
}

/// The trigonometric pair solves its equations: `s = ∫ dx·c` and
/// `c = ∫ ∓dx·s` from their primal values, so `s' = x'·c` and
/// `c' = ∓x'·s` in every coefficient jets of this order hold.
pub proof fn lemma_trig_solves<F: DivRing>(dx: Seq<F>, s0: F, c0: F, hyperbolic: bool, order: nat)
    requires
        dx.len() == order + 1,
    ensures
        ({
            let (s, c) = trig_coefficients(dx, s0, c0, hyperbolic, order);
            &&& s == jet_integral(s0, jet_product(dx, c))
            &&& c == jet_integral(
                c0,
                if hyperbolic {
                    jet_product(dx, s)
                } else {
                    jet_negation(jet_product(dx, s))
                },
            )
        }),
{
    let (s, c) = trig_coefficients(dx, s0, c0, hyperbolic, order);
    lemma_trig_prefix(dx, s0, c0, hyperbolic, order, order);
    let rhs_c = if hyperbolic {
        jet_product(dx, s)
    } else {
        jet_negation(jet_product(dx, s))
    };
    assert forall|i: int| 0 <= i < s.len() implies #[trigger] s[i] == jet_integral(s0, jet_product(dx, c))[i]
        && c[i] == jet_integral(c0, rhs_c)[i] by {
        if i == 0 {
            lemma_trig_prefix(dx, s0, c0, hyperbolic, 0, order);
            assert(s[0] == s.take(1)[0]);
            assert(c[0] == c.take(1)[0]);
        } else {
            let n = i as nat;
            lemma_trig_prefix(dx, s0, c0, hyperbolic, n, order);
            lemma_trig_prefix(dx, s0, c0, hyperbolic, (n - 1) as nat, order);
            let (ps, pc) = trig_coefficients(dx, s0, c0, hyperbolic, (n - 1) as nat);
            assert(s[i] == s.take(n as int + 1)[i]);
            assert(c[i] == c.take(n as int + 1)[i]);
            assert forall|t: int| 0 <= t <= n - 1 implies #[trigger] ps[t] == s[t] by {
                assert(ps[t] == s.take(n as int)[t]);
            }
            assert forall|t: int| 0 <= t <= n - 1 implies #[trigger] pc[t] == c[t] by {
                assert(pc[t] == c.take(n as int)[t]);
            }
            lemma_convolution_prefix(dx, pc, c, n - 1, n as int);
            lemma_convolution_prefix(dx, ps, s, n - 1, n as int);
        }
    }
    assert forall|i: int| 0 <= i < c.len() implies #[trigger] c[i] == jet_integral(c0, rhs_c)[i] by {
        assert(s[i] == jet_integral(s0, jet_product(dx, c))[i] && c[i] == jet_integral(c0, rhs_c)[i]);
    }
    assert(s =~= jet_integral(s0, jet_product(dx, c)));
    assert(c =~= jet_integral(c0, rhs_c));
}

/// The derivatives of the trigonometric pair: `s' = x'·c` and
/// `c' = ∓x'·s`, in every coefficient jets of this order hold.
pub proof fn lemma_trig_derivatives<F: DivRing>(dx: Seq<F>, s0: F, c0: F, hyperbolic: bool, order: nat)
    requires
        dx.len() == order + 1,
        forall|i: nat| 1 <= i <= order ==> #[trigger] multiple(F::one_spec(), i) != F::zero_spec(),
    ensures
        ({
            let (s, c) = trig_coefficients(dx, s0, c0, hyperbolic, order);
            &&& jet_derivative(s) == jet_product(dx, c).update(order as int, F::zero_spec())
            &&& jet_derivative(c) == (if hyperbolic {
                jet_product(dx, s)
            } else {
                jet_negation(jet_product(dx, s))
            }).update(order as int, F::zero_spec())
        }),
{
    let (s, c) = trig_coefficients(dx, s0, c0, hyperbolic, order);
    lemma_trig_solves(dx, s0, c0, hyperbolic, order);
    let rhs_c = if hyperbolic {
        jet_product(dx, s)
    } else {
        jet_negation(jet_product(dx, s))
    };
    assert forall|i: nat| 1 <= i < jet_product(dx, c).len() implies #[trigger] multiple(F::one_spec(), i) != F::zero_spec() by {}
    lemma_derivative_of_integral(s0, jet_product(dx, c));
    assert(rhs_c.len() == order + 1);
    assert forall|i: nat| 1 <= i < rhs_c.len() implies #[trigger] multiple(F::one_spec(), i) != F::zero_spec() by {}
    lemma_derivative_of_integral(c0, rhs_c);
}

/// `2·y₀`, the denominator of the square-root recurrence.
pub open spec fn twice<F: Rig>(a: F) -> F {
    multiple(F::one_spec(), 2).mul_spec(a)
}

/// The first `n + 1` coefficients of the square root of `x` with primal
/// value `primal`: `y[m] = (x[m] - Σ_{1≤j<m} y[j]·y[m-j]) / (2·y[0])`.
pub open spec fn sqrt_coefficients<F: DivRing>(x: Seq<F>, primal: F, n: nat) -> Seq<F>
    decreases n,
{
    if n == 0 {
        seq![primal]
    } else {
        let y = sqrt_coefficients(x, primal, (n - 1) as nat);
        let cross = tail_convolution(y, y, n as int, n - 1);
        y.push(x[n as int].add_spec(cross.neg_spec()).mul_spec(twice(primal).recip_spec()))
    }
}

/// The square root has `n + 1` coefficients, and a longer one extends it.
pub proof fn lemma_sqrt_prefix<F: DivRing>(x: Seq<F>, primal: F, n: nat, m: nat)
    requires
        n <= m,
    ensures
        sqrt_coefficients(x, primal, m).len() == m + 1,
        sqrt_coefficients(x, primal, m).take(n as int + 1) == sqrt_coefficients(x, primal, n),
    decreases m,
{
    if m > 0 {
        lemma_sqrt_prefix(x, primal, 0, (m - 1) as nat);
    }
    if n < m {
        lemma_sqrt_prefix(x, primal, n, (m - 1) as nat);
        let y = sqrt_coefficients(x, primal, (m - 1) as nat);
        assert(sqrt_coefficients(x, primal, m).take(n as int + 1) =~= y.take(n as int + 1));
    } else {
        assert(sqrt_coefficients(x, primal, m).take(n as int + 1) =~= sqrt_coefficients(x, primal, m));
    }
}

/// The cross terms of coefficient `n` read only coefficients below `n`.
proof fn lemma_cross_prefix<F: Rig>(y: Seq<F>, z: Seq<F>, n: int, k: int)
    requires
        0 <= k < n,
        forall|t: int| 0 <= t < n ==> #[trigger] y[t] == z[t],
    ensures
        tail_convolution(y, y, n, k) == tail_convolution(z, z, n, k),
    decreases k,
{
    if k > 0 {
        lemma_cross_prefix(y, z, n, k - 1);
        assert(y[k] == z[k]);
        assert(y[n - k] == z[n - k]);
    }
}

/// `2·a = a + a`.
proof fn lemma_twice<F: Rig>(a: F)
    ensures
        twice(a) == a.add_spec(a),
{
    let one = F::one_spec();
    assert(multiple(one, 0) == F::zero_spec());
    assert(multiple(one, 1) == multiple(one, 0).add_spec(one));
    assert(multiple(one, 2) == multiple(one, 1).add_spec(one));
    F::lemma_add_identity(one);
    F::lemma_distributive(one, one, a);
    F::lemma_mul_identity(a);
}

/// The square root squares back: for a primal value with
/// `primal² = x[0]` and `2·primal ≠ 0`, over a commutative field,
/// `y·y = x`.
pub proof fn lemma_sqrt_squares<F: CField>(x: Seq<F>, primal: F, order: nat)
    requires
        x.len() == order + 1,
        primal.mul_spec(primal) == x[0],
        twice(primal) != F::zero_spec(),
    ensures
        jet_product(sqrt_coefficients(x, primal, order), sqrt_coefficients(x, primal, order)) == x,
{
    let y = sqrt_coefficients(x, primal, order);
    lemma_sqrt_prefix(x, primal, order, order);
    lemma_sqrt_prefix(x, primal, 0, order);
    assert(y[0] == y.take(1)[0]);
    assert(y[0] == primal);
    let t = twice(primal);
    assert forall|n: int| 0 <= n < y.len() implies #[trigger] jet_product(y, y)[n] == x[n] by {
        if n == 0 {
            assert(jet_product(y, y)[0] == convolution(y, y, 0, 1));
            assert(convolution(y, y, 0, 0) == F::zero_spec());
            F::lemma_add_identity(y[0].mul_spec(y[0]));
        } else {
            let nn = n as nat;
            lemma_sqrt_prefix(x, primal, nn, order);
            lemma_sqrt_prefix(x, primal, (nn - 1) as nat, order);
            let prev = sqrt_coefficients(x, primal, (nn - 1) as nat);
            assert forall|s: int| 0 <= s < n implies #[trigger] prev[s] == y[s] by {
                assert(prev[s] == y.take(n)[s]);
            }
            let cross = tail_convolution(prev, prev, n, n - 1);
            lemma_cross_prefix(prev, y, n, n - 1);
            assert(cross == tail_convolution(y, y, n, n - 1));
            let yn = y[n];
            assert(yn == y.take(n + 1)[n]);
            let d = x[n].add_spec(cross.neg_spec());
            assert(yn == d.mul_spec(t.recip_spec()));
            // convolution = y₀·yₙ + (cross + yₙ·y₀)
            lemma_convolution_split(y, y, n, n);
            assert(tail_convolution(y, y, n, n) == cross.add_spec(yn.mul_spec(y[0])));
            let p = primal.mul_spec(yn);
            F::lemma_mul_commutative(yn, primal);
            // y₀·yₙ + (cross + y₀·yₙ) = (y₀·yₙ + y₀·yₙ) + cross
            F::lemma_add_commutative(cross, p);
            F::lemma_add_associative(p, p, cross);
            // y₀·yₙ + y₀·yₙ = (2·y₀)·yₙ
            lemma_twice(primal);
            F::lemma_distributive(primal, primal, yn);
            // (2·y₀)·(d·t⁻¹) = d
            F::lemma_mul_commutative(d, t.recip_spec());
            F::lemma_mul_associative(t, t.recip_spec(), d);
            F::lemma_recip(t);
            F::lemma_mul_identity(d);
            // d + cross = x[n]
            F::lemma_add_associative(x[n], cross.neg_spec(), cross);
            F::lemma_add_inverse(cross);
            F::lemma_add_identity(x[n]);
            assert(jet_product(y, y)[n] == convolution(y, y, n, n + 1));
        }
    }
    assert(jet_product(y, y) =~= x);
}

/// `Σ_{1≤j≤k} (x[j]·(n-j))·y[n-j]`: the terms of coefficient `n - 1` of
/// `x·y'` other than the one through `x[0]`.
pub open spec fn log_correction<F: Rig>(x: Seq<F>, y: Seq<F>, n: int, k: int) -> F
    decreases k,
{
    if k <= 0 {
        F::zero_spec()
    } else {
        log_correction(x, y, n, k - 1).add_spec(
            x[k].mul_spec(multiple(F::one_spec(), (n - k) as nat)).mul_spec(y[n - k]),
        )
    }
}

/// The first `n + 1` coefficients of the logarithm of `x` with primal value
/// `primal`: `y[m] = (m·x[m] - Σ_{1≤j<m} (x[j]·(m-j))·y[m-j]) / (m·x[0])`.
pub open spec fn log_coefficients<F: DivRing>(x: Seq<F>, primal: F, n: nat) -> Seq<F>
    decreases n,
{
    if n == 0 {
        seq![primal]
    } else {
        let y = log_coefficients(x, primal, (n - 1) as nat);
        let m = multiple(F::one_spec(), n);
        y.push(
            m.mul_spec(x[n as int]).add_spec(log_correction(x, y, n as int, n - 1).neg_spec()).mul_spec(
                m.mul_spec(x[0]).recip_spec(),
            ),
        )
    }
}

/// The logarithm has `n + 1` coefficients, and a longer one extends it.
pub proof fn lemma_log_prefix<F: DivRing>(x: Seq<F>, primal: F, n: nat, m: nat)
    requires
        n <= m,
    ensures
        log_coefficients(x, primal, m).len() == m + 1,
        log_coefficients(x, primal, m).take(n as int + 1) == log_coefficients(x, primal, n),
    decreases m,
{
    if m > 0 {
        lemma_log_prefix(x, primal, 0, (m - 1) as nat);
    }
    if n < m {
        lemma_log_prefix(x, primal, n, (m - 1) as nat);
        let y = log_coefficients(x, primal, (m - 1) as nat);
        assert(log_coefficients(x, primal, m).take(n as int + 1) =~= y.take(n as int + 1));
    } else {
        assert(log_coefficients(x, primal, m).take(n as int + 1) =~= log_coefficients(x, primal, m));
    }
}

/// The correction terms read only coefficients `n - k .. n - 1` of `y`.
proof fn lemma_correction_prefix<F: Rig>(x: Seq<F>, y: Seq<F>, z: Seq<F>, n: int, k: int)
    requires
        0 <= k < n,
        forall|t: int| 0 <= t < n ==> #[trigger] y[t] == z[t],
    ensures
        log_correction(x, y, n, k) == log_correction(x, z, n, k),
    decreases k,
{
    if k > 0 {
        lemma_correction_prefix(x, y, z, n, k - 1);
        assert(y[n - k] == z[n - k]);
    }
}

/// The tail of `x·y'` at coefficient `n - 1` is the correction sum.
proof fn lemma_correction_is_tail<F: Rig>(x: Seq<F>, y: Seq<F>, n: int, k: int)
    requires
        0 <= k < n,
        n < y.len(),
    ensures
        tail_convolution(x, jet_derivative(y), n - 1, k) == log_correction(x, y, n, k),
    decreases k,
{
    if k > 0 {
        lemma_correction_is_tail(x, y, n, k - 1);
        let c = multiple(F::one_spec(), (n - k) as nat);
        assert(jet_derivative(y)[n - 1 - k] == multiple(F::one_spec(), (n - 1 - k + 1) as nat).mul_spec(
            y[n - 1 - k + 1],
        ));
        F::lemma_mul_associative(x[k], c, y[n - k]);
    }
}

/// The logarithm solves its equation: for a primal value `x[0] ≠ 0` over a
/// commutative field in which `1, …, order` are nonzero, `x·y' = x'` in
/// every coefficient below the top.
pub proof fn lemma_log_solves<F: CField>(x: Seq<F>, primal: F, order: nat)
    requires
        x.len() == order + 1,
        x[0] != F::zero_spec(),
        forall|i: nat| 1 <= i <= order ==> #[trigger] multiple(F::one_spec(), i) != F::zero_spec(),
    ensures
        log_coefficients(x, primal, order)[0] == primal,
        jet_product(x, jet_derivative(log_coefficients(x, primal, order))).take(order as int)
            == jet_derivative(x).take(order as int),
{
    let y = log_coefficients(x, primal, order);
    lemma_log_prefix(x, primal, order, order);
    lemma_log_prefix(x, primal, 0, order);
    assert(y[0] == y.take(1)[0]);
    let dy = jet_derivative(y);
    assert forall|m: int| 0 <= m < order implies #[trigger] jet_product(x, dy)[m] == jet_derivative(x)[m] by {
        let n = m + 1;
        let nn = n as nat;
        lemma_log_prefix(x, primal, nn, order);
        lemma_log_prefix(x, primal, (nn - 1) as nat, order);
        let prev = log_coefficients(x, primal, (nn - 1) as nat);
        assert forall|s: int| 0 <= s < n implies #[trigger] prev[s] == y[s] by {
            assert(prev[s] == y.take(n)[s]);
        }
        let corr = log_correction(x, prev, n, n - 1);
        lemma_correction_prefix(x, prev, y, n, n - 1);
        let c = multiple(F::one_spec(), nn);
        assert(c != F::zero_spec());
        let q = c.mul_spec(x[0]);
        lemma_no_zero_divisors(c, x[0]);
        let d = c.mul_spec(x[n]).add_spec(corr.neg_spec());
        let yn = y[n];
        assert(yn == y.take(n + 1)[n]);
        assert(yn == d.mul_spec(q.recip_spec()));
        // (x·y')[m] = x[0]·y'[m] + tail
        lemma_convolution_split(x, dy, m, m);
        lemma_correction_is_tail(x, y, n, m);
        assert(dy[m] == c.mul_spec(yn));
        // x[0]·(c·yₙ) = (c·x[0])·yₙ = q·(d·q⁻¹) = d
        F::lemma_mul_associative(x[0], c, yn);
        F::lemma_mul_commutative(x[0], c);
        F::lemma_mul_commutative(d, q.recip_spec());
        F::lemma_mul_associative(q, q.recip_spec(), d);
        F::lemma_recip(q);
        F::lemma_mul_identity(d);
        // d + corr = c·x[n]
        F::lemma_add_associative(c.mul_spec(x[n]), corr.neg_spec(), corr);
        F::lemma_add_inverse(corr);
        F::lemma_add_identity(c.mul_spec(x[n]));
        assert(jet_product(x, dy)[m] == convolution(x, dy, m, m + 1));
        assert(jet_derivative(x)[m] == c.mul_spec(x[m + 1]));
    }
    assert(jet_product(x, dy).take(order as int) =~= jet_derivative(x).take(order as int));
}

/// The first `n + 1` coefficients of the hyperbolic tangent of a jet with
/// derivative `dx` and primal value `primal`: `y[m] = (dx·(1 - y²))[m-1] / m`.
pub open spec fn tanh_coefficients<F: DivRing>(dx: Seq<F>, primal: F, n: nat) -> Seq<F>
    decreases n,
{
    if n == 0 {
        seq![primal]
    } else {
        let y = tanh_coefficients(dx, primal, (n - 1) as nat);
        let slope = one_plus_square(y, true);
        y.push(convolution(dx, slope, n - 1, n as int).mul_spec(reciprocal::<F>(n)))
    }
}

/// The hyperbolic tangent has `n + 1` coefficients, and a longer one
/// extends it.
pub proof fn lemma_tanh_prefix<F: DivRing>(dx: Seq<F>, primal: F, n: nat, m: nat)
    requires
        n <= m,
    ensures
        tanh_coefficients(dx, primal, m).len() == m + 1,
        tanh_coefficients(dx, primal, m).take(n as int + 1) == tanh_coefficients(dx, primal, n),
    decreases m,
{
    if m > 0 {
        lemma_tanh_prefix(dx, primal, 0, (m - 1) as nat);
    }
    if n < m {
        lemma_tanh_prefix(dx, primal, n, (m - 1) as nat);
        let y = tanh_coefficients(dx, primal, (m - 1) as nat);
        assert(tanh_coefficients(dx, primal, m).take(n as int + 1) =~= y.take(n as int + 1));
    } else {
        assert(tanh_coefficients(dx, primal, m).take(n as int + 1) =~= tanh_coefficients(dx, primal, m));
    }
}

/// Coefficient `c` of a square reads only coefficients `0..=c`.
proof fn lemma_square_prefix<F: Rig>(y: Seq<F>, z: Seq<F>, c: int, k: int)
    requires
        0 <= k <= c + 1,
        forall|t: int| 0 <= t <= c ==> #[trigger] y[t] == z[t],
    ensures
        convolution(y, y, c, k) == convolution(z, z, c, k),
    decreases k,
{
    if k > 0 {
        lemma_square_prefix(y, z, c, k - 1);
        assert(y[k - 1] == z[k - 1]);
        assert(y[c - (k - 1)] == z[c - (k - 1)]);
    }
}

/// `1 - y²` at coefficient `j` reads only coefficients `0..=j` of `y`.
proof fn lemma_slope_prefix<F: DivRing>(y: Seq<F>, z: Seq<F>, j: int)
    requires
        0 <= j < y.len(),
        j < z.len(),
        forall|t: int| 0 <= t <= j ==> #[trigger] y[t] == z[t],
    ensures
        one_plus_square(y, true)[j] == one_plus_square(z, true)[j],
{
    lemma_square_prefix(y, z, j, j + 1);
}

/// The hyperbolic tangent solves its equation: `y = ∫ dx·(1 - y²)` from its
/// primal value, so `y' = x'·(1 - y²)` in every coefficient a jet of this
/// order holds.
pub proof fn lemma_tanh_solves<F: DivRing>(dx: Seq<F>, primal: F, order: nat)
    requires
        dx.len() == order + 1,
    ensures
        tanh_coefficients(dx, primal, order) == jet_integral(
            primal,
            jet_product(dx, one_plus_square(tanh_coefficients(dx, primal, order), true)),
        ),
{
    let y = tanh_coefficients(dx, primal, order);
    let h = one_plus_square(y, true);
    lemma_tanh_prefix(dx, primal, order, order);
    assert forall|i: int| 0 <= i < y.len() implies #[trigger] y[i] == jet_integral(primal, jet_product(dx, h))[i] by {
        if i == 0 {
            lemma_tanh_prefix(dx, primal, 0, order);
            assert(y[0] == y.take(1)[0]);
        } else {
            let n = i as nat;
            lemma_tanh_prefix(dx, primal, n, order);
            lemma_tanh_prefix(dx, primal, (n - 1) as nat, order);
            let prev = tanh_coefficients(dx, primal, (n - 1) as nat);
            let hp = one_plus_square(prev, true);
            assert(y[i] == y.take(n as int + 1)[i]);
            assert forall|t: int| 0 <= t <= n - 1 implies #[trigger] prev[t] == y[t] by {
                assert(prev[t] == y.take(n as int)[t]);
            }
            assert forall|t: int| 0 <= t <= n - 1 implies #[trigger] hp[t] == h[t] by {
                lemma_slope_prefix(prev, y, t);
            }
            lemma_convolution_prefix(dx, hp, h, n - 1, n as int);
        }
    }
    assert(y =~= jet_integral(primal, jet_product(dx, h)));
}

/// `∫ (num / den)` from `primal`: the antiderivative of a quotient.
pub open spec fn quotient_integral<F: DivRing>(primal: F, num: Seq<F>, den: Seq<F>, order: nat) -> Seq<F> {
    jet_integral(primal, jet_product(num, series_inverse(den, order)))
}

/// `1 + x·x`, or, `minus`, `1 - x·x`.
pub open spec fn one_plus_square<F: DivRing>(x: Seq<F>, minus: bool) -> Seq<F> {
    let sq = jet_product(x, x);
    jet_sum(
        constant_jet(F::one_spec(), x.len()),
        if minus {
            jet_negation(sq)
        } else {
            sq
        },
    )
}

/// `Σ_{i<k} dx[i]·y[n-1-i]`: coefficient `n - 1` of `dx·y`, read from the
/// first `n` coefficients of `y`.
fn product_coefficient<F: Field>(dx: &Vec<F>, y: &Vec<F>, n: usize) -> (r: F)
    requires
        1 <= n <= dx@.len(),
        n <= y@.len(),
    ensures
        r == convolution(dx@, y@, n - 1, n as int),
{
    let mut sum = F::zero();
    let mut i: usize = 0;
    while i < n
        invariant
            1 <= n <= dx@.len(),
            n <= y@.len(),
            i <= n,
            sum == convolution(dx@, y@, n - 1, i as int),
        decreases n - i,
    {
        sum = sum.add(&dx[i].mul(&y[n - 1 - i]));
        i = i + 1;
    }
    sum
}

/// `1 - y·y`, truncated to the length of `y`.
fn one_minus_square<F: Field>(y: &Vec<F>) -> (r: Vec<F>)
    ensures
        r@ == one_plus_square(y@, true),
{
    let n = y.len();
    let mut out: Vec<F> = Vec::new();
    let mut j: usize = 0;
    while j < n
        invariant
            n == y@.len(),
            j <= n,
            out@.len() == j,
            forall|t: int| 0 <= t < j ==> #[trigger] out@[t] == one_plus_square(y@, true)[t],
        decreases n - j,
    {
        let mut square = F::zero();
        let mut k: usize = 0;
        while k <= j
            invariant
                n == y@.len(),
                j < n,
                k <= j + 1,
                square == convolution(y@, y@, j as int, k as int),
            decreases j + 1 - k,
        {
            square = square.add(&y[k].mul(&y[j - k]));
            k = k + 1;
        }
        let start = if j == 0 {
            F::one()
        } else {
            F::zero()
        };
        out.push(start.add(&square.neg()));
        j = j + 1;
    }
    assert(out@ =~= one_plus_square(y@, true));
    out
}

/// The coefficients of a jet, as a vector.
fn coefficients<F: Field, const N: usize>(x: &Jet<F, N>) -> (r: Vec<F>)
    ensures
        r@ == x@,
{
    let len = x.len();
    let mut out: Vec<F> = Vec::new();
    let mut k: usize = 0;
    while k < len
        invariant
            len == x@.len(),
            len == N + 1,
            k <= len,
            out@ == x@.take(k as int),
        decreases len - k,
    {
        out.push(x.index(k));
        assert(x@.take(k + 1) =~= x@.take(k as int).push(x@[k as int]));
        k = k + 1;
    }
    assert(x@.take(len as int) =~= x@);
    out
}

impl<F: Field, const N: usize> Jet<F, N> {
    /// The exponential of the jet, given the exponential `primal` of its
    /// primal value: `y' = x'·y`, coefficient by coefficient. Each
    /// `1, …, N` must be nonzero in `F`.
    pub fn exp_from(&self, primal: F) -> (r: Self)
        requires
            forall|i: nat| 1 <= i <= N ==> #[trigger] multiple(F::one_spec(), i) != F::zero_spec(),
        ensures
            r@ == exp_coefficients(jet_derivative(self@), primal, N as nat),
    {
        let len = self.len();
        let dx = coefficients(&self.derivative());
        let mut out: Vec<F> = Vec::new();
        out.push(primal);
        let mut n: usize = 1;
        while n <= N
            invariant
                len == N + 1,
                dx@ == jet_derivative(self@),
                dx@.len() == N + 1,
                forall|i: nat| 1 <= i <= N ==> #[trigger] multiple(F::one_spec(), i) != F::zero_spec(),
                1 <= n <= N + 1,
                out@ == exp_coefficients(dx@, primal, (n - 1) as nat),
                out@.len() == n,
            decreases N + 1 - n,
        {
            let sum = product_coefficient(&dx, &out, n);
            let scale = F::from_nat(n);
            proof {
                assert(multiple(F::one_spec(), n as nat) != F::zero_spec());
            }
            let next = sum.div(&scale);
            out.push(next);
            proof {
                lemma_exp_prefix(dx@, primal, (n - 1) as nat, (n - 1) as nat);
            }
            n = n + 1;
        }
        Jet::from_coefficients(out)
    }

    /// The square root of the jet, given the square root `primal` of its
    /// primal value: `y[m] = (x[m] - Σ_{1≤j<m} y[j]·y[m-j]) / (2·y[0])`.
    /// At a zero primal value the square root is differentiable only for a
    /// constant jet, whose square root is the constant `primal`.
    pub fn sqrt_from(&self, primal: F) -> (r: Self)
        requires
            self@[0] == F::zero_spec() ==> forall|i: int| 1 <= i <= N ==> #[trigger] self@[i] == F::zero_spec(),
            self@[0] != F::zero_spec() ==> twice(primal) != F::zero_spec(),
        ensures
            self@[0] == F::zero_spec() ==> r@ == constant_jet(primal, (N + 1) as nat),
            self@[0] != F::zero_spec() ==> r@ == sqrt_coefficients(self@, primal, N as nat),
    {
        if self.is_zero() {
            return Jet::constant(primal);
        }
        let len = self.len();
        let x = coefficients(self);
        let two = F::from_nat(2);
        let two_primal = two.mul(&primal);
        let mut out: Vec<F> = Vec::new();
        out.push(primal);
        let mut n: usize = 1;
        while n <= N
            invariant
                len == N + 1,
                x@ == self@,
                x@.len() == N + 1,
                two_primal == twice(primal),
                two_primal != F::zero_spec(),
                1 <= n <= N + 1,
                out@ == sqrt_coefficients(x@, primal, (n - 1) as nat),
                out@.len() == n,
            decreases N + 1 - n,
        {
            let mut cross = F::zero();
            let mut k: usize = 1;
            while k < n
                invariant
                    1 <= n <= N,
                    out@.len() == n,
                    1 <= k <= n,
                    cross == tail_convolution(out@, out@, n as int, (k - 1) as int),
                decreases n - k,
            {
                cross = cross.add(&out[k].mul(&out[n - k]));
                k = k + 1;
            }
            let next = x[n].sub(&cross).div(&two_primal);
            out.push(next);
            proof {
                lemma_sqrt_prefix(x@, primal, (n - 1) as nat, (n - 1) as nat);
            }
            n = n + 1;
        }
        Jet::from_coefficients(out)
    }

    /// The natural logarithm of the jet, given the logarithm `primal` of its
    /// primal value: `y[m] = (m·x[m] - Σ_{1≤j<m} (x[j]·(m-j))·y[m-j]) / (m·x[0])`.
    /// The primal value must be nonzero, and each `1, …, N` nonzero in `F`.
    pub fn ln_from(&self, primal: F) -> (r: Self)
        requires
            self@[0] != F::zero_spec(),
            forall|i: nat| 1 <= i <= N ==> #[trigger] multiple(F::one_spec(), i) != F::zero_spec(),
        ensures
            r@ == log_coefficients(self@, primal, N as nat),
    {
        let len = self.len();
        let x = coefficients(self);
        let mut out: Vec<F> = Vec::new();
        out.push(primal);
        let mut n: usize = 1;
        while n <= N
            invariant
                len == N + 1,
                x@ == self@,
                x@.len() == N + 1,
                x@[0] != F::zero_spec(),
                forall|i: nat| 1 <= i <= N ==> #[trigger] multiple(F::one_spec(), i) != F::zero_spec(),
                1 <= n <= N + 1,
                out@ == log_coefficients(x@, primal, (n - 1) as nat),
                out@.len() == n,
            decreases N + 1 - n,
        {
            let mut correction = F::zero();
            let mut k: usize = 1;
            while k < n
                invariant
                    1 <= n <= N,
                    x@.len() == N + 1,
                    out@.len() == n,
                    1 <= k <= n,
                    correction == log_correction(x@, out@, n as int, (k - 1) as int),
                decreases n - k,
            {
                let weight = F::from_nat(n - k);
                correction = correction.add(&x[k].mul(&weight).mul(&out[n - k]));
                k = k + 1;
            }
            let scale = F::from_nat(n);
            let denominator = scale.mul(&x[0]);
            proof {
                assert(multiple(F::one_spec(), n as nat) != F::zero_spec());
                lemma_no_zero_divisors(scale, x@[0]);
            }
            let next = scale.mul(&x[n]).sub(&correction).div(&denominator);
            out.push(next);
            proof {
                lemma_log_prefix(x@, primal, (n - 1) as nat, (n - 1) as nat);
            }
            n = n + 1;
        }
        Jet::from_coefficients(out)
    }

    /// `1 + self·self`, or, `minus`, `1 - self·self`.
    fn one_plus_square(&self, minus: bool) -> (r: Self)
        ensures
            r@ == one_plus_square(self@, minus),
    {
        let len = self.len();
        let sq = self.mul(self);
        let term = if minus {
            sq.neg()
        } else {
            sq
        };
        Jet::one().add(&term)
    }

    /// `∫ (num / den)` from `primal`.
    fn integrate_quotient(primal: F, num: &Self, den: &Self) -> (r: Self)
        requires
            den@[0] != F::zero_spec(),
            forall|i: nat| 1 <= i <= N ==> #[trigger] multiple(F::one_spec(), i) != F::zero_spec(),
        ensures
            r@ == quotient_integral(primal, num@, den@, N as nat),
    {
        let q = num.mul(&den.inv());
        Jet::integrate_from(primal, q)
    }

    /// The arctangent of the jet, given that of its primal value:
    /// `atan(x)' = x' / (1 + x²)`. Each `1, …, N` must be nonzero in `F`, and
    /// `1 + x₀²` nonzero.
    pub fn atan_from(&self, primal: F) -> (r: Self)
        requires
            one_plus_square(self@, false)[0] != F::zero_spec(),
            forall|i: nat| 1 <= i <= N ==> #[trigger] multiple(F::one_spec(), i) != F::zero_spec(),
        ensures
            r@ == quotient_integral(primal, jet_derivative(self@), one_plus_square(self@, false), N as nat),
    {
        let den = self.one_plus_square(false);
        Self::integrate_quotient(primal, &self.derivative(), &den)
    }

    /// The inverse hyperbolic tangent of the jet, given that of its primal
    /// value: `atanh(x)' = x' / (1 - x²)`. Each `1, …, N` must be nonzero in
    /// `F`, and `1 - x₀²` nonzero.
    pub fn atanh_from(&self, primal: F) -> (r: Self)
        requires
            one_plus_square(self@, true)[0] != F::zero_spec(),
            forall|i: nat| 1 <= i <= N ==> #[trigger] multiple(F::one_spec(), i) != F::zero_spec(),
        ensures
            r@ == quotient_integral(primal, jet_derivative(self@), one_plus_square(self@, true), N as nat),
    {
        let den = self.one_plus_square(true);
        Self::integrate_quotient(primal, &self.derivative(), &den)
    }

    /// The arcsine of the jet, given that of its primal value and the square
    /// root `root` of `1 - x₀²`: `asin(x)' = x' / √(1 - x²)`. Each `1, …, N`
    /// must be nonzero in `F`, and `1 - x₀²`, `root` and `2·root` nonzero.
    pub fn asin_from(&self, primal: F, root: F) -> (r: Self)
        requires
            one_plus_square(self@, true)[0] != F::zero_spec(),
            root != F::zero_spec(),
            twice(root) != F::zero_spec(),
            forall|i: nat| 1 <= i <= N ==> #[trigger] multiple(F::one_spec(), i) != F::zero_spec(),
        ensures
            r@ == quotient_integral(
                primal,
                jet_derivative(self@),
                sqrt_coefficients(one_plus_square(self@, true), root, N as nat),
                N as nat,
            ),
    {
        let den = self.one_plus_square(true).sqrt_from(root);
        proof {
            lemma_sqrt_prefix(one_plus_square(self@, true), root, 0, N as nat);
            assert(den@[0] == den@.take(1)[0]);
        }
        Self::integrate_quotient(primal, &self.derivative(), &den)
    }

    /// The arccosine of the jet, given that of its primal value and the
    /// square root `root` of `1 - x₀²`: `acos(x)' = -x' / √(1 - x²)`. Each
    /// `1, …, N` must be nonzero in `F`, and `1 - x₀²`, `root` and `2·root`
    /// nonzero.
    pub fn acos_from(&self, primal: F, root: F) -> (r: Self)
        requires
            one_plus_square(self@, true)[0] != F::zero_spec(),
            root != F::zero_spec(),
            twice(root) != F::zero_spec(),
            forall|i: nat| 1 <= i <= N ==> #[trigger] multiple(F::one_spec(), i) != F::zero_spec(),
        ensures
            r@ == quotient_integral(
                primal,
                jet_negation(jet_derivative(self@)),
                sqrt_coefficients(one_plus_square(self@, true), root, N as nat),
                N as nat,
            ),
    {
        let den = self.one_plus_square(true).sqrt_from(root);
        proof {
            lemma_sqrt_prefix(one_plus_square(self@, true), root, 0, N as nat);
            assert(den@[0] == den@.take(1)[0]);
        }
        Self::integrate_quotient(primal, &self.derivative().neg(), &den)
    }

    /// The inverse hyperbolic sine of the jet, given that of its primal value
    /// and the square root `root` of `1 + x₀²`: `asinh(x)' = x' / √(1 + x²)`.
    /// Each `1, …, N` must be nonzero in `F`, and `1 + x₀²`, `root` and
    /// `2·root` nonzero.
    pub fn asinh_from(&self, primal: F, root: F) -> (r: Self)
        requires
            one_plus_square(self@, false)[0] != F::zero_spec(),
            root != F::zero_spec(),
            twice(root) != F::zero_spec(),
            forall|i: nat| 1 <= i <= N ==> #[trigger] multiple(F::one_spec(), i) != F::zero_spec(),
        ensures
            r@ == quotient_integral(
                primal,
                jet_derivative(self@),
                sqrt_coefficients(one_plus_square(self@, false), root, N as nat),
                N as nat,
            ),
    {
        let den = self.one_plus_square(false).sqrt_from(root);
        proof {
            lemma_sqrt_prefix(one_plus_square(self@, false), root, 0, N as nat);
            assert(den@[0] == den@.take(1)[0]);
        }
        Self::integrate_quotient(primal, &self.derivative(), &den)
    }

    /// The hyperbolic tangent of the jet, given that of its primal value:
    /// `tanh' = x'·(1 - tanh²)`. Each `1, …, N` must be nonzero in `F`.
    pub fn tanh_from(&self, primal: F) -> (r: Self)
        requires
            forall|i: nat| 1 <= i <= N ==> #[trigger] multiple(F::one_spec(), i) != F::zero_spec(),
        ensures
            r@ == tanh_coefficients(jet_derivative(self@), primal, N as nat),
    {
        let len = self.len();
        let dx = coefficients(&self.derivative());
        let mut out: Vec<F> = Vec::new();
        out.push(primal);
        let mut n: usize = 1;
        while n <= N
            invariant
                len == N + 1,
                dx@ == jet_derivative(self@),
                dx@.len() == N + 1,
                forall|i: nat| 1 <= i <= N ==> #[trigger] multiple(F::one_spec(), i) != F::zero_spec(),
                1 <= n <= N + 1,
                out@ == tanh_coefficients(dx@, primal, (n - 1) as nat),
                out@.len() == n,
            decreases N + 1 - n,
        {
            let slope = one_minus_square(&out);
            let sum = product_coefficient(&dx, &slope, n);
            let scale = F::from_nat(n);
            proof {
                assert(multiple(F::one_spec(), n as nat) != F::zero_spec());
            }
            out.push(sum.div(&scale));
            proof {
                lemma_tanh_prefix(dx@, primal, (n - 1) as nat, (n - 1) as nat);
            }
            n = n + 1;
        }
        Jet::from_coefficients(out)
    }

    /// The sine and cosine of the jet, given those of its primal value:
    /// `sin' = x'·cos` and `cos' = -x'·sin`. Each `1, …, N` must be nonzero
    /// in `F`.
    pub fn sin_cos_from(&self, sin_primal: F, cos_primal: F) -> (r: (Self, Self))
        requires
            forall|i: nat| 1 <= i <= N ==> #[trigger] multiple(F::one_spec(), i) != F::zero_spec(),
        ensures
            r.0@ == trig_coefficients(jet_derivative(self@), sin_primal, cos_primal, false, N as nat).0,
            r.1@ == trig_coefficients(jet_derivative(self@), sin_primal, cos_primal, false, N as nat).1,
    {
        self.trig_pair(sin_primal, cos_primal, false)
    }

    /// The hyperbolic sine and cosine of the jet, given those of its primal
    /// value: `sinh' = x'·cosh` and `cosh' = x'·sinh`. Each `1, …, N` must be
    /// nonzero in `F`.
    pub fn sinh_cosh_from(&self, sinh_primal: F, cosh_primal: F) -> (r: (Self, Self))
        requires
            forall|i: nat| 1 <= i <= N ==> #[trigger] multiple(F::one_spec(), i) != F::zero_spec(),
        ensures
            r.0@ == trig_coefficients(jet_derivative(self@), sinh_primal, cosh_primal, true, N as nat).0,
            r.1@ == trig_coefficients(jet_derivative(self@), sinh_primal, cosh_primal, true, N as nat).1,
    {
        self.trig_pair(sinh_primal, cosh_primal, true)
    }

    fn trig_pair(&self, s0: F, c0: F, hyperbolic: bool) -> (r: (Self, Self))
        requires
            forall|i: nat| 1 <= i <= N ==> #[trigger] multiple(F::one_spec(), i) != F::zero_spec(),
        ensures
            r.0@ == trig_coefficients(jet_derivative(self@), s0, c0, hyperbolic, N as nat).0,
            r.1@ == trig_coefficients(jet_derivative(self@), s0, c0, hyperbolic, N as nat).1,
    {
        let len = self.len();
        let dx = coefficients(&self.derivative());
        let mut s: Vec<F> = Vec::new();
        let mut c: Vec<F> = Vec::new();
        s.push(s0);
        c.push(c0);
        let mut n: usize = 1;
        while n <= N
            invariant
                len == N + 1,
                dx@ == jet_derivative(self@),
                dx@.len() == N + 1,
                forall|i: nat| 1 <= i <= N ==> #[trigger] multiple(F::one_spec(), i) != F::zero_spec(),
                1 <= n <= N + 1,
                s@ == trig_coefficients(dx@, s0, c0, hyperbolic, (n - 1) as nat).0,
                c@ == trig_coefficients(dx@, s0, c0, hyperbolic, (n - 1) as nat).1,
                s@.len() == n,
                c@.len() == n,
            decreases N + 1 - n,
        {
            let ds = product_coefficient(&dx, &c, n);
            let dc = product_coefficient(&dx, &s, n);
            let scale = F::from_nat(n);
            proof {
                assert(multiple(F::one_spec(), n as nat) != F::zero_spec());
            }
            let next_s = ds.div(&scale);
            let signed = if hyperbolic {
                dc
            } else {
                dc.neg()
            };
            let next_c = signed.div(&scale);
            s.push(next_s);
            c.push(next_c);
            n = n + 1;
        }
        (Jet::from_coefficients(s), Jet::from_coefficients(c))
    }
}

} // verus!
