//! Algebraic structures and the theorems connecting them.
//!
//! Each trait names the operations of a structure together with the laws
//! that make it that structure. The laws are proof obligations of every
//! implementor, so generic code can rely on them.
use vstd::prelude::*;

verus! {

/// An element of the carrier set of a group, ring, or manifold.
///
/// `Point` asserts only set membership: the ability to hold and duplicate
/// an element. Duplication is exact: the copy equals the original.
pub trait Point: Sized {
    fn duplicate(&self) -> (r: Self)
        ensures
            r == *self,
    ;
}

impl<T: Copy> Point for T {
    fn duplicate(&self) -> (r: Self) {
        *self
    }
}

/// A commutative monoid, in additive notation.
///
/// - **Identity**: `0 + m = m + 0 = m`
/// - **Associativity**: `(a + b) + c = a + (b + c)`
/// - **Commutativity**: `a + b = b + a`
pub trait CMonoid: Point + Sized {
    /// The additive identity.
    spec fn zero_spec() -> Self;

    /// The sum `self + other`.
    spec fn add_spec(self, other: Self) -> Self;

    fn zero() -> (z: Self)
        ensures
            z == Self::zero_spec(),
    ;

    fn is_zero(&self) -> (b: bool)
        ensures
            b == (*self == Self::zero_spec()),
    ;

    fn add(&self, other: &Self) -> (r: Self)
        ensures
            r == self.add_spec(*other),
    ;

    proof fn lemma_add_identity(a: Self)
        ensures
            Self::zero_spec().add_spec(a) == a,
            a.add_spec(Self::zero_spec()) == a,
    ;

    proof fn lemma_add_associative(a: Self, b: Self, c: Self)
        ensures
            a.add_spec(b).add_spec(c) == a.add_spec(b.add_spec(c)),
    ;

    proof fn lemma_add_commutative(a: Self, b: Self)
        ensures
            a.add_spec(b) == b.add_spec(a),
    ;
}

/// A monoid, in multiplicative notation, with no commutativity assumed.
///
/// - **Identity**: `1 * m = m * 1 = m`
/// - **Associativity**: `(a * b) * c = a * (b * c)`
pub trait Monoid: Point + Sized {
    /// The multiplicative identity.
    spec fn one_spec() -> Self;

    /// The product `self * other`.
    spec fn mul_spec(self, other: Self) -> Self;

    fn one() -> (o: Self)
        ensures
            o == Self::one_spec(),
    ;

    fn is_one(&self) -> (b: bool)
        ensures
            b == (*self == Self::one_spec()),
    ;

    fn mul(&self, other: &Self) -> (r: Self)
        ensures
            r == self.mul_spec(*other),
    ;

    proof fn lemma_mul_identity(a: Self)
        ensures
            Self::one_spec().mul_spec(a) == a,
            a.mul_spec(Self::one_spec()) == a,
    ;

    proof fn lemma_mul_associative(a: Self, b: Self, c: Self)
        ensures
            a.mul_spec(b).mul_spec(c) == a.mul_spec(b.mul_spec(c)),
    ;
}

/// `a` multiplied by itself `n` times: `a⁰ = 1`, `aⁿ⁺¹ = aⁿ · a`.
pub open spec fn power<M: Monoid>(a: M, n: nat) -> M
    decreases n,
{
    if n == 0 {
        M::one_spec()
    } else {
        power(a, (n - 1) as nat).mul_spec(a)
    }
}

/// `a` added to itself `n` times: `0·a = 0`, `(n+1)·a = n·a + a`.
pub open spec fn multiple<M: CMonoid>(a: M, n: nat) -> M
    decreases n,
{
    if n == 0 {
        M::zero_spec()
    } else {
        multiple(a, (n - 1) as nat).add_spec(a)
    }
}

/// Exponents add: `aᵐ⁺ⁿ = aᵐ · aⁿ`.
pub proof fn lemma_power_add<M: Monoid>(a: M, m: nat, n: nat)
    ensures
        power(a, m + n) == power(a, m).mul_spec(power(a, n)),
    decreases n,
{
    if n == 0 {
        M::lemma_mul_identity(power(a, m));
    } else {
        lemma_power_add(a, m, (n - 1) as nat);
        assert(power(a, m + n) == power(a, (m + n - 1) as nat).mul_spec(a));
        M::lemma_mul_associative(power(a, m), power(a, (n - 1) as nat), a);
    }
}

/// Exponents multiply: `(aᵐ)ⁿ = aᵐⁿ`.
pub proof fn lemma_power_power<M: Monoid>(a: M, m: nat, n: nat)
    ensures
        power(power(a, m), n) == power(a, m * n),
    decreases n,
{
    if n == 0 {
        assert(m * n == 0) by (nonlinear_arith)
            requires
                n == 0,
        ;
    } else {
        lemma_power_power(a, m, (n - 1) as nat);
        assert(m * n == m * (n - 1) + m) by (nonlinear_arith)
            requires
                n >= 1,
        ;
        lemma_power_add(a, m * ((n - 1) as nat), m);
    }
}

/// `1·a = a` and `2·a = a + a`.
pub proof fn lemma_multiple_small<M: CMonoid>(a: M)
    ensures
        multiple(a, 1) == a,
        multiple(a, 2) == a.add_spec(a),
{
    assert(multiple(a, 1) == multiple(a, 0).add_spec(a));
    M::lemma_add_identity(a);
    assert(multiple(a, 2) == multiple(a, 1).add_spec(a));
}

/// `a¹ = a` and `a² = a · a`.
pub proof fn lemma_power_small<M: Monoid>(a: M)
    ensures
        power(a, 1) == a,
        power(a, 2) == a.mul_spec(a),
{
    assert(power(a, 1) == power(a, 0).mul_spec(a));
    M::lemma_mul_identity(a);
    assert(power(a, 2) == power(a, 1).mul_spec(a));
}

/// Multiples add: `(m + n)·a = m·a + n·a`.
pub proof fn lemma_multiple_add<M: CMonoid>(a: M, m: nat, n: nat)
    ensures
        multiple(a, m + n) == multiple(a, m).add_spec(multiple(a, n)),
    decreases n,
{
    if n == 0 {
        M::lemma_add_identity(multiple(a, m));
    } else {
        lemma_multiple_add(a, m, (n - 1) as nat);
        assert(multiple(a, m + n) == multiple(a, (m + n - 1) as nat).add_spec(a));
        M::lemma_add_associative(multiple(a, m), multiple(a, (n - 1) as nat), a);
    }
}

/// Multiples of a multiple: `n·(m·a) = (mn)·a`.
pub proof fn lemma_multiple_multiple<M: CMonoid>(a: M, m: nat, n: nat)
    ensures
        multiple(multiple(a, m), n) == multiple(a, m * n),
    decreases n,
{
    if n == 0 {
        assert(m * n == 0) by (nonlinear_arith)
            requires
                n == 0,
        ;
    } else {
        lemma_multiple_multiple(a, m, (n - 1) as nat);
        assert(m * n == m * (n - 1) + m) by (nonlinear_arith)
            requires
                n >= 1,
        ;
        lemma_multiple_add(a, m * ((n - 1) as nat), m);
    }
}


/// An abelian group, in additive notation: a [`CMonoid`] with inverses.
///
/// - **Inverses**: `(-g) + g = g + (-g) = 0`
/// - **Subtraction**: `a - b = a + (-b)`
pub trait CGroup: CMonoid {
    /// The additive inverse `-self`.
    spec fn neg_spec(self) -> Self;

    fn neg(&self) -> (r: Self)
        ensures
            r == self.neg_spec(),
    ;

    fn sub(&self, other: &Self) -> (r: Self)
        ensures
            r == self.add_spec(other.neg_spec()),
    ;

    proof fn lemma_add_inverse(a: Self)
        ensures
            a.neg_spec().add_spec(a) == Self::zero_spec(),
            a.add_spec(a.neg_spec()) == Self::zero_spec(),
    ;
}

/// A commutative semiring ("rig"): a [`CMonoid`] and a [`Monoid`] connected by
/// distributivity, with zero absorbing.
///
/// - **Distributivity**: `a * (b + c) = (a*b) + (a*c)`, and symmetrically
/// - **Annihilation**: `0 * r = r * 0 = 0`
pub trait Rig: CMonoid + Monoid {
    proof fn lemma_distributive(a: Self, b: Self, c: Self)
        ensures
            a.mul_spec(b.add_spec(c)) == a.mul_spec(b).add_spec(a.mul_spec(c)),
            a.add_spec(b).mul_spec(c) == a.mul_spec(c).add_spec(b.mul_spec(c)),
    ;

    proof fn lemma_annihilation(a: Self)
        ensures
            Self::zero_spec().mul_spec(a) == Self::zero_spec(),
            a.mul_spec(Self::zero_spec()) == Self::zero_spec(),
    ;
}

/// A ring: a [`Rig`] whose addition has inverses.
pub trait Ring: CGroup + Rig {}

impl<R: CGroup + Rig> Ring for R {}

/// A (possibly non-abelian) group in multiplicative notation: a [`Monoid`]
/// in which every element has an inverse.
///
/// - **Inverses**: `g⁻¹ * g == g * g⁻¹ == 1`
pub trait MulGroup: Monoid {
    spec fn inv_spec(self) -> Self;

    fn inv(&self) -> (r: Self)
        ensures
            r == self.inv_spec(),
    ;

    proof fn lemma_mul_inverse(a: Self)
        ensures
            a.inv_spec().mul_spec(a) == Self::one_spec(),
            a.mul_spec(a.inv_spec()) == Self::one_spec(),
    ;
}

/// A division ring: a [`Ring`] whose nonzero elements are invertible.
pub trait DivRing: Ring {
    /// The multiplicative inverse of a nonzero element.
    spec fn recip_spec(self) -> Self;

    fn recip(&self) -> (r: Self)
        requires
            *self != Self::zero_spec(),
        ensures
            r == self.recip_spec(),
    ;

    proof fn lemma_recip(a: Self)
        requires
            a != Self::zero_spec(),
        ensures
            a.recip_spec().mul_spec(a) == Self::one_spec(),
            a.mul_spec(a.recip_spec()) == Self::one_spec(),
    ;

    /// A division ring is not the zero ring.
    proof fn lemma_nontrivial()
        ensures
            Self::one_spec() != Self::zero_spec(),
    ;

    /// Divides by a nonzero `rhs` using its multiplicative inverse.
    fn div(&self, rhs: &Self) -> (r: Self)
        requires
            *rhs != Self::zero_spec(),
        ensures
            r == self.mul_spec(rhs.recip_spec()),
    {
        let inverse = rhs.recip();
        self.mul(&inverse)
    }
}


/// A type-level natural number (Peano encoding).
///
/// Used to carry a [`Field`]'s characteristic in the type system.
pub trait Nat {
    /// The numeral the type denotes: `NatZero` is `0`, `Succ<M>` is `M + 1`.
    spec fn value() -> nat;

    /// The numeral as a machine integer.
    fn numeral() -> (r: usize)
        requires
            Self::value() <= usize::MAX,
        ensures
            r == Self::value(),
    ;
}

/// The successor `n + 1` at the type level.
pub struct Succ<N: Nat>(pub N);

/// Type-level zero, the base of the [`Nat`] tower.
///
/// A unit type: Verus accepts no enum without variants.
pub struct NatZero;

impl Nat for NatZero {
    open spec fn value() -> nat {
        0
    }

    fn numeral() -> (r: usize) {
        0
    }
}

impl<M: Nat> Nat for Succ<M> {
    open spec fn value() -> nat {
        M::value() + 1
    }

    fn numeral() -> (r: usize) {
        M::numeral() + 1
    }
}

/// A field: a division ring with an elected anti-automorphic involution
/// `conj` and a characteristic.
///
/// "Field" here includes skew (noncommutative) fields. The fixed subfield of
/// `conj` is carried by [`InvolutiveField`].
pub trait Field: DivRing + Copy {
    /// The field's characteristic, as a type-level [`Nat`].
    type Characteristic: Nat;

    spec fn conj_spec(self) -> Self;

    /// The conjugation operation.
    fn conj(&self) -> (r: Self)
        ensures
            r == self.conj_spec(),
    ;

    /// Exact equality of field elements.
    fn equals(&self, other: &Self) -> (b: bool)
        ensures
            b == (*self == *other),
    ;

    /// `conj` respects addition.
    proof fn lemma_conj_additive(a: Self, b: Self)
        ensures
            a.add_spec(b).conj_spec() == a.conj_spec().add_spec(b.conj_spec()),
    ;

    /// `conj` reverses multiplication.
    proof fn lemma_conj_multiplicative(a: Self, b: Self)
        ensures
            a.mul_spec(b).conj_spec() == b.conj_spec().mul_spec(a.conj_spec()),
    ;

    /// `conj` fixes the unit.
    proof fn lemma_conj_unit()
        ensures
            Self::one_spec().conj_spec() == Self::one_spec(),
    ;

    /// `conj ∘ conj = id`.
    proof fn lemma_conj_involution(a: Self)
        ensures
            a.conj_spec().conj_spec() == a,
    ;

    /// The declared characteristic agrees with the arithmetic: `k·1 ≠ 0` for
    /// `0 < k`, below the characteristic when it is positive, and `p·1 = 0`
    /// at the characteristic `p`.
    proof fn lemma_characteristic(k: nat)
        ensures
            0 < k && (Self::Characteristic::value() == 0 || k < Self::Characteristic::value()) ==> multiple(
                Self::one_spec(),
                k,
            ) != Self::zero_spec(),
            Self::Characteristic::value() != 0 ==> multiple(
                Self::one_spec(),
                Self::Characteristic::value(),
            ) == Self::zero_spec(),
    ;

    /// `self` raised to the `s`-th power, by repeated squaring.
    fn powi(&self, s: usize) -> (r: Self)
        ensures
            r == power(*self, s as nat),
    {
        let mut base = *self;
        let mut result = Self::one();
        let mut s = s;
        let ghost s0 = s as nat;
        proof {
            Self::lemma_mul_identity(power(*self, s0));
            lemma_power_power(*self, 1, s as nat);
            Self::lemma_mul_identity(*self);
            assert(power(*self, 1) == *self) by {
                assert(power(*self, 1) == power(*self, 0).mul_spec(*self));
            }
        }
        while s != 0
            invariant
                result.mul_spec(power(base, s as nat)) == power(*self, s0),
                exists|e: nat| base == power(*self, e),
            decreases s,
        {
            let ghost e = choose|e: nat| base == power(*self, e);
            let ghost old_s = s as nat;
            let ghost old_result = result;
            let ghost old_base = base;
            proof {
                lemma_power_power(*self, e, 2);
                assert(power(old_base, 2) == old_base.mul_spec(old_base)) by {
                    assert(power(old_base, 1) == power(old_base, 0).mul_spec(old_base));
                    Self::lemma_mul_identity(old_base);
                }
                lemma_power_power(old_base, 2, old_s / 2);
                lemma_power_add(old_base, 1, 2 * (old_s / 2));
                assert(power(old_base, 1) == old_base) by {
                    assert(power(old_base, 1) == power(old_base, 0).mul_spec(old_base));
                    Self::lemma_mul_identity(old_base);
                }
            }
            if s & 1 != 0 {
                assert(s & 1 != 0 ==> s % 2 == 1) by (bit_vector);
                result = result.mul(&base);
                proof {
                    Self::lemma_mul_associative(
                        old_result,
                        old_base,
                        power(old_base, 2 * (old_s / 2)),
                    );
                }
            } else {
                assert(s & 1 == 0 ==> s % 2 == 0) by (bit_vector);
            }
            base = base.mul(&base);
            assert(s >> 1 == s / 2) by (bit_vector);
            s = s >> 1;
            proof {
                assert(base == power(*self, e * 2));
            }
        }
        proof {
            Self::lemma_mul_identity(result);
        }
        result
    }

    /// Audits the declared characteristic against the arithmetic, as far as
    /// `bound` allows: `k·1 ≠ 0` for each `0 < k < bound` below the
    /// characteristic, and, when the characteristic `p` is at most `bound`,
    /// `p·1 = 0`; otherwise `bound·1 ≠ 0`. Every field passes: the result is
    /// always `true`, by [`Field::lemma_characteristic`].
    fn check_characteristic_up_to(bound: usize) -> (r: bool)
        requires
            Self::Characteristic::value() <= usize::MAX,
        ensures
            r,
    {
        let p = Self::Characteristic::numeral();
        let bound = if p == 0 || bound < p {
            bound
        } else {
            p
        };
        let mut acc = Self::zero();
        let mut k: usize = 1;
        proof {
            assert(multiple(Self::one_spec(), 0) == Self::zero_spec());
        }
        while k < bound
            invariant
                p == Self::Characteristic::value(),
                p == 0 || bound <= p,
                1 <= k,
                k <= bound || (bound == 0 && k == 1),
                acc == multiple(Self::one_spec(), (k - 1) as nat),
            decreases bound - k,
        {
            acc = acc.add(&Self::one());
            proof {
                assert(multiple(Self::one_spec(), k as nat) == multiple(Self::one_spec(), (k - 1) as nat).add_spec(
                    Self::one_spec(),
                ));
                Self::lemma_characteristic(k as nat);
                assert(acc != Self::zero_spec());
            }
            if acc.equals(&Self::zero()) {
                return false;
            }
            k = k + 1;
        }
        let next = acc.add(&Self::one());
        proof {
            if bound == 0 {
                Self::lemma_add_identity(Self::one_spec());
                Self::lemma_nontrivial();
                assert(next != Self::zero_spec());
            } else {
                assert(k == bound);
                assert(multiple(Self::one_spec(), bound as nat) == multiple(Self::one_spec(), (bound - 1) as nat).add_spec(
                    Self::one_spec(),
                ));
                assert(next == multiple(Self::one_spec(), bound as nat));
                Self::lemma_characteristic(bound as nat);
                if bound == p {
                    assert(next == Self::zero_spec());
                } else {
                    assert(p == Self::Characteristic::value());
                    assert(Self::Characteristic::value() == 0 || (bound as nat) < Self::Characteristic::value());
                    assert(multiple(Self::one_spec(), bound as nat) != Self::zero_spec());
                    assert(next != Self::zero_spec());
                }
            }
        }
        if bound != 0 && bound == p {
            next.equals(&Self::zero())
        } else {
            !next.equals(&Self::zero())
        }
    }

    /// The natural number `n`, as `n·1` in this field, by binary doubling.
    fn from_nat(n: usize) -> (r: Self)
        ensures
            r == multiple(Self::one_spec(), n as nat),
    {
        let mut result = Self::zero();
        let mut current = Self::one();
        let mut n = n;
        let ghost n0 = n as nat;
        let ghost one = Self::one_spec();
        proof {
            Self::lemma_add_identity(multiple(one, n0));
            lemma_multiple_multiple(one, 1, n0);
            lemma_multiple_small(one);
        }
        while n != 0
            invariant
                result.add_spec(multiple(current, n as nat)) == multiple(one, n0),
                exists|e: nat| current == multiple(one, e),
                one == Self::one_spec(),
            decreases n,
        {
            let ghost e = choose|e: nat| current == multiple(one, e);
            let ghost old_n = n as nat;
            let ghost old_result = result;
            let ghost old_current = current;
            proof {
                lemma_multiple_multiple(one, e, 2);
                lemma_multiple_small(old_current);
                lemma_multiple_multiple(old_current, 2, old_n / 2);
                lemma_multiple_add(old_current, 1, 2 * (old_n / 2));
                lemma_multiple_add(old_current, 2 * (old_n / 2), 1);
            }
            if n & 1 == 1 {
                assert(n & 1 == 1 ==> n % 2 == 1) by (bit_vector);
                result = result.add(&current);
                proof {
                    Self::lemma_add_associative(
                        old_result,
                        old_current,
                        multiple(old_current, 2 * (old_n / 2)),
                    );
                }
            } else {
                assert(n & 1 != 1 ==> n % 2 == 0) by (bit_vector);
            }
            current = current.add(&current);
            assert(n >> 1 == n / 2) by (bit_vector);
            n = n >> 1;
            proof {
                assert(current == multiple(one, e * 2));
            }
        }
        proof {
            Self::lemma_add_identity(result);
        }
        result
    }

}

/// A field whose multiplication commutes.
pub trait CField: Field {
    proof fn lemma_mul_commutative(a: Self, b: Self)
        ensures
            a.mul_spec(b) == b.mul_spec(a),
    ;
}


/// A field together with the fixed subfield of its involution.
///
/// `from_fixed` embeds the fixed subfield: it preserves the field operations,
/// lands among the `conj`-fixed elements, and commutes with every element.
pub trait InvolutiveField: Field {
    /// A distinguished central subfield fixed pointwise by [`Field::conj`].
    type Fixed: CField;

    spec fn to_fixed_spec(self) -> Self::Fixed;

    spec fn from_fixed_spec(x: Self::Fixed) -> Self;

    /// Drops a self-adjoint element into the fixed subfield.
    fn to_fixed(self) -> (r: Self::Fixed)
        ensures
            r == self.to_fixed_spec(),
    ;

    /// Embeds the fixed subfield.
    fn from_fixed(x: Self::Fixed) -> (r: Self)
        ensures
            r == Self::from_fixed_spec(x),
    ;

    /// `from_fixed` respects addition and multiplication.
    proof fn lemma_from_fixed_homomorphism(x: Self::Fixed, y: Self::Fixed)
        ensures
            Self::from_fixed_spec(x.add_spec(y)) == Self::from_fixed_spec(x).add_spec(
                Self::from_fixed_spec(y),
            ),
            Self::from_fixed_spec(x.mul_spec(y)) == Self::from_fixed_spec(x).mul_spec(
                Self::from_fixed_spec(y),
            ),
    ;

    /// A self-adjoint element drops into `Fixed` and comes back unchanged.
    proof fn lemma_descent(x: Self)
        requires
            x.conj_spec() == x,
        ensures
            Self::from_fixed_spec(x.to_fixed_spec()) == x,
    ;

    /// The image of `from_fixed` is fixed by `conj` and central.
    proof fn lemma_from_fixed_is_fixed_and_central(x: Self::Fixed, y: Self)
        ensures
            Self::from_fixed_spec(x).conj_spec() == Self::from_fixed_spec(x),
            Self::from_fixed_spec(x).mul_spec(y) == y.mul_spec(Self::from_fixed_spec(x)),
    ;

    /// `from_fixed` preserves the unit whenever `Fixed` is nondegenerate.
    proof fn lemma_from_fixed_unit()
        ensures
            <Self::Fixed as Field>::Characteristic::value() == 1 || Self::from_fixed_spec(
                <Self::Fixed as Monoid>::one_spec(),
            ) == Self::one_spec(),
    ;

    /// `|x|² = x · conj(x)`, dropped into the fixed subfield.
    fn norm_squared(self) -> (r: Self::Fixed)
        ensures
            r == self.mul_spec(self.conj_spec()).to_fixed_spec(),
    {
        let c = self.conj();
        let p = self.mul(&c);
        p.to_fixed()
    }
}


/// A group, spelled with operator-agnostic named methods.
///
/// `member` is the carrier: a representation may hold values outside the
/// group (a `NonZero` that is zero exists only as a ghost), and the laws
/// speak of members only.
///
/// - **Identity**: `identity().compose(&g) == g.compose(&identity()) == g`
/// - **Inverses**: `g.inverse().compose(&g) == g.compose(&g.inverse()) == identity()`
/// - **Associativity**: `a.compose(&b).compose(&c) == a.compose(&b.compose(&c))`
pub trait Group: Point + Sized {
    spec fn member(self) -> bool;

    spec fn identity_spec() -> Self;

    spec fn compose_spec(self, other: Self) -> Self;

    spec fn inverse_spec(self) -> Self;

    fn identity() -> (r: Self)
        ensures
            r == Self::identity_spec(),
    ;

    fn compose(&self, other: &Self) -> (r: Self)
        ensures
            r == self.compose_spec(*other),
    ;

    fn inverse(&self) -> (r: Self)
        ensures
            r == self.inverse_spec(),
    ;

    /// The carrier is closed under the group operations.
    proof fn lemma_closed(a: Self, b: Self)
        requires
            a.member(),
            b.member(),
        ensures
            Self::identity_spec().member(),
            a.compose_spec(b).member(),
            a.inverse_spec().member(),
    ;

    proof fn lemma_identity(a: Self)
        requires
            a.member(),
        ensures
            Self::identity_spec().compose_spec(a) == a,
            a.compose_spec(Self::identity_spec()) == a,
    ;

    proof fn lemma_associative(a: Self, b: Self, c: Self)
        requires
            a.member(),
            b.member(),
            c.member(),
        ensures
            a.compose_spec(b).compose_spec(c) == a.compose_spec(b.compose_spec(c)),
    ;

    proof fn lemma_inverse(a: Self)
        requires
            a.member(),
        ensures
            a.inverse_spec().compose_spec(a) == Self::identity_spec(),
            a.compose_spec(a.inverse_spec()) == Self::identity_spec(),
    ;
}

/// A division ring has no zero divisors: a product of nonzero elements is
/// nonzero.
pub proof fn lemma_no_zero_divisors<F: DivRing>(a: F, b: F)
    requires
        a != F::zero_spec(),
        b != F::zero_spec(),
    ensures
        a.mul_spec(b) != F::zero_spec(),
{
    if a.mul_spec(b) == F::zero_spec() {
        F::lemma_recip(a);
        F::lemma_mul_associative(a.recip_spec(), a, b);
        F::lemma_mul_identity(b);
        F::lemma_annihilation(a.recip_spec());
    }
}

/// The inverse of a nonzero element is nonzero.
pub proof fn lemma_recip_nonzero<F: DivRing>(a: F)
    requires
        a != F::zero_spec(),
    ensures
        a.recip_spec() != F::zero_spec(),
{
    F::lemma_recip(a);
    F::lemma_annihilation(a);
    F::lemma_nontrivial();
}

/// A value certified to be nonzero.
pub struct NonZero<T: CMonoid>(T);

impl<T: CMonoid> NonZero<T> {
    #[verifier::type_invariant]
    spec fn nonzero(self) -> bool {
        self.0 != T::zero_spec()
    }

    /// The certified value.
    pub closed spec fn value(self) -> T {
        self.0
    }

    /// Certifies that `value` is nonzero.
    ///
    /// Returns `None` when `value` is zero.
    pub fn new(value: T) -> (r: Option<Self>)
        ensures
            r is Some <==> value != T::zero_spec(),
            r matches Some(nz) ==> nz.value() == value,
    {
        if !value.is_zero() {
            Some(NonZero(value))
        } else {
            None
        }
    }

    /// Constructs a certified nonzero value from one known to be nonzero.
    pub fn new_unchecked(value: T) -> (r: Self)
        requires
            value != T::zero_spec(),
        ensures
            r.value() == value,
    {
        NonZero(value)
    }

    /// The certified value.
    pub fn get(&self) -> (r: &T)
        ensures
            *r == self.value(),
    {
        &self.0
    }

    /// A certified value is nonzero.
    pub fn is_nonzero(&self) -> (b: bool)
        ensures
            b,
            self.value() != T::zero_spec(),
    {
        proof {
            use_type_invariant(self);
        }
        true
    }
}

impl<T: CMonoid + Copy> Clone for NonZero<T> {
    fn clone(&self) -> (r: Self)
        ensures
            r == *self,
    {
        proof {
            use_type_invariant(self);
        }
        NonZero(self.0)
    }
}

impl<T: CMonoid + Copy> Copy for NonZero<T> {}

/// The nonzero elements of a division ring, under multiplication.
impl<F: DivRing + Copy> NonZero<F> {
    /// The unit `1`, which is nonzero in a division ring.
    pub fn one() -> (r: Self)
        ensures
            r.value() == F::one_spec(),
    {
        proof {
            F::lemma_nontrivial();
        }
        NonZero(F::one())
    }

    /// The product of two nonzero elements, which is nonzero.
    pub fn mul(&self, rhs: &Self) -> (r: Self)
        ensures
            r.value() == self.value().mul_spec(rhs.value()),
    {
        proof {
            use_type_invariant(self);
            use_type_invariant(rhs);
            lemma_no_zero_divisors(self.0, rhs.0);
        }
        NonZero(self.0.mul(&rhs.0))
    }

    /// The multiplicative inverse, which is nonzero.
    pub fn inv(&self) -> (r: Self)
        ensures
            r.value() == self.value().recip_spec(),
    {
        proof {
            use_type_invariant(self);
            lemma_recip_nonzero(self.0);
        }
        NonZero(self.0.recip())
    }
}

impl<F: DivRing + Copy> NonZero<F> {
    /// The group structure of [`NonZero`] in terms of the division ring.
    pub proof fn lemma_group_spec(a: Self, b: Self)
        ensures
            a.member() <==> a.value() != F::zero_spec(),
            Self::identity_spec().value() == F::one_spec(),
            a.compose_spec(b).value() == a.value().mul_spec(b.value()),
            a.inverse_spec().value() == a.value().recip_spec(),
    {
    }
}

impl<F: DivRing + Copy> Group for NonZero<F> {
    closed spec fn member(self) -> bool {
        self.value() != F::zero_spec()
    }

    closed spec fn identity_spec() -> Self {
        NonZero(F::one_spec())
    }

    closed spec fn compose_spec(self, other: Self) -> Self {
        NonZero(self.value().mul_spec(other.value()))
    }

    closed spec fn inverse_spec(self) -> Self {
        NonZero(self.value().recip_spec())
    }

    fn identity() -> (r: Self) {
        NonZero::<F>::one()
    }

    fn compose(&self, other: &Self) -> (r: Self) {
        self.mul(other)
    }

    fn inverse(&self) -> (r: Self) {
        self.inv()
    }

    proof fn lemma_closed(a: Self, b: Self) {
        F::lemma_nontrivial();
        lemma_no_zero_divisors(a.value(), b.value());
        lemma_recip_nonzero(a.value());
    }

    proof fn lemma_identity(a: Self) {
        F::lemma_mul_identity(a.value());
    }

    proof fn lemma_associative(a: Self, b: Self, c: Self) {
        F::lemma_mul_associative(a.value(), b.value(), c.value());
    }

    proof fn lemma_inverse(a: Self) {
        F::lemma_recip(a.value());
    }
}


/// A commutative field `F` with its involution trivialised: `conj = id`,
/// hence `Fixed = Self`.
///
/// It shares every algebraic fact with the inner `F` except the involution.
/// The construction is valid only for commutative fields, since a trivial
/// anti-automorphism forces `ab = ba`.
#[derive(Clone, Copy)]
pub struct Symmetrized<F: CField>(pub F);

impl<F: CField> CMonoid for Symmetrized<F> {
    open spec fn zero_spec() -> Self {
        Symmetrized(F::zero_spec())
    }

    open spec fn add_spec(self, other: Self) -> Self {
        Symmetrized(self.0.add_spec(other.0))
    }

    fn zero() -> (z: Self) {
        Symmetrized(F::zero())
    }

    fn is_zero(&self) -> (b: bool) {
        self.0.is_zero()
    }

    fn add(&self, other: &Self) -> (r: Self) {
        Symmetrized(self.0.add(&other.0))
    }

    proof fn lemma_add_identity(a: Self) {
        F::lemma_add_identity(a.0);
    }

    proof fn lemma_add_associative(a: Self, b: Self, c: Self) {
        F::lemma_add_associative(a.0, b.0, c.0);
    }

    proof fn lemma_add_commutative(a: Self, b: Self) {
        F::lemma_add_commutative(a.0, b.0);
    }
}

impl<F: CField> Monoid for Symmetrized<F> {
    open spec fn one_spec() -> Self {
        Symmetrized(F::one_spec())
    }

    open spec fn mul_spec(self, other: Self) -> Self {
        Symmetrized(self.0.mul_spec(other.0))
    }

    fn one() -> (o: Self) {
        Symmetrized(F::one())
    }

    fn is_one(&self) -> (b: bool) {
        self.0.is_one()
    }

    fn mul(&self, other: &Self) -> (r: Self) {
        Symmetrized(self.0.mul(&other.0))
    }

    proof fn lemma_mul_identity(a: Self) {
        F::lemma_mul_identity(a.0);
    }

    proof fn lemma_mul_associative(a: Self, b: Self, c: Self) {
        F::lemma_mul_associative(a.0, b.0, c.0);
    }
}

impl<F: CField> CGroup for Symmetrized<F> {
    open spec fn neg_spec(self) -> Self {
        Symmetrized(self.0.neg_spec())
    }

    fn neg(&self) -> (r: Self) {
        Symmetrized(self.0.neg())
    }

    fn sub(&self, other: &Self) -> (r: Self) {
        Symmetrized(self.0.sub(&other.0))
    }

    proof fn lemma_add_inverse(a: Self) {
        F::lemma_add_inverse(a.0);
    }
}

impl<F: CField> Rig for Symmetrized<F> {
    proof fn lemma_distributive(a: Self, b: Self, c: Self) {
        F::lemma_distributive(a.0, b.0, c.0);
    }

    proof fn lemma_annihilation(a: Self) {
        F::lemma_annihilation(a.0);
    }
}

impl<F: CField> DivRing for Symmetrized<F> {
    open spec fn recip_spec(self) -> Self {
        Symmetrized(self.0.recip_spec())
    }

    fn recip(&self) -> (r: Self) {
        Symmetrized(self.0.recip())
    }

    proof fn lemma_recip(a: Self) {
        F::lemma_recip(a.0);
    }

    proof fn lemma_nontrivial() {
        F::lemma_nontrivial();
    }
}

impl<F: CField> Symmetrized<F> {
    /// Multiples are computed in the inner field.
    pub proof fn lemma_multiple(a: F, k: nat)
        ensures
            multiple(Symmetrized(a), k) == Symmetrized(multiple(a, k)),
        decreases k,
    {
        if k > 0 {
            Self::lemma_multiple(a, (k - 1) as nat);
        }
    }
}

impl<F: CField> Field for Symmetrized<F> {
    type Characteristic = F::Characteristic;

    open spec fn conj_spec(self) -> Self {
        self
    }

    fn conj(&self) -> (r: Self) {
        *self
    }

    fn equals(&self, other: &Self) -> (b: bool) {
        self.0.equals(&other.0)
    }

    proof fn lemma_conj_additive(a: Self, b: Self) {
    }

    proof fn lemma_conj_multiplicative(a: Self, b: Self) {
        F::lemma_mul_commutative(a.0, b.0);
    }

    proof fn lemma_conj_unit() {
    }

    proof fn lemma_conj_involution(a: Self) {
    }

    proof fn lemma_characteristic(k: nat) {
        F::lemma_characteristic(k);
        Self::lemma_multiple(F::one_spec(), k);
        Self::lemma_multiple(F::one_spec(), F::Characteristic::value());
        assert(Self::one_spec() == Symmetrized(F::one_spec()));
        assert(Self::zero_spec() == Symmetrized(F::zero_spec()));
        assert(multiple(Self::one_spec(), k) == Symmetrized(multiple(F::one_spec(), k)));
    }
}

impl<F: CField> CField for Symmetrized<F> {
    proof fn lemma_mul_commutative(a: Self, b: Self) {
        F::lemma_mul_commutative(a.0, b.0);
    }
}

impl<F: CField> InvolutiveField for Symmetrized<F> {
    type Fixed = Self;

    open spec fn to_fixed_spec(self) -> Self {
        self
    }

    open spec fn from_fixed_spec(x: Self) -> Self {
        x
    }

    fn to_fixed(self) -> (r: Self) {
        self
    }

    fn from_fixed(x: Self) -> (r: Self) {
        x
    }

    proof fn lemma_from_fixed_homomorphism(x: Self, y: Self) {
    }

    proof fn lemma_descent(x: Self) {
    }

    proof fn lemma_from_fixed_is_fixed_and_central(x: Self, y: Self) {
        F::lemma_mul_commutative(x.0, y.0);
    }

    proof fn lemma_from_fixed_unit() {
    }
}


/// `0ⁿ = 0` for `n ≥ 1`.
pub proof fn lemma_power_zero<F: Rig>(n: nat)
    requires
        n >= 1,
    ensures
        power(F::zero_spec(), n) == F::zero_spec(),
{
    F::lemma_annihilation(power(F::zero_spec(), (n - 1) as nat));
}

/// An `N`-th root of unity in `F`: an element of the finite cyclic group `μ_N`.
///
/// Values are built only by [`RootOfUnity::new`], [`RootOfUnity::one`] and the
/// group operations, so every value is nonzero. As in any skew field, the
/// product of two roots of unity is again one only when they commute, so
/// multiplication is not re-checked.
pub struct RootOfUnity<F: Field, const N: usize>(F);

impl<F: Field, const N: usize> Clone for RootOfUnity<F, N> {
    fn clone(&self) -> (r: Self)
        ensures
            r == *self,
    {
        proof {
            use_type_invariant(self);
        }
        RootOfUnity(self.0)
    }
}

impl<F: Field, const N: usize> Copy for RootOfUnity<F, N> {}

impl<F: Field, const N: usize> RootOfUnity<F, N> {
    #[verifier::type_invariant]
    spec fn nonzero(self) -> bool {
        self.0 != F::zero_spec()
    }

    /// The underlying field element.
    pub closed spec fn value(self) -> F {
        self.0
    }

    /// Certifies that `x` is an `N`-th root of unity: `Some` exactly when
    /// `xᴺ = 1`.
    pub fn new(x: F) -> (r: Option<Self>)
        requires
            N != 0,
        ensures
            r is Some <==> power(x, N as nat) == F::one_spec(),
            r matches Some(root) ==> root.value() == x,
    {
        let mut acc = x;
        let mut i: usize = 1;
        proof {
            lemma_power_small(x);
        }
        while i < N
            invariant
                1 <= i <= N,
                acc == power(x, i as nat),
            decreases N - i,
        {
            acc = acc.mul(&x);
            i = i + 1;
        }
        if acc.is_one() {
            proof {
                if x == F::zero_spec() {
                    lemma_power_zero::<F>(N as nat);
                    F::lemma_nontrivial();
                }
            }
            Some(RootOfUnity(x))
        } else {
            None
        }
    }

    /// The unit root `1`.
    pub fn one() -> (r: Self)
        ensures
            r.value() == F::one_spec(),
    {
        proof {
            F::lemma_nontrivial();
        }
        RootOfUnity(F::one())
    }

    /// Whether this root is `1`.
    pub fn is_one(&self) -> (b: bool)
        ensures
            b == (self.value() == F::one_spec()),
    {
        self.0.is_one()
    }

    /// The product of two roots.
    pub fn mul(&self, rhs: &Self) -> (r: Self)
        ensures
            r.value() == self.value().mul_spec(rhs.value()),
    {
        proof {
            use_type_invariant(self);
            use_type_invariant(rhs);
            lemma_no_zero_divisors(self.0, rhs.0);
        }
        RootOfUnity(self.0.mul(&rhs.0))
    }

    /// The inverse root.
    pub fn inv(&self) -> (r: Self)
        ensures
            r.value() == self.value().recip_spec(),
    {
        proof {
            use_type_invariant(self);
            lemma_recip_nonzero(self.0);
        }
        RootOfUnity(self.0.recip())
    }

    /// Returns the underlying field element.
    pub fn inner(self) -> (r: F)
        ensures
            r == self.value(),
    {
        self.0
    }

    /// The group structure of [`RootOfUnity`] in terms of the field.
    pub proof fn lemma_group_spec(a: Self, b: Self)
        ensures
            a.member() <==> a.value() != F::zero_spec(),
            Self::identity_spec().value() == F::one_spec(),
            a.compose_spec(b).value() == a.value().mul_spec(b.value()),
            a.inverse_spec().value() == a.value().recip_spec(),
    {
    }
}

impl<F: Field, const N: usize> Group for RootOfUnity<F, N> {
    closed spec fn member(self) -> bool {
        self.value() != F::zero_spec()
    }

    closed spec fn identity_spec() -> Self {
        RootOfUnity(F::one_spec())
    }

    closed spec fn compose_spec(self, other: Self) -> Self {
        RootOfUnity(self.value().mul_spec(other.value()))
    }

    closed spec fn inverse_spec(self) -> Self {
        RootOfUnity(self.value().recip_spec())
    }

    fn identity() -> (r: Self) {
        RootOfUnity::<F, N>::one()
    }

    fn compose(&self, other: &Self) -> (r: Self) {
        self.mul(other)
    }

    fn inverse(&self) -> (r: Self) {
        self.inv()
    }

    proof fn lemma_closed(a: Self, b: Self) {
        F::lemma_nontrivial();
        lemma_no_zero_divisors(a.value(), b.value());
        lemma_recip_nonzero(a.value());
    }

    proof fn lemma_identity(a: Self) {
        F::lemma_mul_identity(a.value());
    }

    proof fn lemma_associative(a: Self, b: Self, c: Self) {
        F::lemma_mul_associative(a.value(), b.value(), c.value());
    }

    proof fn lemma_inverse(a: Self) {
        F::lemma_recip(a.value());
    }
}

/// A primitive `N`-th root of unity: one whose powers `x⁰, …, xᴺ⁻¹` are all
/// of `μ_N`, i.e. `xᴺ = 1` and no lower positive power is `1`.
pub struct RootOfUnityPrimitive<F: Field, const N: usize>(RootOfUnity<F, N>);

impl<F: Field, const N: usize> RootOfUnityPrimitive<F, N> {
    /// The generator.
    pub closed spec fn value(self) -> F {
        self.0.value()
    }

    /// Whether `x` is a primitive `N`-th root of unity.
    pub open spec fn is_primitive(x: F) -> bool {
        &&& power(x, N as nat) == F::one_spec()
        &&& forall|k: nat| 0 < k < N ==> power(x, k) != F::one_spec()
    }

    /// Certifies that `x` is a primitive `N`-th root of unity.
    ///
    /// Returns `None` when an earlier positive power of `x` is one or when
    /// `xᴺ ≠ 1`.
    pub fn new(x: F) -> (r: Option<Self>)
        requires
            N != 0,
        ensures
            r is Some <==> Self::is_primitive(x),
            r matches Some(root) ==> root.value() == x,
    {
        let mut root = F::one();
        let mut n: usize = 0;
        while n < N
            invariant
                n <= N,
                root == power(x, n as nat),
                forall|k: nat| 0 < k <= n ==> power(x, k) != F::one_spec(),
            decreases N - n,
        {
            let p = root.mul(&x);
            assert(p == power(x, (n + 1) as nat));
            if n == N - 1 {
                if !p.is_one() {
                    return None;
                }
                proof {
                    if x == F::zero_spec() {
                        lemma_power_zero::<F>(N as nat);
                        F::lemma_nontrivial();
                    }
                }
                return Some(RootOfUnityPrimitive(RootOfUnity(x)));
            } else {
                if p.is_one() {
                    return None;
                }
            }
            root = p;
            n = n + 1;
        }
        None
    }

    /// Returns this generator as an ordinary [`RootOfUnity`].
    pub fn inner(&self) -> (r: RootOfUnity<F, N>)
        ensures
            r.value() == self.value(),
    {
        self.0
    }

    /// The cyclic group generated by this primitive root, as
    /// `[x⁰, x¹, …, xᴺ⁻¹]`.
    pub fn roots_of_unity(&self) -> (r: Vec<RootOfUnity<F, N>>)
        ensures
            r.len() == N,
            forall|k: int| 0 <= k < N ==> #[trigger] r[k].value() == power(self.value(), k as nat),
    {
        let mut acc = RootOfUnity::<F, N>::one();
        let mut out: Vec<RootOfUnity<F, N>> = Vec::new();
        let mut i: usize = 0;
        while i < N
            invariant
                i <= N,
                out.len() == i,
                acc.value() == power(self.value(), i as nat),
                forall|k: int| 0 <= k < i ==> #[trigger] out[k].value() == power(self.value(), k as nat),
            decreases N - i,
        {
            out.push(acc);
            acc = acc.mul(&self.0);
            i = i + 1;
        }
        out
    }
}


/// A Lie group: a group with an exponential map and a logarithm at the
/// identity, coordinatised by the tangent space `V`.
///
/// `identity_exp` lands in the group, and `identity_log` inverts it wherever
/// it is defined.
pub trait LieGroup<V: CMonoid>: Group {
    spec fn identity_exp_spec(v: V) -> Self;

    spec fn identity_log_spec(p: Self) -> Option<V>;

    fn identity_exp(v: V) -> (r: Self)
        ensures
            r == Self::identity_exp_spec(v),
    ;

    fn identity_log(p: &Self) -> (r: Option<V>)
        ensures
            r == Self::identity_log_spec(*p),
    ;

    proof fn lemma_exp_log(v: V, p: Self)
        ensures
            Self::identity_exp_spec(v).member(),
            Self::identity_exp_spec(V::zero_spec()) == Self::identity_spec(),
            Self::identity_log_spec(Self::identity_spec()) == Some(V::zero_spec()),
            p.member() && Self::identity_log_spec(p) is Some ==> Self::identity_exp_spec(
                Self::identity_log_spec(p)->0,
            ) == p,
    ;
}

/// The roots of unity form a zero-dimensional Lie group: `exp` is constant
/// and only the identity has a logarithm.
impl<F: Field, V: CMonoid, const N: usize> LieGroup<V> for RootOfUnity<F, N> {
    closed spec fn identity_exp_spec(v: V) -> Self {
        RootOfUnity(F::one_spec())
    }

    closed spec fn identity_log_spec(p: Self) -> Option<V> {
        if p.value() == F::one_spec() {
            Some(V::zero_spec())
        } else {
            None
        }
    }

    fn identity_exp(v: V) -> (r: Self) {
        RootOfUnity::<F, N>::one()
    }

    fn identity_log(p: &Self) -> (r: Option<V>) {
        if p.is_one() {
            Some(V::zero())
        } else {
            None
        }
    }

    proof fn lemma_exp_log(v: V, p: Self) {
        F::lemma_nontrivial();
    }
}

impl<F: Field, const N: usize> RootOfUnity<F, N> {
    /// The exponential and logarithm of [`RootOfUnity`] in terms of the field.
    pub proof fn lemma_lie_spec<V: CMonoid>(v: V, p: Self)
        ensures
            <Self as LieGroup<V>>::identity_exp_spec(v).value() == F::one_spec(),
            <Self as LieGroup<V>>::identity_log_spec(p) == (if p.value() == F::one_spec() {
                Some(V::zero_spec())
            } else {
                None
            }),
    {
    }
}

/// The quotient `G/H` of a Lie group by a central subgroup, represented
/// concretely: [`Quotient::new`] maps `g` to the value standing for its coset
/// `gH`, and [`Quotient::lift`] recovers a representative.
///
/// All group structure on the quotient is defined by lifting, operating in
/// `G`, and mapping back.
pub trait Quotient<G: LieGroup<V>, H: LieGroup<V>, V: CMonoid>: Point {
    spec fn new_spec(g: G) -> Self;

    spec fn lift_spec(self) -> G;

    spec fn embed_spec(h: H) -> G;

    /// The value standing for the coset `gH`.
    fn new(g: G) -> (r: Self)
        ensures
            r == Self::new_spec(g),
    ;

    /// A representative of the coset, the one nearest the identity.
    fn lift(&self) -> (r: G)
        ensures
            r == self.lift_spec(),
    ;

    /// The subgroup inclusion `H ↪ G`.
    fn embed(h: H) -> (r: G)
        ensures
            r == Self::embed_spec(h),
    ;

    /// `new` does not distinguish elements of the same coset.
    proof fn lemma_new_respects_coset(g: G, h: H)
        requires
            g.member(),
            h.member(),
        ensures
            Self::new_spec(Self::embed_spec(h).compose_spec(g)) == Self::new_spec(g),
    ;

    /// `lift` chooses a representative of its own coset.
    proof fn lemma_lift_round_trip(q: Self)
        ensures
            Self::new_spec(q.lift_spec()) == q,
    ;

    /// The coset of the identity.
    fn quotient_identity() -> (r: Self)
        ensures
            r == Self::new_spec(G::identity_spec()),
    {
        Self::new(G::identity())
    }

    /// The coset of the product of the representatives.
    fn quotient_compose(&self, other: &Self) -> (r: Self)
        ensures
            r == Self::new_spec(self.lift_spec().compose_spec(other.lift_spec())),
    {
        let a = self.lift();
        let b = other.lift();
        Self::new(a.compose(&b))
    }

    /// The coset of the inverse of the representative.
    fn quotient_inverse(&self) -> (r: Self)
        ensures
            r == Self::new_spec(self.lift_spec().inverse_spec()),
    {
        let a = self.lift();
        Self::new(a.inverse())
    }

    /// The coset of `exp(v)`.
    fn quotient_identity_exp(v: V) -> (r: Self)
        ensures
            r == Self::new_spec(G::identity_exp_spec(v)),
    {
        Self::new(G::identity_exp(v))
    }

    /// The logarithm of the representative.
    fn quotient_identity_log(p: &Self) -> (r: Option<V>)
        ensures
            r == G::identity_log_spec(p.lift_spec()),
    {
        let a = p.lift();
        G::identity_log(&a)
    }
}

} // verus!
