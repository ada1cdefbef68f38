//! The prime field `ℤ/7ℤ`: an exact, finite scalar field.
//!
//! Every generic construction of the library (jets, tensor products, roots of
//! unity) runs over any [`Field`]; this one computes exactly, so results can be
//! checked digit for digit.
use vstd::prelude::*;
use crate::algebra::{CMonoid, Monoid, CGroup, Rig, DivRing, Field, CField, NatZero, Succ, Nat, multiple};

verus! {

/// A residue class modulo 7. Each variant is the class of its digit.
#[derive(Clone, Copy, Debug, PartialEq, Eq, Structural)]
pub enum Gf7 {
    R0,
    R1,
    R2,
    R3,
    R4,
    R5,
    R6,
}

/// The seven-fold successor of type-level zero.
pub type Seven = Succ<Succ<Succ<Succ<Succ<Succ<Succ<NatZero>>>>>>>;

/// The least nonnegative representative of a residue class.
pub open spec fn digit(a: Gf7) -> int {
    match a {
        Gf7::R0 => 0,
        Gf7::R1 => 1,
        Gf7::R2 => 2,
        Gf7::R3 => 3,
        Gf7::R4 => 4,
        Gf7::R5 => 5,
        Gf7::R6 => 6,
    }
}

/// The residue class of the integer `k`.
pub open spec fn class_of(k: int) -> Gf7 {
    let r = k % 7;
    if r == 0 {
        Gf7::R0
    } else if r == 1 {
        Gf7::R1
    } else if r == 2 {
        Gf7::R2
    } else if r == 3 {
        Gf7::R3
    } else if r == 4 {
        Gf7::R4
    } else if r == 5 {
        Gf7::R5
    } else {
        Gf7::R6
    }
}

/// The class of a digit is the residue it names, and each digit names its class.
pub proof fn lemma_class_digit(a: Gf7, k: int)
    ensures
        class_of(digit(a)) == a,
        0 <= digit(a) < 7,
        digit(class_of(k)) == k % 7,
{
}

/// Congruent integers have the same class.
proof fn lemma_class_congruent(k: int, m: int)
    requires
        k % 7 == m % 7,
    ensures
        class_of(k) == class_of(m),
{
}

/// Reduction modulo 7 absorbs inner reductions in a sum.
proof fn lemma_sum_mod(a: int, b: int)
    ensures
        (a % 7 + b) % 7 == (a + b) % 7,
        (a + b % 7) % 7 == (a + b) % 7,
{
}

/// Reduction modulo 7 absorbs inner reductions in a product.
proof fn lemma_product_mod(a: int, b: int)
    ensures
        ((a % 7) * b) % 7 == (a * b) % 7,
        (a * (b % 7)) % 7 == (a * b) % 7,
{
    vstd::arithmetic::div_mod::lemma_mul_mod_noop_left(a, b, 7);
    vstd::arithmetic::div_mod::lemma_mul_mod_noop_right(a, b, 7);
}

/// Multiplication distributes over addition modulo 7.
proof fn lemma_distributes(x: int, y: int, z: int)
    ensures
        (x * ((y + z) % 7)) % 7 == ((x * y) % 7 + (x * z) % 7) % 7,
{
    lemma_product_mod(x, y + z);
    vstd::arithmetic::mul::lemma_mul_is_distributive_add(x, y, z);
    lemma_sum_mod(x * y, x * z);
    lemma_sum_mod((x * y) % 7, x * z);
}

impl Gf7 {
    /// The class of `value` modulo 7.
    pub fn from_u64(value: u64) -> (r: Gf7)
        ensures
            r == class_of(value as int),
    {
        let r = value % 7;
        if r == 0 {
            Gf7::R0
        } else if r == 1 {
            Gf7::R1
        } else if r == 2 {
            Gf7::R2
        } else if r == 3 {
            Gf7::R3
        } else if r == 4 {
            Gf7::R4
        } else if r == 5 {
            Gf7::R5
        } else {
            Gf7::R6
        }
    }

    /// The least nonnegative representative, in `0..7`.
    pub fn value(&self) -> (r: u8)
        ensures
            r == digit(*self),
    {
        match self {
            Gf7::R0 => 0,
            Gf7::R1 => 1,
            Gf7::R2 => 2,
            Gf7::R3 => 3,
            Gf7::R4 => 4,
            Gf7::R5 => 5,
            Gf7::R6 => 6,
        }
    }
}

impl CMonoid for Gf7 {
    open spec fn zero_spec() -> Self {
        Gf7::R0
    }

    open spec fn add_spec(self, other: Self) -> Self {
        class_of(digit(self) + digit(other))
    }

    fn zero() -> (z: Self) {
        Gf7::R0
    }

    fn is_zero(&self) -> (b: bool) {
        self.value() == 0
    }

    fn add(&self, other: &Self) -> (r: Self) {
        let sum: u64 = self.value() as u64 + other.value() as u64;
        Gf7::from_u64(sum)
    }

    proof fn lemma_add_identity(a: Self) {
    }

    proof fn lemma_add_associative(a: Self, b: Self, c: Self) {
        lemma_sum_mod(digit(a) + digit(b), digit(c));
        lemma_sum_mod(digit(a), digit(b) + digit(c));
    }

    proof fn lemma_add_commutative(a: Self, b: Self) {
    }
}

impl Monoid for Gf7 {
    open spec fn one_spec() -> Self {
        Gf7::R1
    }

    open spec fn mul_spec(self, other: Self) -> Self {
        class_of(digit(self) * digit(other))
    }

    fn one() -> (o: Self) {
        Gf7::R1
    }

    fn is_one(&self) -> (b: bool) {
        self.value() == 1
    }

    fn mul(&self, other: &Self) -> (r: Self) {
        let product: u64 = self.value() as u64 * other.value() as u64;
        Gf7::from_u64(product)
    }

    proof fn lemma_mul_identity(a: Self) {
    }

    proof fn lemma_mul_associative(a: Self, b: Self, c: Self) {
        let (x, y, z) = (digit(a), digit(b), digit(c));
        lemma_product_mod(x * y, z);
        lemma_product_mod(x, y * z);
        vstd::arithmetic::mul::lemma_mul_is_associative(x, y, z);
    }
}

impl CGroup for Gf7 {
    open spec fn neg_spec(self) -> Self {
        class_of(7 - digit(self))
    }

    fn neg(&self) -> (r: Self) {
        let complement: u64 = 7 - self.value() as u64;
        Gf7::from_u64(complement)
    }

    fn sub(&self, other: &Self) -> (r: Self) {
        let negated = other.neg();
        self.add(&negated)
    }

    proof fn lemma_add_inverse(a: Self) {
    }
}

impl Rig for Gf7 {
    proof fn lemma_distributive(a: Self, b: Self, c: Self) {
        let (x, y, z) = (digit(a), digit(b), digit(c));
        lemma_class_digit(a, y + z);
        lemma_class_digit(a, x + y);
        lemma_class_digit(a, x * y);
        lemma_class_digit(a, x * z);
        lemma_class_digit(a, y * z);
        lemma_distributes(x, y, z);
        assert(a.mul_spec(b.add_spec(c)) == class_of(x * ((y + z) % 7)));
        assert(a.mul_spec(b).add_spec(a.mul_spec(c)) == class_of((x * y) % 7 + (x * z) % 7));
        lemma_class_congruent(x * ((y + z) % 7), (x * y) % 7 + (x * z) % 7);
        lemma_distributes(z, x, y);
        vstd::arithmetic::mul::lemma_mul_is_commutative((x + y) % 7, z);
        vstd::arithmetic::mul::lemma_mul_is_commutative(x, z);
        vstd::arithmetic::mul::lemma_mul_is_commutative(y, z);
        assert(a.add_spec(b).mul_spec(c) == class_of(((x + y) % 7) * z));
        assert(a.mul_spec(c).add_spec(b.mul_spec(c)) == class_of((x * z) % 7 + (y * z) % 7));
        lemma_class_congruent(((x + y) % 7) * z, (x * z) % 7 + (y * z) % 7);
    }

    proof fn lemma_annihilation(a: Self) {
    }
}

impl DivRing for Gf7 {
    open spec fn recip_spec(self) -> Self {
        match self {
            Gf7::R0 => Gf7::R0,
            Gf7::R1 => Gf7::R1,
            Gf7::R2 => Gf7::R4,
            Gf7::R3 => Gf7::R5,
            Gf7::R4 => Gf7::R2,
            Gf7::R5 => Gf7::R3,
            Gf7::R6 => Gf7::R6,
        }
    }

    fn recip(&self) -> (r: Self) {
        match self {
            Gf7::R0 => Gf7::R0,
            Gf7::R1 => Gf7::R1,
            Gf7::R2 => Gf7::R4,
            Gf7::R3 => Gf7::R5,
            Gf7::R4 => Gf7::R2,
            Gf7::R5 => Gf7::R3,
            Gf7::R6 => Gf7::R6,
        }
    }

    proof fn lemma_recip(a: Self) {
    }

    proof fn lemma_nontrivial() {
    }
}

impl Gf7 {
    /// `k·1` is the class of `k`.
    pub proof fn lemma_multiple_of_one(k: nat)
        ensures
            multiple(Gf7::R1, k) == class_of(k as int),
        decreases k,
    {
        if k > 0 {
            Self::lemma_multiple_of_one((k - 1) as nat);
            lemma_sum_mod(k - 1, 1);
        }
    }
}

impl Field for Gf7 {
    type Characteristic = Seven;

    open spec fn conj_spec(self) -> Self {
        self
    }

    fn conj(&self) -> (r: Self) {
        *self
    }

    fn equals(&self, other: &Self) -> (b: bool) {
        self.value() == other.value()
    }

    proof fn lemma_conj_additive(a: Self, b: Self) {
    }

    proof fn lemma_conj_multiplicative(a: Self, b: Self) {
        vstd::arithmetic::mul::lemma_mul_is_commutative(digit(a), digit(b));
    }

    proof fn lemma_conj_unit() {
    }

    proof fn lemma_conj_involution(a: Self) {
    }

    proof fn lemma_characteristic(k: nat) {
        assert(Seven::value() == 7);
        assert(Self::one_spec() == Gf7::R1);
        Self::lemma_multiple_of_one(k);
        Self::lemma_multiple_of_one(7);
        assert(class_of(7) == Gf7::R0);
        if 0 < k && k < 7 {
            assert((k as int) % 7 == k as int);
            assert(class_of(k as int) != Gf7::R0);
        }
    }
}

impl CField for Gf7 {
    proof fn lemma_mul_commutative(a: Self, b: Self) {
        vstd::arithmetic::mul::lemma_mul_is_commutative(digit(a), digit(b));
    }
}

} // verus!
