//! First-order jets over any ring, and programs generic over their scalar
//! ring, so that a derivative is again a program and can be differentiated.
use vstd::prelude::*;
use crate::algebra::{CMonoid, Monoid, CGroup, Rig, Ring, power};
use crate::jet::d;

verus! {

/// A first-order jet `value + tangent·ε` over a ring, with `ε² = 0`.
#[derive(Clone, Copy)]
pub struct Dual<S> {
    pub value: S,
    pub tangent: S,
}

/// `(a + b) + (c + e) = (a + c) + (b + e)` in a commutative monoid.
pub proof fn lemma_add_interchange<S: CMonoid>(a: S, b: S, c: S, e: S)
    ensures
        a.add_spec(b).add_spec(c.add_spec(e)) == a.add_spec(c).add_spec(b.add_spec(e)),
{
    S::lemma_add_associative(a, b, c.add_spec(e));
    S::lemma_add_associative(b, c, e);
    S::lemma_add_commutative(b, c);
    S::lemma_add_associative(c, b, e);
    S::lemma_add_associative(a, c, b.add_spec(e));
}

impl<S: Ring + Copy> CMonoid for Dual<S> {
    open spec fn zero_spec() -> Self {
        Dual { value: S::zero_spec(), tangent: S::zero_spec() }
    }

    open spec fn add_spec(self, other: Self) -> Self {
        Dual { value: self.value.add_spec(other.value), tangent: self.tangent.add_spec(other.tangent) }
    }

    fn zero() -> (z: Self) {
        Dual { value: S::zero(), tangent: S::zero() }
    }

    fn is_zero(&self) -> (b: bool) {
        self.value.is_zero() && self.tangent.is_zero()
    }

    fn add(&self, other: &Self) -> (r: Self) {
        Dual { value: self.value.add(&other.value), tangent: self.tangent.add(&other.tangent) }
    }

    proof fn lemma_add_identity(a: Self) {
        S::lemma_add_identity(a.value);
        S::lemma_add_identity(a.tangent);
    }

    proof fn lemma_add_associative(a: Self, b: Self, c: Self) {
        S::lemma_add_associative(a.value, b.value, c.value);
        S::lemma_add_associative(a.tangent, b.tangent, c.tangent);
    }

    proof fn lemma_add_commutative(a: Self, b: Self) {
        S::lemma_add_commutative(a.value, b.value);
        S::lemma_add_commutative(a.tangent, b.tangent);
    }
}

impl<S: Ring + Copy> Monoid for Dual<S> {
    open spec fn one_spec() -> Self {
        Dual { value: S::one_spec(), tangent: S::zero_spec() }
    }

    open spec fn mul_spec(self, other: Self) -> Self {
        Dual {
            value: self.value.mul_spec(other.value),
            tangent: self.value.mul_spec(other.tangent).add_spec(self.tangent.mul_spec(other.value)),
        }
    }

    fn one() -> (o: Self) {
        Dual { value: S::one(), tangent: S::zero() }
    }

    fn is_one(&self) -> (b: bool) {
        self.value.is_one() && self.tangent.is_zero()
    }

    fn mul(&self, other: &Self) -> (r: Self) {
        let vt = self.value.mul(&other.tangent);
        let tv = self.tangent.mul(&other.value);
        Dual { value: self.value.mul(&other.value), tangent: vt.add(&tv) }
    }

    proof fn lemma_mul_identity(a: Self) {
        S::lemma_mul_identity(a.value);
        S::lemma_mul_identity(a.tangent);
        S::lemma_annihilation(a.value);
        S::lemma_annihilation(a.tangent);
        S::lemma_add_identity(a.tangent);
    }

    proof fn lemma_mul_associative(a: Self, b: Self, c: Self) {
        let (av, at, bv, bt, cv, ct) = (a.value, a.tangent, b.value, b.tangent, c.value, c.tangent);
        S::lemma_mul_associative(av, bv, cv);
        // ((ab)c).t = (av·bv)·ct + (av·bt + at·bv)·cv
        S::lemma_distributive(av.mul_spec(bt), at.mul_spec(bv), cv);
        // (a(bc)).t = av·(bv·ct + bt·cv) + at·(bv·cv)
        S::lemma_distributive(av, bv.mul_spec(ct), bt.mul_spec(cv));
        S::lemma_mul_associative(av, bv, ct);
        S::lemma_mul_associative(av, bt, cv);
        S::lemma_mul_associative(at, bv, cv);
        S::lemma_add_associative(av.mul_spec(bv.mul_spec(ct)), av.mul_spec(bt.mul_spec(cv)), at.mul_spec(bv.mul_spec(cv)));
    }
}

impl<S: Ring + Copy> CGroup for Dual<S> {
    open spec fn neg_spec(self) -> Self {
        Dual { value: self.value.neg_spec(), tangent: self.tangent.neg_spec() }
    }

    fn neg(&self) -> (r: Self) {
        Dual { value: self.value.neg(), tangent: self.tangent.neg() }
    }

    fn sub(&self, other: &Self) -> (r: Self) {
        Dual { value: self.value.sub(&other.value), tangent: self.tangent.sub(&other.tangent) }
    }

    proof fn lemma_add_inverse(a: Self) {
        S::lemma_add_inverse(a.value);
        S::lemma_add_inverse(a.tangent);
    }
}

impl<S: Ring + Copy> Rig for Dual<S> {
    proof fn lemma_distributive(a: Self, b: Self, c: Self) {
        let (av, at, bv, bt, cv, ct) = (a.value, a.tangent, b.value, b.tangent, c.value, c.tangent);
        S::lemma_distributive(av, bv, cv);
        S::lemma_distributive(av, bt, ct);
        S::lemma_distributive(at, bv, cv);
        lemma_add_interchange(av.mul_spec(bt), av.mul_spec(ct), at.mul_spec(bv), at.mul_spec(cv));
        S::lemma_distributive(av, bv, ct);
        S::lemma_distributive(at, bt, cv);
        lemma_add_interchange(av.mul_spec(ct), bv.mul_spec(ct), at.mul_spec(cv), bt.mul_spec(cv));
    }

    proof fn lemma_annihilation(a: Self) {
        S::lemma_annihilation(a.value);
        S::lemma_annihilation(a.tangent);
        S::lemma_add_identity(S::zero_spec());
    }
}

/// A program on vectors over any ring: what it computes is one function,
/// whatever ring it runs over. Running it over first-order jets computes its
/// derivative alongside its value.
pub trait Program<S: Ring + Copy> {
    /// The vector the program computes from `x`.
    spec fn apply_spec(&self, x: Seq<S>) -> Seq<S>;

    /// Runs the program.
    fn apply(&self, x: &Vec<S>) -> (r: Vec<S>)
        ensures
            r@ == self.apply_spec(x@),
    ;
}

/// The point `x` seeded with the unit tangent along coordinate `i`.
pub open spec fn seeded_at<S: Ring + Copy>(x: Seq<S>, i: int) -> Seq<Dual<S>> {
    Seq::new(
        x.len(),
        |k: int| Dual { value: x[k], tangent: if k == i { S::one_spec() } else { S::zero_spec() } },
    )
}

/// The tangent coefficients of a vector of jets.
pub open spec fn tangents<S>(y: Seq<Dual<S>>) -> Seq<S> {
    Seq::new(y.len(), |k: int| y[k].tangent)
}

/// The columns of the derivative of `p` at `x`: column `i` is the derivative
/// along coordinate `i`.
pub open spec fn derivative_columns<S: Ring + Copy, P: Program<Dual<S>>>(p: P, x: Seq<S>) -> Seq<Seq<S>> {
    Seq::new(x.len(), |i: int| tangents(p.apply_spec(seeded_at(x, i))))
}

/// `x` seeded with unit tangent `i`.
fn seed<S: Ring + Copy>(x: &Vec<S>, i: usize) -> (r: Vec<Dual<S>>)
    ensures
        r@ == seeded_at(x@, i as int),
{
    let mut out: Vec<Dual<S>> = Vec::new();
    let mut k: usize = 0;
    while k < x.len()
        invariant
            k <= x@.len(),
            out@ == seeded_at(x@, i as int).take(k as int),
        decreases x@.len() - k,
    {
        let t = if k == i {
            S::one()
        } else {
            S::zero()
        };
        out.push(Dual { value: x[k], tangent: t });
        assert(seeded_at(x@, i as int).take(k + 1) =~= seeded_at(x@, i as int).take(k as int).push(
            Dual { value: x@[k as int], tangent: t },
        ));
        k = k + 1;
    }
    assert(seeded_at(x@, i as int).take(k as int) =~= seeded_at(x@, i as int));
    out
}

/// `out` with the tangents of `y` appended.
fn push_tangents<S: Copy>(out: &mut Vec<S>, y: &Vec<Dual<S>>)
    ensures
        final(out)@ == old(out)@ + tangents(y@),
{
    let ghost start = out@;
    let mut k: usize = 0;
    while k < y.len()
        invariant
            k <= y@.len(),
            out@ == start + tangents(y@).take(k as int),
        decreases y@.len() - k,
    {
        out.push(y[k].tangent);
        assert(tangents(y@).take(k + 1) =~= tangents(y@).take(k as int).push(y@[k as int].tangent));
        assert(start + tangents(y@).take(k + 1) =~= (start + tangents(y@).take(k as int)).push(y@[k as int].tangent));
        k = k + 1;
    }
    assert(tangents(y@).take(k as int) =~= tangents(y@));
}

/// The derivative of a program is a program: from `x` it computes the
/// derivative of `p` at `x`, column after column (the derivative along
/// coordinate `0` first), so it can be differentiated again.
impl<S: Ring + Copy, P: Program<Dual<S>>> Program<S> for d<P> {
    open spec fn apply_spec(&self, x: Seq<S>) -> Seq<S> {
        derivative_columns(self.0, x).flatten()
    }

    fn apply(&self, x: &Vec<S>) -> (r: Vec<S>) {
        let mut out: Vec<S> = Vec::new();
        let mut i: usize = 0;
        while i < x.len()
            invariant
                i <= x@.len(),
                out@ == derivative_columns(self.0, x@).take(i as int).flatten(),
            decreases x@.len() - i,
        {
            let seeds = seed(x, i);
            let y = self.0.apply(&seeds);
            let ghost before = out@;
            push_tangents(&mut out, &y);
            proof {
                let cols = derivative_columns(self.0, x@);
                assert(cols.take(i + 1) =~= cols.take(i as int).push(cols[i as int]));
                cols.take(i as int).lemma_flatten_push(cols[i as int]);
            }
            i = i + 1;
        }
        proof {
            assert(derivative_columns(self.0, x@).take(i as int) =~= derivative_columns(self.0, x@));
        }
        out
    }
}

impl<P> d<P> {
    /// The program evaluated on first-order jets, both coefficients kept.
    pub fn jet_at<S: Ring + Copy>(&self, input: &Vec<Dual<S>>) -> (r: Vec<Dual<S>>) where P: Program<Dual<S>>
        ensures
            r@ == self.0.apply_spec(input@),
    {
        self.0.apply(input)
    }
}

/// Each coordinate raised to the power `exponent`: `x ↦ (xₖⁿ)ₖ`.
#[derive(Clone, Copy)]
pub struct Power {
    pub exponent: u32,
}

impl<S: Ring + Copy> Program<S> for Power {
    open spec fn apply_spec(&self, x: Seq<S>) -> Seq<S> {
        Seq::new(x.len(), |k: int| power(x[k], self.exponent as nat))
    }

    fn apply(&self, x: &Vec<S>) -> (r: Vec<S>) {
        let mut out: Vec<S> = Vec::new();
        let mut k: usize = 0;
        while k < x.len()
            invariant
                k <= x@.len(),
                out@ == self.apply_spec(x@).take(k as int),
            decreases x@.len() - k,
        {
            let mut acc = S::one();
            let mut e: u32 = 0;
            while e < self.exponent
                invariant
                    e <= self.exponent,
                    k < x@.len(),
                    acc == power(x@[k as int], e as nat),
                decreases self.exponent - e,
            {
                acc = acc.mul(&x[k]);
                e = e + 1;
            }
            out.push(acc);
            assert(self.apply_spec(x@).take(k + 1) =~= self.apply_spec(x@).take(k as int).push(acc));
            k = k + 1;
        }
        assert(self.apply_spec(x@).take(k as int) =~= self.apply_spec(x@));
        out
    }
}

/// `v ↦ Dp_v(v)`: the derivative of `p` at `v` along `v` itself, a
/// directional derivative whose direction moves with the point.
pub struct AlongItself<P>(pub P);

impl<S: Ring + Copy, P: Program<Dual<S>>> Program<S> for AlongItself<P> {
    open spec fn apply_spec(&self, x: Seq<S>) -> Seq<S> {
        tangents(self.0.apply_spec(Seq::new(x.len(), |k: int| Dual { value: x[k], tangent: x[k] })))
    }

    fn apply(&self, x: &Vec<S>) -> (r: Vec<S>) {
        let mut seeds: Vec<Dual<S>> = Vec::new();
        let mut k: usize = 0;
        while k < x.len()
            invariant
                k <= x@.len(),
                seeds@ == Seq::new(k as nat, |j: int| Dual { value: x@[j], tangent: x@[j] }),
            decreases x@.len() - k,
        {
            seeds.push(Dual { value: x[k], tangent: x[k] });
            k = k + 1;
        }
        let y = self.0.apply(&seeds);
        let mut out: Vec<S> = Vec::new();
        push_tangents(&mut out, &y);
        assert(Seq::<S>::empty() + tangents(y@) =~= tangents(y@));
        out
    }
}

/// The zero vector of length `n`.
pub open spec fn zero_point<S: Ring + Copy>(n: nat) -> Seq<S> {
    Seq::new(n, |k: int| S::zero_spec())
}

/// Every entry negated.
pub open spec fn negated<S: Ring + Copy>(x: Seq<S>) -> Seq<S> {
    Seq::new(x.len(), |k: int| x[k].neg_spec())
}

/// How a manifold's charts meet, as a connection reads them: at a point `p`,
/// the change of coordinates from the chart centred at `p` to the observing
/// chart, as a program on coordinates that can be differentiated twice.
pub trait Connection<S: Ring + Copy> {
    /// The coordinate change's program.
    type Transition: Program<Dual<Dual<S>>>;

    /// The coordinate change at `p`; `None` where `p` lies outside the
    /// observing chart.
    spec fn transition_spec(&self, p: Seq<S>) -> Option<Self::Transition>;

    /// Computes [`Connection::transition_spec`].
    fn transition(&self, p: &Vec<S>) -> (r: Option<Self::Transition>)
        ensures
            r == self.transition_spec(p@),
    ;

    /// The Christoffel symbols at `p`: minus the second derivative at `0` of
    /// the coordinate change, entry `(i·n + j)·m + k` being
    /// `−∂²xₖ/∂yᵢ∂yⱼ` for `n` coordinates `y` and `m` coordinates `x`; `None`
    /// where `p` lies outside the observing chart.
    fn christoffel_symbols(&self, p: &Vec<S>) -> (r: Option<Vec<S>>)
        ensures
            r is None <==> self.transition_spec(p@) is None,
            r matches Some(g) ==> g@ == negated(
                d(d(self.transition_spec(p@)->0)).apply_spec(zero_point::<S>(p@.len())),
            ),
    {
        let t = match self.transition(p) {
            Some(t) => t,
            None => return None,
        };
        let mut origin: Vec<S> = Vec::new();
        let mut k: usize = 0;
        while k < p.len()
            invariant
                k <= p@.len(),
                origin@ == zero_point::<S>(k as nat),
            decreases p@.len() - k,
        {
            origin.push(S::zero());
            assert(origin@ =~= zero_point::<S>((k + 1) as nat));
            k = k + 1;
        }
        let second = d(d(t)).apply(&origin);
        let mut out: Vec<S> = Vec::new();
        let mut k: usize = 0;
        while k < second.len()
            invariant
                k <= second@.len(),
                out@ == negated(second@).take(k as int),
            decreases second@.len() - k,
        {
            out.push(second[k].neg());
            assert(negated(second@).take(k + 1) =~= negated(second@).take(k as int).push(second@[k as int].neg_spec()));
            k = k + 1;
        }
        assert(negated(second@).take(k as int) =~= negated(second@));
        Some(out)
    }
}

/// Charts related by one coordinate change `t`, the same at every point.
pub struct ChartChange<T>(pub T);

impl<S: Ring + Copy, T: Program<Dual<Dual<S>>> + Copy> Connection<S> for ChartChange<T> {
    type Transition = T;

    open spec fn transition_spec(&self, p: Seq<S>) -> Option<T> {
        Some(self.0)
    }

    fn transition(&self, p: &Vec<S>) -> (r: Option<T>) {
        Some(self.0)
    }
}

} // verus!
