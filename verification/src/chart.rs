//! Charts, exponential maps, and the tangent bundle of a Lie group.
use vstd::prelude::*;

use crate::algebra::{CMonoid, LieGroup, Point};

verus! {

/// A value that is either a `T` or an `Option<T>`, read as an `Option<T>`.
pub trait OptionallyOption<T>: Sized {
    spec fn option_spec(self) -> Option<T>;

    fn into_option(self) -> (r: Option<T>)
        ensures
            r == self.option_spec(),
    ;
}

impl<T> OptionallyOption<T> for Option<T> {
    open spec fn option_spec(self) -> Option<T> {
        self
    }

    fn into_option(self) -> (r: Option<T>) {
        self
    }
}

/// A smooth structure given by an exponential map and its local inverse at
/// every point.
pub trait Smooth<V: CMonoid>: Point {
    spec fn exp_spec(self, v: V) -> Self;

    spec fn log_spec(self, other: Self) -> Option<V>;

    fn exp(&self, v: V) -> (r: Self)
        ensures
            r == self.exp_spec(v),
    ;

    fn log(&self, other: &Self) -> (r: Option<V>)
        ensures
            r == self.log_spec(*other),
    ;
}

/// Left translation: a Lie group is homogeneous, so the exponential map at the
/// identity, carried to `p` by `p·_`, is a chart centred at every `p`.
impl<V: CMonoid, L: LieGroup<V>> Smooth<V> for L {
    open spec fn exp_spec(self, v: V) -> Self {
        self.compose_spec(L::identity_exp_spec(v))
    }

    open spec fn log_spec(self, other: Self) -> Option<V> {
        L::identity_log_spec(self.inverse_spec().compose_spec(other))
    }

    fn exp(&self, coord: V) -> (r: Self) {
        let translated = L::identity_exp(coord);
        self.compose(&translated)
    }

    fn log(&self, point: &Self) -> (r: Option<V>) {
        let translated = self.inverse().compose(point);
        L::identity_log(&translated)
    }
}

/// Left translation inverts: wherever `log_p(q)` is defined, `exp_p` carries
/// it back to `q`.
pub proof fn lemma_left_translation_inverse<V: CMonoid, L: LieGroup<V>>(p: L, q: L)
    requires
        p.member(),
        q.member(),
        p.log_spec(q) is Some,
    ensures
        p.exp_spec(p.log_spec(q)->0) == q,
{
    let t = p.inverse_spec().compose_spec(q);
    L::lemma_closed(p, q);
    L::lemma_closed(p.inverse_spec(), q);
    L::lemma_exp_log(p.log_spec(q)->0, t);
    L::lemma_associative(p, p.inverse_spec(), q);
    L::lemma_inverse(p);
    L::lemma_identity(q);
}


/// A coordinate chart on `P` with coordinates in `V`: a partial map
/// `to_local` into coordinates and its inverse `to_global`.
pub trait Chart<P: Point, V: CMonoid>: Point {
    spec fn to_local_spec(self, point: P) -> Option<V>;

    spec fn to_global_spec(self, coord: V) -> P;

    spec fn chart_at_spec(p: P) -> Self;

    fn to_local(&self, point: &P) -> (r: Option<V>)
        ensures
            r == self.to_local_spec(*point),
    ;

    fn to_global(&self, coord: V) -> (r: P)
        ensures
            r == self.to_global_spec(coord),
    ;

    /// A chart covering `p`.
    fn chart_at(p: &P) -> (r: Self)
        ensures
            r == Self::chart_at_spec(*p),
    ;
}

/// A chart whose coordinates are geodesic: the origin is its base point.
pub trait ExpMap<P: Point, V: CMonoid>: Chart<P, V> {
    /// The point at the origin of the chart.
    fn base_point(&self) -> (r: P)
        ensures
            r == self.to_global_spec(V::zero_spec()),
    {
        let zero = V::zero();
        self.to_global(zero)
    }
}

/// A chart centred at every point of `P`.
pub trait TangentBundle<P: Point, V: CMonoid>: ExpMap<P, V> {}

impl<V: CMonoid, S: Smooth<V>> Chart<S, V> for S {
    open spec fn to_local_spec(self, point: S) -> Option<V> {
        self.log_spec(point)
    }

    open spec fn to_global_spec(self, coord: V) -> S {
        self.exp_spec(coord)
    }

    open spec fn chart_at_spec(p: S) -> S {
        p
    }

    fn to_local(&self, point: &S) -> (r: Option<V>) {
        self.log(point)
    }

    fn to_global(&self, coord: V) -> (r: S) {
        self.exp(coord)
    }

    fn chart_at(p: &S) -> (r: S) {
        p.duplicate()
    }
}

impl<V: CMonoid, S: Smooth<V>> ExpMap<S, V> for S {}

impl<V: CMonoid, S: Smooth<V>> TangentBundle<S, V> for S {}

/// On a Lie group the chart at `p` is centred at `p`: its base point is `p`,
/// `p` has coordinates `0`, and every point it covers is recovered from its
/// coordinates.
pub proof fn lemma_lie_chart_centred<V: CMonoid, L: LieGroup<V>>(p: L, q: L)
    requires
        p.member(),
        q.member(),
    ensures
        L::chart_at_spec(p).to_global_spec(V::zero_spec()) == p,
        L::chart_at_spec(p).to_local_spec(p) == Some(V::zero_spec()),
        L::chart_at_spec(p).to_local_spec(q) is Some ==> L::chart_at_spec(p).to_global_spec(
            L::chart_at_spec(p).to_local_spec(q)->0,
        ) == q,
{
    L::lemma_exp_log(V::zero_spec(), p);
    L::lemma_identity(p);
    L::lemma_inverse(p);
    if p.log_spec(q) is Some {
        lemma_left_translation_inverse::<V, L>(p, q);
    }
}

} // verus!
