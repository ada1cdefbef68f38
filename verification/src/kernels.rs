//! Coordinate kernels of tensor products: exchanging the two factors of a
//! product, contracting a factor against its dual, and reassociating, each
//! at a node of the product tree selected by a path.
//!
//! The shape of a tensor is a tree of products over atoms; a path type
//! (`Here`, `OnLeft<P>`, `OnRight<P>`, `ThroughSinister<P>`) selects the
//! node an operation acts on. Flat coordinates are read outer factor first.
use vstd::prelude::*;
use vstd::arithmetic::div_mod::*;
use vstd::arithmetic::mul::*;
use core::marker::PhantomData;
use crate::algebra::{CMonoid, Rig};
use crate::tensor::fdot;

verus! {

/// The shape of a tensor: an atom of some dimension, a product of two
/// shapes, or a shape re-presented with its scalar action on the other side.
pub enum Shape {
    Atom(usize),
    Product(Box<Shape>, Box<Shape>),
    Sinister(Box<Shape>),
}

/// The number of coordinates of a shape.
pub open spec fn dim(s: Shape) -> nat
    decreases s,
{
    match s {
        Shape::Atom(n) => n as nat,
        Shape::Product(a, b) => dim(*a) * dim(*b),
        Shape::Sinister(t) => dim(*t),
    }
}

/// Every sub-shape's dimension fits in a `usize`.
pub open spec fn fits(s: Shape) -> bool
    decreases s,
{
    &&& dim(s) <= usize::MAX
    &&& match s {
        Shape::Atom(_) => true,
        Shape::Product(a, b) => fits(*a) && fits(*b),
        Shape::Sinister(t) => fits(*t),
    }
}

/// The number of coordinates of a shape, computed.
pub fn dimension(s: &Shape) -> (r: usize)
    requires
        fits(*s),
    ensures
        r == dim(*s),
    decreases s,
{
    match s {
        Shape::Atom(n) => *n,
        Shape::Product(a, b) => {
            let x = dimension(a);
            let y = dimension(b);
            x * y
        },
        Shape::Sinister(t) => dimension(t),
    }
}

/// The operation acts at the root of the selected sub-tree.
pub struct Here;

/// Descends into the left factor of a product.
pub struct OnLeft<P>(pub PhantomData<P>);

/// Descends into the right factor of a product.
pub struct OnRight<P>(pub PhantomData<P>);

/// Passes through a sinister presentation.
pub struct ThroughSinister<P>(pub PhantomData<P>);

/// Passes through a dual presentation, which has the same coordinates.
pub struct ThroughDual<P>(pub PhantomData<P>);

/// `q·d + r` has quotient `q` and remainder `r` by `d` when `0 ≤ r < d`.
proof fn lemma_div_mod_of(q: int, r: int, d: int)
    requires
        d > 0,
        0 <= r < d,
    ensures
        (q * d + r) / d == q,
        (q * d + r) % d == r,
{
    lemma_fundamental_div_mod_converse(q * d + r, d, q, r);
}

/// For `0 ≤ x < m·d`: `x = (x / d)·d + x % d` with `0 ≤ x / d < m` and
/// `0 ≤ x % d < d`.
proof fn lemma_split_index(x: int, m: int, d: int)
    requires
        d > 0,
        0 <= x < m * d,
    ensures
        0 <= x / d < m,
        0 <= x % d < d,
        x == (x / d) * d + x % d,
{
    lemma_fundamental_div_mod(x, d);
    lemma_mod_pos_bound(x, d);
    lemma_mul_is_commutative(d, x / d);
    lemma_div_pos_is_pos(x, d);
    if x / d >= m {
        lemma_mul_inequality(m, x / d, d);
    }
}

/// An exchange of the two factors of the product that a path selects.
pub trait SwapKernel {
    /// The path reaches a product in `shape`.
    spec fn applies(shape: Shape) -> bool;

    /// The shape after the exchange.
    spec fn swapped(shape: Shape) -> Shape;

    /// The input coordinate that output coordinate `output` reads.
    spec fn source(shape: Shape, output: int) -> int;

    /// The exchange keeps the number of coordinates, and reads each input
    /// coordinate exactly once: `source` is a bijection of `0..dim`.
    proof fn lemma_permutation(shape: Shape)
        requires
            Self::applies(shape),
        ensures
            dim(Self::swapped(shape)) == dim(shape),
            forall|o: int| 0 <= o < dim(shape) ==> 0 <= #[trigger] Self::source(shape, o) < dim(shape),
            forall|o1: int, o2: int|
                0 <= o1 < dim(shape) && 0 <= o2 < dim(shape) && #[trigger] Self::source(shape, o1)
                    == #[trigger] Self::source(shape, o2) ==> o1 == o2,
    ;

    /// The input coordinate that output coordinate `output` reads.
    fn source_index(shape: &Shape, output: usize) -> (r: usize)
        requires
            Self::applies(*shape),
            fits(*shape),
            output < dim(*shape),
        ensures
            r == Self::source(*shape, output as int),
    ;
}

/// At a product `A ⊗ B` the result is `B ⊗ A`: output `(j, i)` reads input
/// `(i, j)`.
impl SwapKernel for Here {
    open spec fn applies(shape: Shape) -> bool {
        shape is Product
    }

    open spec fn swapped(shape: Shape) -> Shape {
        match shape {
            Shape::Product(a, b) => Shape::Product(Box::new(Shape::Sinister(b)), Box::new(Shape::Sinister(a))),
            _ => shape,
        }
    }

    open spec fn source(shape: Shape, output: int) -> int {
        match shape {
            Shape::Product(a, b) => (output % dim(*a) as int) * dim(*b) as int + output / dim(*a) as int,
            _ => output,
        }
    }

    proof fn lemma_permutation(shape: Shape) {
        if let Shape::Product(a, b) = shape {
            let m = dim(*a) as int;
            let n = dim(*b) as int;
            assert(dim(Shape::Sinister(b)) == n);
            assert(dim(Shape::Sinister(a)) == m);
            assert(dim(Self::swapped(shape)) == n * m);
            lemma_mul_is_commutative(m, n);
            assert forall|o: int| 0 <= o < dim(shape) implies 0 <= #[trigger] <Self as SwapKernel>::source(shape, o) < dim(shape) by {
                assert(m > 0) by (nonlinear_arith)
                    requires
                        0 <= o < m * n,
                        m >= 0,
                        n >= 0,
                ;
                lemma_split_index(o, n, m);
                let (i, j) = (o % m, o / m);
                assert(i * n + j < m * n) by (nonlinear_arith)
                    requires
                        0 <= i < m,
                        0 <= j < n,
                ;
                assert(0 <= i * n + j) by (nonlinear_arith)
                    requires
                        0 <= i,
                        0 <= j,
                        n >= 0,
                ;
            }
            assert forall|o1: int, o2: int|
                0 <= o1 < dim(shape) && 0 <= o2 < dim(shape) && #[trigger] <Self as SwapKernel>::source(shape, o1)
                    == #[trigger] <Self as SwapKernel>::source(shape, o2) implies o1 == o2 by {
                assert(m > 0 && n > 0) by (nonlinear_arith)
                    requires
                        0 <= o1 < m * n,
                        m >= 0,
                        n >= 0,
                ;
                lemma_split_index(o1, n, m);
                lemma_split_index(o2, n, m);
                lemma_div_mod_of(o1 % m, o1 / m, n);
                lemma_div_mod_of(o2 % m, o2 / m, n);
            }
        }
    }

    fn source_index(shape: &Shape, output: usize) -> (r: usize) {
        match shape {
            Shape::Product(a, b) => {
                let m = dimension(a);
                let n = dimension(b);
                proof {
                    lemma_mul_is_commutative(m as int, n as int);
                    lemma_split_index(output as int, n as int, m as int);
                    assert((output % m) * n + output / m < m * n) by (nonlinear_arith)
                        requires
                            0 <= output % m < m,
                            0 <= output / m < n,
                    ;
                }
                (output % m) * n + output / m
            },
            _ => output,
        }
    }
}

/// Index arithmetic shared by the descending kernels: `p·n + r` with
/// `p < m` and `r < n` lies below `m·n`, and determines `p` and `r`.
proof fn lemma_combine_index(p: int, r: int, m: int, n: int)
    requires
        0 <= p < m,
        0 <= r < n,
    ensures
        0 <= p * n + r < m * n,
        (p * n + r) / n == p,
        (p * n + r) % n == r,
{
    assert(0 <= p * n + r < m * n) by (nonlinear_arith)
        requires
            0 <= p < m,
            0 <= r < n,
    ;
    lemma_div_mod_of(p, r, n);
}

/// In `A ⊗ B`, the exchange selected by `P` inside `A`.
impl<P: SwapKernel> SwapKernel for OnLeft<P> {
    open spec fn applies(shape: Shape) -> bool {
        shape matches Shape::Product(a, _) && P::applies(*a)
    }

    open spec fn swapped(shape: Shape) -> Shape {
        match shape {
            Shape::Product(a, b) => Shape::Product(Box::new(P::swapped(*a)), b),
            _ => shape,
        }
    }

    open spec fn source(shape: Shape, output: int) -> int {
        match shape {
            Shape::Product(a, b) => P::source(*a, output / dim(*b) as int) * dim(*b) as int + output % dim(*b) as int,
            _ => output,
        }
    }

    proof fn lemma_permutation(shape: Shape) {
        if let Shape::Product(a, b) = shape {
            P::lemma_permutation(*a);
            let m = dim(*a) as int;
            let n = dim(*b) as int;
            assert forall|o: int| 0 <= o < dim(shape) implies 0 <= #[trigger] Self::source(shape, o) < dim(shape) by {
                assert(n > 0) by (nonlinear_arith)
                    requires
                        0 <= o < m * n,
                        m >= 0,
                        n >= 0,
                ;
                lemma_split_index(o, m, n);
                lemma_combine_index(P::source(*a, o / n), o % n, m, n);
            }
            assert forall|o1: int, o2: int|
                0 <= o1 < dim(shape) && 0 <= o2 < dim(shape) && #[trigger] Self::source(shape, o1)
                    == #[trigger] Self::source(shape, o2) implies o1 == o2 by {
                assert(n > 0) by (nonlinear_arith)
                    requires
                        0 <= o1 < m * n,
                        m >= 0,
                        n >= 0,
                ;
                lemma_split_index(o1, m, n);
                lemma_split_index(o2, m, n);
                lemma_combine_index(P::source(*a, o1 / n), o1 % n, m, n);
                lemma_combine_index(P::source(*a, o2 / n), o2 % n, m, n);
            }
        }
    }

    fn source_index(shape: &Shape, output: usize) -> (r: usize) {
        match shape {
            Shape::Product(a, b) => {
                let n = dimension(b);
                proof {
                    let m = dim(**a) as int;
                    P::lemma_permutation(**a);
                    assert(n > 0) by (nonlinear_arith)
                        requires
                            0 <= output < m * n,
                            m >= 0,
                            n >= 0,
                    ;
                    lemma_split_index(output as int, m, n as int);
                }
                let left = P::source_index(a, output / n);
                proof {
                    lemma_combine_index(left as int, (output % n) as int, dim(**a) as int, n as int);
                }
                left * n + output % n
            },
            _ => output,
        }
    }
}

/// In `A ⊗ B`, the exchange selected by `P` inside `B`.
impl<P: SwapKernel> SwapKernel for OnRight<P> {
    open spec fn applies(shape: Shape) -> bool {
        shape matches Shape::Product(_, b) && P::applies(*b)
    }

    open spec fn swapped(shape: Shape) -> Shape {
        match shape {
            Shape::Product(a, b) => Shape::Product(a, Box::new(P::swapped(*b))),
            _ => shape,
        }
    }

    open spec fn source(shape: Shape, output: int) -> int {
        match shape {
            Shape::Product(a, b) => (output / dim(*b) as int) * dim(*b) as int + P::source(*b, output % dim(*b) as int),
            _ => output,
        }
    }

    proof fn lemma_permutation(shape: Shape) {
        if let Shape::Product(a, b) = shape {
            P::lemma_permutation(*b);
            let m = dim(*a) as int;
            let n = dim(*b) as int;
            assert forall|o: int| 0 <= o < dim(shape) implies 0 <= #[trigger] Self::source(shape, o) < dim(shape) by {
                assert(n > 0) by (nonlinear_arith)
                    requires
                        0 <= o < m * n,
                        m >= 0,
                        n >= 0,
                ;
                lemma_split_index(o, m, n);
                lemma_combine_index(o / n, P::source(*b, o % n), m, n);
            }
            assert forall|o1: int, o2: int|
                0 <= o1 < dim(shape) && 0 <= o2 < dim(shape) && #[trigger] Self::source(shape, o1)
                    == #[trigger] Self::source(shape, o2) implies o1 == o2 by {
                assert(n > 0) by (nonlinear_arith)
                    requires
                        0 <= o1 < m * n,
                        m >= 0,
                        n >= 0,
                ;
                lemma_split_index(o1, m, n);
                lemma_split_index(o2, m, n);
                lemma_combine_index(o1 / n, P::source(*b, o1 % n), m, n);
                lemma_combine_index(o2 / n, P::source(*b, o2 % n), m, n);
            }
        }
    }

    fn source_index(shape: &Shape, output: usize) -> (r: usize) {
        match shape {
            Shape::Product(a, b) => {
                let n = dimension(b);
                proof {
                    let m = dim(**a) as int;
                    P::lemma_permutation(**b);
                    assert(n > 0) by (nonlinear_arith)
                        requires
                            0 <= output < m * n,
                            m >= 0,
                            n >= 0,
                    ;
                    lemma_split_index(output as int, m, n as int);
                }
                let right = P::source_index(b, output % n);
                proof {
                    lemma_combine_index((output / n) as int, right as int, dim(**a) as int, n as int);
                }
                (output / n) * n + right
            },
            _ => output,
        }
    }
}

/// Through a sinister presentation, the exchange selected by `P` inside it.
impl<P: SwapKernel> SwapKernel for ThroughSinister<P> {
    open spec fn applies(shape: Shape) -> bool {
        shape matches Shape::Sinister(t) && P::applies(*t)
    }

    open spec fn swapped(shape: Shape) -> Shape {
        match shape {
            Shape::Sinister(t) => Shape::Sinister(Box::new(P::swapped(*t))),
            _ => shape,
        }
    }

    open spec fn source(shape: Shape, output: int) -> int {
        match shape {
            Shape::Sinister(t) => P::source(*t, output),
            _ => output,
        }
    }

    proof fn lemma_permutation(shape: Shape) {
        if let Shape::Sinister(t) = shape {
            P::lemma_permutation(*t);
        }
    }

    fn source_index(shape: &Shape, output: usize) -> (r: usize) {
        match shape {
            Shape::Sinister(t) => P::source_index(t, output),
            _ => output,
        }
    }
}

/// Exchanging factors of a tensor's coordinates.
pub trait Swap: Sized {
    /// The number of coordinates.
    spec fn coordinate_count(&self) -> nat;

    /// The coordinates after the exchange selected by `P`.
    fn swap<P: SwapKernel>(&self, shape: &Shape) -> (r: Self)
        requires
            P::applies(*shape),
            fits(*shape),
            self.coordinate_count() == dim(*shape),
        ensures
            r.coordinate_count() == self.coordinate_count(),
    ;
}

impl<T: Copy> Swap for Vec<T> {
    open spec fn coordinate_count(&self) -> nat {
        self@.len()
    }

    /// Output coordinate `o` is input coordinate `P::source(shape, o)`.
    fn swap<P: SwapKernel>(&self, shape: &Shape) -> (r: Self)
        ensures
            forall|o: int| 0 <= o < self@.len() ==> #[trigger] r@[o] == self@[P::source(*shape, o)],
    {
        proof {
            P::lemma_permutation(*shape);
        }
        let n = self.len();
        let mut out: Vec<T> = Vec::new();
        let mut o: usize = 0;
        while o < n
            invariant
                P::applies(*shape),
                fits(*shape),
                n == self@.len(),
                n == dim(*shape),
                forall|q: int| 0 <= q < dim(*shape) ==> 0 <= #[trigger] P::source(*shape, q) < dim(*shape),
                o <= n,
                out@.len() == o,
                forall|q: int| 0 <= q < o ==> #[trigger] out@[q] == self@[P::source(*shape, q)],
            decreases n - o,
        {
            let src = P::source_index(shape, o);
            out.push(self[src]);
            o = o + 1;
        }
        out
    }
}

/// Exchanging the factors of a product twice gives back every coordinate.
pub proof fn lemma_swap_involution(shape: Shape, o: int)
    requires
        shape is Product,
        0 <= o < dim(shape),
    ensures
        <Here as SwapKernel>::source(shape, <Here as SwapKernel>::source(<Here as SwapKernel>::swapped(shape), o)) == o,
{
    if let Shape::Product(a, b) = shape {
        let m = dim(*a) as int;
        let n = dim(*b) as int;
        assert(dim(Shape::Sinister(b)) == n);
        assert(dim(Shape::Sinister(a)) == m);
        assert(m > 0 && n > 0) by (nonlinear_arith)
            requires
                0 <= o < m * n,
                m >= 0,
                n >= 0,
        ;
        lemma_mul_is_commutative(m, n);
        lemma_split_index(o, m, n);
        let t = (o % n) * m + o / n;
        assert(<Here as SwapKernel>::source(<Here as SwapKernel>::swapped(shape), o) == t);
        lemma_div_mod_of(o % n, o / n, m);
        assert(t % m == o / n);
        assert(t / m == o % n);
    }
}

/// The shape left by a contraction: a scalar, or a tensor.
pub enum ContractionShape {
    Scalar,
    Tensor(Shape),
}

/// The number of coordinates of a contraction's result; a scalar has one.
pub open spec fn output_dim(c: ContractionShape) -> nat {
    match c {
        ContractionShape::Scalar => 1,
        ContractionShape::Tensor(s) => dim(s),
    }
}

/// A contraction of a factor against its dual at the product a path
/// selects: each output coordinate sums `contracted` input coordinates.
pub trait ContractKernel {
    /// The path reaches a product of a factor with a factor of the same
    /// dimension, its dual.
    spec fn applies(shape: Shape) -> bool;

    /// The shape of the result.
    spec fn output(shape: Shape) -> ContractionShape;

    /// The number of terms in each sum.
    spec fn contracted(shape: Shape) -> nat;

    /// The input coordinate of term `contracted` of output `output`.
    spec fn source(shape: Shape, output: int, contracted: int) -> int;

    /// Every term reads an input coordinate.
    proof fn lemma_in_range(shape: Shape)
        requires
            Self::applies(shape),
        ensures
            forall|o: int, c: int|
                0 <= o < output_dim(Self::output(shape)) && 0 <= c < Self::contracted(shape) ==> 0
                    <= #[trigger] Self::source(shape, o, c) < dim(shape),
            output_dim(Self::output(shape)) <= dim(shape) || Self::contracted(shape) == 0,
    ;

    /// The number of terms in each sum.
    fn contracted_count(shape: &Shape) -> (r: usize)
        requires
            Self::applies(*shape),
            fits(*shape),
        ensures
            r == Self::contracted(*shape),
    ;

    /// The number of coordinates of the result, and of each intermediate
    /// result, fits in a `usize`.
    spec fn output_fits(shape: Shape) -> bool;

    /// Where a term exists, the result has no more coordinates than the
    /// input, so it fits.
    proof fn lemma_output_fits(shape: Shape)
        requires
            Self::applies(shape),
            fits(shape),
            Self::contracted(shape) > 0,
        ensures
            Self::output_fits(shape),
    ;

    /// The number of coordinates of the result.
    fn output_count(shape: &Shape) -> (r: usize)
        requires
            Self::applies(*shape),
            fits(*shape),
            Self::output_fits(*shape),
        ensures
            r == output_dim(Self::output(*shape)),
    ;

    /// The input coordinate of term `contracted` of output `output`.
    fn source_index(shape: &Shape, output: usize, contracted: usize) -> (r: usize)
        requires
            Self::applies(*shape),
            fits(*shape),
            output < output_dim(Self::output(*shape)),
            contracted < Self::contracted(*shape),
        ensures
            r == Self::source(*shape, output as int, contracted as int),
    ;
}

/// At `V ⊗ V*` the contraction is the trace: term `c` reads `(c, c)`.
impl ContractKernel for Here {
    open spec fn applies(shape: Shape) -> bool {
        shape matches Shape::Product(a, b) && dim(*a) == dim(*b)
    }

    open spec fn output(shape: Shape) -> ContractionShape {
        ContractionShape::Scalar
    }

    open spec fn contracted(shape: Shape) -> nat {
        match shape {
            Shape::Product(a, _) => dim(*a),
            _ => 0,
        }
    }

    open spec fn source(shape: Shape, output: int, contracted: int) -> int {
        match shape {
            Shape::Product(_, b) => contracted * dim(*b) as int + contracted,
            _ => 0,
        }
    }

    proof fn lemma_in_range(shape: Shape) {
        if let Shape::Product(a, b) = shape {
            let n = dim(*a) as int;
            assert forall|o: int, c: int| 0 <= o < 1 && 0 <= c < n implies 0 <= #[trigger] <Self as ContractKernel>::source(shape, o, c) < dim(shape) by {
                lemma_combine_index(c, c, n, n);
            }
            if n > 0 {
                assert(1 <= n * n) by (nonlinear_arith)
                    requires
                        n > 0,
                ;
            }
        }
    }

    fn contracted_count(shape: &Shape) -> (r: usize) {
        match shape {
            Shape::Product(a, _) => dimension(a),
            _ => 0,
        }
    }

    open spec fn output_fits(shape: Shape) -> bool {
        true
    }

    proof fn lemma_output_fits(shape: Shape) {
    }

    fn output_count(shape: &Shape) -> (r: usize) {
        1
    }

    fn source_index(shape: &Shape, output: usize, contracted: usize) -> (r: usize) {
        match shape {
            Shape::Product(a, b) => {
                let n = dimension(b);
                proof {
                    lemma_combine_index(contracted as int, contracted as int, n as int, n as int);
                }
                contracted * n + contracted
            },
            _ => 0,
        }
    }
}

/// The result of a contraction inside `A`, followed by the factor `B`.
pub open spec fn append_right(c: ContractionShape, b: Shape) -> ContractionShape {
    match c {
        ContractionShape::Scalar => ContractionShape::Tensor(b),
        ContractionShape::Tensor(s) => ContractionShape::Tensor(Shape::Product(Box::new(s), Box::new(b))),
    }
}

/// The factor `A`, followed by the result of a contraction inside `B`.
pub open spec fn append_left(a: Shape, c: ContractionShape) -> ContractionShape {
    match c {
        ContractionShape::Scalar => ContractionShape::Tensor(a),
        ContractionShape::Tensor(s) => ContractionShape::Tensor(Shape::Product(Box::new(a), Box::new(s))),
    }
}

/// In `A ⊗ B`, the contraction selected by `P` inside `A`.
impl<P: ContractKernel> ContractKernel for OnLeft<P> {
    open spec fn applies(shape: Shape) -> bool {
        shape matches Shape::Product(a, _) && P::applies(*a)
    }

    open spec fn output(shape: Shape) -> ContractionShape {
        match shape {
            Shape::Product(a, b) => append_right(P::output(*a), *b),
            _ => ContractionShape::Scalar,
        }
    }

    open spec fn contracted(shape: Shape) -> nat {
        match shape {
            Shape::Product(a, _) => P::contracted(*a),
            _ => 0,
        }
    }

    open spec fn source(shape: Shape, output: int, contracted: int) -> int {
        match shape {
            Shape::Product(a, b) => P::source(*a, output / dim(*b) as int, contracted) * dim(*b) as int + output % dim(*b) as int,
            _ => 0,
        }
    }

    proof fn lemma_in_range(shape: Shape) {
        if let Shape::Product(a, b) = shape {
            P::lemma_in_range(*a);
            let ma = dim(*a) as int;
            let n = dim(*b) as int;
            let k = output_dim(P::output(*a)) as int;
            assert(output_dim(Self::output(shape)) == k * n) by {
                match P::output(*a) {
                    ContractionShape::Scalar => {},
                    ContractionShape::Tensor(s) => {},
                }
            }
            assert forall|o: int, c: int|
                0 <= o < output_dim(Self::output(shape)) && 0 <= c < Self::contracted(shape) implies 0
                    <= #[trigger] Self::source(shape, o, c) < dim(shape) by {
                assert(n > 0) by (nonlinear_arith)
                    requires
                        0 <= o < k * n,
                        k >= 0,
                        n >= 0,
                ;
                lemma_split_index(o, k, n);
                lemma_combine_index(P::source(*a, o / n, c), o % n, ma, n);
            }
            if P::contracted(*a) != 0 {
                assert(k * n <= ma * n) by (nonlinear_arith)
                    requires
                        k <= ma,
                        n >= 0,
                ;
            }
        }
    }

    fn contracted_count(shape: &Shape) -> (r: usize) {
        match shape {
            Shape::Product(a, _) => P::contracted_count(a),
            _ => 0,
        }
    }

    open spec fn output_fits(shape: Shape) -> bool {
        &&& output_dim(Self::output(shape)) <= usize::MAX
        &&& match shape {
            Shape::Product(a, _) => P::output_fits(*a),
            _ => true,
        }
    }

    proof fn lemma_output_fits(shape: Shape) {
        Self::lemma_in_range(shape);
        if let Shape::Product(a, _) = shape {
            P::lemma_output_fits(*a);
        }
    }

    fn output_count(shape: &Shape) -> (r: usize) {
        match shape {
            Shape::Product(a, b) => {
                let k = P::output_count(a);
                let n = dimension(b);
                proof {
                    assert(Self::output(*shape) == append_right(P::output(**a), **b));
                    assert(output_dim(Self::output(*shape)) == k * n) by {
                        match P::output(**a) {
                            ContractionShape::Scalar => {
                                lemma_mul_basics(n as int);
                            },
                            ContractionShape::Tensor(s) => {},
                        }
                    }
                }
                k * n
            },
            _ => 1,
        }
    }

    fn source_index(shape: &Shape, output: usize, contracted: usize) -> (r: usize) {
        match shape {
            Shape::Product(a, b) => {
                let n = dimension(b);
                proof {
                    P::lemma_in_range(**a);
                    let k = output_dim(P::output(**a)) as int;
                    assert(Self::output(*shape) == append_right(P::output(**a), **b));
                    assert(output_dim(Self::output(*shape)) == k * n) by {
                        match P::output(**a) {
                            ContractionShape::Scalar => {
                                lemma_mul_basics(n as int);
                            },
                            ContractionShape::Tensor(s) => {},
                        }
                    }
                    assert(n > 0) by (nonlinear_arith)
                        requires
                            0 <= output < k * n,
                            k >= 0,
                            n >= 0,
                    ;
                    lemma_split_index(output as int, k, n as int);
                }
                let left = P::source_index(a, output / n, contracted);
                proof {
                    lemma_combine_index(left as int, (output % n) as int, dim(**a) as int, n as int);
                }
                left * n + output % n
            },
            _ => 0,
        }
    }
}

/// In `A ⊗ B`, the contraction selected by `P` inside `B`.
impl<P: ContractKernel> ContractKernel for OnRight<P> {
    open spec fn applies(shape: Shape) -> bool {
        shape matches Shape::Product(_, b) && P::applies(*b)
    }

    open spec fn output(shape: Shape) -> ContractionShape {
        match shape {
            Shape::Product(a, b) => append_left(*a, P::output(*b)),
            _ => ContractionShape::Scalar,
        }
    }

    open spec fn contracted(shape: Shape) -> nat {
        match shape {
            Shape::Product(_, b) => P::contracted(*b),
            _ => 0,
        }
    }

    open spec fn source(shape: Shape, output: int, contracted: int) -> int {
        match shape {
            Shape::Product(a, b) => {
                let k = output_dim(P::output(*b)) as int;
                (output / k) * dim(*b) as int + P::source(*b, output % k, contracted)
            },
            _ => 0,
        }
    }

    proof fn lemma_in_range(shape: Shape) {
        if let Shape::Product(a, b) = shape {
            P::lemma_in_range(*b);
            let m = dim(*a) as int;
            let nb = dim(*b) as int;
            let k = output_dim(P::output(*b)) as int;
            assert(output_dim(Self::output(shape)) == m * k) by {
                match P::output(*b) {
                    ContractionShape::Scalar => {},
                    ContractionShape::Tensor(s) => {},
                }
            }
            assert forall|o: int, c: int|
                0 <= o < output_dim(Self::output(shape)) && 0 <= c < Self::contracted(shape) implies 0
                    <= #[trigger] Self::source(shape, o, c) < dim(shape) by {
                assert(k > 0) by (nonlinear_arith)
                    requires
                        0 <= o < m * k,
                        k >= 0,
                        m >= 0,
                ;
                lemma_split_index(o, m, k);
                lemma_combine_index(o / k, P::source(*b, o % k, c), m, nb);
            }
            if P::contracted(*b) != 0 {
                assert(m * k <= m * nb) by (nonlinear_arith)
                    requires
                        k <= nb,
                        m >= 0,
                ;
            }
        }
    }

    fn contracted_count(shape: &Shape) -> (r: usize) {
        match shape {
            Shape::Product(_, b) => P::contracted_count(b),
            _ => 0,
        }
    }

    open spec fn output_fits(shape: Shape) -> bool {
        &&& output_dim(Self::output(shape)) <= usize::MAX
        &&& match shape {
            Shape::Product(_, b) => P::output_fits(*b),
            _ => true,
        }
    }

    proof fn lemma_output_fits(shape: Shape) {
        Self::lemma_in_range(shape);
        if let Shape::Product(_, b) = shape {
            P::lemma_output_fits(*b);
        }
    }

    fn output_count(shape: &Shape) -> (r: usize) {
        match shape {
            Shape::Product(a, b) => {
                let m = dimension(a);
                let k = P::output_count(b);
                proof {
                    assert(Self::output(*shape) == append_left(**a, P::output(**b)));
                    assert(output_dim(Self::output(*shape)) == m * k) by {
                        match P::output(**b) {
                            ContractionShape::Scalar => {
                                lemma_mul_basics(m as int);
                            },
                            ContractionShape::Tensor(s) => {},
                        }
                    }
                }
                m * k
            },
            _ => 1,
        }
    }

    fn source_index(shape: &Shape, output: usize, contracted: usize) -> (r: usize) {
        match shape {
            Shape::Product(a, b) => {
                let nb = dimension(b);
                proof {
                    P::lemma_output_fits(**b);
                }
                let k = P::output_count(b);
                proof {
                    P::lemma_in_range(**b);
                    let m = dim(**a) as int;
                    assert(Self::output(*shape) == append_left(**a, P::output(**b)));
                    assert(output_dim(Self::output(*shape)) == m * k) by {
                        match P::output(**b) {
                            ContractionShape::Scalar => {
                                lemma_mul_basics(m as int);
                            },
                            ContractionShape::Tensor(s) => {},
                        }
                    }
                    assert(k > 0) by (nonlinear_arith)
                        requires
                            0 <= output < m * k,
                            k >= 0,
                            m >= 0,
                    ;
                    lemma_split_index(output as int, m, k as int);
                }
                let right = P::source_index(b, output % k, contracted);
                proof {
                    lemma_combine_index((output / k) as int, right as int, dim(**a) as int, nb as int);
                }
                (output / k) * nb + right
            },
            _ => 0,
        }
    }
}

/// Through a sinister presentation, the contraction selected by `P` inside
/// it.
impl<P: ContractKernel> ContractKernel for ThroughSinister<P> {
    open spec fn applies(shape: Shape) -> bool {
        shape matches Shape::Sinister(t) && P::applies(*t)
    }

    open spec fn output(shape: Shape) -> ContractionShape {
        match shape {
            Shape::Sinister(t) => match P::output(*t) {
                ContractionShape::Scalar => ContractionShape::Scalar,
                ContractionShape::Tensor(s) => ContractionShape::Tensor(Shape::Sinister(Box::new(s))),
            },
            _ => ContractionShape::Scalar,
        }
    }

    open spec fn contracted(shape: Shape) -> nat {
        match shape {
            Shape::Sinister(t) => P::contracted(*t),
            _ => 0,
        }
    }

    open spec fn source(shape: Shape, output: int, contracted: int) -> int {
        match shape {
            Shape::Sinister(t) => P::source(*t, output, contracted),
            _ => 0,
        }
    }

    proof fn lemma_in_range(shape: Shape) {
        if let Shape::Sinister(t) = shape {
            P::lemma_in_range(*t);
            assert(output_dim(Self::output(shape)) == output_dim(P::output(*t))) by {
                match P::output(*t) {
                    ContractionShape::Scalar => {},
                    ContractionShape::Tensor(s) => {},
                }
            }
        }
    }

    fn contracted_count(shape: &Shape) -> (r: usize) {
        match shape {
            Shape::Sinister(t) => P::contracted_count(t),
            _ => 0,
        }
    }

    open spec fn output_fits(shape: Shape) -> bool {
        match shape {
            Shape::Sinister(t) => P::output_fits(*t),
            _ => true,
        }
    }

    proof fn lemma_output_fits(shape: Shape) {
        if let Shape::Sinister(t) = shape {
            P::lemma_output_fits(*t);
        }
    }

    fn output_count(shape: &Shape) -> (r: usize) {
        match shape {
            Shape::Sinister(t) => {
                proof {
                    assert(output_dim(Self::output(*shape)) == output_dim(P::output(**t))) by {
                        match P::output(**t) {
                            ContractionShape::Scalar => {},
                            ContractionShape::Tensor(s) => {},
                        }
                    }
                }
                P::output_count(t)
            },
            _ => 1,
        }
    }

    fn source_index(shape: &Shape, output: usize, contracted: usize) -> (r: usize) {
        match shape {
            Shape::Sinister(t) => {
                proof {
                    assert(output_dim(Self::output(*shape)) == output_dim(P::output(**t))) by {
                        match P::output(**t) {
                            ContractionShape::Scalar => {},
                            ContractionShape::Tensor(s) => {},
                        }
                    }
                }
                P::source_index(t, output, contracted)
            },
            _ => 0,
        }
    }
}

/// The sum of the first `k` terms of output coordinate `o` of the
/// contraction selected by `P`.
pub open spec fn contraction_sum<F: CMonoid, P: ContractKernel>(v: Seq<F>, shape: Shape, o: int, k: nat) -> F
    decreases k,
{
    if k == 0 {
        F::zero_spec()
    } else {
        contraction_sum::<F, P>(v, shape, o, (k - 1) as nat).add_spec(v[P::source(shape, o, k - 1)])
    }
}

/// Contracting a factor of a tensor's coordinates against its dual.
pub trait Contract: Sized {
    /// The scalar of the result.
    type Scalar;

    /// The number of coordinates.
    spec fn coordinate_count(&self) -> nat;

    /// The coordinates of the contraction selected by `P`.
    fn contract<P: ContractKernel>(&self, shape: &Shape) -> (r: Vec<Self::Scalar>)
        requires
            P::applies(*shape),
            fits(*shape),
            P::output_fits(*shape),
            self.coordinate_count() == dim(*shape),
        ensures
            r@.len() == output_dim(P::output(*shape)),
    ;
}

impl<F: CMonoid + Copy> Contract for Vec<F> {
    type Scalar = F;

    open spec fn coordinate_count(&self) -> nat {
        self@.len()
    }

    /// Output coordinate `o` sums, in order, the input coordinates
    /// `P::source(shape, o, c)` over the contracted index `c`.
    fn contract<P: ContractKernel>(&self, shape: &Shape) -> (r: Vec<F>)
        ensures
            forall|o: int| 0 <= o < output_dim(P::output(*shape)) ==> #[trigger] r@[o] == contraction_sum::<F, P>(
                self@,
                *shape,
                o,
                P::contracted(*shape),
            ),
    {
        proof {
            P::lemma_in_range(*shape);
        }
        let outputs = P::output_count(shape);
        let terms = P::contracted_count(shape);
        let mut out: Vec<F> = Vec::new();
        let mut o: usize = 0;
        while o < outputs
            invariant
                P::applies(*shape),
                fits(*shape),
                self@.len() == dim(*shape),
                outputs == output_dim(P::output(*shape)),
                terms == P::contracted(*shape),
                forall|q: int, c: int|
                    0 <= q < output_dim(P::output(*shape)) && 0 <= c < P::contracted(*shape) ==> 0
                        <= #[trigger] P::source(*shape, q, c) < dim(*shape),
                o <= outputs,
                out@.len() == o,
                forall|q: int| 0 <= q < o ==> #[trigger] out@[q] == contraction_sum::<F, P>(self@, *shape, q, terms as nat),
            decreases outputs - o,
        {
            let mut sum = F::zero();
            let mut c: usize = 0;
            while c < terms
                invariant
                    P::applies(*shape),
                    fits(*shape),
                    self@.len() == dim(*shape),
                    outputs == output_dim(P::output(*shape)),
                    terms == P::contracted(*shape),
                    forall|q: int, c: int|
                        0 <= q < output_dim(P::output(*shape)) && 0 <= c < P::contracted(*shape) ==> 0
                            <= #[trigger] P::source(*shape, q, c) < dim(*shape),
                    o < outputs,
                    c <= terms,
                    sum == contraction_sum::<F, P>(self@, *shape, o as int, c as nat),
                decreases terms - c,
            {
                let src = P::source_index(shape, o, c);
                sum = sum.add(&self[src]);
                c = c + 1;
            }
            out.push(sum);
            o = o + 1;
        }
        out
    }
}

/// Contracting a pure tensor `a ⊗ φ` of `V ⊗ V*` evaluates `φ` on `a`:
/// the trace of `a ⊗ b` is `Σᵢ a[i]·b[i]`.
pub proof fn lemma_trace_of_pure<F: Rig>(a: Seq<F>, b: Seq<F>, v: Seq<F>)
    requires
        a.len() == b.len(),
        a.len() <= usize::MAX,
        v.len() == a.len() * b.len(),
        forall|i: int, j: int| 0 <= i < a.len() && 0 <= j < b.len() ==> #[trigger] v[i * b.len() + j] == a[i].mul_spec(b[j]),
    ensures
        contraction_sum::<F, Here>(
            v,
            Shape::Product(Box::new(Shape::Atom(a.len() as usize)), Box::new(Shape::Atom(b.len() as usize))),
            0,
            a.len(),
        ) == fdot(a, b),
{
    lemma_trace_prefix(a, b, v, a.len());
    assert(a.take(a.len() as int) =~= a);
}

/// The first `k` terms of the trace of a pure tensor.
proof fn lemma_trace_prefix<F: Rig>(a: Seq<F>, b: Seq<F>, v: Seq<F>, k: nat)
    requires
        a.len() == b.len(),
        k <= a.len(),
        a.len() <= usize::MAX,
        forall|i: int, j: int| 0 <= i < a.len() && 0 <= j < b.len() ==> #[trigger] v[i * b.len() + j] == a[i].mul_spec(b[j]),
    ensures
        contraction_sum::<F, Here>(
            v,
            Shape::Product(Box::new(Shape::Atom(a.len() as usize)), Box::new(Shape::Atom(b.len() as usize))),
            0,
            k,
        ) == fdot(a.take(k as int), b),
    decreases k,
{
    let shape = Shape::Product(Box::new(Shape::Atom(a.len() as usize)), Box::new(Shape::Atom(b.len() as usize)));
    if k > 0 {
        lemma_trace_prefix(a, b, v, (k - 1) as nat);
        let c = k - 1;
        assert(a.take(k as int).drop_last() =~= a.take(c));
        assert(dim(Shape::Atom(b.len() as usize)) == b.len());
        assert(<Here as ContractKernel>::source(shape, 0, c) == c * b.len() + c);
        assert(v[c * b.len() + c] == a[c].mul_spec(b[c]));
    }
}

/// Reassociates `(A ⊗ B) ⊗ C` as `A ⊗ (B ⊗ C)`.
pub struct Right;

/// Reassociates `A ⊗ (B ⊗ C)` as `(A ⊗ B) ⊗ C`.
pub struct Left;

/// A copy of a shape.
pub fn copy_shape(s: &Shape) -> (r: Shape)
    ensures
        r == *s,
    decreases s,
{
    match s {
        Shape::Atom(n) => Shape::Atom(*n),
        Shape::Product(a, b) => Shape::Product(Box::new(copy_shape(a)), Box::new(copy_shape(b))),
        Shape::Sinister(t) => Shape::Sinister(Box::new(copy_shape(t))),
    }
}

/// One associativity isomorphism at the product a path selects. Flat
/// coordinates are read outer factor first, so reassociating keeps them.
pub trait ReassociateKernel {
    /// The path reaches a product of the required form.
    spec fn applies(shape: Shape) -> bool;

    /// The shape after reassociating.
    spec fn reassociated(shape: Shape) -> Shape;

    /// Reassociating keeps the number of coordinates.
    proof fn lemma_dim(shape: Shape)
        requires
            Self::applies(shape),
        ensures
            dim(Self::reassociated(shape)) == dim(shape),
    ;

    /// The shape after reassociating, computed.
    fn reassociated_shape(shape: &Shape) -> (r: Shape)
        requires
            Self::applies(*shape),
        ensures
            r == Self::reassociated(*shape),
    ;
}

/// `(A ⊗ B) ⊗ C` becomes `A ⊗ (B ⊗ C)`, the inner factors re-presented.
impl ReassociateKernel for Right {
    open spec fn applies(shape: Shape) -> bool {
        shape matches Shape::Product(ab, _) && *ab is Product
    }

    open spec fn reassociated(shape: Shape) -> Shape {
        match shape {
            Shape::Product(ab, c) => match *ab {
                Shape::Product(a, b) => Shape::Product(
                    a,
                    Box::new(Shape::Sinister(Box::new(Shape::Product(Box::new(Shape::Sinister(b)), c)))),
                ),
                _ => shape,
            },
            _ => shape,
        }
    }

    proof fn lemma_dim(shape: Shape) {
        if let Shape::Product(ab, c) = shape {
            if let Shape::Product(a, b) = *ab {
                lemma_mul_is_associative(dim(*a) as int, dim(*b) as int, dim(*c) as int);
                let sb = Shape::Sinister(b);
                let bc = Shape::Product(Box::new(sb), c);
                let sbc = Shape::Sinister(Box::new(bc));
                assert(dim(sb) == dim(*b));
                assert(dim(bc) == dim(*b) * dim(*c));
                assert(dim(sbc) == dim(bc));
                assert(dim(Shape::Product(a, Box::new(sbc))) == dim(*a) * dim(sbc));
                assert(dim(*ab) == dim(*a) * dim(*b));
            }
        }
    }

    fn reassociated_shape(shape: &Shape) -> (r: Shape) {
        match shape {
            Shape::Product(ab, c) => match &**ab {
                Shape::Product(a, b) => Shape::Product(
                    Box::new(copy_shape(a)),
                    Box::new(Shape::Sinister(Box::new(Shape::Product(Box::new(Shape::Sinister(Box::new(copy_shape(b)))), Box::new(copy_shape(c)))))),
                ),
                _ => copy_shape(shape),
            },
            _ => copy_shape(shape),
        }
    }
}

/// `A ⊗ (B ⊗ C)`, presented sinister, becomes `(A ⊗ B) ⊗ C`.
impl ReassociateKernel for Left {
    open spec fn applies(shape: Shape) -> bool {
        shape matches Shape::Product(_, sbc) && *sbc matches Shape::Sinister(bc) && *bc is Product
    }

    open spec fn reassociated(shape: Shape) -> Shape {
        match shape {
            Shape::Product(a, sbc) => match *sbc {
                Shape::Sinister(bc) => match *bc {
                    Shape::Product(b, c) => Shape::Product(
                        Box::new(Shape::Product(a, Box::new(Shape::Sinister(b)))),
                        c,
                    ),
                    _ => shape,
                },
                _ => shape,
            },
            _ => shape,
        }
    }

    proof fn lemma_dim(shape: Shape) {
        if let Shape::Product(a, sbc) = shape {
            if let Shape::Sinister(bc) = *sbc {
                if let Shape::Product(b, c) = *bc {
                    lemma_mul_is_associative(dim(*a) as int, dim(*b) as int, dim(*c) as int);
                    let sb = Shape::Sinister(b);
                    let ab = Shape::Product(a, Box::new(sb));
                    assert(dim(sb) == dim(*b));
                    assert(dim(ab) == dim(*a) * dim(*b));
                    assert(dim(Shape::Product(Box::new(ab), c)) == dim(ab) * dim(*c));
                    assert(dim(*bc) == dim(*b) * dim(*c));
                    assert(dim(*sbc) == dim(*bc));
                }
            }
        }
    }

    fn reassociated_shape(shape: &Shape) -> (r: Shape) {
        match shape {
            Shape::Product(a, sbc) => match &**sbc {
                Shape::Sinister(bc) => match &**bc {
                    Shape::Product(b, c) => Shape::Product(
                        Box::new(Shape::Product(Box::new(copy_shape(a)), Box::new(Shape::Sinister(Box::new(copy_shape(b)))))),
                        Box::new(copy_shape(c)),
                    ),
                    _ => copy_shape(shape),
                },
                _ => copy_shape(shape),
            },
            _ => copy_shape(shape),
        }
    }
}

/// In `A ⊗ B`, the reassociation selected by `P` inside `A`.
impl<P: ReassociateKernel> ReassociateKernel for OnLeft<P> {
    open spec fn applies(shape: Shape) -> bool {
        shape matches Shape::Product(a, _) && P::applies(*a)
    }

    open spec fn reassociated(shape: Shape) -> Shape {
        match shape {
            Shape::Product(a, b) => Shape::Product(Box::new(P::reassociated(*a)), b),
            _ => shape,
        }
    }

    proof fn lemma_dim(shape: Shape) {
        if let Shape::Product(a, b) = shape {
            P::lemma_dim(*a);
        }
    }

    fn reassociated_shape(shape: &Shape) -> (r: Shape) {
        match shape {
            Shape::Product(a, b) => Shape::Product(Box::new(P::reassociated_shape(a)), Box::new(copy_shape(b))),
            _ => copy_shape(shape),
        }
    }
}

/// In `A ⊗ B`, the reassociation selected by `P` inside `B`.
impl<P: ReassociateKernel> ReassociateKernel for OnRight<P> {
    open spec fn applies(shape: Shape) -> bool {
        shape matches Shape::Product(_, b) && P::applies(*b)
    }

    open spec fn reassociated(shape: Shape) -> Shape {
        match shape {
            Shape::Product(a, b) => Shape::Product(a, Box::new(P::reassociated(*b))),
            _ => shape,
        }
    }

    proof fn lemma_dim(shape: Shape) {
        if let Shape::Product(a, b) = shape {
            P::lemma_dim(*b);
        }
    }

    fn reassociated_shape(shape: &Shape) -> (r: Shape) {
        match shape {
            Shape::Product(a, b) => Shape::Product(Box::new(copy_shape(a)), Box::new(P::reassociated_shape(b))),
            _ => copy_shape(shape),
        }
    }
}

/// Through a sinister presentation, the reassociation selected by `P`
/// inside it.
impl<P: ReassociateKernel> ReassociateKernel for ThroughSinister<P> {
    open spec fn applies(shape: Shape) -> bool {
        shape matches Shape::Sinister(t) && P::applies(*t)
    }

    open spec fn reassociated(shape: Shape) -> Shape {
        match shape {
            Shape::Sinister(t) => Shape::Sinister(Box::new(P::reassociated(*t))),
            _ => shape,
        }
    }

    proof fn lemma_dim(shape: Shape) {
        if let Shape::Sinister(t) = shape {
            P::lemma_dim(*t);
        }
    }

    fn reassociated_shape(shape: &Shape) -> (r: Shape) {
        match shape {
            Shape::Sinister(t) => Shape::Sinister(Box::new(P::reassociated_shape(t))),
            _ => copy_shape(shape),
        }
    }
}

/// Reassociating a tensor: its flat coordinates are kept, its shape
/// becomes `P::reassociated(shape)`.
pub trait Reassociate: Sized {
    /// The number of coordinates.
    spec fn coordinate_count(&self) -> nat;

    /// The coordinates in the reassociated presentation.
    fn reassociate<P: ReassociateKernel>(self, shape: &Shape) -> (r: Self)
        requires
            P::applies(*shape),
            self.coordinate_count() == dim(*shape),
        ensures
            r.coordinate_count() == dim(P::reassociated(*shape)),
    ;
}

impl<T> Reassociate for Vec<T> {
    open spec fn coordinate_count(&self) -> nat {
        self@.len()
    }

    /// The coordinates are unchanged.
    fn reassociate<P: ReassociateKernel>(self, shape: &Shape) -> (r: Self)
        ensures
            r@ == self@,
    {
        proof {
            P::lemma_dim(*shape);
        }
        self
    }
}

} // verus!
