use diffable::algebra::Monoid;
use diffable::jet::{d, Jet};
use diffable::residue::Gf7;
use diffable::tensor::TensorOver;

fn g(v: u64) -> Gf7 {
    Gf7::from_u64(v)
}

fn coeffs<const N: usize>(j: &Jet<Gf7, N>) -> Vec<u8> {
    (0..j.len()).map(|k| j.index(k).value()).collect()
}

fn jet2(a: u64, b: u64, c: u64) -> Jet<Gf7, 2> {
    Jet::new(g(a), [g(b), g(c)])
}

#[test]
fn jet_construction() {
    let j = jet2(1, 2, 3);
    assert_eq!(j.len(), 3);
    assert_eq!(coeffs(&j), vec![1, 2, 3]);
    assert_eq!(coeffs(&Jet::<Gf7, 2>::from_parts(g(4), [g(5), g(6)])), vec![4, 5, 6]);
    assert_eq!(coeffs(&Jet::<Gf7, 2>::constant(g(3))), vec![3, 0, 0]);
    assert_eq!(coeffs(&Jet::<Gf7, 2>::zero()), vec![0, 0, 0]);
    assert_eq!(coeffs(&Jet::<Gf7, 2>::one()), vec![1, 0, 0]);
    assert!(Jet::<Gf7, 2>::zero().is_zero());
    assert!(jet2(0, 1, 0).is_zero());
    assert!(!jet2(2, 0, 0).is_zero());
}

#[test]
fn jet_ring_operations() {
    let a = jet2(1, 2, 3);
    let b = jet2(4, 5, 6);
    assert_eq!(coeffs(&a.add(&b)), vec![5, 0, 2]);
    assert_eq!(coeffs(&a.sub(&b)), vec![4, 4, 4]);
    assert_eq!(coeffs(&a.neg()), vec![6, 5, 4]);
    // (1 + 2ε + 3ε²)(4 + 5ε + 6ε²) = 4 + 13ε + 28ε² (mod ε³)
    assert_eq!(coeffs(&a.mul(&b)), vec![4, 6, 0]);
}

#[test]
fn jet_series_inverse() {
    // 1/(1 + ε) = 1 - ε + ε²
    let x = jet2(1, 1, 0);
    let y = x.inv();
    assert_eq!(coeffs(&y), vec![1, 6, 1]);
    assert_eq!(coeffs(&x.mul(&y)), vec![1, 0, 0]);
    let z = jet2(3, 2, 5);
    assert_eq!(coeffs(&z.mul(&z.inv())), vec![1, 0, 0]);
    assert_eq!(coeffs(&z.inv().mul(&z)), vec![1, 0, 0]);
}

#[test]
fn jet_derivative_and_integral() {
    let a = jet2(1, 2, 3);
    assert_eq!(coeffs(&a.derivative()), vec![2, 6, 0]);
    let i = Jet::integrate_from(g(5), jet2(1, 2, 3));
    assert_eq!(coeffs(&i), vec![5, 1, 1]);
    // differentiating an antiderivative returns the integrand, top coefficient dropped
    assert_eq!(coeffs(&i.derivative()), vec![1, 2, 0]);
    // integrating a derivative from the primal value returns the jet
    assert_eq!(coeffs(&Jet::integrate_from(g(1), a.derivative())), vec![1, 2, 3]);
}

#[test]
fn jet_truncation() {
    let a = Jet::<Gf7, 3>::new(g(1), [g(2), g(3), g(4)]);
    assert_eq!(coeffs(&a.truncate::<1>()), vec![1, 2]);
    assert_eq!(coeffs(&a.truncate::<3>()), vec![1, 2, 3, 4]);
    assert_eq!(coeffs(&a.truncate::<0>()), vec![1]);
}

#[test]
fn constant_jets_over_a_vector() {
    let t = TensorOver::<Vec<Jet<Gf7, 1>>>::constant(&vec![g(2), g(3)]);
    assert_eq!(t.0.len(), 2);
    assert_eq!(coeffs(&t.0[1]), vec![3, 0]);
}

fn product_and_sum(x: Vec<Jet<Gf7, 1>>) -> Vec<Jet<Gf7, 1>> {
    vec![x[0].mul(&x[1]), x[0].add(&x[1])]
}

#[test]
fn derivative_is_the_jacobian() {
    // f(x, y) = (x·y, x + y) at (2, 3): the rows are ∇(x·y) = (3, 2) and ∇(x + y) = (1, 1).
    let df = d(product_and_sum);
    let m = df.at(&vec![g(2), g(3)]);
    let rows: Vec<Vec<u8>> = (0..2).map(|o| (0..2).map(|i| m.0.get(o, i).value()).collect()).collect();
    assert_eq!(rows, vec![vec![3, 2], vec![1, 1]]);
}

#[test]
fn derivative_of_a_map_to_another_dimension() {
    // g(x, y) = x·x·y at (3, 1): the single row is (2xy, x²) = (6, 9 = 2).
    let dg = d(|x: Vec<Jet<Gf7, 1>>| vec![x[0].mul(&x[0]).mul(&x[1])]);
    let m = dg.at(&vec![g(3), g(1)]);
    assert_eq!(m.0.get(0, 0).value(), 6);
    assert_eq!(m.0.get(0, 1).value(), 2);
}

#[test]
fn directional_derivative() {
    let along = d(product_and_sum).along(vec![g(1), g(1)]);
    let v = along.at(&vec![g(2), g(3)]);
    assert_eq!(v.iter().map(|x| x.value()).collect::<Vec<_>>(), vec![5, 2]);
    let along = d(|x: Vec<Jet<Gf7, 1>>| vec![x[0].mul(&x[0]).mul(&x[0])]).along(vec![g(1)]);
    // d/dx x³ at 2 is 12 = 5 (mod 7)
    assert_eq!(along.at(&vec![g(2)])[0].value(), 5);
}

#[test]
fn exponential_from_its_primal_value() {
    // exp(a + ε) = e^a·(1 + ε + ε²/2), and 1/2 = 4 (mod 7).
    let y = jet2(5, 1, 0).exp_from(g(3));
    assert_eq!(coeffs(&y), vec![3, 3, 5]);
    // exp(2ε + 3ε²) = 1 + 2ε + 5ε²
    let z = jet2(0, 2, 3).exp_from(g(1));
    assert_eq!(coeffs(&z), vec![1, 2, 5]);
    // y' = x'·y, the top coefficient dropped
    let x = jet2(0, 2, 3);
    let lhs = z.derivative();
    let rhs = x.derivative().mul(&z);
    assert_eq!(coeffs(&lhs)[..2], coeffs(&rhs)[..2]);
}

#[test]
fn sine_and_cosine_from_their_primal_values() {
    let (s, c) = jet2(4, 1, 0).sin_cos_from(g(2), g(3));
    assert_eq!(coeffs(&s), vec![2, 3, 6]);
    assert_eq!(coeffs(&c), vec![3, 5, 2]);
}

#[test]
fn hyperbolic_sine_and_cosine_from_their_primal_values() {
    let (s, c) = jet2(4, 1, 0).sinh_cosh_from(g(2), g(3));
    assert_eq!(coeffs(&s), vec![2, 3, 1]);
    assert_eq!(coeffs(&c), vec![3, 2, 5]);
}

#[test]
fn square_root_from_its_primal_value() {
    // √((1 + ε)²) = 1 + ε
    let y = jet2(1, 2, 1).sqrt_from(g(1));
    assert_eq!(coeffs(&y), vec![1, 1, 0]);
    // √(2 + ε) with √2 = 3 (mod 7): 3 + 6ε + ε², whose square is 2 + ε
    let x = jet2(2, 1, 0);
    let z = x.sqrt_from(g(3));
    assert_eq!(coeffs(&z), vec![3, 6, 1]);
    assert_eq!(coeffs(&z.mul(&z)), vec![2, 1, 0]);
    // a constant zero jet has the constant square root
    assert_eq!(coeffs(&jet2(0, 0, 0).sqrt_from(g(0))), vec![0, 0, 0]);
}

#[test]
fn directional_derivative_of_a_cube() {
    // d(x³) along 4 at 3 is 3·3²·4 = 108 = 3 (mod 7)
    let along = d(|x: Vec<Jet<Gf7, 1>>| vec![x[0].mul(&x[0]).mul(&x[0])]).along(vec![g(4)]);
    assert_eq!(along.at(&vec![g(3)])[0].value(), 3);
}

#[test]
fn logarithm_from_its_primal_value() {
    // ln(2 + ε) = ln 2 + ε/2 - ε²/8, and 1/2 = 4, 1/8 = 1 (mod 7)
    let x = jet2(2, 1, 0);
    let y = x.ln_from(g(5));
    assert_eq!(coeffs(&y), vec![5, 4, 6]);
    // x·y' = x', below the top coefficient
    let lhs = x.mul(&y.derivative());
    assert_eq!(coeffs(&lhs)[..2], coeffs(&x.derivative())[..2]);
}

#[test]
fn inverse_trigonometric_functions_from_their_primal_values() {
    // atan(1 + ε) = atan 1 + ε/2 - ε²/4: 1/2 = 4, -1/4 = 5 (mod 7)
    assert_eq!(coeffs(&jet2(1, 1, 0).atan_from(g(6))), vec![6, 4, 5]);
    // near zero the odd functions start as the identity
    assert_eq!(coeffs(&jet2(0, 1, 0).atan_from(g(0))), vec![0, 1, 0]);
    assert_eq!(coeffs(&jet2(0, 1, 0).atanh_from(g(0))), vec![0, 1, 0]);
    assert_eq!(coeffs(&jet2(0, 1, 0).asin_from(g(0), g(1))), vec![0, 1, 0]);
    assert_eq!(coeffs(&jet2(0, 1, 0).asinh_from(g(0), g(1))), vec![0, 1, 0]);
    // acos(ε) = acos 0 - ε
    assert_eq!(coeffs(&jet2(0, 1, 0).acos_from(g(2), g(1))), vec![2, 6, 0]);
}

#[test]
fn hyperbolic_tangent_from_its_primal_value() {
    // tanh(a + ε) = T + (1 - T²)ε - T(1 - T²)ε² with T = tanh a = 2
    assert_eq!(coeffs(&jet2(3, 1, 0).tanh_from(g(2))), vec![2, 4, 6]);
    assert_eq!(coeffs(&jet2(0, 1, 0).tanh_from(g(0))), vec![0, 1, 0]);
}

#[test]
fn third_derivative_of_a_cube_is_six() {
    // x³ at x = -6 = 1 (mod 7): the third Taylor coefficient is 1, and
    // 3!·1 = 6.
    let x: Jet<Gf7, 3> = Jet::new(g(1), [g(1), g(0), g(0)]);
    let cube = x.mul(&x).mul(&x);
    assert_eq!(coeffs(&cube), vec![1, 3, 3, 1]);
    let third = g(6).mul(&cube.index(3));
    assert_eq!(third.value(), 6);
}
