use diffable::jet::Jet;
use diffable::residue::Gf7;
use diffable::transport::{
    connection_matrix, evaluate_series, fundamental_solution, magnus_exponent, transport_step,
};

fn g(v: u64) -> Gf7 {
    Gf7::from_u64(v)
}

fn jet(c: [u64; 3]) -> Jet<Gf7, 2> {
    Jet::new(g(c[0]), [g(c[1]), g(c[2])])
}

fn coeffs(j: &Jet<Gf7, 2>) -> Vec<u8> {
    (0..3).map(|k| j.index(k).value()).collect()
}

#[test]
fn horner_evaluates_the_taylor_polynomial() {
    // 1 + 3·2 + 1·4 = 11 = 4 (mod 7)
    assert_eq!(evaluate_series(&jet([1, 3, 1]), g(2)).value(), 4);
    assert_eq!(evaluate_series(&jet([5, 3, 1]), g(0)).value(), 5);
    let single: Jet<Gf7, 0> = Jet::new(g(6), []);
    assert_eq!(evaluate_series(&single, g(3)).value(), 6);
}

#[test]
fn constant_coefficient_gives_the_exponential_series() {
    // X' = 3X: X = 1 + 3t + (9/2)t² and 9/2 = 9·4 = 1 (mod 7).
    let a = vec![vec![jet([3, 0, 0])]];
    let x = fundamental_solution(&a);
    assert_eq!(coeffs(&x[0][0]), vec![1, 3, 1]);
    // X' = A·X, the top coefficient dropped
    let lhs = x[0][0].derivative();
    let rhs = a[0][0].mul(&x[0][0]);
    assert_eq!(coeffs(&lhs)[..2], coeffs(&rhs)[..2]);
    let step = transport_step(&a, g(2));
    assert_eq!(step.get(0, 0).value(), 4);
}

#[test]
fn time_dependent_coefficient() {
    // X' = tX: X = 1 + t²/2 + …, and 1/2 = 4 (mod 7).
    let a = vec![vec![jet([0, 1, 0])]];
    let x = fundamental_solution(&a);
    assert_eq!(coeffs(&x[0][0]), vec![1, 0, 4]);
}

#[test]
fn nilpotent_connection_shears() {
    let a = vec![
        vec![jet([0, 0, 0]), jet([1, 0, 0])],
        vec![jet([0, 0, 0]), jet([0, 0, 0])],
    ];
    let x = fundamental_solution(&a);
    assert_eq!(coeffs(&x[0][0]), vec![1, 0, 0]);
    assert_eq!(coeffs(&x[0][1]), vec![0, 1, 0]);
    assert_eq!(coeffs(&x[1][0]), vec![0, 0, 0]);
    assert_eq!(coeffs(&x[1][1]), vec![1, 0, 0]);
    let step = transport_step(&a, g(3));
    assert_eq!(step.get(0, 1).value(), 3);
    assert_eq!(step.get(0, 0).value(), 1);
    assert_eq!(step.get(1, 0).value(), 0);
}

#[test]
fn zero_step_is_the_identity() {
    let a = vec![
        vec![jet([2, 5, 1]), jet([1, 1, 1])],
        vec![jet([4, 0, 3]), jet([6, 2, 0])],
    ];
    let step = transport_step(&a, g(0));
    for i in 0..2 {
        for j in 0..2 {
            assert_eq!(step.get(i, j).value(), if i == j { 1 } else { 0 });
        }
    }
}

#[test]
fn empty_connection() {
    let a: Vec<Vec<Jet<Gf7, 2>>> = vec![];
    assert!(fundamental_solution(&a).is_empty());
}

#[test]
fn magnus_exponent_of_a_constant_coefficient() {
    // X' = 3X: Ω = 3t, and B₁/1! = -1/2 = 3 (mod 7).
    let a = vec![vec![jet([3, 0, 0])]];
    let omega = magnus_exponent(&a, &vec![g(1), g(3)]);
    assert_eq!(coeffs(&omega[0][0]), vec![0, 3, 0]);
}

#[test]
fn magnus_exponent_integrates_a_scalar_coefficient() {
    // X' = tX: Ω = t²/2, and 1/2 = 4 (mod 7).
    let a = vec![vec![jet([0, 1, 0])]];
    let omega = magnus_exponent(&a, &vec![g(1), g(3)]);
    assert_eq!(coeffs(&omega[0][0]), vec![0, 0, 4]);
}

#[test]
fn magnus_exponent_of_a_nilpotent_connection() {
    // A constant A commutes with Ω = A·t, so Ω = A·t.
    let a = vec![
        vec![jet([0, 0, 0]), jet([2, 0, 0])],
        vec![jet([0, 0, 0]), jet([0, 0, 0])],
    ];
    let omega = magnus_exponent(&a, &vec![g(1), g(3)]);
    assert_eq!(coeffs(&omega[0][0]), vec![0, 0, 0]);
    assert_eq!(coeffs(&omega[0][1]), vec![0, 2, 0]);
    assert_eq!(coeffs(&omega[1][0]), vec![0, 0, 0]);
    assert_eq!(coeffs(&omega[1][1]), vec![0, 0, 0]);
}

fn jet3(c: [u64; 4]) -> Jet<Gf7, 3> {
    Jet::new(g(c[0]), [g(c[1]), g(c[2]), g(c[3])])
}

fn coeffs3(j: &Jet<Gf7, 3>) -> Vec<u8> {
    (0..4).map(|k| j.index(k).value()).collect()
}

#[test]
fn magnus_exponent_carries_the_commutator_term() {
    // A = A₀ + A₁t with [A₀, A₁] = diag(1, -1): Ω = A₀t + A₁t²/2 − (1/12)[A₀, A₁]t³,
    // and 1/2 = 4, −1/12 = 4 (mod 7).
    let a = vec![
        vec![jet3([0, 0, 0, 0]), jet3([1, 0, 0, 0])],
        vec![jet3([0, 1, 0, 0]), jet3([0, 0, 0, 0])],
    ];
    // Bernoulli coefficients 1, −1/2, 1/12.
    let omega = magnus_exponent(&a, &vec![g(1), g(3), g(3)]);
    assert_eq!(coeffs3(&omega[0][0]), vec![0, 0, 0, 4]);
    assert_eq!(coeffs3(&omega[0][1]), vec![0, 1, 0, 0]);
    assert_eq!(coeffs3(&omega[1][0]), vec![0, 0, 4, 0]);
    assert_eq!(coeffs3(&omega[1][1]), vec![0, 0, 0, 3]);
}

#[test]
fn magnus_exponent_solves_the_magnus_equation_for_a_scalar() {
    // For a 1×1 coefficient the commutators vanish: Ω(0) = 0 and Ω' = A up
    // to the order a jet holds.
    let a = vec![vec![jet([2, 5, 1])]];
    let omega = magnus_exponent(&a, &vec![g(1), g(3)]);
    assert_eq!(coeffs(&omega[0][0])[0], 0);
    assert_eq!(coeffs(&omega[0][0].derivative()), vec![2, 5, 0]);
}

#[test]
fn connection_matrix_contracts_christoffel_with_velocity() {
    // n = 2, Γ⁰₁₁ = 3 at index (1·2 + 1)·2 + 0 = 6, velocity (1, 2):
    // A[0][1] = −Γ⁰₁₁·2 = −6 = 1 (mod 7); every other entry is 0.
    let gamma: Vec<Jet<Gf7, 2>> =
        (0..8).map(|q| if q == 6 { jet([3, 0, 0]) } else { jet([0, 0, 0]) }).collect();
    let velocity = vec![jet([1, 0, 0]), jet([2, 0, 0])];
    let a = connection_matrix(&gamma, &velocity);
    assert_eq!(a.len(), 2);
    assert_eq!(coeffs(&a[0][1]), vec![1, 0, 0]);
    assert_eq!(coeffs(&a[0][0]), vec![0, 0, 0]);
    assert_eq!(coeffs(&a[1][0]), vec![0, 0, 0]);
    assert_eq!(coeffs(&a[1][1]), vec![0, 0, 0]);
}

#[test]
fn transport_along_a_curve_from_its_christoffel_symbols() {
    // n = 1, Γ = 2, velocity 1 + t: A = −2 − 2t = 5 + 5t (mod 7), and
    // X' = A·X, X(0) = 1 gives X = 1 + 5t + ((25 + 5)/2)t² = 1 + 5t + 1·t².
    let gamma = vec![jet([2, 0, 0])];
    let velocity = vec![jet([1, 1, 0])];
    let a = connection_matrix(&gamma, &velocity);
    assert_eq!(coeffs(&a[0][0]), vec![5, 5, 0]);
    let x = fundamental_solution(&a);
    assert_eq!(coeffs(&x[0][0]), vec![1, 5, 1]);
}
