use diffable::dual::{AlongItself, ChartChange, Connection, Dual, Power, Program};
use diffable::jet::d;
use diffable::residue::Gf7;

fn g(v: u64) -> Gf7 {
    Gf7::from_u64(v)
}

fn values(v: &[Gf7]) -> Vec<u8> {
    v.iter().map(|x| x.value()).collect()
}

#[test]
fn third_derivative_of_the_cube_is_six() {
    // d(d(d(cube))) at -6 = 1 (mod 7): the third derivative of x³ is 6.
    let third = d(d(d(Power { exponent: 3 }))).apply(&vec![g(1)]);
    assert_eq!(values(&third), vec![6]);
    let third_elsewhere = d(d(d(Power { exponent: 3 }))).apply(&vec![g(4)]);
    assert_eq!(values(&third_elsewhere), vec![6]);
}

#[test]
fn lower_derivatives_of_the_cube() {
    // 3x² and 6x at x = 2: 12 = 5 (mod 7) both.
    assert_eq!(values(&d(Power { exponent: 3 }).apply(&vec![g(2)])), vec![5]);
    assert_eq!(values(&d(d(Power { exponent: 3 })).apply(&vec![g(2)])), vec![5]);
    assert_eq!(values(&Power { exponent: 3 }.apply(&vec![g(2)])), vec![1]);
}

#[test]
fn a_derivative_along_the_point_is_differentiable() {
    // v ↦ D(cube)_v(v) = 3v³ has derivative 9v²: 9 = 2 (mod 7) at v = 1,
    // and 441 = 0 (mod 7) at v = 7.
    let f = d(AlongItself(Power { exponent: 3 }));
    assert_eq!(values(&f.apply(&vec![g(1)])), vec![2]);
    assert_eq!(values(&f.apply(&vec![g(7)])), vec![0]);
    // 3v³ itself at v = 2: 24 = 3 (mod 7).
    assert_eq!(values(&AlongItself(Power { exponent: 3 }).apply(&vec![g(2)])), vec![3]);
}

#[test]
fn derivative_columns_of_a_map_of_the_plane() {
    // (x, y) ↦ (x³, y³) at (1, 2): columns (3, 0) and (0, 12 = 5).
    let jac = d(Power { exponent: 3 }).apply(&vec![g(1), g(2)]);
    assert_eq!(values(&jac), vec![3, 0, 0, 5]);
}

#[test]
fn jets_keep_both_coefficients() {
    // (2 + ε)³ = 8 + 12ε = 1 + 5ε (mod 7).
    let out = d(Power { exponent: 3 }).jet_at(&vec![Dual { value: g(2), tangent: g(1) }]);
    assert_eq!(out.len(), 1);
    assert_eq!(out[0].value.value(), 1);
    assert_eq!(out[0].tangent.value(), 5);
}

#[test]
fn christoffel_symbols_are_minus_the_second_derivative() {
    // The coordinate change y ↦ y² has second derivative 2: Γ = -2 = 5 (mod 7).
    let c = ChartChange(Power { exponent: 2 });
    let g1 = Connection::<Gf7>::christoffel_symbols(&c, &vec![g(3)]).unwrap();
    assert_eq!(values(&g1), vec![5]);
    // In the plane, only Γ⁰₀₀ and Γ¹₁₁ are nonzero.
    let g2 = Connection::<Gf7>::christoffel_symbols(&c, &vec![g(1), g(2)]).unwrap();
    assert_eq!(values(&g2), vec![5, 0, 0, 0, 0, 0, 0, 5]);
    // A linear change of coordinates has no Christoffel symbols.
    let flat = ChartChange(Power { exponent: 1 });
    let g3 = Connection::<Gf7>::christoffel_symbols(&flat, &vec![g(4), g(5)]).unwrap();
    assert_eq!(values(&g3), vec![0; 8]);
}
