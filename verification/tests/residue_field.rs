use diffable::algebra::{CGroup, CMonoid, DivRing, Field, Monoid, Nat, NatZero, NonZero, RootOfUnity, RootOfUnityPrimitive, Succ, Symmetrized};
use diffable::residue::{Gf7, Seven};

fn g(v: u64) -> Gf7 {
    Gf7::from_u64(v)
}

#[test]
fn residue_classes_reduce_modulo_seven() {
    assert_eq!(g(100).value(), 2);
    assert_eq!(g(7).value(), 0);
    assert_eq!(g(6).value(), 6);
    assert!(g(14).is_zero());
    assert!(g(8).is_one());
}

#[test]
fn residue_field_operations() {
    assert_eq!(g(3).add(&g(5)).value(), 1);
    assert_eq!(g(3).mul(&g(5)).value(), 1);
    assert_eq!(g(3).neg().value(), 4);
    assert_eq!(g(0).neg().value(), 0);
    assert_eq!(g(2).sub(&g(5)).value(), 4);
    assert_eq!(g(3).recip().value(), 5);
    assert_eq!(g(6).recip().value(), 6);
    assert_eq!(g(3).div(&g(5)).value(), 2);
    assert!(g(4).equals(&g(11)));
    assert!(!g(4).equals(&g(5)));
    assert_eq!(g(5).conj().value(), 5);
}

#[test]
fn every_nonzero_residue_has_an_inverse() {
    for v in 1..7u64 {
        assert_eq!(g(v).mul(&g(v).recip()).value(), 1);
    }
}

#[test]
fn residue_powers_and_multiples() {
    // Fermat: x⁶ = 1 for x ≠ 0.
    for v in 1..7u64 {
        assert_eq!(g(v).powi(6).value(), 1);
    }
    assert_eq!(g(3).powi(0).value(), 1);
    assert_eq!(g(3).powi(5).value(), 5);
    assert_eq!(g(2).powi(10).value(), 2);
    assert_eq!(Gf7::from_nat(10).value(), 3);
    assert!(Gf7::from_nat(7).is_zero());
    assert!(Gf7::from_nat(0).is_zero());
}

#[test]
fn characteristic_audit_passes() {
    assert!(Gf7::check_characteristic_up_to(0));
    assert!(Gf7::check_characteristic_up_to(3));
    assert!(Gf7::check_characteristic_up_to(7));
    assert!(Gf7::check_characteristic_up_to(100));
    assert!(Symmetrized::<Gf7>::check_characteristic_up_to(9));
}

#[test]
fn type_level_numerals() {
    assert_eq!(NatZero::numeral(), 0);
    assert_eq!(<Succ<Succ<NatZero>>>::numeral(), 2);
    assert_eq!(Seven::numeral(), 7);
}

#[test]
fn nonzero_certificates() {
    assert!(NonZero::new(g(0)).is_none());
    let three = NonZero::new(g(3)).unwrap();
    assert_eq!(three.get().value(), 3);
    assert!(three.is_nonzero());
    assert_eq!(three.inv().get().value(), 5);
    let two = NonZero::new(g(2)).unwrap();
    assert_eq!(three.mul(&two).get().value(), 6);
    assert_eq!(NonZero::<Gf7>::one().get().value(), 1);
}

#[test]
fn roots_of_unity_certify_their_order() {
    // 2³ = 8 = 1 (mod 7), 3³ = 27 = 6 (mod 7).
    assert!(RootOfUnity::<Gf7, 3>::new(g(2)).is_some());
    assert!(RootOfUnity::<Gf7, 3>::new(g(3)).is_none());
    let r = RootOfUnity::<Gf7, 3>::new(g(2)).unwrap();
    assert_eq!(r.mul(&r).inner().value(), 4);
    assert_eq!(r.inv().inner().value(), 4);
    assert!(RootOfUnity::<Gf7, 3>::one().is_one());
}

#[test]
fn primitive_roots_generate_the_cyclic_group() {
    // 3 generates the multiplicative group of order 6; 2 has order 3.
    assert!(RootOfUnityPrimitive::<Gf7, 6>::new(g(2)).is_none());
    let p = RootOfUnityPrimitive::<Gf7, 6>::new(g(3)).unwrap();
    let roots: Vec<u8> = p.roots_of_unity().into_iter().map(|r| r.inner().value()).collect();
    assert_eq!(roots, vec![1, 3, 2, 6, 4, 5]);
    assert_eq!(p.inner().inner().value(), 3);
}

#[test]
fn symmetrized_field_has_trivial_conjugation() {
    let a = Symmetrized(g(3));
    let b = Symmetrized(g(4));
    assert_eq!(a.mul(&b).0.value(), 5);
    assert_eq!(a.conj().0.value(), 3);
    assert_eq!(a.add(&b).0.value(), 0);
    assert_eq!(a.recip().0.value(), 5);
}
