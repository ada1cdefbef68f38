use diffable::elimination::diagonalise;
use diffable::homology::{gcd, make_divisibility_chain, Abelianisation};

#[test]
fn gcd_of_absolute_values() {
    assert_eq!(gcd(12, -18), 6);
    assert_eq!(gcd(-7, 0), 7);
    assert_eq!(gcd(0, 0), 0);
    assert_eq!(gcd(17, 5), 1);
}

#[test]
fn divisibility_chain_replaces_coprime_neighbours() {
    let mut inv = vec![2, 3, 0];
    assert!(make_divisibility_chain(&mut inv));
    assert_eq!(inv, vec![1, 6, 0]);

    let mut inv = vec![4, 6, 10];
    assert!(make_divisibility_chain(&mut inv));
    assert_eq!(inv, vec![2, 2, 60]);

    let mut inv = vec![2, 4, 8];
    assert!(make_divisibility_chain(&mut inv));
    assert_eq!(inv, vec![2, 4, 8]);
}

#[test]
fn divisibility_chain_keeps_the_group() {
    // ℤ/4 ⊕ ℤ/4 is already a chain and is not ℤ/2 ⊕ ℤ/8.
    let mut inv = vec![4, 4];
    assert!(make_divisibility_chain(&mut inv));
    assert_eq!(inv, vec![4, 4]);
    // ℤ/12 ⊕ ℤ/18 ≅ ℤ/6 ⊕ ℤ/36.
    let mut inv = vec![12, 18, 0];
    assert!(make_divisibility_chain(&mut inv));
    assert_eq!(inv, vec![6, 36, 0]);
}

#[test]
fn divisibility_chain_reports_lcm_overflow() {
    let big = i64::MAX / 2 + 1; // 2⁶²
    let mut inv = vec![big, 3];
    assert!(!make_divisibility_chain(&mut inv));
    assert_eq!(inv, vec![big, 3]);
}

#[test]
fn diagonalise_small_matrix() {
    let mut mat = vec![vec![2, 4], vec![6, 8]];
    let mut r = vec![vec![1, 0], vec![0, 1]];
    assert!(diagonalise(&mut mat, &mut r, 2));
    assert_eq!(mat[0][1], 0);
    assert_eq!(mat[1][0], 0);
    // |det| = 8 is preserved by unimodular operations.
    assert_eq!((mat[0][0] * mat[1][1]).abs(), 8);
}

#[test]
fn diagonalise_accepts_a_zero_matrix() {
    let mut mat = vec![vec![0, 0, 0], vec![0, 0, 0]];
    let mut r = vec![vec![1, 0], vec![0, 1]];
    assert!(diagonalise(&mut mat, &mut r, 3));
    assert_eq!(mat, vec![vec![0, 0, 0], vec![0, 0, 0]]);
    assert_eq!(r, vec![vec![1, 0], vec![0, 1]]);
}

#[test]
fn diagonalise_transform_is_unimodular() {
    // R·A = D·C with R unimodular: |det R| = 1.
    let a = vec![vec![4, 6], vec![6, 9], vec![2, 5]];
    let mut mat = a.clone();
    let mut r = vec![vec![1, 0, 0], vec![0, 1, 0], vec![0, 0, 1]];
    assert!(diagonalise(&mut mat, &mut r, 2));
    let det = r[0][0] * (r[1][1] * r[2][2] - r[1][2] * r[2][1])
        - r[0][1] * (r[1][0] * r[2][2] - r[1][2] * r[2][0])
        + r[0][2] * (r[1][0] * r[2][1] - r[1][1] * r[2][0]);
    assert_eq!(det.abs(), 1);
    // Row i of R·A is a multiple of D[i][i].
    for i in 0..3 {
        for j in 0..2 {
            let x: i64 = (0..3).map(|k| r[i][k] * a[k][j]).sum();
            let d = if i < 2 { mat[i][i] } else { 0 };
            if d == 0 {
                assert_eq!(x, 0);
            } else {
                assert_eq!(x % d, 0);
            }
        }
    }
}

#[test]
fn diagonalise_column_of_two_and_four() {
    let mut mat = vec![vec![2], vec![4]];
    let mut r = vec![vec![1, 0], vec![0, 1]];
    assert!(diagonalise(&mut mat, &mut r, 1));
    assert_eq!(mat, vec![vec![2], vec![0]]);
    assert_eq!(r, vec![vec![1, 0], vec![-2, 1]]);
}

#[test]
fn diagonalise_accumulates_onto_any_transform() {
    // The same row operations as from the identity, applied to R0: R = U·R0.
    let mut mat = vec![vec![2], vec![4]];
    let mut r = vec![vec![1, 1], vec![0, 1]];
    assert!(diagonalise(&mut mat, &mut r, 1));
    assert_eq!(mat, vec![vec![2], vec![0]]);
    assert_eq!(r, vec![vec![1, 1], vec![-2, -1]]);
}

#[test]
fn no_relations_always_succeeds() {
    let a = Abelianisation::from_relations(3, vec![]).unwrap();
    assert_eq!(a.free_rank(), 3);
    assert_eq!(a.identity(), vec![0, 0, 0]);
}

#[test]
fn diagonalise_reports_overflow() {
    let mut mat = vec![vec![i64::MIN, 1], vec![1, i64::MIN]];
    let mut r = vec![vec![1, 0], vec![0, 1]];
    let ok = diagonalise(&mut mat, &mut r, 2);
    assert_eq!(mat.len(), 2);
    assert_eq!(r.len(), 2);
    if ok {
        assert_eq!(mat[0][1], 0);
        assert_eq!(mat[1][0], 0);
    }
}

#[test]
fn cyclic_group_of_order_two() {
    let a = Abelianisation::from_relations(1, vec![vec![2]]).unwrap();
    assert_eq!(a.torsion(), vec![2]);
    assert_eq!(a.free_rank(), 0);
    assert!(a.is_finite());
    let id = a.identity();
    assert_eq!(id, vec![0]);
    let once = a.extend(&id, Some((0, false)));
    assert_eq!(once, vec![1]);
    let twice = a.extend(&once, Some((0, false)));
    assert_eq!(twice, id);
    assert_eq!(a.extend(&id, Some((0, true))), vec![1]);
    assert_eq!(a.extend(&once, None), once);
}

#[test]
fn free_abelian_group_of_rank_two() {
    let a = Abelianisation::from_relations(2, vec![]).unwrap();
    assert_eq!(a.free_rank(), 2);
    assert!(a.torsion().is_empty());
    assert!(!a.is_finite());
    let id = a.identity();
    assert_eq!(id, vec![0, 0]);
    let k = a.extend(&id, Some((1, false)));
    let k = a.extend(&k, Some((1, false)));
    let k = a.extend(&k, Some((0, true)));
    assert_eq!(k, vec![-1, 2]);
    let back = a.extend(&a.extend(&k, Some((1, true))), Some((1, true)));
    assert_eq!(a.extend(&back, Some((0, false))), id);
}

#[test]
fn coprime_torsion_combines_into_one_cyclic_factor() {
    // ℤ/2 ⊕ ℤ/3 ≅ ℤ/6.
    let a = Abelianisation::from_relations(2, vec![vec![2, 0], vec![0, 3]]).unwrap();
    assert_eq!(a.torsion(), vec![6]);
    assert_eq!(a.free_rank(), 0);
    assert!(a.is_finite());
    let id = a.identity();
    assert_eq!(id, vec![0, 0]);
    // The keys are read modulo the diagonal 2, 3 of the elimination.
    let g0 = a.extend(&id, Some((0, false)));
    assert_eq!(g0, vec![1, 0]);
    assert_ne!(g0, id);
    let g1 = a.extend(&id, Some((1, false)));
    assert_eq!(g1, vec![0, 1]);
    let mut k = id.clone();
    for _ in 0..6 {
        k = a.extend(&k, Some((1, false)));
    }
    assert_eq!(k, id);
}

#[test]
fn relator_words_have_the_identity_key() {
    // g₁³ is a relator of ℤ/2 ⊕ ℤ/3, so it is trivial in H₁.
    let a = Abelianisation::from_relations(2, vec![vec![2, 0], vec![0, 3]]).unwrap();
    let e = Some((1, false));
    let k3 = a.extend(&a.extend(&a.extend(&a.identity(), e), e), e);
    assert_eq!(k3, a.identity());
    // g₀² likewise, while g₀ alone has order 2.
    let g0 = a.extend(&a.identity(), Some((0, false)));
    assert_ne!(g0, a.identity());
    assert_eq!(a.extend(&g0, Some((0, false))), a.identity());
    // g₀·g₁ has order 6.
    let mut k = a.identity();
    for step in 1..=6 {
        k = a.extend(&k, Some((0, false)));
        k = a.extend(&k, Some((1, false)));
        assert_eq!(k == a.identity(), step == 6);
    }
}

#[test]
fn keys_of_relations_vanish_on_a_divisibility_chain() {
    // ℤ/2 ⊕ ℤ/4: the diagonal is already a chain.
    let a = Abelianisation::from_relations(2, vec![vec![2, 0], vec![0, 4]]).unwrap();
    assert_eq!(a.torsion(), vec![2, 4]);
    let id = a.identity();
    let g0 = a.extend(&id, Some((0, false)));
    assert_ne!(g0, id);
    assert_eq!(a.extend(&g0, Some((0, false))), id);
    let mut k = id.clone();
    for _ in 0..4 {
        k = a.extend(&k, Some((1, true)));
    }
    assert_eq!(k, id);
}

#[test]
fn mixed_free_and_torsion() {
    // ⟨a, b | 4a⟩ ≅ ℤ/4 ⊕ ℤ, with relation entries beyond n ignored.
    let a = Abelianisation::from_relations(2, vec![vec![4, 0, 9]]).unwrap();
    assert_eq!(a.torsion(), vec![4]);
    assert_eq!(a.free_rank(), 1);
    assert!(!a.is_finite());
    assert_eq!(a.identity().len(), 2);
}

#[test]
fn trivial_group_has_empty_keys() {
    let a = Abelianisation::from_relations(1, vec![vec![1]]).unwrap();
    assert!(a.torsion().is_empty());
    assert_eq!(a.free_rank(), 0);
    assert!(a.identity().is_empty());
    assert!(a.extend(&a.identity(), Some((0, false))).is_empty());
}

#[test]
fn extension_check_tracks_i64_range() {
    let a = Abelianisation::from_relations(1, vec![]).unwrap();
    assert_eq!(a.free_rank(), 1);
    assert!(a.check_extend(&[5], None));
    assert!(a.check_extend(&[5], Some((0, false))));
    assert!(a.check_extend(&[i64::MAX - 1], Some((0, false))));
    assert!(!a.check_extend(&[i64::MAX], Some((0, false))));
    assert!(a.check_extend(&[i64::MAX], Some((0, true))));
    assert!(!a.check_extend(&[i64::MIN], Some((0, true))));
    assert!(!a.check_extend(&[0], Some((1, false))));
}
