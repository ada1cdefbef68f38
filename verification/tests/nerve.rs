use diffable::nerve::{
    build_topology, fundamental_group, Arena, ArcPoly, GeodesicCertificate, Keys,
    NerveComplexParameters, StraighteningResult, CANONICAL_LIMIT,
};
use diffable::residue::Gf7;

fn ring(n: usize) -> Vec<Vec<usize>> {
    (0..n).map(|i| vec![(i + n - 1) % n, (i + 1) % n]).collect()
}

fn octahedron() -> Vec<Vec<usize>> {
    // Antipodal pairs (0,1), (2,3), (4,5); all other pairs adjacent.
    (0..6)
        .map(|i: usize| (0..6).filter(|&j| j != i && j != (i ^ 1)).collect())
        .collect()
}

#[test]
fn single_chart_is_simply_connected() {
    let t = build_topology(&vec![vec![]]).unwrap();
    assert_eq!(t.n_generators, 0);
    assert!(t.relations.is_empty());
    assert_eq!(t.abel.free_rank(), 0);
    let g = fundamental_group(&t, 7);
    assert_eq!(g.n_generators, 0);
    assert!(g.relations.is_empty());
}

#[test]
fn filled_triangle_is_simply_connected() {
    let t = build_topology(&vec![vec![1, 2], vec![0, 2], vec![0, 1]]).unwrap();
    assert_eq!(t.n_generators, 1);
    assert_eq!(t.relations.len(), 1);
    assert_eq!(t.relations[0].len(), 1);
    assert!(t.abel.is_finite());
    assert!(t.abel.torsion().is_empty());
    let g = fundamental_group(&t, 7);
    assert_eq!(g.n_generators, 0);
    assert!(g.relations.is_empty());
}

#[test]
fn ring_of_charts_has_one_free_generator() {
    for n in [4usize, 5, 6] {
        let t = build_topology(&ring(n)).unwrap();
        assert_eq!(t.n_generators, 1);
        assert!(t.relations.is_empty());
        assert_eq!(t.abel.free_rank(), 1);
        assert!(!t.abel.is_finite());
        let g = fundamental_group(&t, 7);
        assert_eq!(g.n_generators, 1);
        assert!(g.relations.is_empty());
    }
}

#[test]
fn ring_edges_carry_the_generator_in_both_orientations() {
    let t = build_topology(&ring(4)).unwrap();
    let mut found = 0;
    for i in 0..4 {
        for j in 0..4 {
            if let Some((g, inverted)) = t.edge_gen[i][j] {
                assert_eq!(g, 0);
                assert_eq!(t.edge_gen[j][i], Some((g, !inverted)));
                found += 1;
            }
        }
    }
    assert_eq!(found, 2);
    assert_eq!(t.edge_gen[0][2], None);
}

#[test]
fn octahedron_is_simply_connected() {
    let t = build_topology(&octahedron()).unwrap();
    // 12 edges, 5 on the spanning tree.
    assert_eq!(t.n_generators, 7);
    assert!(t.abel.is_finite());
    assert!(t.abel.torsion().is_empty());
    let g = fundamental_group(&t, 7);
    assert_eq!(g.n_generators, 0);
    assert!(g.relations.is_empty());
}

#[test]
fn keys_memoize_translations() {
    let t = build_topology(&ring(4)).unwrap();
    let mut keys = Keys::new(&t.abel);
    assert_eq!(keys.key(0), vec![0]);
    let a = keys.step(0, Some((0, false)));
    assert_eq!(a, 1);
    assert_eq!(keys.key(a), vec![1]);
    let again = keys.step(0, Some((0, false)));
    assert_eq!(again, a);
    assert_eq!(keys.step(a, Some((0, true))), 0);
    assert_eq!(keys.step(a, None), a);
    let b = keys.step(a, Some((0, false)));
    assert_eq!(keys.key(b), vec![2]);
    assert_eq!(keys.intern(vec![1]), a);
    assert_eq!(keys.intern(vec![-1]), 3);
}

#[test]
fn arena_records_prefix_trees() {
    let mut arena = Arena::new();
    let root = arena.push(5, None);
    let mid = arena.push(7, Some(root));
    let tip = arena.push(9, Some(mid));
    let side = arena.push(4, Some(root));
    assert_eq!((root, mid, tip, side), (0, 1, 2, 3));
    assert_eq!(arena.path(tip), vec![5, 7, 9]);
    assert_eq!(arena.path(side), vec![5, 4]);
    assert_eq!(arena.node(mid), 7);
    assert!(arena.contains(tip, 7));
    assert!(arena.contains(tip, 5));
    assert!(!arena.contains(mid, 9));
    assert!(!arena.contains(side, 7));
    assert_eq!(arena.len(), 4);
}

#[test]
fn checked_key_steps_refuse_what_step_cannot_take() {
    let t = build_topology(&ring(4)).unwrap();
    let mut keys = Keys::new(&t.abel);
    assert_eq!(keys.len(), 1);
    assert_eq!(keys.try_step(0, Some((0, false))), Some(1));
    assert_eq!(keys.key(1), vec![1]);
    assert_eq!(keys.try_step(1, None), Some(1));
    assert_eq!(keys.try_step(5, None), None);
    assert_eq!(keys.try_step(0, Some((1, false))), None);
    let top = keys.intern(vec![i64::MAX]);
    assert_eq!(keys.try_step(top, Some((0, false))), None);
    assert_eq!(keys.len(), 3);
    assert_eq!(keys.try_step(top, Some((0, true))), Some(3));
    assert_eq!(keys.key(3), vec![i64::MAX - 1]);
}

struct Defaults;
impl NerveComplexParameters for Defaults {}

#[test]
fn parameter_defaults() {
    assert_eq!(Defaults::max_candidate_paths(), 512);
    assert_eq!(Defaults::max_frontier(), 1024 * 1024);
    assert_eq!(Defaults::max_rescues(), 64);
    assert_eq!(Defaults::max_samples(), 64);
    assert_eq!(Defaults::max_canonical_generators(), 7);
    assert_eq!(Defaults::prefix_smoothing_sweeps(), 2);
    assert_eq!(Defaults::max_basins_per_class(), 8);
    assert_eq!(Defaults::max_straightening_iterations(10), 464);
    assert_eq!(Defaults::max_straightening_iterations(200), 100_000);
    assert_eq!(Defaults::max_straightening_iterations(usize::MAX), 100_000);
    assert_eq!(CANONICAL_LIMIT, 31);
}

#[test]
fn certificates_are_global_only_when_everything_holds() {
    let full = GeodesicCertificate {
        bound_asserted: true,
        search_exhaustive: true,
        straightening_result: StraighteningResult::Success,
    };
    assert!(full.is_global());
    let stalled = GeodesicCertificate { straightening_result: StraighteningResult::Stalled(3), ..full };
    assert!(!stalled.is_global());
    let capped = GeodesicCertificate { search_exhaustive: false, ..full };
    assert!(!capped.is_global());
}

#[test]
fn arc_polyline_total_is_last_cumulative_length() {
    let p: ArcPoly<u8, Gf7> = ArcPoly { pts: vec![0, 1, 2], cum: vec![Gf7::from_u64(0), Gf7::from_u64(1), Gf7::from_u64(3)] };
    assert_eq!(p.total().value(), 3);
    let empty: ArcPoly<u8, Gf7> = ArcPoly { pts: vec![], cum: vec![] };
    assert_eq!(empty.total().value(), 0);
}

#[test]
fn a_triangle_free_nerve_always_gets_a_topology() {
    // A ring has no triangles: the construction cannot fail.
    for n in 3..8 {
        let t = build_topology(&ring(n));
        assert!(t.is_some());
    }
    // A star, a tree: no generators either.
    let star = vec![vec![1, 2, 3], vec![0], vec![0], vec![0]];
    assert!(build_topology(&star).is_some());
}
