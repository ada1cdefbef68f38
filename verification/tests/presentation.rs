use diffable::presentation::{
    canonical_relator, canonicalize_presentation, check_exactly_equal, copy_word, copy_words,
    cyclic_reduce, free_reduce, invert, next_permutation, substitute, tietze_simplify, word_less,
    words_equal, FundamentalGroupPresentation, GroupPresentation, StaticGroupPresentation,
    StaticWord,
};

const A: (usize, bool) = (0, false);
const AI: (usize, bool) = (0, true);
const B: (usize, bool) = (1, false);
const BI: (usize, bool) = (1, true);
const C: (usize, bool) = (2, false);
const CI: (usize, bool) = (2, true);

#[test]
fn free_reduction_cancels_adjacent_inverses() {
    assert_eq!(free_reduce(vec![A, B, BI, AI, C]), vec![C]);
    assert_eq!(free_reduce(vec![A, AI, A]), vec![A]);
    assert_eq!(free_reduce(vec![A, B]), vec![A, B]);
    assert!(free_reduce(vec![]).is_empty());
}

#[test]
fn inverse_word_reverses_and_flips() {
    assert_eq!(invert(&[A, BI]), vec![B, AI]);
    assert!(invert(&[]).is_empty());
}

#[test]
fn cyclic_reduction_strips_conjugating_letters() {
    assert_eq!(cyclic_reduce(vec![A, B, AI]), vec![B]);
    assert_eq!(cyclic_reduce(vec![A, B, C, BI, AI]), vec![C]);
    assert!(cyclic_reduce(vec![A, AI]).is_empty());
    assert_eq!(cyclic_reduce(vec![A, B, A]), vec![A, B, A]);
}

#[test]
fn word_order_is_lexicographic() {
    assert!(word_less(&[A], &[AI]));
    assert!(word_less(&[A], &[A, A]));
    assert!(word_less(&[AI, C], &[B]));
    assert!(!word_less(&[B], &[B]));
    assert!(!word_less(&[B], &[A, C]));
}

#[test]
fn canonical_relator_is_least_rotation_or_inverse_rotation() {
    assert_eq!(canonical_relator(&[B, A]), vec![A, B]);
    assert_eq!(canonical_relator(&[B, A, BI, AI]), vec![A, B, AI, BI]);
    assert_eq!(canonical_relator(&[AI, AI]), vec![A, A]);
    assert!(canonical_relator(&[]).is_empty());
}

#[test]
fn substitution_replaces_each_occurrence() {
    assert_eq!(substitute(&[A, B], 0, &[C]), vec![C, B]);
    assert_eq!(substitute(&[AI, B], 0, &[C, B]), vec![BI, CI, B]);
    assert_eq!(substitute(&[A, BI], 0, &[B]), Vec::<(usize, bool)>::new());
}

#[test]
fn permutations_advance_lexicographically() {
    let mut p = vec![0, 1, 2];
    assert!(next_permutation(&mut p));
    assert_eq!(p, vec![0, 2, 1]);
    assert!(next_permutation(&mut p));
    assert_eq!(p, vec![1, 0, 2]);
    let mut last = vec![2, 1, 0];
    assert!(!next_permutation(&mut last));
    assert_eq!(last, vec![2, 1, 0]);
    let mut count = 1;
    let mut q = vec![0, 1, 2, 3];
    while next_permutation(&mut q) {
        count += 1;
    }
    assert_eq!(count, 24);
}

#[test]
fn words_compare_and_copy() {
    assert!(words_equal(&[A, B], &[A, B]));
    assert!(!words_equal(&[A, B], &[A, BI]));
    assert!(!words_equal(&[A], &[A, A]));
    assert_eq!(copy_word(&[A, C]), vec![A, C]);
    assert_eq!(copy_words(&vec![vec![A], vec![]]), vec![vec![A], vec![]]);
}

#[test]
fn tietze_keeps_the_torus_relator() {
    let p = tietze_simplify(2, &vec![vec![A, B, AI, BI]]);
    assert_eq!(p.n_generators, 2);
    assert_eq!(p.relations, vec![vec![A, B, AI, BI]]);
}

#[test]
fn tietze_eliminates_a_generator_occurring_once() {
    // ⟨a, b | ab⟩ ≅ ℤ.
    let p = tietze_simplify(2, &vec![vec![A, B]]);
    assert_eq!(p.n_generators, 1);
    assert!(p.relations.is_empty());
    // ⟨a, b, c | c a c⁻¹ b⟩: b occurs once and is solved for.
    let p = tietze_simplify(3, &vec![vec![C, A, CI, B], vec![A, A]]);
    assert_eq!(p.n_generators, 2);
    assert_eq!(p.relations, vec![vec![A, A]]);
}

#[test]
fn tietze_drops_trivial_and_duplicate_relators() {
    let p = tietze_simplify(1, &vec![vec![A, AI], vec![A, A], vec![AI, AI], vec![]]);
    assert_eq!(p.n_generators, 1);
    assert_eq!(p.relations, vec![vec![A, A]]);
}

#[test]
fn tietze_prefers_uninverted_orientation() {
    let p = tietze_simplify(1, &vec![vec![AI, AI, AI]]);
    assert_eq!(p.relations, vec![vec![A, A, A]]);
}

#[test]
fn canonical_presentation_is_relabelling_invariant() {
    let (n, rels) = canonicalize_presentation(2, &vec![vec![B, A, BI, AI]]);
    assert_eq!(n, 2);
    assert_eq!(rels, vec![vec![A, B, AI, BI]]);
    let (_, swapped) = canonicalize_presentation(2, &vec![vec![A, BI, AI, B]]);
    assert_eq!(swapped, rels);
    let (_, sorted) = canonicalize_presentation(2, &vec![vec![B, B, B], vec![A, A]]);
    assert_eq!(sorted, vec![vec![A, A], vec![B, B, B]]);
}

#[test]
fn canonical_presentation_relators_are_canonical() {
    let (_, rels) = canonicalize_presentation(
        3,
        &vec![vec![(2, false), (1, true), (0, false)], vec![B, B, AI], vec![(2, true), (2, true)]],
    );
    assert_eq!(rels.len(), 3);
    for w in &rels {
        assert_eq!(&canonical_relator(w), w);
    }
}

static FLAT: [(usize, bool); 4] = [(0, false), (1, false), (0, true), (1, true)];
static WORDS: [StaticWord; 1] = [StaticWord(&FLAT)];

#[test]
fn static_and_computed_presentations_compare_exactly() {
    let s = StaticGroupPresentation { n_generators: 2, flat_words: &FLAT, words: &WORDS };
    assert_eq!(s.n_relations(), 1);
    assert_eq!(s.n_generators(), 2);
    assert_eq!(s.relations(), vec![vec![A, B, AI, BI]]);
    let p = FundamentalGroupPresentation { n_generators: 2, relations: vec![vec![A, B, AI, BI]] };
    assert!(check_exactly_equal(&s, &p));
    let q = FundamentalGroupPresentation { n_generators: 2, relations: vec![vec![B, A, BI, AI]] };
    assert!(!check_exactly_equal(&s, &q));
    let r = FundamentalGroupPresentation { n_generators: 3, relations: vec![vec![A, B, AI, BI]] };
    assert!(!check_exactly_equal(&p, &r));
}

#[test]
fn simplification_never_lowers_the_deficiency() {
    let inputs: Vec<(usize, Vec<Vec<(usize, bool)>>)> = vec![
        (2, vec![vec![A, B, AI, BI]]),
        (2, vec![vec![A, B]]),
        (3, vec![vec![C, A, CI, B], vec![A, A]]),
        (1, vec![vec![A, AI], vec![A, A], vec![AI, AI], vec![]]),
        (3, vec![vec![A, B], vec![B, A], vec![C, C, C]]),
    ];
    for (n, rels) in inputs {
        let p = tietze_simplify(n, &rels);
        assert!(p.n_generators + rels.len() >= n + p.relations.len());
    }
}

#[test]
fn tietze_keeps_one_relator_per_rotation_class() {
    // a²b², its rotation ab²a and its inverse b⁻²a⁻² are one relation.
    let p = tietze_simplify(2, &vec![vec![A, A, B, B], vec![A, B, B, A], vec![BI, BI, AI, AI]]);
    assert_eq!(p.n_generators, 2);
    assert_eq!(p.relations.len(), 1);
}

#[test]
fn canonical_presentation_has_no_two_related_relators() {
    let (n, rels) = canonicalize_presentation(2, &vec![vec![A, A, B, B], vec![A, B, A, B]]);
    assert_eq!(n, 2);
    assert_eq!(rels.len(), 2);
    assert_ne!(rels[0], rels[1]);
}
