use diffable::residue::Gf7;
use diffable::tensor::{DirectSum, DirectSumArray, Dual, TangentMap, TensorOver, TensorProduct, TensorProductArray};

fn g(v: u64) -> Gf7 {
    Gf7::from_u64(v)
}

fn matrix(rows: &[&[u64]]) -> TensorProduct<Gf7> {
    let n_rows = rows.len();
    let n_cols = rows[0].len();
    let entries: Vec<Vec<Gf7>> = rows.iter().map(|r| r.iter().map(|&v| g(v)).collect()).collect();
    TensorProduct::from_fn_ij(n_rows, n_cols, move |i, j| entries[i][j])
}

fn values(t: &TensorProduct<Gf7>, n: usize) -> Vec<Vec<u8>> {
    (0..n).map(|i| (0..n).map(|j| t.get(i, j).value()).collect()).collect()
}

#[test]
fn identity_is_the_kronecker_delta() {
    let id = TensorProduct::<Gf7>::identity(3);
    assert_eq!(values(&id, 3), vec![vec![1, 0, 0], vec![0, 1, 0], vec![0, 0, 1]]);
}

#[test]
fn pure_tensor_multiplies_coordinates() {
    let t = TensorProduct::pure(&vec![g(1), g(2)], &vec![g(3), g(4), g(5)]);
    assert_eq!(t.get(0, 0).value(), 3);
    assert_eq!(t.get(1, 2).value(), 3);
    assert_eq!(t.get(1, 1).value(), 1);
}

#[test]
fn endomorphisms_act_on_vectors_and_covectors() {
    let a = matrix(&[&[1, 2], &[3, 4]]);
    let v = a.mul_v(&vec![g(1), g(0)]);
    assert_eq!(v.iter().map(|x| x.value()).collect::<Vec<_>>(), vec![1, 3]);
    let w = a.mul_dual_v(&vec![g(1), g(0)]);
    assert_eq!(w.iter().map(|x| x.value()).collect::<Vec<_>>(), vec![1, 2]);
    let u = a.mul_v(&vec![g(1), g(1)]);
    assert_eq!(u.iter().map(|x| x.value()).collect::<Vec<_>>(), vec![3, 0]);
}

#[test]
fn composition_is_matrix_product() {
    let a = matrix(&[&[1, 2], &[3, 4]]);
    let b = matrix(&[&[0, 1], &[1, 0]]);
    assert_eq!(values(&a.compose(&b), 2), vec![vec![2, 1], vec![4, 3]]);
    assert_eq!(values(&b.compose(&a), 2), vec![vec![3, 4], vec![1, 2]]);
}

#[test]
fn inverse_of_invertible_matrix() {
    let a = matrix(&[&[2, 1], &[1, 1]]);
    let inv = matrix(&[&[2, 1], &[1, 1]]).inverse();
    assert_eq!(values(&inv, 2), vec![vec![1, 6], vec![6, 2]]);
    assert_eq!(values(&inv.compose(&a), 2), vec![vec![1, 0], vec![0, 1]]);
    assert_eq!(values(&a.compose(&inv), 2), vec![vec![1, 0], vec![0, 1]]);
}

#[test]
fn inverse_is_two_sided_on_a_three_by_three() {
    let a = matrix(&[&[1, 2, 0], &[0, 1, 4], &[5, 0, 1]]);
    let inv = matrix(&[&[1, 2, 0], &[0, 1, 4], &[5, 0, 1]]).inverse();
    let id = vec![vec![1, 0, 0], vec![0, 1, 0], vec![0, 0, 1]];
    assert_eq!(values(&inv.compose(&a), 3), id);
    assert_eq!(values(&a.compose(&inv), 3), id);
}

#[test]
fn inverse_needs_row_exchanges() {
    let inv = matrix(&[&[0, 1, 0], &[1, 0, 0], &[0, 0, 3]]).inverse();
    assert_eq!(values(&inv, 3), vec![vec![0, 1, 0], vec![1, 0, 0], vec![0, 0, 5]]);
}

#[test]
fn singular_matrix_has_no_inverse() {
    assert!(matrix(&[&[1, 2], &[2, 4]]).checked_inverse().is_none());
    assert!(matrix(&[&[0, 0], &[0, 1]]).checked_inverse().is_none());
}

#[test]
fn empty_endomorphism_is_its_own_inverse() {
    let e = TensorProduct::<Gf7>::identity(0);
    assert!(e.checked_inverse().is_some());
}

#[test]
fn tensor_arrays_are_read_row_major() {
    let t = TensorProductArray::from_fn_ij(2, 3, |i, j| (10 * i + j) as u32);
    assert_eq!(t.get(1, 2), 12);
    assert_eq!(t.index(4), 11);
    assert_eq!(t.index(2), 2);
}

#[test]
fn direct_sums_concatenate() {
    let s = DirectSum::join(vec![1u8, 2], vec![3u8]);
    assert_eq!(s.index(0), 1);
    assert_eq!(s.index(2), 3);
    let dual = DirectSum::dual_isomorphism(Dual(s));
    let back = DirectSum::dual_isomorphism_inverse(dual);
    let (u, v) = back.0.split();
    assert_eq!(u, vec![1, 2]);
    assert_eq!(v, vec![3]);
    let a = DirectSumArray::new(vec![7u8], vec![8u8, 9]);
    assert_eq!(a.index(0), 7);
    assert_eq!(a.index(2), 9);
}

#[test]
fn tensors_over_another_scalar() {
    let t = TensorOver::new(&vec![1u64, 9, 15], |x: u64| Gf7::from_u64(x));
    assert_eq!(t.coordinates().iter().map(|x| x.value()).collect::<Vec<_>>(), vec![1, 2, 1]);
    let joined = TensorOver::<DirectSumArray<u8>>::join(TensorOver(vec![1u8]), TensorOver(vec![2u8, 3]));
    let (u, v) = joined.split();
    assert_eq!(u.0, vec![1]);
    assert_eq!(v.0, vec![2, 3]);
}

#[test]
fn tangent_maps_wrap_their_tensor() {
    let m = TangentMap::new(matrix(&[&[1, 2], &[3, 4]]));
    assert_eq!(m.0.get(1, 0).value(), 3);
}
