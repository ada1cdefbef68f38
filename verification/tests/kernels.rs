use core::marker::PhantomData;
use diffable::kernels::{
    copy_shape, dimension, Contract, ContractKernel, Here, Left, OnLeft, OnRight, Reassociate,
    ReassociateKernel, Right, Shape, Swap, SwapKernel, ThroughSinister,
};
use diffable::residue::Gf7;

fn atom(n: usize) -> Box<Shape> {
    Box::new(Shape::Atom(n))
}

fn product(a: Shape, b: Shape) -> Shape {
    Shape::Product(Box::new(a), Box::new(b))
}

#[test]
fn shape_dimensions_multiply() {
    let s = product(Shape::Atom(2), Shape::Sinister(atom(3)));
    assert_eq!(dimension(&s), 6);
    assert_eq!(dimension(&copy_shape(&s)), 6);
    assert_eq!(dimension(&Shape::Atom(0)), 0);
}

#[test]
fn swapping_at_the_root_transposes() {
    let s = product(Shape::Atom(2), Shape::Atom(3));
    let coords: Vec<u8> = (0..6).collect();
    assert_eq!(coords.swap::<Here>(&s), vec![0, 3, 1, 4, 2, 5]);
    assert_eq!(<Here as SwapKernel>::source_index(&s, 1), 3);
}

#[test]
fn swapping_inside_a_factor() {
    let s = product(product(Shape::Atom(2), Shape::Atom(2)), Shape::Atom(1));
    let coords: Vec<u8> = (0..4).collect();
    assert_eq!(coords.swap::<OnLeft<Here>>(&s), vec![0, 2, 1, 3]);
    let t = product(Shape::Atom(2), product(Shape::Atom(1), Shape::Atom(2)));
    let coords: Vec<u8> = (0..4).collect();
    assert_eq!(coords.swap::<OnRight<Here>>(&t), vec![0, 1, 2, 3]);
    let u = Shape::Sinister(Box::new(product(Shape::Atom(2), Shape::Atom(2))));
    let coords: Vec<u8> = (0..4).collect();
    assert_eq!(coords.swap::<ThroughSinister<Here>>(&u), vec![0, 2, 1, 3]);
    let _ = PhantomData::<Here>;
}

#[test]
fn swapping_twice_restores_the_coordinates() {
    let s = product(Shape::Atom(3), Shape::Atom(2));
    let coords: Vec<u8> = (0..6).collect();
    let once = coords.swap::<Here>(&s);
    let back_shape = product(Shape::Atom(2), Shape::Atom(3));
    assert_eq!(once.swap::<Here>(&back_shape), coords);
}

#[test]
fn contraction_at_the_root_is_the_trace() {
    let s = product(Shape::Atom(3), Shape::Atom(3));
    let m: Vec<Gf7> = (1..10u64).map(Gf7::from_u64).collect();
    let t = m.contract::<Here>(&s);
    assert_eq!(t.len(), 1);
    // 1 + 5 + 9 = 15 = 1 (mod 7)
    assert_eq!(t[0].value(), 1);
}

#[test]
fn contraction_inside_the_right_factor() {
    // A ⊗ (V ⊗ V*) with A of dimension 2 and V of dimension 2.
    let s = product(Shape::Atom(2), product(Shape::Atom(2), Shape::Atom(2)));
    let m: Vec<Gf7> = (1..9u64).map(Gf7::from_u64).collect();
    let t = m.contract::<OnRight<Here>>(&s);
    // traces of [[1,2],[3,4]] and [[5,6],[7,8]]: 5 and 13 = 6
    assert_eq!(t.iter().map(|x| x.value()).collect::<Vec<_>>(), vec![5, 6]);
    assert_eq!(<OnRight<Here> as ContractKernel>::source_index(&s, 1, 1), 7);
}

#[test]
fn reassociation_keeps_coordinates() {
    let s = product(product(Shape::Atom(2), Shape::Atom(3)), Shape::Atom(4));
    let coords: Vec<u16> = (0..24).collect();
    let r = coords.clone().reassociate::<Right>(&s);
    assert_eq!(r, coords);
    let shape = Right::reassociated_shape(&s);
    assert_eq!(dimension(&shape), 24);
    let back = Left::reassociated_shape(&shape);
    assert_eq!(dimension(&back), 24);
}
