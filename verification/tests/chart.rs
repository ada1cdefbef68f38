use diffable::algebra::{Group, LieGroup, RootOfUnity};
use diffable::chart::{Chart, ExpMap, OptionallyOption, Smooth};
use diffable::residue::Gf7;

type Mu3 = RootOfUnity<Gf7, 3>;

fn root(v: u64) -> Mu3 {
    Mu3::new(Gf7::from_u64(v)).unwrap()
}

#[test]
fn roots_of_unity_form_a_discrete_lie_group() {
    let one = <Mu3 as LieGroup<Gf7>>::identity_exp(Gf7::from_u64(5));
    assert!(one.is_one());
    assert_eq!(<Mu3 as LieGroup<Gf7>>::identity_log(&one).map(|v| v.value()), Some(0));
    assert!(<Mu3 as LieGroup<Gf7>>::identity_log(&root(2)).is_none());
    assert_eq!(root(2).compose(&root(4)).inner().value(), 1);
    assert_eq!(root(2).inverse().inner().value(), 4);
    assert!(<Mu3 as Group>::identity().is_one());
}

#[test]
fn left_translated_charts_are_centred() {
    let p = root(2);
    let q = root(4);
    assert_eq!(Smooth::<Gf7>::exp(&p, Gf7::from_u64(3)).inner().value(), 2);
    assert_eq!(Smooth::<Gf7>::log(&p, &p).map(|v| v.value()), Some(0));
    assert!(Smooth::<Gf7>::log(&p, &q).is_none());
    let chart = <Mu3 as Chart<Mu3, Gf7>>::chart_at(&p);
    assert_eq!(chart.inner().value(), 2);
    assert_eq!(<Mu3 as Chart<Mu3, Gf7>>::to_local(&chart, &p).map(|v| v.value()), Some(0));
    assert_eq!(<Mu3 as Chart<Mu3, Gf7>>::to_global(&chart, Gf7::from_u64(1)).inner().value(), 2);
    assert_eq!(<Mu3 as ExpMap<Mu3, Gf7>>::base_point(&chart).inner().value(), 2);
}

#[test]
fn optional_values_read_as_options() {
    assert_eq!(Some(3u8).into_option(), Some(3));
    assert_eq!(None::<u8>.into_option(), None);
}
