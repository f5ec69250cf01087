use recapn::num::{i30, u29, NonZeroU29};

#[test]
fn narrow_integers_check_their_range() {
    assert_eq!(u29::new(536870911).map(|v| v.get()), Some(536870911));
    assert!(u29::new(536870912).is_none());
    assert!(NonZeroU29::new(0).is_none());
    assert_eq!(NonZeroU29::new(1).map(|v| v.get()), Some(1));
    assert!(i30::new(-536870913).is_none());
    assert_eq!(i30::new(-536870912).map(|v| v.get()), Some(-536870912));
}
