use parameter_optimizer::trace::reference_entity;

#[test]
fn reference_is_least_identifier() {
    assert_eq!(reference_entity(&vec![7, 3, 9, 3, 12]), Some(3));
    assert_eq!(reference_entity(&vec![5]), Some(5));
}

#[test]
fn no_entity_no_reference() {
    assert_eq!(reference_entity(&Vec::new()), None);
}
