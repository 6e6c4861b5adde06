use rwr::schema::{classify, parse_artifact_flags, FieldClass};

#[test]
fn locations_never_participate_in_equality() {
    assert_eq!(classify("location"), Some(FieldClass::Ignored));
    assert_eq!(classify("location?"), Some(FieldClass::Ignored));
}

#[test]
fn call_node_name_is_an_atom_not_a_child() {
    assert_eq!(classify("constant"), Some(FieldClass::NameAtom));
}

#[test]
fn every_known_field_type_is_classified() {
    for t in ["node", "node?", "node[]"] {
        assert_eq!(classify(t), Some(FieldClass::Child));
    }
    for t in ["string", "integer", "double", "uint8", "uint32"] {
        assert_eq!(classify(t), Some(FieldClass::ValueAtom));
    }
    assert_eq!(classify("flags"), None);
    assert!(parse_artifact_flags().contains(&"VARIABLE_CALL"));
}
