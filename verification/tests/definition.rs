use parseable::define_schemas;
use parseable::schema::{
    validate, Field, FieldSlot, FieldType, RecordSchema, SchemaDefError, SchemaSet,
};

#[test]
fn duplicate_field_name_rejected() {
    let err = define_schemas("R{ a: Text, a: Text } R").unwrap_err();
    match err {
        SchemaDefError::DuplicateFieldName(name) => assert_eq!(name, "a"),
        _ => panic!("expected a duplicate field name"),
    }
}

#[test]
fn duplicate_across_group_rejected() {
    let err = define_schemas("R{ a: Text, #[exclusive_group]{ a: Text, b: Text } } R").unwrap_err();
    assert!(matches!(err, SchemaDefError::DuplicateFieldName(_)));
}

#[test]
fn group_too_small_rejected() {
    let err = define_schemas("R{ #[exclusive_group]{ only: Text } } R").unwrap_err();
    match err {
        SchemaDefError::GroupTooSmall(record) => assert_eq!(record, "R"),
        _ => panic!("expected a too-small group"),
    }
}

#[test]
fn unknown_default_variant_rejected() {
    let err = define_schemas("R{ e: enum E[A, B; C] } R").unwrap_err();
    match err {
        SchemaDefError::UnknownDefaultVariant(field, default) => {
            assert_eq!(field, "e");
            assert_eq!(default, "C");
        },
        _ => panic!("expected an unknown default variant"),
    }
}

#[test]
fn unresolved_reference_rejected() {
    let err = define_schemas("R{ x: Missing } R").unwrap_err();
    match err {
        SchemaDefError::UnresolvedReference(target) => assert_eq!(target, "Missing"),
        _ => panic!("expected an unresolved reference"),
    }
}

#[test]
fn unresolved_root_rejected() {
    let err = define_schemas("R{ a: Text } Other").unwrap_err();
    match err {
        SchemaDefError::UnresolvedReference(target) => assert_eq!(target, "Other"),
        _ => panic!("expected an unresolved root"),
    }
}

#[test]
fn forward_reference_allowed() {
    let set = define_schemas("A{ x: B } B{ y: Text } A").unwrap();
    assert_eq!(set.records.len(), 2);
    assert_eq!(set.root, "A");
}

#[test]
fn empty_enum_variant_set_rejected() {
    // the text grammar cannot even write an empty variant list, so an
    // empty set is checked on a hand-built schema
    let set = SchemaSet {
        records: vec![
            RecordSchema {
                name: "R".to_string(),
                slots: vec![
                    FieldSlot::Single(
                        Field {
                            name: "e".to_string(),
                            ty: FieldType::Enumeration(Vec::new(), None),
                            optional: false,
                        },
                    ),
                ],
            },
        ],
        root: "R".to_string(),
    };
    match validate(&set).unwrap_err() {
        SchemaDefError::EmptyEnumVariantSet(field) => assert_eq!(field, "e"),
        _ => panic!("expected an empty enumeration"),
    }
}

#[test]
fn malformed_definition_rejected() {
    assert!(matches!(
        define_schemas("R{ a: Text").unwrap_err(),
        SchemaDefError::MalformedDefinition(_)
    ));
    assert!(matches!(
        define_schemas("R{ a Text } R").unwrap_err(),
        SchemaDefError::MalformedDefinition(_)
    ));
    assert!(matches!(
        define_schemas("%").unwrap_err(),
        SchemaDefError::MalformedDefinition(_)
    ));
}

#[test]
fn enum_path_is_grammar_only() {
    let set = define_schemas("R{ e: enum ::host::Kind[A, B] } R").unwrap();
    match &set.records[0].slots[0] {
        FieldSlot::Single(f) => match &f.ty {
            FieldType::Enumeration(vars, default) => {
                assert_eq!(vars, &vec!["A".to_string(), "B".to_string()]);
                assert!(default.is_none());
            },
            _ => panic!("expected an enumeration"),
        },
        _ => panic!("expected a standalone field"),
    }
}

#[test]
fn validation_errors_abort_whole_set() {
    // the first record is fine; the second is not; no set is produced
    assert!(define_schemas("A{ a: Text } B{ #[exclusive_group]{ x: Text } } A").is_err());
}
