use parseable::define_schemas;
use parseable::instance::{RecordInstance, SlotValue, Value};
use parseable::literal::ParseErrorKind;
use parseable::parse_record_text;
use parseable::parse_root_text;

fn source_info() -> parseable::schema::SchemaSet {
    define_schemas(
        "SourceInfo{ #[exclusive_group]{file:Text, code:Text}, entry_point:Text;\"main\", \
         shader_stage: enum Stage[Vertex, Fragment, InferFromSource; InferFromSource], macros?: map } SourceInfo",
    )
    .unwrap()
}

fn text_of(sv: &SlotValue) -> &str {
    match sv {
        SlotValue::Present(Value::Text(s)) => s.as_str(),
        _ => panic!("expected a present text value"),
    }
}

fn variant_of(sv: &SlotValue) -> &str {
    match sv {
        SlotValue::Present(Value::Variant(s)) => s.as_str(),
        _ => panic!("expected a present variant"),
    }
}

#[test]
fn end_to_end_success() {
    let set = source_info();
    let inst = parse_root_text(&set, "{ code: \"x\", shader_stage: Vertex }").unwrap();
    assert_eq!(inst.record, "SourceInfo");
    assert_eq!(inst.slots.len(), 4);
    match &inst.slots[0] {
        SlotValue::Chosen(name, Value::Text(s)) => {
            assert_eq!(name, "code");
            assert_eq!(s, "x");
        },
        _ => panic!("expected the group to choose code"),
    }
    assert_eq!(text_of(&inst.slots[1]), "main");
    assert_eq!(variant_of(&inst.slots[2]), "Vertex");
    // the optional map was omitted: it resolves to absent
    assert!(matches!(&inst.slots[3], SlotValue::Absent));
}

#[test]
fn end_to_end_group_conflict() {
    let set = source_info();
    let err = parse_root_text(&set, "{ file: \"a.glsl\", code: \"x\" }").unwrap_err();
    match err.kind {
        ParseErrorKind::GroupConflict(members, first, second) => {
            assert_eq!(members, vec!["file".to_string(), "code".to_string()]);
            assert_eq!(first, "file");
            assert_eq!(second, "code");
        },
        _ => panic!("expected a group conflict"),
    }
}

#[test]
fn end_to_end_missing_group_choice() {
    let set = source_info();
    let err = parse_root_text(&set, "{}").unwrap_err();
    match err.kind {
        ParseErrorKind::MissingGroupChoice(members) => {
            assert_eq!(members, vec!["file".to_string(), "code".to_string()]);
        },
        _ => panic!("expected a missing group choice"),
    }
}

#[test]
fn group_single_member_succeeds() {
    let set = source_info();
    let inst = parse_root_text(&set, "{ file: \"a.glsl\", shader_stage: Fragment }").unwrap();
    match &inst.slots[0] {
        SlotValue::Chosen(name, Value::Text(s)) => {
            assert_eq!(name, "file");
            assert_eq!(s, "a.glsl");
        },
        _ => panic!("expected the group to choose file"),
    }
}

#[test]
fn group_same_member_twice_conflicts() {
    let set = source_info();
    let err = parse_root_text(&set, "{ code: \"x\", code: \"y\" }").unwrap_err();
    assert!(matches!(err.kind, ParseErrorKind::GroupConflict(_, _, _)));
}

#[test]
fn defaulted_field_resolves_to_default() {
    let set = source_info();
    let inst = parse_root_text(&set, "{ code: \"x\" }").unwrap();
    assert_eq!(text_of(&inst.slots[1]), "main");
    assert_eq!(variant_of(&inst.slots[2]), "InferFromSource");
}

#[test]
fn defaulted_field_supplied_keeps_supply() {
    let set = source_info();
    let inst = parse_root_text(&set, "{ code: \"x\", entry_point: \"start\" }").unwrap();
    assert_eq!(text_of(&inst.slots[1]), "start");
}

#[test]
fn required_field_missing() {
    let set = define_schemas("R{ a: Text, b?: Text } R").unwrap();
    let err = parse_root_text(&set, "{ b: \"y\" }").unwrap_err();
    match err.kind {
        ParseErrorKind::MissingField(name) => assert_eq!(name, "a"),
        _ => panic!("expected a missing field"),
    }
}

#[test]
fn optional_field_absent_and_present() {
    let set = define_schemas("R{ a: Text, b?: Text } R").unwrap();
    let inst = parse_root_text(&set, "{ a: \"x\" }").unwrap();
    assert!(matches!(&inst.slots[1], SlotValue::Absent));
    let inst2 = parse_root_text(&set, "{ a: \"x\", b: \"y\" }").unwrap();
    assert_eq!(text_of(&inst2.slots[1]), "y");
}

#[test]
fn unknown_field_anywhere() {
    let set = source_info();
    let err = parse_root_text(&set, "{ nope: \"x\" }").unwrap_err();
    match err.kind {
        ParseErrorKind::UnknownField(name) => assert_eq!(name, "nope"),
        _ => panic!("expected an unknown field"),
    }
    let err2 = parse_root_text(&set, "{ code: \"x\", nope: \"x\" }").unwrap_err();
    assert!(matches!(err2.kind, ParseErrorKind::UnknownField(_)));
    let err3 = parse_root_text(&set, "{ code: \"x\", nope: \"x\", entry_point: \"m\" }")
        .unwrap_err();
    assert!(matches!(err3.kind, ParseErrorKind::UnknownField(_)));
}

#[test]
fn duplicate_standalone_field() {
    let set = define_schemas("R{ a: Text } R").unwrap();
    let err = parse_root_text(&set, "{ a: \"x\", a: \"y\" }").unwrap_err();
    match err.kind {
        ParseErrorKind::DuplicateField(name) => assert_eq!(name, "a"),
        _ => panic!("expected a duplicate field"),
    }
}

#[test]
fn invalid_variant_lists_choices() {
    let set = source_info();
    let err = parse_root_text(&set, "{ code: \"x\", shader_stage: Compute }").unwrap_err();
    match err.kind {
        ParseErrorKind::InvalidVariant(got, allowed) => {
            assert_eq!(got, "Compute");
            assert_eq!(
                allowed,
                vec![
                    "Vertex".to_string(),
                    "Fragment".to_string(),
                    "InferFromSource".to_string(),
                ],
            );
        },
        _ => panic!("expected an invalid variant"),
    }
}

#[test]
fn map_last_write_wins() {
    let set = define_schemas("R{ m: map } R").unwrap();
    let inst = parse_root_text(&set, "{ m: {A: \"1\", A: \"2\"} }").unwrap();
    match &inst.slots[0] {
        SlotValue::Present(Value::TextMap(entries)) => {
            assert_eq!(entries.len(), 1);
            assert_eq!(entries[0].0, "A");
            assert_eq!(entries[0].1, "2");
        },
        _ => panic!("expected a present map"),
    }
}

#[test]
fn map_keeps_distinct_keys() {
    let set = define_schemas("R{ m: map } R").unwrap();
    let inst = parse_root_text(&set, "{ m: {A: \"1\", B: \"2\", A: \"3\"} }").unwrap();
    match &inst.slots[0] {
        SlotValue::Present(Value::TextMap(entries)) => {
            assert_eq!(entries.len(), 2);
            assert!(entries.contains(&("A".to_string(), "3".to_string())));
            assert!(entries.contains(&("B".to_string(), "2".to_string())));
        },
        _ => panic!("expected a present map"),
    }
}

#[test]
fn nested_reference_parses_recursively() {
    let set = define_schemas("Inner{ a: Text } Outer{ x: Inner, y?: Inner } Outer").unwrap();
    let inst = parse_root_text(&set, "{ x: { a: \"deep\" } }").unwrap();
    match &inst.slots[0] {
        SlotValue::Present(Value::Record(inner)) => {
            assert_eq!(inner.record, "Inner");
            assert_eq!(text_of(&inner.slots[0]), "deep");
        },
        _ => panic!("expected a nested record"),
    }
}

#[test]
fn value_shape_mismatch_is_malformed() {
    let set = define_schemas("R{ a: Text } R").unwrap();
    let err = parse_root_text(&set, "{ a: Vertex }").unwrap_err();
    assert!(matches!(err.kind, ParseErrorKind::MalformedLiteral));
}

#[test]
fn unclosed_literal_is_malformed() {
    let set = define_schemas("R{ a: Text } R").unwrap();
    let err = parse_root_text(&set, "{ a: \"x\"").unwrap_err();
    assert!(matches!(err.kind, ParseErrorKind::MalformedLiteral));
}

#[test]
fn trailing_comma_is_permitted() {
    let set = define_schemas("R{ a: Text } R").unwrap();
    let inst = parse_root_text(&set, "{ a: \"x\", }").unwrap();
    assert_eq!(text_of(&inst.slots[0]), "x");
}

#[test]
fn fields_in_any_order() {
    let set = source_info();
    let inst = parse_root_text(&set, "{ shader_stage: Fragment, code: \"x\" }").unwrap();
    assert_eq!(variant_of(&inst.slots[2]), "Fragment");
}

#[test]
fn parse_by_record_name() {
    let set = define_schemas("Inner{ a: Text } Outer{ x: Inner } Outer").unwrap();
    let inst: RecordInstance =
        parse_record_text(&set, &"Inner".to_string(), "{ a: \"v\" }").unwrap();
    assert_eq!(inst.record, "Inner");
}

#[test]
fn test_simple() {
    let set = define_schemas(
        "Test { \
            foo: Text, \
            bar: ByteSequence, \
            baz: Test1, \
            qux: enum TestEnum[A, B, C, D], \
            quux: map, \
            foo_opt?: Text, \
            bar_opt?: ByteSequence, \
            baz_opt?: Test1, \
            qux_opt?: enum TestEnum[A, B, C, D], \
            quux_opt?: map, \
            foo_def: Text; \"123abc\", \
            bar_def: ByteSequence; b\"\\x01\\x02\\x03\\x0a\\x0b\\x0c\", \
            qux_def: enum TestEnum[A, B, C, D; C], \
        } \
        Test1 { \
            a: Text, \
            b: ByteSequence, \
            c: map, \
        } \
        Test",
    )
    .unwrap();
    let inst = parse_root_text(
        &set,
        "{ foo: \"Abc\", bar: b\"123\", baz: { a: \"123\", b: b\"abc\", c: {} }, qux: A, quux: {} }",
    )
    .unwrap();
    assert_eq!(text_of(&inst.slots[0]), "Abc");
    match &inst.slots[1] {
        SlotValue::Present(Value::Bytes(b)) => assert_eq!(b, b"123"),
        _ => panic!("expected bytes"),
    }
    match &inst.slots[2] {
        SlotValue::Present(Value::Record(inner)) => {
            assert_eq!(inner.record, "Test1");
            assert_eq!(text_of(&inner.slots[0]), "123");
            match &inner.slots[1] {
                SlotValue::Present(Value::Bytes(b)) => assert_eq!(b, b"abc"),
                _ => panic!("expected bytes"),
            }
            match &inner.slots[2] {
                SlotValue::Present(Value::TextMap(entries)) => assert!(entries.is_empty()),
                _ => panic!("expected a map"),
            }
        },
        _ => panic!("expected a nested record"),
    }
    assert_eq!(variant_of(&inst.slots[3]), "A");
    match &inst.slots[4] {
        SlotValue::Present(Value::TextMap(entries)) => assert!(entries.is_empty()),
        _ => panic!("expected a map"),
    }
    for k in 5..10 {
        assert!(matches!(&inst.slots[k], SlotValue::Absent));
    }
    assert_eq!(text_of(&inst.slots[10]), "123abc");
    match &inst.slots[11] {
        SlotValue::Present(Value::Bytes(b)) => assert_eq!(b, b"\x01\x02\x03\x0a\x0b\x0c"),
        _ => panic!("expected bytes"),
    }
    assert_eq!(variant_of(&inst.slots[12]), "C");
}

#[test]
fn errors_carry_position_and_message() {
    let set = define_schemas("R{ a: Text } R").unwrap();
    let err = parse_root_text(&set, "{ a: \"x\", nope: \"y\" }").unwrap_err();
    assert_eq!(err.pos, 10);
    assert_eq!(err.message(), "unexpected field: nope");
    let err2 = parse_root_text(&set, "{}").unwrap_err();
    assert_eq!(err2.message(), "a is a required field");
    let def_err = define_schemas("R{ a: Text, a: Text } R").unwrap_err();
    assert_eq!(def_err.message(), "duplicate field name: a");
}

#[test]
fn nesting_has_a_ceiling() {
    let set = define_schemas("A{ x?: A } A").unwrap();
    let shallow = format!("{}{{}}{}", "{ x: ".repeat(10), " }".repeat(10));
    assert!(parse_root_text(&set, &shallow).is_ok());
    let deep = format!("{}{{}}{}", "{ x: ".repeat(200), " }".repeat(200));
    let err = parse_root_text(&set, &deep).unwrap_err();
    assert!(matches!(err.kind, ParseErrorKind::MalformedLiteral));
}

#[test]
fn bad_escapes_are_malformed() {
    let set = define_schemas("R{ a?: Text, b?: ByteSequence } R").unwrap();
    let err = parse_root_text(&set, "{ a: \"bad \\q escape\" }").unwrap_err();
    assert!(matches!(err.kind, ParseErrorKind::MalformedLiteral));
    let err2 = parse_root_text(&set, "{ b: b\"\\xZZ\" }").unwrap_err();
    assert!(matches!(err2.kind, ParseErrorKind::MalformedLiteral));
}

#[test]
fn conflict_and_duplicate_positions() {
    let set = source_info();
    // the conflict is reported at the later pair's name
    let err = parse_root_text(&set, "{ file: \"a\", code: \"x\" }").unwrap_err();
    assert_eq!(err.pos, 13);
    // a duplicate is reported at an occurrence of the repeated name
    let set2 = define_schemas("R{ a: Text } R").unwrap();
    let err2 = parse_root_text(&set2, "{ a: \"x\", a: \"y\" }").unwrap_err();
    assert_eq!(err2.pos, 10);
}
