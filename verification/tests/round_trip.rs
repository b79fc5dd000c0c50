use parseable::canon::{canonical_literal, reparse_canonical};
use parseable::define_schemas;
use parseable::instance::{RecordInstance, SlotValue, Value};
use parseable::literal::LitKind;
use parseable::parse_root_text;
use parseable::resolve::resolve_record;

fn value_eq(a: &Value, b: &Value) -> bool {
    match (a, b) {
        (Value::Text(x), Value::Text(y)) => x == y,
        (Value::Bytes(x), Value::Bytes(y)) => x == y,
        (Value::Variant(x), Value::Variant(y)) => x == y,
        (Value::TextMap(x), Value::TextMap(y)) => x == y,
        (Value::Record(x), Value::Record(y)) => inst_eq(x, y),
        _ => false,
    }
}

fn inst_eq(a: &RecordInstance, b: &RecordInstance) -> bool {
    a.record == b.record && a.slots.len() == b.slots.len() && a.slots.iter().zip(
        b.slots.iter(),
    ).all(|(x, y)| match (x, y) {
        (SlotValue::Absent, SlotValue::Absent) => true,
        (SlotValue::Present(u), SlotValue::Present(v)) => value_eq(u, v),
        (SlotValue::Chosen(m, u), SlotValue::Chosen(n, v)) => m == n && value_eq(u, v),
        _ => false,
    })
}

fn source_info() -> parseable::schema::SchemaSet {
    define_schemas(
        "SourceInfo{ #[exclusive_group]{file:Text, code:Text}, entry_point:Text;\"main\", \
         shader_stage: enum Stage[Vertex, Fragment, InferFromSource; InferFromSource], macros?: map } SourceInfo",
    )
    .unwrap()
}

#[test]
fn round_trip_simple() {
    let set = source_info();
    let inst = parse_root_text(&set, "{ code: \"x\", shader_stage: Vertex }").unwrap();
    let again = reparse_canonical(&set, &"SourceInfo".to_string(), &inst);
    assert!(inst_eq(&inst, &again));
}

#[test]
fn round_trip_with_map_and_nesting() {
    let set = define_schemas(
        "Inner{ a: Text, m: map } Outer{ x: Inner, o?: Text, d: Text; \"dft\" } Outer",
    )
    .unwrap();
    let inst = parse_root_text(
        &set,
        "{ x: { a: \"v\", m: { k1: \"1\", k2: \"2\", k1: \"3\" } } }",
    )
    .unwrap();
    let name = "Outer".to_string();
    let again = reparse_canonical(&set, &name, &inst);
    assert!(inst_eq(&inst, &again));
    // through the canonical literal by hand as well
    let lit = canonical_literal(&set, &name, &inst);
    let again2 = resolve_record(&set, &name, &lit).unwrap();
    assert!(inst_eq(&inst, &again2));
}

#[test]
fn canonical_form_omits_absent_and_keeps_defaults() {
    let set = source_info();
    let inst = parse_root_text(&set, "{ code: \"x\" }").unwrap();
    let lit = canonical_literal(&set, &"SourceInfo".to_string(), &inst);
    match lit.kind {
        LitKind::LRec(pairs) => {
            // the chosen member, the defaulted fields; the absent optional
            // map is omitted
            let names: Vec<&str> = pairs.iter().map(|p| p.name.as_str()).collect();
            assert_eq!(names, vec!["code", "entry_point", "shader_stage"]);
        },
        _ => panic!("expected a record literal"),
    }
}

#[test]
fn round_trip_bytes() {
    let set = define_schemas("R{ b: ByteSequence } R").unwrap();
    let inst = parse_root_text(&set, "{ b: b\"\\x00\\xff ok\\n\" }").unwrap();
    match &inst.slots[0] {
        SlotValue::Present(Value::Bytes(b)) => {
            assert_eq!(b, &vec![0u8, 255, 32, 111, 107, 10]);
        },
        _ => panic!("expected bytes"),
    }
    let again = reparse_canonical(&set, &"R".to_string(), &inst);
    assert!(inst_eq(&inst, &again));
}

#[test]
fn text_escapes_unescaped() {
    let set = define_schemas("R{ a: Text } R").unwrap();
    let inst = parse_root_text(&set, "{ a: \"line\\nquote\\\"end\" }").unwrap();
    match &inst.slots[0] {
        SlotValue::Present(Value::Text(s)) => assert_eq!(s, "line\nquote\"end"),
        _ => panic!("expected text"),
    }
}

#[test]
fn text_nul_escape() {
    let set = define_schemas("R{ a: Text } R").unwrap();
    let inst = parse_root_text(&set, "{ a: \"n\\0l\" }").unwrap();
    match &inst.slots[0] {
        SlotValue::Present(Value::Text(s)) => assert_eq!(s, "n\0l"),
        _ => panic!("expected text"),
    }
}
