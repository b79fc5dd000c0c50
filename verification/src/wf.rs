//! Well-formedness of resolved instances against a schema: the shape a
//! successful parse guarantees, and exactly what the canonical
//! serializer needs of its input.
use vstd::prelude::*;

use crate::instance::{RecordInstance, SlotValue, Value};
use crate::schema::{
    contains_str, has_record, record_of, slot_fields, spec_has_default, Field, FieldSlot,
    FieldType, SchemaSet,
};

verus! {

/// The value fits its field's type: text for text, a declared variant
/// for an enumeration, a well-formed instance of the referenced record
/// for a reference, and a unique-keyed entry list for a map.
pub open spec fn value_wf(set: SchemaSet, ty: FieldType, v: Value) -> bool
    decreases v,
{
    match ty {
        FieldType::Text(_) => v is Text,
        FieldType::ByteSeq(_) => v is Bytes,
        FieldType::Enumeration(vars, _) => v matches Value::Variant(s) && contains_str(vars@, s@),
        FieldType::Reference(t) => v matches Value::Record(b) && inst_wf(set, t@, *b),
        FieldType::TextMap => v matches Value::TextMap(es) && (forall|a: int, b: int|
            0 <= a < b < es@.len() ==> (#[trigger] es@[a]).0@ != (#[trigger] es@[b]).0@),
    }
}

/// The slot value fits its slot: a standalone field holds a fitting
/// value or is absent only when optional and undefaulted; a group holds
/// the tagged choice of one of its members.
pub open spec fn slot_wf(set: SchemaSet, slot: FieldSlot, sv: SlotValue) -> bool
    decreases sv,
{
    match slot {
        FieldSlot::Single(f) => match sv {
            SlotValue::Present(v) => value_wf(set, f.ty, v),
            SlotValue::Absent => f.optional && !spec_has_default(f),
            SlotValue::Chosen(_, _) => false,
        },
        FieldSlot::Group(fs) => match sv {
            SlotValue::Chosen(nm, v) => exists|m: int|
                #![trigger fs@[m]]
                {
                    &&& 0 <= m < fs@.len()
                    &&& fs@[m].name@ == nm@
                    &&& value_wf(set, fs@[m].ty, v)
                },
            _ => false,
        },
    }
}

/// The instance is a fully resolved value of record `rn`: one fitting
/// slot value per declared slot.
pub open spec fn inst_wf(set: SchemaSet, rn: Seq<char>, inst: RecordInstance) -> bool
    decreases inst,
{
    &&& inst.record@ == rn
    &&& has_record(set, rn)
    &&& inst.slots@.len() == record_of(set, rn).slots@.len()
    &&& forall|k: int|
        0 <= k < inst.slots@.len() ==> slot_wf(
            set,
            record_of(set, rn).slots@[k],
            #[trigger] inst.slots@[k],
        )
}

} // verus!
