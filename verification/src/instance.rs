//! The fully resolved result of a successful parse, and its mathematical
//! view: instances are compared and specified through the view, which
//! forgets allocation and keeps text as character sequences and maps as
//! finite maps.
use vstd::prelude::*;

verus! {

/// A resolved field value.
#[derive(Debug)]
pub enum Value {
    /// Unescaped text content.
    Text(String),
    /// An owned byte buffer.
    Bytes(Vec<u8>),
    /// The matched enumeration variant.
    Variant(String),
    /// A text-to-text mapping with unique keys;
    /// a repeated key in the literal keeps the later value.
    TextMap(Vec<(String, String)>),
    /// A nested record instance, from a reference field.
    Record(Box<RecordInstance>),
}

/// What one slot of a record resolved to: a standalone field's value, an
/// omitted optional field, or an exclusive group's tagged choice (the
/// chosen member's name and its payload).
#[derive(Debug)]
pub enum SlotValue {
    Present(Value),
    Absent,
    Chosen(String, Value),
}

/// A fully resolved record: one slot value per declared slot, in
/// declaration order.
#[derive(Debug)]
pub struct RecordInstance {
    pub record: String,
    pub slots: Vec<SlotValue>,
}

/// Mathematical view of a `Value`.
pub ghost enum ValV {
    TextV(Seq<char>),
    BytesV(Seq<u8>),
    VariantV(Seq<char>),
    MapV(Map<Seq<char>, Seq<char>>),
    RecordV(Box<InstV>),
}

/// Mathematical view of a `SlotValue`.
pub ghost enum SlotV {
    PresentV(ValV),
    AbsentV,
    ChosenV(Seq<char>, ValV),
}

/// Mathematical view of a `RecordInstance`.
pub ghost struct InstV {
    pub name: Seq<char>,
    pub slots: Seq<SlotV>,
}

/// The mapping an entry list denotes: entries are inserted left to
/// right, so a later entry for a key overwrites an earlier one.
pub open spec fn map_of_entries(es: Seq<(String, String)>) -> Map<Seq<char>, Seq<char>>
    decreases es.len(),
{
    if es.len() == 0 {
        Map::empty()
    } else {
        map_of_entries(es.drop_last()).insert(es.last().0@, es.last().1@)
    }
}

/// View of a resolved value.
pub open spec fn val_v(v: Value) -> ValV
    decreases v, 1int,
{
    match v {
        Value::Text(s) => ValV::TextV(s@),
        Value::Bytes(b) => ValV::BytesV(b@),
        Value::Variant(s) => ValV::VariantV(s@),
        Value::TextMap(es) => ValV::MapV(map_of_entries(es@)),
        Value::Record(b) => ValV::RecordV(Box::new(inst_v(*b))),
    }
}

/// View of one slot value.
pub open spec fn slot_v(s: SlotValue) -> SlotV
    decreases s, 2int,
{
    match s {
        SlotValue::Present(v) => SlotV::PresentV(val_v(v)),
        SlotValue::Absent => SlotV::AbsentV,
        SlotValue::Chosen(n, v) => SlotV::ChosenV(n@, val_v(v)),
    }
}

/// Views of a slot sequence, elementwise.
pub open spec fn slots_v(s: Seq<SlotValue>) -> Seq<SlotV>
    decreases s, 3int,
{
    if s.len() == 0 {
        Seq::empty()
    } else {
        slots_v(s.drop_last()).push(slot_v(s.last()))
    }
}

/// View of a record instance.
pub open spec fn inst_v(i: RecordInstance) -> InstV
    decreases i, 4int,
{
    InstV { name: i.record@, slots: slots_v(i.slots@) }
}

/// The view of a slot sequence is its elementwise view.
pub proof fn lemma_slots_v(s: Seq<SlotValue>)
    ensures
        slots_v(s).len() == s.len(),
        forall|k: int| 0 <= k < s.len() ==> slots_v(s)[k] == slot_v(#[trigger] s[k]),
    decreases s.len(),
{
    if s.len() > 0 {
        lemma_slots_v(s.drop_last());
        assert forall|k: int| 0 <= k < s.len() implies slots_v(s)[k] == slot_v(#[trigger] s[k]) by {
            if k < s.len() - 1 {
                assert(s.drop_last()[k] == s[k]);
                assert(slots_v(s)[k] == slots_v(s.drop_last())[k]);
            }
        }
    }
}

} // verus!
