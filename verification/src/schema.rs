//! The schema model: named record shapes made of fields and exclusive
//! groups, and the definition-time checks that make a schema set usable.
use vstd::prelude::*;

verus! {

/// The type of one field, together with the literal default that a
/// defaulted field of that type resolves to when it is omitted.
#[derive(Debug)]
pub enum FieldType {
    /// A quoted textual literal; the payload is the default text, if any.
    Text(Option<String>),
    /// A byte-sequence literal; the payload is the default bytes, if any.
    ByteSeq(Option<Vec<u8>>),
    /// A nested record literal, parsed by the named record's own parser.
    Reference(String),
    /// A bare identifier drawn from a fixed variant set; the second
    /// payload is the default variant, if any.
    Enumeration(Vec<String>, Option<String>),
    /// A brace-delimited text-to-text mapping.
    TextMap,
}

/// One declared field: its name, its type, and whether it may be omitted
/// without a default (`optional`).
#[derive(Debug)]
pub struct Field {
    pub name: String,
    pub ty: FieldType,
    pub optional: bool,
}

/// A slot of a record: either a standalone field or an exclusive group
/// of fields, exactly one of which must be supplied.
#[derive(Debug)]
pub enum FieldSlot {
    Single(Field),
    Group(Vec<Field>),
}

/// A named record shape: an ordered list of slots.
#[derive(Debug)]
pub struct RecordSchema {
    pub name: String,
    pub slots: Vec<FieldSlot>,
}

/// A set of record schemas plus the name of the root record a consumer
/// starts parsing from.
#[derive(Debug)]
pub struct SchemaSet {
    pub records: Vec<RecordSchema>,
    pub root: String,
}

/// The fields a slot declares, in order.
pub open spec fn slot_fields(s: FieldSlot) -> Seq<Field> {
    match s {
        FieldSlot::Single(f) => seq![f],
        FieldSlot::Group(fs) => fs@,
    }
}

/// Whether a field is defaulted: its type carries a default literal.
pub open spec fn spec_has_default(f: Field) -> bool {
    match f.ty {
        FieldType::Text(d) => d is Some,
        FieldType::ByteSeq(d) => d is Some,
        FieldType::Reference(_) => false,
        FieldType::Enumeration(_, d) => d is Some,
        FieldType::TextMap => false,
    }
}

/// A standalone field that is neither optional nor defaulted must be
/// supplied in every literal.
pub open spec fn spec_is_required(f: Field) -> bool {
    !f.optional && !spec_has_default(f)
}

/// First index of a field named `n` in `fs`, or -1.
pub open spec fn find_in_fields(fs: Seq<Field>, n: Seq<char>) -> int
    decreases fs.len(),
{
    if fs.len() == 0 {
        -1
    } else if fs[0].name@ == n {
        0
    } else {
        let r = find_in_fields(fs.drop_first(), n);
        if r < 0 {
            -1
        } else {
            r + 1
        }
    }
}

/// First slot whose fields include one named `n`, or -1.
pub open spec fn find_slot_idx(slots: Seq<FieldSlot>, n: Seq<char>) -> int
    decreases slots.len(),
{
    if slots.len() == 0 {
        -1
    } else if find_in_fields(slot_fields(slots[0]), n) >= 0 {
        0
    } else {
        let r = find_slot_idx(slots.drop_first(), n);
        if r < 0 {
            -1
        } else {
            r + 1
        }
    }
}

/// Whether record `r` declares a field named `n`, standalone or as a
/// group member.
pub open spec fn declares(r: RecordSchema, n: Seq<char>) -> bool {
    find_slot_idx(r.slots@, n) >= 0
}

/// The declared field named `n` of record `r` (the first match).
pub open spec fn field_of(r: RecordSchema, n: Seq<char>) -> Field {
    let si = find_slot_idx(r.slots@, n);
    let fs = slot_fields(r.slots@[si]);
    fs[find_in_fields(fs, n)]
}

/// First index of a record named `n`, or -1.
pub open spec fn find_record_idx(records: Seq<RecordSchema>, n: Seq<char>) -> int
    decreases records.len(),
{
    if records.len() == 0 {
        -1
    } else if records[0].name@ == n {
        0
    } else {
        let r = find_record_idx(records.drop_first(), n);
        if r < 0 {
            -1
        } else {
            r + 1
        }
    }
}

/// Whether the set declares a record named `n`.
pub open spec fn has_record(set: SchemaSet, n: Seq<char>) -> bool {
    find_record_idx(set.records@, n) >= 0
}

/// The record named `n` of the set (the first match).
pub open spec fn record_of(set: SchemaSet, n: Seq<char>) -> RecordSchema {
    set.records@[find_record_idx(set.records@, n)]
}

/// Whether some string in `vs` reads `n`.
pub open spec fn contains_str(vs: Seq<String>, n: Seq<char>) -> bool {
    exists|k: int| 0 <= k < vs.len() && vs[k]@ == n
}

pub proof fn lemma_find_in_fields(fs: Seq<Field>, n: Seq<char>)
    ensures
        find_in_fields(fs, n) >= 0 ==> find_in_fields(fs, n) < fs.len() && fs[find_in_fields(
            fs,
            n,
        )].name@ == n,
        find_in_fields(fs, n) < 0 ==> forall|k: int| 0 <= k < fs.len() ==> fs[k].name@ != n,
        forall|k: int| 0 <= k < find_in_fields(fs, n) ==> fs[k].name@ != n,
    decreases fs.len(),
{
    if fs.len() > 0 && fs[0].name@ != n {
        lemma_find_in_fields(fs.drop_first(), n);
        assert forall|k: int| 1 <= k < fs.len() implies #[trigger] fs[k].name@ == fs.drop_first()[k
            - 1].name@ by {
            assert(fs.drop_first()[k - 1] == fs[k]);
        }
    }
}

pub proof fn lemma_find_slot_idx(slots: Seq<FieldSlot>, n: Seq<char>)
    ensures
        find_slot_idx(slots, n) >= 0 ==> find_slot_idx(slots, n) < slots.len() && find_in_fields(
            slot_fields(slots[find_slot_idx(slots, n)]),
            n,
        ) >= 0,
        find_slot_idx(slots, n) < 0 ==> forall|k: int|
            0 <= k < slots.len() ==> find_in_fields(slot_fields(#[trigger] slots[k]), n) < 0,
        forall|k: int|
            0 <= k < find_slot_idx(slots, n) ==> find_in_fields(
                slot_fields(#[trigger] slots[k]),
                n,
            ) < 0,
    decreases slots.len(),
{
    if slots.len() > 0 && find_in_fields(slot_fields(slots[0]), n) < 0 {
        lemma_find_slot_idx(slots.drop_first(), n);
        assert forall|k: int| 1 <= k < slots.len() implies find_in_fields(
            slot_fields(#[trigger] slots[k]),
            n,
        ) == find_in_fields(slot_fields(slots.drop_first()[k - 1]), n) by {
            assert(slots.drop_first()[k - 1] == slots[k]);
        }
    }
}

pub proof fn lemma_find_record_idx(records: Seq<RecordSchema>, n: Seq<char>)
    ensures
        find_record_idx(records, n) >= 0 ==> find_record_idx(records, n) < records.len()
            && records[find_record_idx(records, n)].name@ == n,
        find_record_idx(records, n) < 0 ==> forall|k: int|
            0 <= k < records.len() ==> records[k].name@ != n,
        forall|k: int| 0 <= k < find_record_idx(records, n) ==> records[k].name@ != n,
    decreases records.len(),
{
    if records.len() > 0 && records[0].name@ != n {
        lemma_find_record_idx(records.drop_first(), n);
        assert forall|k: int| 1 <= k < records.len() implies #[trigger] records[k].name@
            == records.drop_first()[k - 1].name@ by {
            assert(records.drop_first()[k - 1] == records[k]);
        }
    }
}

pub proof fn lemma_find_in_fields_at(fs: Seq<Field>, n: Seq<char>, k: int)
    requires
        0 <= k < fs.len(),
        fs[k].name@ == n,
        forall|j: int| 0 <= j < k ==> fs[j].name@ != n,
    ensures
        find_in_fields(fs, n) == k,
{
    lemma_find_in_fields(fs, n);
}

pub proof fn lemma_find_slot_idx_at(slots: Seq<FieldSlot>, n: Seq<char>, k: int)
    requires
        0 <= k < slots.len(),
        find_in_fields(slot_fields(slots[k]), n) >= 0,
        forall|j: int| 0 <= j < k ==> find_in_fields(slot_fields(#[trigger] slots[j]), n) < 0,
    ensures
        find_slot_idx(slots, n) == k,
{
    lemma_find_slot_idx(slots, n);
}

pub proof fn lemma_find_record_idx_at(records: Seq<RecordSchema>, n: Seq<char>, k: int)
    requires
        0 <= k < records.len(),
        records[k].name@ == n,
        forall|j: int| 0 <= j < k ==> records[j].name@ != n,
    ensures
        find_record_idx(records, n) == k,
{
    lemma_find_record_idx(records, n);
}

/// An error detected while a schema set is defined; any such error aborts
/// the whole definition step.
#[derive(Debug)]
pub enum SchemaDefError {
    /// Two declared fields of one record share this name.
    DuplicateFieldName(String),
    /// This enumeration field declares no variants.
    EmptyEnumVariantSet(String),
    /// This enumeration field (first payload) declares a default variant
    /// (second payload) outside its variant set.
    UnknownDefaultVariant(String, String),
    /// A reference or the root names a record that the set does not define.
    UnresolvedReference(String),
    /// An exclusive group of this record has fewer than two members.
    GroupTooSmall(String),
    /// The schema text itself does not follow the definition grammar; the
    /// payload is the character position of the offending token.
    MalformedDefinition(usize),
}

impl SchemaDefError {
    /// A short human-readable account of the definition error.
    pub fn message(&self) -> (r: String) {
        match self {
            SchemaDefError::DuplicateFieldName(n) => {
                let mut m = String::from_str("duplicate field name: ");
                m.append(n.as_str());
                m
            },
            SchemaDefError::EmptyEnumVariantSet(n) => {
                let mut m = String::from_str("enum variants cannot be empty: ");
                m.append(n.as_str());
                m
            },
            SchemaDefError::UnknownDefaultVariant(n, d) => {
                let mut m = String::from_str("the default of ");
                m.append(n.as_str());
                m.append(" is not one of its variants: ");
                m.append(d.as_str());
                m
            },
            SchemaDefError::UnresolvedReference(t) => {
                let mut m = String::from_str("no record is named ");
                m.append(t.as_str());
                m
            },
            SchemaDefError::GroupTooSmall(rn) => {
                let mut m = String::from_str("an exclusive group of ");
                m.append(rn.as_str());
                m.append(" has fewer than two members");
                m
            },
            SchemaDefError::MalformedDefinition(_) => String::from_str(
                "the schema text does not follow the definition grammar",
            ),
        }
    }
}

/// Definition-time validity of one field: an enumeration has a non-empty
/// variant set and a default drawn from it; a reference resolves in the
/// set. Forward references are allowed: the whole set is consulted.
pub open spec fn field_ok(set: SchemaSet, f: Field) -> bool {
    match f.ty {
        FieldType::Enumeration(vars, d) => vars@.len() > 0 && match d {
            Some(dv) => contains_str(vars@, dv@),
            None => true,
        },
        FieldType::Reference(t) => has_record(set, t@),
        _ => true,
    }
}

/// The field at position (`si`, `mi`) of `r` is valid and is the first
/// field of its name, so field names are unique exactly when every
/// position satisfies this.
pub open spec fn position_ok(set: SchemaSet, r: RecordSchema, si: int, mi: int) -> bool {
    let f = slot_fields(r.slots@[si])[mi];
    &&& find_slot_idx(r.slots@, f.name@) == si
    &&& find_in_fields(slot_fields(r.slots@[si]), f.name@) == mi
    &&& field_ok(set, f)
}

/// Definition-time validity of slot `si` of `r`.
pub open spec fn slot_ok(set: SchemaSet, r: RecordSchema, si: int) -> bool {
    &&& (r.slots@[si] matches FieldSlot::Group(fs) ==> fs@.len() >= 2)
    &&& forall|mi: int|
        0 <= mi < slot_fields(r.slots@[si]).len() ==> #[trigger] position_ok(set, r, si, mi)
}

/// Definition-time validity of one record within the set.
pub open spec fn record_ok(set: SchemaSet, r: RecordSchema) -> bool {
    forall|si: int| 0 <= si < r.slots@.len() ==> #[trigger] slot_ok(set, r, si)
}

/// Definition-time validity of the whole schema set: every record is
/// valid and the root name resolves.
pub open spec fn schemas_ok(set: SchemaSet) -> bool {
    &&& forall|ri: int| 0 <= ri < set.records@.len() ==> record_ok(set, #[trigger] set.records@[ri])
    &&& has_record(set, set.root@)
}

/// What must hold of the schema set for `validate` to report this error.
pub open spec fn def_err_justified(set: SchemaSet, e: SchemaDefError) -> bool {
    match e {
        SchemaDefError::DuplicateFieldName(n) => exists|ri: int, s1: int, m1: int, s2: int, m2: int|
            #![trigger slot_fields(set.records@[ri].slots@[s1])[m1], slot_fields(set.records@[ri].slots@[s2])[m2]]
            {
                let r = set.records@[ri];
                &&& 0 <= ri < set.records@.len()
                &&& 0 <= s1 < r.slots@.len()
                &&& 0 <= m1 < slot_fields(r.slots@[s1]).len()
                &&& 0 <= s2 < r.slots@.len()
                &&& 0 <= m2 < slot_fields(r.slots@[s2]).len()
                &&& (s1 != s2 || m1 != m2)
                &&& slot_fields(r.slots@[s1])[m1].name@ == n@
                &&& slot_fields(r.slots@[s2])[m2].name@ == n@
            },
        SchemaDefError::EmptyEnumVariantSet(fname) => exists|ri: int, si: int, mi: int|
            #![trigger slot_fields(set.records@[ri].slots@[si])[mi]]
            {
                let r = set.records@[ri];
                &&& 0 <= ri < set.records@.len()
                &&& 0 <= si < r.slots@.len()
                &&& 0 <= mi < slot_fields(r.slots@[si]).len()
                &&& {
                    let f = slot_fields(r.slots@[si])[mi];
                    f.name@ == fname@ && (f.ty matches FieldType::Enumeration(vars, _)
                        && vars@.len() == 0)
                }
            },
        SchemaDefError::UnknownDefaultVariant(fname, d) => exists|ri: int, si: int, mi: int|
            #![trigger slot_fields(set.records@[ri].slots@[si])[mi]]
            {
                let r = set.records@[ri];
                &&& 0 <= ri < set.records@.len()
                &&& 0 <= si < r.slots@.len()
                &&& 0 <= mi < slot_fields(r.slots@[si]).len()
                &&& {
                    let f = slot_fields(r.slots@[si])[mi];
                    f.name@ == fname@ && (f.ty matches FieldType::Enumeration(vars, dv)
                        && dv matches Some(dvv) && dvv@ == d@ && !contains_str(vars@, d@))
                }
            },
        SchemaDefError::UnresolvedReference(t) => !has_record(set, t@) && (set.root@ == t@
            || exists|ri: int, si: int, mi: int|
            #![trigger slot_fields(set.records@[ri].slots@[si])[mi]]
            {
                let r = set.records@[ri];
                &&& 0 <= ri < set.records@.len()
                &&& 0 <= si < r.slots@.len()
                &&& 0 <= mi < slot_fields(r.slots@[si]).len()
                &&& slot_fields(r.slots@[si])[mi].ty matches FieldType::Reference(t2) && t2@ == t@
            }),
        SchemaDefError::GroupTooSmall(rn) => exists|ri: int, si: int|
            #![trigger set.records@[ri].slots@[si]]
            {
                let r = set.records@[ri];
                &&& 0 <= ri < set.records@.len()
                &&& 0 <= si < r.slots@.len()
                &&& r.slots@[si] matches FieldSlot::Group(fs) && fs@.len() < 2
                &&& r.name@ == rn@
            },
        SchemaDefError::MalformedDefinition(_) => false,
    }
}

/// Finds the declared field named `n` of `rec`: its slot index and its
/// index within the slot.
pub fn lookup_field(rec: &RecordSchema, n: &String) -> (res: Option<(usize, usize)>)
    ensures
        match res {
            Some(p) => find_slot_idx(rec.slots@, n@) == p.0 && 0 <= p.0 < rec.slots@.len()
                && find_in_fields(slot_fields(rec.slots@[p.0 as int]), n@) == p.1 && p.1
                < slot_fields(rec.slots@[p.0 as int]).len() && slot_fields(
                rec.slots@[p.0 as int],
            )[p.1 as int].name@ == n@,
            None => find_slot_idx(rec.slots@, n@) < 0,
        },
{
    let mut si: usize = 0;
    while si < rec.slots.len()
        invariant
            si <= rec.slots@.len(),
            forall|k: int|
                0 <= k < si ==> find_in_fields(slot_fields(#[trigger] rec.slots@[k]), n@) < 0,
        decreases rec.slots@.len() - si,
    {
        let ghost sfs = slot_fields(rec.slots@[si as int]);
        match &rec.slots[si] {
            FieldSlot::Single(f) => {
                assert(sfs =~= seq![*f]);
                if f.name == *n {
                    proof {
                        lemma_find_in_fields_at(sfs, n@, 0);
                        lemma_find_slot_idx_at(rec.slots@, n@, si as int);
                    }
                    return Some((si, 0));
                }
                proof {
                    lemma_find_in_fields(sfs, n@);
                    assert(forall|j: int| 0 <= j < sfs.len() ==> sfs[j].name@ != n@);
                    assert(find_in_fields(sfs, n@) < 0) by {
                        if find_in_fields(sfs, n@) >= 0 {
                            assert(sfs[find_in_fields(sfs, n@)].name@ == n@);
                        }
                    }
                }
            },
            FieldSlot::Group(fs) => {
                assert(sfs =~= fs@);
                let mut mi: usize = 0;
                while mi < fs.len()
                    invariant
                        mi <= fs@.len(),
                        sfs == fs@,
                        sfs == slot_fields(rec.slots@[si as int]),
                        si < rec.slots@.len(),
                        forall|j: int| 0 <= j < mi ==> #[trigger] fs@[j].name@ != n@,
                        forall|k: int|
                            0 <= k < si ==> find_in_fields(
                                slot_fields(#[trigger] rec.slots@[k]),
                                n@,
                            ) < 0,
                    decreases fs@.len() - mi,
                {
                    if fs[mi].name == *n {
                        proof {
                            lemma_find_in_fields_at(sfs, n@, mi as int);
                            lemma_find_slot_idx_at(rec.slots@, n@, si as int);
                        }
                        return Some((si, mi));
                    }
                    mi += 1;
                }
                proof {
                    lemma_find_in_fields(sfs, n@);
                    assert(find_in_fields(sfs, n@) < 0) by {
                        if find_in_fields(sfs, n@) >= 0 {
                            assert(sfs[find_in_fields(sfs, n@)].name@ == n@);
                        }
                    }
                }
            },
        };
        si += 1;
    }
    proof {
        lemma_find_slot_idx(rec.slots@, n@);
        assert(find_slot_idx(rec.slots@, n@) < 0) by {
            if find_slot_idx(rec.slots@, n@) >= 0 {
                assert(find_in_fields(
                    slot_fields(rec.slots@[find_slot_idx(rec.slots@, n@)]),
                    n@,
                ) >= 0);
            }
        }
    }
    None
}

/// Finds the record named `n` in the set.
pub fn find_record(set: &SchemaSet, n: &String) -> (res: Option<usize>)
    ensures
        match res {
            Some(i) => find_record_idx(set.records@, n@) == i && 0 <= i < set.records@.len()
                && set.records@[i as int].name@ == n@,
            None => find_record_idx(set.records@, n@) < 0,
        },
{
    let mut i: usize = 0;
    while i < set.records.len()
        invariant
            i <= set.records@.len(),
            forall|k: int| 0 <= k < i ==> #[trigger] set.records@[k].name@ != n@,
        decreases set.records@.len() - i,
    {
        if set.records[i].name == *n {
            proof {
                lemma_find_record_idx_at(set.records@, n@, i as int);
            }
            return Some(i);
        }
        i += 1;
    }
    proof {
        lemma_find_record_idx(set.records@, n@);
    }
    None
}

/// What must hold of one record for `validate` to report this error
/// while checking it.
pub open spec fn def_err_in_record(set: SchemaSet, r: RecordSchema, e: SchemaDefError) -> bool {
    match e {
        SchemaDefError::DuplicateFieldName(n) => exists|s1: int, m1: int, s2: int, m2: int|
            #![trigger slot_fields(r.slots@[s1])[m1], slot_fields(r.slots@[s2])[m2]]
            {
                &&& 0 <= s1 < r.slots@.len()
                &&& 0 <= m1 < slot_fields(r.slots@[s1]).len()
                &&& 0 <= s2 < r.slots@.len()
                &&& 0 <= m2 < slot_fields(r.slots@[s2]).len()
                &&& (s1 != s2 || m1 != m2)
                &&& slot_fields(r.slots@[s1])[m1].name@ == n@
                &&& slot_fields(r.slots@[s2])[m2].name@ == n@
            },
        SchemaDefError::EmptyEnumVariantSet(fname) => exists|si: int, mi: int|
            #![trigger slot_fields(r.slots@[si])[mi]]
            {
                &&& 0 <= si < r.slots@.len()
                &&& 0 <= mi < slot_fields(r.slots@[si]).len()
                &&& {
                    let f = slot_fields(r.slots@[si])[mi];
                    f.name@ == fname@ && (f.ty matches FieldType::Enumeration(vars, _)
                        && vars@.len() == 0)
                }
            },
        SchemaDefError::UnknownDefaultVariant(fname, d) => exists|si: int, mi: int|
            #![trigger slot_fields(r.slots@[si])[mi]]
            {
                &&& 0 <= si < r.slots@.len()
                &&& 0 <= mi < slot_fields(r.slots@[si]).len()
                &&& {
                    let f = slot_fields(r.slots@[si])[mi];
                    f.name@ == fname@ && (f.ty matches FieldType::Enumeration(vars, dv)
                        && dv matches Some(dvv) && dvv@ == d@ && !contains_str(vars@, d@))
                }
            },
        SchemaDefError::UnresolvedReference(t) => !has_record(set, t@) && exists|si: int, mi: int|
            #![trigger slot_fields(r.slots@[si])[mi]]
            {
                &&& 0 <= si < r.slots@.len()
                &&& 0 <= mi < slot_fields(r.slots@[si]).len()
                &&& slot_fields(r.slots@[si])[mi].ty matches FieldType::Reference(t2) && t2@ == t@
            },
        SchemaDefError::GroupTooSmall(rn) => r.name@ == rn@ && exists|si: int|
            #![trigger r.slots@[si]]
            {
                &&& 0 <= si < r.slots@.len()
                &&& r.slots@[si] matches FieldSlot::Group(fs) && fs@.len() < 2
            },
        SchemaDefError::MalformedDefinition(_) => false,
    }
}

pub proof fn lemma_lift_record_err(set: SchemaSet, ri: int, e: SchemaDefError)
    requires
        0 <= ri < set.records@.len(),
        def_err_in_record(set, set.records@[ri], e),
    ensures
        def_err_justified(set, e),
{
    let r = set.records@[ri];
    match e {
        SchemaDefError::DuplicateFieldName(n) => {
            let (s1, m1, s2, m2): (int, int, int, int) = choose|s1: int, m1: int, s2: int, m2: int|
                #![trigger slot_fields(r.slots@[s1])[m1], slot_fields(r.slots@[s2])[m2]]
                {
                    &&& 0 <= s1 < r.slots@.len()
                    &&& 0 <= m1 < slot_fields(r.slots@[s1]).len()
                    &&& 0 <= s2 < r.slots@.len()
                    &&& 0 <= m2 < slot_fields(r.slots@[s2]).len()
                    &&& (s1 != s2 || m1 != m2)
                    &&& slot_fields(r.slots@[s1])[m1].name@ == n@
                    &&& slot_fields(r.slots@[s2])[m2].name@ == n@
                };
            assert(slot_fields(set.records@[ri].slots@[s1])[m1].name@ == n@ && slot_fields(
                set.records@[ri].slots@[s2],
            )[m2].name@ == n@);
        },
        SchemaDefError::EmptyEnumVariantSet(fname) => {
            let (si, mi): (int, int) = choose|si: int, mi: int|
                #![trigger slot_fields(r.slots@[si])[mi]]
                {
                    &&& 0 <= si < r.slots@.len()
                    &&& 0 <= mi < slot_fields(r.slots@[si]).len()
                    &&& {
                        let f = slot_fields(r.slots@[si])[mi];
                        f.name@ == fname@ && (f.ty matches FieldType::Enumeration(vars, _)
                            && vars@.len() == 0)
                    }
                };
            assert(0 <= mi < slot_fields(set.records@[ri].slots@[si]).len());
        },
        SchemaDefError::UnknownDefaultVariant(fname, d) => {
            let (si, mi): (int, int) = choose|si: int, mi: int|
                #![trigger slot_fields(r.slots@[si])[mi]]
                {
                    &&& 0 <= si < r.slots@.len()
                    &&& 0 <= mi < slot_fields(r.slots@[si]).len()
                    &&& {
                        let f = slot_fields(r.slots@[si])[mi];
                        f.name@ == fname@ && (f.ty matches FieldType::Enumeration(vars, dv)
                            && dv matches Some(dvv) && dvv@ == d@ && !contains_str(vars@, d@))
                    }
                };
            assert(0 <= mi < slot_fields(set.records@[ri].slots@[si]).len());
        },
        SchemaDefError::UnresolvedReference(t) => {
            let (si, mi): (int, int) = choose|si: int, mi: int|
                #![trigger slot_fields(r.slots@[si])[mi]]
                {
                    &&& 0 <= si < r.slots@.len()
                    &&& 0 <= mi < slot_fields(r.slots@[si]).len()
                    &&& slot_fields(r.slots@[si])[mi].ty matches FieldType::Reference(t2) && t2@
                        == t@
                };
            assert(0 <= mi < slot_fields(set.records@[ri].slots@[si]).len());
        },
        SchemaDefError::GroupTooSmall(rn) => {
            let si: int = choose|si: int|
                #![trigger r.slots@[si]]
                {
                    &&& 0 <= si < r.slots@.len()
                    &&& r.slots@[si] matches FieldSlot::Group(fs) && fs@.len() < 2
                };
            assert(0 <= si < set.records@[ri].slots@.len() && (set.records@[ri].slots@[si] matches
                FieldSlot::Group(fs) && fs@.len() < 2));
        },
        SchemaDefError::MalformedDefinition(_) => {},
    }
}

/// Whether `vs` holds a string reading `n`.
pub fn contains_name(vs: &Vec<String>, n: &String) -> (r: bool)
    ensures
        r == contains_str(vs@, n@),
{
    let mut i: usize = 0;
    while i < vs.len()
        invariant
            i <= vs@.len(),
            forall|k: int| 0 <= k < i ==> #[trigger] vs@[k]@ != n@,
        decreases vs@.len() - i,
    {
        if vs[i] == *n {
            return true;
        }
        i += 1;
    }
    false
}

/// Checks the field at position (`si`, `mi`) of `rec`: first of its name
/// in the record, and valid on its own terms within the set.
fn check_field_at(set: &SchemaSet, rec: &RecordSchema, si: usize, mi: usize, f: &Field) -> (r:
    Result<(), SchemaDefError>)
    requires
        si < rec.slots@.len(),
        mi < slot_fields(rec.slots@[si as int]).len(),
        slot_fields(rec.slots@[si as int])[mi as int] == *f,
    ensures
        r is Ok <==> position_ok(*set, *rec, si as int, mi as int),
        r matches Err(e) ==> def_err_in_record(*set, *rec, e),
{
    let dup = match lookup_field(rec, &f.name) {
        Some((s2, m2)) => !(s2 == si && m2 == mi),
        None => {
            proof {
                lemma_find_slot_idx(rec.slots@, f.name@);
            }
            assert(false) by {
                assert(find_in_fields(slot_fields(rec.slots@[si as int]), f.name@) >= 0) by {
                    lemma_find_in_fields(slot_fields(rec.slots@[si as int]), f.name@);
                    if find_in_fields(slot_fields(rec.slots@[si as int]), f.name@) < 0 {
                        assert(slot_fields(rec.slots@[si as int])[mi as int].name@ != f.name@);
                    }
                }
            }
            true
        },
    };
    if dup {
        proof {
            lemma_find_slot_idx(rec.slots@, f.name@);
            lemma_find_in_fields(slot_fields(rec.slots@[find_slot_idx(rec.slots@, f.name@)]), f.name@);
        }
        return Err(SchemaDefError::DuplicateFieldName(f.name.clone()));
    }
    match &f.ty {
        FieldType::Enumeration(vars, d) => {
            if vars.len() == 0 {
                return Err(SchemaDefError::EmptyEnumVariantSet(f.name.clone()));
            }
            match d {
                Some(dv) => {
                    if !contains_name(vars, dv) {
                        return Err(
                            SchemaDefError::UnknownDefaultVariant(f.name.clone(), dv.clone()),
                        );
                    }
                },
                None => {},
            }
        },
        FieldType::Reference(t) => {
            if find_record(set, t).is_none() {
                return Err(SchemaDefError::UnresolvedReference(t.clone()));
            }
        },
        _ => {},
    }
    Ok(())
}

/// Checks one record of the set against the definition-time rules.
fn check_record(set: &SchemaSet, rec: &RecordSchema) -> (r: Result<(), SchemaDefError>)
    ensures
        r is Ok <==> record_ok(*set, *rec),
        r matches Err(e) ==> def_err_in_record(*set, *rec, e),
{
    let mut si: usize = 0;
    while si < rec.slots.len()
        invariant
            si <= rec.slots@.len(),
            forall|k: int| 0 <= k < si ==> #[trigger] slot_ok(*set, *rec, k),
        decreases rec.slots@.len() - si,
    {
        match &rec.slots[si] {
            FieldSlot::Single(f) => {
                assert(slot_fields(rec.slots@[si as int]) =~= seq![*f]);
                match check_field_at(set, rec, si, 0, f) {
                    Ok(()) => {},
                    Err(e) => {
                        assert(!slot_ok(*set, *rec, si as int));
                        return Err(e);
                    },
                }
                assert(slot_ok(*set, *rec, si as int));
            },
            FieldSlot::Group(fs) => {
                assert(slot_fields(rec.slots@[si as int]) =~= fs@);
                if fs.len() < 2 {
                    assert(!slot_ok(*set, *rec, si as int));
                    return Err(SchemaDefError::GroupTooSmall(rec.name.clone()));
                }
                let mut mi: usize = 0;
                while mi < fs.len()
                    invariant
                        mi <= fs@.len(),
                        si < rec.slots@.len(),
                        slot_fields(rec.slots@[si as int]) == fs@,
                        rec.slots@[si as int] matches FieldSlot::Group(g) && g@ == fs@,
                        forall|j: int| 0 <= j < mi ==> #[trigger] position_ok(*set, *rec, si as int, j),
                    decreases fs@.len() - mi,
                {
                    match check_field_at(set, rec, si, mi, &fs[mi]) {
                        Ok(()) => {},
                        Err(e) => {
                            assert(!slot_ok(*set, *rec, si as int));
                            return Err(e);
                        },
                    }
                    mi += 1;
                }
                assert(slot_ok(*set, *rec, si as int));
            },
        }
        si += 1;
    }
    assert forall|si2: int| 0 <= si2 < rec.slots@.len() implies #[trigger] slot_ok(
        *set,
        *rec,
        si2,
    ) by {}
    Ok(())
}

/// Validates a schema set at definition time: field-name uniqueness per
/// record, group arity, enumeration variant sets and defaults, and
/// reference resolvability (the root name included). Returns the first
/// offence found; a valid set passes, an invalid one never does.
pub fn validate(set: &SchemaSet) -> (r: Result<(), SchemaDefError>)
    ensures
        r is Ok <==> schemas_ok(*set),
        r matches Err(e) ==> def_err_justified(*set, e),
{
    let mut ri: usize = 0;
    while ri < set.records.len()
        invariant
            ri <= set.records@.len(),
            forall|k: int| 0 <= k < ri ==> record_ok(*set, #[trigger] set.records@[k]),
        decreases set.records@.len() - ri,
    {
        match check_record(set, &set.records[ri]) {
            Ok(()) => {},
            Err(e) => {
                proof {
                    lemma_lift_record_err(*set, ri as int, e);
                }
                assert(!record_ok(*set, set.records@[ri as int]));
                return Err(e);
            },
        }
        ri += 1;
    }
    if find_record(set, &set.root).is_none() {
        assert(!has_record(*set, set.root@));
        return Err(SchemaDefError::UnresolvedReference(set.root.clone()));
    }
    Ok(())
}

} // verus!
