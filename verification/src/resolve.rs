//! The literal-parsing protocol: a brace literal, already grouped into a
//! pair tree, is resolved against a record schema into a full instance.
//!
//! The meaning of a parse is fixed by two spec-level notions. A literal
//! is *good* for a record (`literal_good`) when every pair names a
//! declared field, no standalone field repeats, each exclusive group
//! receives exactly one supply, every required field is supplied, and
//! every value has its field's shape. A good literal *denotes* the
//! instance view given by `conv_record`: the supplied pair for each
//! field, the declared default for an omitted defaulted field, absence
//! for an omitted optional field, and the unique supplied member for
//! each group. `resolve_record` returns `Ok` exactly on good literals,
//! and then returns exactly the denoted instance.
use vstd::prelude::*;

use crate::instance::{
    map_of_entries, inst_v, slot_v, slots_v, lemma_slots_v, val_v, InstV, RecordInstance, SlotV,
    SlotValue, ValV, Value,
};
use crate::literal::{Lit, LitKind, LitPair, ParseError, ParseErrorKind};
use crate::wf::{inst_wf, slot_wf, value_wf};
use crate::schema::{
    contains_name, contains_str, declares, field_of, find_in_fields, find_record, find_record_idx,
    find_slot_idx, has_record, lemma_find_in_fields, lemma_find_record_idx, lemma_find_slot_idx,
    lookup_field, field_ok, record_of, record_ok, schemas_ok, slot_fields, slot_ok, position_ok,
    spec_has_default, spec_is_required, Field, FieldSlot, FieldType, RecordSchema, SchemaSet,
};

verus! {

/// How many pairs are named `n`.
pub open spec fn cnt(pairs: Seq<LitPair>, n: Seq<char>) -> nat
    decreases pairs.len(),
{
    if pairs.len() == 0 {
        0
    } else {
        cnt(pairs.drop_last(), n) + if pairs.last().name@ == n {
            1nat
        } else {
            0nat
        }
    }
}

/// First index of a pair named `n`, or -1.
pub open spec fn first_pair_idx(pairs: Seq<LitPair>, n: Seq<char>) -> int
    decreases pairs.len(),
{
    if pairs.len() == 0 {
        -1
    } else if pairs[0].name@ == n {
        0
    } else {
        let r = first_pair_idx(pairs.drop_first(), n);
        if r < 0 {
            -1
        } else {
            r + 1
        }
    }
}

/// The value of the first pair named `n`.
pub open spec fn pair_value(pairs: Seq<LitPair>, n: Seq<char>) -> Lit {
    pairs[first_pair_idx(pairs, n)].value
}

/// How many supplies an exclusive group's members received in all.
pub open spec fn group_cnt(fs: Seq<Field>, pairs: Seq<LitPair>) -> nat
    decreases fs.len(),
{
    if fs.len() == 0 {
        0
    } else {
        group_cnt(fs.drop_last(), pairs) + cnt(pairs, fs.last().name@)
    }
}

/// First member of the group that was supplied, or -1.
pub open spec fn first_supplied(fs: Seq<Field>, pairs: Seq<LitPair>) -> int
    decreases fs.len(),
{
    if fs.len() == 0 {
        -1
    } else if cnt(pairs, fs[0].name@) >= 1 {
        0
    } else {
        let r = first_supplied(fs.drop_first(), pairs);
        if r < 0 {
            -1
        } else {
            r + 1
        }
    }
}

/// Every pair names a declared field of the record.
pub open spec fn names_known(rec: RecordSchema, pairs: Seq<LitPair>) -> bool {
    forall|i: int| 0 <= i < pairs.len() ==> declares(rec, #[trigger] pairs[i].name@)
}

/// No standalone field repeats and no exclusive group receives more than
/// one supply.
pub open spec fn no_repeats(rec: RecordSchema, pairs: Seq<LitPair>) -> bool {
    forall|si: int|
        0 <= si < rec.slots@.len() ==> match #[trigger] rec.slots@[si] {
            FieldSlot::Single(f) => cnt(pairs, f.name@) <= 1,
            FieldSlot::Group(fs) => group_cnt(fs@, pairs) <= 1,
        }
}

/// Every required standalone field is supplied.
pub open spec fn all_required(rec: RecordSchema, pairs: Seq<LitPair>) -> bool {
    forall|si: int|
        0 <= si < rec.slots@.len() ==> match #[trigger] rec.slots@[si] {
            FieldSlot::Single(f) => spec_is_required(f) ==> cnt(pairs, f.name@) >= 1,
            FieldSlot::Group(_) => true,
        }
}

/// Every exclusive group is supplied at least once.
pub open spec fn all_groups_chosen(rec: RecordSchema, pairs: Seq<LitPair>) -> bool {
    forall|si: int|
        0 <= si < rec.slots@.len() ==> match #[trigger] rec.slots@[si] {
            FieldSlot::Single(_) => true,
            FieldSlot::Group(fs) => group_cnt(fs@, pairs) >= 1,
        }
}

/// The value has the shape its field's type asks for; for a reference,
/// the nested literal must be good for the referenced record in turn.
pub open spec fn value_good(set: SchemaSet, ty: FieldType, l: Lit) -> bool
    decreases l, 1int, 0int,
{
    match ty {
        FieldType::Text(_) => l.kind is LText,
        FieldType::ByteSeq(_) => l.kind is LBytes,
        FieldType::Enumeration(vars, _) => l.kind matches LitKind::LIdent(v) && contains_str(
            vars@,
            v@,
        ),
        FieldType::Reference(t) => literal_good(set, t@, l),
        FieldType::TextMap => l.kind matches LitKind::LRec(ps) && forall|j: int|
            0 <= j < ps@.len() ==> (#[trigger] ps@[j].value.kind) is LText,
    }
}

/// The literal parses successfully against record `rn` of the set.
pub open spec fn literal_good(set: SchemaSet, rn: Seq<char>, l: Lit) -> bool
    decreases l, 0int, 0int,
{
    &&& has_record(set, rn)
    &&& l.kind matches LitKind::LRec(pairs) && {
        let rec = record_of(set, rn);
        &&& names_known(rec, pairs@)
        &&& no_repeats(rec, pairs@)
        &&& all_required(rec, pairs@)
        &&& all_groups_chosen(rec, pairs@)
        &&& forall|i: int|
            0 <= i < pairs@.len() ==> value_good(
                set,
                field_of(rec, (#[trigger] pairs@[i]).name@).ty,
                pairs@[i].value,
            )
    }
}

/// Every pair that names a declared field carries a value of its field's
/// shape.
pub open spec fn pairs_typed_ok(set: SchemaSet, rec: RecordSchema, pairs: Seq<LitPair>) -> bool {
    forall|i: int|
        0 <= i < pairs.len() ==> (declares(rec, (#[trigger] pairs[i]).name@) ==> value_good(
            set,
            field_of(rec, pairs[i].name@).ty,
            pairs[i].value,
        ))
}

/// No standalone field is supplied twice.
pub open spec fn singles_unique(rec: RecordSchema, pairs: Seq<LitPair>) -> bool {
    forall|si: int|
        0 <= si < rec.slots@.len() ==> match #[trigger] rec.slots@[si] {
            FieldSlot::Single(f) => cnt(pairs, f.name@) <= 1,
            FieldSlot::Group(_) => true,
        }
}

/// No exclusive group is supplied more than once in all.
pub open spec fn groups_unique(rec: RecordSchema, pairs: Seq<LitPair>) -> bool {
    forall|si: int|
        0 <= si < rec.slots@.len() ==> match #[trigger] rec.slots@[si] {
            FieldSlot::Single(_) => true,
            FieldSlot::Group(fs) => group_cnt(fs@, pairs) <= 1,
        }
}

/// The pairs are acceptable one by one: values of the right shape, no
/// duplicate standalone field, no group conflict. Whether names are
/// known, required fields supplied and groups chosen is left open.
pub open spec fn pairs_acceptable(set: SchemaSet, rec: RecordSchema, pairs: Seq<LitPair>) -> bool {
    &&& pairs_typed_ok(set, rec, pairs)
    &&& singles_unique(rec, pairs)
    &&& groups_unique(rec, pairs)
}

/// First pair whose name the record does not declare, or -1.
pub open spec fn first_unknown_idx(rec: RecordSchema, pairs: Seq<LitPair>) -> int
    decreases pairs.len(),
{
    if pairs.len() == 0 {
        -1
    } else if !declares(rec, pairs[0].name@) {
        0
    } else {
        let r = first_unknown_idx(rec, pairs.drop_first());
        if r < 0 {
            -1
        } else {
            r + 1
        }
    }
}

/// If pair `k` is undeclared and every earlier pair is declared, the
/// first unknown pair is pair `k`.
pub proof fn lemma_first_unknown_at(rec: RecordSchema, pairs: Seq<LitPair>, k: int)
    requires
        0 <= k < pairs.len(),
        !declares(rec, pairs[k].name@),
        forall|j: int| 0 <= j < k ==> declares(rec, (#[trigger] pairs[j]).name@),
    ensures
        first_unknown_idx(rec, pairs) == k,
    decreases pairs.len(),
{
    if k > 0 {
        assert(pairs.drop_first()[k - 1] == pairs[k]);
        assert forall|j: int| 0 <= j < k - 1 implies declares(
            rec,
            (#[trigger] pairs.drop_first()[j]).name@,
        ) by {
            assert(pairs.drop_first()[j] == pairs[j + 1]);
        }
        lemma_first_unknown_at(rec, pairs.drop_first(), k - 1);
    }
}

/// First slot holding a required standalone field that the pairs never
/// supply, or -1.
pub open spec fn first_missing_single(rec: RecordSchema, slots: Seq<FieldSlot>, pairs: Seq<LitPair>) -> int
    decreases slots.len(),
{
    if slots.len() == 0 {
        -1
    } else if slots[0] matches FieldSlot::Single(f) && spec_is_required(f) && cnt(pairs, f.name@)
        == 0 {
        0
    } else {
        let r = first_missing_single(rec, slots.drop_first(), pairs);
        if r < 0 {
            -1
        } else {
            r + 1
        }
    }
}

/// If slot `k` holds an unsupplied required field and no earlier slot
/// does, the first such slot is slot `k`.
pub proof fn lemma_first_missing_single_at(
    rec: RecordSchema,
    slots: Seq<FieldSlot>,
    pairs: Seq<LitPair>,
    k: int,
)
    requires
        0 <= k < slots.len(),
        slots[k] matches FieldSlot::Single(f) && spec_is_required(f) && cnt(pairs, f.name@) == 0,
        forall|j: int|
            0 <= j < k ==> !(#[trigger] slots[j] matches FieldSlot::Single(f2)
                && spec_is_required(f2) && cnt(pairs, f2.name@) == 0),
    ensures
        first_missing_single(rec, slots, pairs) == k,
    decreases slots.len(),
{
    if k > 0 {
        assert(slots.drop_first()[k - 1] == slots[k]);
        assert forall|j: int| 0 <= j < k - 1 implies !(#[trigger] slots.drop_first()[j] matches
            FieldSlot::Single(f2) && spec_is_required(f2) && cnt(pairs, f2.name@) == 0) by {
            assert(slots.drop_first()[j] == slots[j + 1]);
        }
        lemma_first_missing_single_at(rec, slots.drop_first(), pairs, k - 1);
    }
}

/// First slot holding an exclusive group the pairs never supply, or -1.
pub open spec fn first_unchosen_group(rec: RecordSchema, slots: Seq<FieldSlot>, pairs: Seq<LitPair>) -> int
    decreases slots.len(),
{
    if slots.len() == 0 {
        -1
    } else if slots[0] matches FieldSlot::Group(fs) && group_cnt(fs@, pairs) == 0 {
        0
    } else {
        let r = first_unchosen_group(rec, slots.drop_first(), pairs);
        if r < 0 {
            -1
        } else {
            r + 1
        }
    }
}

/// If slot `k` holds an unsupplied group and no earlier slot does, the
/// first such slot is slot `k`.
pub proof fn lemma_first_unchosen_group_at(
    rec: RecordSchema,
    slots: Seq<FieldSlot>,
    pairs: Seq<LitPair>,
    k: int,
)
    requires
        0 <= k < slots.len(),
        slots[k] matches FieldSlot::Group(fs) && group_cnt(fs@, pairs) == 0,
        forall|j: int|
            0 <= j < k ==> !(#[trigger] slots[j] matches FieldSlot::Group(fs2) && group_cnt(
                fs2@,
                pairs,
            ) == 0),
    ensures
        first_unchosen_group(rec, slots, pairs) == k,
    decreases slots.len(),
{
    if k > 0 {
        assert(slots.drop_first()[k - 1] == slots[k]);
        assert forall|j: int| 0 <= j < k - 1 implies !(#[trigger] slots.drop_first()[j] matches
            FieldSlot::Group(fs2) && group_cnt(fs2@, pairs) == 0) by {
            assert(slots.drop_first()[j] == slots[j + 1]);
        }
        lemma_first_unchosen_group_at(rec, slots.drop_first(), pairs, k - 1);
    }
}

/// Exactly which error a failed record parse reports, by the protocol's
/// scan order: the first unknown field among otherwise acceptable pairs;
/// a duplicated standalone field; a group conflict carrying the group's
/// member names, the two supplied members, and the later pair's
/// position; the first unsupplied required field once every group is
/// chosen; the first unchosen group once every required field is
/// supplied. Missing fields and choices are reported at the literal's
/// opening position, everything else at the offending token.
pub open spec fn parse_err_pinned(set: SchemaSet, rn: Seq<char>, l: Lit, e: ParseError) -> bool {
    has_record(set, rn) ==> match l.kind {
        LitKind::LRec(ps) => {
            let rec = record_of(set, rn);
            &&& (pairs_acceptable(set, rec, ps@) && !names_known(rec, ps@)) ==> {
                let u = first_unknown_idx(rec, ps@);
                &&& 0 <= u < ps@.len()
                &&& e.kind matches ParseErrorKind::UnknownField(n) && n@ == ps@[u].name@
                    && !declares(rec, n@)
                &&& e.pos == ps@[u].name_pos
            }
            &&& (names_known(rec, ps@) && pairs_typed_ok(set, rec, ps@) && groups_unique(rec, ps@)
                && !singles_unique(rec, ps@)) ==> (e.kind matches ParseErrorKind::DuplicateField(n)
                && declares(rec, n@) && cnt(ps@, n@) >= 2 && exists|pi: int|
                0 <= pi < ps@.len() && (#[trigger] ps@[pi]).name@ == n@ && e.pos
                    == ps@[pi].name_pos)
            &&& (names_known(rec, ps@) && pairs_typed_ok(set, rec, ps@) && singles_unique(rec, ps@)
                && !groups_unique(rec, ps@)) ==> (e.kind matches ParseErrorKind::GroupConflict(
                ms,
                a,
                b,
            ) && exists|si: int, m1: int, m2: int|
                #![trigger slot_fields(rec.slots@[si])[m1], slot_fields(rec.slots@[si])[m2]]
                {
                    &&& 0 <= si < rec.slots@.len()
                    &&& rec.slots@[si] matches FieldSlot::Group(fs)
                    &&& 0 <= m1 < fs@.len() && 0 <= m2 < fs@.len()
                    &&& fs@[m1].name@ == a@ && fs@[m2].name@ == b@
                    &&& cnt(ps@, a@) >= 1 && cnt(ps@, b@) >= 1
                    &&& m1 != m2 || cnt(ps@, b@) >= 2
                    &&& ms@.len() == fs@.len() && (forall|k: int|
                        0 <= k < fs@.len() ==> (#[trigger] ms@[k])@ == fs@[k].name@)
                    &&& exists|pa: int, pb: int|
                        0 <= pa < pb < ps@.len() && (#[trigger] ps@[pa]).name@ == a@ && (
                        #[trigger] ps@[pb]).name@ == b@ && e.pos == ps@[pb].name_pos
                })
            &&& (names_known(rec, ps@) && pairs_acceptable(set, rec, ps@) && all_groups_chosen(
                rec,
                ps@,
            ) && !all_required(rec, ps@)) ==> {
                let si = first_missing_single(rec, rec.slots@, ps@);
                &&& 0 <= si < rec.slots@.len()
                &&& e.kind matches ParseErrorKind::MissingField(n) && (rec.slots@[si] matches
                    FieldSlot::Single(f) && n@ == f.name@ && spec_is_required(f) && cnt(ps@, n@)
                    == 0)
                &&& e.pos == l.pos
            }
            &&& (names_known(rec, ps@) && pairs_acceptable(set, rec, ps@) && all_required(rec, ps@)
                && !all_groups_chosen(rec, ps@)) ==> {
                let si = first_unchosen_group(rec, rec.slots@, ps@);
                &&& 0 <= si < rec.slots@.len()
                &&& e.kind matches ParseErrorKind::MissingGroupChoice(ms) && (rec.slots@[si]
                    matches FieldSlot::Group(fs) && group_cnt(fs@, ps@) == 0 && ms@.len()
                    == fs@.len() && (forall|k: int|
                    0 <= k < fs@.len() ==> (#[trigger] ms@[k])@ == fs@[k].name@))
                &&& e.pos == l.pos
            }
        },
        _ => true,
    }
}

/// Exactly which error a failed value parse reports: a declared-variant
/// miss lists the variants in order; any shape mismatch is malformed at
/// the value's own position; a reference surfaces the nested record
/// parse's own error, pinned the same way.
pub open spec fn value_err_pinned(set: SchemaSet, ty: FieldType, l: Lit, e: ParseError) -> bool {
    match ty {
        FieldType::Text(_) => e.kind is MalformedLiteral && e.pos == l.pos,
        FieldType::ByteSeq(_) => e.kind is MalformedLiteral && e.pos == l.pos,
        FieldType::Enumeration(vars, _) => match l.kind {
            LitKind::LIdent(v) => e.kind matches ParseErrorKind::InvalidVariant(got, allowed)
                && got@ == v@ && e.pos == l.pos && allowed@.len() == vars@.len() && (forall|k: int|
                0 <= k < vars@.len() ==> (#[trigger] allowed@[k])@ == vars@[k]@),
            _ => e.kind is MalformedLiteral && e.pos == l.pos,
        },
        FieldType::Reference(t) => parse_err_pinned(set, t@, l, e),
        FieldType::TextMap => e.kind is MalformedLiteral,
    }
}

/// The mapping a map literal denotes: pairs inserted left to right, so a
/// repeated key keeps the later value.
pub open spec fn map_of_pairs(ps: Seq<LitPair>) -> Map<Seq<char>, Seq<char>>
    decreases ps.len(),
{
    if ps.len() == 0 {
        Map::empty()
    } else {
        map_of_pairs(ps.drop_last()).insert(ps.last().name@, text_of(ps.last().value))
    }
}

/// The text content of a text literal (empty for any other shape).
pub open spec fn text_of(l: Lit) -> Seq<char> {
    match l.kind {
        LitKind::LText(s) => s@,
        _ => Seq::empty(),
    }
}

/// The value view an omitted defaulted field resolves to.
pub open spec fn default_v(ty: FieldType) -> ValV {
    match ty {
        FieldType::Text(d) => ValV::TextV(match d {
            Some(s) => s@,
            None => Seq::empty(),
        }),
        FieldType::ByteSeq(d) => ValV::BytesV(match d {
            Some(b) => b@,
            None => Seq::empty(),
        }),
        FieldType::Enumeration(_, d) => ValV::VariantV(match d {
            Some(s) => s@,
            None => Seq::empty(),
        }),
        FieldType::Reference(_) => ValV::TextV(Seq::empty()),
        FieldType::TextMap => ValV::MapV(Map::empty()),
    }
}

/// The value view a good literal denotes for a field of type `ty`.
pub open spec fn conv_value(set: SchemaSet, ty: FieldType, l: Lit) -> ValV
    decreases l, 3int, 0int,
{
    match ty {
        FieldType::Text(_) => ValV::TextV(text_of(l)),
        FieldType::ByteSeq(_) => ValV::BytesV(match l.kind {
            LitKind::LBytes(b) => b@,
            _ => Seq::empty(),
        }),
        FieldType::Enumeration(_, _) => ValV::VariantV(match l.kind {
            LitKind::LIdent(v) => v@,
            _ => Seq::empty(),
        }),
        FieldType::Reference(t) => ValV::RecordV(Box::new(conv_record(set, t@, l))),
        FieldType::TextMap => ValV::MapV(match l.kind {
            LitKind::LRec(ps) => map_of_pairs(ps@),
            _ => Map::empty(),
        }),
    }
}

/// The slot view one slot resolves to under the pairs of `l`: the
/// supplied value, the default or absence when omitted, or the group's
/// unique supplied member as a tagged choice.
pub open spec fn conv_slot(set: SchemaSet, s: FieldSlot, l: Lit) -> SlotV
    decreases l, 0int, 0int,
    via conv_slot_dec
{
    let pairs = match l.kind {
        LitKind::LRec(ps) => ps@,
        _ => Seq::empty(),
    };
    match s {
        FieldSlot::Single(f) => {
            if cnt(pairs, f.name@) >= 1 {
                SlotV::PresentV(conv_value(set, f.ty, pair_value(pairs, f.name@)))
            } else if spec_has_default(f) {
                SlotV::PresentV(default_v(f.ty))
            } else {
                SlotV::AbsentV
            }
        },
        FieldSlot::Group(fs) => {
            let gm = first_supplied(fs@, pairs);
            if 0 <= gm < fs@.len() {
                SlotV::ChosenV(
                    fs@[gm].name@,
                    conv_value(set, fs@[gm].ty, pair_value(pairs, fs@[gm].name@)),
                )
            } else {
                SlotV::AbsentV
            }
        },
    }
}

#[via_fn]
proof fn conv_slot_dec(set: SchemaSet, s: FieldSlot, l: Lit) {
    match l.kind {
        LitKind::LRec(ps) => {
            assert(decreases_to!(l => l.kind));
            assert(decreases_to!(l.kind => l.kind->LRec_0));
            assert(decreases_to!(ps => ps@));
            match s {
                FieldSlot::Single(f) => {
                    lemma_first_pair_idx(ps@, f.name@);
                    let idx = first_pair_idx(ps@, f.name@);
                    if 0 <= idx < ps@.len() {
                        assert(decreases_to!(ps@ => ps@[idx]));
                        assert(decreases_to!(ps@[idx] => ps@[idx].value));
                    }
                },
                FieldSlot::Group(fs) => {
                    lemma_first_supplied_idx(fs@, ps@);
                    let gm = first_supplied(fs@, ps@);
                    if 0 <= gm < fs@.len() {
                        lemma_first_pair_idx(ps@, fs@[gm].name@);
                        let idx = first_pair_idx(ps@, fs@[gm].name@);
                        if 0 <= idx < ps@.len() {
                            assert(decreases_to!(ps@ => ps@[idx]));
                            assert(decreases_to!(ps@[idx] => ps@[idx].value));
                        }
                    }
                },
            }
        },
        _ => {
            match s {
                FieldSlot::Group(fs) => {
                    lemma_first_supplied_idx(fs@, Seq::empty());
                    let gm = first_supplied(fs@, Seq::<LitPair>::empty());
                    if 0 <= gm < fs@.len() {
                        assert(cnt(Seq::<LitPair>::empty(), fs@[gm].name@) == 0);
                        assert(false);
                    }
                },
                _ => {},
            }
        },
    }
}

/// The slot views of a slot list, elementwise.
pub open spec fn conv_slots(set: SchemaSet, slots: Seq<FieldSlot>, l: Lit) -> Seq<SlotV>
    decreases l, 1int, slots.len(),
{
    if slots.len() == 0 {
        Seq::empty()
    } else {
        conv_slots(set, slots.drop_last(), l).push(conv_slot(set, slots.last(), l))
    }
}

/// The instance view a good literal denotes for record `rn` of the set.
pub open spec fn conv_record(set: SchemaSet, rn: Seq<char>, l: Lit) -> InstV
    decreases l, 2int, 0int,
{
    InstV { name: rn, slots: conv_slots(set, record_of(set, rn).slots@, l) }
}

/// `conv_slots` is the elementwise image of `conv_slot`.
pub proof fn lemma_conv_slots(set: SchemaSet, slots: Seq<FieldSlot>, l: Lit)
    ensures
        conv_slots(set, slots, l).len() == slots.len(),
        forall|k: int|
            0 <= k < slots.len() ==> conv_slots(set, slots, l)[k] == conv_slot(
                set,
                #[trigger] slots[k],
                l,
            ),
    decreases slots.len(),
{
    if slots.len() > 0 {
        lemma_conv_slots(set, slots.drop_last(), l);
        assert forall|k: int| 0 <= k < slots.len() implies conv_slots(set, slots, l)[k]
            == conv_slot(set, #[trigger] slots[k], l) by {
            if k < slots.len() - 1 {
                assert(slots.drop_last()[k] == slots[k]);
                assert(conv_slots(set, slots, l)[k] == conv_slots(set, slots.drop_last(), l)[k]);
            }
        }
    }
}

/// Appending one pair raises the count of its own name by one and leaves
/// every other count alone.
pub proof fn lemma_cnt_push(pairs: Seq<LitPair>, p: LitPair, n: Seq<char>)
    ensures
        cnt(pairs.push(p), n) == cnt(pairs, n) + if p.name@ == n {
            1nat
        } else {
            0nat
        },
{
    assert(pairs.push(p).drop_last() =~= pairs);
}

/// A name counts zero exactly when no pair bears it.
pub proof fn lemma_cnt_zero(pairs: Seq<LitPair>, n: Seq<char>)
    ensures
        (cnt(pairs, n) == 0) <==> (forall|k: int| 0 <= k < pairs.len() ==> (#[trigger] pairs[k]).name@ != n),
    decreases pairs.len(),
{
    if pairs.len() > 0 {
        lemma_cnt_zero(pairs.drop_last(), n);
        assert forall|k: int| 0 <= k < pairs.len() - 1 implies pairs.drop_last()[k] == pairs[k] by {}
        if cnt(pairs, n) == 0 {
            assert forall|k: int| 0 <= k < pairs.len() implies (#[trigger] pairs[k]).name@ != n by {
                if k < pairs.len() - 1 {
                    assert(pairs.drop_last()[k] == pairs[k]);
                }
            }
        }
    }
}

/// Where the first pair named `n` sits: in range and bearing `n` when
/// one exists, which is exactly when the count is positive.
pub proof fn lemma_first_pair_idx(pairs: Seq<LitPair>, n: Seq<char>)
    ensures
        first_pair_idx(pairs, n) >= 0 ==> first_pair_idx(pairs, n) < pairs.len()
            && pairs[first_pair_idx(pairs, n)].name@ == n,
        first_pair_idx(pairs, n) < 0 ==> forall|k: int|
            0 <= k < pairs.len() ==> (#[trigger] pairs[k]).name@ != n,
        (first_pair_idx(pairs, n) >= 0) <==> (cnt(pairs, n) >= 1),
    decreases pairs.len(),
{
    if pairs.len() > 0 && pairs[0].name@ != n {
        lemma_first_pair_idx(pairs.drop_first(), n);
        assert forall|k: int| 1 <= k < pairs.len() implies #[trigger] pairs[k].name@
            == pairs.drop_first()[k - 1].name@ by {
            assert(pairs.drop_first()[k - 1] == pairs[k]);
        }
    }
    lemma_cnt_zero(pairs, n);
    if first_pair_idx(pairs, n) >= 0 {
        assert(pairs[first_pair_idx(pairs, n)].name@ == n);
        assert(cnt(pairs, n) != 0);
    }
}

/// Where the first supplied member of a group sits: in range and
/// supplied when any member is supplied.
pub proof fn lemma_first_supplied_idx(fs: Seq<Field>, pairs: Seq<LitPair>)
    ensures
        first_supplied(fs, pairs) >= 0 ==> first_supplied(fs, pairs) < fs.len() && cnt(
            pairs,
            fs[first_supplied(fs, pairs)].name@,
        ) >= 1,
        first_supplied(fs, pairs) < 0 ==> forall|m: int|
            0 <= m < fs.len() ==> cnt(pairs, (#[trigger] fs[m]).name@) == 0,
    decreases fs.len(),
{
    if fs.len() > 0 && cnt(pairs, fs[0].name@) == 0 {
        lemma_first_supplied_idx(fs.drop_first(), pairs);
        assert forall|m: int| 1 <= m < fs.len() implies cnt(pairs, (#[trigger] fs[m]).name@)
            == cnt(pairs, fs.drop_first()[m - 1].name@) by {
            assert(fs.drop_first()[m - 1] == fs[m]);
        }
    }
}

/// A group's total supply count is zero when every member's count is.
pub proof fn lemma_group_cnt_zero(fs: Seq<Field>, pairs: Seq<LitPair>)
    requires
        forall|m: int| 0 <= m < fs.len() ==> cnt(pairs, (#[trigger] fs[m]).name@) == 0,
    ensures
        group_cnt(fs, pairs) == 0,
    decreases fs.len(),
{
    if fs.len() > 0 {
        assert forall|m: int| 0 <= m < fs.len() - 1 implies cnt(
            pairs,
            (#[trigger] fs.drop_last()[m]).name@,
        ) == 0 by {
            assert(fs.drop_last()[m] == fs[m]);
        }
        lemma_group_cnt_zero(fs.drop_last(), pairs);
        assert(fs.last() == fs[fs.len() - 1]);
    }
}

/// A group's total supply count is at least any one member's count.
pub proof fn lemma_group_cnt_member(fs: Seq<Field>, pairs: Seq<LitPair>, m: int)
    requires
        0 <= m < fs.len(),
    ensures
        group_cnt(fs, pairs) >= cnt(pairs, fs[m].name@),
    decreases fs.len(),
{
    if m == fs.len() - 1 {
        assert(fs.last() == fs[m]);
    } else {
        assert(fs.drop_last()[m] == fs[m]);
        lemma_group_cnt_member(fs.drop_last(), pairs, m);
    }
}

/// Two supplied members make a group's total supply count at least two.
pub proof fn lemma_group_cnt_two(fs: Seq<Field>, pairs: Seq<LitPair>, m1: int, m2: int)
    requires
        0 <= m1 < m2 < fs.len(),
        cnt(pairs, fs[m1].name@) >= 1,
        cnt(pairs, fs[m2].name@) >= 1,
    ensures
        group_cnt(fs, pairs) >= 2,
    decreases fs.len(),
{
    if m2 == fs.len() - 1 {
        assert(fs.last() == fs[m2]);
        lemma_group_cnt_member(fs.drop_last(), pairs, m1);
        assert(fs.drop_last()[m1] == fs[m1]);
    } else {
        assert(fs.drop_last()[m1] == fs[m1]);
        assert(fs.drop_last()[m2] == fs[m2]);
        lemma_group_cnt_two(fs.drop_last(), pairs, m1, m2);
    }
}

/// A group whose one supplied member is supplied once in all has a total
/// supply count of exactly one.
pub proof fn lemma_group_cnt_upper(fs: Seq<Field>, pairs: Seq<LitPair>, m: int)
    requires
        0 <= m < fs.len(),
        cnt(pairs, fs[m].name@) == 1,
        forall|m2: int| 0 <= m2 < fs.len() && m2 != m ==> cnt(pairs, (#[trigger] fs[m2]).name@)
            == 0,
    ensures
        group_cnt(fs, pairs) == 1,
    decreases fs.len(),
{
    if m == fs.len() - 1 {
        assert(fs.last() == fs[m]);
        assert forall|m2: int| 0 <= m2 < fs.len() - 1 implies cnt(
            pairs,
            (#[trigger] fs.drop_last()[m2]).name@,
        ) == 0 by {
            assert(fs.drop_last()[m2] == fs[m2]);
        }
        lemma_group_cnt_zero(fs.drop_last(), pairs);
    } else {
        assert(fs.last() == fs[fs.len() - 1]);
        assert(cnt(pairs, fs.last().name@) == 0);
        assert(fs.drop_last()[m] == fs[m]);
        assert forall|m2: int| 0 <= m2 < fs.len() - 1 && m2 != m implies cnt(
            pairs,
            (#[trigger] fs.drop_last()[m2]).name@,
        ) == 0 by {
            assert(fs.drop_last()[m2] == fs[m2]);
        }
        lemma_group_cnt_upper(fs.drop_last(), pairs, m);
    }
}

/// If pair `k` bears `n` and no earlier pair does, the first pair named
/// `n` is pair `k`.
pub proof fn lemma_first_pair_at(pairs: Seq<LitPair>, n: Seq<char>, k: int)
    requires
        0 <= k < pairs.len(),
        pairs[k].name@ == n,
        forall|j: int| 0 <= j < k ==> (#[trigger] pairs[j]).name@ != n,
    ensures
        first_pair_idx(pairs, n) == k,
    decreases pairs.len(),
{
    if k > 0 {
        assert(pairs.drop_first()[k - 1] == pairs[k]);
        assert forall|j: int| 0 <= j < k - 1 implies (#[trigger] pairs.drop_first()[j]).name@
            != n by {
            assert(pairs.drop_first()[j] == pairs[j + 1]);
        }
        lemma_first_pair_at(pairs.drop_first(), n, k - 1);
    }
}

/// If member `m` of a group is supplied and no earlier member is, the
/// first supplied member is member `m`.
pub proof fn lemma_first_supplied_at(fs: Seq<Field>, pairs: Seq<LitPair>, m: int)
    requires
        0 <= m < fs.len(),
        cnt(pairs, fs[m].name@) >= 1,
        forall|j: int| 0 <= j < m ==> cnt(pairs, (#[trigger] fs[j]).name@) == 0,
    ensures
        first_supplied(fs, pairs) == m,
    decreases fs.len(),
{
    if m > 0 {
        assert(fs.drop_first()[m - 1] == fs[m]);
        assert forall|j: int| 0 <= j < m - 1 implies cnt(
            pairs,
            (#[trigger] fs.drop_first()[j]).name@,
        ) == 0 by {
            assert(fs.drop_first()[j] == fs[j + 1]);
        }
        lemma_first_supplied_at(fs.drop_first(), pairs, m - 1);
    }
}

/// Appending one map pair makes the denoted mapping gain that pair.
pub proof fn lemma_map_of_pairs_push(ps: Seq<LitPair>, p: LitPair)
    ensures
        map_of_pairs(ps.push(p)) == map_of_pairs(ps).insert(p.name@, text_of(p.value)),
{
    assert(ps.push(p).drop_last() =~= ps);
}

/// Appending one entry makes the denoted mapping gain that entry.
pub proof fn lemma_map_of_entries_push(es: Seq<(String, String)>, q: (String, String))
    ensures
        map_of_entries(es.push(q)) == map_of_entries(es).insert(q.0@, q.1@),
{
    assert(es.push(q).drop_last() =~= es);
}

/// A key absent from every entry is absent from the denoted mapping.
pub proof fn lemma_map_of_entries_no_key(es: Seq<(String, String)>, k: Seq<char>)
    requires
        forall|j: int| 0 <= j < es.len() ==> (#[trigger] es[j]).0@ != k,
    ensures
        !map_of_entries(es).contains_key(k),
    decreases es.len(),
{
    if es.len() > 0 {
        assert forall|j: int| 0 <= j < es.len() - 1 implies (#[trigger] es.drop_last()[j]).0@
            != k by {
            assert(es.drop_last()[j] == es[j]);
        }
        lemma_map_of_entries_no_key(es.drop_last(), k);
    }
}

/// A name's count splits over any cut of the pair list.
pub proof fn lemma_cnt_split(pairs: Seq<LitPair>, n: Seq<char>, i: int)
    requires
        0 <= i <= pairs.len(),
    ensures
        cnt(pairs, n) == cnt(pairs.take(i), n) + cnt(pairs.skip(i), n),
    decreases pairs.len(),
{
    if i == pairs.len() {
        assert(pairs.take(i) =~= pairs);
        assert(pairs.skip(i) =~= Seq::empty());
    } else {
        let d = pairs.drop_last();
        lemma_cnt_split(d, n, i);
        assert(pairs.take(i) =~= d.take(i));
        assert(pairs.skip(i) =~= d.skip(i).push(pairs.last()));
        lemma_cnt_push(d.skip(i), pairs.last(), n);
    }
}

/// One step of scanning: the counts over a prefix grow by the pair just
/// passed.
pub proof fn lemma_cnt_take_succ(pairs: Seq<LitPair>, n: Seq<char>, i: int)
    requires
        0 <= i < pairs.len(),
    ensures
        cnt(pairs.take(i + 1), n) == cnt(pairs.take(i), n) + if pairs[i].name@ == n {
            1nat
        } else {
            0nat
        },
{
    assert(pairs.take(i + 1) =~= pairs.take(i).push(pairs[i]));
    lemma_cnt_push(pairs.take(i), pairs[i], n);
}

/// Removing the only entry bearing a key and appending a fresh entry for
/// it denotes the same mapping as inserting over the original entries.
pub proof fn lemma_map_of_entries_replace(es: Seq<(String, String)>, j: int, q: (String, String))
    requires
        0 <= j < es.len(),
        es[j].0@ == q.0@,
        forall|a: int, b: int| 0 <= a < b < es.len() ==> (#[trigger] es[a]).0@ != (#[trigger] es[b]).0@,
    ensures
        map_of_entries(es.remove(j).push(q)) == map_of_entries(es).insert(q.0@, q.1@),
    decreases es.len(),
{
    lemma_map_of_entries_push(es.remove(j), q);
    if j == es.len() - 1 {
        assert(es.remove(j) =~= es.drop_last());
        assert forall|i: int| 0 <= i < es.drop_last().len() implies (#[trigger] es.drop_last()[
            i]).0@ != q.0@ by {
            assert(es.drop_last()[i] == es[i]);
        }
        lemma_map_of_entries_no_key(es.drop_last(), q.0@);
        assert(map_of_entries(es.drop_last()).insert(q.0@, q.1@) =~= map_of_entries(es).insert(
            q.0@,
            q.1@,
        ));
    } else {
        let d = es.drop_last();
        let lk = es.last().0@;
        let lv = es.last().1@;
        assert forall|a: int, b: int| 0 <= a < b < d.len() implies (#[trigger] d[a]).0@
            != (#[trigger] d[b]).0@ by {
            assert(d[a] == es[a] && d[b] == es[b]);
        }
        assert(d[j] == es[j]);
        lemma_map_of_entries_replace(d, j, q);
        lemma_map_of_entries_push(d.remove(j), q);
        // the entry list with `j` removed is the shorter list with `j`
        // removed, then the last entry back on
        assert(es.remove(j) =~= d.remove(j).push(es.last()));
        lemma_map_of_entries_push(d.remove(j), es.last());
        assert(map_of_entries(es.remove(j)) == map_of_entries(d.remove(j)).insert(lk, lv));
        // the last entry's key differs from the replaced key
        assert(es.last() == es[es.len() - 1] && es[j].0@ != lk);
        // inserts of distinct keys commute
        assert(map_of_entries(d.remove(j)).insert(lk, lv).insert(q.0@, q.1@)
            =~= map_of_entries(d.remove(j)).insert(q.0@, q.1@).insert(lk, lv));
        assert(map_of_entries(d.remove(j)).insert(q.0@, q.1@) == map_of_entries(d).insert(
            q.0@,
            q.1@,
        ));
        assert(map_of_entries(es) == map_of_entries(d).insert(lk, lv));
        assert(map_of_entries(d).insert(q.0@, q.1@).insert(lk, lv) =~= map_of_entries(es).insert(
            q.0@,
            q.1@,
        ));
    }
}

/// Whether the field carries a default literal.
pub fn has_default(f: &Field) -> (r: bool)
    ensures
        r == spec_has_default(*f),
{
    match &f.ty {
        FieldType::Text(d) => d.is_some(),
        FieldType::ByteSeq(d) => d.is_some(),
        FieldType::Reference(_) => false,
        FieldType::Enumeration(_, d) => d.is_some(),
        FieldType::TextMap => false,
    }
}

/// The value an omitted defaulted field resolves to.
pub fn default_value(set: &SchemaSet, f: &Field) -> (r: Value)
    requires
        spec_has_default(*f),
        field_ok(*set, *f),
    ensures
        val_v(r) == default_v(f.ty),
        value_wf(*set, f.ty, r),
{
    match &f.ty {
        FieldType::Text(Some(s)) => Value::Text(s.clone()),
        FieldType::ByteSeq(Some(b)) => Value::Bytes(b.clone()),
        FieldType::Enumeration(_, Some(s)) => Value::Variant(s.clone()),
        _ => {
            proof {
                assert(false);
            }
            Value::Text(String::new())
        },
    }
}

/// Clones a list of strings, keeping each one's content.
pub fn clone_strings(vs: &Vec<String>) -> (r: Vec<String>)
    ensures
        r@.len() == vs@.len(),
        forall|k: int| 0 <= k < vs@.len() ==> (#[trigger] r@[k])@ == vs@[k]@,
{
    let mut out: Vec<String> = Vec::new();
    let mut i: usize = 0;
    while i < vs.len()
        invariant
            i <= vs@.len(),
            out@.len() == i,
            forall|k: int| 0 <= k < i ==> (#[trigger] out@[k])@ == vs@[k]@,
        decreases vs@.len() - i,
    {
        out.push(vs[i].clone());
        i += 1;
    }
    out
}

/// The member names of an exclusive group, in order.
pub fn member_names(fs: &Vec<Field>) -> (r: Vec<String>)
    ensures
        r@.len() == fs@.len(),
        forall|k: int| 0 <= k < fs@.len() ==> (#[trigger] r@[k])@ == fs@[k].name@,
{
    let mut out: Vec<String> = Vec::new();
    let mut i: usize = 0;
    while i < fs.len()
        invariant
            i <= fs@.len(),
            out@.len() == i,
            forall|k: int| 0 <= k < i ==> (#[trigger] out@[k])@ == fs@[k].name@,
        decreases fs@.len() - i,
    {
        out.push(fs[i].name.clone());
        i += 1;
    }
    out
}

/// First entry whose key reads `n`.
fn find_key(es: &Vec<(String, String)>, n: &String) -> (r: Option<usize>)
    ensures
        match r {
            Some(j) => j < es@.len() && es@[j as int].0@ == n@,
            None => forall|k: int| 0 <= k < es@.len() ==> (#[trigger] es@[k]).0@ != n@,
        },
{
    let mut i: usize = 0;
    while i < es.len()
        invariant
            i <= es@.len(),
            forall|k: int| 0 <= k < i ==> (#[trigger] es@[k]).0@ != n@,
        decreases es@.len() - i,
    {
        if es[i].0 == *n {
            return Some(i);
        }
        i += 1;
    }
    None
}

/// What the presence state says of slot `si` after the first `i` pairs
/// of the literal were scanned.
pub open spec fn slot_inv(
    set: SchemaSet,
    rec: RecordSchema,
    pairs: Seq<LitPair>,
    i: int,
    acc: Seq<SlotValue>,
    si: int,
) -> bool {
    match rec.slots@[si] {
        FieldSlot::Single(f) => match acc[si] {
            SlotValue::Absent => cnt(pairs.take(i), f.name@) == 0,
            SlotValue::Present(v) => cnt(pairs.take(i), f.name@) == 1 && cnt(pairs, f.name@) >= 1
                && val_v(v) == conv_value(set, f.ty, pair_value(pairs, f.name@)) && value_wf(
                set,
                f.ty,
                v,
            ),
            SlotValue::Chosen(_, _) => false,
        },
        FieldSlot::Group(fs) => match acc[si] {
            SlotValue::Absent => forall|m: int|
                0 <= m < fs@.len() ==> cnt(pairs.take(i), (#[trigger] fs@[m]).name@) == 0,
            SlotValue::Chosen(nm, v) => exists|m: int|
                #![trigger fs@[m]]
                {
                    &&& 0 <= m < fs@.len()
                    &&& cnt(pairs.take(i), fs@[m].name@) == 1
                    &&& cnt(pairs, fs@[m].name@) >= 1
                    &&& forall|m2: int|
                        0 <= m2 < fs@.len() && m2 != m ==> cnt(
                            pairs.take(i),
                            (#[trigger] fs@[m2]).name@,
                        ) == 0
                    &&& nm@ == fs@[m].name@
                    &&& val_v(v) == conv_value(set, fs@[m].ty, pair_value(pairs, fs@[m].name@))
                    &&& value_wf(set, fs@[m].ty, v)
                },
            SlotValue::Present(_) => false,
        },
    }
}

/// After the whole literal is scanned without error, the presence state
/// shows that no standalone field repeated and no group was supplied
/// more than once.
pub proof fn lemma_scan_unique(
    set: SchemaSet,
    rec: RecordSchema,
    pv: Seq<LitPair>,
    acc: Seq<SlotValue>,
)
    requires
        acc.len() == rec.slots@.len(),
        forall|s: int|
            0 <= s < rec.slots@.len() ==> #[trigger] slot_inv(set, rec, pv, pv.len() as int, acc, s),
    ensures
        singles_unique(rec, pv),
        groups_unique(rec, pv),
{
    assert(pv.take(pv.len() as int) =~= pv);
    assert forall|si: int| 0 <= si < rec.slots@.len() implies match #[trigger] rec.slots@[si] {
        FieldSlot::Single(f) => cnt(pv, f.name@) <= 1,
        FieldSlot::Group(_) => true,
    } by {
        assert(slot_inv(set, rec, pv, pv.len() as int, acc, si));
    }
    assert forall|si: int| 0 <= si < rec.slots@.len() implies match #[trigger] rec.slots@[si] {
        FieldSlot::Single(_) => true,
        FieldSlot::Group(fs) => group_cnt(fs@, pv) <= 1,
    } by {
        assert(slot_inv(set, rec, pv, pv.len() as int, acc, si));
        match rec.slots@[si] {
            FieldSlot::Single(_) => {},
            FieldSlot::Group(fs) => {
                match acc[si] {
                    SlotValue::Absent => {
                        lemma_group_cnt_zero(fs@, pv);
                    },
                    SlotValue::Chosen(nm, v) => {
                        let m = choose|m: int|
                            #![trigger fs@[m]]
                            {
                                &&& 0 <= m < fs@.len()
                                &&& cnt(pv.take(pv.len() as int), fs@[m].name@) == 1
                                &&& cnt(pv, fs@[m].name@) >= 1
                                &&& forall|m2: int|
                                    0 <= m2 < fs@.len() && m2 != m ==> cnt(
                                        pv.take(pv.len() as int),
                                        (#[trigger] fs@[m2]).name@,
                                    ) == 0
                                &&& nm@ == fs@[m].name@
                                &&& val_v(v) == conv_value(set, fs@[m].ty, pair_value(pv, fs@[m].name@))
                                &&& value_wf(set, fs@[m].ty, v)
                            };
                        lemma_group_cnt_upper(fs@, pv, m);
                    },
                    SlotValue::Present(_) => {},
                }
            },
        }
    }
}

/// Replaces one slot of the presence state.
fn set_slot(acc: &mut Vec<SlotValue>, i: usize, v: SlotValue)
    requires
        i < old(acc)@.len(),
    ensures
        final(acc)@ == old(acc)@.update(i as int, v),
{
    acc.remove(i);
    acc.insert(i, v);
    assert(acc@ =~= old(acc)@.update(i as int, v));
}

/// Parses one supplied value against its field's type: text, bytes, a
/// declared variant, a nested record (through the referenced record's
/// own parsing), or a text-to-text map with later keys overwriting
/// earlier ones. Succeeds exactly when the value has the type's shape,
/// and then returns exactly the value the literal denotes.
pub fn resolve_value(set: &SchemaSet, ty: &FieldType, l: &Lit) -> (r: Result<Value, ParseError>)
    requires
        schemas_ok(*set),
        *ty matches FieldType::Reference(t) ==> has_record(*set, t@),
    ensures
        r is Ok <==> value_good(*set, *ty, *l),
        r matches Ok(v) ==> val_v(v) == conv_value(*set, *ty, *l) && value_wf(*set, *ty, v),
        r matches Err(e) ==> value_err_pinned(*set, *ty, *l, e),
    decreases *l, 1int,
{
    match ty {
        FieldType::Text(_) => match &l.kind {
            LitKind::LText(s) => Ok(Value::Text(s.clone())),
            _ => Err(ParseError { pos: l.pos, kind: ParseErrorKind::MalformedLiteral }),
        },
        FieldType::ByteSeq(_) => match &l.kind {
            LitKind::LBytes(b) => Ok(Value::Bytes(b.clone())),
            _ => Err(ParseError { pos: l.pos, kind: ParseErrorKind::MalformedLiteral }),
        },
        FieldType::Enumeration(vars, _) => match &l.kind {
            LitKind::LIdent(v) => {
                if contains_name(vars, v) {
                    Ok(Value::Variant(v.clone()))
                } else {
                    Err(
                        ParseError {
                            pos: l.pos,
                            kind: ParseErrorKind::InvalidVariant(v.clone(), clone_strings(vars)),
                        },
                    )
                }
            },
            _ => Err(ParseError { pos: l.pos, kind: ParseErrorKind::MalformedLiteral }),
        },
        FieldType::Reference(t) => match resolve_record(set, t, l) {
            Ok(inst) => Ok(Value::Record(Box::new(inst))),
            Err(e) => Err(e),
        },
        FieldType::TextMap => match &l.kind {
            LitKind::LRec(ps) => {
                let mut out: Vec<(String, String)> = Vec::new();
                let mut k: usize = 0;
                while k < ps.len()
                    invariant
                        *ty is TextMap,
                        l.kind == LitKind::LRec(*ps),
                        k <= ps@.len(),
                        forall|j: int| 0 <= j < k ==> (#[trigger] ps@[j].value.kind) is LText,
                        map_of_entries(out@) == map_of_pairs(ps@.take(k as int)),
                        forall|a: int, b: int|
                            0 <= a < b < out@.len() ==> (#[trigger] out@[a]).0@ != (
                            #[trigger] out@[b]).0@,
                    decreases ps@.len() - k,
                {
                    let p = &ps[k];
                    let txt: String = match &p.value.kind {
                        LitKind::LText(s) => s.clone(),
                        _ => {
                            assert(l.kind->LRec_0 == *ps);
                            assert(!(ps@[k as int].value.kind is LText));
                            assert(!value_good(*set, *ty, *l));
                            return Err(
                                ParseError {
                                    pos: p.value.pos,
                                    kind: ParseErrorKind::MalformedLiteral,
                                },
                            );
                        },
                    };
                    proof {
                        assert(ps@.take(k + 1) =~= ps@.take(k as int).push(ps@[k as int]));
                        lemma_map_of_pairs_push(ps@.take(k as int), ps@[k as int]);
                    }
                    match find_key(&out, &p.name) {
                        Some(j) => {
                            let ghost old_out = out@;
                            proof {
                                lemma_map_of_entries_replace(
                                    old_out,
                                    j as int,
                                    (p.name, txt),
                                );
                            }
                            out.remove(j);
                            out.push((p.name.clone(), txt));
                            proof {
                                assert(out@ =~= old_out.remove(j as int).push(
                                    (p.name, txt),
                                ));
                            }
                        },
                        None => {
                            let ghost old_out = out@;
                            proof {
                                lemma_map_of_entries_push(old_out, (p.name, txt));
                            }
                            out.push((p.name.clone(), txt));
                            proof {
                                assert(out@ =~= old_out.push((p.name, txt)));
                            }
                        },
                    }
                    k += 1;
                }
                proof {
                    assert(ps@.take(ps@.len() as int) =~= ps@);
                }
                Ok(Value::TextMap(out))
            },
            _ => Err(ParseError { pos: l.pos, kind: ParseErrorKind::MalformedLiteral }),
        },
    }
}

/// Parses a record literal against record `rn` of the set, following the
/// presence-tracking protocol: each pair must name a declared field; a
/// standalone field supplied twice is a duplicate; a second supply into
/// an exclusive group is a conflict; at the end a required field left
/// out is missing and a group left without a choice is missing; omitted
/// optional fields resolve to absence and omitted defaulted fields to
/// their declared default. Succeeds exactly on good literals, and then
/// returns exactly the instance the literal denotes.
#[verifier::rlimit(100)]
pub fn resolve_record(set: &SchemaSet, rn: &String, l: &Lit) -> (r: Result<
    RecordInstance,
    ParseError,
>)
    requires
        schemas_ok(*set),
        has_record(*set, rn@),
    ensures
        r is Ok <==> literal_good(*set, rn@, *l),
        r matches Ok(inst) ==> inst_v(inst) == conv_record(*set, rn@, *l),
        r matches Ok(inst) ==> inst_wf(*set, rn@, inst),
        // a failed parse reports the protocol's error exactly: kind,
        // payload and position (see `parse_err_pinned`); that an error
        // comes at all on each class of fault follows from the first
        // clause, whose right side every fault falsifies
        r matches Err(e) ==> parse_err_pinned(*set, rn@, *l, e),
    decreases *l, 0int,
{
    let ri = match find_record(set, rn) {
        Some(i) => i,
        None => {
            proof {
                assert(false);
            }
            return Err(ParseError { pos: l.pos, kind: ParseErrorKind::MalformedLiteral });
        },
    };
    let rec = &set.records[ri];
    proof {
        assert(record_of(*set, rn@) == set.records@[ri as int]);
        assert(record_ok(*set, *rec));
    }
    let pairs = match &l.kind {
        LitKind::LRec(ps) => ps,
        _ => {
            return Err(ParseError { pos: l.pos, kind: ParseErrorKind::MalformedLiteral });
        },
    };
    // one presence slot per declared slot, all initially empty
    let mut acc: Vec<SlotValue> = Vec::new();
    let mut t: usize = 0;
    while t < rec.slots.len()
        invariant
            t <= rec.slots@.len(),
            acc@.len() == t,
            forall|k: int| 0 <= k < t ==> acc@[k] is Absent,
        decreases rec.slots@.len() - t,
    {
        acc.push(SlotValue::Absent);
        t += 1;
    }
    let ghost pv = pairs@;
    proof {
        assert(pv.take(0) =~= Seq::empty());
        assert forall|si: int| 0 <= si < rec.slots@.len() implies slot_inv(
            *set,
            *rec,
            pv,
            0,
            acc@,
            si,
        ) by {
            match rec.slots@[si] {
                FieldSlot::Single(f) => {},
                FieldSlot::Group(fs) => {},
            }
        }
    }
    let mut i: usize = 0;
    while i < pairs.len()
        invariant
            schemas_ok(*set),
            has_record(*set, rn@),
            *rec == record_of(*set, rn@),
            record_ok(*set, *rec),
            l.kind == LitKind::LRec(*pairs),
            pv == pairs@,
            i <= pv.len(),
            acc@.len() == rec.slots@.len(),
            forall|k: int|
                0 <= k < i ==> declares(*rec, (#[trigger] pv[k]).name@) && value_good(
                    *set,
                    field_of(*rec, pv[k].name@).ty,
                    pv[k].value,
                ),
            forall|si: int|
                0 <= si < rec.slots@.len() ==> #[trigger] slot_inv(
                    *set,
                    *rec,
                    pv,
                    i as int,
                    acc@,
                    si,
                ),
        decreases pv.len() - i,
    {
        let p = &pairs[i];
        let (si, mi) = match lookup_field(rec, &p.name) {
            Some(x) => x,
            None => {
                proof {
                    assert(!declares(*rec, pv[i as int].name@));
                    assert(!literal_good(*set, rn@, *l));
                    assert(!names_known(*rec, pv));
                    lemma_first_unknown_at(*rec, pv, i as int);
                }
                return Err(
                    ParseError {
                        pos: p.name_pos,
                        kind: ParseErrorKind::UnknownField(p.name.clone()),
                    },
                );
            },
        };
        assert(field_of(*rec, p.name@) == slot_fields(rec.slots@[si as int])[mi as int]);
        let f: &Field = match &rec.slots[si] {
            FieldSlot::Single(f0) => {
                assert(slot_fields(rec.slots@[si as int]) =~= seq![*f0]);
                f0
            },
            FieldSlot::Group(fs) => {
                assert(slot_fields(rec.slots@[si as int]) =~= fs@);
                &fs[mi]
            },
        };
        assert(*f == field_of(*rec, p.name@));
        proof {
            // this field's position is valid, so its own checks hold
            assert(slot_ok(*set, *rec, si as int));
            assert(position_ok(*set, *rec, si as int, mi as int));
        }
        proof {
            // the pair's value sits beneath the literal being parsed
            assert(pv[i as int] == *p);
            assert(decreases_to!(*l => l.kind));
            assert(decreases_to!(l.kind => l.kind->LRec_0));
            assert(l.kind->LRec_0 == *pairs);
            assert(decreases_to!(*pairs => pairs@));
            assert(decreases_to!(pv => pv[i as int]));
            assert(decreases_to!(pv[i as int] => pv[i as int].value));
        }
        let v = match resolve_value(set, &f.ty, &p.value) {
            Ok(v) => v,
            Err(e) => {
                assert(!value_good(*set, field_of(*rec, pv[i as int].name@).ty, pv[i as int].value));
                assert(!literal_good(*set, rn@, *l));
                assert(declares(*rec, pv[i as int].name@));
                assert(!pairs_typed_ok(*set, *rec, pv));
                return Err(e);
            },
        };
        let ghost acc_old = acc@;
        match &rec.slots[si] {
            FieldSlot::Single(_) => {
                assert(slot_inv(*set, *rec, pv, i as int, acc@, si as int));
                let already = match &acc[si] {
                    SlotValue::Absent => false,
                    _ => true,
                };
                if already {
                    proof {
                        lemma_cnt_take_succ(pv, f.name@, i as int);
                        lemma_cnt_split(pv, f.name@, i + 1);
                        lemma_cnt_zero(pv.skip(i + 1), f.name@);
                        assert(cnt(pv, f.name@) >= 2);
                        assert(!no_repeats(*rec, pv));
                        assert(!literal_good(*set, rn@, *l));
                        assert(!singles_unique(*rec, pv));
                    }
                    return Err(
                        ParseError {
                            pos: p.name_pos,
                            kind: ParseErrorKind::DuplicateField(p.name.clone()),
                        },
                    );
                }
                proof {
                    lemma_cnt_zero(pv, f.name@);
                    assert(cnt(pv, f.name@) >= 1) by {
                        if cnt(pv, f.name@) == 0 {
                            assert(pv[i as int].name@ != f.name@);
                        }
                    }
                    lemma_cnt_zero(pv.take(i as int), f.name@);
                    assert forall|j: int| 0 <= j < i implies (#[trigger] pv[j]).name@
                        != f.name@ by {
                        assert(pv.take(i as int)[j] == pv[j]);
                    }
                    lemma_first_pair_at(pv, f.name@, i as int);
                    assert(pair_value(pv, f.name@) == pv[i as int].value);
                }
                set_slot(&mut acc, si, SlotValue::Present(v));
            },
            FieldSlot::Group(fs) => {
                assert(slot_inv(*set, *rec, pv, i as int, acc@, si as int));
                assert(slot_fields(rec.slots@[si as int]) =~= fs@);
                let prev: Option<String> = match &acc[si] {
                    SlotValue::Chosen(nm, _) => Some(nm.clone()),
                    _ => None,
                };
                match prev {
                    Some(first_choice) => {
                        proof {
                            assert(slot_inv(*set, *rec, pv, i as int, acc@, si as int));
                            let m = choose|m: int|
                                #![trigger fs@[m]]
                                {
                                    &&& 0 <= m < fs@.len()
                                    &&& cnt(pv.take(i as int), fs@[m].name@) == 1
                                    &&& cnt(pv, fs@[m].name@) >= 1
                                    &&& forall|m2: int|
                                        0 <= m2 < fs@.len() && m2 != m ==> cnt(
                                            pv.take(i as int),
                                            (#[trigger] fs@[m2]).name@,
                                        ) == 0
                                    &&& (acc@[si as int] matches SlotValue::Chosen(nm0, v0)
                                        && nm0@ == fs@[m].name@ && val_v(v0) == conv_value(
                                        *set,
                                        fs@[m].ty,
                                        pair_value(pv, fs@[m].name@),
                                    ) && value_wf(*set, fs@[m].ty, v0))
                                };
                            assert(fs@[m].name@ == acc@[si as int]->Chosen_0@);
                            lemma_cnt_take_succ(pv, f.name@, i as int);
                            lemma_cnt_split(pv, f.name@, i + 1);
                            lemma_cnt_zero(pv.skip(i + 1), f.name@);
                            assert(fs@[mi as int] == *f);
                            if mi as int == m {
                                assert(cnt(pv.take(i + 1), f.name@) == 2);
                                assert(cnt(pv, f.name@) >= 2);
                                lemma_group_cnt_member(fs@, pv, m);
                            } else {
                                assert(cnt(pv.take(i as int), f.name@) == 0);
                                assert(cnt(pv, f.name@) >= 1);
                                assert(cnt(pv, fs@[m].name@) >= 1);
                                if m < mi as int {
                                    lemma_group_cnt_two(fs@, pv, m, mi as int);
                                } else {
                                    lemma_group_cnt_two(fs@, pv, mi as int, m);
                                }
                            }
                            assert(group_cnt(fs@, pv) >= 2);
                            assert(!no_repeats(*rec, pv));
                            assert(!literal_good(*set, rn@, *l));
                            assert(!groups_unique(*rec, pv));
                            // the earlier supply of the chosen member sits
                            // before the conflicting pair
                            lemma_cnt_zero(pv.take(i as int), fs@[m].name@);
                            assert(exists|pa: int|
                                0 <= pa < i && (#[trigger] pv[pa]).name@ == fs@[m].name@) by {
                                if forall|pa: int|
                                    0 <= pa < i ==> (#[trigger] pv.take(i as int)[pa]).name@
                                        != fs@[m].name@ {
                                    assert(cnt(pv.take(i as int), fs@[m].name@) == 0);
                                }
                                let pa = choose|pa: int|
                                    0 <= pa < i && (#[trigger] pv.take(i as int)[pa]).name@
                                        == fs@[m].name@;
                                assert(pv.take(i as int)[pa] == pv[pa]);
                            }
                        }
                        return Err(
                            ParseError {
                                pos: p.name_pos,
                                kind: ParseErrorKind::GroupConflict(
                                    member_names(fs),
                                    first_choice,
                                    p.name.clone(),
                                ),
                            },
                        );
                    },
                    None => {
                        proof {
                            lemma_cnt_zero(pv, f.name@);
                            assert(cnt(pv, f.name@) >= 1) by {
                                if cnt(pv, f.name@) == 0 {
                                    assert(pv[i as int].name@ != f.name@);
                                }
                            }
                            lemma_cnt_zero(pv.take(i as int), f.name@);
                            assert forall|j: int| 0 <= j < i implies (#[trigger] pv[j]).name@
                                != f.name@ by {
                                assert(pv.take(i as int)[j] == pv[j]);
                            }
                            lemma_first_pair_at(pv, f.name@, i as int);
                            assert(pair_value(pv, f.name@) == pv[i as int].value);
                        }
                        set_slot(&mut acc, si, SlotValue::Chosen(p.name.clone(), v));
                    },
                }
            },
        }
        proof {
            let acc_new = acc@;
            assert forall|s2: int| 0 <= s2 < rec.slots@.len() implies #[trigger] slot_inv(
                *set,
                *rec,
                pv,
                i + 1,
                acc_new,
                s2,
            ) by {
                assert(slot_inv(*set, *rec, pv, i as int, acc_old, s2));
                match rec.slots@[s2] {
                    FieldSlot::Single(f2) => {
                        lemma_cnt_take_succ(pv, f2.name@, i as int);
                        if s2 != si as int {
                            // a different slot: the scanned pair is not its field
                            assert(acc_new[s2] == acc_old[s2]);
                            if pv[i as int].name@ == f2.name@ {
                                // impossible: the name was found at (si, mi)
                                assert(slot_ok(*set, *rec, s2));
                                assert(position_ok(*set, *rec, s2, 0));
                                assert(slot_fields(rec.slots@[s2]) =~= seq![f2]);
                                assert(find_slot_idx(rec.slots@, f2.name@) == s2);
                                assert(false);
                            }
                        } else {
                            assert(f2 == *f);
                            assert(acc_new[s2] == SlotValue::Present(v));
                            assert(cnt(pv.take(i as int), f2.name@) == 0);
                            assert(cnt(pv.take(i + 1), f2.name@) == 1);
                        }
                    },
                    FieldSlot::Group(fs2) => {
                        assert forall|m: int| 0 <= m < fs2@.len() implies cnt(
                            pv.take(i + 1),
                            (#[trigger] fs2@[m]).name@,
                        ) == cnt(pv.take(i as int), fs2@[m].name@) + if pv[i as int].name@
                            == fs2@[m].name@ {
                            1nat
                        } else {
                            0nat
                        } by {
                            lemma_cnt_take_succ(pv, fs2@[m].name@, i as int);
                        }
                        assert(slot_fields(rec.slots@[s2]) =~= fs2@);
                        if s2 != si as int {
                            assert(acc_new[s2] == acc_old[s2]);
                            assert forall|m: int| 0 <= m < fs2@.len() implies (
                            #[trigger] fs2@[m]).name@ != pv[i as int].name@ by {
                                if fs2@[m].name@ == pv[i as int].name@ {
                                    assert(slot_ok(*set, *rec, s2));
                                    assert(position_ok(*set, *rec, s2, m));
                                    assert(find_slot_idx(rec.slots@, fs2@[m].name@) == s2);
                                    assert(false);
                                }
                            }
                        } else {
                            // this group just received its first supply, at
                            // member `mi`; no other member bears that name
                            assert(fs2@[mi as int] == *f);
                            assert forall|m2: int| 0 <= m2 < fs2@.len() && m2 != mi as int
                                implies (#[trigger] fs2@[m2]).name@ != pv[i as int].name@ by {
                                if fs2@[m2].name@ == pv[i as int].name@ {
                                    assert(slot_ok(*set, *rec, s2));
                                    assert(position_ok(*set, *rec, s2, m2));
                                    assert(position_ok(*set, *rec, s2, mi as int));
                                    assert(find_in_fields(slot_fields(rec.slots@[s2]), fs2@[m2].name@)
                                        == m2);
                                    assert(false);
                                }
                            }
                            assert(cnt(pv.take(i + 1), fs2@[mi as int].name@) == 1);
                            assert(acc_new[s2] matches SlotValue::Chosen(nm1, v1) && nm1@
                                == fs2@[mi as int].name@ && v1 == v);
                        }
                    },
                }
            }
        }
        i += 1;
    }
    proof {
        assert(pv.take(pv.len() as int) =~= pv);
    }
    // end of input: resolve each slot or report what is missing
    let ghost acc_full = acc@;
    let mut out: Vec<SlotValue> = Vec::new();
    let mut si: usize = 0;
    while si < rec.slots.len()
        invariant
            schemas_ok(*set),
            *rec == record_of(*set, rn@),
            record_ok(*set, *rec),
            l.kind == LitKind::LRec(*pairs),
            pv == pairs@,
            si <= rec.slots@.len(),
            acc_full.len() == rec.slots@.len(),
            acc@ == acc_full.skip(si as int),
            out@.len() == si,
            forall|s: int|
                0 <= s < rec.slots@.len() ==> #[trigger] slot_inv(
                    *set,
                    *rec,
                    pv,
                    pv.len() as int,
                    acc_full,
                    s,
                ),
            forall|k: int|
                0 <= k < pv.len() ==> declares(*rec, (#[trigger] pv[k]).name@) && value_good(
                    *set,
                    field_of(*rec, pv[k].name@).ty,
                    pv[k].value,
                ),
            forall|k: int|
                0 <= k < si ==> slot_v(#[trigger] out@[k]) == conv_slot(*set, rec.slots@[k], *l)
                    && slot_wf(*set, rec.slots@[k], out@[k]),
            forall|k: int|
                0 <= k < si ==> match #[trigger] rec.slots@[k] {
                    FieldSlot::Single(f) => (spec_is_required(f) ==> cnt(pv, f.name@) >= 1) && cnt(
                        pv,
                        f.name@,
                    ) <= 1,
                    FieldSlot::Group(fs) => group_cnt(fs@, pv) == 1,
                },
        decreases rec.slots@.len() - si,
    {
        proof {
            assert(pv.take(pv.len() as int) =~= pv);
        }
        let sv = acc.remove(0);
        proof {
            assert(acc_full.skip(si as int)[0] == acc_full[si as int]);
            assert(sv == acc_full[si as int]);
            assert(acc@ =~= acc_full.skip(si + 1));
            assert(slot_inv(*set, *rec, pv, pv.len() as int, acc_full, si as int));
        }
        match &rec.slots[si] {
            FieldSlot::Single(f) => {
                proof {
                    assert(slot_ok(*set, *rec, si as int));
                    assert(slot_fields(rec.slots@[si as int]) =~= seq![*f]);
                    assert(position_ok(*set, *rec, si as int, 0));
                    assert(field_ok(*set, *f));
                }
                match sv {
                    SlotValue::Present(v) => {
                        assert(cnt(pv, f.name@) == 1);
                        assert(slot_v(SlotValue::Present(v)) == conv_slot(
                            *set,
                            rec.slots@[si as int],
                            *l,
                        ));
                        assert(slot_wf(*set, rec.slots@[si as int], SlotValue::Present(v)));
                        out.push(SlotValue::Present(v));
                    },
                    SlotValue::Absent => {
                        assert(cnt(pv, f.name@) == 0);
                        if has_default(f) {
                            let dv = default_value(set, f);
                            assert(slot_wf(*set, rec.slots@[si as int], SlotValue::Present(dv)));
                            assert(slot_v(SlotValue::Present(dv)) == conv_slot(
                                *set,
                                rec.slots@[si as int],
                                *l,
                            ));
                            out.push(SlotValue::Present(dv));
                        } else if !f.optional {
                            proof {
                                assert(spec_is_required(*f) && cnt(pv, f.name@) == 0);
                                assert(!all_required(*rec, pv));
                                assert(!literal_good(*set, rn@, *l));
                                lemma_scan_unique(*set, *rec, pv, acc_full);
                                assert(slot_ok(*set, *rec, si as int));
                                assert(slot_fields(rec.slots@[si as int]) =~= seq![*f]);
                                assert(position_ok(*set, *rec, si as int, 0));
                                assert(declares(*rec, f.name@));
                                assert(field_of(*rec, f.name@) == *f);
                                // every earlier slot already resolved, so
                                // this is the first unsupplied required one
                                assert forall|j: int| 0 <= j < si implies !(
                                #[trigger] rec.slots@[j] matches FieldSlot::Single(f2)
                                    && spec_is_required(f2) && cnt(pv, f2.name@) == 0) by {}
                                lemma_first_missing_single_at(*rec, rec.slots@, pv, si as int);
                            }
                            return Err(
                                ParseError {
                                    pos: l.pos,
                                    kind: ParseErrorKind::MissingField(f.name.clone()),
                                },
                            );
                        } else {
                            assert(slot_v(SlotValue::Absent) == conv_slot(
                                *set,
                                rec.slots@[si as int],
                                *l,
                            ));
                            assert(slot_wf(*set, rec.slots@[si as int], SlotValue::Absent));
                            out.push(SlotValue::Absent);
                        }
                    },
                    SlotValue::Chosen(_, _) => {
                        proof {
                            assert(false);
                        }
                        out.push(SlotValue::Absent);
                    },
                }
            },
            FieldSlot::Group(fs) => {
                assert(slot_fields(rec.slots@[si as int]) =~= fs@);
                match sv {
                    SlotValue::Chosen(nm, v) => {
                        proof {
                            let m = choose|m: int|
                                #![trigger fs@[m]]
                                {
                                    &&& 0 <= m < fs@.len()
                                    &&& cnt(pv, fs@[m].name@) == 1
                                    &&& forall|m2: int|
                                        0 <= m2 < fs@.len() && m2 != m ==> cnt(
                                            pv,
                                            (#[trigger] fs@[m2]).name@,
                                        ) == 0
                                    &&& nm@ == fs@[m].name@
                                    &&& val_v(v) == conv_value(
                                        *set,
                                        fs@[m].ty,
                                        pair_value(pv, fs@[m].name@),
                                    )
                                    &&& value_wf(*set, fs@[m].ty, v)
                                };
                            assert forall|j: int| 0 <= j < m implies cnt(
                                pv,
                                (#[trigger] fs@[j]).name@,
                            ) == 0 by {}
                            lemma_first_supplied_at(fs@, pv, m);
                            lemma_group_cnt_upper(fs@, pv, m);
                            assert(slot_v(SlotValue::Chosen(nm, v)) == conv_slot(
                                *set,
                                rec.slots@[si as int],
                                *l,
                            ));
                            assert(slot_fields(rec.slots@[si as int]) =~= fs@);
                            assert(slot_wf(*set, rec.slots@[si as int], SlotValue::Chosen(nm, v)));
                        }
                        out.push(SlotValue::Chosen(nm, v));
                    },
                    SlotValue::Absent => {
                        proof {
                            assert forall|m: int| 0 <= m < fs@.len() implies cnt(
                                pv,
                                (#[trigger] fs@[m]).name@,
                            ) == 0 by {}
                            lemma_group_cnt_zero(fs@, pv);
                            assert(!all_groups_chosen(*rec, pv));
                            assert(!literal_good(*set, rn@, *l));
                            lemma_scan_unique(*set, *rec, pv, acc_full);
                            // every earlier slot already resolved, so this
                            // is the first unchosen group
                            assert forall|j: int| 0 <= j < si implies !(#[trigger] rec.slots@[j]
                                matches FieldSlot::Group(fs2) && group_cnt(fs2@, pv) == 0) by {}
                            lemma_first_unchosen_group_at(*rec, rec.slots@, pv, si as int);
                        }
                        let ms = member_names(fs);
                        proof {
                            assert(record_of(*set, rn@).slots@[si as int] matches
                                FieldSlot::Group(g) && g@ == fs@);
                        }
                        return Err(
                            ParseError {
                                pos: l.pos,
                                kind: ParseErrorKind::MissingGroupChoice(ms),
                            },
                        );
                    },
                    SlotValue::Present(_) => {
                        proof {
                            assert(false);
                        }
                        out.push(SlotValue::Absent);
                    },
                }
            },
        }
        si += 1;
    }
    proof {
        // the literal is good: assemble the clauses
        assert(names_known(*rec, pv));
        lemma_scan_unique(*set, *rec, pv, acc_full);
        assert(no_repeats(*rec, pv));
        assert(all_required(*rec, pv));
        assert(all_groups_chosen(*rec, pv));
        assert(literal_good(*set, rn@, *l));
        // and the result is the denoted instance
        lemma_slots_v(out@);
        lemma_conv_slots(*set, rec.slots@, *l);
        assert forall|k: int| 0 <= k < out@.len() implies slots_v(out@)[k] == conv_slots(
            *set,
            rec.slots@,
            *l,
        )[k] by {
            assert(slots_v(out@)[k] == slot_v(out@[k]));
            assert(slot_v(out@[k]) == conv_slot(*set, rec.slots@[k], *l));
        }
        assert(slots_v(out@) =~= conv_slots(*set, rec.slots@, *l));
        assert(record_of(*set, rn@) == *rec);
    }
    let result = RecordInstance { record: rn.clone(), slots: out };
    assert(inst_wf(*set, rn@, result));
    Ok(result)
}

} // verus!
