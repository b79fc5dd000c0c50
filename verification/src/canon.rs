//! Canonical serialization: a resolved instance written back as a
//! literal tree, and the round trip: re-parsing the canonical form of a
//! well-formed instance gives back an instance with the same view.
use vstd::prelude::*;

use crate::instance::{
    inst_v, lemma_slots_v, map_of_entries, slot_v, slots_v, val_v, RecordInstance, SlotValue,
    Value,
};
use crate::literal::{Lit, LitKind, LitPair};
use crate::resolve::{
    all_groups_chosen, all_required, cnt, conv_record, conv_slot, conv_slots, conv_value,
    first_pair_idx, first_supplied, group_cnt, lemma_cnt_push, lemma_cnt_split, lemma_cnt_zero,
    lemma_conv_slots, lemma_first_pair_at, lemma_first_supplied_at, lemma_group_cnt_member,
    lemma_group_cnt_upper, lemma_map_of_pairs_push, literal_good, map_of_pairs, names_known,
    no_repeats, pair_value, resolve_record, text_of, value_good,
};
use crate::schema::{
    declares, field_of, find_in_fields, find_slot_idx, has_record, record_of, record_ok, schemas_ok, slot_fields,
    slot_ok, position_ok, spec_has_default, spec_is_required, Field, FieldSlot, FieldType,
    RecordSchema, SchemaSet,
};
use crate::wf::{inst_wf, slot_wf, value_wf};

verus! {

/// A name supplied once, at pair `j`, is first supplied there.
pub proof fn lemma_cnt_one_first(pairs: Seq<LitPair>, n: Seq<char>, j: int)
    requires
        0 <= j < pairs.len(),
        pairs[j].name@ == n,
        cnt(pairs, n) == 1,
    ensures
        first_pair_idx(pairs, n) == j,
        pair_value(pairs, n) == pairs[j].value,
{
    lemma_cnt_split(pairs, n, j);
    lemma_cnt_zero(pairs.skip(j), n);
    assert(pairs.skip(j)[0] == pairs[j]);
    assert(cnt(pairs.skip(j), n) >= 1) by {
        if cnt(pairs.skip(j), n) == 0 {
            assert(pairs.skip(j)[0].name@ != n);
        }
    }
    lemma_cnt_zero(pairs.take(j), n);
    assert forall|k: int| 0 <= k < j implies (#[trigger] pairs[k]).name@ != n by {
        assert(pairs.take(j)[k] == pairs[k]);
    }
    lemma_first_pair_at(pairs, n, j);
}

/// What the canonical pair list holds for slot `k` of the record, whose
/// resolved value is `sv`: the pair carrying its value, or no pair at
/// all for an absent optional field.
pub open spec fn slot_emit(
    set: SchemaSet,
    rec: RecordSchema,
    sv: SlotValue,
    k: int,
    out: Seq<LitPair>,
) -> bool {
    match rec.slots@[k] {
        FieldSlot::Single(f) => match sv {
            SlotValue::Present(v) => cnt(out, f.name@) == 1 && exists|j: int|
                #![trigger out[j]]
                {
                    &&& 0 <= j < out.len()
                    &&& out[j].name@ == f.name@
                    &&& value_good(set, f.ty, out[j].value)
                    &&& conv_value(set, f.ty, out[j].value) == val_v(v)
                },
            SlotValue::Absent => cnt(out, f.name@) == 0 && f.optional && !spec_has_default(f),
            SlotValue::Chosen(_, _) => false,
        },
        FieldSlot::Group(fs) => match sv {
            SlotValue::Chosen(nm, v) => exists|m: int|
                #![trigger fs@[m]]
                {
                    &&& 0 <= m < fs@.len()
                    &&& fs@[m].name@ == nm@
                    &&& cnt(out, fs@[m].name@) == 1
                    &&& forall|m2: int|
                        0 <= m2 < fs@.len() && m2 != m ==> cnt(out, (#[trigger] fs@[m2]).name@)
                            == 0
                    &&& exists|j: int|
                        #![trigger out[j]]
                        {
                            &&& 0 <= j < out.len()
                            &&& out[j].name@ == fs@[m].name@
                            &&& value_good(set, fs@[m].ty, out[j].value)
                            &&& conv_value(set, fs@[m].ty, out[j].value) == val_v(v)
                        }
                },
            _ => false,
        },
    }
}

/// Serializes one resolved value back into literal form: text as a text
/// literal, bytes as a byte literal, a variant as its identifier, a map
/// as a pair list, and a nested instance as its own canonical record
/// literal.
pub fn lit_of_value(set: &SchemaSet, ty: &FieldType, v: &Value) -> (r: Lit)
    requires
        schemas_ok(*set),
        value_wf(*set, *ty, *v),
    ensures
        value_good(*set, *ty, r),
        conv_value(*set, *ty, r) == val_v(*v),
    decreases *v, 1int,
{
    match v {
        Value::Text(s) => {
            assert(*ty is Text);
            Lit { pos: 0, kind: LitKind::LText(s.clone()) }
        },
        Value::Bytes(b) => {
            assert(*ty is ByteSeq);
            Lit { pos: 0, kind: LitKind::LBytes(b.clone()) }
        },
        Value::Variant(s) => {
            assert(*ty is Enumeration);
            Lit { pos: 0, kind: LitKind::LIdent(s.clone()) }
        },
        Value::TextMap(es) => {
            assert(*ty is TextMap);
            let mut ps: Vec<LitPair> = Vec::new();
            let mut j: usize = 0;
            while j < es.len()
                invariant
                    j <= es@.len(),
                    ps@.len() == j,
                    forall|a: int| 0 <= a < j ==> (#[trigger] ps@[a].value.kind) is LText,
                    map_of_pairs(ps@) == map_of_entries(es@.take(j as int)),
                decreases es@.len() - j,
            {
                let p = LitPair {
                    name: es[j].0.clone(),
                    name_pos: 0,
                    value: Lit { pos: 0, kind: LitKind::LText(es[j].1.clone()) },
                };
                proof {
                    lemma_map_of_pairs_push(ps@, p);
                    assert(es@.take(j + 1) =~= es@.take(j as int).push(es@[j as int]));
                    crate::resolve::lemma_map_of_entries_push(
                        es@.take(j as int),
                        es@[j as int],
                    );
                }
                ps.push(p);
                j += 1;
            }
            proof {
                assert(es@.take(es@.len() as int) =~= es@);
            }
            Lit { pos: 0, kind: LitKind::LRec(ps) }
        },
        Value::Record(b) => {
            let t = match ty {
                FieldType::Reference(t) => t,
                _ => {
                    proof {
                        assert(false);
                    }
                    &b.record
                },
            };
            proof {
                assert(decreases_to!(*v => v->Record_0));
            }
            canonical_literal(set, t, b)
        },
    }
}

/// Writes a well-formed instance of record `rn` back as its canonical
/// record literal: each resolved field as one `name: value` pair in
/// declaration order, absent optional fields omitted, each group as its
/// chosen member. The canonical literal parses successfully and denotes
/// the instance it came from.
pub fn canonical_literal(set: &SchemaSet, rn: &String, inst: &RecordInstance) -> (r: Lit)
    requires
        schemas_ok(*set),
        inst_wf(*set, rn@, *inst),
    ensures
        literal_good(*set, rn@, r),
        conv_record(*set, rn@, r) == inst_v(*inst),
    decreases *inst, 0int,
{
    let ri = match crate::schema::find_record(set, rn) {
        Some(i) => i,
        None => {
            proof {
                assert(false);
            }
            0
        },
    };
    let rec = &set.records[ri];
    proof {
        assert(*rec == record_of(*set, rn@));
        assert(record_ok(*set, *rec));
    }
    let mut out: Vec<LitPair> = Vec::new();
    let mut si: usize = 0;
    while si < rec.slots.len()
        invariant
            schemas_ok(*set),
            inst_wf(*set, rn@, *inst),
            *rec == record_of(*set, rn@),
            record_ok(*set, *rec),
            si <= rec.slots@.len(),
            inst.slots@.len() == rec.slots@.len(),
            forall|j: int|
                0 <= j < out@.len() ==> 0 <= find_slot_idx(rec.slots@, (#[trigger] out@[j]).name@)
                    < si && value_good(*set, field_of(*rec, out@[j].name@).ty, out@[j].value),
            forall|k: int|
                0 <= k < si ==> #[trigger] slot_emit(*set, *rec, inst.slots@[k], k, out@),
        decreases rec.slots@.len() - si,
    {
        let ghost out_old = out@;
        match (&rec.slots[si], &inst.slots[si]) {
            (FieldSlot::Single(f), SlotValue::Present(v)) => {
                proof {
                    assert(slot_wf(*set, rec.slots@[si as int], inst.slots@[si as int]));
                    assert(slot_ok(*set, *rec, si as int));
                    assert(slot_fields(rec.slots@[si as int]) =~= seq![*f]);
                    assert(position_ok(*set, *rec, si as int, 0));
                    assert(decreases_to!(*inst => inst.slots));
                    assert(decreases_to!(inst.slots => inst.slots@));
                    assert(decreases_to!(inst.slots@ => inst.slots@[si as int]));
                    assert(decreases_to!(inst.slots@[si as int] => inst.slots@[si as int]->Present_0));
                }
                let lv = lit_of_value(set, &f.ty, v);
                out.push(LitPair { name: f.name.clone(), name_pos: 0, value: lv });
                proof {
                    let j = out@.len() - 1;
                    assert(out@[j].name@ == f.name@ && value_good(*set, f.ty, out@[j].value)
                        && conv_value(*set, f.ty, out@[j].value) == val_v(
                        inst.slots@[si as int]->Present_0,
                    ));
                }
            },
            (FieldSlot::Single(f), SlotValue::Absent) => {
                proof {
                    assert(slot_wf(*set, rec.slots@[si as int], inst.slots@[si as int]));
                    assert(slot_ok(*set, *rec, si as int));
                    assert(slot_fields(rec.slots@[si as int]) =~= seq![*f]);
                    assert(position_ok(*set, *rec, si as int, 0));
                }
            },
            (FieldSlot::Group(fs), SlotValue::Chosen(nm, v)) => {
                proof {
                    assert(slot_wf(*set, rec.slots@[si as int], inst.slots@[si as int]));
                    assert(slot_ok(*set, *rec, si as int));
                    assert(slot_fields(rec.slots@[si as int]) =~= fs@);
                }
                let m = match lookup_member(fs, nm) {
                    Some(m) => m,
                    None => {
                        proof {
                            let m0 = choose|m0: int|
                                #![trigger fs@[m0]]
                                {
                                    &&& 0 <= m0 < fs@.len()
                                    &&& fs@[m0].name@ == nm@
                                    &&& value_wf(*set, fs@[m0].ty, inst.slots@[si as int]->Chosen_1)
                                };
                            assert(false);
                        }
                        0
                    },
                };
                proof {
                    assert(position_ok(*set, *rec, si as int, m as int));
                    assert(decreases_to!(*inst => inst.slots));
                    assert(decreases_to!(inst.slots => inst.slots@));
                    assert(decreases_to!(inst.slots@ => inst.slots@[si as int]));
                    assert(decreases_to!(inst.slots@[si as int] => inst.slots@[si as int]->Chosen_1));
                    // the chosen payload fits the member the name picks out
                    let m0 = choose|m0: int|
                        #![trigger fs@[m0]]
                        {
                            &&& 0 <= m0 < fs@.len()
                            &&& fs@[m0].name@ == nm@
                            &&& value_wf(*set, fs@[m0].ty, inst.slots@[si as int]->Chosen_1)
                        };
                    assert(position_ok(*set, *rec, si as int, m0));
                    assert(m0 == m as int);
                }
                let lv = lit_of_value(set, &fs[m].ty, v);
                out.push(LitPair { name: nm.clone(), name_pos: 0, value: lv });
                proof {
                    let j = out@.len() - 1;
                    assert(out@[j].name@ == fs@[m as int].name@ && value_good(
                        *set,
                        fs@[m as int].ty,
                        out@[j].value,
                    ) && conv_value(*set, fs@[m as int].ty, out@[j].value) == val_v(
                        inst.slots@[si as int]->Chosen_1,
                    ));
                }
            },
            _ => {
                proof {
                    assert(slot_wf(*set, rec.slots@[si as int], inst.slots@[si as int]));
                    assert(false);
                }
            },
        }
        proof {
            if out@.len() > out_old.len() {
                // one pair was pushed for slot `si`; its name sits in slot
                // `si` and differs from every earlier pair's name
                let p = out@.last();
                assert(out@ =~= out_old.push(p));
                assert(find_slot_idx(rec.slots@, p.name@) == si as int);
                assert forall|n: Seq<char>| find_slot_idx(rec.slots@, n) != si as int implies cnt(
                    out@,
                    n,
                ) == cnt(out_old, n) by {
                    lemma_cnt_push(out_old, p, n);
                }
                lemma_cnt_push(out_old, p, p.name@);
                lemma_cnt_zero(out_old, p.name@);
                assert(cnt(out_old, p.name@) == 0) by {
                    if cnt(out_old, p.name@) >= 1 {
                        assert(exists|j: int|
                            0 <= j < out_old.len() && (#[trigger] out_old[j]).name@ == p.name@) by {
                            if forall|j: int|
                                0 <= j < out_old.len() ==> (#[trigger] out_old[j]).name@
                                    != p.name@ {
                                assert(cnt(out_old, p.name@) == 0);
                            }
                        }
                        let j = choose|j: int|
                            0 <= j < out_old.len() && (#[trigger] out_old[j]).name@ == p.name@;
                        assert(find_slot_idx(rec.slots@, out_old[j].name@) < si as int);
                        assert(false);
                    }
                }
                assert(cnt(out@, p.name@) == 1);
            }
            // earlier slots keep their counts: every field name of an
            // earlier slot is found at that slot, not at `si`
            assert forall|k: int| 0 <= k < si implies #[trigger] slot_emit(
                *set,
                *rec,
                inst.slots@[k],
                k,
                out@,
            ) by {
                assert(slot_emit(*set, *rec, inst.slots@[k], k, out_old));
                assert(slot_ok(*set, *rec, k));
                if out@.len() > out_old.len() {
                    let p = out@.last();
                    match rec.slots@[k] {
                        FieldSlot::Single(f) => {
                            assert(slot_fields(rec.slots@[k]) =~= seq![f]);
                            assert(position_ok(*set, *rec, k, 0));
                            assert(find_slot_idx(rec.slots@, f.name@) == k);
                            lemma_cnt_push(out_old, p, f.name@);
                            assert forall|j: int|
                                0 <= j < out_old.len() implies #[trigger] out_old[j]
                                == out@[j] by {}
                        },
                        FieldSlot::Group(fs) => {
                            assert forall|m2: int| 0 <= m2 < fs@.len() implies cnt(
                                out@,
                                (#[trigger] fs@[m2]).name@,
                            ) == cnt(out_old, fs@[m2].name@) by {
                                assert(slot_fields(rec.slots@[k]) =~= fs@);
                                assert(position_ok(*set, *rec, k, m2));
                                assert(find_slot_idx(rec.slots@, fs@[m2].name@) == k);
                                lemma_cnt_push(out_old, p, fs@[m2].name@);
                            }
                            assert forall|j: int|
                                0 <= j < out_old.len() implies #[trigger] out_old[j]
                                == out@[j] by {}
                        },
                    }
                }
            }
            // and the slot just processed is now accounted for
            match rec.slots@[si as int] {
                FieldSlot::Single(f) => {
                    match inst.slots@[si as int] {
                        SlotValue::Present(_) => {
                            assert(out@.last().name@ == f.name@);
                            assert(cnt(out@, f.name@) == 1);
                        },
                        SlotValue::Absent => {
                            // no pair bears this field's name
                            lemma_cnt_zero(out@, f.name@);
                            assert(cnt(out@, f.name@) == 0) by {
                                if cnt(out@, f.name@) >= 1 {
                                    assert(exists|j: int|
                                        0 <= j < out@.len() && (#[trigger] out@[j]).name@
                                            == f.name@) by {
                                        if forall|j: int|
                                            0 <= j < out@.len() ==> (#[trigger] out@[j]).name@
                                                != f.name@ {
                                            assert(cnt(out@, f.name@) == 0);
                                        }
                                    }
                                    let j = choose|j: int|
                                        0 <= j < out@.len() && (#[trigger] out@[j]).name@
                                            == f.name@;
                                    assert(find_slot_idx(rec.slots@, f.name@) == si as int);
                                    assert(find_slot_idx(rec.slots@, out@[j].name@) < si as int);
                                    assert(false);
                                }
                            }
                        },
                        _ => {},
                    }
                },
                FieldSlot::Group(fs) => {
                    match inst.slots@[si as int] {
                        SlotValue::Chosen(nm, _) => {
                            let m = choose|m0: int|
                                #![trigger fs@[m0]]
                                {
                                    &&& 0 <= m0 < fs@.len()
                                    &&& fs@[m0].name@ == nm@
                                    &&& value_wf(*set, fs@[m0].ty, inst.slots@[si as int]->Chosen_1)
                                };
                            assert(position_ok(*set, *rec, si as int, m));
                            assert(cnt(out@, fs@[m].name@) == 1);
                            assert forall|m2: int| 0 <= m2 < fs@.len() && m2 != m implies cnt(
                                out@,
                                (#[trigger] fs@[m2]).name@,
                            ) == 0 by {
                                assert(position_ok(*set, *rec, si as int, m2));
                                // a different member bears a different name
                                assert(fs@[m2].name@ != fs@[m].name@) by {
                                    if fs@[m2].name@ == fs@[m].name@ {
                                        assert(find_in_fields(
                                            slot_fields(rec.slots@[si as int]),
                                            fs@[m2].name@,
                                        ) == m2);
                                        assert(false);
                                    }
                                }
                                let out_prev = out@.drop_last();
                                assert(out_prev =~= out_old);
                                lemma_cnt_push(out_old, out@.last(), fs@[m2].name@);
                                lemma_cnt_zero(out_old, fs@[m2].name@);
                                assert(cnt(out_old, fs@[m2].name@) == 0) by {
                                    if cnt(out_old, fs@[m2].name@) >= 1 {
                                        assert(exists|j: int|
                                            0 <= j < out_old.len() && (
                                            #[trigger] out_old[j]).name@ == fs@[m2].name@) by {
                                            if forall|j: int|
                                                0 <= j < out_old.len() ==> (
                                                #[trigger] out_old[j]).name@ != fs@[m2].name@ {
                                                assert(cnt(out_old, fs@[m2].name@) == 0);
                                            }
                                        }
                                        let j = choose|j: int|
                                            0 <= j < out_old.len() && (
                                            #[trigger] out_old[j]).name@ == fs@[m2].name@;
                                        assert(find_slot_idx(rec.slots@, fs@[m2].name@)
                                            == si as int);
                                        assert(false);
                                    }
                                }
                            }
                        },
                        _ => {},
                    }
                },
            }
            assert(slot_emit(*set, *rec, inst.slots@[si as int], si as int, out@));
        }
        si += 1;
    }
    let r = Lit { pos: 0, kind: LitKind::LRec(out) };
    proof {
        let ghost pv = r.kind->LRec_0@;
        assert(pv == out@);
        assert(names_known(*rec, pv)) by {
            assert forall|i: int| 0 <= i < pv.len() implies declares(
                *rec,
                (#[trigger] pv[i]).name@,
            ) by {}
        }
        assert forall|k: int| 0 <= k < rec.slots@.len() implies match #[trigger] rec.slots@[k] {
            FieldSlot::Single(f) => cnt(pv, f.name@) <= 1 && (spec_is_required(f) ==> cnt(
                pv,
                f.name@,
            ) >= 1),
            FieldSlot::Group(fs) => group_cnt(fs@, pv) == 1,
        } by {
            assert(slot_emit(*set, *rec, inst.slots@[k], k, pv));
            match rec.slots@[k] {
                FieldSlot::Single(f) => {},
                FieldSlot::Group(fs) => {
                    let m = choose|m: int|
                        #![trigger fs@[m]]
                        {
                            &&& 0 <= m < fs@.len()
                            &&& fs@[m].name@ == inst.slots@[k]->Chosen_0@
                            &&& cnt(pv, fs@[m].name@) == 1
                            &&& forall|m2: int|
                                0 <= m2 < fs@.len() && m2 != m ==> cnt(
                                    pv,
                                    (#[trigger] fs@[m2]).name@,
                                ) == 0
                            &&& exists|j: int|
                                #![trigger pv[j]]
                                {
                                    &&& 0 <= j < pv.len()
                                    &&& pv[j].name@ == fs@[m].name@
                                    &&& value_good(*set, fs@[m].ty, pv[j].value)
                                    &&& conv_value(*set, fs@[m].ty, pv[j].value) == val_v(
                                        inst.slots@[k]->Chosen_1,
                                    )
                                }
                        };
                    lemma_group_cnt_upper(fs@, pv, m);
                },
            }
        }
        assert(no_repeats(*rec, pv));
        assert(all_required(*rec, pv));
        assert(all_groups_chosen(*rec, pv)) by {
            assert forall|k: int|
                0 <= k < rec.slots@.len() && rec.slots@[k] is Group implies match #[trigger] rec.slots@[k] {
                FieldSlot::Single(_) => true,
                FieldSlot::Group(fs) => group_cnt(fs@, pv) >= 1,
            } by {}
        }
        assert forall|i: int| 0 <= i < pv.len() implies value_good(
            *set,
            field_of(*rec, (#[trigger] pv[i]).name@).ty,
            pv[i].value,
        ) by {}
        assert(literal_good(*set, rn@, r));
        // the canonical literal denotes the instance
        lemma_conv_slots(*set, rec.slots@, r);
        lemma_slots_v(inst.slots@);
        assert forall|k: int| 0 <= k < rec.slots@.len() implies conv_slots(*set, rec.slots@, r)[k]
            == slots_v(inst.slots@)[k] by {
            assert(slot_emit(*set, *rec, inst.slots@[k], k, pv));
            assert(conv_slots(*set, rec.slots@, r)[k] == conv_slot(*set, rec.slots@[k], r));
            match rec.slots@[k] {
                FieldSlot::Single(f) => {
                    match inst.slots@[k] {
                        SlotValue::Present(v) => {
                            let j = choose|j: int|
                                #![trigger pv[j]]
                                {
                                    &&& 0 <= j < pv.len()
                                    &&& pv[j].name@ == f.name@
                                    &&& value_good(*set, f.ty, pv[j].value)
                                    &&& conv_value(*set, f.ty, pv[j].value) == val_v(v)
                                };
                            lemma_cnt_one_first(pv, f.name@, j);
                        },
                        _ => {},
                    }
                },
                FieldSlot::Group(fs) => {
                    match inst.slots@[k] {
                        SlotValue::Chosen(nm, v) => {
                            let m = choose|m: int|
                                #![trigger fs@[m]]
                                {
                                    &&& 0 <= m < fs@.len()
                                    &&& fs@[m].name@ == nm@
                                    &&& cnt(pv, fs@[m].name@) == 1
                                    &&& forall|m2: int|
                                        0 <= m2 < fs@.len() && m2 != m ==> cnt(
                                            pv,
                                            (#[trigger] fs@[m2]).name@,
                                        ) == 0
                                    &&& exists|j: int|
                                        #![trigger pv[j]]
                                        {
                                            &&& 0 <= j < pv.len()
                                            &&& pv[j].name@ == fs@[m].name@
                                            &&& value_good(*set, fs@[m].ty, pv[j].value)
                                            &&& conv_value(*set, fs@[m].ty, pv[j].value) == val_v(v)
                                        }
                                };
                            assert forall|j2: int| 0 <= j2 < m implies cnt(
                                pv,
                                (#[trigger] fs@[j2]).name@,
                            ) == 0 by {}
                            lemma_first_supplied_at(fs@, pv, m);
                            let j = choose|j: int|
                                #![trigger pv[j]]
                                {
                                    &&& 0 <= j < pv.len()
                                    &&& pv[j].name@ == fs@[m].name@
                                    &&& value_good(*set, fs@[m].ty, pv[j].value)
                                    &&& conv_value(*set, fs@[m].ty, pv[j].value) == val_v(v)
                                };
                            lemma_cnt_one_first(pv, fs@[m].name@, j);
                        },
                        _ => {},
                    }
                },
            }
        }
        assert(conv_slots(*set, rec.slots@, r) =~= slots_v(inst.slots@));
        assert(conv_record(*set, rn@, r) == inst_v(*inst));
    }
    r
}

/// Finds the group member bearing a name.
fn lookup_member(fs: &Vec<Field>, n: &String) -> (r: Option<usize>)
    ensures
        match r {
            Some(m) => m < fs@.len() && fs@[m as int].name@ == n@,
            None => forall|m: int| 0 <= m < fs@.len() ==> (#[trigger] fs@[m]).name@ != n@,
        },
{
    let mut m: usize = 0;
    while m < fs.len()
        invariant
            m <= fs@.len(),
            forall|k: int| 0 <= k < m ==> (#[trigger] fs@[k]).name@ != n@,
        decreases fs@.len() - m,
    {
        if fs[m].name == *n {
            return Some(m);
        }
        m += 1;
    }
    None
}

/// The round trip: re-serializing a well-formed instance into canonical
/// literal form and re-parsing it yields an instance with the very same
/// view. Successful parses return well-formed instances, so this holds
/// of every instance a parse produced.
pub fn reparse_canonical(set: &SchemaSet, rn: &String, inst: &RecordInstance) -> (r: RecordInstance)
    requires
        schemas_ok(*set),
        inst_wf(*set, rn@, *inst),
    ensures
        inst_v(r) == inst_v(*inst),
{
    let l = canonical_literal(set, rn, inst);
    match resolve_record(set, rn, &l) {
        Ok(r) => r,
        Err(_) => {
            proof {
                assert(false);
            }
            RecordInstance { record: rn.clone(), slots: Vec::new() }
        },
    }
}

} // verus!
