//! The schema definition grammar over tokens: named records holding
//! fields and exclusive groups, a type for each field with its optional
//! default literal, and a root record name closing the set.
use vstd::prelude::*;

use crate::schema::{Field, FieldSlot, FieldType, RecordSchema, SchemaDefError, SchemaSet};
use crate::token::{clamp_pos, Tok, Token};

verus! {

/// Where a path's `'::' Ident` repetitions end, read from just after the
/// path's first identifier; nothing on a dangling `::`.
pub open spec fn path_tail_end(toks: Seq<Token>, j: int) -> Option<int>
    decreases toks.len() - j,
{
    if j < 0 {
        None
    } else if !(j + 1 < toks.len() && toks[j].kind is Colon && toks[j + 1].kind is Colon) {
        Some(j)
    } else if j + 2 < toks.len() && toks[j + 2].kind matches Tok::Ident(_) {
        path_tail_end(toks, j + 3)
    } else {
        None
    }
}

/// Where a bracketed variant list ends, read from its first variant:
/// identifiers separated by commas, an optional `'; default'`, and the
/// closing bracket.
pub open spec fn variants_end(toks: Seq<Token>, j: int) -> Option<int>
    decreases toks.len() - j,
{
    if j < 0 || j >= toks.len() || !(toks[j].kind matches Tok::Ident(_)) || j + 1 >= toks.len() {
        None
    } else {
        match toks[j + 1].kind {
            Tok::Comma => variants_end(toks, j + 2),
            Tok::Semi => if j + 2 < toks.len() && (toks[j + 2].kind matches Tok::Ident(_)) && j + 3
                < toks.len() && toks[j + 3].kind is RBracket {
                Some(j + 4)
            } else {
                None
            },
            Tok::RBracket => Some(j + 2),
            _ => None,
        }
    }
}

/// The variant list read from its first variant is `vars` with default
/// `d`, in declaration order.
pub open spec fn variants_parse(
    toks: Seq<Token>,
    j: int,
    vars: Seq<String>,
    d: Option<String>,
) -> bool
    decreases toks.len() - j,
{
    if j < 0 || j >= toks.len() || j + 1 >= toks.len() {
        false
    } else {
        match toks[j].kind {
            Tok::Ident(v) => vars.len() > 0 && vars[0]@ == v@ && match toks[j + 1].kind {
                Tok::Comma => variants_parse(toks, j + 2, vars.drop_first(), d),
                Tok::Semi => vars.len() == 1 && j + 2 < toks.len() && (toks[j + 2].kind matches
                    Tok::Ident(dv) && (d matches Some(ds) && ds@ == dv@)) && j + 3 < toks.len()
                    && toks[j + 3].kind is RBracket,
                Tok::RBracket => vars.len() == 1 && d is None,
                _ => false,
            },
            _ => false,
        }
    }
}

/// Where the type starting at token `i` ends, or nothing when no type of
/// the definition grammar starts there.
pub open spec fn type_end(toks: Seq<Token>, i: int) -> Option<int> {
    if i < 0 || i >= toks.len() {
        None
    } else {
        match toks[i].kind {
            Tok::Ident(id) => if id@ == "enum"@ {
                let p1opt: Option<int> = if i + 1 < toks.len() && toks[i + 1].kind is Colon {
                    if i + 2 < toks.len() && toks[i + 2].kind is Colon {
                        Some(i + 3)
                    } else {
                        None
                    }
                } else {
                    Some(i + 1)
                };
                match p1opt {
                    Some(p1) => if p1 < toks.len() && (toks[p1].kind matches Tok::Ident(_)) {
                        match path_tail_end(toks, p1 + 1) {
                            Some(p2) => if 0 <= p2 < toks.len() && toks[p2].kind is LBracket {
                                variants_end(toks, p2 + 1)
                            } else {
                                None
                            },
                            None => None,
                        }
                    } else {
                        None
                    },
                    None => None,
                }
            } else if id@ == "Text"@ {
                if i + 1 < toks.len() && toks[i + 1].kind is Semi {
                    if i + 2 < toks.len() && (toks[i + 2].kind matches Tok::Text(_)) {
                        Some(i + 3)
                    } else {
                        None
                    }
                } else {
                    Some(i + 1)
                }
            } else if id@ == "ByteSequence"@ {
                if i + 1 < toks.len() && toks[i + 1].kind is Semi {
                    if i + 2 < toks.len() && (toks[i + 2].kind matches Tok::Bytes(_)) {
                        Some(i + 3)
                    } else {
                        None
                    }
                } else {
                    Some(i + 1)
                }
            } else {
                Some(i + 1)
            },
            _ => None,
        }
    }
}

/// The type starting at token `i` reads as `ty`: keywords to their
/// kinds, defaults taken along, an enumeration's variants and default in
/// order, any other identifier a reference to the record of that name.
pub open spec fn type_parses(toks: Seq<Token>, i: int, ty: FieldType) -> bool {
    if i < 0 || i >= toks.len() {
        false
    } else {
        match toks[i].kind {
            Tok::Ident(id) => if id@ == "enum"@ {
                let p1opt: Option<int> = if i + 1 < toks.len() && toks[i + 1].kind is Colon {
                    if i + 2 < toks.len() && toks[i + 2].kind is Colon {
                        Some(i + 3)
                    } else {
                        None
                    }
                } else {
                    Some(i + 1)
                };
                match p1opt {
                    Some(p1) => if p1 < toks.len() && (toks[p1].kind matches Tok::Ident(_)) {
                        match path_tail_end(toks, p1 + 1) {
                            Some(p2) => if 0 <= p2 < toks.len() && toks[p2].kind is LBracket {
                                ty matches FieldType::Enumeration(vars, d) && variants_parse(
                                    toks,
                                    p2 + 1,
                                    vars@,
                                    d,
                                )
                            } else {
                                false
                            },
                            None => false,
                        }
                    } else {
                        false
                    },
                    None => false,
                }
            } else if id@ == "Text"@ {
                if i + 1 < toks.len() && toks[i + 1].kind is Semi {
                    &&& i + 2 < toks.len()
                    &&& toks[i + 2].kind matches Tok::Text(t) && (ty matches FieldType::Text(dd)
                        && dd matches Some(ds) && ds@ == t@)
                } else {
                    ty matches FieldType::Text(dd) && dd is None
                }
            } else if id@ == "ByteSequence"@ {
                if i + 1 < toks.len() && toks[i + 1].kind is Semi {
                    &&& i + 2 < toks.len()
                    &&& toks[i + 2].kind matches Tok::Bytes(b) && (ty matches FieldType::ByteSeq(
                        dd,
                    ) && dd matches Some(ds) && ds@ == b@)
                } else {
                    ty matches FieldType::ByteSeq(dd) && dd is None
                }
            } else if id@ == "map"@ {
                ty is TextMap
            } else {
                ty matches FieldType::Reference(t2) && t2@ == id@
            },
            _ => false,
        }
    }
}

/// Where the field starting at token `i` ends: a name, an optional `?`,
/// a colon and its type.
pub open spec fn field_end(toks: Seq<Token>, i: int) -> Option<int> {
    if i < 0 || i >= toks.len() || !(toks[i].kind matches Tok::Ident(_)) {
        None
    } else {
        let q: int = if i + 1 < toks.len() && toks[i + 1].kind is Question {
            i + 2
        } else {
            i + 1
        };
        if q < toks.len() && toks[q].kind is Colon {
            type_end(toks, q + 1)
        } else {
            None
        }
    }
}

/// The field starting at token `i` reads as `f`.
pub open spec fn field_parses(toks: Seq<Token>, i: int, f: Field) -> bool {
    if i < 0 || i >= toks.len() {
        false
    } else {
        match toks[i].kind {
            Tok::Ident(nm) => {
                let q: int = if i + 1 < toks.len() && toks[i + 1].kind is Question {
                    i + 2
                } else {
                    i + 1
                };
                &&& f.name@ == nm@
                &&& f.optional == (i + 1 < toks.len() && toks[i + 1].kind is Question)
                &&& q < toks.len() && toks[q].kind is Colon
                &&& type_parses(toks, q + 1, f.ty)
            },
            _ => false,
        }
    }
}

/// Where an exclusive group's brace-delimited field list ends, read from
/// its first field (or closing brace), commas between fields, a trailing
/// comma permitted.
pub open spec fn group_fields_end(toks: Seq<Token>, j: int) -> Option<int>
    decreases toks.len() - j,
{
    if j < 0 || j >= toks.len() {
        None
    } else if toks[j].kind is RBrace {
        Some(j + 1)
    } else {
        match field_end(toks, j) {
            Some(a0) => {
                let a = clamp_pos(j, a0, toks.len() as int);
                if a < toks.len() {
                    match toks[a].kind {
                        Tok::RBrace => Some(a + 1),
                        Tok::Comma => group_fields_end(toks, a + 1),
                        _ => None,
                    }
                } else {
                    None
                }
            },
            None => None,
        }
    }
}

/// The group field list read from `j` is `fs`, in order.
pub open spec fn group_fields_parse(toks: Seq<Token>, j: int, fs: Seq<Field>) -> bool
    decreases toks.len() - j,
{
    if j < 0 || j >= toks.len() {
        false
    } else if toks[j].kind is RBrace {
        fs.len() == 0
    } else {
        &&& fs.len() > 0
        &&& field_parses(toks, j, fs[0])
        &&& match field_end(toks, j) {
            Some(a0) => {
                let a = clamp_pos(j, a0, toks.len() as int);
                if a < toks.len() {
                    match toks[a].kind {
                        Tok::RBrace => fs.len() == 1,
                        Tok::Comma => group_fields_parse(toks, a + 1, fs.drop_first()),
                        _ => false,
                    }
                } else {
                    false
                }
            },
            None => false,
        }
    }
}

/// Where the slot starting at token `i` ends: a standalone field, or the
/// group attribute followed by braced members.
pub open spec fn slot_end(toks: Seq<Token>, i: int) -> Option<int> {
    if i < 0 || i >= toks.len() {
        None
    } else if !(toks[i].kind is Pound) {
        field_end(toks, i)
    } else if toks.len() - i < 5 {
        None
    } else if toks[i + 1].kind is LBracket && (toks[i + 2].kind matches Tok::Ident(a) && a@
        == "exclusive_group"@) && toks[i + 3].kind is RBracket && toks[i + 4].kind is LBrace {
        group_fields_end(toks, i + 5)
    } else {
        None
    }
}

/// The slot starting at token `i` reads as `slot`.
pub open spec fn slot_parses(toks: Seq<Token>, i: int, slot: FieldSlot) -> bool {
    if i < 0 || i >= toks.len() {
        false
    } else if !(toks[i].kind is Pound) {
        slot matches FieldSlot::Single(f) && field_parses(toks, i, f)
    } else if toks.len() - i < 5 {
        false
    } else if toks[i + 1].kind is LBracket && (toks[i + 2].kind matches Tok::Ident(a) && a@
        == "exclusive_group"@) && toks[i + 3].kind is RBracket && toks[i + 4].kind is LBrace {
        slot matches FieldSlot::Group(fs) && group_fields_parse(toks, i + 5, fs@)
    } else {
        false
    }
}

/// Where a record definition's slot list ends, read from its first slot
/// (or closing brace).
pub open spec fn record_slots_end(toks: Seq<Token>, j: int) -> Option<int>
    decreases toks.len() - j,
{
    if j < 0 || j >= toks.len() {
        None
    } else if toks[j].kind is RBrace {
        Some(j + 1)
    } else {
        match slot_end(toks, j) {
            Some(a0) => {
                let a = clamp_pos(j, a0, toks.len() as int);
                if a < toks.len() {
                    match toks[a].kind {
                        Tok::RBrace => Some(a + 1),
                        Tok::Comma => record_slots_end(toks, a + 1),
                        _ => None,
                    }
                } else {
                    None
                }
            },
            None => None,
        }
    }
}

/// The slot list read from `j` is `slots`, in order.
pub open spec fn record_slots_parse(toks: Seq<Token>, j: int, slots: Seq<FieldSlot>) -> bool
    decreases toks.len() - j,
{
    if j < 0 || j >= toks.len() {
        false
    } else if toks[j].kind is RBrace {
        slots.len() == 0
    } else {
        &&& slots.len() > 0
        &&& slot_parses(toks, j, slots[0])
        &&& match slot_end(toks, j) {
            Some(a0) => {
                let a = clamp_pos(j, a0, toks.len() as int);
                if a < toks.len() {
                    match toks[a].kind {
                        Tok::RBrace => slots.len() == 1,
                        Tok::Comma => record_slots_parse(toks, a + 1, slots.drop_first()),
                        _ => false,
                    }
                } else {
                    false
                }
            },
            None => false,
        }
    }
}

/// Where the record definition starting at token `i` ends.
pub open spec fn record_end(toks: Seq<Token>, i: int) -> Option<int> {
    if 0 <= i && i + 1 < toks.len() && (toks[i].kind matches Tok::Ident(_)) && toks[i + 1].kind
        is LBrace {
        record_slots_end(toks, i + 2)
    } else {
        None
    }
}

/// The record definition starting at token `i` reads as `rec`.
pub open spec fn record_parses(toks: Seq<Token>, i: int, rec: RecordSchema) -> bool {
    if 0 <= i && i + 1 < toks.len() && (toks[i].kind matches Tok::Ident(nm) && rec.name@ == nm@)
        && toks[i + 1].kind is LBrace {
        record_slots_parse(toks, i + 2, rec.slots@)
    } else {
        false
    }
}

/// The tokens from `i` on follow the schema grammar: record definitions
/// while an identifier is followed by a brace, then the root name,
/// ending the input.
pub open spec fn schema_ok(toks: Seq<Token>, i: int) -> bool
    decreases toks.len() - i,
{
    if i < 0 {
        false
    } else if i + 1 < toks.len() && toks[i + 1].kind is LBrace {
        match record_end(toks, i) {
            Some(a0) => schema_ok(toks, clamp_pos(i, a0, toks.len() as int)),
            None => false,
        }
    } else {
        0 <= i < toks.len() && (toks[i].kind matches Tok::Ident(_)) && i + 1 == toks.len()
    }
}

/// The tokens from `i` on read as the records `records` followed by the
/// root name `root`.
pub open spec fn schema_parses(
    toks: Seq<Token>,
    i: int,
    records: Seq<RecordSchema>,
    root: String,
) -> bool
    decreases toks.len() - i,
{
    if i < 0 {
        false
    } else if i + 1 < toks.len() && toks[i + 1].kind is LBrace {
        &&& records.len() > 0
        &&& record_parses(toks, i, records[0])
        &&& match record_end(toks, i) {
            Some(a0) => schema_parses(
                toks,
                clamp_pos(i, a0, toks.len() as int),
                records.drop_first(),
                root,
            ),
            None => false,
        }
    } else {
        &&& records.len() == 0
        &&& 0 <= i < toks.len()
        &&& toks[i].kind matches Tok::Ident(nm) && root@ == nm@
        &&& i + 1 == toks.len()
    }
}

/// A successful walk of a path tail never moves backward and stays in
/// range when it starts in range.
pub proof fn lemma_path_tail_progress(toks: Seq<Token>, j: int)
    ensures
        path_tail_end(toks, j) matches Some(e) ==> j <= e && (j <= toks.len() ==> e <= toks.len()),
    decreases toks.len() - j,
{
    if 0 <= j && j + 2 < toks.len() {
        lemma_path_tail_progress(toks, j + 3);
    }
}

/// A successful walk of a variant list always moves forward and stays in
/// range.
pub proof fn lemma_variants_progress(toks: Seq<Token>, j: int)
    ensures
        variants_end(toks, j) matches Some(e) ==> j < e <= toks.len(),
    decreases toks.len() - j,
{
    if 0 <= j && j + 2 <= toks.len() {
        lemma_variants_progress(toks, j + 2);
    }
}

/// A successful walk of a type or field always moves forward and stays
/// in range.
pub proof fn lemma_type_field_progress(toks: Seq<Token>, i: int)
    ensures
        type_end(toks, i) matches Some(e) ==> i < e <= toks.len(),
        field_end(toks, i) matches Some(e) ==> i < e <= toks.len(),
{
    lemma_path_tail_progress(toks, i + 2);
    lemma_path_tail_progress(toks, i + 4);
    if 0 <= i < toks.len() {
        match path_tail_end(toks, i + 2) {
            Some(p2) => {
                lemma_variants_progress(toks, p2 + 1);
            },
            None => {},
        }
        match path_tail_end(toks, i + 4) {
            Some(p2) => {
                lemma_variants_progress(toks, p2 + 1);
            },
            None => {},
        }
        let q: int = if i + 1 < toks.len() && toks[i + 1].kind is Question {
            i + 2
        } else {
            i + 1
        };
        lemma_path_tail_progress(toks, q + 3);
        lemma_path_tail_progress(toks, q + 5);
        match path_tail_end(toks, q + 3) {
            Some(p2) => {
                lemma_variants_progress(toks, p2 + 1);
            },
            None => {},
        }
        match path_tail_end(toks, q + 5) {
            Some(p2) => {
                lemma_variants_progress(toks, p2 + 1);
            },
            None => {},
        }
    }
}

/// A successful walk of a group's field list always moves forward and
/// stays in range.
pub proof fn lemma_group_fields_progress(toks: Seq<Token>, j: int)
    ensures
        group_fields_end(toks, j) matches Some(e) ==> j < e <= toks.len(),
    decreases toks.len() - j,
{
    if 0 <= j < toks.len() && !(toks[j].kind is RBrace) {
        lemma_type_field_progress(toks, j);
        match field_end(toks, j) {
            Some(a0) => {
                let a = clamp_pos(j, a0, toks.len() as int);
                if a + 1 <= toks.len() {
                    lemma_group_fields_progress(toks, a + 1);
                }
            },
            None => {},
        }
    }
}

/// A successful walk of a slot always moves forward and stays in range.
pub proof fn lemma_slot_progress(toks: Seq<Token>, i: int)
    ensures
        slot_end(toks, i) matches Some(e) ==> i < e <= toks.len(),
{
    lemma_type_field_progress(toks, i);
    lemma_group_fields_progress(toks, i + 5);
}

/// A successful walk of a record's slot list, or of a whole record
/// definition, always moves forward and stays in range.
pub proof fn lemma_record_progress(toks: Seq<Token>, j: int)
    ensures
        record_slots_end(toks, j) matches Some(e) ==> j < e <= toks.len(),
        record_end(toks, j) matches Some(e) ==> j < e <= toks.len(),
    decreases toks.len() - j,
{
    if 0 <= j < toks.len() && !(toks[j].kind is RBrace) {
        lemma_slot_progress(toks, j);
        match slot_end(toks, j) {
            Some(a0) => {
                let a = clamp_pos(j, a0, toks.len() as int);
                if a + 1 <= toks.len() {
                    lemma_record_progress(toks, a + 1);
                }
            },
            None => {},
        }
    }
    if j + 2 <= toks.len() {
        lemma_record_progress(toks, j + 2);
    }
}

/// Whether the identifier reads as the given keyword.
fn kw(s: &String, k: &str) -> (r: bool)
    ensures
        r == (s@ == k@),
{
    let other = String::from_str(k);
    *s == other
}

/// Parses a field type starting at token `i`: `Text`, `ByteSequence` or
/// `map`, an enumeration with its path, variant list and optional
/// default variant, or a bare record name as a reference; a default
/// literal after `;` is taken along for text and byte-sequence types.
/// Succeeds exactly when a type of the grammar starts there, and then
/// returns exactly that type and its end.
fn parse_type(toks: &Vec<Token>, i: usize) -> (r: Result<(FieldType, usize), SchemaDefError>)
    requires
        i <= toks@.len(),
    ensures
        r matches Ok(p) ==> i < p.1 <= toks@.len(),
        r is Ok <==> type_end(toks@, i as int) is Some,
        r matches Ok(p) ==> type_end(toks@, i as int) == Some(p.1 as int) && type_parses(
            toks@,
            i as int,
            p.0,
        ),
{
    let n = toks.len();
    if i >= n {
        return Err(SchemaDefError::MalformedDefinition(0));
    }
    let id = match &toks[i].kind {
        Tok::Ident(id) => id,
        _ => {
            return Err(SchemaDefError::MalformedDefinition(toks[i].pos));
        },
    };
    if kw(id, "enum") {
        // the path naming the host language's enumeration type is
        // grammar only: the variant set is what the model keeps
        let mut j: usize = i + 1;
        if j < n && matches!(&toks[j].kind, Tok::Colon) {
            if j + 1 < n && matches!(&toks[j + 1].kind, Tok::Colon) {
                j += 2;
            } else {
                return Err(SchemaDefError::MalformedDefinition(toks[j].pos));
            }
        }
        let ghost p1 = j as int;
        if j >= n || !matches!(&toks[j].kind, Tok::Ident(_)) {
            return Err(SchemaDefError::MalformedDefinition(if j < n {
                toks[j].pos
            } else {
                0
            }));
        }
        j += 1;
        while j < n && n - j >= 2 && matches!(&toks[j].kind, Tok::Colon) && matches!(
            &toks[j + 1].kind,
            Tok::Colon,
        )
            invariant
                n == toks@.len(),
                i < j <= n,
                i < p1 < j,
                toks@[i as int].kind matches Tok::Ident(idv) && idv@ == "enum"@,
                (p1 == i + 1 || p1 == i + 3),
                p1 == i + 3 ==> i + 2 < n && toks@[i + 1].kind is Colon && toks@[i
                    + 2].kind is Colon,
                p1 == i + 1 ==> !(i + 1 < n && toks@[i + 1].kind is Colon),
                p1 < n && toks@[p1].kind matches Tok::Ident(_),
                path_tail_end(toks@, p1 + 1) == path_tail_end(toks@, j as int),
            decreases n - j,
        {
            if j + 2 < n && matches!(&toks[j + 2].kind, Tok::Ident(_)) {
                j += 3;
            } else {
                assert(path_tail_end(toks@, j as int) is None);
                return Err(SchemaDefError::MalformedDefinition(toks[j].pos));
            }
        }
        proof {
            assert(path_tail_end(toks@, j as int) == Some(j as int));
        }
        if j >= n || !matches!(&toks[j].kind, Tok::LBracket) {
            return Err(SchemaDefError::MalformedDefinition(if j < n {
                toks[j].pos
            } else {
                0
            }));
        }
        let ghost p2 = j as int;
        j += 1;
        let ghost v0 = j as int;
        let mut vars: Vec<String> = Vec::new();
        proof {
            assert forall|vs: Seq<String>, d: Option<String>| #[trigger] variants_parse(
                toks@,
                v0,
                vs,
                d,
            ) implies variants_parse(toks@, v0, vars@ + vs, d) by {
                assert(vars@ + vs =~= vs);
            }
        }
        loop
            invariant
                n == toks@.len(),
                i < v0 <= j <= n,
                p2 == v0 - 1,
                i < p1 < p2,
                toks@[i as int].kind matches Tok::Ident(idv) && idv@ == "enum"@,
                (p1 == i + 1 || p1 == i + 3),
                p1 == i + 3 ==> i + 2 < n && toks@[i + 1].kind is Colon && toks@[i
                    + 2].kind is Colon,
                p1 == i + 1 ==> !(i + 1 < n && toks@[i + 1].kind is Colon),
                p1 < n && toks@[p1].kind matches Tok::Ident(_),
                path_tail_end(toks@, p1 + 1) == Some(p2),
                toks@[p2].kind is LBracket,
                variants_end(toks@, v0) == variants_end(toks@, j as int),
                forall|vs: Seq<String>, d: Option<String>| #[trigger] variants_parse(
                    toks@,
                    j as int,
                    vs,
                    d,
                ) ==> variants_parse(toks@, v0, vars@ + vs, d),
            decreases n - j,
        {
            let ghost jid = j as int;
            let ghost vars_old = vars@;
            if j >= n {
                return Err(SchemaDefError::MalformedDefinition(0));
            }
            match &toks[j].kind {
                Tok::Ident(v) => {
                    vars.push(v.clone());
                    j += 1;
                },
                _ => {
                    return Err(SchemaDefError::MalformedDefinition(toks[j].pos));
                },
            }
            if j >= n {
                assert(variants_end(toks@, jid) is None);
                return Err(SchemaDefError::MalformedDefinition(0));
            }
            match &toks[j].kind {
                Tok::Comma => {
                    proof {
                        assert forall|vs: Seq<String>, d: Option<String>| #[trigger] variants_parse(
                            toks@,
                            jid + 2,
                            vs,
                            d,
                        ) implies variants_parse(toks@, v0, vars@ + vs, d) by {
                            let withv = seq![vars@.last()] + vs;
                            assert(withv[0] == vars@.last());
                            assert(withv.drop_first() =~= vs);
                            assert(variants_parse(toks@, jid, withv, d));
                            assert(variants_parse(toks@, v0, vars_old + withv, d));
                            assert(vars@ + vs =~= vars_old + withv);
                        }
                    }
                    j += 1;
                },
                Tok::Semi => {
                    if j + 1 < n {
                        match &toks[j + 1].kind {
                            Tok::Ident(d) => {
                                if j + 2 < n && matches!(&toks[j + 2].kind, Tok::RBracket) {
                                    let dv = d.clone();
                                    proof {
                                        assert(variants_parse(
                                            toks@,
                                            jid,
                                            seq![vars@.last()],
                                            Some(dv),
                                        ));
                                        assert(variants_parse(
                                            toks@,
                                            v0,
                                            vars_old + seq![vars@.last()],
                                            Some(dv),
                                        ));
                                        assert(vars@ =~= vars_old + seq![vars@.last()]);
                                        assert(variants_end(toks@, jid) == Some(jid + 4));
                                    }
                                    return Ok((FieldType::Enumeration(vars, Some(dv)), j + 3));
                                }
                                assert(variants_end(toks@, jid) is None);
                                return Err(SchemaDefError::MalformedDefinition(toks[j].pos));
                            },
                            _ => {
                                assert(variants_end(toks@, jid) is None);
                                return Err(SchemaDefError::MalformedDefinition(toks[j + 1].pos));
                            },
                        }
                    } else {
                        assert(variants_end(toks@, jid) is None);
                        return Err(SchemaDefError::MalformedDefinition(toks[j].pos));
                    }
                },
                Tok::RBracket => {
                    proof {
                        assert(variants_parse(
                            toks@,
                            jid,
                            seq![vars@.last()],
                            Option::<String>::None,
                        ));
                        assert(variants_parse(
                            toks@,
                            v0,
                            vars_old + seq![vars@.last()],
                            Option::<String>::None,
                        ));
                        assert(vars@ =~= vars_old + seq![vars@.last()]);
                        assert(variants_end(toks@, jid) == Some(jid + 2));
                    }
                    return Ok((FieldType::Enumeration(vars, None), j + 1));
                },
                _ => {
                    assert(variants_end(toks@, jid) is None);
                    return Err(SchemaDefError::MalformedDefinition(toks[j].pos));
                },
            }
        }
    } else if kw(id, "Text") {
        if i + 1 < n && matches!(&toks[i + 1].kind, Tok::Semi) {
            if i + 2 < n {
                match &toks[i + 2].kind {
                    Tok::Text(d) => {
                        return Ok((FieldType::Text(Some(d.clone())), i + 3));
                    },
                    _ => {
                        return Err(SchemaDefError::MalformedDefinition(toks[i + 2].pos));
                    },
                }
            }
            return Err(SchemaDefError::MalformedDefinition(toks[i + 1].pos));
        }
        Ok((FieldType::Text(None), i + 1))
    } else if kw(id, "ByteSequence") {
        if i + 1 < n && matches!(&toks[i + 1].kind, Tok::Semi) {
            if i + 2 < n {
                match &toks[i + 2].kind {
                    Tok::Bytes(d) => {
                        return Ok((FieldType::ByteSeq(Some(d.clone())), i + 3));
                    },
                    _ => {
                        return Err(SchemaDefError::MalformedDefinition(toks[i + 2].pos));
                    },
                }
            }
            return Err(SchemaDefError::MalformedDefinition(toks[i + 1].pos));
        }
        Ok((FieldType::ByteSeq(None), i + 1))
    } else if kw(id, "map") {
        Ok((FieldType::TextMap, i + 1))
    } else {
        Ok((FieldType::Reference(id.clone()), i + 1))
    }
}

/// Parses one field starting at token `i`: a name, an optional `?`, a
/// colon, and the field's type with its default if one is declared.
/// Succeeds exactly when a field of the grammar starts there, and then
/// returns exactly that field and its end.
fn parse_field(toks: &Vec<Token>, i: usize) -> (r: Result<(Field, usize), SchemaDefError>)
    requires
        i <= toks@.len(),
    ensures
        r matches Ok(p) ==> i < p.1 <= toks@.len(),
        r is Ok <==> field_end(toks@, i as int) is Some,
        r matches Ok(p) ==> field_end(toks@, i as int) == Some(p.1 as int) && field_parses(
            toks@,
            i as int,
            p.0,
        ),
{
    let n = toks.len();
    if i >= n {
        return Err(SchemaDefError::MalformedDefinition(0));
    }
    let name = match &toks[i].kind {
        Tok::Ident(name) => name.clone(),
        _ => {
            return Err(SchemaDefError::MalformedDefinition(toks[i].pos));
        },
    };
    let mut j: usize = i + 1;
    let mut optional = false;
    if j < n && matches!(&toks[j].kind, Tok::Question) {
        optional = true;
        j += 1;
    }
    if j >= n || !matches!(&toks[j].kind, Tok::Colon) {
        return Err(SchemaDefError::MalformedDefinition(if j < n {
            toks[j].pos
        } else {
            0
        }));
    }
    let (ty, after) = match parse_type(toks, j + 1) {
        Ok(p) => p,
        Err(e) => {
            return Err(e);
        },
    };
    Ok((Field { name, ty, optional }, after))
}

/// Parses one slot starting at token `i`: a standalone field, or an
/// exclusive group written `#[exclusive_group] { ... }`. Succeeds
/// exactly when a slot of the grammar starts there, and then returns
/// exactly that slot and its end.
fn parse_slot(toks: &Vec<Token>, i: usize) -> (r: Result<(FieldSlot, usize), SchemaDefError>)
    requires
        i <= toks@.len(),
    ensures
        r matches Ok(p) ==> i < p.1 <= toks@.len(),
        r is Ok <==> slot_end(toks@, i as int) is Some,
        r matches Ok(p) ==> slot_end(toks@, i as int) == Some(p.1 as int) && slot_parses(
            toks@,
            i as int,
            p.0,
        ),
{
    let n = toks.len();
    if i >= n {
        return Err(SchemaDefError::MalformedDefinition(0));
    }
    if !matches!(&toks[i].kind, Tok::Pound) {
        let (f, after) = match parse_field(toks, i) {
            Ok(p) => p,
            Err(e) => {
                return Err(e);
            },
        };
        return Ok((FieldSlot::Single(f), after));
    }
    if n - i < 5 {
        return Err(SchemaDefError::MalformedDefinition(toks[i].pos));
    }
    if !matches!(&toks[i + 1].kind, Tok::LBracket) {
        return Err(SchemaDefError::MalformedDefinition(toks[i + 1].pos));
    }
    match &toks[i + 2].kind {
        Tok::Ident(a) => {
            if !kw(a, "exclusive_group") {
                return Err(SchemaDefError::MalformedDefinition(toks[i + 2].pos));
            }
        },
        _ => {
            return Err(SchemaDefError::MalformedDefinition(toks[i + 2].pos));
        },
    }
    if !matches!(&toks[i + 3].kind, Tok::RBracket) {
        return Err(SchemaDefError::MalformedDefinition(toks[i + 3].pos));
    }
    let mut j: usize = i + 4;
    if j >= n || !matches!(&toks[j].kind, Tok::LBrace) {
        return Err(SchemaDefError::MalformedDefinition(if j < n {
            toks[j].pos
        } else {
            0
        }));
    }
    j += 1;
    let ghost g0 = j as int;
    let mut fields: Vec<Field> = Vec::new();
    proof {
        assert forall|rest: Seq<Field>| #[trigger] group_fields_parse(
            toks@,
            g0,
            rest,
        ) implies group_fields_parse(toks@, g0, fields@ + rest) by {
            assert(fields@ + rest =~= rest);
        }
    }
    loop
        invariant
            n == toks@.len(),
            i < g0 <= j <= n,
            g0 == i + 5,
            toks@[i as int].kind is Pound,
            n - i >= 5,
            toks@[i + 1].kind is LBracket,
            toks@[i + 2].kind matches Tok::Ident(a) && a@ == "exclusive_group"@,
            toks@[i + 3].kind is RBracket,
            toks@[i + 4].kind is LBrace,
            group_fields_end(toks@, g0) == group_fields_end(toks@, j as int),
            forall|rest: Seq<Field>| #[trigger] group_fields_parse(toks@, j as int, rest)
                ==> group_fields_parse(toks@, g0, fields@ + rest),
        decreases n - j,
    {
        let ghost j_old = j as int;
        let ghost fields_old = fields@;
        if j >= n {
            return Err(SchemaDefError::MalformedDefinition(0));
        }
        if matches!(&toks[j].kind, Tok::RBrace) {
            proof {
                assert(group_fields_parse(toks@, j_old, Seq::<Field>::empty()));
                assert(group_fields_parse(toks@, g0, fields@ + Seq::<Field>::empty()));
                assert(fields@ + Seq::<Field>::empty() =~= fields@);
            }
            return Ok((FieldSlot::Group(fields), j + 1));
        }
        let (f, after) = match parse_field(toks, j) {
            Ok(p) => p,
            Err(e) => {
                return Err(e);
            },
        };
        proof {
            lemma_type_field_progress(toks@, j_old);
            assert(clamp_pos(j_old, after as int, toks@.len() as int) == after as int);
        }
        let ghost fv = f;
        fields.push(f);
        if after >= n {
            return Err(SchemaDefError::MalformedDefinition(0));
        }
        match &toks[after].kind {
            Tok::RBrace => {
                proof {
                    assert(group_fields_parse(toks@, j_old, seq![fv]));
                    assert(group_fields_parse(toks@, g0, fields_old + seq![fv]));
                    assert(fields@ =~= fields_old + seq![fv]);
                }
                return Ok((FieldSlot::Group(fields), after + 1));
            },
            Tok::Comma => {
                proof {
                    assert forall|rest: Seq<Field>| #[trigger] group_fields_parse(
                        toks@,
                        after + 1,
                        rest,
                    ) implies group_fields_parse(toks@, g0, fields@ + rest) by {
                        let withf = seq![fv] + rest;
                        assert(withf[0] == fv);
                        assert(withf.drop_first() =~= rest);
                        assert(group_fields_parse(toks@, j_old, withf));
                        assert(group_fields_parse(toks@, g0, fields_old + withf));
                        assert(fields@ + rest =~= fields_old + withf);
                    }
                }
                j = after + 1;
            },
            _ => {
                return Err(SchemaDefError::MalformedDefinition(toks[after].pos));
            },
        }
    }
}

/// Parses one record definition starting at token `i`: its name and its
/// brace-delimited, comma-separated slots, a trailing comma permitted.
/// Succeeds exactly when a record definition of the grammar starts
/// there, and then returns exactly that record and its end.
fn parse_record_def(toks: &Vec<Token>, i: usize) -> (r: Result<
    (RecordSchema, usize),
    SchemaDefError,
>)
    requires
        i <= toks@.len(),
    ensures
        r matches Ok(p) ==> i < p.1 <= toks@.len(),
        r is Ok <==> record_end(toks@, i as int) is Some,
        r matches Ok(p) ==> record_end(toks@, i as int) == Some(p.1 as int) && record_parses(
            toks@,
            i as int,
            p.0,
        ),
{
    let n = toks.len();
    if i >= n {
        return Err(SchemaDefError::MalformedDefinition(0));
    }
    let name = match &toks[i].kind {
        Tok::Ident(name) => name.clone(),
        _ => {
            return Err(SchemaDefError::MalformedDefinition(toks[i].pos));
        },
    };
    if i + 1 >= n || !matches!(&toks[i + 1].kind, Tok::LBrace) {
        return Err(SchemaDefError::MalformedDefinition(toks[i].pos));
    }
    let mut j: usize = i + 2;
    let ghost s0 = j as int;
    let mut slots: Vec<FieldSlot> = Vec::new();
    proof {
        assert forall|rest: Seq<FieldSlot>| #[trigger] record_slots_parse(
            toks@,
            s0,
            rest,
        ) implies record_slots_parse(toks@, s0, slots@ + rest) by {
            assert(slots@ + rest =~= rest);
        }
    }
    loop
        invariant
            n == toks@.len(),
            i < s0 <= j <= n,
            s0 == i + 2,
            i + 1 < n,
            toks@[i as int].kind matches Tok::Ident(nm) && nm@ == name@,
            toks@[i + 1].kind is LBrace,
            record_slots_end(toks@, s0) == record_slots_end(toks@, j as int),
            forall|rest: Seq<FieldSlot>| #[trigger] record_slots_parse(toks@, j as int, rest)
                ==> record_slots_parse(toks@, s0, slots@ + rest),
        decreases n - j,
    {
        let ghost j_old = j as int;
        let ghost slots_old = slots@;
        if j >= n {
            return Err(SchemaDefError::MalformedDefinition(0));
        }
        if matches!(&toks[j].kind, Tok::RBrace) {
            proof {
                assert(record_slots_parse(toks@, j_old, Seq::<FieldSlot>::empty()));
                assert(record_slots_parse(toks@, s0, slots@ + Seq::<FieldSlot>::empty()));
                assert(slots@ + Seq::<FieldSlot>::empty() =~= slots@);
            }
            return Ok((RecordSchema { name, slots }, j + 1));
        }
        let (slot, after) = match parse_slot(toks, j) {
            Ok(p) => p,
            Err(e) => {
                return Err(e);
            },
        };
        proof {
            lemma_slot_progress(toks@, j_old);
            assert(clamp_pos(j_old, after as int, toks@.len() as int) == after as int);
        }
        let ghost sv = slot;
        slots.push(slot);
        if after >= n {
            return Err(SchemaDefError::MalformedDefinition(0));
        }
        match &toks[after].kind {
            Tok::RBrace => {
                proof {
                    assert(record_slots_parse(toks@, j_old, seq![sv]));
                    assert(record_slots_parse(toks@, s0, slots_old + seq![sv]));
                    assert(slots@ =~= slots_old + seq![sv]);
                }
                return Ok((RecordSchema { name, slots }, after + 1));
            },
            Tok::Comma => {
                proof {
                    assert forall|rest: Seq<FieldSlot>| #[trigger] record_slots_parse(
                        toks@,
                        after + 1,
                        rest,
                    ) implies record_slots_parse(toks@, s0, slots@ + rest) by {
                        let withs = seq![sv] + rest;
                        assert(withs[0] == sv);
                        assert(withs.drop_first() =~= rest);
                        assert(record_slots_parse(toks@, j_old, withs));
                        assert(record_slots_parse(toks@, s0, slots_old + withs));
                        assert(slots@ + rest =~= slots_old + withs);
                    }
                }
                j = after + 1;
            },
            _ => {
                return Err(SchemaDefError::MalformedDefinition(toks[after].pos));
            },
        }
    }
}

/// Parses a whole token sequence as a schema set: record definitions
/// followed by the root record's name, which must end the input.
/// Succeeds exactly when the tokens derive a schema of the definition
/// grammar, and then returns exactly the denoted set, records in input
/// order.
pub fn parse_schema_tokens(toks: &Vec<Token>) -> (r: Result<SchemaSet, SchemaDefError>)
    ensures
        r is Ok <==> schema_ok(toks@, 0),
        r matches Ok(set) ==> schema_parses(toks@, 0, set.records@, set.root),
{
    let n = toks.len();
    let mut records: Vec<RecordSchema> = Vec::new();
    proof {
        assert forall|rs: Seq<RecordSchema>, rt: String| #[trigger] schema_parses(
            toks@,
            0,
            rs,
            rt,
        ) implies schema_parses(toks@, 0, records@ + rs, rt) by {
            assert(records@ + rs =~= rs);
        }
    }
    let mut i: usize = 0;
    while i < n && n - i >= 2 && matches!(&toks[i + 1].kind, Tok::LBrace)
        invariant
            n == toks@.len(),
            i <= n,
            schema_ok(toks@, 0) == schema_ok(toks@, i as int),
            forall|rs: Seq<RecordSchema>, rt: String| #[trigger] schema_parses(
                toks@,
                i as int,
                rs,
                rt,
            ) ==> schema_parses(toks@, 0, records@ + rs, rt),
        decreases n - i,
    {
        let ghost i_old = i as int;
        let ghost records_old = records@;
        let (rec, after) = match parse_record_def(toks, i) {
            Ok(p) => p,
            Err(e) => {
                assert(!schema_ok(toks@, i_old));
                return Err(e);
            },
        };
        proof {
            lemma_record_progress(toks@, i_old);
            assert(clamp_pos(i_old, after as int, toks@.len() as int) == after as int);
        }
        let ghost rv = rec;
        records.push(rec);
        proof {
            assert forall|rs: Seq<RecordSchema>, rt: String| #[trigger] schema_parses(
                toks@,
                after as int,
                rs,
                rt,
            ) implies schema_parses(toks@, 0, records@ + rs, rt) by {
                let withr = seq![rv] + rs;
                assert(withr[0] == rv);
                assert(withr.drop_first() =~= rs);
                assert(schema_parses(toks@, i_old, withr, rt));
                assert(schema_parses(toks@, 0, records_old + withr, rt));
                assert(records@ + rs =~= records_old + withr);
            }
        }
        i = after;
    }
    if i >= n {
        return Err(SchemaDefError::MalformedDefinition(0));
    }
    let root = match &toks[i].kind {
        Tok::Ident(root) => root.clone(),
        _ => {
            return Err(SchemaDefError::MalformedDefinition(toks[i].pos));
        },
    };
    if i + 1 != n {
        return Err(SchemaDefError::MalformedDefinition(toks[i + 1].pos));
    }
    proof {
        assert(schema_parses(toks@, i as int, Seq::<RecordSchema>::empty(), root));
        assert(schema_parses(toks@, 0, records@ + Seq::<RecordSchema>::empty(), root));
        assert(records@ + Seq::<RecordSchema>::empty() =~= records@);
    }
    Ok(SchemaSet { records, root })
}

} // verus!
