//! The structured-literal tree: the shape a literal has after tokens are
//! grouped, before any schema is consulted, and the runtime parse errors.
use vstd::prelude::*;

verus! {

/// One parsed literal value, with the character position of its first
/// token in the source text.
#[derive(Debug)]
pub struct Lit {
    pub pos: usize,
    pub kind: LitKind,
}

/// The kinds of literal value: quoted text, a byte sequence, a bare
/// identifier, or a brace-delimited pair list (a record or map literal).
#[derive(Debug)]
pub enum LitKind {
    LText(String),
    LBytes(Vec<u8>),
    LIdent(String),
    LRec(Vec<LitPair>),
}

/// One `name: value` pair of a record or map literal, with the position
/// of its name token.
#[derive(Debug)]
pub struct LitPair {
    pub name: String,
    pub name_pos: usize,
    pub value: Lit,
}

/// A runtime parse error: what went wrong and the character position of
/// the offending token; a field or group found missing at the end of the
/// input is reported at the literal's opening position.
#[derive(Debug)]
pub struct ParseError {
    pub pos: usize,
    pub kind: ParseErrorKind,
}

/// The ways a literal can fail against a schema, plus `MalformedLiteral`
/// for text or shapes that do not follow the literal grammar at all.
#[derive(Debug)]
pub enum ParseErrorKind {
    /// The named field is not declared by the record being parsed.
    UnknownField(String),
    /// The named standalone field was supplied more than once.
    DuplicateField(String),
    /// Two supplies landed in one exclusive group: the group's member
    /// names, the first choice, and the later field (the same name twice
    /// also conflicts).
    GroupConflict(Vec<String>, String, String),
    /// A required field was never supplied.
    MissingField(String),
    /// An exclusive group (these are its member names) got no member.
    MissingGroupChoice(Vec<String>),
    /// The identifier is not one of the declared variants (listed).
    InvalidVariant(String, Vec<String>),
    /// The input does not follow the literal grammar, or a value has the
    /// wrong shape for its field's type.
    MalformedLiteral,
}

/// The given names joined with commas.
fn join_names(names: &Vec<String>) -> (r: String) {
    let mut out = String::new();
    let mut i: usize = 0;
    while i < names.len()
        decreases names@.len() - i,
    {
        if i > 0 {
            out.append(", ");
        }
        out.append(names[i].as_str());
        i += 1;
    }
    out
}

impl ParseErrorKind {
    /// A short human-readable account of what went wrong.
    pub fn message(&self) -> (r: String) {
        match self {
            ParseErrorKind::UnknownField(n) => {
                let mut m = String::from_str("unexpected field: ");
                m.append(n.as_str());
                m
            },
            ParseErrorKind::DuplicateField(n) => {
                let mut m = String::from_str("duplicate field: ");
                m.append(n.as_str());
                m
            },
            ParseErrorKind::GroupConflict(members, first, second) => {
                let mut m = String::from_str("there can only be one of ");
                m.append(join_names(members).as_str());
                m.append(": ");
                m.append(first.as_str());
                m.append(" conflicts with ");
                m.append(second.as_str());
                m
            },
            ParseErrorKind::MissingField(n) => {
                let mut m = String::from_str(n.as_str());
                m.append(" is a required field");
                m
            },
            ParseErrorKind::MissingGroupChoice(members) => {
                let mut m = String::from_str("exactly one of ");
                m.append(join_names(members).as_str());
                m.append(" is required");
                m
            },
            ParseErrorKind::InvalidVariant(got, allowed) => {
                let mut m = String::from_str(got.as_str());
                m.append(" must be one of the following: ");
                m.append(join_names(allowed).as_str());
                m
            },
            ParseErrorKind::MalformedLiteral => String::from_str(
                "the input does not follow the literal grammar",
            ),
        }
    }
}

impl ParseError {
    /// A short human-readable account of the error.
    pub fn message(&self) -> (r: String) {
        self.kind.message()
    }
}

} // verus!
