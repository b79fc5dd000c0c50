//! A schema-driven parser for a small structured-literal language.
//!
//! A schema set declares named record shapes: ordered fields, each with a
//! type (text, byte sequence, reference to another record, enumeration, or
//! text-to-text map) and an optionality mode (required, optional, or
//! defaulted), with fields optionally grouped into exclusive groups of
//! which exactly one member must be supplied. The set is validated once;
//! a generic recursive-descent engine then parses brace-delimited,
//! comma-separated, order-independent literals against it, producing a
//! fully resolved typed instance or a precise diagnostic.
use vstd::prelude::*;

pub mod canon;
pub mod instance;
pub mod lit_parse;
pub mod literal;
pub mod resolve;
pub mod schema;
pub mod schema_parse;
pub mod token;
pub mod wf;

use crate::instance::{inst_v, RecordInstance};
use crate::lit_parse::{literal_tokens_ok, literal_tree_of, parse_literal_tokens};
use crate::literal::{Lit, ParseError};
use crate::resolve::{conv_record, literal_good, parse_err_pinned, resolve_record};
use crate::schema::{def_err_justified, has_record, schemas_ok, validate, SchemaDefError, SchemaSet};
use crate::schema_parse::{parse_schema_tokens, schema_ok, schema_parses};
use crate::token::{lex_accepts, lexes, tokenize, Token};
use crate::wf::inst_wf;

verus! {

/// Defines a schema set from its textual description: the definition
/// grammar is parsed and the definition-time rules are checked. Any
/// offence aborts the whole definition: a returned set is valid and is
/// exactly the set the text denotes, while a failed definition always
/// exhibits a fault — text outside the lexical grammar, tokens outside
/// the definition grammar, or a denoted set that breaks a definition
/// rule, with the error justified by that set.
pub fn define_schemas(text: &str) -> (r: Result<SchemaSet, SchemaDefError>)
    ensures
        r matches Ok(set) ==> schemas_ok(set),
        r matches Ok(set) ==> exists|toks: Vec<Token>|
            #![trigger lexes(text@, 0, toks@)]
            {
                &&& lexes(text@, 0, toks@)
                &&& schema_ok(toks@, 0)
                &&& schema_parses(toks@, 0, set.records@, set.root)
            },
        r matches Err(e) ==> {
            ||| !lex_accepts(text@, 0)
            ||| exists|toks: Vec<Token>|
                #![trigger lexes(text@, 0, toks@)]
                lexes(text@, 0, toks@) && !schema_ok(toks@, 0)
            ||| exists|toks: Vec<Token>, s2: SchemaSet|
                #![trigger lexes(text@, 0, toks@), def_err_justified(s2, e)]
                {
                    &&& lexes(text@, 0, toks@)
                    &&& schema_ok(toks@, 0)
                    &&& schema_parses(toks@, 0, s2.records@, s2.root)
                    &&& !schemas_ok(s2)
                    &&& def_err_justified(s2, e)
                }
        },
{
    let toks = match tokenize(text) {
        Ok(t) => t,
        Err(e) => {
            return Err(SchemaDefError::MalformedDefinition(e.pos));
        },
    };
    let set = match parse_schema_tokens(&toks) {
        Ok(s) => s,
        Err(e) => {
            assert(lexes(text@, 0, toks@) && !schema_ok(toks@, 0));
            return Err(e);
        },
    };
    match validate(&set) {
        Ok(()) => {
            proof {
                assert(lexes(text@, 0, toks@) && schema_parses(toks@, 0, set.records@, set.root));
            }
            Ok(set)
        },
        Err(e) => {
            proof {
                assert(lexes(text@, 0, toks@) && def_err_justified(set, e));
            }
            Err(e)
        },
    }
}

/// Parses literal text against record `rn` of a valid schema set: the
/// text is tokenized, grouped by the literal grammar, and resolved by
/// the record's parsing protocol. A successful parse returns the
/// instance the text denotes, well formed; a failed parse always
/// exhibits a fault: text outside the lexical grammar, tokens outside
/// the literal grammar, or a literal that is not good for the record,
/// with the error pinned to that fault.
pub fn parse_record_text(set: &SchemaSet, rn: &String, text: &str) -> (r: Result<
    RecordInstance,
    ParseError,
>)
    requires
        schemas_ok(*set),
        has_record(*set, rn@),
    ensures
        r matches Ok(inst) ==> inst_wf(*set, rn@, inst),
        r matches Ok(inst) ==> exists|toks: Vec<Token>, l: Lit|
            #![trigger lexes(text@, 0, toks@), literal_good(*set, rn@, l)]
            {
                &&& lexes(text@, 0, toks@)
                &&& literal_tokens_ok(toks@)
                &&& literal_tree_of(toks@, l)
                &&& literal_good(*set, rn@, l)
                &&& inst_v(inst) == conv_record(*set, rn@, l)
            },
        r matches Err(e) ==> {
            ||| !lex_accepts(text@, 0)
            ||| exists|toks: Vec<Token>|
                #![trigger lexes(text@, 0, toks@)]
                lexes(text@, 0, toks@) && !literal_tokens_ok(toks@)
            ||| exists|toks: Vec<Token>, l: Lit|
                #![trigger lexes(text@, 0, toks@), literal_good(*set, rn@, l)]
                {
                    &&& lexes(text@, 0, toks@)
                    &&& literal_tokens_ok(toks@)
                    &&& literal_tree_of(toks@, l)
                    &&& !literal_good(*set, rn@, l)
                    &&& parse_err_pinned(*set, rn@, l, e)
                }
        },
{
    let toks = match tokenize(text) {
        Ok(t) => t,
        Err(e) => {
            return Err(e);
        },
    };
    let lit = match parse_literal_tokens(&toks) {
        Ok(l) => l,
        Err(e) => {
            assert(lexes(text@, 0, toks@) && !literal_tokens_ok(toks@));
            return Err(e);
        },
    };
    let res = resolve_record(set, rn, &lit);
    proof {
        if res is Ok {
            assert(lexes(text@, 0, toks@) && literal_good(*set, rn@, lit));
        } else {
            assert(lexes(text@, 0, toks@) && !literal_good(*set, rn@, lit));
        }
    }
    res
}

/// Parses literal text against the set's root record.
pub fn parse_root_text(set: &SchemaSet, text: &str) -> (r: Result<RecordInstance, ParseError>)
    requires
        schemas_ok(*set),
    ensures
        r matches Ok(inst) ==> inst_wf(*set, set.root@, inst),
        r matches Ok(inst) ==> exists|toks: Vec<Token>, l: Lit|
            #![trigger lexes(text@, 0, toks@), literal_good(*set, set.root@, l)]
            {
                &&& lexes(text@, 0, toks@)
                &&& literal_tokens_ok(toks@)
                &&& literal_tree_of(toks@, l)
                &&& literal_good(*set, set.root@, l)
                &&& inst_v(inst) == conv_record(*set, set.root@, l)
            },
        r matches Err(e) ==> {
            ||| !lex_accepts(text@, 0)
            ||| exists|toks: Vec<Token>|
                #![trigger lexes(text@, 0, toks@)]
                lexes(text@, 0, toks@) && !literal_tokens_ok(toks@)
            ||| exists|toks: Vec<Token>, l: Lit|
                #![trigger lexes(text@, 0, toks@), literal_good(*set, set.root@, l)]
                {
                    &&& lexes(text@, 0, toks@)
                    &&& literal_tokens_ok(toks@)
                    &&& literal_tree_of(toks@, l)
                    &&& !literal_good(*set, set.root@, l)
                    &&& parse_err_pinned(*set, set.root@, l, e)
                }
        },
{
    let root = set.root.clone();
    parse_record_text(set, &root, text)
}

} // verus!
