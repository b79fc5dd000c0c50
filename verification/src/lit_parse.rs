//! The literal grammar over tokens: a brace-delimited, comma-separated
//! pair list with a trailing comma permitted, values being quoted text,
//! byte literals, bare identifiers, or nested pair lists. Nesting is
//! bounded by a defensive ceiling, since the grammar itself has none.
use vstd::prelude::*;

use crate::literal::{Lit, LitKind, LitPair, ParseError, ParseErrorKind};
use crate::token::{clamp_pos, Tok, Token};

verus! {

/// The deepest nesting of brace literals a parse will follow.
pub const MAX_NESTING: usize = 128;

/// Where the value starting at token `i` ends (one past its last
/// token), or nothing when no value of the literal grammar starts
/// there within the allowed nesting.
pub open spec fn value_end(toks: Seq<Token>, i: int, depth: int) -> Option<int>
    decreases toks.len() - i, 1int,
{
    if i < 0 || i >= toks.len() {
        None
    } else {
        match toks[i].kind {
            Tok::Text(_) => Some(i + 1),
            Tok::Bytes(_) => Some(i + 1),
            Tok::Ident(_) => Some(i + 1),
            Tok::LBrace => if depth > 0 {
                pairs_end(toks, i + 1, depth - 1)
            } else {
                None
            },
            _ => None,
        }
    }
}

/// Where the pair list that continues at token `j` (just after its
/// opening brace, or after a comma) ends, or nothing when the tokens do
/// not follow the pair grammar: `name ':' value`, separated by commas, a
/// trailing comma permitted, closed by a brace.
pub open spec fn pairs_end(toks: Seq<Token>, j: int, depth: int) -> Option<int>
    decreases toks.len() - j, 0int,
{
    if j < 0 || j >= toks.len() {
        None
    } else {
        match toks[j].kind {
            Tok::RBrace => Some(j + 1),
            Tok::Ident(_) => {
                if j + 1 < toks.len() && toks[j + 1].kind is Colon {
                    match value_end(toks, j + 2, depth) {
                        Some(after) => {
                            let a = clamp_pos(j + 2, after, toks.len() as int);
                            if a < toks.len() {
                                match toks[a].kind {
                                    Tok::RBrace => Some(a + 1),
                                    Tok::Comma => pairs_end(toks, a + 1, depth),
                                    _ => None,
                                }
                            } else {
                                None
                            }
                        },
                        None => None,
                    }
                } else {
                    None
                }
            },
            _ => None,
        }
    }
}

/// A successful grammar walk always moves forward and stays among the
/// tokens.
pub proof fn lemma_parse_end_progress(toks: Seq<Token>, i: int, depth: int)
    ensures
        value_end(toks, i, depth) matches Some(e) ==> i < e <= toks.len(),
        pairs_end(toks, i, depth) matches Some(e) ==> i < e <= toks.len(),
    decreases toks.len() - i,
{
    if 0 <= i < toks.len() {
        lemma_parse_end_progress(toks, i + 1, depth - 1);
        if i + 2 <= toks.len() {
            lemma_parse_end_progress(toks, i + 2, depth);
        }
        if i + 1 < toks.len() && toks[i + 1].kind is Colon {
            match value_end(toks, i + 2, depth) {
                Some(after) => {
                    let a = clamp_pos(i + 2, after, toks.len() as int);
                    if a + 1 <= toks.len() {
                        lemma_parse_end_progress(toks, a + 1, depth);
                    }
                },
                None => {},
            }
        }
    }
}

/// The value starting at token `i` reads as the literal `l`: same
/// position, same unescaped content, nested pair lists pair for pair.
pub open spec fn value_parses(toks: Seq<Token>, i: int, depth: int, l: Lit) -> bool
    decreases toks.len() - i, 1int,
{
    if i < 0 || i >= toks.len() {
        false
    } else {
        l.pos == toks[i].pos && match toks[i].kind {
            Tok::Text(t) => l.kind matches LitKind::LText(u) && u@ == t@,
            Tok::Bytes(b) => l.kind matches LitKind::LBytes(u) && u@ == b@,
            Tok::Ident(d) => l.kind matches LitKind::LIdent(u) && u@ == d@,
            Tok::LBrace => depth > 0 && (l.kind matches LitKind::LRec(ps) && pairs_parse(
                toks,
                i + 1,
                depth - 1,
                ps@,
            )),
            _ => false,
        }
    }
}

/// The pair list continuing at token `j` reads as the pairs `ps`.
pub open spec fn pairs_parse(toks: Seq<Token>, j: int, depth: int, ps: Seq<LitPair>) -> bool
    decreases toks.len() - j, 0int,
{
    if j < 0 || j >= toks.len() {
        false
    } else {
        match toks[j].kind {
            Tok::RBrace => ps.len() == 0,
            Tok::Ident(nm) => {
                &&& j + 1 < toks.len() && toks[j + 1].kind is Colon
                &&& ps.len() > 0
                &&& ps[0].name@ == nm@ && ps[0].name_pos == toks[j].pos
                &&& value_parses(toks, j + 2, depth, ps[0].value)
                &&& match value_end(toks, j + 2, depth) {
                    Some(after) => {
                        let a = clamp_pos(j + 2, after, toks.len() as int);
                        if a < toks.len() {
                            match toks[a].kind {
                                Tok::RBrace => ps.len() == 1,
                                Tok::Comma => pairs_parse(toks, a + 1, depth, ps.drop_first()),
                                _ => false,
                            }
                        } else {
                            false
                        }
                    },
                    None => false,
                }
            },
            _ => false,
        }
    }
}

/// Parses one value starting at token `i`: text, bytes, an identifier,
/// or a nested pair list when another nesting level is allowed.
/// Succeeds exactly when a value of the grammar starts there, and then
/// returns exactly that value and its end.
pub fn parse_value(toks: &Vec<Token>, i: usize, depth: usize) -> (r: Result<
    (Lit, usize),
    ParseError,
>)
    requires
        i <= toks@.len(),
    ensures
        r matches Ok(p) ==> i < p.1 <= toks@.len(),
        r is Ok <==> value_end(toks@, i as int, depth as int) is Some,
        r matches Ok(p) ==> value_end(toks@, i as int, depth as int) == Some(p.1 as int)
            && value_parses(toks@, i as int, depth as int, p.0),
    decreases toks@.len() - i, 1int,
{
    if i >= toks.len() {
        let pos = if toks.len() > 0 {
            toks[toks.len() - 1].pos
        } else {
            0
        };
        return Err(ParseError { pos, kind: ParseErrorKind::MalformedLiteral });
    }
    match &toks[i].kind {
        Tok::Text(s) => Ok((Lit { pos: toks[i].pos, kind: LitKind::LText(s.clone()) }, i + 1)),
        Tok::Bytes(b) => Ok((Lit { pos: toks[i].pos, kind: LitKind::LBytes(b.clone()) }, i + 1)),
        Tok::Ident(id) => Ok((Lit { pos: toks[i].pos, kind: LitKind::LIdent(id.clone()) }, i + 1)),
        Tok::LBrace => {
            if depth == 0 {
                return Err(ParseError { pos: toks[i].pos, kind: ParseErrorKind::MalformedLiteral });
            }
            parse_pairs(toks, i, depth - 1)
        },
        _ => Err(ParseError { pos: toks[i].pos, kind: ParseErrorKind::MalformedLiteral }),
    }
}

/// Parses a brace-delimited pair list starting at the opening brace at
/// token `i`: `name: value` pairs separated by commas, a trailing comma
/// permitted, closed by the matching brace. Succeeds exactly when the
/// tokens follow that grammar, and then returns exactly the denoted
/// pairs and the position past the closing brace.
pub fn parse_pairs(toks: &Vec<Token>, i: usize, depth: usize) -> (r: Result<
    (Lit, usize),
    ParseError,
>)
    requires
        i < toks@.len(),
        toks@[i as int].kind is LBrace,
    ensures
        r matches Ok(p) ==> i < p.1 <= toks@.len() && p.0.kind is LRec,
        r is Ok <==> pairs_end(toks@, i + 1, depth as int) is Some,
        r matches Ok(p) ==> pairs_end(toks@, i + 1, depth as int) == Some(p.1 as int) && p.0.pos
            == toks@[i as int].pos && (p.0.kind matches LitKind::LRec(ps) && pairs_parse(
            toks@,
            i + 1,
            depth as int,
            ps@,
        )),
    decreases toks@.len() - i, 0int,
{
    let open_pos = toks[i].pos;
    let n = toks.len();
    assert(i < n);
    let mut pairs: Vec<LitPair> = Vec::new();
    proof {
        assert forall|rest: Seq<LitPair>| #[trigger] pairs_parse(
            toks@,
            i + 1,
            depth as int,
            rest,
        ) implies pairs_parse(toks@, i + 1, depth as int, pairs@ + rest) by {
            assert(pairs@ + rest =~= rest);
        }
    }
    let mut j: usize = i + 1;
    loop
        invariant
            i < j <= toks@.len(),
            i < toks@.len(),
            n == toks@.len(),
            toks@[i as int].kind is LBrace,
            open_pos == toks@[i as int].pos,
            pairs_end(toks@, i + 1, depth as int) == pairs_end(toks@, j as int, depth as int),
            forall|rest: Seq<LitPair>| #[trigger] pairs_parse(toks@, j as int, depth as int, rest)
                ==> pairs_parse(toks@, i + 1, depth as int, pairs@ + rest),
        decreases toks@.len() - j,
    {
        let ghost pairs_old = pairs@;
        let ghost j_old = j as int;
        if j >= toks.len() {
            return Err(ParseError { pos: open_pos, kind: ParseErrorKind::MalformedLiteral });
        }
        match &toks[j].kind {
            Tok::RBrace => {
                proof {
                    assert(pairs_parse(toks@, j as int, depth as int, Seq::<LitPair>::empty()));
                    assert(pairs_parse(
                        toks@,
                        i + 1,
                        depth as int,
                        pairs@ + Seq::<LitPair>::empty(),
                    ));
                    assert(pairs@ + Seq::<LitPair>::empty() =~= pairs@);
                }
                return Ok((Lit { pos: open_pos, kind: LitKind::LRec(pairs) }, j + 1));
            },
            Tok::Ident(name) => {
                let name_pos = toks[j].pos;
                if j + 1 >= toks.len() {
                    return Err(
                        ParseError { pos: name_pos, kind: ParseErrorKind::MalformedLiteral },
                    );
                }
                match &toks[j + 1].kind {
                    Tok::Colon => {},
                    _ => {
                        return Err(
                            ParseError {
                                pos: toks[j + 1].pos,
                                kind: ParseErrorKind::MalformedLiteral,
                            },
                        );
                    },
                }
                let (value, after) = match parse_value(toks, j + 2, depth) {
                    Ok(p) => p,
                    Err(e) => {
                        return Err(e);
                    },
                };
                proof {
                    lemma_parse_end_progress(toks@, j_old + 2, depth as int);
                    assert(clamp_pos(j_old + 2, after as int, toks@.len() as int) == after as int);
                }
                let p = LitPair { name: name.clone(), name_pos, value };
                let ghost pv = p;
                pairs.push(p);
                if after >= toks.len() {
                    return Err(
                        ParseError { pos: open_pos, kind: ParseErrorKind::MalformedLiteral },
                    );
                }
                match &toks[after].kind {
                    Tok::RBrace => {
                        proof {
                            assert(pairs_parse(toks@, j_old, depth as int, seq![pv]));
                            assert(pairs_parse(toks@, i + 1, depth as int, pairs_old + seq![pv]));
                            assert(pairs@ =~= pairs_old + seq![pv]);
                        }
                        return Ok((Lit { pos: open_pos, kind: LitKind::LRec(pairs) }, after + 1));
                    },
                    Tok::Comma => {
                        proof {
                            assert forall|rest: Seq<LitPair>| #[trigger] pairs_parse(
                                toks@,
                                after + 1,
                                depth as int,
                                rest,
                            ) implies pairs_parse(
                                toks@,
                                i + 1,
                                depth as int,
                                pairs@ + rest,
                            ) by {
                                let withp = seq![pv] + rest;
                                assert(withp[0] == pv);
                                assert(withp.drop_first() =~= rest);
                                assert(pairs_parse(toks@, j_old, depth as int, withp));
                                assert(pairs_parse(toks@, i + 1, depth as int, pairs_old + withp));
                                assert(pairs@ + rest =~= pairs_old + withp);
                            }
                        }
                        j = after + 1;
                    },
                    _ => {
                        return Err(
                            ParseError {
                                pos: toks[after].pos,
                                kind: ParseErrorKind::MalformedLiteral,
                            },
                        );
                    },
                }
            },
            _ => {
                return Err(ParseError { pos: toks[j].pos, kind: ParseErrorKind::MalformedLiteral });
            },
        }
    }
}

/// The tokens derive one record literal of the grammar, spanning them
/// all, within the nesting ceiling.
pub open spec fn literal_tokens_ok(toks: Seq<Token>) -> bool {
    toks.len() > 0 && toks[0].kind is LBrace && pairs_end(toks, 1, MAX_NESTING as int) == Some(
        toks.len() as int,
    )
}

/// The literal `l` is the pair tree those tokens denote.
pub open spec fn literal_tree_of(toks: Seq<Token>, l: Lit) -> bool {
    &&& toks.len() > 0
    &&& l.pos == toks[0].pos
    &&& l.kind matches LitKind::LRec(ps) && pairs_parse(toks, 1, MAX_NESTING as int, ps@)
}

/// Parses a whole token sequence as one record literal: the literal must
/// span all tokens. Succeeds exactly when the tokens derive a record
/// literal of the grammar, within the nesting ceiling, and then returns
/// exactly the denoted pair tree.
pub fn parse_literal_tokens(toks: &Vec<Token>) -> (r: Result<Lit, ParseError>)
    ensures
        r matches Ok(l) ==> l.kind is LRec,
        r is Ok <==> literal_tokens_ok(toks@),
        r matches Ok(l) ==> literal_tree_of(toks@, l),
{
    if toks.len() == 0 {
        return Err(ParseError { pos: 0, kind: ParseErrorKind::MalformedLiteral });
    }
    match &toks[0].kind {
        Tok::LBrace => {},
        _ => {
            return Err(ParseError { pos: toks[0].pos, kind: ParseErrorKind::MalformedLiteral });
        },
    }
    let (lit, end) = match parse_pairs(toks, 0, MAX_NESTING) {
        Ok(p) => p,
        Err(e) => {
            return Err(e);
        },
    };
    if end != toks.len() {
        return Err(ParseError { pos: toks[end - 1].pos, kind: ParseErrorKind::MalformedLiteral });
    }
    Ok(lit)
}

} // verus!
