//! The lexical level shared by the literal grammar and the schema
//! definition grammar: identifiers, quoted text, byte literals and
//! punctuation, each with its character position in the source.
use vstd::prelude::*;

use crate::literal::{ParseError, ParseErrorKind};

verus! {

/// One token of the two grammars.
#[derive(Debug)]
pub enum Tok {
    LBrace,
    RBrace,
    LBracket,
    RBracket,
    Colon,
    Comma,
    Semi,
    Question,
    Pound,
    Ident(String),
    Text(String),
    Bytes(Vec<u8>),
}

/// A token with the character position it starts at.
#[derive(Debug)]
pub struct Token {
    pub pos: usize,
    pub kind: Tok,
}

/// Whether the character can start an identifier.
pub open spec fn spec_is_ident_start(c: char) -> bool {
    let u = c as u32;
    (97 <= u && u <= 122) || (65 <= u && u <= 90) || u == 95
}

/// Whether the character can continue an identifier.
pub open spec fn spec_is_ident_char(c: char) -> bool {
    let u = c as u32;
    (97 <= u && u <= 122) || (65 <= u && u <= 90) || (48 <= u && u <= 57) || u == 95
}

/// The value of a hexadecimal digit, or -1.
pub open spec fn spec_hex(c: char) -> int {
    let u = c as u32;
    if 48 <= u && u <= 57 {
        u - 48
    } else if 97 <= u && u <= 102 {
        u - 97 + 10
    } else if 65 <= u && u <= 70 {
        u - 65 + 10
    } else {
        -1
    }
}

/// Whether the character is blank space between tokens.
pub open spec fn spec_is_space(c: char) -> bool {
    c == ' ' || c == '\t' || c == '\n' || c == '\r'
}

/// Whether the character can start an identifier.
pub fn is_ident_start(c: char) -> (r: bool)
    ensures
        r == spec_is_ident_start(c),
{
    let u = c as u32;
    (97 <= u && u <= 122) || (65 <= u && u <= 90) || u == 95
}

/// Whether the character can continue an identifier.
pub fn is_ident_char(c: char) -> (r: bool)
    ensures
        r == spec_is_ident_char(c),
{
    let u = c as u32;
    (97 <= u && u <= 122) || (65 <= u && u <= 90) || (48 <= u && u <= 57) || u == 95
}

/// The value of a hexadecimal digit, if the character is one.
pub fn hex_digit(c: char) -> (r: Option<u8>)
    ensures
        r matches Some(v) ==> v < 16 && v == spec_hex(c),
        r is None ==> spec_hex(c) == -1,
{
    let u = c as u32;
    if 48 <= u && u <= 57 {
        Some((u - 48) as u8)
    } else if 97 <= u && u <= 102 {
        Some((u - 97 + 10) as u8)
    } else if 65 <= u && u <= 70 {
        Some((u - 65 + 10) as u8)
    } else {
        None
    }
}

/// Whether the character is blank space between tokens.
pub fn is_space(c: char) -> (r: bool)
    ensures
        r == spec_is_space(c),
{
    c == ' ' || c == '\t' || c == '\n' || c == '\r'
}

/// The unescaped content of a quoted text literal, read from just after
/// the opening quote, with the position just after the closing quote;
/// nothing when no well-formed closing quote follows. Text literals take
/// the escapes `\n`, `\t`, `\r`, `\0`, `\\` and `\"`; `\xNN`
/// belongs to byte literals alone.
pub open spec fn unescape_text(s: Seq<char>, i: int) -> Option<(Seq<char>, int)>
    decreases s.len() - i,
{
    if i < 0 || i >= s.len() {
        None
    } else if s[i] == '"' {
        Some((Seq::empty(), i + 1))
    } else if s[i] == '\\' {
        if i + 1 >= s.len() {
            None
        } else {
            let e = s[i + 1];
            let c: char = if e == 'n' {
                '\n'
            } else if e == 't' {
                '\t'
            } else if e == 'r' {
                '\r'
            } else if e == '0' {
                '\0'
            } else if e == '\\' {
                '\\'
            } else {
                '"'
            };
            if e == 'n' || e == 't' || e == 'r' || e == '0' || e == '\\' || e == '"' {
                match unescape_text(s, i + 2) {
                    Some(p) => Some((seq![c] + p.0, p.1)),
                    None => None,
                }
            } else {
                None
            }
        }
    } else {
        match unescape_text(s, i + 1) {
            Some(p) => Some((seq![s[i]] + p.0, p.1)),
            None => None,
        }
    }
}

/// The unescaped content of a byte literal, read from just after `b"`,
/// with the position just after the closing quote. Byte literals take
/// plain ASCII characters and the escapes `\xNN`, `\n`, `\t`, `\r`,
/// `\0`, `\\` and `\"`.
pub open spec fn unescape_bytes(s: Seq<char>, i: int) -> Option<(Seq<u8>, int)>
    decreases s.len() - i,
{
    if i < 0 || i >= s.len() {
        None
    } else if s[i] == '"' {
        Some((Seq::empty(), i + 1))
    } else if s[i] == '\\' {
        if i + 1 >= s.len() {
            None
        } else {
            let e = s[i + 1];
            if e == 'x' {
                if s.len() - i < 4 || spec_hex(s[i + 2]) < 0 || spec_hex(s[i + 3]) < 0 {
                    None
                } else {
                    let b = (spec_hex(s[i + 2]) * 16 + spec_hex(s[i + 3])) as u8;
                    match unescape_bytes(s, i + 4) {
                        Some(p) => Some((seq![b] + p.0, p.1)),
                        None => None,
                    }
                }
            } else if e == 'n' || e == 't' || e == 'r' || e == '0' || e == '\\' || e == '"' {
                let b: u8 = if e == 'n' {
                    10
                } else if e == 't' {
                    9
                } else if e == 'r' {
                    13
                } else if e == '0' {
                    0
                } else if e == '\\' {
                    92
                } else {
                    34
                };
                match unescape_bytes(s, i + 2) {
                    Some(p) => Some((seq![b] + p.0, p.1)),
                    None => None,
                }
            } else {
                None
            }
        }
    } else if c_val(s[i]) > 127 {
        None
    } else {
        match unescape_bytes(s, i + 1) {
            Some(p) => Some((seq![(c_val(s[i]) as u8)] + p.0, p.1)),
            None => None,
        }
    }
}

/// A character's code point.
pub open spec fn c_val(c: char) -> int {
    c as u32 as int
}

/// The end of an identifier whose continuation starts at `j`.
pub open spec fn ident_end(s: Seq<char>, j: int) -> int
    decreases s.len() - j,
{
    if j < 0 || j >= s.len() || !spec_is_ident_char(s[j]) {
        j
    } else {
        ident_end(s, j + 1)
    }
}

/// Prefixes unescaped text onto a scan's outcome.
pub open spec fn prepend_text(pre: Seq<char>, r: Option<(Seq<char>, int)>) -> Option<
    (Seq<char>, int),
> {
    match r {
        Some(p) => Some((pre + p.0, p.1)),
        None => None,
    }
}

/// Prefixes unescaped bytes onto a scan's outcome.
pub open spec fn prepend_bytes(pre: Seq<u8>, r: Option<(Seq<u8>, int)>) -> Option<(Seq<u8>, int)> {
    match r {
        Some(p) => Some((pre + p.0, p.1)),
        None => None,
    }
}

/// A successful scan always moves forward and stays in the text.
pub proof fn lemma_unescape_progress(s: Seq<char>, i: int)
    ensures
        unescape_text(s, i) matches Some(p) ==> i < p.1 <= s.len(),
        unescape_bytes(s, i) matches Some(q) ==> i < q.1 <= s.len(),
        0 <= i ==> i <= ident_end(s, i) <= if i <= s.len() {
            s.len() as int
        } else {
            i
        },
    decreases s.len() - i,
{
    if 0 <= i < s.len() {
        lemma_unescape_progress(s, i + 1);
        if i + 2 <= s.len() {
            lemma_unescape_progress(s, i + 2);
        }
        if i + 4 <= s.len() {
            lemma_unescape_progress(s, i + 4);
        }
    }
}

/// The next scan position, kept strictly forward and inside the text.
pub open spec fn clamp_pos(i: int, j: int, n: int) -> int {
    if i < j <= n {
        j
    } else {
        i + 1
    }
}

/// Whether the whole text from `i` on splits into lexemes.
pub open spec fn lex_accepts(s: Seq<char>, i: int) -> bool
    decreases s.len() - i,
{
    if i < 0 {
        false
    } else if i >= s.len() {
        true
    } else {
        let c = s[i];
        if spec_is_space(c) || c == '{' || c == '}' || c == '[' || c == ']' || c == ':' || c == ','
            || c == ';' || c == '?' || c == '#' {
            lex_accepts(s, i + 1)
        } else if c == '"' {
            match unescape_text(s, i + 1) {
                Some(p) => lex_accepts(s, clamp_pos(i, p.1, s.len() as int)),
                None => false,
            }
        } else if c == 'b' && i + 1 < s.len() && s[i + 1] == '"' {
            match unescape_bytes(s, i + 2) {
                Some(p) => lex_accepts(s, clamp_pos(i, p.1, s.len() as int)),
                None => false,
            }
        } else if spec_is_ident_start(c) {
            lex_accepts(s, clamp_pos(i, ident_end(s, i + 1), s.len() as int))
        } else {
            false
        }
    }
}

/// The text from `i` on lexes exactly to the given tokens: each token
/// starts at its position, punctuation and identifiers read off the
/// text, and quoted contents carry their unescaped form.
pub open spec fn lexes(s: Seq<char>, i: int, toks: Seq<Token>) -> bool
    decreases s.len() - i,
{
    if i < 0 {
        false
    } else if i >= s.len() {
        toks.len() == 0
    } else {
        let c = s[i];
        if spec_is_space(c) {
            lexes(s, i + 1, toks)
        } else if c == '{' || c == '}' || c == '[' || c == ']' || c == ':' || c == ',' || c == ';'
            || c == '?' || c == '#' {
            &&& toks.len() > 0
            &&& toks[0].pos == i
            &&& (toks[0].kind matches Tok::LBrace <==> c == '{')
            &&& (toks[0].kind matches Tok::RBrace <==> c == '}')
            &&& (toks[0].kind matches Tok::LBracket <==> c == '[')
            &&& (toks[0].kind matches Tok::RBracket <==> c == ']')
            &&& (toks[0].kind matches Tok::Colon <==> c == ':')
            &&& (toks[0].kind matches Tok::Comma <==> c == ',')
            &&& (toks[0].kind matches Tok::Semi <==> c == ';')
            &&& (toks[0].kind matches Tok::Question <==> c == '?')
            &&& (toks[0].kind matches Tok::Pound <==> c == '#')
            &&& lexes(s, i + 1, toks.drop_first())
        } else if c == '"' {
            match unescape_text(s, i + 1) {
                Some(p) => {
                    &&& toks.len() > 0
                    &&& toks[0].pos == i
                    &&& toks[0].kind matches Tok::Text(t) && t@ == p.0
                    &&& lexes(s, clamp_pos(i, p.1, s.len() as int), toks.drop_first())
                },
                None => false,
            }
        } else if c == 'b' && i + 1 < s.len() && s[i + 1] == '"' {
            match unescape_bytes(s, i + 2) {
                Some(p) => {
                    &&& toks.len() > 0
                    &&& toks[0].pos == i
                    &&& toks[0].kind matches Tok::Bytes(bs) && bs@ == p.0
                    &&& lexes(s, clamp_pos(i, p.1, s.len() as int), toks.drop_first())
                },
                None => false,
            }
        } else if spec_is_ident_start(c) {
            let ie = ident_end(s, i + 1);
            &&& toks.len() > 0
            &&& toks[0].pos == i
            &&& toks[0].kind matches Tok::Ident(nm) && nm@ == s.subrange(
                i,
                clamp_pos(i, ie, s.len() as int),
            )
            &&& lexes(s, clamp_pos(i, ie, s.len() as int), toks.drop_first())
        } else {
            false
        }
    }
}

/// Scans the text content of a quoted literal, starting just after the
/// opening quote; gives back the unescaped content and the position just
/// after the closing quote. Text literals take the escapes `\n`, `\t`,
/// `\r`, `\0`, `\\` and `\"`; `\xNN` belongs to byte literals
/// alone.
fn scan_text(s: &str, start: usize, n: usize) -> (r: Result<(String, usize), ParseError>)
    requires
        n == s@.len(),
        start <= n,
    ensures
        r matches Ok(p) ==> start < p.1 <= n && unescape_text(s@, start as int) == Some(
            (p.0@, p.1 as int),
        ),
        r is Err ==> unescape_text(s@, start as int) is None,
    decreases n - start,
{
    let mut out = String::new();
    proof {
        match unescape_text(s@, start as int) {
            Some(p) => {
                assert(Seq::<char>::empty() + p.0 =~= p.0);
            },
            None => {},
        }
    }
    let mut i: usize = start;
    while i < n
        invariant
            n == s@.len(),
            start <= i <= n,
            prepend_text(out@, unescape_text(s@, i as int)) == unescape_text(s@, start as int),
        decreases n - i,
    {
        let ghost out_old = out@;
        let c = s.get_char(i);
        if c == '"' {
            proof {
                assert(unescape_text(s@, i as int) == Some((Seq::<char>::empty(), i + 1 as int)));
                assert(out@ + Seq::<char>::empty() =~= out@);
            }
            return Ok((out, i + 1));
        }
        if c == '\\' {
            if i + 1 >= n {
                return Err(ParseError { pos: i, kind: ParseErrorKind::MalformedLiteral });
            }
            let e = s.get_char(i + 1);
            let ghost uc: char = 'x';
            if e == 'n' {
                proof {
                    reveal_strlit("\n");
                    uc = '\n';
                }
                out.append("\n");
            } else if e == 't' {
                proof {
                    reveal_strlit("\t");
                    uc = '\t';
                }
                out.append("\t");
            } else if e == 'r' {
                proof {
                    reveal_strlit("\r");
                    uc = '\r';
                }
                out.append("\r");
            } else if e == '0' {
                proof {
                    reveal_strlit("\0");
                    uc = '\0';
                }
                out.append("\0");
            } else if e == '\\' {
                proof {
                    reveal_strlit("\\");
                    uc = '\\';
                }
                out.append("\\");
            } else if e == '"' {
                proof {
                    reveal_strlit("\"");
                    uc = '"';
                }
                out.append("\"");
            } else {
                return Err(ParseError { pos: i, kind: ParseErrorKind::MalformedLiteral });
            }
            proof {
                assert(out@ =~= out_old + seq![uc]);
                match unescape_text(s@, i + 2) {
                    Some(p) => {
                        assert(unescape_text(s@, i as int) == Some((seq![uc] + p.0, p.1)));
                        assert(out_old + (seq![uc] + p.0) =~= (out_old + seq![uc]) + p.0);
                    },
                    None => {},
                }
            }
            i += 2;
        } else {
            proof {
                assert(s@.subrange(i as int, i + 1) =~= seq![s@[i as int]]);
                match unescape_text(s@, i + 1) {
                    Some(p) => {
                        assert(unescape_text(s@, i as int) == Some((seq![s@[i as int]] + p.0, p.1)));
                        assert(out_old + (seq![s@[i as int]] + p.0) =~= (out_old + seq![
                            s@[i as int],
                        ]) + p.0);
                    },
                    None => {},
                }
            }
            out.append(s.substring_char(i, i + 1));
            proof {
                assert(out@ =~= out_old + seq![s@[i as int]]);
            }
            i += 1;
        }
    }
    Err(ParseError { pos: start, kind: ParseErrorKind::MalformedLiteral })
}

/// Scans the content of a byte literal, starting just after `b"`; bytes
/// are plain ASCII characters or the usual escapes, `\xNN` included.
fn scan_bytes(s: &str, start: usize, n: usize) -> (r: Result<(Vec<u8>, usize), ParseError>)
    requires
        n == s@.len(),
        start <= n,
    ensures
        r matches Ok(p) ==> start < p.1 <= n && unescape_bytes(s@, start as int) == Some(
            (p.0@, p.1 as int),
        ),
        r is Err ==> unescape_bytes(s@, start as int) is None,
    decreases n - start,
{
    let mut out: Vec<u8> = Vec::new();
    proof {
        match unescape_bytes(s@, start as int) {
            Some(p) => {
                assert(Seq::<u8>::empty() + p.0 =~= p.0);
            },
            None => {},
        }
    }
    let mut i: usize = start;
    while i < n
        invariant
            n == s@.len(),
            start <= i <= n,
            prepend_bytes(out@, unescape_bytes(s@, i as int)) == unescape_bytes(s@, start as int),
        decreases n - i,
    {
        let ghost out_old = out@;
        let ghost ub: u8 = 0;
        let c = s.get_char(i);
        if c == '"' {
            proof {
                assert(unescape_bytes(s@, i as int) == Some((Seq::<u8>::empty(), i + 1 as int)));
                assert(out@ + Seq::<u8>::empty() =~= out@);
            }
            return Ok((out, i + 1));
        }
        if c == '\\' {
            if i + 1 >= n {
                return Err(ParseError { pos: i, kind: ParseErrorKind::MalformedLiteral });
            }
            let e = s.get_char(i + 1);
            let mut step: usize = 2;
            if e == 'x' {
                if n - i < 4 {
                    return Err(ParseError { pos: i, kind: ParseErrorKind::MalformedLiteral });
                }
                let hi = match hex_digit(s.get_char(i + 2)) {
                    Some(v) => v,
                    None => {
                        return Err(
                            ParseError { pos: i + 2, kind: ParseErrorKind::MalformedLiteral },
                        );
                    },
                };
                let lo = match hex_digit(s.get_char(i + 3)) {
                    Some(v) => v,
                    None => {
                        return Err(
                            ParseError { pos: i + 3, kind: ParseErrorKind::MalformedLiteral },
                        );
                    },
                };
                proof {
                    ub = (spec_hex(s@[i + 2]) * 16 + spec_hex(s@[i + 3])) as u8;
                }
                out.push(hi * 16 + lo);
                step = 4;
            } else if e == 'n' {
                proof {
                    ub = 10;
                }
                out.push(10);
            } else if e == 't' {
                proof {
                    ub = 9;
                }
                out.push(9);
            } else if e == 'r' {
                proof {
                    ub = 13;
                }
                out.push(13);
            } else if e == '0' {
                proof {
                    ub = 0;
                }
                out.push(0);
            } else if e == '\\' {
                proof {
                    ub = 92;
                }
                out.push(92);
            } else if e == '"' {
                proof {
                    ub = 34;
                }
                out.push(34);
            } else {
                return Err(ParseError { pos: i, kind: ParseErrorKind::MalformedLiteral });
            }
            proof {
                assert(out@ =~= out_old + seq![ub]);
                match unescape_bytes(s@, i + step) {
                    Some(p) => {
                        assert(unescape_bytes(s@, i as int) == Some((seq![ub] + p.0, p.1)));
                        assert(out_old + (seq![ub] + p.0) =~= (out_old + seq![ub]) + p.0);
                    },
                    None => {},
                }
            }
            i += step;
        } else {
            let u = c as u32;
            if u > 127 {
                return Err(ParseError { pos: i, kind: ParseErrorKind::MalformedLiteral });
            }
            proof {
                ub = (c_val(s@[i as int]) as u8);
                match unescape_bytes(s@, i + 1) {
                    Some(p) => {
                        assert(unescape_bytes(s@, i as int) == Some((seq![ub] + p.0, p.1)));
                        assert(out_old + (seq![ub] + p.0) =~= (out_old + seq![ub]) + p.0);
                    },
                    None => {},
                }
            }
            out.push(u as u8);
            proof {
                assert(out@ =~= out_old + seq![ub]);
            }
            i += 1;
        }
    }
    Err(ParseError { pos: start, kind: ParseErrorKind::MalformedLiteral })
}

/// Splits source text into tokens: identifiers, quoted text (`"..."`),
/// byte literals (`b"..."`) and the grammar's punctuation, with blank
/// space skipped. Succeeds exactly when the text splits into such
/// lexemes, and then returns exactly those lexemes, in order, each at
/// its own position with its unescaped content.
pub fn tokenize(s: &str) -> (r: Result<Vec<Token>, ParseError>)
    ensures
        r is Ok <==> lex_accepts(s@, 0),
        r matches Ok(toks) ==> lexes(s@, 0, toks@),
        r matches Ok(toks) ==> {
            &&& forall|k: int| 0 <= k < toks@.len() ==> (#[trigger] toks@[k]).pos < s@.len()
            &&& forall|k1: int, k2: int|
                0 <= k1 < k2 < toks@.len() ==> (#[trigger] toks@[k1]).pos < (
                #[trigger] toks@[k2]).pos
        },
{
    let n = s.unicode_len();
    let mut out: Vec<Token> = Vec::new();
    proof {
        assert forall|tl: Seq<Token>| #[trigger] lexes(s@, 0, tl) implies lexes(
            s@,
            0,
            out@ + tl,
        ) by {
            assert(out@ + tl =~= tl);
        }
    }
    let mut i: usize = 0;
    while i < n
        invariant
            n == s@.len(),
            i <= n,
            forall|k: int| 0 <= k < out@.len() ==> (#[trigger] out@[k]).pos < i,
            forall|k1: int, k2: int|
                0 <= k1 < k2 < out@.len() ==> (#[trigger] out@[k1]).pos < (
                #[trigger] out@[k2]).pos,
            lex_accepts(s@, 0) == lex_accepts(s@, i as int),
            forall|tl: Seq<Token>| #[trigger] lexes(s@, i as int, tl) ==> lexes(s@, 0, out@ + tl),
        decreases n - i,
    {
        let ghost out_old = out@;
        let ghost i_old = i as int;
        let c = s.get_char(i);
        let mut tok_pushed = true;
        if is_space(c) {
            tok_pushed = false;
            i += 1;
        } else if c == '{' {
            out.push(Token { pos: i, kind: Tok::LBrace });
            i += 1;
        } else if c == '}' {
            out.push(Token { pos: i, kind: Tok::RBrace });
            i += 1;
        } else if c == '[' {
            out.push(Token { pos: i, kind: Tok::LBracket });
            i += 1;
        } else if c == ']' {
            out.push(Token { pos: i, kind: Tok::RBracket });
            i += 1;
        } else if c == ':' {
            out.push(Token { pos: i, kind: Tok::Colon });
            i += 1;
        } else if c == ',' {
            out.push(Token { pos: i, kind: Tok::Comma });
            i += 1;
        } else if c == ';' {
            out.push(Token { pos: i, kind: Tok::Semi });
            i += 1;
        } else if c == '?' {
            out.push(Token { pos: i, kind: Tok::Question });
            i += 1;
        } else if c == '#' {
            out.push(Token { pos: i, kind: Tok::Pound });
            i += 1;
        } else if c == '"' {
            match scan_text(s, i + 1, n) {
                Ok((content, j)) => {
                    proof {
                        lemma_unescape_progress(s@, i + 1);
                        assert(clamp_pos(i_old, j as int, n as int) == j as int);
                    }
                    out.push(Token { pos: i, kind: Tok::Text(content) });
                    i = j;
                },
                Err(e) => {
                    assert(!lex_accepts(s@, i_old));
                    return Err(e);
                },
            }
        } else if c == 'b' && i + 1 < n && s.get_char(i + 1) == '"' {
            match scan_bytes(s, i + 2, n) {
                Ok((content, j)) => {
                    proof {
                        lemma_unescape_progress(s@, i + 2);
                        assert(clamp_pos(i_old, j as int, n as int) == j as int);
                    }
                    out.push(Token { pos: i, kind: Tok::Bytes(content) });
                    i = j;
                },
                Err(e) => {
                    assert(!lex_accepts(s@, i_old));
                    return Err(e);
                },
            }
        } else if is_ident_start(c) {
            let start = i;
            let mut j: usize = i + 1;
            while j < n && is_ident_char(s.get_char(j))
                invariant
                    n == s@.len(),
                    start < j <= n,
                    ident_end(s@, start + 1) == ident_end(s@, j as int),
                decreases n - j,
            {
                j += 1;
            }
            proof {
                assert(ident_end(s@, j as int) == j as int);
                assert(clamp_pos(i_old, ident_end(s@, i_old + 1), n as int) == j as int);
            }
            out.push(
                Token { pos: start, kind: Tok::Ident(s.substring_char(start, j).to_owned()) },
            );
            i = j;
        } else {
            assert(!lex_accepts(s@, i_old));
            return Err(ParseError { pos: i, kind: ParseErrorKind::MalformedLiteral });
        }
        proof {
            assert(lex_accepts(s@, i_old) == lex_accepts(s@, i as int));
            if tok_pushed {
                let t = out@.last();
                assert(out@ =~= out_old.push(t));
                assert forall|tl: Seq<Token>| #[trigger] lexes(s@, i as int, tl) implies lexes(
                    s@,
                    0,
                    out@ + tl,
                ) by {
                    let t2 = seq![t] + tl;
                    assert(t2[0] == t);
                    assert(t2.drop_first() =~= tl);
                    assert(lexes(s@, i_old, t2));
                    assert(lexes(s@, 0, out_old + t2));
                    assert(out@ + tl =~= out_old + t2);
                }
            } else {
                assert forall|tl: Seq<Token>| #[trigger] lexes(s@, i as int, tl) implies lexes(
                    s@,
                    0,
                    out@ + tl,
                ) by {
                    assert(lexes(s@, i_old, tl));
                }
            }
        }
    }
    proof {
        assert(lexes(s@, n as int, Seq::<Token>::empty()));
        assert(lexes(s@, 0, out@ + Seq::<Token>::empty()));
        assert(out@ + Seq::<Token>::empty() =~= out@);
    }
    Ok(out)
}

} // verus!
