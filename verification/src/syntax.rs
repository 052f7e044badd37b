//! Grammar and parser: consumes the full token sequence and produces a
//! syntax tree, or fails at the first token no production matches.
//!
//! The grammar is, in the token domain:
//!
//! ```text
//! root        = declaration*
//! declaration = lower_ident Colon upper_ident sep
//!               lower_ident Equals expr
//! expr        = integer_lit
//! sep         = Semicolon | LineBreak
//! ```
//!
//! `root` must consume the whole sequence; zero declarations is valid and
//! yields an empty tree. `Semicolon` and `LineBreak` are interchangeable
//! statement terminators.

use crate::error::Error;
use crate::lexer::{lex, lex_error_text, name_span_wf, spec_lex, token_wf, Span, Token};
use vstd::prelude::*;

verus! {

/// A name that starts with an "uppercase" letter.
///
/// Typically, this is used for type names in the language.
#[derive(Debug, Clone, Copy, PartialEq, Eq, Structural)]
pub struct UpperIdent(pub Span);

/// A name that starts with a "lowercase" letter.
///
/// Typically, this is used for value names in the language.
#[derive(Debug, Clone, Copy, PartialEq, Eq, Structural)]
pub struct LowerIdent(pub Span);

/// An expression, e.g. `0`, `1000`, etc.
#[derive(Debug, Clone, Copy, PartialEq, Eq, Structural)]
pub enum Expr {
    IntegerLiteral(i64),
}

/// A top level declaration, e.g.
/// ```text
/// a : Int
/// a = 0
/// ```
#[derive(Debug, Clone, Copy, PartialEq, Eq, Structural)]
pub struct Declaration {
    pub header_name: LowerIdent,
    pub header_type: UpperIdent,
    pub body_name: LowerIdent,
    pub body: Expr,
}

/// The parser's output: the declarations of the source, in source order.
#[derive(Debug)]
pub struct SyntaxTree {
    pub declarations: Vec<Declaration>,
}

/// The span carried by a name token; a placeholder span for other tokens.
pub open spec fn name_span_of(t: Token) -> Span {
    match t {
        Token::UpperName(sp) => sp,
        Token::LowerName(sp) => sp,
        _ => (Span { start: 0, len: 0 }),
    }
}

/// The value carried by an integer-literal token; zero for other tokens.
pub open spec fn int_of(t: Token) -> i64 {
    match t {
        Token::IntegerLiteral(n) => n,
        _ => 0,
    }
}

/// Do the seven tokens at `i` match the `declaration` production?
pub open spec fn decl_shape(toks: Seq<Token>, i: int) -> bool {
    &&& i + 7 <= toks.len()
    &&& toks[i] is LowerName
    &&& toks[i + 1] is Colon
    &&& toks[i + 2] is UpperName
    &&& (toks[i + 3] is Semicolon || toks[i + 3] is LineBreak)
    &&& toks[i + 4] is LowerName
    &&& toks[i + 5] is Equals
    &&& toks[i + 6] is IntegerLiteral
}

/// The declaration built from the seven tokens at `i`.
pub open spec fn decl_at(toks: Seq<Token>, i: int) -> Declaration {
    Declaration {
        header_name: LowerIdent(name_span_of(toks[i])),
        header_type: UpperIdent(name_span_of(toks[i + 2])),
        body_name: LowerIdent(name_span_of(toks[i + 4])),
        body: Expr::IntegerLiteral(int_of(toks[i + 6])),
    }
}

/// The outcome of parsing the token sequence from position `i` on:
/// the declarations matched by greedy repetition of `declaration`, or
/// `None` if some tokens remain that no production matches.
pub open spec fn spec_parse(toks: Seq<Token>, i: int) -> Option<Seq<Declaration>>
    decreases toks.len() - i,
{
    if decl_shape(toks, i) {
        match spec_parse(toks, i + 7) {
            Some(rest) => Some(seq![decl_at(toks, i)] + rest),
            None => None,
        }
    } else if i == toks.len() {
        Some(Seq::empty())
    } else {
        None
    }
}

/// Prepends already-matched declarations to the outcome of parsing the rest.
pub open spec fn prepend_decls(a: Seq<Declaration>, r: Option<Seq<Declaration>>) -> Option<
    Seq<Declaration>,
> {
    match r {
        Some(ds) => Some(a + ds),
        None => None,
    }
}

/// The span facts of every identifier of a declaration, as the lexer
/// guarantees them for the name tokens the declaration was built from.
pub open spec fn decl_wf(s: Seq<char>, d: Declaration) -> bool {
    &&& name_span_wf(s, d.header_name.0, true)
    &&& name_span_wf(s, d.header_type.0, false)
    &&& name_span_wf(s, d.body_name.0, true)
}

/// The span facts of every declaration of a tree.
pub open spec fn tree_wf(s: Seq<char>, ds: Seq<Declaration>) -> bool {
    forall|j: int| 0 <= j < ds.len() ==> decl_wf(s, #[trigger] ds[j])
}

/// Declarations are built from the tokens alone, so the lexer's span facts
/// carry over to every declaration of a successful parse.
pub proof fn lemma_parse_decls_wf(s: Seq<char>, toks: Seq<Token>, i: int)
    requires
        0 <= i,
        forall|k: int| 0 <= k < toks.len() ==> token_wf(s, #[trigger] toks[k]),
        spec_parse(toks, i) is Some,
    ensures
        tree_wf(s, spec_parse(toks, i)->Some_0),
    decreases toks.len() - i,
{
    let ds = spec_parse(toks, i)->Some_0;
    if decl_shape(toks, i) {
        lemma_parse_decls_wf(s, toks, i + 7);
        let rest = spec_parse(toks, i + 7)->Some_0;
        assert forall|j: int| 0 <= j < ds.len() implies decl_wf(s, #[trigger] ds[j]) by {
            if j == 0 {
                assert(ds[0] == decl_at(toks, i));
                assert(token_wf(s, toks[i]));
                assert(token_wf(s, toks[i + 2]));
                assert(token_wf(s, toks[i + 4]));
            } else {
                assert(ds[j] == rest[j - 1]);
                assert(decl_wf(s, rest[j - 1]));
            }
        }
    }
}

/// Parsing is a function of the token sequence alone: parsing the same
/// token sequence twice yields structurally identical trees — the parser
/// keeps no state across calls.
pub proof fn lemma_parse_deterministic(toks: Seq<Token>, t1: SyntaxTree, t2: SyntaxTree)
    requires
        spec_parse(toks, 0) == Some(t1.declarations@),
        spec_parse(toks, 0) == Some(t2.declarations@),
    ensures
        t1.declarations@ == t2.declarations@,
{
}

/// The character for one decimal digit.
pub open spec fn decimal_digit(d: int) -> char {
    if d == 0 {
        '0'
    } else if d == 1 {
        '1'
    } else if d == 2 {
        '2'
    } else if d == 3 {
        '3'
    } else if d == 4 {
        '4'
    } else if d == 5 {
        '5'
    } else if d == 6 {
        '6'
    } else if d == 7 {
        '7'
    } else if d == 8 {
        '8'
    } else {
        '9'
    }
}

/// The decimal rendering of a non-negative integer: most significant digit
/// first, no sign, no leading zeros, a single `0` for zero.
pub open spec fn decimal_text(n: int) -> Seq<char>
    decreases n,
{
    if n < 10 {
        seq![decimal_digit(n)]
    } else {
        decimal_text(n / 10) + seq![decimal_digit(n % 10)]
    }
}

/// Relies on `format!` with usize's `Display`, which writes the number in
/// decimal — most significant digit first, no sign, no leading zeros —
/// after the prefix.
#[verifier::external_body]
fn pos_message(prefix: &str, n: usize) -> (r: String)
    ensures
        r@ == prefix@ + decimal_text(n as int),
{
    format!("{}{}", prefix, n)
}

/// The position where matching fails when the parse yields no tree: the
/// first token of the offending window that does not fit its production, or
/// the start of a window with too few tokens left.
pub open spec fn parse_fail_pos(toks: Seq<Token>, i: int) -> int
    decreases toks.len() - i,
{
    if decl_shape(toks, i) {
        parse_fail_pos(toks, i + 7)
    } else if toks.len() - i < 7 {
        i
    } else if !(toks[i] is LowerName) {
        i
    } else if !(toks[i + 1] is Colon) {
        i + 1
    } else if !(toks[i + 2] is UpperName) {
        i + 2
    } else if !(toks[i + 3] is Semicolon || toks[i + 3] is LineBreak) {
        i + 3
    } else if !(toks[i + 4] is LowerName) {
        i + 4
    } else if !(toks[i + 5] is Equals) {
        i + 5
    } else {
        i + 6
    }
}

/// The message reported when no production matches at token `pos`.
pub open spec fn parser_error_text(pos: int) -> Seq<char> {
    "parser: no rule matched at token "@ + decimal_text(pos)
}

/// The failure reported when no production matches at token `i`.
fn parse_error(i: usize) -> (r: Error)
    ensures
        r.0@ == parser_error_text(i as int),
{
    Error(pos_message("parser: no rule matched at token ", i))
}

/// The start rule: match `declaration*` against the whole token sequence.
pub fn root(tokens: &Vec<Token>) -> (r: Result<SyntaxTree, Error>)
    ensures
        match r {
            Ok(t) => spec_parse(tokens@, 0) == Some(t.declarations@),
            Err(e) => spec_parse(tokens@, 0) is None && e.0@ == parser_error_text(
                parse_fail_pos(tokens@, 0),
            ),
        },
{
    let ghost toks = tokens@;
    let mut decls: Vec<Declaration> = Vec::new();
    let mut i: usize = 0;
    while i < tokens.len()
        invariant
            toks == tokens@,
            i <= toks.len(),
            prepend_decls(decls@, spec_parse(toks, i as int)) == spec_parse(toks, 0),
            parse_fail_pos(toks, 0) == parse_fail_pos(toks, i as int),
        decreases toks.len() - i,
    {
        if tokens.len() - i < 7 {
            return Err(parse_error(i));
        }
        let header_name = match tokens[i] {
            Token::LowerName(sp) => sp,
            _ => {
                return Err(parse_error(i));
            },
        };
        match tokens[i + 1] {
            Token::Colon => {},
            _ => {
                return Err(parse_error(i + 1));
            },
        }
        let header_type = match tokens[i + 2] {
            Token::UpperName(sp) => sp,
            _ => {
                return Err(parse_error(i + 2));
            },
        };
        match tokens[i + 3] {
            Token::Semicolon => {},
            Token::LineBreak => {},
            _ => {
                return Err(parse_error(i + 3));
            },
        }
        let body_name = match tokens[i + 4] {
            Token::LowerName(sp) => sp,
            _ => {
                return Err(parse_error(i + 4));
            },
        };
        match tokens[i + 5] {
            Token::Equals => {},
            _ => {
                return Err(parse_error(i + 5));
            },
        }
        let body = match tokens[i + 6] {
            Token::IntegerLiteral(n) => n,
            _ => {
                return Err(parse_error(i + 6));
            },
        };
        let d = Declaration {
            header_name: LowerIdent(header_name),
            header_type: UpperIdent(header_type),
            body_name: LowerIdent(body_name),
            body: Expr::IntegerLiteral(body),
        };
        proof {
            assert(decl_shape(toks, i as int));
            assert(parse_fail_pos(toks, i as int) == parse_fail_pos(toks, i + 7));
            assert(d == decl_at(toks, i as int));
            if spec_parse(toks, i + 7) is Some {
                assert((decls@ + seq![d]) + spec_parse(toks, i + 7)->Some_0 =~= decls@ + (seq![
                    d,
                ] + spec_parse(toks, i + 7)->Some_0));
            }
            assert(decls@.push(d) =~= decls@ + seq![d]);
        }
        decls.push(d);
        i = i + 7;
    }
    proof {
        assert(spec_parse(toks, i as int) == Some(Seq::<Declaration>::empty()));
        assert(decls@ + Seq::<Declaration>::empty() =~= decls@);
    }
    Ok(SyntaxTree { declarations: decls })
}

/// What a front-end failure on `s` reports: a lexical failure surfaces the
/// lexer's message for the first unclassifiable character, unchanged and
/// before any grammar matching; otherwise no production matched, and the
/// parser's message names the offending token's position.
pub open spec fn parse_failure(s: Seq<char>, e: Error) -> bool {
    ||| (spec_lex(s, 0) matches Err(c) && e.0@ == lex_error_text(c))
    ||| (spec_lex(s, 0) matches Ok(toks) && spec_parse(toks, 0) is None && e.0@
        == parser_error_text(parse_fail_pos(toks, 0)))
}

/// The failure half of idempotence: the reported message is a function of
/// the source text alone, so two failing calls on the same source return
/// the same error message.
pub proof fn lemma_parse_failure_deterministic(s: Seq<char>, e1: Error, e2: Error)
    requires
        parse_failure(s, e1),
        parse_failure(s, e2),
    ensures
        e1.0@ == e2.0@,
{
}

/// Lex the source text and parse the resulting token sequence.
pub fn parse(source: &str) -> (r: Result<SyntaxTree, Error>)
    ensures
        match r {
            Ok(t) => spec_lex(source@, 0) matches Ok(toks) && spec_parse(toks, 0) == Some(
                t.declarations@,
            ),
            Err(e) => parse_failure(source@, e),
        },
{
    let tokens = match lex(source) {
        Ok(t) => t,
        Err(e) => {
            return Err(e);
        },
    };
    root(&tokens)
}

} // verus!
