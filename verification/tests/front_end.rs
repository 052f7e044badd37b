use icky::error::Error;
use icky::lexer::{lex, Span, Token};
use icky::syntax::{parse, Expr};
use icky::{eval, Value};

fn ok_tokens(source: &str) -> Vec<Token> {
    match lex(source) {
        Ok(toks) => toks,
        Err(Error(msg)) => panic!("lexing {:?} failed: {}", source, msg),
    }
}

#[test]
fn empty_source_lexes_to_nothing() {
    assert_eq!(ok_tokens(""), vec![]);
}

#[test]
fn single_character_tokens() {
    assert_eq!(
        ok_tokens(":;="),
        vec![Token::Colon, Token::Semicolon, Token::Equals]
    );
}

#[test]
fn lower_and_upper_names_are_classified_by_first_character() {
    assert_eq!(
        ok_tokens("foo Bar12"),
        vec![
            Token::LowerName(Span { start: 0, len: 3 }),
            Token::UpperName(Span { start: 4, len: 5 }),
        ]
    );
}

#[test]
fn name_spans_read_back_their_identifier() {
    let source = "foo Bar12";
    let toks = ok_tokens(source);
    let mut names = Vec::new();
    for t in toks {
        if let Some(sp) = t.name() {
            names.push(&source[sp.start..sp.start + sp.len]);
        }
    }
    assert_eq!(names, vec!["foo", "Bar12"]);
}

#[test]
fn names_consume_alphanumeric_continuations() {
    assert_eq!(
        ok_tokens("a1b2"),
        vec![Token::LowerName(Span { start: 0, len: 4 })]
    );
}

#[test]
fn whitespace_with_newline_folds_to_one_line_break() {
    assert_eq!(
        ok_tokens("a \n\n\t b"),
        vec![
            Token::LowerName(Span { start: 0, len: 1 }),
            Token::LineBreak,
            Token::LowerName(Span { start: 6, len: 1 }),
        ]
    );
}

#[test]
fn whitespace_without_newline_yields_no_token() {
    assert_eq!(
        ok_tokens("a \t b"),
        vec![
            Token::LowerName(Span { start: 0, len: 1 }),
            Token::LowerName(Span { start: 4, len: 1 }),
        ]
    );
}

#[test]
fn one_line_break_per_newline_bearing_run() {
    let toks = ok_tokens("a\n\nb \n c");
    let breaks = toks
        .iter()
        .filter(|t| matches!(t, Token::LineBreak))
        .count();
    assert_eq!(breaks, 2);
    assert_eq!(
        toks,
        vec![
            Token::LowerName(Span { start: 0, len: 1 }),
            Token::LineBreak,
            Token::LowerName(Span { start: 3, len: 1 }),
            Token::LineBreak,
            Token::LowerName(Span { start: 7, len: 1 }),
        ]
    );
}

#[test]
fn integer_zero_lexes_to_zero() {
    assert_eq!(ok_tokens("0"), vec![Token::IntegerLiteral(0)]);
}

#[test]
fn integer_thousand_lexes_to_thousand() {
    assert_eq!(ok_tokens("1000"), vec![Token::IntegerLiteral(1000)]);
}

#[test]
fn leading_zeros_do_not_change_the_value() {
    assert_eq!(ok_tokens("007"), vec![Token::IntegerLiteral(7)]);
    assert_eq!(ok_tokens("0007"), vec![Token::IntegerLiteral(7)]);
}

#[test]
fn lexing_is_deterministic() {
    let source = "a : Int\na = 0";
    assert_eq!(ok_tokens(source), ok_tokens(source));
}

#[test]
fn stray_character_fails_during_lexing() {
    let e = match lex("@") {
        Ok(toks) => panic!("lexing succeeded: {:?}", toks),
        Err(e) => e,
    };
    assert_eq!(e.0, "lexer: unexpected character: @");
    assert!(parse("@").is_err());
}

#[test]
fn token_accessors_pick_their_variant() {
    let sp = Span { start: 2, len: 3 };
    assert_eq!(Token::IntegerLiteral(41).integer_literal(), Some(41));
    assert_eq!(Token::LowerName(sp).integer_literal(), None);
    assert_eq!(Token::LowerName(sp).name(), Some(sp));
    assert_eq!(Token::UpperName(sp).name(), Some(sp));
    assert_eq!(Token::Colon.name(), None);
}

fn ok_tree(source: &str) -> icky::syntax::SyntaxTree {
    match parse(source) {
        Ok(t) => t,
        Err(Error(msg)) => panic!("parsing {:?} failed: {}", source, msg),
    }
}

#[test]
fn empty_source_parses_to_an_empty_tree() {
    assert_eq!(ok_tree("").declarations.len(), 0);
}

#[test]
fn declaration_with_newline_separator() {
    let tree = ok_tree("a : Int\na = 0");
    assert_eq!(tree.declarations.len(), 1);
    let d = tree.declarations[0];
    assert_eq!(d.header_name.0, Span { start: 0, len: 1 });
    assert_eq!(d.header_type.0, Span { start: 4, len: 3 });
    assert_eq!(d.body_name.0, Span { start: 8, len: 1 });
    assert_eq!(d.body, Expr::IntegerLiteral(0));
}

#[test]
fn declaration_with_semicolon_separator() {
    let newline = ok_tree("a : Int\na = 0");
    let semicolon = ok_tree("a : Int; a = 0");
    assert_eq!(newline.declarations.len(), 1);
    assert_eq!(semicolon.declarations.len(), 1);
    let n = newline.declarations[0];
    let s = semicolon.declarations[0];
    assert_eq!(n.header_name.0, s.header_name.0);
    assert_eq!(n.body, s.body);
}

fn err_message(r: Result<icky::syntax::SyntaxTree, Error>) -> String {
    match r {
        Ok(t) => panic!("parsing succeeded: {:?}", t),
        Err(Error(msg)) => msg,
    }
}

#[test]
fn missing_body_fails_during_parsing() {
    assert!(lex("a : Int").is_ok());
    assert_eq!(
        err_message(parse("a : Int")),
        "parser: no rule matched at token 0"
    );
}

#[test]
fn parser_failure_names_the_offending_token() {
    assert_eq!(
        err_message(parse("a : Int\na = b")),
        "parser: no rule matched at token 6"
    );
}

#[test]
fn lexical_failure_message_survives_parse_and_eval_unchanged() {
    let lex_msg = match lex("@") {
        Ok(toks) => panic!("lexing succeeded: {:?}", toks),
        Err(Error(msg)) => msg,
    };
    assert_eq!(lex_msg, "lexer: unexpected character: @");
    assert_eq!(err_message(parse("@")), lex_msg);
    match eval("@") {
        Ok(_) => panic!("evaluation succeeded"),
        Err(Error(msg)) => assert_eq!(msg, lex_msg),
    }
}

#[test]
fn parse_failure_is_deterministic() {
    let source = "a : Int";
    assert_eq!(err_message(parse(source)), err_message(parse(source)));
}

#[test]
fn parsing_is_idempotent() {
    let source = "a : Int\na = 0";
    let t1 = ok_tree(source);
    let t2 = ok_tree(source);
    assert_eq!(t1.declarations, t2.declarations);
}

#[test]
fn eval_maps_each_definition_to_its_value() {
    let ctx = eval("a : Int\na = 5").unwrap();
    assert_eq!(ctx.get("a"), Some(Value::Number(5)));
    assert_eq!(ctx.get("b"), None);
}

#[test]
fn eval_lets_a_later_definition_override_an_earlier_one() {
    let ctx = eval("a : Int\na = 1a : Int\na = 2").unwrap();
    assert_eq!(ctx.get("a"), Some(Value::Number(2)));
}

#[test]
fn eval_of_empty_source_has_no_names() {
    let ctx = eval("").unwrap();
    assert_eq!(ctx.get("a"), None);
}

#[test]
fn eval_resolves_non_ascii_names_by_character_spans() {
    let ctx = eval("\u{e9} : Int\n\u{e9} = 3").unwrap();
    assert_eq!(ctx.get("\u{e9}"), Some(Value::Number(3)));
}

#[test]
fn eval_propagates_both_error_kinds() {
    assert!(eval("@").is_err());
    assert!(eval("a : Int").is_err());
}
