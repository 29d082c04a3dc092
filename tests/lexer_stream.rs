use risl::context::ParseContext;
use risl::diagnostic::DiagContext;
use risl::emitter::new_emitter_none;
use risl::lexer::lex;
use risl::span::Span;
use risl::token::{IntegerBase, IntegerLiteral, Token};

fn stubbed_parse_context() -> ParseContext {
    ParseContext::new(DiagContext::new(new_emitter_none()))
}

#[test]
fn lexer_lex_empty() {
    let source = "";
    let context = stubbed_parse_context();
    let tokens = lex(&context, source);
    assert_eq!(tokens, Vec::<Token>::new());
}

#[test]
fn lexer_lex_simple_assignment() {
    let source = "let answer =   42;";
    let context = stubbed_parse_context();
    let tokens = lex(&context, source);
    assert_eq!(
        tokens,
        vec![
            Token::Identifier(Span::new(0, 3)),
            Token::Identifier(Span::new(4, 10)),
            Token::Equal,
            Token::Integer(IntegerLiteral {
                base: IntegerBase::Dec,
                value: Span::new(15, 17),
                suffix: Span::new(17, 17),
            }),
            Token::Semicolon,
        ]
    );
}

#[test]
fn lex_invalid() {
    let source = "@@@@@";
    let context = stubbed_parse_context();
    let tokens = lex(&context, source);
    assert_eq!(tokens, vec![Token::Error(Span::new(0, 5))]);
}

#[test]
fn lex_ident_then_invalid_then_ident() {
    let source = "hello@@@@@world";
    let context = stubbed_parse_context();
    let tokens = lex(&context, source);
    assert_eq!(
        tokens,
        vec![
            Token::Identifier(Span::new(0, 5)),
            Token::Error(Span::new(5, 10)),
            Token::Identifier(Span::new(10, 15)),
        ]
    );
}

#[test]
fn lex_invalid_then_ident_then_invalid() {
    let source = "@@@@@hello@@@@@";
    let context = stubbed_parse_context();
    let tokens = lex(&context, source);
    assert_eq!(
        tokens,
        vec![
            Token::Error(Span::new(0, 5)),
            Token::Identifier(Span::new(5, 10)),
            Token::Error(Span::new(10, 15)),
        ]
    );
}

#[test]
fn tests_lex_empty() {
    let source = "";
    let context = stubbed_parse_context();
    let tokens = lex(&context, source);
    assert!(tokens.is_empty());
}

#[test]
fn tests_lex_simple_assignment() {
    let source = "let answer = 42;";
    let context = stubbed_parse_context();
    let tokens = lex(&context, source);
    assert!(!tokens.is_empty());
}
