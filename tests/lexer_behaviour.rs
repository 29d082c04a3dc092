use risl::chars::{is_identifier_continuation, is_identifier_start, is_whitespace};
use risl::context::ParseContext;
use risl::cursor::Cursor;
use risl::diagnostic::DiagContext;
use risl::emitter::{new_emitter_human_readable, new_emitter_none};
use risl::lexer::{lex, Lexer};
use risl::span::{Span, SpanMerger, SpanSubstr};
use risl::token::{FloatLiteral, IntegerBase, IntegerLiteral, Token, TokenStr};

fn context() -> ParseContext {
    ParseContext::new(DiagContext::new(new_emitter_none()))
}

fn lex_all(source: &str) -> Vec<Token> {
    lex(&context(), source)
}

#[test]
fn error_run_is_one_token() {
    assert_eq!(lex_all("@@@@@"), vec![Token::Error(Span::new(0, 5))]);
}

#[test]
fn error_run_between_identifiers() {
    assert_eq!(
        lex_all("hello@@@@@world"),
        vec![
            Token::Identifier(Span::new(0, 5)),
            Token::Error(Span::new(5, 10)),
            Token::Identifier(Span::new(10, 15)),
        ]
    );
}

#[test]
fn error_runs_around_identifier() {
    assert_eq!(
        lex_all("@@@@@hello@@@@@"),
        vec![
            Token::Error(Span::new(0, 5)),
            Token::Identifier(Span::new(5, 10)),
            Token::Error(Span::new(10, 15)),
        ]
    );
}

#[test]
fn whitespace_never_emitted() {
    let tokens = lex_all("  a \t\n b  ");
    assert_eq!(
        tokens,
        vec![Token::Identifier(Span::new(2, 3)), Token::Identifier(Span::new(7, 8))]
    );
    assert!(tokens.iter().all(|t| !t.is_skippable()));
}

#[test]
fn only_whitespace_gives_nothing() {
    assert_eq!(lex_all(" \n\t "), Vec::<Token>::new());
}

#[test]
fn error_run_spans_whitespace_between_unknown_characters() {
    assert_eq!(lex_all("@ @"), vec![Token::Error(Span::new(0, 3))]);
}

#[test]
fn hexadecimal_with_suffix_then_identifier() {
    assert_eq!(
        lex_all("0x123456suffix other"),
        vec![
            Token::Integer(IntegerLiteral {
                base: IntegerBase::Hex,
                value: Span::new(2, 8),
                suffix: Span::new(8, 14),
            }),
            Token::Identifier(Span::new(15, 20)),
        ]
    );
}

#[test]
fn hexadecimal_e_is_a_digit() {
    assert_eq!(
        lex_all("0x123456E2 other")[0],
        Token::Integer(IntegerLiteral {
            base: IntegerBase::Hex,
            value: Span::new(2, 10),
            suffix: Span::new(10, 10),
        })
    );
}

#[test]
fn decimal_exponent_makes_a_float() {
    assert_eq!(
        lex_all("123456E+2 other")[0],
        Token::Float(FloatLiteral {
            base: IntegerBase::Dec,
            integer_part: Span::new(0, 6),
            fractional_part: Span::new(6, 6),
            exponent: Span::new(7, 9),
            suffix: Span::new(9, 9),
        })
    );
}

#[test]
fn fraction_exponent_and_suffix() {
    assert_eq!(
        lex_all("1.5e-3f32"),
        vec![Token::Float(FloatLiteral {
            base: IntegerBase::Dec,
            integer_part: Span::new(0, 1),
            fractional_part: Span::new(2, 3),
            exponent: Span::new(4, 6),
            suffix: Span::new(6, 9),
        })]
    );
}

#[test]
fn range_is_not_a_fraction() {
    assert_eq!(
        lex_all("1..2"),
        vec![
            Token::Integer(IntegerLiteral {
                base: IntegerBase::Dec,
                value: Span::new(0, 1),
                suffix: Span::new(1, 1),
            }),
            Token::Dot,
            Token::Dot,
            Token::Integer(IntegerLiteral {
                base: IntegerBase::Dec,
                value: Span::new(3, 4),
                suffix: Span::new(4, 4),
            }),
        ]
    );
}

#[test]
fn member_access_is_not_a_fraction() {
    assert_eq!(
        lex_all("1.foo"),
        vec![
            Token::Integer(IntegerLiteral {
                base: IntegerBase::Dec,
                value: Span::new(0, 1),
                suffix: Span::new(1, 1),
            }),
            Token::Dot,
            Token::Identifier(Span::new(2, 5)),
        ]
    );
}

#[test]
fn octal_digits_stop_at_eight() {
    assert_eq!(
        lex_all("0o178"),
        vec![Token::Integer(IntegerLiteral {
            base: IntegerBase::Oct,
            value: Span::new(2, 4),
            suffix: Span::new(4, 5),
        })]
    );
}

#[test]
fn prefix_without_digits() {
    assert_eq!(
        lex_all("0x"),
        vec![Token::Integer(IntegerLiteral {
            base: IntegerBase::Hex,
            value: Span::new(2, 2),
            suffix: Span::new(2, 2),
        })]
    );
}

#[test]
fn nested_block_comment_closes_at_outermost() {
    assert_eq!(
        lex_all("/* /* the /**/ /* */ answer */*/"),
        vec![Token::BlockComment(Span::new(2, 30))]
    );
}

#[test]
fn unterminated_block_comment_runs_to_the_end() {
    assert_eq!(lex_all("/* open"), vec![Token::BlockComment(Span::new(2, 7))]);
    assert_eq!(lex_all("/*"), vec![Token::BlockComment(Span::new(2, 2))]);
    assert_eq!(lex_all("/* a /* b */"), vec![Token::BlockComment(Span::new(2, 12))]);
}

#[test]
fn line_comment_at_end_of_input() {
    assert_eq!(lex_all("// end"), vec![Token::LineComment(Span::new(2, 6))]);
}

#[test]
fn two_character_operators() {
    assert_eq!(
        lex_all("!= ! == = >= > <= < /"),
        vec![
            Token::NotEqual,
            Token::Not,
            Token::EqualEqual,
            Token::Equal,
            Token::GreaterEqual,
            Token::Greater,
            Token::LessEqual,
            Token::Less,
            Token::Slash,
        ]
    );
}

#[test]
fn single_character_tokens() {
    assert_eq!(
        lex_all("(){}[],.-+:;\\*&|"),
        vec![
            Token::LeftParen,
            Token::RightParen,
            Token::LeftBrace,
            Token::RightBrace,
            Token::LeftBracket,
            Token::RightBracket,
            Token::Comma,
            Token::Dot,
            Token::Minus,
            Token::Plus,
            Token::Colon,
            Token::Semicolon,
            Token::Backslash,
            Token::Star,
            Token::Ampersand,
            Token::Pipe,
        ]
    );
}

#[test]
fn spans_count_bytes_of_non_ascii_text() {
    // `é` takes two bytes and `λ` two as well.
    assert_eq!(
        lex_all("é λx 1"),
        vec![
            Token::Identifier(Span::new(0, 2)),
            Token::Identifier(Span::new(3, 6)),
            Token::Integer(IntegerLiteral {
                base: IntegerBase::Dec,
                value: Span::new(7, 8),
                suffix: Span::new(8, 8),
            }),
        ]
    );
}

#[test]
fn unknown_non_ascii_character_covers_its_bytes() {
    // `€` takes three bytes.
    assert_eq!(
        lex_all("a€b"),
        vec![
            Token::Identifier(Span::new(0, 1)),
            Token::Error(Span::new(1, 4)),
            Token::Identifier(Span::new(4, 5)),
        ]
    );
}

#[test]
fn next_token_delays_the_token_after_an_error_run() {
    let ctx = context();
    let mut lexer = Lexer::new(&ctx, "@@x");
    assert_eq!(lexer.next_token(), Some(Token::Error(Span::new(0, 2))));
    assert_eq!(lexer.pending_token, Some(Token::Identifier(Span::new(2, 3))));
    assert_eq!(lexer.next_token(), Some(Token::Identifier(Span::new(2, 3))));
    assert_eq!(lexer.next_token(), None);
    assert_eq!(lexer.next_token(), None);
}

#[test]
fn rendering_then_relexing_an_identifier() {
    let source = "let answer = 42;";
    let tokens = lex_all(source);
    let text = TokenStr::new(tokens[1], source).to_string();
    assert_eq!(text, "answer");
    assert_eq!(lex_all(&text), vec![Token::Identifier(Span::new(0, 6))]);
}

#[test]
fn rendering_then_relexing_an_integer() {
    let source = "x = 0x1f;";
    let tokens = lex_all(source);
    let span = Span::new(4, 8);
    let text = source.substr(span);
    assert_eq!(text, "0x1f");
    assert_eq!(
        lex_all(text),
        vec![Token::Integer(IntegerLiteral {
            base: IntegerBase::Hex,
            value: Span::new(2, 4),
            suffix: Span::new(4, 4),
        })]
    );
    assert_eq!(TokenStr::new(tokens[2], source).to_string(), "Hex, '1f', ''");
}

#[test]
fn rendering_a_float_and_keywords() {
    let source = "0x123456.0E-3suffix";
    let tokens = lex_all(source);
    assert_eq!(
        TokenStr::new(tokens[0], source).to_string(),
        "{Hex, '123456', '0', '-3', 'suffix'}"
    );
    assert_eq!(TokenStr::new(Token::Nil, "").to_string(), "nil");
    assert_eq!(TokenStr::new(Token::SelfType, "").to_string(), "Self");
    assert_eq!(TokenStr::new(Token::Backslash, "").to_string(), "\\");
    assert_eq!(TokenStr::new(Token::Error(Span::new(1, 4)), "a€b").to_string(), "€");
}

#[test]
fn cursor_operations() {
    let mut cursor = Cursor::new("aé!");
    assert_eq!(cursor.peek(), Some('a'));
    assert_eq!(cursor.peek_nth(1), Some('é'));
    assert_eq!(cursor.peek_nth(3), None);
    assert_eq!(cursor.next(), Some('a'));
    assert_eq!(cursor.consumed, 1);
    assert_eq!(cursor.as_str(), "é!");
    assert_eq!(cursor.next_nth(1), Some('!'));
    assert_eq!(cursor.consumed, 4);
    assert_eq!(cursor.next(), None);
    assert_eq!(cursor.consumed, 4);
    let mut other = Cursor::new("aab");
    other.advance_while(|c| c == 'a');
    assert_eq!(other.consumed, 2);
    assert_eq!(other.next_nth(5), None);
    assert_eq!(other.consumed, 2);
}

#[test]
fn span_merging() {
    let mut acc: Option<Span> = None;
    acc.merge(Span::new(0, 1));
    assert_eq!(acc, Some(Span::new(0, 1)));
    acc.merge(Span::new(3, 4));
    assert_eq!(acc, Some(Span::new(0, 4)));
    let mut s = Span::new(2, 3);
    s.merge(Span::new(3, 7));
    assert_eq!(s, Span::new(2, 7));
    assert_eq!(Span::new_empty(9), Span::new(9, 9));
}

#[test]
fn character_classes() {
    assert!(is_whitespace(' '));
    assert!(is_whitespace('\u{2003}'));
    assert!(!is_whitespace('a'));
    assert!(is_identifier_start('λ'));
    assert!(is_identifier_start('_'));
    assert!(!is_identifier_start('1'));
    assert!(is_identifier_continuation('1'));
    assert!(!is_identifier_continuation('-'));
}

#[test]
fn human_readable_emitter_context() {
    let ctx = ParseContext::new(DiagContext::new(new_emitter_human_readable()));
    assert_eq!(lex(&ctx, "a").len(), 1);
}

#[test]
fn next_token_never_returns_whitespace_and_ends() {
    let ctx = context();
    let source = "  a  @ /* c */ 1 ";
    let mut lexer = Lexer::new(&ctx, source);
    let mut count = 0;
    while let Some(t) = lexer.next_token() {
        assert!(!t.is_skippable());
        count += 1;
        assert!(count <= source.chars().count());
    }
    assert_eq!(count, 4);
    assert_eq!(lexer.next_token(), None);
}
