use vstd::prelude::*;
use crate::chars::{
    white_space,
    is_digit_base10_continuation, is_digit_base16_continuation, is_digit_base2_continuation,
    is_digit_base8_continuation, is_digit_start, dec_digit, is_identifier_continuation, is_identifier_start,
    is_not_newline, is_whitespace,
};
use crate::context::ParseContext;
use crate::cursor::Cursor;
use crate::grammar::{
    bin_p, comment_end, dec_p, digit_p, hex_p, ident_p, lemma_comment_end, lemma_run_end,
    lemma_run_end_unique, lemma_lex_token_advances, lemma_step_measure, lex_exponent, measure, scan,
    stream, tokens, lemma_stream, lemma_scan, lex_number, lex_token, line_p, oct_p, prefix_base,
    run_end, span_of, step, ws_p,
};
use crate::span::{lemma_merge_wf, Span, SpanMerger};
use crate::text::{byte_len, lemma_offset_in, lemma_offset_mono, lemma_offset_step, offset, utf8_width};
use crate::token::{FloatLiteral, IntegerBase, IntegerLiteral, Token};

verus! {

/// The faults in a source text that a later phase reports.
#[derive(PartialEq, Eq, Structural, Debug, Copy, Clone)]
pub enum Error {
    UnknownToken,
    NoDigitLiteral,
    InvalidDigitLiteral,
    EmptyExponentFloat,
    FloatLiteralUnsupportedBase,
}

/// The lexer for the Risl language: it hands out the tokens of a source text
/// one at a time.
pub struct Lexer<'ctx, 'src> {
    /// Where diagnostics would go; lexing itself reports nothing.
    pub context: &'ctx ParseContext,
    /// The text being lexed.
    pub source: &'src str,
    /// The reading position in `source`.
    pub cursor: Cursor<'src>,
    /// A token found by the last call, to be returned by the next one.
    pub pending_token: Option<Token>,
}

impl<'ctx, 'src> Lexer<'ctx, 'src> {
    /// The cursor reads `source`, and every byte offset fits in a span.
    pub open spec fn wf(&self) -> bool {
        &&& self.cursor.wf()
        &&& self.cursor.source == self.source
        &&& byte_len(self.source@) <= u32::MAX
        &&& self.pending_token matches Some(t) ==> !(t is Whitespace) && !(t is Error)
    }

    /// The tokens that the calls of `next_token` still return, in order.
    pub open spec fn remaining(&self) -> Seq<Token> {
        stream(self.text(), self.pos(), self.pending_token)
    }

    /// The characters of the text.
    pub open spec fn text(&self) -> Seq<char> {
        self.cursor.chars@
    }

    /// The index of the next character to read.
    pub open spec fn pos(&self) -> int {
        self.cursor.index as int
    }

    /// `next` reads the same text as `self`, at index `i`, with the same token pending.
    pub open spec fn moved(&self, next: &Self, i: int) -> bool {
        &&& next.wf()
        &&& next.context == self.context
        &&& next.source == self.source
        &&& next.pending_token == self.pending_token
        &&& self.cursor.moved_to(&next.cursor, i)
    }

    /// Creates a lexer at the start of `source`.
    pub fn new(context: &'ctx ParseContext, source: &'src str) -> (r: Lexer<'ctx, 'src>)
        requires
            byte_len(source@) <= u32::MAX,
        ensures
            r.wf(),
            r.context == context,
            r.source == source,
            r.text() == source@,
            r.pos() == 0,
            r.pending_token is None,
            r.remaining() == tokens(source@),
            r.remaining().len() <= source@.len(),
            forall|k: int| 0 <= k < r.remaining().len() ==> !(#[trigger] r.remaining()[k] is Whitespace),
    {
        proof {
            lemma_stream(source@, 0, None);
        }
        Lexer { context, source, cursor: Cursor::new(source), pending_token: None }
    }

    /// Consumes the characters of which `predicate` holds and returns their span.
    fn take_while<F: Fn(char) -> bool>(&mut self, predicate: F, Ghost(p): Ghost<spec_fn(char) -> bool>) -> (r: Span)
        requires
            old(self).wf(),
            forall|c: char| predicate.requires((c,)),
            forall|c: char, b: bool| predicate.ensures((c,), b) ==> b == p(c),
        ensures
            old(self).moved(final(self), run_end(old(self).text(), old(self).pos(), p)),
            r == span_of(old(self).text(), old(self).pos(), final(self).pos()),
            r.wf(),
    {
        let ghost s = self.text();
        let ghost i = self.pos();
        let start = self.cursor.consumed;
        self.cursor.advance_while(predicate);
        let end = self.cursor.consumed;
        proof {
            assert forall|k: int| i <= k < self.pos() implies #[trigger] p(s[k]) by {
                assert(predicate.ensures((self.cursor.chars@[k],), true));
            }
            if self.pos() < s.len() {
                assert(predicate.ensures((self.cursor.chars@[self.pos()],), false));
            }
            lemma_run_end_unique(s, i, self.pos(), p);
            lemma_offset_mono(s, i, self.pos());
            lemma_offset_in(s, self.pos());
        }
        Span::new(start, end)
    }

    /// Takes the identifier whose first character, already consumed, is `first_char`.
    pub fn tokenize_identifier(&mut self, first_char: char) -> (r: Token)
        requires
            old(self).wf(),
            old(self).pos() >= 1,
            old(self).text()[old(self).pos() - 1] == first_char,
        ensures
            old(self).moved(final(self), run_end(old(self).text(), old(self).pos(), ident_p())),
            r == Token::Identifier(span_of(old(self).text(), old(self).pos() - 1, final(self).pos())),
    {
        let ghost s = self.text();
        let ghost i = self.pos();
        let mut identifier = self.take_while(is_identifier_continuation, Ghost(ident_p()));
        proof {
            lemma_offset_step(s, i - 1);
            lemma_offset_in(s, i - 1);
            lemma_offset_in(s, i);
        }
        identifier.start = identifier.start - utf8_width(first_char) as u32;
        Token::Identifier(identifier)
    }

    /// Consumes the base prefix after a leading `0`, if there is one, and
    /// returns the base it announces.
    fn extract_number_base(&mut self, first_digit: char) -> (r: Option<IntegerBase>)
        requires
            old(self).wf(),
            old(self).pos() >= 1,
            old(self).text()[old(self).pos() - 1] == first_digit,
        ensures
            ({
                let s = old(self).text();
                let i = old(self).pos() - 1;
                let prefixed = s[i] == '0' && i + 1 < s.len() && prefix_base(s[i + 1]) is Some;
                &&& r == if prefixed { prefix_base(s[i + 1]) } else { None }
                &&& old(self).moved(final(self), if prefixed { i + 2 } else { i + 1 })
            }),
    {
        if first_digit == '0' {
            match self.cursor.peek() {
                Some('b') => {
                    self.cursor.next();
                    Some(IntegerBase::Bin)
                },
                Some('o') => {
                    self.cursor.next();
                    Some(IntegerBase::Oct)
                },
                Some('x') => {
                    self.cursor.next();
                    Some(IntegerBase::Hex)
                },
                _ => None,
            }
        } else {
            None
        }
    }

    /// Takes an exponent, just after its `e` or `E`: an optional sign, then digits.
    fn extract_float_exponent(&mut self) -> (r: Span)
        requires
            old(self).wf(),
        ensures
            (r, final(self).pos()) == lex_exponent(old(self).text(), old(self).pos()),
            old(self).moved(final(self), final(self).pos()),
    {
        let ghost s = self.text();
        let ghost i = self.pos();
        let mut sign = false;
        if let Some(c) = self.cursor.peek() {
            if c == '-' || c == '+' {
                self.cursor.next();
                sign = true;
            }
        }
        let mut exponent = self.take_while(is_digit_base10_continuation, Ghost(dec_p()));
        if sign {
            proof {
                lemma_offset_step(s, i);
                lemma_offset_in(s, i);
                lemma_offset_in(s, i + 1);
            }
            exponent.start = exponent.start - 1;
        }
        exponent
    }

    /// Takes the number literal whose first digit, already consumed, is `first_digit`.
    pub fn tokenize_number(&mut self, first_digit: char) -> (r: Token)
        requires
            old(self).wf(),
            old(self).pos() >= 1,
            old(self).text()[old(self).pos() - 1] == first_digit,
            dec_digit(first_digit),
        ensures
            (r, final(self).pos()) == lex_number(old(self).text(), old(self).pos() - 1),
            old(self).moved(final(self), final(self).pos()),
    {
        let ghost s = self.text();
        let ghost i = self.pos() - 1;
        let (base, value) = match self.extract_number_base(first_digit) {
            None => {
                let mut value = self.take_while(is_digit_base10_continuation, Ghost(dec_p()));
                proof {
                    lemma_offset_step(s, i);
                    lemma_offset_in(s, i);
                    lemma_offset_in(s, i + 1);
                }
                // The first digit is ASCII: one byte.
                value.start = value.start - 1;
                (IntegerBase::Dec, value)
            },
            Some(IntegerBase::Bin) => (IntegerBase::Bin, self.take_while(is_digit_base2_continuation, Ghost(bin_p()))),
            Some(IntegerBase::Oct) => (IntegerBase::Oct, self.take_while(is_digit_base8_continuation, Ghost(oct_p()))),
            Some(IntegerBase::Hex) => (IntegerBase::Hex, self.take_while(is_digit_base16_continuation, Ghost(hex_p()))),
            Some(IntegerBase::Dec) => (IntegerBase::Dec, self.take_while(is_digit_base10_continuation, Ghost(dec_p()))),
        };
        let ghost k = self.pos();
        assert(k == run_end(s, if base == IntegerBase::Dec { i + 1 } else { i + 2 }, digit_p(base)));
        if let Some('.') = self.cursor.peek() {
            if let Some(c) = self.cursor.peek_nth(1) {
                if c != '.' && !is_identifier_start(c) {
                    self.cursor.next();
                    let integer_part = value;
                    let fractional_part = self.take_while(is_digit_base10_continuation, Ghost(dec_p()));
                    let exponent = match self.cursor.peek() {
                        Some('e') | Some('E') => {
                            self.cursor.next();
                            self.extract_float_exponent()
                        },
                        _ => {
                            proof {
                                lemma_offset_in(s, self.pos());
                            }
                            Span::new_empty(self.cursor.consumed)
                        },
                    };
                    let suffix = self.take_while(is_identifier_continuation, Ghost(ident_p()));
                    return Token::Float(FloatLiteral { base, integer_part, fractional_part, exponent, suffix });
                }
            }
        } else if !matches!(base, IntegerBase::Hex) {
            match self.cursor.peek() {
                Some('e') | Some('E') => {
                    let integer_part = value;
                    proof {
                        lemma_offset_in(s, self.pos());
                    }
                    let fractional_part = Span::new_empty(self.cursor.consumed);
                    self.cursor.next();
                    let exponent = self.extract_float_exponent();
                    let suffix = self.take_while(is_identifier_continuation, Ghost(ident_p()));
                    return Token::Float(FloatLiteral { base, integer_part, fractional_part, exponent, suffix });
                },
                _ => {},
            }
        }
        let suffix = self.take_while(is_identifier_continuation, Ghost(ident_p()));
        Token::Integer(IntegerLiteral { base, value, suffix })
    }
}


impl<'ctx, 'src> Lexer<'ctx, 'src> {
    /// Consumes the whitespace that follows `first_ws`, which was consumed already.
    fn skip_whitespaces(&mut self, first_ws: char)
        requires
            old(self).wf(),
        ensures
            old(self).moved(final(self), run_end(old(self).text(), old(self).pos(), ws_p())),
    {
        let ghost s = self.text();
        let ghost i = self.pos();
        loop
            invariant
                s == old(self).text(),
                i == old(self).pos(),
                old(self).moved(self, self.pos()),
                i <= self.pos() <= s.len(),
                forall|k: int| i <= k < self.pos() ==> white_space(#[trigger] s[k]),
            ensures
                old(self).moved(self, self.pos()),
                i <= self.pos() <= s.len(),
                forall|k: int| i <= k < self.pos() ==> white_space(#[trigger] s[k]),
                self.pos() < s.len() ==> !white_space(s[self.pos()]),
            decreases s.len() - self.pos(),
        {
            match self.cursor.peek() {
                Some(next) => {
                    if is_whitespace(next) {
                        self.cursor.next();
                    } else {
                        break;
                    }
                },
                None => {
                    break;
                },
            }
        }
        proof {
            lemma_run_end_unique(s, i, self.pos(), ws_p());
        }
    }

    /// Consumes a block comment up to the `*/` that closes the one already
    /// opened, or to the end of the text. Returns whether it was closed.
    fn advance_until_end_of_comment(&mut self) -> (closed: bool)
        requires
            old(self).wf(),
        ensures
            (final(self).pos(), closed) == comment_end(old(self).text(), old(self).pos(), 1),
            old(self).moved(final(self), final(self).pos()),
    {
        let ghost s = self.text();
        let ghost i = self.pos();
        let mut nested_comment_level: usize = 1;
        loop
            invariant
                s == old(self).text(),
                i == old(self).pos(),
                old(self).moved(self, self.pos()),
                i <= self.pos() <= s.len(),
                1 <= nested_comment_level <= self.pos() + 1,
                comment_end(s, self.pos(), nested_comment_level as nat) == comment_end(s, i, 1),
            decreases s.len() - self.pos(),
        {
            match self.cursor.next() {
                Some(c) => {
                    if c == '/' {
                        if let Some('*') = self.cursor.peek() {
                            self.cursor.next();
                            nested_comment_level = nested_comment_level + 1;
                        }
                    } else if c == '*' {
                        if let Some('/') = self.cursor.peek() {
                            self.cursor.next();
                            if nested_comment_level == 1 {
                                return true;
                            }
                            nested_comment_level = nested_comment_level - 1;
                        }
                    }
                },
                None => {
                    return false;
                },
            }
        }
    }

    /// Takes the token that starts with `c`, the character just consumed.
    pub fn parse_token(&mut self, c: char) -> (r: Token)
        requires
            old(self).wf(),
            old(self).pos() >= 1,
            old(self).text()[old(self).pos() - 1] == c,
        ensures
            (r, final(self).pos()) == lex_token(old(self).text(), old(self).pos() - 1),
            old(self).moved(final(self), final(self).pos()),
    {
        let ghost s = self.text();
        let ghost i = self.pos() - 1;
        match c {
            '(' => Token::LeftParen,
            ')' => Token::RightParen,
            '{' => Token::LeftBrace,
            '}' => Token::RightBrace,
            '[' => Token::LeftBracket,
            ']' => Token::RightBracket,
            ',' => Token::Comma,
            '.' => Token::Dot,
            '-' => Token::Minus,
            '+' => Token::Plus,
            ':' => Token::Colon,
            ';' => Token::Semicolon,
            '/' => match self.cursor.peek() {
                Some('/') => {
                    self.cursor.next();
                    Token::LineComment(self.take_while(is_not_newline, Ghost(line_p())))
                },
                Some('*') => {
                    self.cursor.next();
                    let start = self.cursor.consumed;
                    let closed = self.advance_until_end_of_comment();
                    proof {
                        lemma_comment_end(s, i + 2, 1);
                        let e = self.pos();
                        lemma_offset_in(s, i + 2);
                        lemma_offset_in(s, e);
                        if closed {
                            lemma_offset_step(s, e - 2);
                            lemma_offset_step(s, e - 1);
                            lemma_offset_mono(s, i + 2, e - 2);
                        } else {
                            lemma_offset_mono(s, i + 2, e);
                        }
                    }
                    // Leave out the closing `*/`, when there is one.
                    let end = if closed {
                        self.cursor.consumed - 2
                    } else {
                        self.cursor.consumed
                    };
                    Token::BlockComment(Span::new(start, end))
                },
                _ => Token::Slash,
            },
            '\\' => Token::Backslash,
            '*' => Token::Star,
            '&' => Token::Ampersand,
            '|' => Token::Pipe,
            '!' => match self.cursor.peek() {
                Some('=') => {
                    self.cursor.next();
                    Token::NotEqual
                },
                _ => Token::Not,
            },
            '=' => match self.cursor.peek() {
                Some('=') => {
                    self.cursor.next();
                    Token::EqualEqual
                },
                _ => Token::Equal,
            },
            '>' => match self.cursor.peek() {
                Some('=') => {
                    self.cursor.next();
                    Token::GreaterEqual
                },
                _ => Token::Greater,
            },
            '<' => match self.cursor.peek() {
                Some('=') => {
                    self.cursor.next();
                    Token::LessEqual
                },
                _ => Token::Less,
            },
            _ => {
                if is_whitespace(c) {
                    self.skip_whitespaces(c);
                    Token::Whitespace
                } else if is_digit_start(c) {
                    self.tokenize_number(c)
                } else if is_identifier_start(c) {
                    self.tokenize_identifier(c)
                } else {
                    proof {
                        lemma_offset_step(s, i);
                        lemma_offset_in(s, i);
                        lemma_offset_in(s, i + 1);
                    }
                    let end = self.cursor.consumed;
                    Token::Error(Span::new(end - utf8_width(c), end))
                }
            },
        }
    }
}

impl<'ctx, 'src> Lexer<'ctx, 'src> {
    /// Returns the next token of the text, or `None` once the text is
    /// exhausted. Whitespace is skipped; a run of unknown characters comes out
    /// as one error token, before the token that ends the run, which is kept
    /// for the next call.
    pub fn next_token(&mut self) -> (r: Option<Token>)
        requires
            old(self).wf(),
        ensures
            (r, final(self).pos(), final(self).pending_token) == step(
                old(self).text(),
                old(self).pos(),
                old(self).pending_token,
            ),
            final(self).wf(),
            final(self).context == old(self).context,
            final(self).source == old(self).source,
            final(self).text() == old(self).text(),
            r is Some ==> measure(final(self).text(), final(self).pos(), final(self).pending_token)
                < measure(old(self).text(), old(self).pos(), old(self).pending_token),
            r matches Some(t) ==> !(t is Whitespace) && old(self).remaining() == seq![t] + final(self).remaining(),
            r is None ==> old(self).remaining().len() == 0 && final(self).remaining().len() == 0,
    {
        proof {
            lemma_step_measure(old(self).text(), old(self).pos(), old(self).pending_token);
            if old(self).pending_token is None {
                lemma_scan(old(self).text(), old(self).pos(), None);
            }
        }
        let ghost s = self.text();
        let ghost i0 = self.pos();
        proof {
            lemma_step_measure(s, i0, self.pending_token);
        }
        if self.pending_token.is_some() {
            let token = self.pending_token;
            self.pending_token = None;
            return token;
        }
        let mut invalid_token_span: Option<Span> = None;
        loop
            invariant
                self.wf(),
                self.pending_token is None,
                old(self).pending_token is None,
                self.context == old(self).context,
                self.source == old(self).source,
                self.text() == s,
                s == old(self).text(),
                i0 == old(self).pos(),
                i0 <= self.pos() <= s.len(),
                scan(s, self.pos(), invalid_token_span) == scan(s, i0, None),
                invalid_token_span matches Some(a) ==> a.wf() && a.end <= offset(s, self.pos()),
            decreases s.len() - self.pos(),
        {
            let ghost i = self.pos();
            match self.cursor.next() {
                Some(c) => {
                    proof {
                        lemma_lex_token_advances(s, i);
                    }
                    let token = self.parse_token(c);
                    if token.is_skippable() {
                        proof {
                            lemma_offset_mono(s, i, self.pos());
                        }
                        continue;
                    }
                    if let Token::Error(span) = token {
                        proof {
                            lemma_offset_mono(s, i, i + 1);
                            lemma_offset_in(s, i);
                            lemma_offset_in(s, i + 1);
                            lemma_merge_wf(invalid_token_span, span);
                        }
                        invalid_token_span.merge(span);
                        continue;
                    }
                    assert(scan(s, i, invalid_token_span) == (
                        match invalid_token_span {
                            Some(a) => (Some(Token::Error(a)), self.pos(), Some(token)),
                            None => (Some(token), self.pos(), None),
                        }
                    ));
                    match invalid_token_span {
                        Some(span) => {
                            // The run of unknown characters comes first; the
                            // token that ended it waits for the next call.
                            self.pending_token = Some(token);
                            return Some(Token::Error(span));
                        },
                        None => {
                            return Some(token);
                        },
                    }
                },
                None => {
                    return match invalid_token_span {
                        Some(span) => Some(Token::Error(span)),
                        None => None,
                    };
                },
            }
        }
    }
}

/// Lexes the whole of `source` and returns its tokens, in order.
pub fn lex(context: &ParseContext, source: &str) -> (r: Vec<Token>)
    requires
        byte_len(source@) <= u32::MAX,
    ensures
        r@ == tokens(source@),
{
    let mut lexer = Lexer::new(context, source);
    let mut result: Vec<Token> = Vec::new();
    let ghost s = source@;
    loop
        invariant_except_break
            result@ + stream(s, lexer.pos(), lexer.pending_token) == tokens(s),
        invariant
            lexer.wf(),
            lexer.text() == s,
            0 <= lexer.pos() <= s.len(),
        ensures
            result@ == tokens(s),
        decreases measure(s, lexer.pos(), lexer.pending_token),
    {
        let ghost i = lexer.pos();
        let ghost p = lexer.pending_token;
        proof {
            lemma_step_measure(s, i, p);
        }
        match lexer.next_token() {
            Some(token) => {
                assert(stream(s, i, p) == seq![token] + stream(s, lexer.pos(), lexer.pending_token));
                result.push(token);
                assert(result@ + stream(s, lexer.pos(), lexer.pending_token) =~= tokens(s));
            },
            None => {
                assert(result@ =~= tokens(s));
                break;
            },
        }
    }
    result
}

} // verus!
