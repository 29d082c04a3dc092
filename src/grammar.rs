//! The lexical grammar, stated over the characters of the source.
use vstd::prelude::*;
use crate::chars::{bin_continue, dec_continue, dec_digit, hex_continue, ident_continue, ident_start, oct_continue, white_space};
use crate::span::{covers, lemma_span_text, on_chars, span_text, Span, SpanMerger};
use crate::text::{byte_len, lemma_encode_concat, lemma_offset_bounds, lemma_offset_in, offset};
use crate::token::{spans_on_chars, FloatLiteral, IntegerBase, IntegerLiteral, Token};

verus! {

pub open spec fn ws_p() -> spec_fn(char) -> bool {
    |c: char| white_space(c)
}

pub open spec fn ident_p() -> spec_fn(char) -> bool {
    |c: char| ident_continue(c)
}

pub open spec fn dec_p() -> spec_fn(char) -> bool {
    |c: char| dec_continue(c)
}

pub open spec fn bin_p() -> spec_fn(char) -> bool {
    |c: char| bin_continue(c)
}

pub open spec fn oct_p() -> spec_fn(char) -> bool {
    |c: char| oct_continue(c)
}

pub open spec fn hex_p() -> spec_fn(char) -> bool {
    |c: char| hex_continue(c)
}

pub open spec fn line_p() -> spec_fn(char) -> bool {
    |c: char| c != '\n'
}

/// The characters that may continue the digits of a literal in `base`.
pub open spec fn digit_p(base: IntegerBase) -> spec_fn(char) -> bool {
    match base {
        IntegerBase::Bin => bin_p(),
        IntegerBase::Oct => oct_p(),
        IntegerBase::Dec => dec_p(),
        IntegerBase::Hex => hex_p(),
    }
}

/// The first index at or after `i` holding a character of which `p` does not
/// hold, or the end of `s`.
pub open spec fn run_end(s: Seq<char>, i: int, p: spec_fn(char) -> bool) -> int
    decreases s.len() - i,
{
    if 0 <= i < s.len() && p(s[i]) {
        run_end(s, i + 1, p)
    } else {
        i
    }
}

/// Whether `s` holds `c` at index `i`.
pub open spec fn at(s: Seq<char>, i: int, c: char) -> bool {
    0 <= i < s.len() && s[i] == c
}

/// The span of bytes taken by the characters from index `i` to index `j`.
pub open spec fn span_of(s: Seq<char>, i: int, j: int) -> Span {
    Span { start: offset(s, i) as u32, end: offset(s, j) as u32 }
}

/// The base that a prefix letter after a leading `0` announces.
pub open spec fn prefix_base(c: char) -> Option<IntegerBase> {
    if c == 'b' {
        Some(IntegerBase::Bin)
    } else if c == 'o' {
        Some(IntegerBase::Oct)
    } else if c == 'x' {
        Some(IntegerBase::Hex)
    } else {
        None
    }
}

/// The exponent that starts at `i`, just after its `e` or `E`: an optional
/// sign then decimal digits. Its span includes the sign.
pub open spec fn lex_exponent(s: Seq<char>, i: int) -> (Span, int) {
    let d = if at(s, i, '+') || at(s, i, '-') {
        i + 1
    } else {
        i
    };
    let e = run_end(s, d, dec_p());
    (span_of(s, i, e), e)
}

/// Whether a `.` at index `k` starts a fractional part: it is followed by a
/// character that is neither `.` nor the start of an identifier.
pub open spec fn starts_fraction(s: Seq<char>, k: int) -> bool {
    at(s, k, '.') && k + 1 < s.len() && s[k + 1] != '.' && !ident_start(s[k + 1])
}

/// The number literal whose first digit is at index `i`, and the index after it.
pub open spec fn lex_number(s: Seq<char>, i: int) -> (Token, int) {
    let prefixed = s[i] == '0' && i + 1 < s.len() && prefix_base(s[i + 1]) is Some;
    let base = if prefixed {
        prefix_base(s[i + 1])->0
    } else {
        IntegerBase::Dec
    };
    let start = if prefixed {
        i + 2
    } else {
        i
    };
    let k = run_end(s, if prefixed { i + 2 } else { i + 1 }, digit_p(base));
    let value = span_of(s, start, k);
    if starts_fraction(s, k) {
        let f = run_end(s, k + 1, dec_p());
        let (exponent, e) = if at(s, f, 'e') || at(s, f, 'E') {
            lex_exponent(s, f + 1)
        } else {
            (span_of(s, f, f), f)
        };
        let x = run_end(s, e, ident_p());
        (
            Token::Float(
                FloatLiteral {
                    base,
                    integer_part: value,
                    fractional_part: span_of(s, k + 1, f),
                    exponent,
                    suffix: span_of(s, e, x),
                },
            ),
            x,
        )
    } else if base != IntegerBase::Hex && (at(s, k, 'e') || at(s, k, 'E')) {
        let (exponent, e) = lex_exponent(s, k + 1);
        let x = run_end(s, e, ident_p());
        (
            Token::Float(
                FloatLiteral {
                    base,
                    integer_part: value,
                    fractional_part: span_of(s, k, k),
                    exponent,
                    suffix: span_of(s, e, x),
                },
            ),
            x,
        )
    } else {
        let x = run_end(s, k, ident_p());
        (Token::Integer(IntegerLiteral { base, value, suffix: span_of(s, k, x) }), x)
    }
}

/// The end of a block comment whose body starts at `j`, at nesting `level`:
/// the index after the `*/` that closes it and `true`, or the end of `s` and
/// `false` when it is never closed.
pub open spec fn comment_end(s: Seq<char>, j: int, level: nat) -> (int, bool)
    decreases s.len() - j,
{
    if j < 0 || j >= s.len() {
        (j, false)
    } else if s[j] == '/' && at(s, j + 1, '*') {
        comment_end(s, j + 2, level + 1)
    } else if s[j] == '*' && at(s, j + 1, '/') {
        if level <= 1 {
            (j + 2, true)
        } else {
            comment_end(s, j + 2, (level - 1) as nat)
        }
    } else {
        comment_end(s, j + 1, level)
    }
}

/// A token of one or two characters: `two` when the next character is `=`.
pub open spec fn one_or_two(s: Seq<char>, i: int, one: Token, two: Token) -> (Token, int) {
    if at(s, i + 1, '=') {
        (two, i + 2)
    } else {
        (one, i + 1)
    }
}

/// The token that starts with the character at index `i`, and the index after it.
///
/// No punctuation character is whitespace, so whitespace is told apart
/// after the punctuation.
pub open spec fn lex_token(s: Seq<char>, i: int) -> (Token, int) {
    let c = s[i];
    if c == '(' {
        (Token::LeftParen, i + 1)
    } else if c == ')' {
        (Token::RightParen, i + 1)
    } else if c == '{' {
        (Token::LeftBrace, i + 1)
    } else if c == '}' {
        (Token::RightBrace, i + 1)
    } else if c == '[' {
        (Token::LeftBracket, i + 1)
    } else if c == ']' {
        (Token::RightBracket, i + 1)
    } else if c == ',' {
        (Token::Comma, i + 1)
    } else if c == '.' {
        (Token::Dot, i + 1)
    } else if c == '-' {
        (Token::Minus, i + 1)
    } else if c == '+' {
        (Token::Plus, i + 1)
    } else if c == ':' {
        (Token::Colon, i + 1)
    } else if c == ';' {
        (Token::Semicolon, i + 1)
    } else if c == '/' {
        if at(s, i + 1, '/') {
            let e = run_end(s, i + 2, line_p());
            (Token::LineComment(span_of(s, i + 2, e)), e)
        } else if at(s, i + 1, '*') {
            let (e, closed) = comment_end(s, i + 2, 1);
            (Token::BlockComment(span_of(s, i + 2, if closed { e - 2 } else { e })), e)
        } else {
            (Token::Slash, i + 1)
        }
    } else if c == '\\' {
        (Token::Backslash, i + 1)
    } else if c == '*' {
        (Token::Star, i + 1)
    } else if c == '&' {
        (Token::Ampersand, i + 1)
    } else if c == '|' {
        (Token::Pipe, i + 1)
    } else if c == '!' {
        one_or_two(s, i, Token::Not, Token::NotEqual)
    } else if c == '=' {
        one_or_two(s, i, Token::Equal, Token::EqualEqual)
    } else if c == '>' {
        one_or_two(s, i, Token::Greater, Token::GreaterEqual)
    } else if c == '<' {
        one_or_two(s, i, Token::Less, Token::LessEqual)
    } else if white_space(c) {
        (Token::Whitespace, run_end(s, i + 1, ws_p()))
    } else if dec_digit(c) {
        lex_number(s, i)
    } else if ident_start(c) {
        let e = run_end(s, i + 1, ident_p());
        (Token::Identifier(span_of(s, i, e)), e)
    } else {
        (Token::Error(span_of(s, i, i + 1)), i + 1)
    }
}


/// Facts on `run_end`: it lies between `i` and the end, `p` holds of every
/// character it skips and not of the one it stops at.
pub proof fn lemma_run_end(s: Seq<char>, i: int, p: spec_fn(char) -> bool)
    requires
        0 <= i <= s.len(),
    ensures
        i <= run_end(s, i, p) <= s.len(),
        forall|k: int| i <= k < run_end(s, i, p) ==> #[trigger] p(s[k]),
        run_end(s, i, p) < s.len() ==> !p(s[run_end(s, i, p)]),
    decreases s.len() - i,
{
    if i < s.len() && p(s[i]) {
        lemma_run_end(s, i + 1, p);
    }
}

/// `run_end` is the one index that the facts of `lemma_run_end` describe.
pub proof fn lemma_run_end_unique(s: Seq<char>, i: int, j: int, p: spec_fn(char) -> bool)
    requires
        0 <= i <= j <= s.len(),
        forall|k: int| i <= k < j ==> #[trigger] p(s[k]),
        j < s.len() ==> !p(s[j]),
    ensures
        run_end(s, i, p) == j,
    decreases j - i,
{
    if i < j {
        assert(p(s[i]));
        lemma_run_end_unique(s, i + 1, j, p);
    }
}

/// A block comment ends within the text, after a `*/` when it is closed and at
/// the end of the text when it is not.
pub proof fn lemma_comment_end(s: Seq<char>, j: int, level: nat)
    requires
        0 <= j <= s.len(),
        level >= 1,
    ensures
        j <= comment_end(s, j, level).0 <= s.len(),
        comment_end(s, j, level).1 ==> {
            let e = comment_end(s, j, level).0;
            &&& j + 2 <= e
            &&& s[e - 2] == '*'
            &&& s[e - 1] == '/'
        },
        !comment_end(s, j, level).1 ==> comment_end(s, j, level).0 == s.len(),
    decreases s.len() - j,
{
    if j < s.len() {
        if s[j] == '/' && at(s, j + 1, '*') {
            lemma_comment_end(s, j + 2, level + 1);
        } else if s[j] == '*' && at(s, j + 1, '/') {
            if level > 1 {
                lemma_comment_end(s, j + 2, (level - 1) as nat);
            }
        } else {
            lemma_comment_end(s, j + 1, level);
        }
    }
}

/// Every token takes at least one character, and none past the end.
pub proof fn lemma_lex_token_advances(s: Seq<char>, i: int)
    requires
        0 <= i < s.len(),
    ensures
        i < lex_token(s, i).1 <= s.len(),
{
    let c = s[i];
    lemma_run_end(s, i + 1, ws_p());
    lemma_run_end(s, i + 1, ident_p());
    if c == '/' && at(s, i + 1, '/') {
        lemma_run_end(s, i + 2, line_p());
    }
    if c == '/' && at(s, i + 1, '*') {
        lemma_comment_end(s, i + 2, 1);
    }
    if dec_digit(c) {
        lemma_lex_number_advances(s, i);
    }
}

pub proof fn lemma_lex_exponent(s: Seq<char>, i: int)
    requires
        0 <= i <= s.len(),
    ensures
        i <= lex_exponent(s, i).1 <= s.len(),
{
    let d = if at(s, i, '+') || at(s, i, '-') {
        i + 1
    } else {
        i
    };
    lemma_run_end(s, d, dec_p());
}

pub proof fn lemma_lex_number_advances(s: Seq<char>, i: int)
    requires
        0 <= i < s.len(),
    ensures
        i < lex_number(s, i).1 <= s.len(),
{
    let prefixed = s[i] == '0' && i + 1 < s.len() && prefix_base(s[i + 1]) is Some;
    let base = if prefixed {
        prefix_base(s[i + 1])->0
    } else {
        IntegerBase::Dec
    };
    let d = if prefixed {
        i + 2
    } else {
        i + 1
    };
    lemma_run_end(s, d, digit_p(base));
    let k = run_end(s, d, digit_p(base));
    if starts_fraction(s, k) {
        lemma_run_end(s, k + 1, dec_p());
        let f = run_end(s, k + 1, dec_p());
        if at(s, f, 'e') || at(s, f, 'E') {
            lemma_lex_exponent(s, f + 1);
            lemma_run_end(s, lex_exponent(s, f + 1).1, ident_p());
        } else {
            lemma_run_end(s, f, ident_p());
        }
    } else if base != IntegerBase::Hex && (at(s, k, 'e') || at(s, k, 'E')) {
        lemma_lex_exponent(s, k + 1);
        lemma_run_end(s, lex_exponent(s, k + 1).1, ident_p());
    } else {
        lemma_run_end(s, k, ident_p());
    }
}

/// One call of the lexer when nothing is pending, from index `i` with the
/// unknown characters met so far in `acc`: the token returned (if any), the
/// index reached, and the token kept for the next call (if any). Whitespace
/// is dropped, and adjacent runs of unknown characters are merged into one
/// error, which comes out before the token that ends it.
pub open spec fn scan(s: Seq<char>, i: int, acc: Option<Span>) -> (Option<Token>, int, Option<Token>)
    decreases s.len() - i,
    via scan_decreases
{
    if i < 0 || i >= s.len() {
        match acc {
            Some(a) => (Some(Token::Error(a)), i, None),
            None => (None, i, None),
        }
    } else {
        let (t, j) = lex_token(s, i);
        match t {
            Token::Whitespace => scan(s, j, acc),
            Token::Error(sp) => scan(s, j, acc.merged(sp)),
            _ => match acc {
                Some(a) => (Some(Token::Error(a)), j, Some(t)),
                None => (Some(t), j, None),
            },
        }
    }
}

#[via_fn]
proof fn scan_decreases(s: Seq<char>, i: int, acc: Option<Span>) {
    if 0 <= i < s.len() {
        lemma_lex_token_advances(s, i);
    }
}

/// One call of the lexer at index `i`, with `pending` kept from the call before.
pub open spec fn step(s: Seq<char>, i: int, pending: Option<Token>) -> (Option<Token>, int, Option<Token>) {
    match pending {
        Some(t) => (Some(t), i, None),
        None => scan(s, i, None),
    }
}

/// A bound on the number of tokens still to come.
pub open spec fn measure(s: Seq<char>, i: int, pending: Option<Token>) -> int {
    2 * (s.len() - i) + if pending is Some { 1int } else { 0int }
}

/// What `scan` returns: an index within the text, a token whenever something
/// was accumulated, and a pending token only after a token.
pub proof fn lemma_scan(s: Seq<char>, i: int, acc: Option<Span>)
    requires
        0 <= i <= s.len(),
    ensures
        i <= scan(s, i, acc).1 <= s.len(),
        scan(s, i, acc).0 is None ==> acc is None && scan(s, i, acc).2 is None && scan(s, i, acc).1 == s.len(),
        acc is None && scan(s, i, acc).0 is Some ==> i < scan(s, i, acc).1,
        scan(s, i, acc).2 is Some ==> i + (if acc is None { 2int } else { 1int }) <= scan(s, i, acc).1,
        scan(s, i, acc).0 matches Some(t) ==> !(t is Whitespace),
        scan(s, i, acc).2 matches Some(t) ==> !(t is Whitespace) && !(t is Error),
        scan(s, i, acc).0 matches Some(t) && t is Error ==> scan(s, i, acc).2 is Some || scan(s, i, acc).1
            == s.len(),
    decreases s.len() - i,
{
    if i < s.len() {
        lemma_lex_token_advances(s, i);
        let (t, j) = lex_token(s, i);
        match t {
            Token::Whitespace => lemma_scan(s, j, acc),
            Token::Error(sp) => lemma_scan(s, j, acc.merged(sp)),
            _ => {},
        }
    }
}

/// Each call that returns a token brings the measure down.
pub proof fn lemma_step_measure(s: Seq<char>, i: int, pending: Option<Token>)
    requires
        0 <= i <= s.len(),
    ensures
        0 <= step(s, i, pending).1 <= s.len(),
        step(s, i, pending).0 is Some ==> 0 <= measure(s, step(s, i, pending).1, step(s, i, pending).2) < measure(s, i, pending),
        step(s, i, pending).0 is None ==> step(s, i, pending).2 is None,
{
    if pending is None {
        lemma_scan(s, i, None);
    }
}

/// The tokens still to come from index `i`, with `pending` kept.
pub open spec fn stream(s: Seq<char>, i: int, pending: Option<Token>) -> Seq<Token>
    decreases measure(s, i, pending) when 0 <= i <= s.len()
    via stream_decreases
{
    let (r, j, p) = step(s, i, pending);
    match r {
        Some(t) => seq![t] + stream(s, j, p),
        None => Seq::empty(),
    }
}

#[via_fn]
proof fn stream_decreases(s: Seq<char>, i: int, pending: Option<Token>) {
    lemma_step_measure(s, i, pending);
}

/// The tokens of the text `s`, in order.
pub open spec fn tokens(s: Seq<char>) -> Seq<Token> {
    stream(s, 0, None)
}

/// From index `i`, with `pending` kept, no more tokens come than there are
/// characters left (and the pending one), and none of them is whitespace.
pub proof fn lemma_stream(s: Seq<char>, i: int, pending: Option<Token>)
    requires
        0 <= i <= s.len(),
        pending matches Some(t) ==> !(t is Whitespace),
    ensures
        stream(s, i, pending).len() <= s.len() - i + if pending is Some { 1int } else { 0int },
        forall|k: int| 0 <= k < stream(s, i, pending).len() ==> !(#[trigger] stream(s, i, pending)[k] is Whitespace),
    decreases measure(s, i, pending),
{
    lemma_step_measure(s, i, pending);
    if pending is None {
        lemma_scan(s, i, None);
    }
    let (r, j, p) = step(s, i, pending);
    if let Some(t) = r {
        lemma_stream(s, j, p);
        let rest = stream(s, j, p);
        assert(stream(s, i, pending) == seq![t] + rest);
        assert forall|k: int| 0 <= k < stream(s, i, pending).len() implies !(#[trigger] stream(s, i, pending)[k] is Whitespace) by {
            if k > 0 {
                assert(stream(s, i, pending)[k] == rest[k - 1]);
            }
        }
    }
}

/// From index `i`, with `pending` kept, no error token follows another.
proof fn lemma_stream_errors_apart(s: Seq<char>, i: int, pending: Option<Token>)
    requires
        0 <= i <= s.len(),
        pending matches Some(t) ==> !(t is Error),
    ensures
        forall|k: int|
            0 <= k < stream(s, i, pending).len() - 1 && #[trigger] stream(s, i, pending)[k] is Error ==> !(
            stream(s, i, pending)[k + 1] is Error),
    decreases measure(s, i, pending),
{
    lemma_step_measure(s, i, pending);
    if pending is None {
        lemma_scan(s, i, None);
    }
    let (r, j, p) = step(s, i, pending);
    if let Some(t) = r {
        lemma_stream_errors_apart(s, j, p);
        let rest = stream(s, j, p);
        assert(stream(s, i, pending) == seq![t] + rest);
        if t is Error {
            lemma_step_measure(s, j, p);
            if let Some(v) = p {
                assert(rest == seq![v] + stream(s, j, None));
            } else {
                assert(j == s.len());
                lemma_scan(s, j, None);
                assert(rest =~= Seq::<Token>::empty());
            }
        }
        assert forall|k: int|
            0 <= k < stream(s, i, pending).len() - 1 && #[trigger] stream(s, i, pending)[k] is Error implies !(
            stream(s, i, pending)[k + 1] is Error) by {
            if k > 0 {
                assert(stream(s, i, pending)[k] == rest[k - 1]);
                assert(stream(s, i, pending)[k + 1] == rest[k]);
            }
        }
    }
}

/// Unknown characters never come out one by one: no error token of the
/// lexer follows another, since each run of them is merged into one error.
pub proof fn lemma_errors_coalesced(s: Seq<char>)
    ensures
        forall|k: int| 0 <= k < tokens(s).len() - 1 && #[trigger] tokens(s)[k] is Error ==> !(tokens(s)[k + 1] is Error),
{
    lemma_stream_errors_apart(s, 0, None);
}

/// The lexer ends on every text: its tokens are finitely many, at most one
/// for each character.
pub proof fn lemma_tokens_finite(s: Seq<char>)
    ensures
        tokens(s).len() <= s.len(),
{
    lemma_stream(s, 0, None);
}

/// Whitespace never comes out of the lexer: it only separates tokens.
pub proof fn lemma_no_whitespace_token(s: Seq<char>)
    ensures
        forall|k: int| 0 <= k < tokens(s).len() ==> !(#[trigger] tokens(s)[k] is Whitespace),
{
    lemma_stream(s, 0, None);
}

/// Whether `t` is the token that the lexer takes at index `m` of `s`.
pub open spec fn lexed_at(s: Seq<char>, m: int, t: Token) -> bool {
    0 <= m < s.len() && lex_token(s, m).0 == t
}

/// Every token that `scan` returns, but for a merged error, is one that the
/// lexer takes at some index of the text.
proof fn lemma_scan_origin(s: Seq<char>, i: int, acc: Option<Span>)
    requires
        0 <= i <= s.len(),
    ensures
        scan(s, i, acc).0 matches Some(t) ==> (t is Error || exists|m: int| lexed_at(s, m, t)),
        scan(s, i, acc).2 matches Some(t) ==> exists|m: int| lexed_at(s, m, t),
    decreases s.len() - i,
{
    if i < s.len() {
        lemma_lex_token_advances(s, i);
        let (t, j) = lex_token(s, i);
        match t {
            Token::Whitespace => lemma_scan_origin(s, j, acc),
            Token::Error(sp) => lemma_scan_origin(s, j, acc.merged(sp)),
            _ => {
                assert(lexed_at(s, i, t));
            },
        }
    }
}

/// Every token of the stream, but for a merged error, is one that the lexer
/// takes at some index of the text.
proof fn lemma_stream_origin(s: Seq<char>, i: int, pending: Option<Token>)
    requires
        0 <= i <= s.len(),
        pending matches Some(t) ==> exists|m: int| lexed_at(s, m, t),
    ensures
        forall|k: int|
            0 <= k < stream(s, i, pending).len() && !(stream(s, i, pending)[k] is Error) ==> exists|m: int|
                lexed_at(s, m, #[trigger] stream(s, i, pending)[k]),
    decreases measure(s, i, pending),
{
    lemma_step_measure(s, i, pending);
    if pending is None {
        lemma_scan_origin(s, i, None);
    }
    let (r, j, p) = step(s, i, pending);
    if let Some(t) = r {
        lemma_stream_origin(s, j, p);
        let rest = stream(s, j, p);
        assert(stream(s, i, pending) == seq![t] + rest);
        assert forall|k: int|
            0 <= k < stream(s, i, pending).len() && !(stream(s, i, pending)[k] is Error) implies exists|m: int|
                lexed_at(s, m, #[trigger] stream(s, i, pending)[k]) by {
            if k > 0 {
                assert(stream(s, i, pending)[k] == rest[k - 1]);
            }
        }
    }
}

/// The bytes of the characters from `m` to `e` number the difference of their offsets.
proof fn lemma_offset_diff(s: Seq<char>, m: int, e: int)
    requires
        0 <= m <= e <= s.len(),
    ensures
        offset(s, e) == offset(s, m) + byte_len(s.subrange(m, e)),
{
    assert(s.take(e) =~= s.take(m) + s.subrange(m, e));
    lemma_encode_concat(s.take(m), s.subrange(m, e));
}

/// An identifier that the lexer takes at index `m` is, lexed on its own, the
/// one token of its text.
proof fn lemma_identifier_alone(s: Seq<char>, m: int)
    requires
        0 <= m < s.len(),
        byte_len(s) <= u32::MAX,
        lex_token(s, m).0 is Identifier,
    ensures
        ({
            let sp = lex_token(s, m).0->Identifier_0;
            tokens(span_text(s, sp)) == seq![Token::Identifier(Span { start: 0, end: (sp.end - sp.start) as u32 })]
        }),
{
    let e = run_end(s, m + 1, ident_p());
    lemma_run_end(s, m + 1, ident_p());
    let sp = span_of(s, m, e);
    assert(lex_token(s, m) == (Token::Identifier(sp), e));
    lemma_offset_in(s, m);
    lemma_offset_in(s, e);
    assert(covers(s, sp, m, e));
    lemma_span_text(s, sp, m, e);
    let t = s.subrange(m, e);
    assert forall|k: int| 1 <= k < t.len() implies #[trigger] ident_p()(t[k]) by {
        assert(t[k] == s[m + k]);
    }
    if t.len() > 1 {
        assert(t[1] == s[m + 1]);
    }
    lemma_run_end_unique(t, 1, t.len() as int, ident_p());
    lemma_offset_diff(s, m, e);
    lemma_offset_bounds(t);
    let tok = Token::Identifier(Span { start: 0, end: (sp.end - sp.start) as u32 });
    assert(span_of(t, 0, t.len() as int) == Span { start: 0, end: (sp.end - sp.start) as u32 });
    assert(lex_token(t, 0) == (tok, t.len() as int));
    assert(scan(t, 0, None) == (Some(tok), t.len() as int, None::<Token>));
    assert(stream(t, t.len() as int, None) =~= Seq::<Token>::empty());
    assert(tokens(t) =~= seq![tok]);
}

/// Reading back the text of an identifier that the lexer returned, and lexing
/// that text on its own, gives that identifier again, its span now starting
/// at zero.
pub proof fn lemma_identifier_relexes(s: Seq<char>, k: int)
    requires
        byte_len(s) <= u32::MAX,
        0 <= k < tokens(s).len(),
        tokens(s)[k] is Identifier,
    ensures
        ({
            let sp = tokens(s)[k]->Identifier_0;
            tokens(span_text(s, sp)) == seq![Token::Identifier(Span { start: 0, end: (sp.end - sp.start) as u32 })]
        }),
{
    lemma_stream_origin(s, 0, None);
    let m = choose|m: int| lexed_at(s, m, tokens(s)[k]);
    lemma_identifier_alone(s, m);
}

/// Offsets within a piece of the text are those of the whole text, less the
/// offset where the piece starts.
proof fn lemma_offset_in_piece(s: Seq<char>, m: int, x: int, j: int)
    requires
        0 <= m <= x <= s.len(),
        0 <= j <= x - m,
    ensures
        offset(s.subrange(m, x), j) == offset(s, m + j) - offset(s, m),
{
    lemma_offset_diff(s, m, m + j);
    assert(s.subrange(m, x).take(j) =~= s.subrange(m, m + j));
}

/// `sp` moved back by `by` bytes.
pub open spec fn shifted(sp: Span, by: int) -> Span {
    Span { start: (sp.start - by) as u32, end: (sp.end - by) as u32 }
}

/// The bytes of a whole integer literal: its base prefix, digits and suffix.
pub open spec fn integer_text_span(l: IntegerLiteral) -> Span {
    Span {
        start: if l.base == IntegerBase::Dec {
            l.value.start
        } else {
            (l.value.start - 2) as u32
        },
        end: l.suffix.end,
    }
}

/// An integer that the lexer takes at index `m` is, lexed on its own, the one
/// token of its text.
proof fn lemma_integer_alone(s: Seq<char>, m: int)
    requires
        0 <= m < s.len(),
        byte_len(s) <= u32::MAX,
        lex_token(s, m).0 is Integer,
    ensures
        ({
            let l = lex_token(s, m).0->Integer_0;
            let w = integer_text_span(l);
            tokens(span_text(s, w)) == seq![
                Token::Integer(
                    IntegerLiteral {
                        base: l.base,
                        value: shifted(l.value, w.start as int),
                        suffix: shifted(l.suffix, w.start as int),
                    },
                ),
            ]
        }),
{
    assert(dec_digit(s[m]));
    assert(lex_token(s, m) == lex_number(s, m));
    lemma_lex_number_advances(s, m);
    let prefixed = s[m] == '0' && m + 1 < s.len() && prefix_base(s[m + 1]) is Some;
    let base = if prefixed {
        prefix_base(s[m + 1])->0
    } else {
        IntegerBase::Dec
    };
    let start = if prefixed {
        m + 2
    } else {
        m
    };
    let d = if prefixed {
        m + 2
    } else {
        m + 1
    };
    lemma_run_end(s, d, digit_p(base));
    let k = run_end(s, d, digit_p(base));
    assert(!starts_fraction(s, k));
    assert(!(base != IntegerBase::Hex && (at(s, k, 'e') || at(s, k, 'E'))));
    lemma_run_end(s, k, ident_p());
    let x = run_end(s, k, ident_p());
    let l = IntegerLiteral { base, value: span_of(s, start, k), suffix: span_of(s, k, x) };
    assert(lex_token(s, m) == (Token::Integer(l), x));
    // The whole literal, from its first digit to the end of its suffix.
    lemma_offset_in(s, m);
    lemma_offset_in(s, start);
    lemma_offset_in(s, k);
    lemma_offset_in(s, x);
    if prefixed {
        crate::text::lemma_offset_step(s, m);
        crate::text::lemma_offset_step(s, m + 1);
    }
    let w = integer_text_span(l);
    assert(w.start == offset(s, m));
    assert(covers(s, w, m, x));
    lemma_span_text(s, w, m, x);
    let t = s.subrange(m, x);
    let n = t.len() as int;
    // Lexed on its own, the literal goes the same way.
    assert(t[0] == s[m]);
    if n > 1 {
        assert(t[1] == s[m + 1]);
    }
    let pt = t[0] == '0' && 1 < n && prefix_base(t[1]) is Some;
    assert(pt == prefixed);
    assert forall|j: int| d - m <= j < k - m implies #[trigger] digit_p(base)(t[j]) by {
        assert(t[j] == s[m + j]);
    }
    if k < x {
        assert(t[k - m] == s[k]);
    }
    lemma_run_end_unique(t, d - m, k - m, digit_p(base));
    if k - m + 1 < n {
        assert(t[k - m + 1] == s[k + 1]);
    }
    assert(!starts_fraction(t, k - m));
    assert(!(base != IntegerBase::Hex && (at(t, k - m, 'e') || at(t, k - m, 'E'))));
    assert forall|j: int| k - m <= j < n implies #[trigger] ident_p()(t[j]) by {
        assert(t[j] == s[m + j]);
    }
    lemma_run_end_unique(t, k - m, n, ident_p());
    lemma_offset_in_piece(s, m, x, start - m);
    lemma_offset_in_piece(s, m, x, k - m);
    lemma_offset_in_piece(s, m, x, n);
    let tok = Token::Integer(
        IntegerLiteral {
            base,
            value: shifted(l.value, w.start as int),
            suffix: shifted(l.suffix, w.start as int),
        },
    );
    assert(span_of(t, start - m, k - m) == shifted(l.value, w.start as int));
    assert(span_of(t, k - m, n) == shifted(l.suffix, w.start as int));
    assert(lex_number(t, 0) == (tok, n));
    assert(lex_token(t, 0) == (tok, n));
    assert(scan(t, 0, None) == (Some(tok), n, None::<Token>));
    assert(stream(t, n, None) =~= Seq::<Token>::empty());
    assert(tokens(t) =~= seq![tok]);
}

/// Reading back the whole text of an integer that the lexer returned, and
/// lexing that text on its own, gives that integer again, its spans moved back
/// by where the literal started.
pub proof fn lemma_integer_relexes(s: Seq<char>, k: int)
    requires
        byte_len(s) <= u32::MAX,
        0 <= k < tokens(s).len(),
        tokens(s)[k] is Integer,
    ensures
        ({
            let l = tokens(s)[k]->Integer_0;
            let w = integer_text_span(l);
            tokens(span_text(s, w)) == seq![
                Token::Integer(
                    IntegerLiteral {
                        base: l.base,
                        value: shifted(l.value, w.start as int),
                        suffix: shifted(l.suffix, w.start as int),
                    },
                ),
            ]
        }),
{
    lemma_stream_origin(s, 0, None);
    let m = choose|m: int| lexed_at(s, m, tokens(s)[k]);
    lemma_integer_alone(s, m);
}

/// The span of the characters from `a` to `b` starts and ends between characters.
proof fn lemma_span_of_on_chars(s: Seq<char>, a: int, b: int)
    requires
        0 <= a <= b <= s.len(),
        byte_len(s) <= u32::MAX,
    ensures
        covers(s, span_of(s, a, b), a, b),
        on_chars(s, span_of(s, a, b)),
{
    lemma_offset_in(s, a);
    lemma_offset_in(s, b);
    assert(covers(s, span_of(s, a, b), a, b));
}

/// Every span of a token that the lexer takes lies between characters.
proof fn lemma_lex_token_spans(s: Seq<char>, i: int)
    requires
        0 <= i < s.len(),
        byte_len(s) <= u32::MAX,
    ensures
        spans_on_chars(lex_token(s, i).0, s),
{
    let c = s[i];
    lemma_run_end(s, i + 1, ident_p());
    lemma_span_of_on_chars(s, i, run_end(s, i + 1, ident_p()));
    lemma_span_of_on_chars(s, i, i + 1);
    if c == '/' && at(s, i + 1, '/') {
        lemma_run_end(s, i + 2, line_p());
        lemma_span_of_on_chars(s, i + 2, run_end(s, i + 2, line_p()));
    }
    if c == '/' && at(s, i + 1, '*') {
        lemma_comment_end(s, i + 2, 1);
        let (e, closed) = comment_end(s, i + 2, 1);
        lemma_span_of_on_chars(s, i + 2, if closed { e - 2 } else { e });
    }
    if dec_digit(c) {
        lemma_lex_number_spans(s, i);
    }
}

proof fn lemma_lex_exponent_spans(s: Seq<char>, i: int)
    requires
        0 <= i <= s.len(),
        byte_len(s) <= u32::MAX,
    ensures
        on_chars(s, lex_exponent(s, i).0),
        i <= lex_exponent(s, i).1 <= s.len(),
{
    let d = if at(s, i, '+') || at(s, i, '-') {
        i + 1
    } else {
        i
    };
    lemma_run_end(s, d, dec_p());
    lemma_span_of_on_chars(s, i, run_end(s, d, dec_p()));
}

proof fn lemma_lex_number_spans(s: Seq<char>, i: int)
    requires
        0 <= i < s.len(),
        byte_len(s) <= u32::MAX,
    ensures
        spans_on_chars(lex_number(s, i).0, s),
{
    let prefixed = s[i] == '0' && i + 1 < s.len() && prefix_base(s[i + 1]) is Some;
    let base = if prefixed {
        prefix_base(s[i + 1])->0
    } else {
        IntegerBase::Dec
    };
    let start = if prefixed {
        i + 2
    } else {
        i
    };
    let d = if prefixed {
        i + 2
    } else {
        i + 1
    };
    lemma_run_end(s, d, digit_p(base));
    let k = run_end(s, d, digit_p(base));
    lemma_span_of_on_chars(s, start, k);
    if starts_fraction(s, k) {
        lemma_run_end(s, k + 1, dec_p());
        let f = run_end(s, k + 1, dec_p());
        lemma_span_of_on_chars(s, k + 1, f);
        if at(s, f, 'e') || at(s, f, 'E') {
            lemma_lex_exponent_spans(s, f + 1);
            let e = lex_exponent(s, f + 1).1;
            lemma_run_end(s, e, ident_p());
            lemma_span_of_on_chars(s, e, run_end(s, e, ident_p()));
        } else {
            lemma_span_of_on_chars(s, f, f);
            lemma_run_end(s, f, ident_p());
            lemma_span_of_on_chars(s, f, run_end(s, f, ident_p()));
        }
    } else if base != IntegerBase::Hex && (at(s, k, 'e') || at(s, k, 'E')) {
        lemma_span_of_on_chars(s, k, k);
        lemma_lex_exponent_spans(s, k + 1);
        let e = lex_exponent(s, k + 1).1;
        lemma_run_end(s, e, ident_p());
        lemma_span_of_on_chars(s, e, run_end(s, e, ident_p()));
    } else {
        lemma_run_end(s, k, ident_p());
        lemma_span_of_on_chars(s, k, run_end(s, k, ident_p()));
    }
}

/// Whether `acc`, if any, covers the characters between two indices at most `i`.
pub open spec fn acc_on_chars(s: Seq<char>, acc: Option<Span>, i: int) -> bool {
    acc matches Some(a) ==> exists|i0: int, i1: int| i1 <= i && #[trigger] covers(s, a, i0, i1)
}

proof fn lemma_scan_spans(s: Seq<char>, i: int, acc: Option<Span>)
    requires
        0 <= i <= s.len(),
        byte_len(s) <= u32::MAX,
        acc_on_chars(s, acc, i),
    ensures
        scan(s, i, acc).0 matches Some(t) ==> spans_on_chars(t, s),
        scan(s, i, acc).2 matches Some(t) ==> spans_on_chars(t, s),
    decreases s.len() - i,
{
    if i < s.len() {
        lemma_lex_token_advances(s, i);
        lemma_lex_token_spans(s, i);
        let (t, j) = lex_token(s, i);
        match t {
            Token::Whitespace => lemma_scan_spans(s, j, acc),
            Token::Error(sp) => {
                assert(sp == span_of(s, i, i + 1));
                lemma_span_of_on_chars(s, i, i + 1);
                match acc {
                    Some(a) => {
                        let (i0, i1) = choose|i0: int, i1: int| i1 <= i && #[trigger] covers(s, a, i0, i1);
                        lemma_offset_in(s, i + 1);
                        assert(covers(s, acc.merged(sp)->0, i0, i + 1));
                    },
                    None => {
                        assert(covers(s, acc.merged(sp)->0, i, i + 1));
                    },
                }
                lemma_scan_spans(s, j, acc.merged(sp));
            },
            _ => {
                if let Some(a) = acc {
                    let (i0, i1) = choose|i0: int, i1: int| i1 <= i && #[trigger] covers(s, a, i0, i1);
                    assert(on_chars(s, a));
                }
            },
        }
    } else {
        if let Some(a) = acc {
            let (i0, i1) = choose|i0: int, i1: int| i1 <= i && #[trigger] covers(s, a, i0, i1);
            assert(on_chars(s, a));
        }
    }
}

proof fn lemma_stream_spans(s: Seq<char>, i: int, pending: Option<Token>)
    requires
        0 <= i <= s.len(),
        byte_len(s) <= u32::MAX,
        pending matches Some(t) ==> spans_on_chars(t, s),
    ensures
        forall|k: int| 0 <= k < stream(s, i, pending).len() ==> spans_on_chars(#[trigger] stream(s, i, pending)[k], s),
    decreases measure(s, i, pending),
{
    lemma_step_measure(s, i, pending);
    if pending is None {
        lemma_scan_spans(s, i, None);
    }
    let (r, j, p) = step(s, i, pending);
    if let Some(t) = r {
        lemma_stream_spans(s, j, p);
        let rest = stream(s, j, p);
        assert(stream(s, i, pending) == seq![t] + rest);
        assert forall|k: int| 0 <= k < stream(s, i, pending).len() implies spans_on_chars(#[trigger] stream(s, i, pending)[k], s) by {
            if k > 0 {
                assert(stream(s, i, pending)[k] == rest[k - 1]);
            }
        }
    }
}

/// Every span of every token of `s` starts and ends between two characters
/// of `s`: it is well formed, lies within the text, and can be rendered.
pub proof fn lemma_token_spans(s: Seq<char>)
    requires
        byte_len(s) <= u32::MAX,
    ensures
        forall|k: int| 0 <= k < tokens(s).len() ==> spans_on_chars(#[trigger] tokens(s)[k], s),
{
    lemma_stream_spans(s, 0, None);
}

/// A block comment opened by the `/*` at index `i` closes at the `*/` that
/// brings the nesting back to zero, each inner `/*` and `*/` counting as a
/// pair; its span holds what lies between the delimiters. Unclosed, it runs
/// to the end of the text.
pub proof fn lemma_block_comment(s: Seq<char>, i: int)
    requires
        0 <= i < s.len(),
        s[i] == '/',
        at(s, i + 1, '*'),
    ensures
        ({
            let (e, closed) = comment_end(s, i + 2, 1);
            &&& lex_token(s, i) == (Token::BlockComment(span_of(s, i + 2, if closed { e - 2 } else { e })), e)
            &&& closed ==> i + 4 <= e && s[e - 2] == '*' && s[e - 1] == '/'
            &&& !closed ==> e == s.len()
        }),
{
    lemma_comment_end(s, i + 2, 1);
}

} // verus!
