//! A first, eager tokenizer: it returns all the tokens of a text at once, or
//! the first fault with its line and column. Identifiers are skipped and only
//! decimal numbers are read.
use vstd::prelude::*;
use vstd::string::StringExecFns;
use crate::chars::{ascii_letter, is_whitespace, white_space};
use crate::grammar::{at, lemma_run_end, run_end};
use crate::text::collect_chars;

verus! {

/// The tokens that `tokenize` recognises.
#[derive(Eq, PartialEq, Debug, Copy, Clone)]
pub enum Token<'source> {
    // Single-character tokens
    LeftParen,
    RightParen,
    LeftBrace,
    RightBrace,
    LeftBracket,
    RightBracket,
    Comma,
    Dot,
    Minus,
    Plus,
    Colon,
    Semicolon,
    Slash,
    Backslash,
    Star,
    Ampersand,
    Pipe,
    // One or two character tokens
    Not,
    NotEqual,
    Equal,
    EqualEqual,
    Greater,
    GreaterEqual,
    Less,
    LessEqual,
    // Literals
    Identifier(&'source str),
    String(&'source str),
    Number(i64),
    // Keywords
    And,
    Break,
    Const,
    Continue,
    Else,
    Enum,
    False,
    Fn,
    For,
    If,
    In,
    Let,
    Match,
    Mut,
    Nil,
    Or,
    Pub,
    Return,
    SelfValue,
    SelfType,
    Struct,
    Super,
    This,
    True,
    While,
    // Others
    Eof,
}

/// A fault in the text, and where it was found.
#[derive(Eq, PartialEq, Debug)]
pub struct Error {
    pub what: String,
    pub line: u64,
    pub column: u64,
}

/// Whether `c` has the Unicode property Alphabetic.
pub uninterp spec fn alphabetic(c: char) -> bool;

/// Relies on `char::is_alphabetic`: true exactly for the characters with the
/// Alphabetic property, which among ASCII are the letters.
#[verifier::external_body]
fn char_is_alphabetic(c: char) -> (r: bool)
    ensures
        r == alphabetic(c),
        (c as u32) < 128 ==> (r <==> ascii_letter(c)),
{
    c.is_alphabetic()
}

pub open spec fn ascii_digit_p() -> spec_fn(char) -> bool {
    |c: char| '0' <= c && c <= '9'
}

/// The value of a run of decimal digits.
pub open spec fn digits_value(d: Seq<char>) -> int
    decreases d.len(),
{
    if d.len() == 0 {
        0
    } else {
        digits_value(d.drop_last()) * 10 + (d.last() as int - '0' as int)
    }
}

/// The token of one character, if `c` is one.
pub open spec fn single<'a>(c: char) -> Option<Token<'a>> {
    if c == '(' {
        Some(Token::LeftParen)
    } else if c == ')' {
        Some(Token::RightParen)
    } else if c == '{' {
        Some(Token::LeftBrace)
    } else if c == '}' {
        Some(Token::RightBrace)
    } else if c == '[' {
        Some(Token::LeftBracket)
    } else if c == ']' {
        Some(Token::RightBracket)
    } else if c == ',' {
        Some(Token::Comma)
    } else if c == '.' {
        Some(Token::Dot)
    } else if c == '-' {
        Some(Token::Minus)
    } else if c == '+' {
        Some(Token::Plus)
    } else if c == ':' {
        Some(Token::Colon)
    } else if c == ';' {
        Some(Token::Semicolon)
    } else if c == '/' {
        Some(Token::Slash)
    } else if c == '\\' {
        Some(Token::Backslash)
    } else if c == '*' {
        Some(Token::Star)
    } else if c == '&' {
        Some(Token::Ampersand)
    } else if c == '|' {
        Some(Token::Pipe)
    } else {
        None
    }
}

/// The tokens of one or two characters that `c` starts, if any: without and
/// with a following `=`.
pub open spec fn pair<'a>(c: char) -> Option<(Token<'a>, Token<'a>)> {
    if c == '!' {
        Some((Token::Not, Token::NotEqual))
    } else if c == '=' {
        Some((Token::Equal, Token::EqualEqual))
    } else if c == '>' {
        Some((Token::Greater, Token::GreaterEqual))
    } else if c == '<' {
        Some((Token::Less, Token::LessEqual))
    } else {
        None
    }
}

/// How tokenizing a text ends.
pub enum Outcome<'a> {
    /// The tokens, the last of them `Eof`.
    Tokens(Seq<Token<'a>>),
    /// The first fault: what it is, its line and its column.
    Fault(Seq<char>, int, int),
    /// A number too large for an `i64`.
    Overflow,
}

pub open spec fn prepend<'a>(t: Token<'a>, o: Outcome<'a>) -> Outcome<'a> {
    match o {
        Outcome::Tokens(ts) => Outcome::Tokens(seq![t] + ts),
        _ => o,
    }
}

/// Tokenizing from index `i`, at `line`, with `column` characters of the line
/// counted.
///
/// A number starts with `1` to `9` and needs a second digit; the character
/// that ends its digits is consumed with them. Letters and `_` are skipped;
/// any other character is a fault. A line feed starts line `line + 1` at
/// column 1.
pub open spec fn tokenize_from<'a>(s: Seq<char>, i: int, line: int, column: int) -> Outcome<'a>
    decreases s.len() - i,
    via tokenize_from_decreases
{
    if i < 0 || i >= s.len() {
        Outcome::Tokens(seq![Token::Eof])
    } else {
        let ch = s[i];
        let column = column + 1;
        if white_space(ch) {
            if ch == '\n' {
                tokenize_from(s, i + 1, line + 1, 1)
            } else {
                tokenize_from(s, i + 1, line, column)
            }
        } else if single(ch) is Some {
            prepend(single(ch)->0, tokenize_from(s, i + 1, line, column))
        } else if pair(ch) is Some {
            let (one, two) = pair(ch)->0;
            if at(s, i + 1, '=') {
                prepend(two, tokenize_from(s, i + 2, line, column))
            } else {
                prepend(one, tokenize_from(s, i + 1, line, column))
            }
        } else if '1' <= ch && ch <= '9' {
            let e = run_end(s, i + 1, ascii_digit_p());
            if e <= i + 1 {
                Outcome::Fault("Invalid numeric literal"@, line, column)
            } else if digits_value(s.subrange(i, e)) > i64::MAX {
                Outcome::Overflow
            } else {
                prepend(
                    Token::Number(digits_value(s.subrange(i, e)) as i64),
                    tokenize_from(s, if e < s.len() { e + 1 } else { e }, line, column),
                )
            }
        } else if alphabetic(ch) || ch == '_' {
            tokenize_from(s, i + 1, line, column)
        } else {
            Outcome::Fault("Syntax error"@, line, column)
        }
    }
}

#[via_fn]
proof fn tokenize_from_decreases(s: Seq<char>, i: int, line: int, column: int) {
    if 0 <= i < s.len() {
        lemma_run_end(s, i + 1, ascii_digit_p());
    }
}

/// The outcome that a result stands for.
pub open spec fn outcome_of<'a>(r: Result<Vec<Token<'a>>, Error>) -> Outcome<'a> {
    match r {
        Ok(v) => Outcome::Tokens(v@),
        Err(e) => Outcome::Fault(e.what@, e.line as int, e.column as int),
    }
}

/// The value of digits grows as digits are added.
proof fn lemma_digits_value_prefix(d: Seq<char>, j: int)
    requires
        0 <= j <= d.len(),
        forall|k: int| 0 <= k < d.len() ==> '0' <= #[trigger] d[k] && d[k] <= '9',
    ensures
        0 <= digits_value(d.take(j)) <= digits_value(d),
    decreases d.len() - j,
{
    if j < d.len() {
        lemma_digits_value_prefix(d, j + 1);
        assert(d.take(j + 1).drop_last() =~= d.take(j));
    } else {
        assert(d.take(j) =~= d);
    }
    lemma_digits_value_nonneg(d.take(j));
}

proof fn lemma_digits_value_nonneg(d: Seq<char>)
    requires
        forall|k: int| 0 <= k < d.len() ==> '0' <= #[trigger] d[k] && d[k] <= '9',
    ensures
        0 <= digits_value(d),
    decreases d.len(),
{
    if d.len() > 0 {
        lemma_digits_value_nonneg(d.drop_last());
    }
}

/// The outcome `o` with the tokens `ts` before its own, if it has tokens.
pub open spec fn after<'a>(ts: Seq<Token<'a>>, o: Outcome<'a>) -> Outcome<'a> {
    match o {
        Outcome::Tokens(x) => Outcome::Tokens(ts + x),
        _ => o,
    }
}

fn single_token<'a>(c: char) -> (r: Option<Token<'a>>)
    ensures
        r == single::<'a>(c),
{
    match c {
        '(' => Some(Token::LeftParen),
        ')' => Some(Token::RightParen),
        '{' => Some(Token::LeftBrace),
        '}' => Some(Token::RightBrace),
        '[' => Some(Token::LeftBracket),
        ']' => Some(Token::RightBracket),
        ',' => Some(Token::Comma),
        '.' => Some(Token::Dot),
        '-' => Some(Token::Minus),
        '+' => Some(Token::Plus),
        ':' => Some(Token::Colon),
        ';' => Some(Token::Semicolon),
        '/' => Some(Token::Slash),
        '\\' => Some(Token::Backslash),
        '*' => Some(Token::Star),
        '&' => Some(Token::Ampersand),
        '|' => Some(Token::Pipe),
        _ => None,
    }
}

fn pair_tokens<'a>(c: char) -> (r: Option<(Token<'a>, Token<'a>)>)
    ensures
        r == pair::<'a>(c),
{
    match c {
        '!' => Some((Token::Not, Token::NotEqual)),
        '=' => Some((Token::Equal, Token::EqualEqual)),
        '>' => Some((Token::Greater, Token::GreaterEqual)),
        '<' => Some((Token::Less, Token::LessEqual)),
        _ => None,
    }
}

fn fault(what: &str, line: u64, column: u64) -> (e: Error)
    ensures
        e.what@ == what@,
        e.line == line,
        e.column == column,
{
    Error { what: String::from_str(what), line, column }
}

/// Reads `source` as `tokenize` does, but returns `None` where a number is
/// too large for an `i64`.
fn scan_tokens<'a>(source: &'a str) -> (r: Option<Result<Vec<Token<'a>>, Error>>)
    ensures
        r is None <==> tokenize_from::<'a>(source@, 0, 0, 0) is Overflow,
        r matches Some(x) ==> outcome_of(x) == tokenize_from::<'a>(source@, 0, 0, 0),
{
    let chars = collect_chars(source);
    let ghost s = source@;
    let mut tokens: Vec<Token<'a>> = Vec::new();
    let mut i: usize = 0;
    let mut line: u64 = 0;
    let mut column: u64 = 0;
    assert(tokens@ + Seq::<Token<'a>>::empty() =~= Seq::<Token<'a>>::empty());
    while i < chars.len()
        invariant
            s == chars@,
            s == source@,
            i <= chars.len(),
            line <= i,
            column <= i,
            after(tokens@, tokenize_from::<'a>(s, i as int, line as int, column as int))
                == tokenize_from::<'a>(s, 0, 0, 0),
        decreases chars.len() - i,
    {
        let ghost before = tokens@;
        let ghost col0 = column as int;
        let ch = chars[i];
        column = column + 1;
        if is_whitespace(ch) {
            if ch == '\n' {
                line = line + 1;
                column = 1;
            }
            i = i + 1;
        } else if let Some(token) = single_token(ch) {
            tokens.push(token);
            assert(tokens@ =~= before.push(token));
            proof {
                match tokenize_from::<'a>(s, i + 1, line as int, column as int) {
                    Outcome::Tokens(x) => assert(before + (seq![token] + x) =~= tokens@ + x),
                    _ => {},
                }
            }
            i = i + 1;
        } else if let Some((one, two)) = pair_tokens(ch) {
            let token = if i + 1 < chars.len() && chars[i + 1] == '=' {
                two
            } else {
                one
            };
            let next = if i + 1 < chars.len() && chars[i + 1] == '=' {
                i + 2
            } else {
                i + 1
            };
            tokens.push(token);
            assert(tokens@ =~= before.push(token));
            proof {
                match tokenize_from::<'a>(s, next as int, line as int, column as int) {
                    Outcome::Tokens(x) => assert(before + (seq![token] + x) =~= tokens@ + x),
                    _ => {},
                }
            }
            i = next;
        } else if '1' <= ch && ch <= '9' {
            let ghost e = run_end(s, i + 1, ascii_digit_p());
            proof {
                lemma_run_end(s, i + 1, ascii_digit_p());
            }
            let mut fits = true;
            let mut value: i64 = (ch as u32 - '0' as u32) as i64;
            let mut j = i + 1;
            assert(s.subrange(i as int, j as int).drop_last() =~= Seq::<char>::empty());
            assert(s.subrange(i as int, j as int).last() == ch);
            assert(digits_value(Seq::<char>::empty()) == 0);
            while j < chars.len() && '0' <= chars[j] && chars[j] <= '9'
                invariant
                    s == chars@,
                    i < j <= e <= s.len(),
                    e == run_end(s, i + 1, ascii_digit_p()),
                    forall|k: int| i + 1 <= k < e ==> #[trigger] ascii_digit_p()(s[k]),
                    e < s.len() ==> !ascii_digit_p()(s[e]),
                    '1' <= s[i as int] <= '9',
                    fits ==> value == digits_value(s.subrange(i as int, j as int)),
                    !fits ==> digits_value(s.subrange(i as int, j as int)) > i64::MAX,
                decreases chars.len() - j,
            {
                let ghost d = s.subrange(i as int, e);
                proof {
                    assert forall|k: int| 0 <= k < d.len() implies '0' <= #[trigger] d[k] && d[k] <= '9' by {
                        if k > 0 {
                            assert(ascii_digit_p()(s[i + k]));
                        }
                    }
                    lemma_digits_value_prefix(d, j - i);
                    assert(d.take(j - i) =~= s.subrange(i as int, j as int));
                    assert(s.subrange(i as int, j + 1).drop_last() =~= s.subrange(i as int, j as int));
                }
                let digit = (chars[j] as u32 - '0' as u32) as i64;
                if fits {
                    match value.checked_mul(10) {
                        Some(tens) => match tens.checked_add(digit) {
                            Some(v) => {
                                value = v;
                            },
                            None => {
                                fits = false;
                            },
                        },
                        None => {
                            fits = false;
                        },
                    }
                }
                j = j + 1;
            }
            proof {
                if j < e {
                    assert(ascii_digit_p()(s[j as int]));
                }
            }
            if j == i + 1 {
                return Some(Err(fault("Invalid numeric literal", line, column)));
            }
            if !fits {
                assert(tokenize_from::<'a>(s, i as int, line as int, col0) is Overflow);
                return None;
            }
            tokens.push(Token::Number(value));
            assert(tokens@ =~= before.push(Token::Number(value)));
            // The character that ends the digits goes with them.
            let next = if j < chars.len() {
                j + 1
            } else {
                j
            };
            proof {
                match tokenize_from::<'a>(s, next as int, line as int, column as int) {
                    Outcome::Tokens(x) => assert(before + (seq![Token::Number(value)] + x) =~= tokens@ + x),
                    _ => {},
                }
            }
            i = next;
        } else if char_is_alphabetic(ch) || ch == '_' {
            i = i + 1;
        } else {
            return Some(Err(fault("Syntax error", line, column)));
        }
    }
    let ghost before = tokens@;
    tokens.push(Token::Eof);
    assert(tokens@ =~= before + seq![Token::Eof]);
    Some(Ok(tokens))
}

/// Returns the tokens of `source`, ending with `Eof`, or the first fault in it.
pub fn tokenize<'a>(source: &'a str) -> (r: Result<Vec<Token<'a>>, Error>)
    requires
        !(tokenize_from::<'a>(source@, 0, 0, 0) is Overflow),
    ensures
        outcome_of(r) == tokenize_from::<'a>(source@, 0, 0, 0),
{
    match scan_tokens(source) {
        Some(r) => r,
        None => {
            // Excluded by the precondition.
            assert(false);
            Ok(Vec::new())
        },
    }
}

/// Tokenizes `source` when none of its numbers is too large for an `i64`,
/// and returns `None` otherwise. The text is read a first time to tell.
pub fn try_tokenize<'a>(source: &'a str) -> (r: Option<Result<Vec<Token<'a>>, Error>>)
    ensures
        r is None <==> tokenize_from::<'a>(source@, 0, 0, 0) is Overflow,
        r matches Some(x) ==> outcome_of(x) == tokenize_from::<'a>(source@, 0, 0, 0),
{
    match scan_tokens(source) {
        None => None,
        Some(_) => Some(tokenize(source)),
    }
}

} // verus!
