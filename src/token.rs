use vstd::prelude::*;
use crate::span::{on_chars, span_text, Span, SpanSubstr};
use vstd::string::StringExecFns;

verus! {

/// The numeric bases of integer literals.
#[derive(PartialEq, Eq, Structural, Debug, Copy, Clone)]
pub enum IntegerBase {
    Bin,
    Oct,
    Dec,
    Hex,
}

/// An integer literal: its base, its digits without the base prefix, and the
/// suffix after them, which may be empty.
#[derive(PartialEq, Eq, Structural, Debug, Copy, Clone)]
pub struct IntegerLiteral {
    pub base: IntegerBase,
    pub value: Span,
    pub suffix: Span,
}

/// A floating-point literal, cut into its parts. The fractional part, the
/// exponent (with its sign, if any) and the suffix may be empty.
#[derive(PartialEq, Eq, Structural, Debug, Copy, Clone)]
pub struct FloatLiteral {
    pub base: IntegerBase,
    pub integer_part: Span,
    pub fractional_part: Span,
    pub exponent: Span,
    pub suffix: Span,
}

/// The tokens of the Risl language. Text is never owned: a token points into
/// the source through spans.
#[derive(PartialEq, Eq, Structural, Debug, Copy, Clone)]
pub enum Token {
    // Single-character tokens
    LeftParen,
    RightParen,
    LeftBrace,
    RightBrace,
    LeftBracket,
    RightBracket,
    Comma,
    Minus,
    Plus,
    Colon,
    Semicolon,
    Slash,
    Backslash,
    Star,
    Ampersand,
    Pipe,
    // One or two character tokens
    Not,
    NotEqual,
    Equal,
    EqualEqual,
    Greater,
    GreaterEqual,
    Less,
    LessEqual,
    Dot,
    DotDot,
    DotDotEqual,
    // Literals
    Identifier(Span),
    String(Span),
    Integer(IntegerLiteral),
    Float(FloatLiteral),
    // Keywords
    And,
    Break,
    Const,
    Continue,
    Else,
    Enum,
    False,
    Fn,
    For,
    If,
    In,
    Let,
    Match,
    Mut,
    Nil,
    Or,
    Pub,
    Return,
    SelfValue,
    SelfType,
    Struct,
    Super,
    This,
    True,
    While,
    // Others
    Whitespace,
    LineComment(Span),
    BlockComment(Span),
    /// A run of one or more characters that start no token.
    Error(Span),
}

impl Token {
    /// Whether the token is dropped from the stream handed to callers.
    pub fn is_skippable(&self) -> (r: bool)
        ensures
            r == (*self is Whitespace),
    {
        match self {
            Token::Whitespace => true,
            _ => false,
        }
    }
}


/// The fixed spelling of a token that carries no span.
pub open spec fn spelling(t: Token) -> Option<Seq<char>> {
    match t {
        Token::LeftParen => Some("("@),
        Token::RightParen => Some(")"@),
        Token::LeftBrace => Some("{"@),
        Token::RightBrace => Some("}"@),
        Token::LeftBracket => Some("["@),
        Token::RightBracket => Some("]"@),
        Token::Comma => Some(","@),
        Token::Minus => Some("-"@),
        Token::Plus => Some("+"@),
        Token::Colon => Some(":"@),
        Token::Semicolon => Some(";"@),
        Token::Slash => Some("/"@),
        Token::Backslash => Some("\\"@),
        Token::Star => Some("*"@),
        Token::Ampersand => Some("&"@),
        Token::Pipe => Some("|"@),
        Token::Not => Some("!"@),
        Token::NotEqual => Some("!="@),
        Token::Equal => Some("="@),
        Token::EqualEqual => Some("=="@),
        Token::Greater => Some(">"@),
        Token::GreaterEqual => Some(">="@),
        Token::Less => Some("<"@),
        Token::LessEqual => Some("<="@),
        Token::Dot => Some("."@),
        Token::DotDot => Some(".."@),
        Token::DotDotEqual => Some("..="@),
        Token::And => Some("and"@),
        Token::Break => Some("break"@),
        Token::Const => Some("const"@),
        Token::Continue => Some("continue"@),
        Token::Else => Some("else"@),
        Token::Enum => Some("enum"@),
        Token::False => Some("false"@),
        Token::Fn => Some("fn"@),
        Token::For => Some("for"@),
        Token::If => Some("if"@),
        Token::In => Some("in"@),
        Token::Let => Some("let"@),
        Token::Match => Some("match"@),
        Token::Mut => Some("mut"@),
        Token::Nil => Some("nil"@),
        Token::Or => Some("or"@),
        Token::Pub => Some("pub"@),
        Token::Return => Some("return"@),
        Token::SelfValue => Some("self"@),
        Token::SelfType => Some("Self"@),
        Token::Struct => Some("struct"@),
        Token::Super => Some("super"@),
        Token::This => Some("this"@),
        Token::True => Some("true"@),
        Token::While => Some("while"@),
        Token::Whitespace => Some(" "@),
        _ => None,
    }
}

/// The name under which a base is shown.
pub open spec fn base_name(b: IntegerBase) -> Seq<char> {
    match b {
        IntegerBase::Bin => "Bin"@,
        IntegerBase::Oct => "Oct"@,
        IntegerBase::Dec => "Dec"@,
        IntegerBase::Hex => "Hex"@,
    }
}

/// Whether every span that `t` carries starts and ends between characters of `s`.
pub open spec fn spans_on_chars(t: Token, s: Seq<char>) -> bool {
    match t {
        Token::Identifier(sp) | Token::String(sp) | Token::LineComment(sp) | Token::BlockComment(sp)
        | Token::Error(sp) => on_chars(s, sp),
        Token::Integer(l) => on_chars(s, l.value) && on_chars(s, l.suffix),
        Token::Float(f) => on_chars(s, f.integer_part) && on_chars(s, f.fractional_part) && on_chars(
            s,
            f.exponent,
        ) && on_chars(s, f.suffix),
        _ => true,
    }
}

/// How `t` reads, given the source `s` that its spans point into: a fixed
/// spelling, the text of its span, or for a number its base and the text of
/// each of its parts.
pub open spec fn render(t: Token, s: Seq<char>) -> Seq<char> {
    match t {
        Token::Identifier(sp) | Token::String(sp) | Token::LineComment(sp) | Token::BlockComment(sp)
        | Token::Error(sp) => span_text(s, sp),
        Token::Integer(l) => base_name(l.base) + ", '"@ + span_text(s, l.value) + "', '"@
            + span_text(s, l.suffix) + "'"@,
        Token::Float(f) => "{"@ + base_name(f.base) + ", '"@ + span_text(s, f.integer_part) + "', '"@
            + span_text(s, f.fractional_part) + "', '"@ + span_text(s, f.exponent) + "', '"@
            + span_text(s, f.suffix) + "'}"@,
        _ => spelling(t)->0,
    }
}

impl Token {
    /// The fixed spelling of the token, if it carries no span.
    pub fn spelling(&self) -> (r: Option<&'static str>)
        ensures
            r is Some <==> spelling(*self) is Some,
            r matches Some(x) ==> x@ == spelling(*self)->0,
    {
        match self {
            Token::LeftParen => Some("("),
            Token::RightParen => Some(")"),
            Token::LeftBrace => Some("{"),
            Token::RightBrace => Some("}"),
            Token::LeftBracket => Some("["),
            Token::RightBracket => Some("]"),
            Token::Comma => Some(","),
            Token::Minus => Some("-"),
            Token::Plus => Some("+"),
            Token::Colon => Some(":"),
            Token::Semicolon => Some(";"),
            Token::Slash => Some("/"),
            Token::Backslash => Some("\\"),
            Token::Star => Some("*"),
            Token::Ampersand => Some("&"),
            Token::Pipe => Some("|"),
            Token::Not => Some("!"),
            Token::NotEqual => Some("!="),
            Token::Equal => Some("="),
            Token::EqualEqual => Some("=="),
            Token::Greater => Some(">"),
            Token::GreaterEqual => Some(">="),
            Token::Less => Some("<"),
            Token::LessEqual => Some("<="),
            Token::Dot => Some("."),
            Token::DotDot => Some(".."),
            Token::DotDotEqual => Some("..="),
            Token::And => Some("and"),
            Token::Break => Some("break"),
            Token::Const => Some("const"),
            Token::Continue => Some("continue"),
            Token::Else => Some("else"),
            Token::Enum => Some("enum"),
            Token::False => Some("false"),
            Token::Fn => Some("fn"),
            Token::For => Some("for"),
            Token::If => Some("if"),
            Token::In => Some("in"),
            Token::Let => Some("let"),
            Token::Match => Some("match"),
            Token::Mut => Some("mut"),
            Token::Nil => Some("nil"),
            Token::Or => Some("or"),
            Token::Pub => Some("pub"),
            Token::Return => Some("return"),
            Token::SelfValue => Some("self"),
            Token::SelfType => Some("Self"),
            Token::Struct => Some("struct"),
            Token::Super => Some("super"),
            Token::This => Some("this"),
            Token::True => Some("true"),
            Token::While => Some("while"),
            Token::Whitespace => Some(" "),
            _ => None,
        }
    }
}

impl IntegerBase {
    /// The name under which the base is shown.
    pub fn name(&self) -> (r: &'static str)
        ensures
            r@ == base_name(*self),
    {
        match self {
            IntegerBase::Bin => "Bin",
            IntegerBase::Oct => "Oct",
            IntegerBase::Dec => "Dec",
            IntegerBase::Hex => "Hex",
        }
    }
}

/// A token together with the source its spans point into, ready to be shown.
pub struct TokenStr<'src> {
    token: Token,
    source: &'src str,
}

impl<'src> TokenStr<'src> {
    pub closed spec fn spec_token(&self) -> Token {
        self.token
    }

    pub closed spec fn spec_source(&self) -> &'src str {
        self.source
    }

    pub fn new(token: Token, source: &'src str) -> (r: TokenStr<'src>)
        ensures
            r.spec_token() == token,
            r.spec_source() == source,
    {
        TokenStr { token, source }
    }

    /// How the token reads.
    pub fn to_string(&self) -> (r: String)
        requires
            spans_on_chars(self.spec_token(), self.spec_source()@),
        ensures
            r@ == render(self.spec_token(), self.spec_source()@),
    {
        let source = self.source;
        match self.token {
            Token::Identifier(sp) | Token::String(sp) | Token::LineComment(sp) | Token::BlockComment(
                sp,
            )
            | Token::Error(sp) => String::from_str(source.substr(sp)),
            Token::Integer(l) => {
                let mut r = String::from_str(l.base.name());
                r.append(", '");
                r.append(source.substr(l.value));
                r.append("', '");
                r.append(source.substr(l.suffix));
                r.append("'");
                r
            },
            Token::Float(f) => {
                let mut r = String::from_str("{");
                r.append(f.base.name());
                r.append(", '");
                r.append(source.substr(f.integer_part));
                r.append("', '");
                r.append(source.substr(f.fractional_part));
                r.append("', '");
                r.append(source.substr(f.exponent));
                r.append("', '");
                r.append(source.substr(f.suffix));
                r.append("'}");
                r
            },
            _ => {
                let spelled = self.token.spelling();
                match spelled {
                    Some(x) => String::from_str(x),
                    None => String::new(),
                }
            },
        }
    }
}

} // verus!
