use vstd::prelude::*;

verus! {

/// Whether `c` has the Unicode property White_Space.
pub uninterp spec fn white_space(c: char) -> bool;

/// Whether `c` has the Unicode property XID_Start.
pub uninterp spec fn xid_start(c: char) -> bool;

/// Whether `c` has the Unicode property XID_Continue.
pub uninterp spec fn xid_continue(c: char) -> bool;

pub open spec fn ascii_letter(c: char) -> bool {
    ('a' <= c && c <= 'z') || ('A' <= c && c <= 'Z')
}

/// The ASCII characters with the White_Space property.
pub open spec fn ascii_white_space(c: char) -> bool {
    c == ' ' || ('\t' <= c && c <= '\r')
}

pub open spec fn dec_digit(c: char) -> bool {
    '0' <= c && c <= '9'
}

pub open spec fn hex_digit(c: char) -> bool {
    dec_digit(c) || ('a' <= c && c <= 'f') || ('A' <= c && c <= 'F')
}

/// Relies on `char::is_whitespace`: true exactly for the characters with the
/// White_Space property, which among ASCII are the space and `\t` to `\r`.
#[verifier::external_body]
fn char_is_whitespace(c: char) -> (r: bool)
    ensures
        r == white_space(c),
        (c as u32) < 128 ==> (r <==> ascii_white_space(c)),
{
    c.is_whitespace()
}

/// Relies on `unicode_ident::is_xid_start`: the XID_Start property, which for
/// ASCII holds of the letters alone.
#[verifier::external_body]
fn is_xid_start(c: char) -> (r: bool)
    ensures
        r == xid_start(c),
        (c as u32) < 128 ==> (r <==> ascii_letter(c)),
{
    unicode_ident::is_xid_start(c)
}

/// Relies on `unicode_ident::is_xid_continue`: the XID_Continue property,
/// which for ASCII holds of the letters, the digits and `_`.
#[verifier::external_body]
fn is_xid_continue(c: char) -> (r: bool)
    ensures
        r == xid_continue(c),
        (c as u32) < 128 ==> (r <==> (ascii_letter(c) || dec_digit(c) || c == '_')),
{
    unicode_ident::is_xid_continue(c)
}

/// Characters that may start an identifier.
pub open spec fn ident_start(c: char) -> bool {
    xid_start(c) || c == '_'
}

/// Characters that may continue an identifier, and make up a literal's suffix.
pub open spec fn ident_continue(c: char) -> bool {
    xid_continue(c) || c == '_'
}

pub open spec fn dec_continue(c: char) -> bool {
    dec_digit(c) || c == '_'
}

pub open spec fn bin_continue(c: char) -> bool {
    c == '0' || c == '1' || c == '_'
}

pub open spec fn oct_continue(c: char) -> bool {
    ('0' <= c && c <= '7') || c == '_'
}

pub open spec fn hex_continue(c: char) -> bool {
    hex_digit(c) || c == '_'
}

pub fn is_whitespace(c: char) -> (r: bool)
    ensures
        r == white_space(c),
        (c as u32) < 128 ==> (r <==> ascii_white_space(c)),
{
    char_is_whitespace(c)
}

pub fn is_identifier_start(c: char) -> (r: bool)
    ensures
        r == ident_start(c),
        (c as u32) < 128 ==> (r <==> (ascii_letter(c) || c == '_')),
{
    is_xid_start(c) || c == '_'
}

pub fn is_identifier_continuation(c: char) -> (r: bool)
    ensures
        r == ident_continue(c),
        (c as u32) < 128 ==> (r <==> (ascii_letter(c) || dec_digit(c) || c == '_')),
{
    is_xid_continue(c) || c == '_'
}

/// A number always starts with a decimal digit, whatever its base.
pub fn is_digit_start(c: char) -> (r: bool)
    ensures
        r == dec_digit(c),
{
    '0' <= c && c <= '9'
}

pub fn is_digit_base10_continuation(c: char) -> (r: bool)
    ensures
        r == dec_continue(c),
{
    ('0' <= c && c <= '9') || c == '_'
}

pub fn is_digit_base2_continuation(c: char) -> (r: bool)
    ensures
        r == bin_continue(c),
{
    c == '0' || c == '1' || c == '_'
}

pub fn is_digit_base8_continuation(c: char) -> (r: bool)
    ensures
        r == oct_continue(c),
{
    ('0' <= c && c <= '7') || c == '_'
}

pub fn is_digit_base16_continuation(c: char) -> (r: bool)
    ensures
        r == hex_continue(c),
{
    ('0' <= c && c <= '9') || ('a' <= c && c <= 'f') || ('A' <= c && c <= 'F') || c == '_'
}

pub fn is_newline(c: char) -> (r: bool)
    ensures
        r == (c == '\n'),
{
    c == '\n'
}

pub fn is_not_newline(c: char) -> (r: bool)
    ensures
        r == (c != '\n'),
{
    !is_newline(c)
}

} // verus!
