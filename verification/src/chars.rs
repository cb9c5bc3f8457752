//! The classes of characters that the tokenizer tells apart.

use crate::token::TokenType;
use vstd::prelude::*;

verus! {

/// Whether `char::is_alphabetic` holds of `c`: the Unicode property `Alphabetic`.
pub uninterp spec fn unicode_alphabetic(c: char) -> bool;

/// Whether `char::is_numeric` holds of `c`: the Unicode general categories for numbers.
pub uninterp spec fn unicode_numeric(c: char) -> bool;

/// Whether `char::is_whitespace` holds of `c`: the Unicode property `White_Space`.
pub uninterp spec fn unicode_whitespace(c: char) -> bool;

/// `char::is_alphabetic` is a function of the character alone; its result is named
/// [`unicode_alphabetic`].
pub assume_specification[ char::is_alphabetic ](c: char) -> (b: bool)
    ensures
        b == unicode_alphabetic(c),
;

/// `char::is_numeric` is a function of the character alone; its result is named
/// [`unicode_numeric`].
pub assume_specification[ char::is_numeric ](c: char) -> (b: bool)
    ensures
        b == unicode_numeric(c),
;

/// `char::is_whitespace` is a function of the character alone; its result is named
/// [`unicode_whitespace`].
pub assume_specification[ char::is_whitespace ](c: char) -> (b: bool)
    ensures
        b == unicode_whitespace(c),
;

/// The category of the token that `c` is by itself, if it is one.
pub open spec fn single_char_kind(c: char) -> Option<TokenType> {
    if c == '{' {
        Some(TokenType::LBrace)
    } else if c == '}' {
        Some(TokenType::RBrace)
    } else if c == '=' {
        Some(TokenType::Equal)
    } else {
        None
    }
}

/// A letter or an underscore: what an identifier starts with.
pub open spec fn is_identifier_start(c: char) -> bool {
    unicode_alphabetic(c) || c == '_'
}

/// A letter, a digit or an underscore: what an identifier goes on with.
pub open spec fn is_identifier_part(c: char) -> bool {
    unicode_alphabetic(c) || unicode_numeric(c) || c == '_'
}

/// A digit or a minus sign: what a numeric literal starts with.
pub open spec fn is_number_start(c: char) -> bool {
    unicode_numeric(c) || c == '-'
}

/// What the run of a numeric literal goes on with: digits, and the characters that make the
/// run an identifier or a float.
pub open spec fn is_number_part(c: char) -> bool {
    c == '-' || c == '.' || is_identifier_start(c) || unicode_numeric(c)
}

/// The token category of a one-character token.
pub fn single_char_token(c: char) -> (kind: Option<TokenType>)
    ensures
        kind == single_char_kind(c),
{
    if c == '{' {
        Some(TokenType::LBrace)
    } else if c == '}' {
        Some(TokenType::RBrace)
    } else if c == '=' {
        Some(TokenType::Equal)
    } else {
        None
    }
}

/// Whether `c` can start an identifier.
pub fn is_char_identifier(c: char) -> (b: bool)
    ensures
        b == is_identifier_start(c),
{
    c.is_alphabetic() || c == '_'
}

/// Whether `c` can go on an identifier.
pub fn is_char_identifier_part(c: char) -> (b: bool)
    ensures
        b == is_identifier_part(c),
{
    c.is_alphabetic() || c.is_numeric() || c == '_'
}

/// Whether `c` can go on the run of a numeric literal.
pub fn is_char_number_part(c: char) -> (b: bool)
    ensures
        b == is_number_part(c),
{
    c == '-' || c == '.' || is_char_identifier(c) || c.is_numeric()
}

} // verus!
