//! The ways in which a conversion can fail.

use crate::token::{Token, TokenView};
use vstd::prelude::*;

verus! {

/// Why the conversion of an input failed.
#[derive(Debug, Clone, PartialEq)]
pub enum ConvertError {
    /// A string literal has no closing quote.
    UnterminatedString,
    /// A character that starts no token, met where an element of a table was expected.
    UndefinedToken(Token),
    /// The program does not start with an identifier.
    ExpectedIdentifier(Token),
    /// The identifier of the program is not followed by `=`.
    ExpectedAssignment(Token),
    /// A token that the grammar does not allow at its place.
    UnexpectedToken(Token),
    /// The input ends inside a table.
    UnexpectedEndOfInput,
    /// A table holds both array items and object entries.
    MixedTableKinds,
}

/// The model of a [`ConvertError`].
pub enum ErrorView {
    UnterminatedString,
    UndefinedToken(TokenView),
    ExpectedIdentifier(TokenView),
    ExpectedAssignment(TokenView),
    UnexpectedToken(TokenView),
    UnexpectedEndOfInput,
    MixedTableKinds,
}

impl View for ConvertError {
    type V = ErrorView;

    open spec fn view(&self) -> ErrorView {
        match self {
            ConvertError::UnterminatedString => ErrorView::UnterminatedString,
            ConvertError::UndefinedToken(t) => ErrorView::UndefinedToken(t@),
            ConvertError::ExpectedIdentifier(t) => ErrorView::ExpectedIdentifier(t@),
            ConvertError::ExpectedAssignment(t) => ErrorView::ExpectedAssignment(t@),
            ConvertError::UnexpectedToken(t) => ErrorView::UnexpectedToken(t@),
            ConvertError::UnexpectedEndOfInput => ErrorView::UnexpectedEndOfInput,
            ConvertError::MixedTableKinds => ErrorView::MixedTableKinds,
        }
    }
}

/// `head`, then `text` between single quotes.
pub open spec fn quoted_after(head: Seq<char>, text: Seq<char>) -> Seq<char> {
    head + seq!['\''] + text + seq!['\'']
}

/// The message of an error: the rule that was broken and the lexeme of the offending token.
pub open spec fn message_of(e: ErrorView) -> Seq<char> {
    match e {
        ErrorView::UnterminatedString => "LexerError: unexpected end of string"@,
        ErrorView::UndefinedToken(t) => quoted_after("ParserError: undefined token "@, t.text),
        ErrorView::ExpectedIdentifier(t) => quoted_after(
            "ParserError: expected an identifier, found "@,
            t.text,
        ),
        ErrorView::ExpectedAssignment(t) => quoted_after(
            "ParserError: expected an assignment, found "@,
            t.text,
        ),
        ErrorView::UnexpectedToken(t) => quoted_after("ParserError: unexpected token "@, t.text),
        ErrorView::UnexpectedEndOfInput => "ParserError: unexpected end of file"@,
        ErrorView::MixedTableKinds => {
            "JSONTransformerError: a table cannot hold both keyed and keyless elements"@
        },
    }
}

fn quote_after(head: &str, text: &String) -> (s: String)
    ensures
        s@ == quoted_after(head@, text@),
{
    let mut s = String::new();
    s.append(head);
    s.push('\'');
    s.append(text.as_str());
    s.push('\'');
    proof {
        assert(s@ =~= quoted_after(head@, text@));
    }
    s
}

impl ConvertError {
    /// The message of this error.
    pub fn message(&self) -> (s: String)
        ensures
            s@ == message_of(self@),
    {
        match self {
            ConvertError::UnterminatedString => String::from_str(
                "LexerError: unexpected end of string",
            ),
            ConvertError::UndefinedToken(t) => quote_after(
                "ParserError: undefined token ",
                &t.value,
            ),
            ConvertError::ExpectedIdentifier(t) => quote_after(
                "ParserError: expected an identifier, found ",
                &t.value,
            ),
            ConvertError::ExpectedAssignment(t) => quote_after(
                "ParserError: expected an assignment, found ",
                &t.value,
            ),
            ConvertError::UnexpectedToken(t) => quote_after(
                "ParserError: unexpected token ",
                &t.value,
            ),
            ConvertError::UnexpectedEndOfInput => String::from_str(
                "ParserError: unexpected end of file",
            ),
            ConvertError::MixedTableKinds => String::from_str(
                "JSONTransformerError: a table cannot hold both keyed and keyless elements",
            ),
        }
    }
}

} // verus!
