//! The parser over the tokenizer that holds the whole source.

use crate::error::ConvertError;
use crate::grammar::{
    parse_expression, parse_statement, parsed_expression, parsed_program, sound, sound_statement,
};
use crate::lexer::Lexer;
use crate::typedefs::{Expression, Statement};
use vstd::prelude::*;

verus! {

/// A parser that takes its tokens from a [`Lexer`], on demand.
pub struct Parser<'a> {
    pub lexer: &'a mut Lexer,
}

impl<'a> Parser<'a> {
    /// A parser that reads on from where `lexer` stands.
    pub fn new(lexer: &'a mut Lexer) -> (parser: Self)
        ensures
            *parser.lexer == *old(lexer),
            *final(parser.lexer) == *final(lexer),
    {
        Self { lexer }
    }

    /// Parses a program, `identifier = expression`, as [`crate::grammar::parse_program`]
    /// gives it for the characters that remain. What follows the expression is not read.
    pub fn parse_program(&mut self) -> (r: Result<Statement, ConvertError>)
        ensures
            parsed_program(*old(self).lexer, r, *final(self).lexer),
            r matches Ok(st) ==> sound_statement(st@),
            *final(final(self).lexer) == *final(old(self).lexer),
    {
        parse_statement(&mut *self.lexer)
    }

    /// Parses an expression, a unit token or a table, as [`crate::grammar::parse_expr`] gives
    /// it for the characters that remain.
    pub fn parse_expr(&mut self) -> (r: Result<Expression, ConvertError>)
        ensures
            parsed_expression(*old(self).lexer, r, *final(self).lexer),
            r matches Ok(e) ==> sound(e@),
            *final(final(self).lexer) == *final(old(self).lexer),
    {
        parse_expression(&mut *self.lexer)
    }
}

} // verus!
