//! The conversion of a program to JSON text, from the source to the output.

use crate::balance::{
    balanced, lemma_parse_expr_clean, lemma_render_is_balanced, letters_and_digits_are_plain,
};
use crate::error::{ConvertError, ErrorView};
use crate::grammar::{lemma_parse_program_sound, parse_expr, parse_program, sound_statement};
use crate::json::{parse_expr_to_json, render, rendered_as};
use crate::lazylexer;
use crate::lazyparser;
use crate::lexer;
use crate::parser;
use crate::scanner::{lemma_next_token_bounds, next_token};
use crate::text::{concat, views_of};
use crate::typedefs::Statement;
use vstd::prelude::*;

verus! {

/// The JSON text of the program `source`: the rendering, at level 0, of the value that the
/// program assigns; or the error that ends the conversion.
pub open spec fn conversion(source: Seq<char>) -> Result<Seq<char>, ErrorView> {
    match parse_program(source) {
        Err(failure) => Err(failure.error),
        Ok(program) => render(program.value.value, 0),
    }
}

/// Converts the program `source` to JSON text, with the source held in memory as a whole.
pub fn convert(source: String) -> (r: Result<String, ConvertError>)
    ensures
        rendered_as(r, conversion(source@)),
        letters_and_digits_are_plain() ==> (r matches Ok(text) ==> balanced(text@)),
{
    proof {
        lemma_conversion_is_balanced(source@);
    }
    let mut lexer = lexer::Lexer::new(source);
    let mut parser = parser::Parser::new(&mut lexer);
    match parser.parse_program() {
        Err(e) => Err(e),
        Ok(Statement::Assignment(assignment)) => parse_expr_to_json(&assignment.value, 0),
    }
}

/// Converts the program whose source is made of `lines`, in order, to JSON text, taking the
/// lines up one at a time.
pub fn convert_lines(lines: Vec<String>) -> (r: Result<String, ConvertError>)
    ensures
        rendered_as(r, conversion(concat(views_of(lines@)))),
        letters_and_digits_are_plain() ==> (r matches Ok(text) ==> balanced(text@)),
{
    proof {
        lemma_conversion_is_balanced(concat(views_of(lines@)));
    }
    let mut lexer = lazylexer::Lexer::new(lines);
    let mut parser = lazyparser::Parser::new(&mut lexer);
    match parser.parse_program() {
        Err(e) => Err(e),
        Ok(Statement::Assignment(assignment)) => parse_expr_to_json(&assignment.value, 0),
    }
}

/// A program that the grammar accepts converts: a parsed program assigns to an identifier a
/// value with homogeneous tables only, unit tokens for scalars and key-eligible keys, so that
/// its rendering succeeds. The conversion fails on the errors of the tokenizer and of the
/// parser, and on no other input.
pub proof fn lemma_accepted_program_converts(source: Seq<char>)
    ensures
        parse_program(source) matches Ok(program) ==> sound_statement(program.value)
            && conversion(source) is Ok,
        conversion(source) is Ok <==> parse_program(source) is Ok,
{
    lemma_parse_program_sound(source);
}

/// The conversion is deterministic: two runs on the same source end alike, with the same text
/// or with the same error.
pub proof fn lemma_conversion_deterministic(
    source: Seq<char>,
    first: Result<String, ConvertError>,
    second: Result<String, ConvertError>,
)
    requires
        rendered_as(first, conversion(source)),
        rendered_as(second, conversion(source)),
    ensures
        first is Ok <==> second is Ok,
        first matches Ok(a) ==> second matches Ok(b) && a@ == b@,
        first matches Err(a) ==> second matches Err(b) && a@ == b@,
{
}

/// The output of a conversion is balanced: every bracket that stands outside of a quoted
/// string is closed by its counterpart, in the right order, and every double quote that opens
/// a string has one that closes it. This holds if no letter and no digit is a double quote or
/// a bracket.
pub proof fn lemma_conversion_is_balanced(source: Seq<char>)
    ensures
        letters_and_digits_are_plain() ==> (conversion(source) matches Ok(text) ==> balanced(
            text,
        )),
{
    if letters_and_digits_are_plain() {
        lemma_next_token_bounds(source);
        if let Ok(first) = next_token(source) {
            let s1 = source.skip(first.consumed as int);
            lemma_next_token_bounds(s1);
            if let Ok(second) = next_token(s1) {
                let s2 = s1.skip(second.consumed as int);
                lemma_parse_expr_clean(s2);
                if let Ok(value) = parse_expr(s2) {
                    lemma_render_is_balanced(value.value, 0);
                }
            }
        }
    }
}

} // verus!
