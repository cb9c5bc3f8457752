//! A tokenizer that holds the whole source in memory.

use crate::error::ConvertError;
use crate::scanner::{scan_token, scanned, unread, CharSource};
use crate::text::{chars_of, decimal, decimal_string};
use crate::token::Token;
use vstd::prelude::*;

verus! {

/// A tokenizer over a source that was read as a whole. `pos` counts the characters that were
/// consumed.
pub struct Lexer {
    pub pos: usize,
    source: Vec<char>,
}

/// What [`Lexer::get_current_char`] says where there is no character at position `pos`.
pub open spec fn out_of_bounds_message(pos: nat) -> Seq<char> {
    "Index "@ + decimal(pos) + " is out of bounds"@
}

impl CharSource for Lexer {
    closed spec fn input(&self) -> Seq<char> {
        self.source@
    }

    closed spec fn position(&self) -> nat {
        self.pos as nat
    }

    closed spec fn remaining(&self) -> Seq<char> {
        unread(self.source@, self.pos as nat)
    }

    proof fn lemma_remaining(&self) {
    }

    fn peek(&mut self) -> (c: Option<char>) {
        if self.pos < self.source.len() {
            Some(self.source[self.pos])
        } else {
            None
        }
    }

    fn bump(&mut self) {
        proof {
            assert(self.remaining() == unread(self.source@, self.pos as nat));
            assert(self.pos < self.source.len());
            assert(self.source@.skip(self.pos as int).skip(1) =~= self.source@.skip(
                self.pos as int + 1,
            ));
        }
        self.pos = self.pos + 1;
    }
}

impl Lexer {
    /// A tokenizer at the start of `source`.
    pub fn new(source: String) -> (lexer: Self)
        ensures
            lexer.input() == source@,
            lexer.position() == 0,
            lexer.remaining() == source@,
    {
        let chars = chars_of(source.as_str());
        proof {
            assert(chars@.skip(0) =~= chars@);
        }
        Self { pos: 0, source: chars }
    }

    /// The character at the current position, which stays there, or a message where the
    /// position is behind the last character.
    pub fn get_current_char(&self) -> (r: Result<char, String>)
        ensures
            match r {
                Ok(c) => self.remaining().len() > 0 && c == self.remaining()[0],
                Err(message) => self.remaining().len() == 0 && message@ == out_of_bounds_message(
                    self.position(),
                ),
            },
    {
        if self.pos < self.source.len() {
            Ok(self.source[self.pos])
        } else {
            let mut message = String::from_str("Index ");
            let number = decimal_string(self.pos);
            message.append(number.as_str());
            message.append(" is out of bounds");
            Err(message)
        }
    }

    /// Consumes and returns the next token, as [`crate::scanner::next_token`] gives it for
    /// the characters that remain.
    pub fn advance(&mut self) -> (r: Result<Token, ConvertError>)
        ensures
            scanned(*old(self), r, *final(self)),
    {
        scan_token(self)
    }
}

} // verus!
