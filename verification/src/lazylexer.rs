//! A tokenizer that takes its source line by line and holds one line at a time.

use crate::error::ConvertError;
use crate::scanner::{scan_token, scanned, CharSource};
use crate::text::{concat, views_of};
use crate::token::Token;
use std::collections::VecDeque;
use vstd::prelude::*;

verus! {

/// A tokenizer over the lines of a source. Only the characters of the line that is being
/// read are buffered; a line is taken up when the buffer is empty.
pub struct Lexer {
    lines: Vec<String>,
    next_line: usize,
    buffer: VecDeque<char>,
    consumed: Ghost<Seq<char>>,
}

/// Appends the characters of `line` to `buffer`.
fn push_chars(buffer: &mut VecDeque<char>, line: &str)
    ensures
        final(buffer)@ == old(buffer)@ + line@,
{
    for c in it: line.chars()
        invariant
            it.seq() == line@,
            buffer@ == old(buffer)@ + line@.take(it.index()),
    {
        buffer.push_back(c);
        proof {
            assert(line@.take(it.index() + 1) =~= line@.take(it.index()).push(c));
            assert(buffer@ =~= old(buffer)@ + line@.take(it.index() + 1));
        }
    }
    proof {
        assert(line@.take(line@.len() as int) =~= line@);
    }
}

impl Lexer {
    /// The lines that were not taken up yet.
    pub closed spec fn pending(&self) -> Seq<Seq<char>> {
        if self.next_line <= self.lines@.len() {
            views_of(self.lines@).skip(self.next_line as int)
        } else {
            Seq::empty()
        }
    }

    /// The characters of the line that is being read which were not consumed yet.
    pub closed spec fn buffered(&self) -> Seq<char> {
        self.buffer@
    }
}

impl CharSource for Lexer {
    closed spec fn input(&self) -> Seq<char> {
        self.consumed@ + self.buffer@ + concat(self.pending())
    }

    closed spec fn position(&self) -> nat {
        self.consumed@.len()
    }

    closed spec fn remaining(&self) -> Seq<char> {
        self.buffer@ + concat(self.pending())
    }

    proof fn lemma_remaining(&self) {
        assert(self.input().skip(self.consumed@.len() as int) =~= self.remaining());
    }

    fn peek(&mut self) -> (c: Option<char>) {
        self.get_current_char()
    }

    fn bump(&mut self) {
        self.fill_buffer();
        let ghost before = self.buffer@;
        let popped = self.buffer.pop_front();
        proof {
            let c = before[0];
            assert(popped == Some(c));
            self.consumed@ = self.consumed@.push(c);
            assert(self.buffer@ =~= before.skip(1));
            assert(self.remaining() =~= old(self).remaining().skip(1));
            assert(self.input() =~= old(self).input());
        }
    }
}

impl Lexer {
    /// A tokenizer at the start of the source whose lines are `lines`, each with its line
    /// break if it has one.
    pub fn new(lines: Vec<String>) -> (lexer: Self)
        ensures
            lexer.input() == concat(views_of(lines@)),
            lexer.position() == 0,
            lexer.remaining() == concat(views_of(lines@)),
            lexer.buffered().len() == 0,
    {
        let lexer = Self {
            lines,
            next_line: 0,
            buffer: VecDeque::new(),
            consumed: Ghost(Seq::empty()),
        };
        proof {
            assert(views_of(lines@).skip(0) =~= views_of(lines@));
            assert(lexer.remaining() =~= concat(views_of(lines@)));
            assert(lexer.input() =~= concat(views_of(lines@)));
        }
        lexer
    }

    /// Takes up lines until the buffer holds a character or no line is left.
    fn fill_buffer(&mut self)
        ensures
            final(self).input() == old(self).input(),
            final(self).position() == old(self).position(),
            final(self).remaining() == old(self).remaining(),
            final(self).buffered().len() > 0 || final(self).remaining().len() == 0,
            final(self).buffered().len() > 0 ==> final(self).remaining().len() > 0,
            final(self).buffered().len() > 0 ==> final(self).buffered()[0] == final(
                self
            ).remaining()[0],
    {
        while self.buffer.len() == 0 && self.next_line < self.lines.len()
            invariant
                self.consumed@ == old(self).consumed@,
                self.remaining() == old(self).remaining(),
            decreases self.lines@.len() - self.next_line,
        {
            let ghost pending = self.pending();
            let ghost line = self.lines@[self.next_line as int]@;
            proof {
                assert(pending[0] == line);
                assert(pending.drop_first() =~= views_of(self.lines@).skip(
                    self.next_line as int + 1,
                ));
                assert(self.remaining() =~= line + concat(pending.drop_first()));
            }
            push_chars(&mut self.buffer, self.lines[self.next_line].as_str());
            self.next_line = self.next_line + 1;
            proof {
                assert(self.buffer@ =~= line);
            }
        }
        proof {
            if self.buffer@.len() == 0 {
                assert(self.pending() =~= Seq::<Seq<char>>::empty());
                assert(self.remaining() =~= Seq::<char>::empty());
            }
            assert(self.input() =~= self.consumed@ + self.remaining());
            assert(old(self).input() =~= old(self).consumed@ + old(self).remaining());
        }
    }

    /// The next character, which stays in the source, or `None` at the end of the input.
    pub fn get_current_char(&mut self) -> (c: Option<char>)
        ensures
            final(self).input() == old(self).input(),
            final(self).position() == old(self).position(),
            final(self).remaining() == old(self).remaining(),
            c == (if old(self).remaining().len() == 0 {
                None
            } else {
                Some(old(self).remaining()[0])
            }),
    {
        self.fill_buffer();
        if self.buffer.len() > 0 {
            Some(self.buffer[0])
        } else {
            None
        }
    }

    /// Consumes and returns the next token, as [`crate::scanner::next_token`] gives it for
    /// the characters that remain.
    pub fn advance(&mut self) -> (r: Result<Token, ConvertError>)
        ensures
            scanned(*old(self), r, *final(self)),
    {
        scan_token(self)
    }
}

} // verus!
