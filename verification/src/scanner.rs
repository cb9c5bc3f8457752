//! The rules of tokenization, stated on sequences of characters, and a tokenizer for any
//! source of characters that follows them.

use crate::chars::{
    is_char_identifier, is_char_identifier_part, is_char_number_part, is_identifier_part,
    is_identifier_start, is_number_part, is_number_start, single_char_kind, single_char_token,
    unicode_whitespace,
};
use crate::error::{ConvertError, ErrorView};
use crate::token::{Token, TokenType, TokenView};
use vstd::prelude::*;

verus! {

/// A token together with the number of characters that were consumed to produce it.
pub struct Lexed {
    pub token: TokenView,
    pub consumed: nat,
}

/// An error together with the number of characters that were consumed before it was found.
pub struct Failure {
    pub error: ErrorView,
    pub consumed: nat,
}

/// The length of the longest prefix of `s` whose characters all satisfy `p`.
pub open spec fn run_length(s: Seq<char>, p: spec_fn(char) -> bool) -> nat
    decreases s.len(),
{
    if s.len() > 0 && p(s[0]) {
        1 + run_length(s.drop_first(), p)
    } else {
        0
    }
}

/// The characters of an identifier.
pub open spec fn identifier_chars() -> spec_fn(char) -> bool {
    |c: char| is_identifier_part(c)
}

/// The characters of the run of a numeric literal.
pub open spec fn number_chars() -> spec_fn(char) -> bool {
    |c: char| is_number_part(c)
}

/// The characters that are skipped as whitespace.
pub open spec fn space_chars() -> spec_fn(char) -> bool {
    |c: char| unicode_whitespace(c)
}

/// The characters of a comment: all up to the end of the line.
pub open spec fn comment_chars() -> spec_fn(char) -> bool {
    |c: char| c != '\n'
}

/// The characters of the body of a string literal: all up to the closing quote.
pub open spec fn string_chars() -> spec_fn(char) -> bool {
    |c: char| c != '"'
}

/// `text` holds a `.`.
pub open spec fn has_dot(text: Seq<char>) -> bool {
    exists|i: int| 0 <= i < text.len() && #[trigger] text[i] == '.'
}

/// `text` holds more than one `.`.
pub open spec fn has_two_dots(text: Seq<char>) -> bool {
    exists|i: int, j: int|
        0 <= i < j < text.len() && #[trigger] text[i] == '.' && #[trigger] text[j] == '.'
}

/// `text` holds a `-` after its first character.
pub open spec fn has_inner_minus(text: Seq<char>) -> bool {
    exists|i: int| 1 <= i < text.len() && #[trigger] text[i] == '-'
}

/// `text` holds a letter or an underscore.
pub open spec fn has_letter(text: Seq<char>) -> bool {
    exists|i: int| 0 <= i < text.len() && is_identifier_start(#[trigger] text[i])
}

/// The category of a run that starts like a numeric literal. It is a number only if, but
/// for a leading minus sign and at most one `.`, it holds digits alone: a float if the `.` is
/// there, an integer if not. Any other run is an identifier.
pub open spec fn number_kind(text: Seq<char>) -> TokenType {
    if has_inner_minus(text) || has_two_dots(text) || has_letter(text) {
        TokenType::Identifier
    } else if has_dot(text) {
        TokenType::Float
    } else {
        TokenType::Integer
    }
}

/// The outcome `next` of tokenizing what follows `skipped` characters of whitespace or
/// comment.
pub open spec fn after_skipping(skipped: nat, next: Result<Lexed, Failure>) -> Result<
    Lexed,
    Failure,
> {
    match next {
        Ok(lexed) => Ok(Lexed { token: lexed.token, consumed: skipped + lexed.consumed }),
        Err(f) => Err(Failure { error: f.error, consumed: skipped + f.consumed }),
    }
}

/// The identifier at the front of `s`: the run of letters, digits and underscores.
pub open spec fn identifier_token(s: Seq<char>) -> Lexed {
    let n = run_length(s, identifier_chars());
    Lexed { token: TokenView { kind: TokenType::Identifier, text: s.take(n as int) }, consumed: n }
}

/// The numeric literal at the front of `s`: the run of [`number_chars`], classified by
/// [`number_kind`].
pub open spec fn number_token(s: Seq<char>) -> Lexed {
    let n = run_length(s, number_chars());
    Lexed {
        token: TokenView { kind: number_kind(s.take(n as int)), text: s.take(n as int) },
        consumed: n,
    }
}

/// The string literal whose opening quote is the first character of `s`: the characters up
/// to the closing quote, without the quotes, which are consumed too. Without a closing quote
/// the literal is an error, found at the end of the input.
pub open spec fn string_token(s: Seq<char>) -> Result<Lexed, Failure> {
    let n = run_length(s.skip(1), string_chars());
    if n + 1 == s.len() {
        Err(Failure { error: ErrorView::UnterminatedString, consumed: s.len() })
    } else {
        Ok(
            Lexed {
                token: TokenView { kind: TokenType::String, text: s.subrange(1, n as int + 1) },
                consumed: n + 2,
            },
        )
    }
}

/// The first token of `s` and the number of characters that it consumes, or the error that
/// the tokenizer ends with.
///
/// The first character decides. At the end of the input the token is `EOF`, with nothing
/// consumed. A character that starts no token gives `Undefined`, which holds the character
/// and consumes nothing. Whitespace, and a comment from `#` to the end of its line, are
/// skipped.
pub open spec fn next_token(s: Seq<char>) -> Result<Lexed, Failure>
    decreases s.len(),
{
    if s.len() == 0 {
        Ok(Lexed { token: TokenView { kind: TokenType::EOF, text: Seq::empty() }, consumed: 0 })
    } else if single_char_kind(s[0]) is Some {
        Ok(
            Lexed {
                token: TokenView { kind: single_char_kind(s[0])->0, text: seq![s[0]] },
                consumed: 1,
            },
        )
    } else if is_identifier_start(s[0]) {
        Ok(identifier_token(s))
    } else if is_number_start(s[0]) {
        Ok(number_token(s))
    } else if s[0] == '"' {
        string_token(s)
    } else if unicode_whitespace(s[0]) {
        let n = run_length(s, space_chars());
        proof {
            lemma_run_length_bounds(s, space_chars());
        }
        after_skipping(n, next_token(s.skip(n as int)))
    } else if s[0] == '#' {
        let n = run_length(s, comment_chars());
        proof {
            lemma_run_length_bounds(s, comment_chars());
        }
        after_skipping(n, next_token(s.skip(n as int)))
    } else {
        Ok(Lexed { token: TokenView { kind: TokenType::Undefined, text: seq![s[0]] }, consumed: 0 })
    }
}

/// A run is no longer than the sequence, and not empty if the first character belongs to it.
pub proof fn lemma_run_length_bounds(s: Seq<char>, p: spec_fn(char) -> bool)
    ensures
        run_length(s, p) <= s.len(),
        s.len() > 0 && p(s[0]) ==> run_length(s, p) >= 1,
    decreases s.len(),
{
    if s.len() > 0 && p(s[0]) {
        lemma_run_length_bounds(s.drop_first(), p);
    }
}

/// A token consumes no more than there is, and at least one character unless it is `EOF` or
/// `Undefined`.
pub proof fn lemma_next_token_bounds(s: Seq<char>)
    ensures
        next_token(s) matches Ok(lexed) ==> lexed.consumed <= s.len() && (lexed.consumed == 0
            ==> lexed.token.kind == TokenType::EOF || lexed.token.kind == TokenType::Undefined),
        next_token(s) matches Err(f) ==> f.consumed == s.len() && f.error
            == ErrorView::UnterminatedString,
    decreases s.len(),
{
    if s.len() == 0 {
    } else if single_char_kind(s[0]) is Some {
    } else if is_identifier_start(s[0]) {
        lemma_run_length_bounds(s, identifier_chars());
    } else if is_number_start(s[0]) {
        lemma_run_length_bounds(s, number_chars());
    } else if s[0] == '"' {
        lemma_run_length_bounds(s.skip(1), string_chars());
    } else if unicode_whitespace(s[0]) {
        lemma_run_length_bounds(s, space_chars());
        lemma_next_token_bounds(s.skip(run_length(s, space_chars()) as int));
    } else if s[0] == '#' {
        lemma_run_length_bounds(s, comment_chars());
        lemma_next_token_bounds(s.skip(run_length(s, comment_chars()) as int));
    } else {
    }
}

/// Once the tokenizer has given `EOF` it gives `EOF` for ever, and once it has given
/// `Undefined` it gives the same `Undefined` for ever: behind either token, the same token
/// comes again, with nothing consumed.
pub proof fn lemma_last_token_stays(s: Seq<char>)
    ensures
        next_token(s) matches Ok(lexed) ==> (lexed.token.kind == TokenType::EOF
            || lexed.token.kind == TokenType::Undefined) ==> next_token(
            s.skip(lexed.consumed as int),
        ) == Ok::<Lexed, Failure>(Lexed { token: lexed.token, consumed: 0 }),
        next_token(s) matches Ok(lexed) ==> lexed.token.kind == TokenType::EOF ==> lexed.consumed
            == s.len() && lexed.token.text == Seq::<char>::empty(),
    decreases s.len(),
{
    if s.len() == 0 {
        assert(s.skip(0) =~= s);
    } else if single_char_kind(s[0]) is Some {
    } else if is_identifier_start(s[0]) {
    } else if is_number_start(s[0]) {
        let text = s.take(run_length(s, number_chars()) as int);
        assert(number_kind(text) != TokenType::EOF && number_kind(text) != TokenType::Undefined);
    } else if s[0] == '"' {
    } else if unicode_whitespace(s[0]) {
        let n = run_length(s, space_chars());
        lemma_run_length_bounds(s, space_chars());
        lemma_next_token_bounds(s.skip(n as int));
        lemma_last_token_stays(s.skip(n as int));
        if let Ok(lexed) = next_token(s.skip(n as int)) {
            assert(s.skip(n as int).skip(lexed.consumed as int) =~= s.skip(
                n as int + lexed.consumed as int,
            ));
        }
    } else if s[0] == '#' {
        let n = run_length(s, comment_chars());
        lemma_run_length_bounds(s, comment_chars());
        lemma_next_token_bounds(s.skip(n as int));
        lemma_last_token_stays(s.skip(n as int));
        if let Ok(lexed) = next_token(s.skip(n as int)) {
            assert(s.skip(n as int).skip(lexed.consumed as int) =~= s.skip(
                n as int + lexed.consumed as int,
            ));
        }
    } else {
        assert(s.skip(0) =~= s);
    }
}

/// The run of `p` in `prefix + rest` is `prefix`, if `p` holds of all of `prefix` and not of
/// the first character of `rest`.
pub proof fn lemma_run_split(
    s: Seq<char>,
    p: spec_fn(char) -> bool,
    prefix: Seq<char>,
    rest: Seq<char>,
)
    requires
        s == prefix + rest,
        forall|i: int| 0 <= i < prefix.len() ==> p(#[trigger] prefix[i]),
        rest.len() == 0 || !p(rest[0]),
    ensures
        run_length(s, p) == prefix.len(),
        s.take(prefix.len() as int) == prefix,
        s.skip(prefix.len() as int) == rest,
    decreases prefix.len(),
{
    assert(s.take(prefix.len() as int) =~= prefix);
    assert(s.skip(prefix.len() as int) =~= rest);
    if prefix.len() == 0 {
        assert(s =~= rest);
    } else {
        assert(s[0] == prefix[0]);
        assert(s.drop_first() =~= prefix.drop_first() + rest);
        assert forall|i: int| 0 <= i < prefix.drop_first().len() implies p(
            #[trigger] prefix.drop_first()[i],
        ) by {
            assert(prefix.drop_first()[i] == prefix[i + 1]);
        }
        lemma_run_split(s.drop_first(), p, prefix.drop_first(), rest);
    }
}

/// The characters of `input` from `position` on; none if `position` is behind the end.
pub open spec fn unread(input: Seq<char>, position: nat) -> Seq<char> {
    if position <= input.len() {
        input.skip(position as int)
    } else {
        Seq::empty()
    }
}

/// A source of characters that hands them out one at a time.
pub trait CharSource: Sized {
    /// All the characters of the input, consumed or not, in order.
    spec fn input(&self) -> Seq<char>;

    /// The number of characters that were consumed.
    spec fn position(&self) -> nat;

    /// The characters that were not consumed yet, in order.
    spec fn remaining(&self) -> Seq<char>;

    /// What remains is the input from the position on.
    proof fn lemma_remaining(&self)
        ensures
            self.remaining() == unread(self.input(), self.position()),
    ;

    /// The next character, which stays in the source, or `None` at the end of the input.
    fn peek(&mut self) -> (c: Option<char>)
        ensures
            final(self).input() == old(self).input(),
            final(self).position() == old(self).position(),
            final(self).remaining() == old(self).remaining(),
            c == (if old(self).remaining().len() == 0 {
                None
            } else {
                Some(old(self).remaining()[0])
            }),
    ;

    /// Consumes the next character.
    fn bump(&mut self)
        requires
            old(self).remaining().len() > 0,
        ensures
            final(self).input() == old(self).input(),
            final(self).position() == old(self).position() + 1,
            final(self).remaining() == old(self).remaining().skip(1),
    ;
}

/// Whether the source `after` is `before` with `consumed` more characters consumed.
pub open spec fn advanced_by<S: CharSource>(before: S, consumed: nat, after: S) -> bool {
    &&& after.input() == before.input()
    &&& after.position() == before.position() + consumed
    &&& after.remaining() == before.remaining().skip(consumed as int)
}

/// Consuming `j` characters and then `k` is consuming `j + k`.
pub proof fn lemma_advanced_twice<S: CharSource>(a: S, j: nat, b: S, k: nat, c: S)
    requires
        advanced_by(a, j, b),
        advanced_by(b, k, c),
        j + k <= a.remaining().len(),
    ensures
        advanced_by(a, j + k, c),
{
    assert(a.remaining().skip(j as int).skip(k as int) =~= a.remaining().skip(j as int + k as int));
}

/// Whether `r` and the source `after` are what the outcome `expected` of a rule gives on the
/// source `before`: its token or its error, with the characters consumed that the outcome
/// tells.
pub open spec fn produced<S: CharSource>(
    expected: Result<Lexed, Failure>,
    before: S,
    r: Result<Token, ConvertError>,
    after: S,
) -> bool {
    match expected {
        Ok(lexed) => r matches Ok(t) && t@ == lexed.token && advanced_by(
            before,
            lexed.consumed,
            after,
        ),
        Err(f) => r matches Err(x) && x@ == f.error && advanced_by(before, f.consumed, after),
    }
}

/// Whether `r` and the source `after` are what tokenizing the rest of `before` gives.
pub open spec fn scanned<S: CharSource>(
    before: S,
    r: Result<Token, ConvertError>,
    after: S,
) -> bool {
    produced(next_token(before.remaining()), before, r, after)
}

/// Consumes an identifier: the run of letters, digits and underscores at the front.
pub fn consume_identifier<S: CharSource>(src: &mut S) -> (t: Token)
    ensures
        produced(Ok(identifier_token(old(src).remaining())), *old(src), Ok(t), *final(src)),
{
    let ghost s = src.remaining();
    let mut buffer = String::new();
    assert(s =~= buffer@ + src.remaining());
    loop
        invariant
            src.input() == old(src).input(),
            src.position() == old(src).position() + buffer@.len(),
            s == buffer@ + src.remaining(),
            forall|i: int| 0 <= i < buffer@.len() ==> is_identifier_part(#[trigger] buffer@[i]),
        ensures
            src.remaining().len() == 0 || !is_identifier_part(src.remaining()[0]),
        decreases src.remaining().len(),
    {
        match src.peek() {
            None => {
                break ;
            },
            Some(current) => {
                if !is_char_identifier_part(current) {
                    break ;
                }
                buffer.push(current);
                src.bump();
                assert(s =~= buffer@ + src.remaining());
            },
        }
    }
    proof {
        lemma_run_split(s, identifier_chars(), buffer@, src.remaining());
    }
    Token::new(TokenType::Identifier, buffer)
}

/// What appending `c` to `text` does to the marks by which a numeric run is classified.
pub proof fn lemma_number_marks_push(text: Seq<char>, c: char)
    ensures
        has_dot(text.push(c)) == (has_dot(text) || c == '.'),
        has_two_dots(text.push(c)) == (has_two_dots(text) || (has_dot(text) && c == '.')),
        has_inner_minus(text.push(c)) == (has_inner_minus(text) || (text.len() >= 1 && c == '-')),
        has_letter(text.push(c)) == (has_letter(text) || is_identifier_start(c)),
{
    let more = text.push(c);
    let n = text.len() as int;
    assert(more[n] == c);
    assert forall|i: int| 0 <= i < n implies more[i] == text[i] by {}
    if has_dot(text) {
        let i = choose|i: int| 0 <= i < text.len() && #[trigger] text[i] == '.';
        assert(more[i] == '.');
        if c == '.' {
            assert(more[i] == '.' && more[n] == '.');
        }
    }
    if has_dot(more) {
        let i = choose|i: int| 0 <= i < more.len() && #[trigger] more[i] == '.';
        if i < n {
            assert(text[i] == '.');
        }
    }
    if has_two_dots(text) {
        let (i, j) = choose|i: int, j: int|
            0 <= i < j < text.len() && #[trigger] text[i] == '.' && #[trigger] text[j] == '.';
        assert(more[i] == '.' && more[j] == '.');
    }
    if has_two_dots(more) {
        let (i, j) = choose|i: int, j: int|
            0 <= i < j < more.len() && #[trigger] more[i] == '.' && #[trigger] more[j] == '.';
        assert(text[i] == '.');
        if j < n {
            assert(text[j] == '.');
        }
    }
    if has_inner_minus(text) {
        let i = choose|i: int| 1 <= i < text.len() && #[trigger] text[i] == '-';
        assert(more[i] == '-');
    }
    if has_inner_minus(more) {
        let i = choose|i: int| 1 <= i < more.len() && #[trigger] more[i] == '-';
        if i < n {
            assert(text[i] == '-');
        }
    }
    if has_letter(text) {
        let i = choose|i: int| 0 <= i < text.len() && is_identifier_start(#[trigger] text[i]);
        assert(is_identifier_start(more[i]));
    }
    if has_letter(more) {
        let i = choose|i: int| 0 <= i < more.len() && is_identifier_start(#[trigger] more[i]);
        if i < n {
            assert(is_identifier_start(text[i]));
        }
    }
}

/// Consumes the run of a numeric literal and classifies it: an integer, a float, or, if the
/// run is irregular, an identifier.
pub fn consume_numeric<S: CharSource>(src: &mut S) -> (t: Token)
    ensures
        produced(Ok(number_token(old(src).remaining())), *old(src), Ok(t), *final(src)),
{
    let ghost s = src.remaining();
    let mut buffer = String::new();
    let mut is_float = false;
    let mut is_identifier = false;
    let mut is_first = true;
    assert(s =~= buffer@ + src.remaining());
    loop
        invariant
            src.input() == old(src).input(),
            src.position() == old(src).position() + buffer@.len(),
            s == buffer@ + src.remaining(),
            forall|i: int| 0 <= i < buffer@.len() ==> is_number_part(#[trigger] buffer@[i]),
            is_first == (buffer@.len() == 0),
            is_float == has_dot(buffer@),
            is_identifier == (has_inner_minus(buffer@) || has_two_dots(buffer@) || has_letter(
                buffer@,
            )),
        ensures
            src.remaining().len() == 0 || !is_number_part(src.remaining()[0]),
        decreases src.remaining().len(),
    {
        match src.peek() {
            None => {
                break ;
            },
            Some(current) => {
                if !is_char_number_part(current) {
                    break ;
                }
                // A minus sign belongs at the front of a number, and nowhere else.
                if current == '-' && !is_first {
                    is_identifier = true;
                }
                // A float holds one dot; with a second one the run is an identifier.
                if current == '.' {
                    if is_float {
                        is_identifier = true;
                    } else {
                        is_float = true;
                    }
                }
                if is_char_identifier(current) {
                    is_identifier = true;
                }
                proof {
                    lemma_number_marks_push(buffer@, current);
                }
                buffer.push(current);
                src.bump();
                is_first = false;
                assert(s =~= buffer@ + src.remaining());
            },
        }
    }
    proof {
        lemma_run_split(s, number_chars(), buffer@, src.remaining());
    }
    if is_identifier {
        Token::new(TokenType::Identifier, buffer)
    } else if is_float {
        Token::new(TokenType::Float, buffer)
    } else {
        Token::new(TokenType::Integer, buffer)
    }
}

/// Consumes a string literal, whose opening quote is the next character: all up to the
/// closing quote, which is consumed too and is no part of the token. Without a closing quote
/// the whole input is consumed and the literal is an error.
pub fn consume_string<S: CharSource>(src: &mut S) -> (r: Result<Token, ConvertError>)
    requires
        old(src).remaining().len() > 0,
    ensures
        produced(string_token(old(src).remaining()), *old(src), r, *final(src)),
{
    let ghost s = src.remaining();
    let mut buffer = String::new();
    let mut is_valid_string = false;
    src.bump();
    assert(s.skip(1) =~= buffer@ + src.remaining());
    loop
        invariant_except_break
            !is_valid_string,
        invariant
            s.len() > 0,
            src.input() == old(src).input(),
            src.position() == old(src).position() + 1 + buffer@.len(),
            s.skip(1) == buffer@ + src.remaining(),
            forall|i: int| 0 <= i < buffer@.len() ==> #[trigger] buffer@[i] != '"',
        ensures
            is_valid_string ==> src.remaining().len() > 0 && src.remaining()[0] == '"',
            !is_valid_string ==> src.remaining().len() == 0,
        decreases src.remaining().len(),
    {
        match src.peek() {
            None => {
                break ;
            },
            Some(current) => {
                if current == '"' {
                    is_valid_string = true;
                    break ;
                }
                buffer.push(current);
                src.bump();
                assert(s.skip(1) =~= buffer@ + src.remaining());
            },
        }
    }
    proof {
        lemma_run_split(s.skip(1), string_chars(), buffer@, src.remaining());
        assert(s.skip(1).take(buffer@.len() as int) =~= s.subrange(1, buffer@.len() as int + 1));
    }
    if is_valid_string {
        src.bump();
        proof {
            assert(s.skip(1).skip(buffer@.len() as int).skip(1) =~= s.skip(
                buffer@.len() as int + 2,
            ));
        }
        Ok(Token::new(TokenType::String, buffer))
    } else {
        proof {
            assert(src.remaining() =~= s.skip(s.len() as int));
        }
        Err(ConvertError::UnterminatedString)
    }
}

/// Skips the whitespace at the front.
pub fn skip_spaces<S: CharSource>(src: &mut S)
    ensures
        advanced_by(*old(src), run_length(old(src).remaining(), space_chars()), *final(src)),
{
    let ghost s = src.remaining();
    let ghost mut skipped = Seq::<char>::empty();
    assert(s =~= skipped + src.remaining());
    loop
        invariant
            src.input() == old(src).input(),
            src.position() == old(src).position() + skipped.len(),
            s == skipped + src.remaining(),
            forall|i: int| 0 <= i < skipped.len() ==> unicode_whitespace(#[trigger] skipped[i]),
        ensures
            src.remaining().len() == 0 || !unicode_whitespace(src.remaining()[0]),
        decreases src.remaining().len(),
    {
        match src.peek() {
            None => {
                break ;
            },
            Some(current) => {
                if !current.is_whitespace() {
                    break ;
                }
                src.bump();
                proof {
                    skipped = skipped.push(current);
                    assert(s =~= skipped + src.remaining());
                }
            },
        }
    }
    proof {
        lemma_run_split(s, space_chars(), skipped, src.remaining());
    }
}

/// Skips a comment: all up to the end of the line, which stays.
pub fn skip_comment<S: CharSource>(src: &mut S)
    ensures
        advanced_by(*old(src), run_length(old(src).remaining(), comment_chars()), *final(src)),
{
    let ghost s = src.remaining();
    let ghost mut skipped = Seq::<char>::empty();
    assert(s =~= skipped + src.remaining());
    loop
        invariant
            src.input() == old(src).input(),
            src.position() == old(src).position() + skipped.len(),
            s == skipped + src.remaining(),
            forall|i: int| 0 <= i < skipped.len() ==> #[trigger] skipped[i] != '\n',
        ensures
            src.remaining().len() == 0 || src.remaining()[0] == '\n',
        decreases src.remaining().len(),
    {
        match src.peek() {
            None => {
                break ;
            },
            Some(current) => {
                if current == '\n' {
                    break ;
                }
                src.bump();
                proof {
                    skipped = skipped.push(current);
                    assert(s =~= skipped + src.remaining());
                }
            },
        }
    }
    proof {
        lemma_run_split(s, comment_chars(), skipped, src.remaining());
    }
}

/// Consumes and returns the next token of `src`.
pub fn scan_token<S: CharSource>(src: &mut S) -> (r: Result<Token, ConvertError>)
    ensures
        scanned(*old(src), r, *final(src)),
    decreases old(src).remaining().len(),
{
    let ghost s = src.remaining();
    let current = match src.peek() {
        Some(c) => c,
        None => {
            proof {
                assert(s.skip(0) =~= s);
            }
            return Ok(Token::eof());
        },
    };
    if let Some(kind) = single_char_token(current) {
        src.bump();
        let mut value = String::new();
        value.push(current);
        proof {
            assert(value@ =~= seq![current]);
        }
        Ok(Token::new(kind, value))
    } else if is_char_identifier(current) {
        Ok(consume_identifier(src))
    } else if current.is_numeric() || current == '-' {
        Ok(consume_numeric(src))
    } else if current == '"' {
        consume_string(src)
    } else if current.is_whitespace() {
        skip_spaces(src);
        proof {
            lemma_run_length_bounds(s, space_chars());
        }
        let r = scan_token(src);
        proof {
            let n = run_length(s, space_chars()) as int;
            lemma_next_token_bounds(s.skip(n));
            match next_token(s.skip(n)) {
                Ok(lexed) => {
                    assert(s.skip(n).skip(lexed.consumed as int) =~= s.skip(n + lexed.consumed));
                },
                Err(f) => {
                    assert(s.skip(n).skip(f.consumed as int) =~= s.skip(n + f.consumed));
                },
            }
        }
        r
    } else if current == '#' {
        skip_comment(src);
        proof {
            lemma_run_length_bounds(s, comment_chars());
        }
        let r = scan_token(src);
        proof {
            let n = run_length(s, comment_chars()) as int;
            lemma_next_token_bounds(s.skip(n));
            match next_token(s.skip(n)) {
                Ok(lexed) => {
                    assert(s.skip(n).skip(lexed.consumed as int) =~= s.skip(n + lexed.consumed));
                },
                Err(f) => {
                    assert(s.skip(n).skip(f.consumed as int) =~= s.skip(n + f.consumed));
                },
            }
        }
        r
    } else {
        proof {
            assert(s.skip(0) =~= s);
        }
        Ok(Token::undefined(current))
    }
}

} // verus!
