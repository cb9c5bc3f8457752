use vstd::prelude::*;

verus! {

/// The lexical category of a token.
#[derive(Debug, Clone, Copy, PartialEq, Eq, Structural)]
pub enum TokenType {
    Integer,
    Float,
    Identifier,
    String,
    Equal,
    LBrace,
    RBrace,
    EOF,
    Undefined,
}

/// A token: its category and its exact lexeme.
#[derive(Debug, Clone, PartialEq)]
pub struct Token {
    pub token_type: TokenType,
    pub value: String,
}

/// The mathematical value of a [`Token`]: its category and the characters of its lexeme.
pub struct TokenView {
    pub kind: TokenType,
    pub text: Seq<char>,
}

impl View for Token {
    type V = TokenView;

    open spec fn view(&self) -> TokenView {
        TokenView { kind: self.token_type, text: self.value@ }
    }
}

/// The categories that can stand alone as a scalar expression.
pub open spec fn kind_is_unit(kind: TokenType) -> bool {
    kind == TokenType::Integer || kind == TokenType::Float || kind == TokenType::Identifier
        || kind == TokenType::String
}

/// The categories that may serve as the key of an object entry.
pub open spec fn kind_is_key(kind: TokenType) -> bool {
    kind == TokenType::Identifier || kind == TokenType::Integer
}

impl Token {
    /// A token of the given category and lexeme.
    pub fn new(token_type: TokenType, value: String) -> (t: Self)
        ensures
            t.token_type == token_type,
            t.value == value,
            t@ == (TokenView { kind: token_type, text: value@ }),
    {
        Token { token_type, value }
    }

    /// The token that marks the end of the input. Its lexeme is empty.
    pub fn eof() -> (t: Self)
        ensures
            t@ == (TokenView { kind: TokenType::EOF, text: Seq::empty() }),
    {
        Token { token_type: TokenType::EOF, value: String::new() }
    }

    /// The token for a character that starts no token. Its lexeme is that character.
    pub fn undefined(character: char) -> (t: Self)
        ensures
            t@ == (TokenView { kind: TokenType::Undefined, text: seq![character] }),
    {
        let mut value = String::new();
        value.push(character);
        proof {
            assert(value@ =~= seq![character]);
        }
        Token { token_type: TokenType::Undefined, value }
    }

    /// Whether the token can stand alone as a scalar expression.
    pub fn is_unit(&self) -> (b: bool)
        ensures
            b == kind_is_unit(self@.kind),
    {
        self.token_type == TokenType::Identifier || self.token_type == TokenType::Integer
            || self.token_type == TokenType::Float || self.token_type == TokenType::String
    }

    /// Whether the token may serve as the key of an object entry.
    pub fn is_key(&self) -> (b: bool)
        ensures
            b == kind_is_key(self@.kind),
    {
        self.token_type == TokenType::Identifier || self.token_type == TokenType::Integer
    }
}

} // verus!
