use cfg2json::error::ConvertError;
use cfg2json::text::{chars_of, decimal_string, indentation_string, join_strings, push_indent};
use cfg2json::token::{Token, TokenType};

#[test]
fn indentation_is_four_spaces_a_level() {
    assert_eq!(indentation_string(0), "");
    assert_eq!(indentation_string(1), "    ");
    assert_eq!(indentation_string(3), "            ");
}

#[test]
fn push_indent_appends_four_spaces() {
    let mut s = "ab".to_string();
    push_indent(&mut s);
    assert_eq!(s, "ab    ");
}

#[test]
fn join_puts_the_separator_between_parts() {
    let none: Vec<String> = Vec::new();
    assert_eq!(join_strings(&none, ",\n"), "");
    assert_eq!(join_strings(&vec!["a".to_string()], ",\n"), "a");
    assert_eq!(
        join_strings(&vec!["a".to_string(), "".to_string(), "c".to_string()], ", "),
        "a, , c"
    );
}

#[test]
fn chars_of_keeps_every_character() {
    assert_eq!(chars_of("a é\n"), vec!['a', ' ', 'é', '\n']);
    assert_eq!(chars_of(""), Vec::<char>::new());
}

#[test]
fn decimal_numerals() {
    assert_eq!(decimal_string(0), "0");
    assert_eq!(decimal_string(7), "7");
    assert_eq!(decimal_string(10), "10");
    assert_eq!(decimal_string(1234567890), "1234567890");
    assert_eq!(decimal_string(usize::MAX), usize::MAX.to_string());
}

#[test]
fn error_messages_name_the_rule_and_the_lexeme() {
    let token = Token::new(TokenType::Equal, "=".to_string());
    assert_eq!(
        ConvertError::UnterminatedString.message(),
        "LexerError: unexpected end of string"
    );
    assert_eq!(
        ConvertError::UndefinedToken(Token::undefined('@')).message(),
        "ParserError: undefined token '@'"
    );
    assert_eq!(
        ConvertError::ExpectedIdentifier(token.clone()).message(),
        "ParserError: expected an identifier, found '='"
    );
    assert_eq!(
        ConvertError::ExpectedAssignment(token.clone()).message(),
        "ParserError: expected an assignment, found '='"
    );
    assert_eq!(
        ConvertError::UnexpectedToken(token).message(),
        "ParserError: unexpected token '='"
    );
    assert_eq!(
        ConvertError::UnexpectedEndOfInput.message(),
        "ParserError: unexpected end of file"
    );
    assert_eq!(
        ConvertError::MixedTableKinds.message(),
        "JSONTransformerError: a table cannot hold both keyed and keyless elements"
    );
}
