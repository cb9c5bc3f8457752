use cfg2json::convert::{convert, convert_lines};
use cfg2json::error::ConvertError;
use cfg2json::json::parse_expr_to_json;
use cfg2json::token::{Token, TokenType};
use cfg2json::typedefs::{Expression, KeyValue, Table, TableElement};

fn tok(kind: TokenType, text: &str) -> Token {
    Token::new(kind, text.to_string())
}

fn unit(kind: TokenType, text: &str) -> Expression {
    Expression::Unit(tok(kind, text))
}

fn item(kind: TokenType, text: &str) -> TableElement {
    TableElement::ArrayElement(tok(kind, text))
}

fn entry(key: Token, value: Expression) -> TableElement {
    TableElement::KeyValueElement(KeyValue { key, value })
}

fn table(elements: Vec<TableElement>) -> Expression {
    Expression::Table(Table { elements })
}

fn ok(text: &str) -> Result<String, ConvertError> {
    Ok(text.to_string())
}

#[test]
fn an_integer_converts_to_its_lexeme() {
    assert_eq!(convert("x = 5".to_string()), ok("5"));
}

#[test]
fn a_string_converts_to_a_quoted_string() {
    assert_eq!(convert("x = \"hello\"".to_string()), ok("\"hello\""));
}

#[test]
fn an_object_converts_to_a_json_object() {
    assert_eq!(
        convert("x = { a = 1 b = 2 }".to_string()),
        ok("{\n    \"a\": 1,\n    \"b\": 2\n}")
    );
}

#[test]
fn an_array_converts_to_a_json_array() {
    assert_eq!(convert("x = { 1 2 3 }".to_string()), ok("[\n    1,\n    2,\n    3\n]"));
}

#[test]
fn a_nested_array_converts_under_its_key() {
    assert_eq!(
        convert("x = { a = { 1 2 } }".to_string()),
        ok("{\n    \"a\": [\n        1,\n        2\n    ]\n}")
    );
}

#[test]
fn an_unterminated_string_fails_the_conversion() {
    assert_eq!(convert("x = \"unterminated".to_string()), Err(ConvertError::UnterminatedString));
}

#[test]
fn numbers_render_as_their_exact_lexeme() {
    assert_eq!(parse_expr_to_json(&unit(TokenType::Integer, "0042"), 0), ok("0042"));
    assert_eq!(parse_expr_to_json(&unit(TokenType::Integer, "-7"), 3), ok("-7"));
    assert_eq!(parse_expr_to_json(&unit(TokenType::Float, "3.140"), 0), ok("3.140"));
    assert_eq!(parse_expr_to_json(&unit(TokenType::Float, "5."), 1), ok("5."));
}

#[test]
fn text_renders_between_one_pair_of_quotes() {
    assert_eq!(parse_expr_to_json(&unit(TokenType::String, "a b"), 0), ok("\"a b\""));
    assert_eq!(parse_expr_to_json(&unit(TokenType::String, ""), 0), ok("\"\""));
    assert_eq!(parse_expr_to_json(&unit(TokenType::Identifier, "yes"), 2), ok("\"yes\""));
    assert_eq!(parse_expr_to_json(&unit(TokenType::String, "\\n\t{"), 0), ok("\"\\n\t{\""));
    assert_eq!(parse_expr_to_json(&unit(TokenType::String, "q\"q"), 0), ok("\"q\"q\""));
}

#[test]
fn other_tokens_render_as_written() {
    assert_eq!(parse_expr_to_json(&unit(TokenType::Equal, "="), 0), ok("="));
    assert_eq!(parse_expr_to_json(&Expression::Unit(Token::eof()), 0), ok(""));
}

#[test]
fn array_items_follow_the_rule_for_scalars() {
    let array = table(vec![
        item(TokenType::Integer, "1"),
        item(TokenType::String, "two"),
        item(TokenType::Identifier, "three"),
        item(TokenType::Float, "4.0"),
    ]);
    assert_eq!(
        parse_expr_to_json(&array, 0),
        ok("[\n    1,\n    \"two\",\n    \"three\",\n    4.0\n]")
    );
}

#[test]
fn keys_are_quoted_whatever_their_kind() {
    let object = table(vec![
        entry(tok(TokenType::Integer, "10"), unit(TokenType::Integer, "1")),
        entry(tok(TokenType::Identifier, "k"), unit(TokenType::Identifier, "v")),
        entry(tok(TokenType::Float, "1.5"), unit(TokenType::String, "s")),
    ]);
    assert_eq!(
        parse_expr_to_json(&object, 0),
        ok("{\n    \"10\": 1,\n    \"k\": \"v\",\n    \"1.5\": \"s\"\n}")
    );
}

#[test]
fn the_empty_table_renders_as_an_empty_object() {
    assert_eq!(parse_expr_to_json(&table(vec![]), 0), ok("{\n\n}"));
    assert_eq!(parse_expr_to_json(&table(vec![]), 2), ok("{\n\n        }"));
    assert_eq!(convert("x = {}".to_string()), ok("{\n\n}"));
    assert_eq!(convert("x = { e = { } }".to_string()), ok("{\n    \"e\": {\n\n    }\n}"));
}

#[test]
fn the_indentation_level_moves_the_elements_and_the_closing_bracket() {
    let array = table(vec![item(TokenType::Integer, "1"), item(TokenType::Integer, "2")]);
    assert_eq!(parse_expr_to_json(&array, 1), ok("[\n        1,\n        2\n    ]"));
    let object = table(vec![entry(tok(TokenType::Identifier, "a"), array)]);
    assert_eq!(
        parse_expr_to_json(&object, 2),
        ok("{\n            \"a\": [\n                1,\n                2\n            ]\n        }")
    );
}

#[test]
fn a_mixed_table_does_not_render() {
    let key_first = table(vec![
        entry(tok(TokenType::Identifier, "a"), unit(TokenType::Integer, "1")),
        item(TokenType::Integer, "2"),
    ]);
    assert_eq!(parse_expr_to_json(&key_first, 0), Err(ConvertError::MixedTableKinds));
    let item_first = table(vec![
        item(TokenType::Integer, "2"),
        item(TokenType::Integer, "3"),
        entry(tok(TokenType::Identifier, "a"), unit(TokenType::Integer, "1")),
    ]);
    assert_eq!(parse_expr_to_json(&item_first, 4), Err(ConvertError::MixedTableKinds));
}

#[test]
fn a_mixed_table_inside_a_table_does_not_render() {
    let mixed = table(vec![
        item(TokenType::Integer, "2"),
        entry(tok(TokenType::Identifier, "a"), unit(TokenType::Integer, "1")),
    ]);
    let outer = table(vec![
        entry(tok(TokenType::Identifier, "fine"), unit(TokenType::Integer, "1")),
        entry(
            tok(TokenType::Identifier, "deep"),
            table(vec![entry(tok(TokenType::Identifier, "deeper"), mixed)]),
        ),
    ]);
    assert_eq!(parse_expr_to_json(&outer, 0), Err(ConvertError::MixedTableKinds));
}

#[test]
fn a_mixed_table_fails_the_conversion() {
    assert_eq!(convert("x = { a = 1 2 3 }".to_string()), Err(ConvertError::MixedTableKinds));
    assert_eq!(convert("x = { 1 2 a = 3 }".to_string()), Err(ConvertError::MixedTableKinds));
}

#[test]
fn the_conversion_gives_the_same_output_every_time() {
    let source = "x = { a = { 1 2 } b = \"s\" c = { d = e } }";
    let first = convert(source.to_string());
    assert!(first.is_ok());
    assert_eq!(convert(source.to_string()), first);
    assert_eq!(convert(source.to_string()), first);
    let bad = "x = { a = 1 2 3 }";
    assert_eq!(convert(bad.to_string()), convert(bad.to_string()));
}

#[test]
fn reclassified_numbers_render_as_text() {
    assert_eq!(
        convert("date = { 1999.31.11 5-3 7 }".to_string()),
        ok("[\n    \"1999.31.11\",\n    \"5-3\",\n    7\n]")
    );
    assert_eq!(convert("x = -2.5".to_string()), ok("-2.5"));
}

#[test]
fn converting_lines_is_converting_their_concatenation() {
    let lines = vec![
        "# a state\n".to_string(),
        "state = {\n".to_string(),
        "    id = 12\n".to_string(),
        "\n".to_string(),
        "    name = \"North\"   # the name\n".to_string(),
        "    provinces = { 1 2 3 }\n".to_string(),
        "}\n".to_string(),
    ];
    let expected = "{\n    \"id\": 12,\n    \"name\": \"North\",\n    \"provinces\": [\n        1,\n        2,\n        3\n    ]\n}";
    assert_eq!(convert(lines.concat()), ok(expected));
    assert_eq!(convert_lines(lines), ok(expected));
    assert_eq!(convert_lines(vec![]), convert(String::new()));
    assert_eq!(
        convert_lines(vec!["x = { a = 1".to_string(), "2 }".to_string()]),
        convert("x = { a = 12 }".to_string())
    );
}

#[test]
fn every_error_of_the_parser_fails_the_conversion() {
    assert_eq!(
        convert("1 = 2".to_string()),
        Err(ConvertError::ExpectedIdentifier(tok(TokenType::Integer, "1")))
    );
    assert_eq!(
        convert("x y".to_string()),
        Err(ConvertError::ExpectedAssignment(tok(TokenType::Identifier, "y")))
    );
    assert_eq!(
        convert("x = }".to_string()),
        Err(ConvertError::UnexpectedToken(tok(TokenType::RBrace, "}")))
    );
    assert_eq!(convert("x = {".to_string()), Err(ConvertError::UnexpectedEndOfInput));
    assert_eq!(
        convert("x = { ; }".to_string()),
        Err(ConvertError::UndefinedToken(Token::undefined(';')))
    );
}
