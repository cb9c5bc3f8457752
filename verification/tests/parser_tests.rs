use cfg2json::error::ConvertError;
use cfg2json::grammar::{parse_expression, parse_statement};
use cfg2json::lazylexer;
use cfg2json::lazyparser;
use cfg2json::lexer::Lexer;
use cfg2json::parser::Parser;
use cfg2json::token::{Token, TokenType};
use cfg2json::typedefs::{
    AssignmentStatement, Expression, KeyValue, Statement, Table, TableElement,
};

fn tok(kind: TokenType, text: &str) -> Token {
    Token::new(kind, text.to_string())
}

fn integer(text: &str) -> Token {
    tok(TokenType::Integer, text)
}

fn ident(text: &str) -> Token {
    tok(TokenType::Identifier, text)
}

fn item(token: Token) -> TableElement {
    TableElement::ArrayElement(token)
}

fn entry(key: Token, value: Expression) -> TableElement {
    TableElement::KeyValueElement(KeyValue { key, value })
}

fn table(elements: Vec<TableElement>) -> Expression {
    Expression::Table(Table { elements })
}

fn program(source: &str) -> Result<Statement, ConvertError> {
    let mut lexer = Lexer::new(source.to_string());
    let mut parser = Parser::new(&mut lexer);
    parser.parse_program()
}

fn expr(source: &str) -> Result<Expression, ConvertError> {
    let mut lexer = Lexer::new(source.to_string());
    let mut parser = Parser::new(&mut lexer);
    parser.parse_expr()
}

fn assignment(name: &str, value: Expression) -> Statement {
    Statement::Assignment(AssignmentStatement { identifier: ident(name), value })
}

#[test]
fn a_program_assigns_a_scalar() {
    assert_eq!(program("x = 5"), Ok(assignment("x", Expression::Unit(integer("5")))));
    assert_eq!(
        program("x = \"hello\""),
        Ok(assignment("x", Expression::Unit(tok(TokenType::String, "hello"))))
    );
    assert_eq!(program("x = y"), Ok(assignment("x", Expression::Unit(ident("y")))));
    assert_eq!(
        program("x=1.5"),
        Ok(assignment("x", Expression::Unit(tok(TokenType::Float, "1.5"))))
    );
}

#[test]
fn a_program_starts_with_an_identifier() {
    assert_eq!(program("5 = 5"), Err(ConvertError::ExpectedIdentifier(integer("5"))));
    assert_eq!(
        program("= 5"),
        Err(ConvertError::ExpectedIdentifier(tok(TokenType::Equal, "=")))
    );
    assert_eq!(program(""), Err(ConvertError::ExpectedIdentifier(Token::eof())));
    assert_eq!(program("\"x\" = 1"), Err(ConvertError::ExpectedIdentifier(tok(TokenType::String, "x"))));
    assert_eq!(program("@"), Err(ConvertError::ExpectedIdentifier(Token::undefined('@'))));
}

#[test]
fn the_identifier_is_followed_by_an_assignment() {
    assert_eq!(program("x 5"), Err(ConvertError::ExpectedAssignment(integer("5"))));
    assert_eq!(program("x"), Err(ConvertError::ExpectedAssignment(Token::eof())));
    assert_eq!(
        program("x { 1 }"),
        Err(ConvertError::ExpectedAssignment(tok(TokenType::LBrace, "{")))
    );
}

#[test]
fn an_expression_starts_with_a_unit_or_a_brace() {
    assert_eq!(
        program("x = ="),
        Err(ConvertError::UnexpectedToken(tok(TokenType::Equal, "=")))
    );
    assert_eq!(
        program("x = }"),
        Err(ConvertError::UnexpectedToken(tok(TokenType::RBrace, "}")))
    );
    assert_eq!(program("x ="), Err(ConvertError::UnexpectedToken(Token::eof())));
    assert_eq!(program("x = @"), Err(ConvertError::UnexpectedToken(Token::undefined('@'))));
}

#[test]
fn lexer_errors_pass_through_the_parser() {
    assert_eq!(program("x = \"unterminated"), Err(ConvertError::UnterminatedString));
    assert_eq!(program("\"x"), Err(ConvertError::UnterminatedString));
    assert_eq!(program("x \"="), Err(ConvertError::UnterminatedString));
    assert_eq!(program("x = { a = \"b }"), Err(ConvertError::UnterminatedString));
    assert_eq!(program("x = { a \"b }"), Err(ConvertError::UnterminatedString));
    assert_eq!(program("x = { \"b }"), Err(ConvertError::UnterminatedString));
}

#[test]
fn an_object_table_keeps_its_entries_in_order() {
    assert_eq!(
        program("x = { a = 1 b = 2 }"),
        Ok(assignment(
            "x",
            table(vec![
                entry(ident("a"), Expression::Unit(integer("1"))),
                entry(ident("b"), Expression::Unit(integer("2"))),
            ])
        ))
    );
    assert_eq!(
        expr("{ 10 = x }"),
        Ok(table(vec![entry(integer("10"), Expression::Unit(ident("x")))]))
    );
}

#[test]
fn an_array_table_keeps_its_items_in_order() {
    assert_eq!(
        program("x = { 1 2 3 }"),
        Ok(assignment("x", table(vec![item(integer("1")), item(integer("2")), item(integer("3"))])))
    );
    assert_eq!(expr("{ 1 }"), Ok(table(vec![item(integer("1"))])));
    assert_eq!(expr("{ 1 2 }"), Ok(table(vec![item(integer("1")), item(integer("2"))])));
    assert_eq!(
        expr("{ a \"b\" 1.5 d }"),
        Ok(table(vec![
            item(ident("a")),
            item(tok(TokenType::String, "b")),
            item(tok(TokenType::Float, "1.5")),
            item(ident("d")),
        ]))
    );
    assert_eq!(
        expr("{1 2 3 4 5}"),
        Ok(table(vec![
            item(integer("1")),
            item(integer("2")),
            item(integer("3")),
            item(integer("4")),
            item(integer("5")),
        ]))
    );
}

#[test]
fn the_empty_table_has_no_elements() {
    assert_eq!(expr("{}"), Ok(table(vec![])));
    assert_eq!(program("x = { }"), Ok(assignment("x", table(vec![]))));
}

#[test]
fn tables_nest_in_entries() {
    assert_eq!(
        program("x = { a = { 1 2 } }"),
        Ok(assignment(
            "x",
            table(vec![entry(ident("a"), table(vec![item(integer("1")), item(integer("2"))]))])
        ))
    );
    assert_eq!(
        expr("{ a = { b = { } c = { d = 1 } } e = 2 }"),
        Ok(table(vec![
            entry(
                ident("a"),
                table(vec![
                    entry(ident("b"), table(vec![])),
                    entry(ident("c"), table(vec![entry(ident("d"), Expression::Unit(integer("1")))])),
                ])
            ),
            entry(ident("e"), Expression::Unit(integer("2"))),
        ]))
    );
}

#[test]
fn a_table_ends_with_its_brace() {
    assert_eq!(program("x = {"), Err(ConvertError::UnexpectedEndOfInput));
    assert_eq!(program("x = { a = 1"), Err(ConvertError::UnexpectedEndOfInput));
    assert_eq!(program("x = { 1 2"), Err(ConvertError::UnexpectedEndOfInput));
    assert_eq!(program("x = { a = { 1 }"), Err(ConvertError::UnexpectedEndOfInput));
    assert_eq!(program("x = { 1"), Err(ConvertError::UnexpectedToken(Token::eof())));
}

#[test]
fn an_undefined_character_in_a_table_is_an_error() {
    assert_eq!(
        program("x = { @ }"),
        Err(ConvertError::UndefinedToken(Token::undefined('@')))
    );
    assert_eq!(
        program("x = { 1 2 , }"),
        Err(ConvertError::UndefinedToken(Token::undefined(',')))
    );
    assert_eq!(
        program("x = { 1 , 2 }"),
        Err(ConvertError::UnexpectedToken(Token::undefined(',')))
    );
}

#[test]
fn a_table_refuses_tokens_out_of_place() {
    assert_eq!(
        program("x = { = }"),
        Err(ConvertError::UnexpectedToken(tok(TokenType::Equal, "=")))
    );
    assert_eq!(
        program("x = { { 1 } }"),
        Err(ConvertError::UnexpectedToken(tok(TokenType::LBrace, "{")))
    );
    assert_eq!(
        program("x = { a { 1 } }"),
        Err(ConvertError::UnexpectedToken(tok(TokenType::LBrace, "{")))
    );
    assert_eq!(
        program("x = { a = = }"),
        Err(ConvertError::UnexpectedToken(tok(TokenType::Equal, "=")))
    );
}

#[test]
fn floats_and_strings_are_no_keys() {
    assert_eq!(
        program("x = { 1.5 = 2 }"),
        Err(ConvertError::UnexpectedToken(tok(TokenType::Equal, "=")))
    );
    assert_eq!(
        program("x = { \"k\" = 2 }"),
        Err(ConvertError::UnexpectedToken(tok(TokenType::Equal, "=")))
    );
}

#[test]
fn a_mixed_table_is_refused_when_parsed() {
    assert_eq!(program("x = { a = 1 2 3 }"), Err(ConvertError::MixedTableKinds));
    assert_eq!(program("x = { a = 1 2 }"), Err(ConvertError::MixedTableKinds));
    assert_eq!(program("x = { 1 2 a = 3 }"), Err(ConvertError::MixedTableKinds));
    assert_eq!(program("x = { k = { 1 2 a = 3 } }"), Err(ConvertError::MixedTableKinds));
    assert_eq!(program("x = { 1 2 a = @ }"), Err(ConvertError::MixedTableKinds));
    assert_eq!(
        program("x = { 1 a = 2 }"),
        Err(ConvertError::UnexpectedToken(tok(TokenType::Equal, "=")))
    );
}

#[test]
fn what_follows_the_expression_is_not_read() {
    let mut lexer = Lexer::new("x = { 1 } y = 2".to_string());
    {
        let mut parser = Parser::new(&mut lexer);
        assert_eq!(parser.parse_program(), Ok(assignment("x", table(vec![item(integer("1"))]))));
    }
    assert_eq!(lexer.pos, 9);
    assert_eq!(lexer.advance(), Ok(ident("y")));
    let mut parser = Parser::new(&mut lexer);
    assert_eq!(parser.parse_expr(), Err(ConvertError::UnexpectedToken(tok(TokenType::Equal, "="))));
    assert_eq!(parser.parse_expr(), Ok(Expression::Unit(integer("2"))));
}

#[test]
fn the_lazy_parser_parses_the_same_programs() {
    let lines = vec![
        "# a state\n".to_string(),
        "state = {\n".to_string(),
        "    id = 12\n".to_string(),
        "    name = \"North\"\n".to_string(),
        "    provinces = { 1 2 3 }\n".to_string(),
        "}\n".to_string(),
    ];
    let whole: String = lines.concat();
    let expected = assignment(
        "state",
        table(vec![
            entry(ident("id"), Expression::Unit(integer("12"))),
            entry(ident("name"), Expression::Unit(tok(TokenType::String, "North"))),
            entry(ident("provinces"), table(vec![item(integer("1")), item(integer("2")), item(integer("3"))])),
        ]),
    );
    assert_eq!(program(&whole).as_ref(), Ok(&expected));
    let mut lexer = lazylexer::Lexer::new(lines);
    let mut parser = lazyparser::Parser::new(&mut lexer);
    assert_eq!(parser.parse_program(), Ok(expected));
    assert_eq!(parser.parse_expr(), Err(ConvertError::UnexpectedToken(Token::eof())));
}

#[test]
fn the_lazy_parser_reports_the_same_errors() {
    let cases = ["5 = 5", "x 5", "x = =", "x = {", "x = { @ }", "x = { a = 1 2 3 }", "x = \"u"];
    for source in cases {
        let mut lexer = lazylexer::Lexer::new(vec![source.to_string()]);
        let mut parser = lazyparser::Parser::new(&mut lexer);
        let lazy = parser.parse_program();
        assert!(lazy.is_err());
        assert_eq!(lazy, program(source));
    }
}

#[test]
fn the_parsing_functions_take_any_source() {
    let mut lexer = Lexer::new("{ a = 1 } b = { 2 }".to_string());
    assert_eq!(
        parse_expression(&mut lexer),
        Ok(table(vec![entry(ident("a"), Expression::Unit(integer("1")))]))
    );
    assert_eq!(parse_statement(&mut lexer), Ok(assignment("b", table(vec![item(integer("2"))]))));
    let mut lazy = lazylexer::Lexer::new(vec!["b = ".to_string(), "c".to_string()]);
    assert_eq!(parse_statement(&mut lazy), Ok(assignment("b", Expression::Unit(ident("c")))));
}
