use cfg2json::error::ConvertError;
use cfg2json::json::parse_expr_to_json;
use cfg2json::lazylexer;
use cfg2json::lazyparser;
use cfg2json::lexer::Lexer;
use cfg2json::parser::Parser;
use cfg2json::token::{Token, TokenType};
use cfg2json::typedefs::Statement;

const STATE: &str = "# a state of the map\nstate = {\n    id = 12\n    name = \"North Reach\"\n    owner = NRT\n    manpower = 1250.5\n    provinces = { 101 102 103 }\n    history = {\n        1936.1.1 = { owner = NRT }\n        buildings = { }\n    }\n}\n";

const STATE_JSON: &str = "{\n    \"id\": 12,\n    \"name\": \"North Reach\",\n    \"owner\": \"NRT\",\n    \"manpower\": 1250.5,\n    \"provinces\": [\n        101,\n        102,\n        103\n    ],\n    \"history\": {\n        \"1936.1.1\": {\n            \"owner\": \"NRT\"\n        },\n        \"buildings\": {\n\n        }\n    }\n}";

fn state_lines() -> Vec<String> {
    STATE.split_inclusive('\n').map(|line| line.to_string()).collect()
}

#[test]
fn test_lazy_lexer() {
    let mut lexer = lazylexer::Lexer::new(state_lines());
    let mut count = 0;
    loop {
        let token = lexer.advance().unwrap();
        if token.token_type == TokenType::EOF || token.token_type == TokenType::Undefined {
            assert_eq!(token, Token::eof());
            break;
        }
        count += 1;
    }
    assert_eq!(count, 38);
}

#[test]
fn test_eager_lexer() {
    let mut lexer = Lexer::new(STATE.to_string());
    let mut count = 0;
    loop {
        let token = lexer.advance().unwrap();
        if token.token_type == TokenType::EOF || token.token_type == TokenType::Undefined {
            assert_eq!(token, Token::eof());
            break;
        }
        count += 1;
    }
    assert_eq!(count, 38);
    assert_eq!(lexer.pos, STATE.chars().count());
}

#[test]
fn test_lazy_parser() {
    let mut lexer = lazylexer::Lexer::new(state_lines());
    let mut parser = lazyparser::Parser::new(&mut lexer);
    let Statement::Assignment(assignment) = parser.parse_program().unwrap();
    assert_eq!(assignment.identifier, Token::new(TokenType::Identifier, "state".to_string()));
}

#[test]
fn test_eager_parser() {
    let mut lexer = Lexer::new(STATE.to_string());
    let mut parser = Parser::new(&mut lexer);
    let Statement::Assignment(assignment) = parser.parse_program().unwrap();
    assert_eq!(assignment.identifier, Token::new(TokenType::Identifier, "state".to_string()));
}

#[test]
fn simple_parse() {
    let mut lexer = Lexer::new(STATE.to_string());
    let mut parser = Parser::new(&mut lexer);
    let program = parser.parse_program().unwrap();
    match program {
        Statement::Assignment(assignment) => {
            assert_eq!(parse_expr_to_json(&assignment.value, 0), Ok(STATE_JSON.to_string()));
        }
    }
}

#[test]
fn lazy_parse() {
    let mut lexer = lazylexer::Lexer::new(state_lines());
    let mut parser = lazyparser::Parser::new(&mut lexer);
    let program = parser.parse_program().unwrap();
    match program {
        Statement::Assignment(assignment) => {
            assert_eq!(parse_expr_to_json(&assignment.value, 0), Ok(STATE_JSON.to_string()));
        }
    }
}

/// The position at which the parser leaves the tokenizer on `source`.
fn stops_at(source: &str) -> (Result<Statement, ConvertError>, usize) {
    let mut lexer = Lexer::new(source.to_string());
    let result = {
        let mut parser = Parser::new(&mut lexer);
        parser.parse_program()
    };
    (result, lexer.pos)
}

#[test]
fn the_parser_stops_behind_the_expression() {
    assert_eq!(stops_at("x = 5 rest").1, 5);
    assert_eq!(stops_at("x = { a = { 1 } }   y").1, 17);
    assert_eq!(stops_at("  x={}").1, 6);
}

#[test]
fn the_parser_stops_behind_the_offending_token() {
    assert_eq!(stops_at("12 = 5").1, 2);
    assert_eq!(stops_at("x  yz = 5").1, 5);
    assert_eq!(stops_at("x = } }").1, 5);
    assert_eq!(stops_at("x = { a = 1 2 3 }").1, 15);
    assert_eq!(stops_at("x = { 1 2 a = 3 }").1, 13);
    assert_eq!(stops_at("x = { a { } }").1, 9);
    assert_eq!(stops_at("x = { = 1 }").1, 7);
    assert_eq!(stops_at("x = {  ").1, 7);
    assert_eq!(stops_at("x = { a = \"bc").1, 13);
    let (result, pos) = stops_at("x = { a  @ }");
    assert_eq!(result, Err(ConvertError::UnexpectedToken(Token::undefined('@'))));
    assert_eq!(pos, 9);
    let (result, pos) = stops_at("x = {  @ }");
    assert_eq!(result, Err(ConvertError::UndefinedToken(Token::undefined('@'))));
    assert_eq!(pos, 7);
}
