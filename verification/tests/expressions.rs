use dy4::parser::{Expr, Parser};
use dy4::token::Token;
use dy4::ErrorKind;

#[test]
fn identifier_token_builds_identifier_expression() {
    let stream = vec![
        Token::Ident { offset: 0, value: String::from("total") },
        Token::Eof { offset: 4 },
    ];
    let mut parser = Parser::new(&stream);
    let expr = parser.parse_expr().expect("identifier is accepted");
    assert!(matches!(expr, Expr::Ident { name } if name == "total"));
}

#[test]
fn string_token_builds_string_expression() {
    let stream = vec![
        Token::String { offset: 0, value: String::from("hi") },
        Token::Eof { offset: 3 },
    ];
    let mut parser = Parser::new(&stream);
    let expr = parser.parse_expr().expect("string literal is accepted");
    assert!(matches!(expr, Expr::String { value } if value == "hi"));
}

#[test]
fn other_tokens_are_unexpected() {
    let stream = vec![Token::Plus { offset: 0 }, Token::Eof { offset: 0 }];
    let mut parser = Parser::new(&stream);
    assert_eq!(parser.parse_expr().expect_err("operator is rejected"), ErrorKind::UnexpectedToken);
}

#[test]
fn parse_performs_no_work() {
    let stream = vec![Token::Eof { offset: 0 }];
    let mut parser = Parser::new(&stream);
    parser.parse();
    assert!(parser.output.is_empty());
    assert_eq!(parser.token, 0);
}

#[test]
fn push_expr_appends_to_output() {
    let stream = vec![Token::Eof { offset: 0 }];
    let mut parser = Parser::new(&stream);
    parser.push_expr(Expr::Ident { name: String::from("x") });
    parser.push_expr(Expr::String { value: String::from("y") });
    assert_eq!(parser.output.len(), 2);
    assert!(matches!(&parser.output[0], Expr::Ident { name } if name == "x"));
    assert!(matches!(&parser.output[1], Expr::String { value } if value == "y"));
}
