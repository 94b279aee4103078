use lorax::parser::ast::{Decl, Expr, Stmt, Token, TokenKind, UnaryOp};
use lorax::parser::parse::Parser;

fn make_token(kind: TokenKind, value: &str) -> Token {
    Token { kind, value: value.to_string(), offset: 0 }
}

#[test]
fn test_parse_constant_expr() {
    let tokens = vec![make_token(TokenKind::Constant, "42")];
    let expr = Parser::new(&tokens).parse_expr().unwrap();
    match expr {
        Expr::Constant(val) => assert_eq!(val, 42),
        _ => panic!("Expected constant expr"),
    }
}

#[test]
fn test_parse_unary_expr() {
    let tokens = vec![
        make_token(TokenKind::Negate, "-"),
        make_token(TokenKind::Constant, "5"),
    ];
    let expr = Parser::new(&tokens).parse_expr().unwrap();
    match expr {
        Expr::Unary(UnaryOp::Negate, inner) => match *inner {
            Expr::Constant(val) => assert_eq!(val, 5),
            _ => panic!("Expected constant inside unary"),
        },
        _ => panic!("Expected unary expr"),
    }
}

#[test]
fn test_parse_paren_expr() {
    let tokens = vec![
        make_token(TokenKind::LParen, "("),
        make_token(TokenKind::Constant, "7"),
        make_token(TokenKind::RParen, ")"),
    ];
    let expr = Parser::new(&tokens).parse_expr().unwrap();
    match expr {
        Expr::Constant(val) => assert_eq!(val, 7),
        _ => panic!("Expected constant expr in parens"),
    }
}

#[test]
fn test_parse_statement() {
    let tokens = vec![
        make_token(TokenKind::Return, "return"),
        make_token(TokenKind::Constant, "1"),
        make_token(TokenKind::Semicolon, ";"),
    ];
    let stmt = Parser::new(&tokens).parse_statement().unwrap();
    match stmt {
        Stmt::Return(Expr::Constant(val)) => assert_eq!(val, 1),
        _ => panic!("Expected return statement with constant"),
    }
}

#[test]
fn test_parse_function() {
    let tokens = vec![
        make_token(TokenKind::Int, "int"),
        make_token(TokenKind::Identifier, "main"),
        make_token(TokenKind::LParen, "("),
        make_token(TokenKind::Void, "void"),
        make_token(TokenKind::RParen, ")"),
        make_token(TokenKind::LBrace, "{"),
        make_token(TokenKind::Return, "return"),
        make_token(TokenKind::Constant, "0"),
        make_token(TokenKind::Semicolon, ";"),
        make_token(TokenKind::RBrace, "}"),
    ];
    let decl = Parser::new(&tokens).parse_function().unwrap();
    match decl {
        Decl::Function(name, body) => {
            assert_eq!(name, "main");
            match *body {
                Stmt::Return(Expr::Constant(val)) => assert_eq!(val, 0),
                _ => panic!("Expected return statement in function body"),
            }
        },
    }
}

#[test]
fn parse_rejects_trailing_tokens() {
    let mut tokens = vec![
        make_token(TokenKind::Int, "int"),
        make_token(TokenKind::Identifier, "main"),
        make_token(TokenKind::LParen, "("),
        make_token(TokenKind::Void, "void"),
        make_token(TokenKind::RParen, ")"),
        make_token(TokenKind::LBrace, "{"),
        make_token(TokenKind::Return, "return"),
        make_token(TokenKind::Constant, "0"),
        make_token(TokenKind::Semicolon, ";"),
        make_token(TokenKind::RBrace, "}"),
    ];
    assert!(lorax::parser::parse::parse(&tokens).is_ok());
    tokens.push(make_token(TokenKind::Semicolon, ";"));
    assert!(lorax::parser::parse::parse(&tokens).is_err());
}

#[test]
fn parse_rejects_oversized_constant() {
    let tokens = vec![make_token(TokenKind::Constant, "4294967296")];
    assert!(Parser::new(&tokens).parse_expr().is_err());
    let tokens = vec![make_token(TokenKind::Constant, "4294967295")];
    match Parser::new(&tokens).parse_expr().unwrap() {
        Expr::Constant(val) => assert_eq!(val, u32::MAX),
        _ => panic!("Expected constant expr"),
    }
}

#[test]
fn parse_reports_first_mismatch() {
    let tokens = vec![
        make_token(TokenKind::Return, "return"),
        make_token(TokenKind::Constant, "1"),
    ];
    assert!(Parser::new(&tokens).parse_statement().is_err());
    let tokens: Vec<Token> = Vec::new();
    assert!(Parser::new(&tokens).parse_expr().is_err());
}
