use minilang::ast::{Ast, Expression, Node};
use minilang::lexer::{Lexer, Token, TokenType};

fn tokenize(src: &str) -> Vec<Token> {
    let mut lexer = Lexer::new(src);
    minilang::ast::collect_tokens(&mut lexer).expect("tokenizes")
}

fn parse(src: &str) -> Ast {
    let mut ast = Ast::new(tokenize(src));
    let err = ast.generate_ast();
    assert!(err.is_none(), "parse failed");
    ast
}

fn parse_err(src: &str) -> minilang::ast::AstErr {
    let mut ast = Ast::new(tokenize(src));
    ast.generate_ast().expect("parse was expected to fail")
}

#[test]
fn assignment_statement() {
    let ast = parse("a = 1;");
    assert_eq!(ast.sequence.len(), 1);
    match &ast.sequence[0] {
        Node::VariableAssignment { identifier, value } => {
            assert_eq!(identifier, "a");
            match value {
                Expression::Value(v) => assert_eq!(v, "1"),
                _ => panic!("expected a plain value"),
            }
        },
        _ => panic!("expected an assignment"),
    }
}

#[test]
fn expression_nests_to_the_right() {
    let ast = parse("x = a + b + c ;");
    match &ast.sequence[0] {
        Node::VariableAssignment { value, .. } => match value {
            Expression::Operation { left, right, raw_operator } => {
                assert_eq!(raw_operator, "+");
                assert!(matches!(&**left, Expression::Value(v) if v == "a"));
                match &**right {
                    Expression::Operation { left, right, raw_operator } => {
                        assert_eq!(raw_operator, "+");
                        assert!(matches!(&**left, Expression::Value(v) if v == "b"));
                        assert!(matches!(&**right, Expression::Value(v) if v == "c"));
                    },
                    _ => panic!("the second pair must nest to the right"),
                }
            },
            _ => panic!("expected an operation"),
        },
        _ => panic!("expected an assignment"),
    }
}

#[test]
fn loop_count_equals_the_numeral() {
    let ast = parse("loop 3 { print x; }");
    match &ast.sequence[0] {
        Node::Loop { loop_count, body } => {
            assert_eq!(*loop_count, 3);
            assert_eq!(body.len(), 1);
            assert!(matches!(&body[0], Node::Print(v) if v == "x"));
        },
        _ => panic!("expected a loop"),
    }
}

#[test]
fn loop_with_non_numeric_count_fails() {
    let err = parse_err("loop x { print x; }");
    // the offending token is the `x` after `loop`
    assert_eq!(err.line, 1);
    assert_eq!(err.collumn, 8);
}

#[test]
fn loop_count_too_large_fails() {
    let err = parse_err("loop 99999999999999999999999 { print x; }");
    assert_eq!(err.line, 1);
}

#[test]
fn if_without_else() {
    let ast = parse("if a == b { x = 1; }");
    match &ast.sequence[0] {
        Node::If { condition, body } => {
            assert!(matches!(condition, Expression::Operation { .. }));
            assert_eq!(body.len(), 1);
        },
        _ => panic!("expected an if"),
    }
}

#[test]
fn if_with_else_keeps_both_branches() {
    let ast = parse("if a == b { x = 1; } else { x = 2; }");
    match &ast.sequence[0] {
        Node::IfElse { body, else_body, .. } => {
            assert_eq!(body.len(), 1);
            assert_eq!(else_body.len(), 1);
        },
        _ => panic!("expected an if-else"),
    }
}

#[test]
fn while_statement() {
    let ast = parse("while a { a = a - 1 ; }");
    match &ast.sequence[0] {
        Node::While { body, .. } => assert_eq!(body.len(), 1),
        _ => panic!("expected a while"),
    }
}

#[test]
fn print_takes_one_raw_token() {
    let ast = parse("print 42 ;");
    assert!(matches!(&ast.sequence[0], Node::Print(v) if v == "42"));
}

#[test]
fn statement_must_start_with_identifier() {
    let err = parse_err("1 = a;");
    assert_eq!(err.line, 1);
}

#[test]
fn else_cannot_start_a_statement() {
    let _ = parse_err("else { x = 1; }");
}

#[test]
fn unterminated_block_fails() {
    // the tokenizer itself already rejects an unclosed brace, so hand the
    // parser a token sequence whose block never closes
    fn tok(ty: TokenType, raw: &str) -> Token {
        Token { ty, raw: raw.to_string(), collumn: 0, line: 1 }
    }
    let tokens = vec![
        tok(TokenType::Identifier, "if"),
        tok(TokenType::Identifier, "a"),
        tok(TokenType::Punctuation(minilang::lexer::PunctutationKind::Open(0)), "{"),
        tok(TokenType::Identifier, "x"),
        tok(TokenType::Operator, "="),
        tok(TokenType::Number, "1"),
        tok(TokenType::Punctuation(minilang::lexer::PunctutationKind::Seperator), ";"),
        tok(TokenType::EOF, ""),
    ];
    let mut ast = Ast::new(tokens);
    let err = ast.generate_ast().expect("an unterminated block must fail");
    assert_eq!(err.line, 1);
    assert!(ast.sequence.is_empty());
    assert!(ast.seen_variables.is_empty());
}

#[test]
fn variable_set_keeps_first_occurrences_once() {
    let ast = parse("x = 1; y = x; x = 2;");
    assert_eq!(ast.seen_variables, vec!["x".to_string(), "y".to_string()]);
}

#[test]
fn nested_assignments_are_recorded() {
    let ast = parse("if a { b = 1; } else { c = 2; } d = 3;");
    assert_eq!(
        ast.seen_variables,
        vec!["b".to_string(), "c".to_string(), "d".to_string()]
    );
}
