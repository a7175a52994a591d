use orus::compiler::lexer::Lexer;
use orus::compiler::parser::{ASTNode, Parser};

fn parse(src: &str) -> Vec<ASTNode> {
    let tokens = Lexer::new(src).tokenize().unwrap();
    Parser::new(tokens).parse()
}

fn num(n: i32) -> Box<ASTNode> {
    Box::new(ASTNode::Number(n))
}

fn id(s: &str) -> Box<ASTNode> {
    Box::new(ASTNode::Identifier(s.to_string()))
}

fn bin(op: &str, left: Box<ASTNode>, right: Box<ASTNode>) -> Box<ASTNode> {
    Box::new(ASTNode::BinaryOp { op: op.to_string(), left, right })
}

#[test]
fn declaration_and_print() {
    assert_eq!(
        parse("mut sum = 5\nprint sum"),
        vec![
            ASTNode::VariableDeclaration { mutable: true, name: "sum".to_string(), value: Some(num(5)) },
            ASTNode::Print(vec![ASTNode::Identifier("sum".to_string())]),
        ]
    );
}

#[test]
fn declaration_without_value() {
    assert_eq!(
        parse("mut x"),
        vec![ASTNode::VariableDeclaration { mutable: true, name: "x".to_string(), value: None }]
    );
}

#[test]
fn products_bind_tighter_and_fold_left() {
    assert_eq!(
        parse("x = 1 + 2 * 3 - 4 / 5"),
        vec![ASTNode::Assignment {
            target: "x".to_string(),
            value: bin("-", bin("+", num(1), bin("*", num(2), num(3))), bin("/", num(4), num(5))),
        }]
    );
    assert_eq!(
        parse("x = a - b - c"),
        vec![ASTNode::Assignment { target: "x".to_string(), value: bin("-", bin("-", id("a"), id("b")), id("c")) }]
    );
}

#[test]
fn for_loop_with_block() {
    assert_eq!(
        parse("for i in 0..=n:\n    print i\nprint 2"),
        vec![
            ASTNode::ForLoop {
                variable: "i".to_string(),
                start: num(0),
                end: id("n"),
                inclusive: true,
                body: vec![ASTNode::Print(vec![ASTNode::Identifier("i".to_string())])],
            },
            ASTNode::Print(vec![ASTNode::Number(2)]),
        ]
    );
}

#[test]
fn malformed_statements_are_skipped() {
    assert_eq!(parse("= 3 : print 4"), vec![ASTNode::Print(vec![ASTNode::Number(4)])]);
    assert_eq!(parse("for 1\nprint 4"), vec![ASTNode::Print(vec![ASTNode::Number(4)])]);
}
