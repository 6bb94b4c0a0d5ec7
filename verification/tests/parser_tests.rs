use pineapple::ast::Stmt;
use pineapple::interner::Interner;
use pineapple::parser::{parse_program, ParseError};
use pineapple::scanner::{Scanner, Symbol};
use pineapple::value::Type;

fn parse(src: &str) -> (Result<Vec<Stmt>, ParseError>, Interner) {
    let mut interner = Interner::new();
    let mut scanner = Scanner::new(src);
    let tokens = scanner.tokenize(&mut interner).unwrap();
    (parse_program(tokens, Vec::new()), interner)
}

fn body_of(src: &str) -> Vec<Stmt> {
    match parse(src).0 {
        Ok(mut decls) => match decls.remove(0) {
            Stmt::Function(_, _, _, body) => body,
            _ => panic!("expected a function"),
        },
        Err(e) => panic!("parse failed: {:?}", e),
    }
}

#[test]
fn if_elif_else_nest_as_alternatives() {
    let body = body_of("#main() { if (1 < 2) { print(1); } elif (2 < 3) { print(2); } else { print(3); } }");
    assert_eq!(body.len(), 1);
    match &body[0] {
        Stmt::If(_, then_block, Some(alt)) => {
            assert!(matches!(**then_block, Stmt::Block(ref b) if b.len() == 1));
            match &**alt {
                Stmt::If(_, elif_block, Some(last)) => {
                    assert!(matches!(**elif_block, Stmt::Block(ref b) if b.len() == 1));
                    assert!(matches!(**last, Stmt::Block(ref b) if b.len() == 1 && matches!(b[0], Stmt::Print(_))));
                }
                _ => panic!("expected the elif part"),
            }
        }
        _ => panic!("expected an if statement"),
    }
}

#[test]
fn if_without_else_gets_an_empty_block() {
    let body = body_of("#main() { if (1 < 2) { print(1); } }");
    match &body[0] {
        Stmt::If(_, _, Some(alt)) => assert!(matches!(**alt, Stmt::Block(ref b) if b.is_empty())),
        _ => panic!("expected an if statement with an alternative"),
    }
}

#[test]
fn return_without_value() {
    let body = body_of("#main() { return; }");
    assert_eq!(body.len(), 1);
    assert!(matches!(body[0], Stmt::Return(None)));
}

#[test]
fn parameters_and_return_type_are_read() {
    let (r, interner) = parse("#f(a: int, b: bool): int { return a; }");
    match &r.unwrap()[0] {
        Stmt::Function(name, params, ret, body) => {
            assert_eq!(interner.get(*name), "f".to_string());
            assert_eq!(params.len(), 2);
            assert_eq!(interner.get(params[0].0), "a".to_string());
            assert_eq!(params[0].1, Type::Int);
            assert_eq!(interner.get(params[1].0), "b".to_string());
            assert_eq!(params[1].1, Type::Bool);
            assert_eq!(*ret, Type::Int);
            assert_eq!(body.len(), 1);
        }
        _ => panic!("expected a function"),
    }
}

#[test]
fn function_without_name_expects_an_identifier() {
    match parse("#(x: int) { return; }").0 {
        Err(ParseError::ExpectedIdentifier(t)) => assert!(matches!(t.sym, Symbol::Identifier(_))),
        other => panic!("unexpected result: {:?}", other),
    }
}

#[test]
fn parameter_that_is_not_a_name_expects_an_identifier() {
    match parse("#f(1: int) { return; }").0 {
        Err(ParseError::ExpectedIdentifier(t)) => assert!(matches!(t.sym, Symbol::IntegerLiteral(1))),
        other => panic!("unexpected result: {:?}", other),
    }
}

#[test]
fn parameter_with_unknown_type_expects_a_type() {
    match parse("#f(a: b) { return; }").0 {
        Err(ParseError::ExpectedVariableType(t)) => assert!(matches!(t.sym, Symbol::Identifier(_))),
        other => panic!("unexpected result: {:?}", other),
    }
}

#[test]
fn unterminated_body_expects_a_closing_brace() {
    match parse("#main() { print(1);").0 {
        Err(ParseError::UnexpectedToken(t, expected)) => {
            assert_eq!(expected, Symbol::RightBrace);
            assert_eq!(t.sym, Symbol::Eof);
        }
        other => panic!("unexpected result: {:?}", other),
    }
}
