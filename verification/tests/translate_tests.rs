use pineapple::ast;
use pineapple::interner::Interner;
use pineapple::ir::{Expr, Oper, Stmt};
use pineapple::ops::RelOp;
use pineapple::transformer::LinearCodeTransformer;
use pineapple::value::{Primitive, Type, Value};

fn num(n: isize) -> Value {
    Value { inner: Primitive::Int(n) }
}

fn set(x: usize, n: isize) -> ast::Stmt {
    ast::Stmt::Expression(Box::new(ast::Expr::Assign(x, Type::Int, Box::new(ast::Expr::Value(num(n))))))
}

fn less(x: usize, n: isize) -> Box<ast::Expr> {
    Box::new(ast::Expr::Logical(Box::new(ast::Expr::Variable(x)), RelOp::Less, Box::new(ast::Expr::Value(num(n)))))
}

fn block(ss: Vec<ast::Stmt>) -> Box<ast::Stmt> {
    Box::new(ast::Stmt::Block(ss))
}

fn ret(x: usize) -> ast::Stmt {
    ast::Stmt::Return(Some(Box::new(ast::Expr::Variable(x))))
}

fn var(x: usize) -> Oper {
    Oper::Var(x, 0)
}

fn tac(x: usize, n: isize) -> Stmt {
    Stmt::Tac(var(x), Expr::Oper(Oper::Value(num(n))))
}

#[test]
fn if_else_jumps_past_the_alternative_to_a_last_label() {
    let mut interner = Interner::new();
    let main = interner.intern("main".to_string());
    let x = interner.intern("x".to_string());
    let body = vec![
        set(x, 1),
        ast::Stmt::If(less(x, 2), block(vec![set(x, 2)]), Some(block(vec![set(x, 3)]))),
        ret(x),
    ];
    let program = vec![ast::Stmt::Function(main, vec![], Type::Int, body)];
    let mut lcs = LinearCodeTransformer::new();
    let blocks = lcs.translate(program, &mut interner);
    let t0 = Oper::Temp(0, 0);
    assert_eq!(
        blocks,
        vec![vec![
            Stmt::NamedLabel(main),
            tac(x, 1),
            Stmt::Tac(t0, Expr::Logical(var(x), RelOp::GreaterEqual, Oper::Value(num(2)))),
            Stmt::CJump(Expr::Oper(t0), 0),
            Stmt::Label(1),
            tac(x, 2),
            Stmt::Jump(2),
            Stmt::Label(0),
            tac(x, 3),
            Stmt::Jump(2),
            Stmt::Label(2),
            Stmt::Return(Some(var(x))),
        ]]
    );
    assert_eq!(lcs.label_count, 3);
    assert_eq!(lcs.reg_count, 1);
    assert!(lcs.backpatch.is_empty());
}

#[test]
fn while_loop_tests_at_its_head_and_jumps_back() {
    let mut interner = Interner::new();
    let main = interner.intern("main".to_string());
    let x = interner.intern("x".to_string());
    let body = vec![ast::Stmt::While(less(x, 5), block(vec![set(x, 4)])), ret(x)];
    let program = vec![ast::Stmt::Function(main, vec![], Type::Int, body)];
    let mut lcs = LinearCodeTransformer::new();
    let blocks = lcs.translate(program, &mut interner);
    let t0 = Oper::Temp(0, 0);
    assert_eq!(
        blocks,
        vec![vec![
            Stmt::NamedLabel(main),
            Stmt::Jump(0),
            Stmt::Label(0),
            Stmt::Tac(t0, Expr::Logical(var(x), RelOp::GreaterEqual, Oper::Value(num(5)))),
            Stmt::CJump(Expr::Oper(t0), 1),
            Stmt::Label(2),
            tac(x, 4),
            Stmt::Jump(0),
            Stmt::Label(1),
            Stmt::Return(Some(var(x))),
        ]]
    );
}

#[test]
fn a_nested_function_gets_its_block_first_and_print_is_interned() {
    let mut interner = Interner::new();
    let main = interner.intern("main".to_string());
    let inner = interner.intern("inner".to_string());
    let a = interner.intern("a".to_string());
    let nested = ast::Stmt::Function(inner, vec![(a, Type::Int)], Type::Int, vec![ret(a)]);
    let print = ast::Stmt::Print(vec![ast::Expr::Value(num(7))]);
    let program = vec![ast::Stmt::Function(main, vec![], Type::Int, vec![nested, print])];
    let mut lcs = LinearCodeTransformer::new();
    let blocks = lcs.translate(program, &mut interner);
    assert_eq!(interner.len(), 4);
    assert_eq!(interner.get(3), "print".to_string());
    assert_eq!(
        blocks,
        vec![
            vec![
                Stmt::NamedLabel(inner),
                Stmt::Tac(var(a), Expr::Oper(Oper::StackPop)),
                Stmt::Return(Some(var(a))),
            ],
            vec![
                Stmt::NamedLabel(main),
                Stmt::StackPush(Oper::Value(num(7))),
                Stmt::Call(3, 1),
                Stmt::Return(None),
            ],
        ]
    );
}

#[test]
fn if_without_else_closes_its_chain() {
    let mut interner = Interner::new();
    let main = interner.intern("main".to_string());
    let x = interner.intern("x".to_string());
    let body = vec![
        set(x, 1),
        ast::Stmt::If(less(x, 2), block(vec![set(x, 2)]), None),
        ret(x),
    ];
    let program = vec![ast::Stmt::Function(main, vec![], Type::Int, body)];
    let mut lcs = LinearCodeTransformer::new();
    let blocks = lcs.translate(program, &mut interner);
    let t0 = Oper::Temp(0, 0);
    assert_eq!(
        blocks,
        vec![vec![
            Stmt::NamedLabel(main),
            tac(x, 1),
            Stmt::Tac(t0, Expr::Logical(var(x), RelOp::GreaterEqual, Oper::Value(num(2)))),
            Stmt::CJump(Expr::Oper(t0), 0),
            Stmt::Label(1),
            tac(x, 2),
            Stmt::Jump(2),
            Stmt::Label(0),
            Stmt::Jump(2),
            Stmt::Label(2),
            Stmt::Return(Some(var(x))),
        ]]
    );
    assert!(lcs.backpatch.is_empty());
}

#[test]
fn an_open_elif_chain_sends_every_jump_to_a_defined_label() {
    let mut interner = Interner::new();
    let main = interner.intern("main".to_string());
    let x = interner.intern("x".to_string());
    let inner = ast::Stmt::If(less(x, 3), block(vec![set(x, 3)]), None);
    let body = vec![
        ast::Stmt::If(less(x, 2), block(vec![set(x, 2)]), Some(Box::new(inner))),
        ret(x),
    ];
    let program = vec![ast::Stmt::Function(main, vec![], Type::Int, body)];
    let mut lcs = LinearCodeTransformer::new();
    let blocks = lcs.translate(program, &mut interner);
    let code = &blocks[0];
    let labels: Vec<usize> = code.iter().filter_map(|s| match s { Stmt::Label(l) => Some(*l), _ => None }).collect();
    for s in code {
        match s {
            Stmt::Jump(l) | Stmt::CJump(_, l) => assert!(labels.contains(l), "jump to undefined label {}", l),
            _ => {}
        }
    }
    assert!(lcs.backpatch.is_empty());
}
