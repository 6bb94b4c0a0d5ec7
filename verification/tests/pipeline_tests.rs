use pineapple::ast;
use pineapple::cfg::CFG;
use pineapple::dominance::compute_dominator_context;
use pineapple::interner::Interner;
use pineapple::ir::{Expr, Oper, Stmt};
use pineapple::parser::{parse_program, ParseError};
use pineapple::regalloc::register_allocation;
use pineapple::scanner::{Scanner, Symbol};
use pineapple::ssa::{construct_ssa, destruct_ssa};
use pineapple::transformer::LinearCodeTransformer;

fn front(src: &str) -> (Vec<ast::Stmt>, Interner) {
    let mut interner = Interner::new();
    let mut scanner = Scanner::new(src);
    let tokens = scanner.tokenize(&mut interner).unwrap();
    let ast = parse_program(tokens, Vec::new()).unwrap();
    (ast, interner)
}

fn blocks_of(src: &str) -> (Vec<Vec<Stmt>>, Interner) {
    let (ast, mut interner) = front(src);
    let mut lcs = LinearCodeTransformer::new();
    let blocks = lcs.translate(ast, &mut interner);
    (blocks, interner)
}

#[test]
fn parses_a_function_with_a_print_and_a_return() {
    let (ast, interner) = front("#main() { print(1 + 2); return 0; }");
    assert_eq!(ast.len(), 1);
    match &ast[0] {
        ast::Stmt::Function(name, args, _, body) => {
            assert_eq!(interner.get(*name), "main".to_string());
            assert!(args.is_empty());
            assert_eq!(body.len(), 2);
            assert!(matches!(body[0], ast::Stmt::Print(_)));
            assert!(matches!(body[1], ast::Stmt::Return(Some(_))));
        }
        _ => panic!("expected a function"),
    }
}

#[test]
fn missing_semicolon_is_an_unexpected_token() {
    let mut interner = Interner::new();
    let mut scanner = Scanner::new("#main() { return 0 }");
    let tokens = scanner.tokenize(&mut interner).unwrap();
    match parse_program(tokens, Vec::new()) {
        Err(ParseError::UnexpectedToken(t, expected)) => {
            assert_eq!(expected, Symbol::Semicolon);
            assert_eq!(t.sym, Symbol::RightBrace);
        }
        other => panic!("unexpected result: {:?}", other),
    }
}

#[test]
fn translation_gives_one_block_per_function() {
    let (blocks, interner) = blocks_of("#main() { print(1); return 0; } #f(x: int) { return x; }");
    assert_eq!(blocks.len(), 2);
    for b in &blocks {
        assert!(matches!(b[0], Stmt::NamedLabel(_)));
        assert!(matches!(b[b.len() - 1], Stmt::Return(_)));
    }
    match blocks[1][0] {
        Stmt::NamedLabel(n) => assert_eq!(interner.get(n), "f".to_string()),
        _ => panic!("expected a label"),
    }
    // the argument is popped from the stack
    assert!(matches!(blocks[1][1], Stmt::Tac(Oper::Var(_, 0), Expr::Oper(Oper::StackPop))));
}

#[test]
fn a_function_without_return_gets_one() {
    let (blocks, _) = blocks_of("#main() { print(1); }");
    assert_eq!(blocks.len(), 1);
    assert!(matches!(blocks[0][blocks[0].len() - 1], Stmt::Return(None)));
}

#[test]
fn binary_expression_goes_into_a_temporary() {
    let (blocks, _) = blocks_of("#main() { return 1 + 2; }");
    let b = &blocks[0];
    let has_binary = b.iter().any(|s| matches!(s, Stmt::Tac(Oper::Temp(0, 0), Expr::Binary(_, _, _))));
    assert!(has_binary);
    assert!(matches!(b[b.len() - 1], Stmt::Return(Some(Oper::Temp(0, 0)))));
}

#[test]
fn pipeline_through_ssa_and_back() {
    let (blocks, _) = blocks_of("#main() { x: int = 1; if (x < 10) { x: int = x + 1; } else { x: int = 0; } print(x); return x; }");
    for code in blocks {
        let mut cfg = CFG::from_linear_code(&(code, 0));
        assert!(cfg.blocks.len() >= 1);
        assert!(compute_dominator_context(&mut cfg));
        assert_eq!(cfg.dom_ctx.idom.len(), cfg.blocks.len());
        assert_eq!(cfg.dom_ctx.idom[0], None);
        for n in 1..cfg.blocks.len() {
            match cfg.dom_ctx.idom[n] {
                Some(d) => assert!(d < n),
                None => panic!("every block after the first has an immediate dominator"),
            }
        }
        construct_ssa(&mut cfg);
        destruct_ssa(&mut cfg);
        for b in &cfg.blocks {
            for s in &b.statements {
                assert!(!matches!(s, Stmt::ParallelCopy(_)));
                assert!(!matches!(s, Stmt::Tac(_, Expr::Phi(_))));
            }
        }
        let mut loc = 0usize;
        register_allocation(&mut cfg, 4, &mut loc);
    }
}

#[test]
fn a_variable_set_on_both_branches_gets_a_phi_at_the_join() {
    let (blocks, _) = blocks_of("#main() { x: int = 1; if (x < 2) { x: int = 2; } else { x: int = 3; } return x; }");
    let code = blocks.into_iter().next().unwrap();
    let mut cfg = CFG::from_linear_code(&(code, 0));
    assert!(compute_dominator_context(&mut cfg));
    construct_ssa(&mut cfg);
    let phis: usize = cfg
        .blocks
        .iter()
        .map(|b| b.statements.iter().filter(|s| matches!(s, Stmt::Tac(Oper::Var(_, _), Expr::Phi(_)))).count())
        .sum();
    assert!(phis >= 1);
}

#[test]
fn operands_live_at_once_get_different_registers() {
    let (blocks, _) = blocks_of("#main() { x: int = 1; y: int = 2; return x + y; }");
    let code = blocks.into_iter().next().unwrap();
    let mut cfg = CFG::from_linear_code(&(code, 0));
    let mut loc = 0usize;
    register_allocation(&mut cfg, 2, &mut loc);
    let sum = cfg
        .statements()
        .into_iter()
        .find(|s| matches!(s, Stmt::Tac(_, Expr::Binary(_, _, _))))
        .unwrap();
    match sum {
        Stmt::Tac(dest, Expr::Binary(Oper::Register(a), _, Oper::Register(b))) => {
            assert_ne!(a, b);
            assert!(a < 2 && b < 2);
            // with both registers held, the sum goes to the stack
            assert_eq!(dest, Oper::StackLocation(0));
            assert_eq!(loc, 1);
        }
        other => panic!("unexpected statement {:?}", other),
    }
}

#[test]
fn after_ssa_construction_each_variable_version_is_defined_once() {
    let (blocks, _) = blocks_of("#main() { x: int = 1; x: int = x + 1; if (x < 3) { x: int = 5; } else { x: int = 6; } return x; }");
    let code = blocks.into_iter().next().unwrap();
    let mut cfg = CFG::from_linear_code(&(code, 0));
    assert!(compute_dominator_context(&mut cfg));
    construct_ssa(&mut cfg);
    let mut seen = std::collections::HashSet::new();
    let mut defs = 0;
    for b in &cfg.blocks {
        for s in &b.statements {
            if let Stmt::Tac(Oper::Var(v, i), _) = s {
                defs += 1;
                assert!(seen.insert((*v, *i)), "version {} of {} defined twice", i, v);
            }
        }
    }
    // four assignments and a phi function at the join
    assert!(defs >= 5);
}

/// Within each block, every variable read outside a phi function that the
/// block defined before carries the version of that latest definition.
fn check_block_local_versions(cfg: &CFG) {
    for b in &cfg.blocks {
        let mut latest: std::collections::HashMap<usize, usize> = std::collections::HashMap::new();
        for s in &b.statements {
            if let Stmt::Tac(_, Expr::Phi(_)) = s {
            } else {
                for o in s.used() {
                    if let Oper::Var(v, i) = o {
                        if let Some(d) = latest.get(&v) {
                            assert_eq!(i, *d, "variable {} read at version {} after version {} was defined", v, i, d);
                        }
                    }
                }
            }
            if let Stmt::Tac(Oper::Var(v, i), _) = s {
                latest.insert(*v, *i);
            }
        }
    }
}

#[test]
fn after_ssa_construction_uses_read_the_reaching_version() {
    let (blocks, _) = blocks_of("#main() { x: int = 1; x: int = x + 1; print(x); x: int = x + 2; return x; }");
    let code = blocks.into_iter().next().unwrap();
    let mut cfg = CFG::from_linear_code(&(code, 0));
    assert!(compute_dominator_context(&mut cfg));
    construct_ssa(&mut cfg);
    check_block_local_versions(&cfg);
    // straight-line code: the definitions take versions 0, 1, 2 and the
    // return reads the last of them
    let stmts = cfg.statements();
    let defs: Vec<usize> = stmts
        .iter()
        .filter_map(|s| match s {
            Stmt::Tac(Oper::Var(_, i), _) => Some(*i),
            _ => None,
        })
        .collect();
    assert_eq!(defs, vec![0, 1, 2]);
    assert!(stmts.iter().any(|s| matches!(s, Stmt::Return(Some(Oper::Var(_, 2))))));
}

#[test]
fn after_ssa_construction_branches_read_the_versions_defined_in_them() {
    let (blocks, _) = blocks_of("#main() { x: int = 1; if (x < 3) { x: int = x + 5; print(x); } else { x: int = x + 6; print(x); } return x; }");
    let code = blocks.into_iter().next().unwrap();
    let mut cfg = CFG::from_linear_code(&(code, 0));
    assert!(compute_dominator_context(&mut cfg));
    construct_ssa(&mut cfg);
    check_block_local_versions(&cfg);
}

#[test]
fn translated_blocks_keep_no_label_right_after_another() {
    let (blocks, _) = blocks_of("#main() { x: int = 1; if (x < 2) { if (x < 3) { x: int = 4; } } else { x: int = 5; } return x; }");
    for b in &blocks {
        for p in 2..b.len() {
            assert!(!(matches!(b[p], Stmt::Label(_)) && matches!(b[p - 1], Stmt::Label(_))));
        }
    }
}

#[test]
fn after_ssa_construction_phi_arguments_carry_the_versions_leaving_each_predecessor() {
    let (blocks, _) = blocks_of("#main() { x: int = 1; if (x < 3) { x: int = 5; } else { x: int = 6; } return x; }");
    let code = blocks.into_iter().next().unwrap();
    let mut cfg = CFG::from_linear_code(&(code, 0));
    assert!(compute_dominator_context(&mut cfg));
    construct_ssa(&mut cfg);
    let mut phis = 0;
    for b in &cfg.blocks {
        for s in &b.statements {
            if let Stmt::Tac(Oper::Var(v, _), Expr::Phi(args)) = s {
                phis += 1;
                for (o, p) in args {
                    // the last definition of the variable in the predecessor, if any
                    let last = cfg.blocks[*p].statements.iter().rev().find_map(|t| match t {
                        Stmt::Tac(Oper::Var(w, i), _) if w == v => Some(*i),
                        _ => None,
                    });
                    match (o, last) {
                        (Oper::Var(w, i), Some(d)) => {
                            assert_eq!(w, v);
                            assert_eq!(*i, d);
                        }
                        (Oper::Var(w, _), None) => assert_eq!(w, v),
                        _ => panic!("a phi argument that is not the variable"),
                    }
                }
                let mut from: Vec<usize> = args.iter().map(|(_, p)| *p).collect();
                from.sort();
                from.dedup();
                assert_eq!(from.len(), args.len());
            }
        }
    }
    assert!(phis >= 1);
}
