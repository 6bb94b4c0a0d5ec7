use std::collections::HashSet;

use pineapple::cfg::{code_jumps_resolved, BasicBlock, CFG};
use pineapple::dominance::{compute_dominator_context, DominatorContext};
use pineapple::graph::DirectedGraph;
use pineapple::ir::{Expr, Oper, Stmt};
use pineapple::ops::{BinOp, RelOp};
use pineapple::value::{Primitive, Value};

fn v(n: usize) -> Oper {
    Oper::Var(n, 0)
}

fn num(n: i32) -> Oper {
    Oper::Value(Value { inner: Primitive::Int32(n) })
}

fn set(xs: &[usize]) -> HashSet<usize> {
    xs.iter().cloned().collect()
}

fn cond() -> Stmt {
    Stmt::CJump(Expr::Logical(v(1), RelOp::Less, num(3)), 7)
}

/// Block 0 ends in a conditional jump to label 7, block 1 falls through to
/// block 2, which opens with label 7. The edges given are added to the graph.
fn branchy(edges: &[(usize, usize)]) -> CFG {
    let mut graph = DirectedGraph::new();
    for n in 0..3 {
        graph.insert(n);
    }
    for (a, b) in edges {
        graph.add_edge(*a, *b);
    }
    CFG {
        blocks: vec![
            BasicBlock { statements: vec![Stmt::Tac(v(1), Expr::Oper(num(1)))], label: None, goto: Some(cond()) },
            BasicBlock { statements: vec![Stmt::Tac(v(2), Expr::Oper(num(2)))], label: None, goto: None },
            BasicBlock {
                statements: vec![Stmt::Tac(v(3), Expr::Binary(v(1), BinOp::Plus, v(2)))],
                label: Some(Stmt::Label(7)),
                goto: None,
            },
        ],
        graph,
        uses: vec![],
        def: vec![],
        stack_offset: 0,
        dom_ctx: DominatorContext::new(),
    }
}

#[test]
fn a_block_with_a_predecessor_is_not_removed() {
    let mut cfg = branchy(&[(0, 1), (0, 2), (1, 2)]);
    let (removed, label) = cfg.remove_conditional_jump(&cond(), true, 7);
    assert!(removed.is_empty());
    assert_eq!(label, Some(7));
    assert_eq!(cfg.blocks[1].statements, vec![Stmt::Tac(v(2), Expr::Oper(num(2)))]);
    assert_eq!(cfg.graph.succ[&1], set(&[2]));
}

#[test]
fn a_taken_jump_removes_the_fall_through_block() {
    let mut cfg = branchy(&[(0, 2), (1, 2)]);
    let (removed, label) = cfg.remove_conditional_jump(&cond(), true, 7);
    assert_eq!(removed, vec![Stmt::Tac(v(2), Expr::Oper(num(2)))]);
    assert_eq!(label, Some(7));
    assert!(cfg.blocks[1].label.is_none());
    assert!(cfg.blocks[1].goto.is_none());
    assert!(cfg.graph.succ[&1].is_empty());
    assert!(!cfg.graph.nodes.contains(&1));
    assert_eq!(cfg.blocks[2].label, Some(Stmt::Label(7)));
}

#[test]
fn an_untaken_jump_looks_for_the_block_that_jumps_to_the_label() {
    let mut cfg = branchy(&[(0, 1), (0, 2), (1, 2)]);
    let (removed, label) = cfg.remove_conditional_jump(&cond(), false, 7);
    // The first block that jumps to label 7 is the first block, which stays.
    assert!(removed.is_empty());
    assert_eq!(label, Some(7));
    assert_eq!(cfg.blocks[0].goto, Some(cond()));
}

#[test]
fn removing_a_statement_takes_only_its_first_occurrence() {
    let mut cfg = branchy(&[]);
    let s = Stmt::Tac(v(2), Expr::Oper(num(2)));
    cfg.blocks[1].statements.push(s.clone());
    cfg.remove_statement(&s);
    assert_eq!(cfg.blocks[1].statements, vec![s]);
    assert_eq!(cfg.blocks[0].statements.len(), 1);
    assert_eq!(cfg.blocks[2].statements.len(), 1);
}

#[test]
fn statements_using_a_variable_include_jumps() {
    let mut cfg = branchy(&[]);
    let using = cfg.statements_using(&v(1));
    assert_eq!(using, vec![cond(), Stmt::Tac(v(3), Expr::Binary(v(1), BinOp::Plus, v(2)))]);
    assert!(cfg.statements_using(&v(9)).is_empty());
}

#[test]
fn statements_compare_by_value() {
    assert!(cond().same_as(&cond()));
    assert!(!cond().same_as(&Stmt::Jump(7)));
    let phi = Expr::Phi(vec![(v(1), 0), (v(2), 1)]);
    assert!(phi.same_as(&Expr::Phi(vec![(v(1), 0), (v(2), 1)])));
    assert!(!phi.same_as(&Expr::Phi(vec![(v(2), 1), (v(1), 0)])));
}

#[test]
fn dominator_context_of_a_diamond() {
    let mut cfg = branchy(&[]);
    cfg.blocks.push(BasicBlock::new());
    let mut graph = DirectedGraph::new();
    for n in 0..4 {
        graph.insert(n);
    }
    graph.add_edge(0, 1);
    graph.add_edge(0, 2);
    graph.add_edge(1, 3);
    graph.add_edge(2, 3);
    cfg.graph = graph;
    assert!(compute_dominator_context(&mut cfg));
    assert_eq!(cfg.dom_ctx.idom, vec![None, Some(0), Some(0), Some(0)]);
    assert_eq!(cfg.dom_ctx.dom, vec![None, Some(0), Some(0), Some(0)]);
    assert_eq!(cfg.dom_ctx.strict_dom[0], set(&[1, 2, 3]));
    assert!(cfg.dom_ctx.strict_dom[1].is_empty());
    assert!(cfg.dom_ctx.strict_dom[2].is_empty());
    assert!(cfg.dom_ctx.strict_dom[3].is_empty());
    assert_eq!(cfg.dom_ctx.domf[1], set(&[3]));
    assert_eq!(cfg.dom_ctx.domf[2], set(&[3]));
    assert!(cfg.dom_ctx.domf[0].is_empty());
    assert!(cfg.dom_ctx.domf[3].is_empty());
}

#[test]
fn a_block_dominated_by_a_later_block_is_refused() {
    let mut cfg = branchy(&[]);
    while cfg.blocks.len() < 3 {
        cfg.blocks.push(BasicBlock::new());
    }
    cfg.blocks.truncate(3);
    let mut graph = DirectedGraph::new();
    for n in 0..3 {
        graph.insert(n);
    }
    graph.add_edge(0, 2);
    graph.add_edge(2, 1);
    cfg.graph = graph;
    assert!(!compute_dominator_context(&mut cfg));
}

#[test]
fn a_chain_dominates_down_the_line() {
    let mut cfg = branchy(&[]);
    while cfg.blocks.len() < 3 {
        cfg.blocks.push(BasicBlock::new());
    }
    cfg.blocks.truncate(3);
    let mut graph = DirectedGraph::new();
    for n in 0..3 {
        graph.insert(n);
    }
    graph.add_edge(0, 1);
    graph.add_edge(1, 2);
    cfg.graph = graph;
    assert!(compute_dominator_context(&mut cfg));
    assert_eq!(cfg.dom_ctx.dom, vec![None, Some(0), Some(1)]);
    assert_eq!(cfg.dom_ctx.idom, vec![None, Some(0), Some(1)]);
    assert_eq!(cfg.dom_ctx.strict_dom[0], set(&[1, 2]));
    assert_eq!(cfg.dom_ctx.strict_dom[1], set(&[2]));
}

#[test]
fn splitting_into_blocks_and_flattening_gives_the_code_back() {
    let code = vec![
        Stmt::NamedLabel(0),
        Stmt::Tac(v(1), Expr::Oper(num(1))),
        Stmt::CJump(Expr::Logical(v(1), RelOp::Less, num(3)), 7),
        Stmt::Label(8),
        Stmt::Tac(v(2), Expr::Oper(num(2))),
        Stmt::Jump(7),
        Stmt::Label(7),
        Stmt::Tac(v(3), Expr::Binary(v(1), BinOp::Plus, v(2))),
        Stmt::Return(Some(v(3))),
    ];
    let cfg = CFG::from_linear_code(&(code.clone(), 0));
    assert_eq!(cfg.blocks.len(), 3);
    assert_eq!(cfg.statements(), code);
}

#[test]
fn jumps_must_reach_a_label_that_opens_a_block() {
    assert!(code_jumps_resolved(&vec![Stmt::Label(1), Stmt::Jump(1)]));
    assert!(!code_jumps_resolved(&vec![Stmt::Jump(3)]));
    // of two adjacent labels only the second opens the block
    assert!(!code_jumps_resolved(&vec![Stmt::Label(1), Stmt::Label(2), Stmt::Jump(1)]));
    assert!(code_jumps_resolved(&vec![Stmt::Label(1), Stmt::Label(2), Stmt::Jump(2)]));
}
