use std::collections::HashSet;

use pineapple::cfg::{BasicBlock, CFG};
use pineapple::dominance::DominatorContext;
use pineapple::dominator::compute_dominators;
use pineapple::graph::{DirectedGraph, Graph};
use pineapple::ir::{Expr, Oper, Stmt};
use pineapple::ssa::{flatten_parallel_copies, remove_phi_functions, sequence_parallel_copy};

fn diamond() -> DirectedGraph {
    let mut g = DirectedGraph::new();
    for n in 0..4 {
        g.insert(n);
    }
    g.add_edge(0, 1);
    g.add_edge(0, 2);
    g.add_edge(1, 3);
    g.add_edge(2, 3);
    g
}

fn set(v: &[usize]) -> HashSet<usize> {
    v.iter().cloned().collect()
}

#[test]
fn dominators_of_a_diamond() {
    let g = diamond();
    let d = compute_dominators(&g, 4).unwrap();
    assert_eq!(d.tree[0], set(&[0]));
    assert_eq!(d.tree[1], set(&[0, 1]));
    assert_eq!(d.tree[2], set(&[0, 2]));
    assert_eq!(d.tree[3], set(&[0, 3]));
    assert_eq!(d.immediate[0], Vec::<usize>::new());
    assert_eq!(d.immediate[3], vec![0]);
    assert_eq!(d.frontier[1], set(&[3]));
    assert_eq!(d.frontier[2], set(&[3]));
    assert_eq!(d.frontier[0], set(&[]));
}

#[test]
fn graph_edges_are_recorded_both_ways() {
    let g = diamond();
    assert_eq!(g.succ[&0], set(&[1, 2]));
    assert_eq!(g.pred[&3], set(&[1, 2]));
    assert_eq!(g.edges[&1], set(&[3]));
    assert_eq!(g.nodes, set(&[0, 1, 2, 3]));
}

fn v(n: usize) -> Oper {
    Oper::Var(n, 0)
}

#[test]
fn sequencing_a_parallel_copy_breaks_cycles_with_a_temporary() {
    let mut mixed = vec![(v(1), v(2)), (v(2), v(1))];
    sequence_parallel_copy(&mut mixed);
    assert_eq!(mixed, vec![(Oper::Temp(0, 0), v(1)), (v(1), v(2)), (v(2), Oper::Temp(0, 0))]);
    let mut trivial = vec![(v(1), v(1))];
    sequence_parallel_copy(&mut trivial);
    assert_eq!(trivial, vec![(Oper::Temp(0, 0), v(1)), (v(1), Oper::Temp(0, 0))]);
    let mut empty: Vec<(Oper, Oper)> = vec![];
    sequence_parallel_copy(&mut empty);
    assert!(empty.is_empty());
}

fn cfg_of(blocks: Vec<Vec<Stmt>>) -> CFG {
    CFG {
        blocks: blocks
            .into_iter()
            .map(|statements| BasicBlock { statements, label: None, goto: None })
            .collect(),
        graph: DirectedGraph::new(),
        uses: vec![],
        def: vec![],
        stack_offset: 0,
        dom_ctx: DominatorContext::new(),
    }
}

#[test]
fn flattening_keeps_the_order_of_copies() {
    let mut cfg = cfg_of(vec![vec![
        Stmt::ParallelCopy(vec![(v(1), v(2)), (v(3), v(4))]),
        Stmt::Return(None),
    ]]);
    flatten_parallel_copies(&mut cfg);
    assert_eq!(
        cfg.blocks[0].statements,
        vec![
            Stmt::Tac(v(1), Expr::Oper(v(2))),
            Stmt::Tac(v(3), Expr::Oper(v(4))),
            Stmt::Return(None),
        ]
    );
}

#[test]
fn removing_a_phi_sends_copies_to_its_predecessors() {
    let mut cfg = cfg_of(vec![
        vec![Stmt::Tac(Oper::Var(7, 1), Expr::Oper(Oper::Temp(0, 0)))],
        vec![Stmt::Tac(Oper::Var(7, 2), Expr::Oper(Oper::Temp(1, 0)))],
        vec![
            Stmt::Tac(Oper::Var(7, 3), Expr::Phi(vec![(Oper::Var(7, 1), 0), (Oper::Var(7, 2), 1)])),
            Stmt::Return(Some(Oper::Var(7, 3))),
        ],
    ]);
    remove_phi_functions(&mut cfg);
    assert_eq!(cfg.blocks[2].statements, vec![Stmt::Return(Some(Oper::Var(7, 3)))]);
    assert_eq!(
        cfg.blocks[0].statements[1],
        Stmt::Tac(Oper::Var(7, 3), Expr::Oper(Oper::Var(7, 1)))
    );
    assert_eq!(
        cfg.blocks[1].statements[1],
        Stmt::Tac(Oper::Var(7, 3), Expr::Oper(Oper::Var(7, 2)))
    );
}

#[test]
fn predecessors_come_in_increasing_order_and_match_successors() {
    let mut g = Graph { edges: Vec::new() };
    for _ in 0..4 {
        g.add_node();
    }
    g.add_directed_edge(3, 1);
    g.add_directed_edge(0, 1);
    g.add_directed_edge(2, 1);
    g.add_directed_edge(1, 2);
    assert_eq!(g.predecessors(1), vec![0, 2, 3]);
    assert_eq!(g.predecessors(2), vec![1]);
    assert_eq!(g.predecessors(0), Vec::<usize>::new());
    for b in 0..4 {
        for a in 0..4 {
            assert_eq!(g.predecessors(b).contains(&a), g.successors(a).contains(&b));
        }
    }
}
