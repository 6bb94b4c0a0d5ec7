use std::collections::HashMap;
use pineapple::ir::Oper;
use pineapple::ssa::sequence_parallel_copy;

fn run(copies: &[(Oper, Oper)], store: &mut HashMap<Oper, i64>) {
    for (d, s) in copies {
        let v = *store.get(s).unwrap_or(&0);
        store.insert(*d, v);
    }
}

fn check_parallel(copies: Vec<(Oper, Oper)>, start: &HashMap<Oper, i64>) {
    let mut seq = copies.clone();
    sequence_parallel_copy(&mut seq);
    let mut store = start.clone();
    run(&seq, &mut store);
    for (d, s) in &copies {
        assert_eq!(store.get(d), Some(start.get(s).unwrap_or(&0)), "destination {:?}", d);
    }
}

#[test]
fn a_swap_is_broken_with_a_temporary() {
    let x1 = Oper::Var(1, 1);
    let x2 = Oper::Var(2, 1);
    let copies = vec![(x1, x2), (x2, x1)];
    let mut seq = copies.clone();
    sequence_parallel_copy(&mut seq);
    assert_eq!(seq.len(), 3);
    assert!(seq.iter().any(|c| matches!(c.0, Oper::Temp(_, 0))));
    let mut start = HashMap::new();
    start.insert(x1, 10);
    start.insert(x2, 20);
    check_parallel(copies, &start);
}

#[test]
fn a_chain_is_ordered_without_temporaries() {
    let a = Oper::Var(1, 1);
    let b = Oper::Var(2, 1);
    let c = Oper::Var(3, 1);
    let copies = vec![(b, a), (c, b)];
    let mut seq = copies.clone();
    sequence_parallel_copy(&mut seq);
    assert_eq!(seq, vec![(c, b), (b, a)]);
    let mut start = HashMap::new();
    start.insert(a, 1);
    start.insert(b, 2);
    start.insert(c, 3);
    check_parallel(copies, &start);
}

#[test]
fn a_rotation_of_three_keeps_every_value() {
    let a = Oper::Var(1, 2);
    let b = Oper::Var(2, 2);
    let c = Oper::Var(3, 2);
    let t = Oper::Temp(4, 0);
    let copies = vec![(a, b), (b, c), (c, a), (t, t)];
    let mut start = HashMap::new();
    start.insert(a, 1);
    start.insert(b, 2);
    start.insert(c, 3);
    start.insert(t, 4);
    check_parallel(copies, &start);
}

#[test]
fn repeated_destinations_are_left_alone() {
    let a = Oper::Var(1, 1);
    let b = Oper::Var(2, 1);
    let copies = vec![(a, b), (a, b)];
    let mut seq = copies.clone();
    sequence_parallel_copy(&mut seq);
    assert_eq!(seq, copies);
}
