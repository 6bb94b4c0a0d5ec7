use vstd::prelude::*;
use std::collections::HashSet;
use indexmap::IndexSet;
use crate::ir::{Expr, ExprV, Oper, Stmt, StmtV, oper_with_ssa, var_or_temp_list};
use crate::cfg::{CFG, view_stmts, view_opt};
use crate::regalloc::{index_set_items, index_set_new, index_set_insert, index_set_pop};
use crate::sets::{adjacency, elements};
use crate::dominance::idom_total;

verus! {

broadcast use vstd::std_specs::hash::group_hash_axioms;

/// A set of blocks that holds the dominance frontier of each of its blocks
/// and of each block in `d`.
pub open spec fn df_closed(domf: Seq<HashSet<usize>>, d: Set<usize>, g: Set<usize>) -> bool {
    forall|x: usize, y: usize| (d.contains(x) || g.contains(x)) && x < domf.len()
        && #[trigger] domf[x as int]@.contains(y) ==> g.contains(y)
}

/// The iterated dominance frontier of `d`: the blocks that every closed
/// set holds.
pub open spec fn iterated_frontier(domf: Seq<HashSet<usize>>, d: Set<usize>) -> Set<usize> {
    Set::new(|y: usize| forall|g: Set<usize>| #[trigger] df_closed(domf, d, g) ==> g.contains(y))
}

/// A phi function for `v` with one argument per predecessor.
pub open spec fn phi_view(v: Oper, npred: nat) -> StmtV {
    StmtV::Tac(v, ExprV::Phi(Seq::new(npred, |i: int| (v, 0usize))))
}

/// The phi functions that the first `k` defined operands put at the head
/// of block `y`, the latest first.
pub open spec fn phis_upto(defs: Seq<(Oper, HashSet<usize>)>, domf: Seq<HashSet<usize>>, preds: Map<usize, Set<usize>>, k: int, y: usize) -> Seq<StmtV>
    decreases k,
{
    if k <= 0 {
        Seq::empty()
    } else {
        let v = defs[k - 1].0;
        let head = if v is Var && iterated_frontier(domf, defs[k - 1].1@).contains(y) {
            seq![phi_view(v, preds[y].len())]
        } else {
            Seq::empty()
        };
        head + phis_upto(defs, domf, preds, k - 1, y)
    }
}

/// The graph that phi placement needs: frontiers and defining blocks among
/// the blocks, and predecessor sets for every block.
pub open spec fn phi_ready(cfg: &CFG) -> bool {
    let size = cfg.blocks@.len();
    &&& cfg.dom_ctx.domf@.len() == size
    &&& forall|x: int, y: usize| 0 <= x < size && #[trigger] cfg.dom_ctx.domf@[x]@.contains(y) ==> y < size
    &&& forall|k: int, d: usize| 0 <= k < cfg.def@.len() && #[trigger] cfg.def@[k].1@.contains(d) ==> d < size
    &&& forall|y: usize| y < size ==> #[trigger] cfg.graph.preds().contains_key(y)
}

proof fn lemma_set_below_len(s: Set<usize>, size: nat)
    requires
        s.finite(),
        forall|x: usize| s.contains(x) ==> x < size,
    ensures
        s.len() <= size,
    decreases size,
{
    if size == 0 {
        assert(s =~= Set::<usize>::empty());
    } else {
        let top = (size - 1) as usize;
        lemma_set_below_len(s.remove(top), (size - 1) as nat);
    }
}

fn phi_for(v: Oper, npred: usize) -> (r: Stmt)
    ensures
        r@ == phi_view(v, npred as nat),
{
    let mut phivec: Vec<(Oper, usize)> = Vec::new();
    let mut i: usize = 0;
    while i < npred
        invariant
            i <= npred,
            phivec@ == Seq::new(i as nat, |j: int| (v, 0usize)),
        decreases npred - i,
    {
        phivec.push((v, 0));
        i = i + 1;
        assert(phivec@ =~= Seq::new(i as nat, |j: int| (v, 0usize)));
    }
    Stmt::Tac(v, Expr::Phi(phivec))
}

/// Places the phi functions for the operand of entry `k` of the definition
/// list: where it is a variable, every block of the iterated dominance
/// frontier of its defining blocks gets one at its head.
fn place_phis(cfg: &mut CFG, k: usize)
    requires
        phi_ready(&*old(cfg)),
        k < old(cfg).def@.len(),
    ensures
        phi_ready(&*final(cfg)),
        final(cfg).blocks@.len() == old(cfg).blocks@.len(),
        forall|y: int| 0 <= y < final(cfg).blocks@.len() ==> view_stmts(#[trigger] final(cfg).blocks@[y].statements@) ==
            (if old(cfg).def@[k as int].0 is Var && iterated_frontier(old(cfg).dom_ctx.domf@, old(cfg).def@[k as int].1@).contains(y as usize) {
                seq![phi_view(old(cfg).def@[k as int].0, old(cfg).graph.preds()[y as usize].len())]
            } else {
                Seq::empty()
            }) + view_stmts(old(cfg).blocks@[y].statements@),
        forall|y: int| 0 <= y < final(cfg).blocks@.len() ==> #[trigger] final(cfg).blocks@[y].label == old(cfg).blocks@[y].label
            && final(cfg).blocks@[y].goto == old(cfg).blocks@[y].goto,
        final(cfg).graph == old(cfg).graph,
        final(cfg).def == old(cfg).def,
        final(cfg).uses == old(cfg).uses,
        final(cfg).dom_ctx == old(cfg).dom_ctx,
        final(cfg).stack_offset == old(cfg).stack_offset,
{
    let size_e = cfg.blocks.len();
    let ghost size = size_e as nat;
    let ghost domf = cfg.dom_ctx.domf@;
    let ghost d = cfg.def@[k as int].1@;
    let v = cfg.def[k].0;
    let mut f: HashSet<usize> = HashSet::new();
    let mut w: IndexSet<usize> = index_set_new();
    let ghost mut processed: Set<usize> = Set::empty();
    let is_var = match v {
        Oper::Var(_, _) => true,
        _ => false,
    };
    let ghost dd = if is_var { d } else { Set::<usize>::empty() };
    if is_var {
        let ds = elements(&cfg.def[k].1);
        let mut i: usize = 0;
        while i < ds.len()
            invariant
                i <= ds@.len(),
                ds@.to_set() == d,
                ds@.no_duplicates(),
                index_set_items(w) == ds@.take(i as int),
            decreases ds@.len() - i,
        {
            proof {
                assert(!ds@.take(i as int).contains(ds@[i as int]));
            }
            index_set_insert(&mut w, ds[i]);
            i = i + 1;
            assert(index_set_items(w) =~= ds@.take(i as int));
        }
        assert(ds@.take(ds@.len() as int) =~= ds@);
    }
    proof {
        assert forall|i: int| 0 <= i < index_set_items(w).len() implies #[trigger] index_set_items(w)[i] < size by {
            let e = index_set_items(w)[i];
            assert(index_set_items(w).contains(e));
            assert(d.contains(e));
            assert(cfg.def@[k as int].1@.contains(e));
        }
        assert forall|x: usize| dd.contains(x) implies index_set_items(w).contains(x) by {
            if is_var {
                assert(d.contains(x));
            }
        }
        assert(f@ =~= Set::<usize>::empty());
        assert forall|y: int| 0 <= y < size implies view_stmts(#[trigger] cfg.blocks@[y].statements@) ==
            (if f@.contains(y as usize) { seq![phi_view(v, cfg.graph.preds()[y as usize].len())] } else { Seq::empty() })
                + view_stmts(old(cfg).blocks@[y].statements@) by {
            assert(view_stmts(cfg.blocks@[y].statements@) =~= Seq::<StmtV>::empty() + view_stmts(old(cfg).blocks@[y].statements@));
        }
    }
    loop
        invariant
            phi_ready(&*cfg),
            size == size_e as nat,
            size == cfg.blocks@.len(),
            k < cfg.def@.len(),
            cfg.graph == old(cfg).graph,
            cfg.def == old(cfg).def,
            cfg.uses == old(cfg).uses,
            cfg.dom_ctx == old(cfg).dom_ctx,
            cfg.stack_offset == old(cfg).stack_offset,
            domf == cfg.dom_ctx.domf@,
            d == cfg.def@[k as int].1@,
            v == cfg.def@[k as int].0,
            dd == (if v is Var { d } else { Set::<usize>::empty() }),
            f@.finite(),
            forall|y: usize| f@.contains(y) ==> y < size,
            forall|i: int| 0 <= i < index_set_items(w).len() ==> #[trigger] index_set_items(w)[i] < size,
            forall|x: usize| dd.contains(x) || f@.contains(x) ==> processed.contains(x) || index_set_items(w).contains(x),
            forall|x: usize| processed.contains(x) || index_set_items(w).contains(x) ==> dd.contains(x) || f@.contains(x),
            forall|x: usize, y: usize| processed.contains(x) && x < size && #[trigger] domf[x as int]@.contains(y) ==> f@.contains(y),
            forall|y: usize| f@.contains(y) ==> #[trigger] iterated_frontier(domf, dd).contains(y),
            forall|y: int| 0 <= y < size ==> view_stmts(#[trigger] cfg.blocks@[y].statements@) ==
                (if f@.contains(y as usize) { seq![phi_view(v, cfg.graph.preds()[y as usize].len())] } else { Seq::empty() })
                    + view_stmts(old(cfg).blocks@[y].statements@),
            forall|y: int| 0 <= y < size ==> #[trigger] cfg.blocks@[y].label == old(cfg).blocks@[y].label
                && cfg.blocks@[y].goto == old(cfg).blocks@[y].goto,
        ensures
            phi_ready(&*cfg),
            size == cfg.blocks@.len(),
            cfg.graph == old(cfg).graph,
            cfg.def == old(cfg).def,
            cfg.uses == old(cfg).uses,
            cfg.dom_ctx == old(cfg).dom_ctx,
            cfg.stack_offset == old(cfg).stack_offset,
            f@.finite(),
            forall|x: usize| dd.contains(x) || f@.contains(x) ==> processed.contains(x),
            forall|x: usize, y: usize| processed.contains(x) && x < size && #[trigger] domf[x as int]@.contains(y) ==> f@.contains(y),
            forall|y: usize| f@.contains(y) ==> #[trigger] iterated_frontier(domf, dd).contains(y),
            forall|y: int| 0 <= y < size ==> view_stmts(#[trigger] cfg.blocks@[y].statements@) ==
                (if f@.contains(y as usize) { seq![phi_view(v, cfg.graph.preds()[y as usize].len())] } else { Seq::empty() })
                    + view_stmts(old(cfg).blocks@[y].statements@),
            forall|y: int| 0 <= y < size ==> #[trigger] cfg.blocks@[y].label == old(cfg).blocks@[y].label
                && cfg.blocks@[y].goto == old(cfg).blocks@[y].goto,
        decreases size - f@.len(), index_set_items(w).len(),
    {
        proof {
            lemma_set_below_len(f@, size);
        }
        let ghost w0 = index_set_items(w);
        let ghost f0 = f@;
        match index_set_pop(&mut w) {
            None => {
                break;
            },
            Some(x) => {
                assert(w0.contains(x)) by {
                    assert(w0[w0.len() - 1] == x);
                }
                assert(index_set_items(w).len() < w0.len());
                assert forall|z: usize| dd.contains(z) || f@.contains(z) implies z == x || processed.contains(z)
                    || index_set_items(w).contains(z) by {
                    if !processed.contains(z) {
                        assert(w0.contains(z));
                        let i = choose|i: int| 0 <= i < w0.len() && w0[i] == z;
                        if i < w0.len() - 1 {
                            assert(index_set_items(w)[i] == z);
                        }
                    }
                }
                assert forall|z: usize| processed.contains(z) || index_set_items(w).contains(z) implies dd.contains(z) || f@.contains(z) by {
                    if index_set_items(w).contains(z) {
                        let i = choose|i: int| 0 <= i < index_set_items(w).len() && index_set_items(w)[i] == z;
                        assert(w0[i] == z);
                        assert(w0.contains(z));
                    }
                }
                assert forall|i: int| 0 <= i < index_set_items(w).len() implies #[trigger] index_set_items(w)[i] < size by {
                    assert(w0[i] == index_set_items(w)[i]);
                }
                assert(x < size) by {
                    assert(w0[w0.len() - 1] == x);
                }
                assert(v is Var) by {
                    if !(v is Var) {
                        assert(df_closed(domf, dd, Set::<usize>::empty()));
                        assert(!iterated_frontier(domf, dd).contains(x));
                    }
                }
                let ys = elements(&cfg.dom_ctx.domf[x]);
                let mut j: usize = 0;
                while j < ys.len()
                    invariant
                        phi_ready(&*cfg),
                        size == size_e as nat,
                        size == cfg.blocks@.len(),
                        k < cfg.def@.len(),
                        x < size,
                        cfg.graph == old(cfg).graph,
                        cfg.def == old(cfg).def,
                        cfg.uses == old(cfg).uses,
                        cfg.dom_ctx == old(cfg).dom_ctx,
                        cfg.stack_offset == old(cfg).stack_offset,
                        domf == cfg.dom_ctx.domf@,
                        d == cfg.def@[k as int].1@,
                        v == cfg.def@[k as int].0,
                        dd == d,
                        v is Var,
                        dd.contains(x) || f@.contains(x),
                        ys@.to_set() == domf[x as int]@,
                        j <= ys@.len(),
                        f@.finite(),
                        f0.subset_of(f@),
                        f@.len() == f0.len() ==> index_set_items(w).len() < w0.len(),
                        forall|y: usize| f@.contains(y) ==> y < size,
                        forall|i: int| 0 <= i < index_set_items(w).len() ==> #[trigger] index_set_items(w)[i] < size,
                        forall|jj: int| 0 <= jj < j ==> f@.contains(#[trigger] ys@[jj]),
                        forall|z: usize| dd.contains(z) || f@.contains(z) ==> z == x || processed.contains(z) || index_set_items(w).contains(z),
                        forall|z: usize| processed.contains(z) || index_set_items(w).contains(z) ==> dd.contains(z) || f@.contains(z),
                        forall|z: usize, y: usize| processed.contains(z) && z < size && #[trigger] domf[z as int]@.contains(y) ==> f@.contains(y),
                        forall|y: usize| f@.contains(y) ==> #[trigger] iterated_frontier(domf, dd).contains(y),
                        forall|y: int| 0 <= y < size ==> view_stmts(#[trigger] cfg.blocks@[y].statements@) ==
                            (if f@.contains(y as usize) { seq![phi_view(v, cfg.graph.preds()[y as usize].len())] } else { Seq::empty() })
                                + view_stmts(old(cfg).blocks@[y].statements@),
                        forall|y: int| 0 <= y < size ==> #[trigger] cfg.blocks@[y].label == old(cfg).blocks@[y].label
                            && cfg.blocks@[y].goto == old(cfg).blocks@[y].goto,
                    decreases ys@.len() - j,
                {
                    let y = ys[j];
                    assert(ys@.to_set().contains(y));
                    assert(y < size);
                    if !f.contains(&y) {
                        let npred = match cfg.graph.pred.get(&y) {
                            Some(s) => s.len(),
                            None => 0,
                        };
                        assert(cfg.graph.preds().contains_key(y));
                        assert(npred == cfg.graph.preds()[y].len());
                        let stmt = phi_for(v, npred);
                        let ghost bprev = cfg.blocks@;
                        cfg.blocks[y].insert_at_beginning(stmt);
                        proof {
                            assert forall|g: Set<usize>| #[trigger] df_closed(domf, dd, g) implies g.contains(y) by {
                                if !dd.contains(x) {
                                    assert(iterated_frontier(domf, dd).contains(x));
                                    assert(g.contains(x));
                                }
                            }
                            assert(iterated_frontier(domf, dd).contains(y));
                        }
                        let ghost fprev = f@;
                        f.insert(y);
                        proof {
                            assert(f@.len() == fprev.len() + 1);
                            vstd::set_lib::lemma_len_subset(f0, fprev);
                            assert forall|yy: int| 0 <= yy < size implies view_stmts(#[trigger] cfg.blocks@[yy].statements@) ==
                                (if f@.contains(yy as usize) { seq![phi_view(v, cfg.graph.preds()[yy as usize].len())] } else { Seq::empty() })
                                    + view_stmts(old(cfg).blocks@[yy].statements@) by {
                                if yy != y as int {
                                    assert(cfg.blocks@[yy] == bprev[yy]);
                                    assert(f@.contains(yy as usize) == fprev.contains(yy as usize));
                                } else {
                                    assert(!fprev.contains(y));
                                    assert(view_stmts(cfg.blocks@[yy].statements@) =~= seq![phi_view(v, cfg.graph.preds()[y].len())]
                                        + view_stmts(bprev[yy].statements@));
                                    assert(view_stmts(bprev[yy].statements@) =~= Seq::<StmtV>::empty() + view_stmts(old(cfg).blocks@[yy].statements@));
                                }
                            }
                            assert forall|yy: int| 0 <= yy < size implies #[trigger] cfg.blocks@[yy].label == old(cfg).blocks@[yy].label
                                && cfg.blocks@[yy].goto == old(cfg).blocks@[yy].goto by {
                                if yy != y as int {
                                    assert(cfg.blocks@[yy] == bprev[yy]);
                                }
                            }
                        }
                        let ghost wprev = index_set_items(w);
                        if !cfg.def[k].1.contains(&y) {
                            index_set_insert(&mut w, y);
                        }
                        proof {
                            assert forall|z: usize| wprev.contains(z) implies index_set_items(w).contains(z) by {
                                let i = choose|i: int| 0 <= i < wprev.len() && wprev[i] == z;
                                assert(index_set_items(w)[i] == z);
                            }
                            assert(!d.contains(y) ==> index_set_items(w).contains(y)) by {
                                if !d.contains(y) && !wprev.contains(y) {
                                    assert(index_set_items(w)[wprev.len() as int] == y);
                                }
                            }
                            assert forall|z: usize| dd.contains(z) || f@.contains(z) implies z == x || processed.contains(z)
                                || index_set_items(w).contains(z) by {
                                if z != y {
                                    assert(fprev.contains(z) == f@.contains(z));
                                }
                            }
                            assert forall|z: usize| processed.contains(z) || index_set_items(w).contains(z) implies dd.contains(z) || f@.contains(z) by {
                                if index_set_items(w).contains(z) && z != y {
                                    let i = choose|i: int| 0 <= i < index_set_items(w).len() && index_set_items(w)[i] == z;
                                    if i < wprev.len() {
                                        assert(wprev[i] == z);
                                        assert(wprev.contains(z));
                                    }
                                }
                            }
                            assert forall|i: int| 0 <= i < index_set_items(w).len() implies #[trigger] index_set_items(w)[i] < size by {
                                if i < wprev.len() {
                                    assert(wprev[i] == index_set_items(w)[i]);
                                }
                            }
                        }
                    }
                    j = j + 1;
                }
                proof {
                    assert forall|z: usize, y: usize| processed.insert(x).contains(z) && z < size && #[trigger] domf[z as int]@.contains(y)
                        implies f@.contains(y) by {
                        if z == x {
                            assert(ys@.to_set().contains(y));
                            let jj = choose|jj: int| 0 <= jj < ys@.len() && ys@[jj] == y;
                            assert(f@.contains(ys@[jj]));
                        }
                    }
                    processed = processed.insert(x);
                    lemma_set_below_len(f@, size);
                    vstd::set_lib::lemma_len_subset(f0, f@);
                }
            },
        }
    }
    proof {
        assert(df_closed(domf, dd, f@));
        assert forall|y: usize| iterated_frontier(domf, dd).contains(y) implies f@.contains(y) by {
            assert(df_closed(domf, dd, f@));
        }
        assert(f@ =~= iterated_frontier(domf, dd));
        if !is_var {
            assert(f@ =~= Set::<usize>::empty()) by {
                assert forall|y: usize| !f@.contains(y) by {
                    if f@.contains(y) {
                        assert(iterated_frontier(domf, dd).contains(y));
                        assert(df_closed(domf, dd, Set::<usize>::empty()));
                    }
                }
            }
        }
    }
}

} // verus!

verus! {

/// Puts phi functions at the head of the blocks: for each variable in the
/// definition list, in its order, every block of the iterated dominance
/// frontier of the variable's defining blocks gets a phi function with one
/// argument per predecessor.
pub fn insert_phi_functions(cfg: &mut CFG)
    requires
        phi_ready(&*old(cfg)),
    ensures
        final(cfg).blocks@.len() == old(cfg).blocks@.len(),
        forall|y: int| 0 <= y < final(cfg).blocks@.len() ==> view_stmts(#[trigger] final(cfg).blocks@[y].statements@) ==
            phis_upto(old(cfg).def@, old(cfg).dom_ctx.domf@, old(cfg).graph.preds(), old(cfg).def@.len() as int, y as usize)
                + view_stmts(old(cfg).blocks@[y].statements@),
        forall|y: int| 0 <= y < final(cfg).blocks@.len() ==> #[trigger] final(cfg).blocks@[y].label == old(cfg).blocks@[y].label
            && final(cfg).blocks@[y].goto == old(cfg).blocks@[y].goto,
        final(cfg).graph == old(cfg).graph,
        final(cfg).def == old(cfg).def,
        final(cfg).uses == old(cfg).uses,
        final(cfg).dom_ctx == old(cfg).dom_ctx,
        final(cfg).stack_offset == old(cfg).stack_offset,
{
    let n = cfg.def.len();
    let mut k: usize = 0;
    proof {
        assert forall|y: int| 0 <= y < cfg.blocks@.len() implies view_stmts(#[trigger] cfg.blocks@[y].statements@) ==
            phis_upto(old(cfg).def@, old(cfg).dom_ctx.domf@, old(cfg).graph.preds(), 0, y as usize)
                + view_stmts(old(cfg).blocks@[y].statements@) by {
            assert(view_stmts(cfg.blocks@[y].statements@) =~= Seq::<StmtV>::empty() + view_stmts(old(cfg).blocks@[y].statements@));
        }
    }
    while k < n
        invariant
            k <= n,
            n == cfg.def@.len(),
            phi_ready(&*cfg),
            cfg.blocks@.len() == old(cfg).blocks@.len(),
            cfg.graph == old(cfg).graph,
            cfg.def == old(cfg).def,
            cfg.uses == old(cfg).uses,
            cfg.dom_ctx == old(cfg).dom_ctx,
            cfg.stack_offset == old(cfg).stack_offset,
            forall|y: int| 0 <= y < cfg.blocks@.len() ==> view_stmts(#[trigger] cfg.blocks@[y].statements@) ==
                phis_upto(old(cfg).def@, old(cfg).dom_ctx.domf@, old(cfg).graph.preds(), k as int, y as usize)
                    + view_stmts(old(cfg).blocks@[y].statements@),
            forall|y: int| 0 <= y < cfg.blocks@.len() ==> #[trigger] cfg.blocks@[y].label == old(cfg).blocks@[y].label
                && cfg.blocks@[y].goto == old(cfg).blocks@[y].goto,
        decreases n - k,
    {
        let ghost before = cfg.blocks@;
        place_phis(cfg, k);
        proof {
            assert forall|y: int| 0 <= y < cfg.blocks@.len() implies view_stmts(#[trigger] cfg.blocks@[y].statements@) ==
                phis_upto(old(cfg).def@, old(cfg).dom_ctx.domf@, old(cfg).graph.preds(), k + 1, y as usize)
                    + view_stmts(old(cfg).blocks@[y].statements@) by {
                assert(view_stmts(before[y].statements@) == phis_upto(old(cfg).def@, old(cfg).dom_ctx.domf@, old(cfg).graph.preds(), k as int, y as usize)
                    + view_stmts(old(cfg).blocks@[y].statements@));
                let head = if old(cfg).def@[k as int].0 is Var && iterated_frontier(old(cfg).dom_ctx.domf@, old(cfg).def@[k as int].1@).contains(y as usize) {
                    seq![phi_view(old(cfg).def@[k as int].0, old(cfg).graph.preds()[y as usize].len())]
                } else {
                    Seq::empty()
                };
                assert(phis_upto(old(cfg).def@, old(cfg).dom_ctx.domf@, old(cfg).graph.preds(), k + 1, y as usize)
                    == head + phis_upto(old(cfg).def@, old(cfg).dom_ctx.domf@, old(cfg).graph.preds(), k as int, y as usize));
                assert(view_stmts(cfg.blocks@[y].statements@) =~= head + (phis_upto(old(cfg).def@, old(cfg).dom_ctx.domf@, old(cfg).graph.preds(), k as int, y as usize)
                    + view_stmts(old(cfg).blocks@[y].statements@)));
            }
        }
        k = k + 1;
    }
}

} // verus!

verus! {

/// An operand with its SSA version cleared.
pub open spec fn erase_oper(o: Oper) -> Oper {
    match o {
        Oper::Var(v, _) => Oper::Var(v, 0),
        Oper::Temp(v, _) => Oper::Temp(v, 0),
        _ => o,
    }
}

/// An expression with its SSA versions (and its phi arguments' blocks) cleared.
pub open spec fn erase_expr(e: ExprV) -> ExprV {
    match e {
        ExprV::Oper(o) => ExprV::Oper(erase_oper(o)),
        ExprV::Binary(l, op, r) => ExprV::Binary(erase_oper(l), op, erase_oper(r)),
        ExprV::Logical(l, op, r) => ExprV::Logical(erase_oper(l), op, erase_oper(r)),
        ExprV::Phi(args) => ExprV::Phi(args.map_values(|p: (Oper, usize)| (erase_oper(p.0), 0usize))),
    }
}

/// A statement with its SSA versions cleared.
pub open spec fn erase_stmt(s: StmtV) -> StmtV {
    match s {
        StmtV::Tac(l, e) => StmtV::Tac(erase_oper(l), erase_expr(e)),
        StmtV::CJump(e, lab) => StmtV::CJump(erase_expr(e), lab),
        StmtV::CastAs(o, t) => StmtV::CastAs(erase_oper(o), t),
        StmtV::StackPush(o) => StmtV::StackPush(erase_oper(o)),
        StmtV::Return(Some(o)) => StmtV::Return(Some(erase_oper(o))),
        StmtV::ParallelCopy(c) => StmtV::ParallelCopy(c.map_values(|p: (Oper, Oper)| (erase_oper(p.0), erase_oper(p.1)))),
        _ => s,
    }
}

/// The statements of a block with their SSA versions cleared.
pub open spec fn erase_block(ss: Seq<Stmt>) -> Seq<StmtV> {
    ss.map_values(|s: Stmt| erase_stmt(s@))
}

/// In a sequence without duplicates, the index of an element is where it is.
proof fn lemma_index_of_unique<A>(s: Seq<A>, i: int)
    requires
        s.no_duplicates(),
        0 <= i < s.len(),
    ensures
        s.index_of(s[i]) == i,
{
    let j = s.index_of(s[i]);
    assert(0 <= j < s.len() && s[j] == s[i]);
}

/// The counters and stacks of SSA versions, one of each per variable.
pub struct Versions {
    pub keys: Vec<(usize, bool)>,
    pub counts: Vec<usize>,
    pub stacks: Vec<Vec<usize>>,
}

impl Versions {
    pub open spec fn wf(&self) -> bool {
        &&& self.counts@.len() == self.keys@.len()
        &&& self.stacks@.len() == self.keys@.len()
        &&& self.keys@.no_duplicates()
    }

    /// `key` has a counter.
    pub open spec fn has(&self, key: (usize, bool)) -> bool {
        self.keys@.contains(key)
    }

    /// The counter of `key`.
    pub open spec fn count(&self, key: (usize, bool)) -> int {
        self.counts@[self.keys@.index_of(key)] as int
    }

    /// The stack of versions of `key`, latest last.
    pub open spec fn stack(&self, key: (usize, bool)) -> Seq<usize> {
        self.stacks@[self.keys@.index_of(key)]@
    }

    /// The latest version of `key`, if its stack holds one.
    pub open spec fn top_of(&self, key: (usize, bool)) -> Option<usize> {
        if self.has(key) && self.stack(key).len() > 0 {
            Some(self.stack(key).last())
        } else {
            None
        }
    }

    fn find(&self, key: (usize, bool)) -> (r: Option<usize>)
        requires
            self.wf(),
        ensures
            r matches Some(i) ==> i < self.keys@.len() && self.keys@[i as int] == key,
            r is None ==> forall|i: int| 0 <= i < self.keys@.len() ==> self.keys@[i] != key,
    {
        let mut i: usize = 0;
        while i < self.keys.len()
            invariant
                i <= self.keys@.len(),
                forall|j: int| 0 <= j < i ==> self.keys@[j] != key,
            decreases self.keys@.len() - i,
        {
            if self.keys[i].0 == key.0 && self.keys[i].1 == key.1 {
                return Some(i);
            }
            i = i + 1;
        }
        None
    }

    /// Starts `key` afresh: its counter at zero and its stack holding zero.
    fn reset(&mut self, key: (usize, bool))
        requires
            old(self).wf(),
        ensures
            final(self).wf(),
            final(self).has(key),
            final(self).count(key) == 0,
            final(self).stack(key) == seq![0usize],
            forall|k: (usize, bool)| k != key ==> (#[trigger] final(self).has(k)) == old(self).has(k),
            forall|k: (usize, bool)| k != key && old(self).has(k) ==> #[trigger] final(self).count(k) == old(self).count(k),
            forall|k: (usize, bool)| k != key && old(self).has(k) ==> #[trigger] final(self).stack(k) == old(self).stack(k),
    {
        let mut z: Vec<usize> = Vec::new();
        z.push(0);
        let ghost k0 = self.keys@;
        let ghost c0 = self.counts@;
        match self.find(key) {
            Some(i) => {
                self.counts.set(i, 0);
                self.stacks.set(i, z);
                proof {
                    lemma_index_of_unique(k0, i as int);
                    assert forall|k: (usize, bool)| k != key && old(self).has(k) implies #[trigger] self.count(k) == old(self).count(k) by {
                        let j = k0.index_of(k);
                        assert(k0[j] == k);
                    }
                    assert forall|k: (usize, bool)| k != key && old(self).has(k) implies #[trigger] self.stack(k) == old(self).stack(k) by {
                        let j = k0.index_of(k);
                        assert(k0[j] == k);
                    }
                    assert(self.stack(key) =~= seq![0usize]);
                }
            },
            None => {
                self.keys.push(key);
                self.counts.push(0);
                self.stacks.push(z);
                proof {
                    assert(!k0.contains(key));
                    assert(self.keys@[k0.len() as int] == key);
                    lemma_index_of_unique(self.keys@, k0.len() as int);
                    assert forall|k: (usize, bool)| k != key implies (#[trigger] self.has(k)) == old(self).has(k) by {
                        if self.has(k) {
                            let j = choose|j: int| 0 <= j < self.keys@.len() && self.keys@[j] == k;
                            assert(j < k0.len());
                            assert(k0[j] == k);
                        }
                        if old(self).has(k) {
                            let j = choose|j: int| 0 <= j < k0.len() && k0[j] == k;
                            assert(self.keys@[j] == k);
                        }
                    }
                    assert forall|k: (usize, bool)| k != key && old(self).has(k) implies #[trigger] self.count(k) == old(self).count(k) by {
                        let j = k0.index_of(k);
                        assert(k0[j] == k);
                        assert(self.keys@[j] == k);
                        lemma_index_of_unique(self.keys@, j);
                    }
                    assert forall|k: (usize, bool)| k != key && old(self).has(k) implies #[trigger] self.stack(k) == old(self).stack(k) by {
                        let j = k0.index_of(k);
                        assert(k0[j] == k);
                        assert(self.keys@[j] == k);
                        lemma_index_of_unique(self.keys@, j);
                    }
                    assert(self.stack(key) =~= seq![0usize]);
                }
            },
        }
    }

    /// The version on top of the stack of `key`, if there is one.
    fn top(&self, key: (usize, bool)) -> (r: Option<usize>)
        requires
            self.wf(),
        ensures
            r == self.top_of(key),
    {
        match self.find(key) {
            Some(i) => {
                proof {
                    lemma_index_of_unique(self.keys@, i as int);
                }
                let s = &self.stacks[i];
                if s.len() > 0 {
                    Some(s[s.len() - 1])
                } else {
                    None
                }
            },
            None => None,
        }
    }

    /// Takes a fresh version of `key` from its counter and pushes it.
    fn fresh(&mut self, key: (usize, bool)) -> (r: Option<usize>)
        requires
            old(self).wf(),
        ensures
            final(self).wf(),
            final(self).keys == old(self).keys,
            old(self).has(key) && old(self).count(key) < usize::MAX ==> r is Some,
            r matches Some(c) ==> old(self).has(key) && c == old(self).count(key) && final(self).count(key) == old(self).count(key) + 1,
            r is None ==> final(self).counts == old(self).counts,
            r is None ==> final(self).stacks == old(self).stacks,
            r matches Some(c) ==> final(self).stack(key) == old(self).stack(key).push(c),
            forall|k: (usize, bool)| k != key && old(self).has(k) ==> #[trigger] final(self).count(k) == old(self).count(k),
            forall|k: (usize, bool)| k != key && old(self).has(k) ==> #[trigger] final(self).stack(k) == old(self).stack(k),
    {
        let ghost k0 = self.keys@;
        match self.find(key) {
            Some(i) => {
                proof {
                    lemma_index_of_unique(k0, i as int);
                }
                let c = self.counts[i];
                if c < usize::MAX {
                    self.counts.set(i, c + 1);
                    let mut s = self.stacks[i].clone();
                    s.push(c);
                    self.stacks.set(i, s);
                    proof {
                        assert forall|k: (usize, bool)| k != key && old(self).has(k) implies #[trigger] self.count(k) == old(self).count(k) by {
                            let j = k0.index_of(k);
                            assert(k0[j] == k);
                        }
                        assert forall|k: (usize, bool)| k != key && old(self).has(k) implies #[trigger] self.stack(k) == old(self).stack(k) by {
                            let j = k0.index_of(k);
                            assert(k0[j] == k);
                        }
                    }
                    Some(c)
                } else {
                    None
                }
            },
            None => None,
        }
    }

    /// Pops the latest version of `key`.
    fn pop(&mut self, key: (usize, bool))
        requires
            old(self).wf(),
        ensures
            final(self).wf(),
            final(self).keys == old(self).keys,
            final(self).counts == old(self).counts,
            old(self).has(key) && old(self).stack(key).len() > 0 ==> final(self).stack(key) == old(self).stack(key).drop_last(),
            old(self).has(key) && old(self).stack(key).len() == 0 ==> final(self).stack(key) == old(self).stack(key),
            forall|k: (usize, bool)| k != key && old(self).has(k) ==> #[trigger] final(self).stack(k) == old(self).stack(k),
    {
        let ghost k0 = self.keys@;
        match self.find(key) {
            Some(i) => {
                proof {
                    lemma_index_of_unique(k0, i as int);
                }
                let mut s = self.stacks[i].clone();
                s.pop();
                self.stacks.set(i, s);
                proof {
                    assert forall|k: (usize, bool)| k != key && old(self).has(k) implies #[trigger] self.stack(k) == old(self).stack(k) by {
                        let j = k0.index_of(k);
                        assert(k0[j] == k);
                    }
                }
            },
            None => {},
        }
    }
}

/// What renaming needs of the graph: successor and predecessor sets for
/// every block, and immediate dominators below their blocks.
pub open spec fn rename_ready(cfg: &CFG) -> bool {
    let size = cfg.blocks@.len();
    &&& cfg.dom_ctx.idom@.len() == size
    &&& crate::dominance::idom_below(cfg.dom_ctx.idom@)
    &&& forall|n: usize| n < size ==> #[trigger] cfg.graph.succs().contains_key(n)
    &&& forall|n: usize| n < size ==> #[trigger] cfg.graph.preds().contains_key(n)
    &&& forall|n: usize, y: usize| n < size && #[trigger] cfg.graph.succs()[n].contains(y) ==> y < size
}

/// The argument slot of predecessor `n` in the phi functions of a block:
/// the number of its predecessors below `n`.
fn pred_rank(preds: &HashSet<usize>, n: usize) -> (r: usize)
    ensures
        r == preds@.filter(|x: usize| x < n).len(),
        preds@.finite(),
{
    let ps = elements(preds);
    let mut r: usize = 0;
    let mut i: usize = 0;
    let ghost mut seen: Set<usize> = Set::empty();
    while i < ps.len()
        invariant
            i <= ps@.len(),
            r <= i,
            ps@.no_duplicates(),
            seen.finite(),
            r == seen.len(),
            seen == Set::new(|x: usize| ps@.take(i as int).contains(x) && x < n),
        decreases ps@.len() - i,
    {
        let ghost before = seen;
        proof {
            assert(!before.contains(ps@[i as int])) by {
                if before.contains(ps@[i as int]) {
                    let k = choose|k: int| 0 <= k < i && #[trigger] ps@.take(i as int)[k] == ps@[i as int];
                    assert(ps@[k] == ps@[i as int]);
                }
            }
        }
        if ps[i] < n {
            r = r + 1;
            proof {
                seen = seen.insert(ps@[i as int]);
            }
        }
        proof {
            assert forall|x: usize| #[trigger] seen.contains(x) == (ps@.take(i + 1).contains(x) && x < n) by {
                if ps@.take(i + 1).contains(x) {
                    let k = choose|k: int| 0 <= k < i + 1 && #[trigger] ps@.take(i + 1)[k] == x;
                    if k < i {
                        assert(ps@.take(i as int)[k] == x);
                    }
                }
                if ps@.take(i as int).contains(x) {
                    let k = choose|k: int| 0 <= k < i && #[trigger] ps@.take(i as int)[k] == x;
                    assert(ps@.take(i + 1)[k] == x);
                }
                assert(ps@.take(i + 1)[i as int] == ps@[i as int]);
            }
            assert(seen =~= Set::new(|x: usize| ps@.take(i + 1).contains(x) && x < n));
        }
        i = i + 1;
    }
    proof {
        assert(ps@.take(ps@.len() as int) =~= ps@);
        assert forall|x: usize| #[trigger] ps@.contains(x) == preds@.contains(x) by {
            assert(ps@.to_set().contains(x) == ps@.contains(x));
        }
        assert(seen =~= preds@.filter(|x: usize| x < n));
        vstd::seq_lib::seq_to_set_is_finite(ps@);
    }
    r
}

} // verus!

verus! {

/// The blocks keep their statements up to SSA versions, and their labels
/// and jumps.
pub open spec fn same_but_versions(a: Seq<crate::cfg::BasicBlock>, b: Seq<crate::cfg::BasicBlock>) -> bool {
    &&& a.len() == b.len()
    &&& forall|k: int| 0 <= k < a.len() ==> erase_block(#[trigger] a[k].statements@) == erase_block(b[k].statements@)
    &&& forall|k: int| 0 <= k < a.len() ==> #[trigger] a[k].label == b[k].label && a[k].goto == b[k].goto
}

/// The blocks are the same up to versions, and phi arguments still name
/// blocks among them where they did.
pub open spec fn versions_ok(a: Seq<crate::cfg::BasicBlock>, b: Seq<crate::cfg::BasicBlock>) -> bool {
    &&& same_but_versions(a, b)
    &&& phi_args_below(b) ==> phi_args_below(a)
}

proof fn lemma_same_trans(a: Seq<crate::cfg::BasicBlock>, b: Seq<crate::cfg::BasicBlock>, c: Seq<crate::cfg::BasicBlock>)
    requires
        versions_ok(a, b),
        versions_ok(b, c),
    ensures
        versions_ok(a, c),
{
    assert forall|k: int| 0 <= k < a.len() implies erase_block(#[trigger] a[k].statements@) == erase_block(c[k].statements@) by {
        assert(erase_block(a[k].statements@) == erase_block(b[k].statements@));
    }
    assert forall|k: int| 0 <= k < a.len() implies #[trigger] a[k].label == c[k].label && a[k].goto == c[k].goto by {
        assert(a[k].label == b[k].label);
    }
}

/// Replacing one statement by another with the same erasure keeps the
/// blocks the same up to versions.
proof fn lemma_same_after_update(old_blocks: Seq<crate::cfg::BasicBlock>, new_blocks: Seq<crate::cfg::BasicBlock>, b: int, si: int)
    requires
        0 <= b < old_blocks.len(),
        new_blocks.len() == old_blocks.len(),
        forall|k: int| 0 <= k < old_blocks.len() && k != b ==> #[trigger] new_blocks[k] == old_blocks[k],
        new_blocks[b].label == old_blocks[b].label,
        new_blocks[b].goto == old_blocks[b].goto,
        new_blocks[b].statements@.len() == old_blocks[b].statements@.len(),
        0 <= si < old_blocks[b].statements@.len(),
        forall|t: int| 0 <= t < old_blocks[b].statements@.len() && t != si ==>
            #[trigger] new_blocks[b].statements@[t] == old_blocks[b].statements@[t],
        erase_stmt(new_blocks[b].statements@[si]@) == erase_stmt(old_blocks[b].statements@[si]@),
        phi_args_ok(old_blocks[b].statements@[si]@, old_blocks.len()) ==> phi_args_ok(new_blocks[b].statements@[si]@, old_blocks.len()),
    ensures
        versions_ok(new_blocks, old_blocks),
{
    assert(erase_block(new_blocks[b].statements@) =~= erase_block(old_blocks[b].statements@));
    if phi_args_below(old_blocks) {
        assert forall|k: int, i: int| 0 <= k < new_blocks.len() && 0 <= i < new_blocks[k].statements@.len()
            implies phi_args_ok((#[trigger] new_blocks[k].statements@[i])@, new_blocks.len()) by {
            if k != b || i != si {
                assert(new_blocks[k].statements@[i] == old_blocks[k].statements@[i]);
                assert(phi_args_ok(old_blocks[k].statements@[i]@, old_blocks.len()));
            } else {
                assert(phi_args_ok(old_blocks[k].statements@[i]@, old_blocks.len()));
            }
        }
    }
}

proof fn lemma_same_refl(a: Seq<crate::cfg::BasicBlock>)
    ensures
        versions_ok(a, a),
{
}

proof fn lemma_use_erase(s0: Stmt, s1: Stmt, value: Oper, ssa: usize)
    requires
        match s0 {
            Stmt::Tac(l, e) => s1 matches Stmt::Tac(nl, ne) && nl == l && ne == crate::ir::expr_with_ssa(e, value, ssa),
            Stmt::CJump(e, lab) => s1 == Stmt::CJump(crate::ir::expr_with_ssa(e, value, ssa), lab),
            Stmt::StackPush(o) => s1 == Stmt::StackPush(crate::ir::oper_with_ssa(o, value, ssa)),
            Stmt::CastAs(o, t) => s1 == Stmt::CastAs(crate::ir::oper_with_ssa(o, value, ssa), t),
            Stmt::Return(Some(o)) => s1 == Stmt::Return(Some(crate::ir::oper_with_ssa(o, value, ssa))),
            Stmt::ParallelCopy(c) => s1 matches Stmt::ParallelCopy(nc) && nc@ == c@.map_values(
                |p: (Oper, Oper)| (p.0, crate::ir::oper_with_ssa(p.1, value, ssa)),
            ),
            _ => s1 == s0,
        },
    ensures
        erase_stmt(s1@) == erase_stmt(s0@),
        forall|size: nat| #[trigger] phi_args_ok(s0@, size) ==> phi_args_ok(s1@, size),
{
    match s0 {
        Stmt::ParallelCopy(c) => {
            let nc = s1->ParallelCopy_0;
            assert(nc@.map_values(|p: (Oper, Oper)| (erase_oper(p.0), erase_oper(p.1)))
                =~= c@.map_values(|p: (Oper, Oper)| (erase_oper(p.0), erase_oper(p.1))));
        },
        Stmt::Tac(l, e) => {
            match e {
                Expr::Phi(args) => {},
                _ => {},
            }
        },
        _ => {},
    }
}

proof fn lemma_def_erase(s0: Stmt, s1: Stmt, value: Oper, ssa: usize)
    requires
        match s0 {
            Stmt::Tac(l, e) => s1 == Stmt::Tac(crate::ir::oper_with_ssa(l, value, ssa), e),
            Stmt::ParallelCopy(c) => s1 matches Stmt::ParallelCopy(nc) && nc@ == c@.map_values(
                |p: (Oper, Oper)| (crate::ir::oper_with_ssa(p.0, value, ssa), p.1),
            ),
            _ => s1 == s0,
        },
    ensures
        erase_stmt(s1@) == erase_stmt(s0@),
        forall|size: nat| #[trigger] phi_args_ok(s0@, size) ==> phi_args_ok(s1@, size),
{
    match s0 {
        Stmt::ParallelCopy(c) => {
            let nc = s1->ParallelCopy_0;
            assert(nc@.map_values(|p: (Oper, Oper)| (erase_oper(p.0), erase_oper(p.1)))
                =~= c@.map_values(|p: (Oper, Oper)| (erase_oper(p.0), erase_oper(p.1))));
        },
        _ => {},
    }
}

/// The variable and version that a three-address statement defines.
pub open spec fn def_var(s: StmtV) -> Option<(usize, usize)> {
    match s {
        StmtV::Tac(Oper::Var(v, i), _) => Some((v, i)),
        _ => None,
    }
}

/// Statement `s` of block `b`, as a view.
pub open spec fn stmt_at(bs: Seq<crate::cfg::BasicBlock>, b: int, s: int) -> StmtV {
    bs[b].statements@[s]@
}

/// `(b, s)` is the position of a statement.
pub open spec fn pos_ok(bs: Seq<crate::cfg::BasicBlock>, b: int, s: int) -> bool {
    0 <= b < bs.len() && 0 <= s < bs[b].statements@.len()
}

/// No two statements define the same variable with the same version:
/// the code is in single-assignment form.
pub open spec fn single_assignment(bs: Seq<crate::cfg::BasicBlock>) -> bool {
    forall|b1: int, s1: int, b2: int, s2: int|
        #![trigger def_var(stmt_at(bs, b1, s1)), def_var(stmt_at(bs, b2, s2))]
        pos_ok(bs, b1, s1) && pos_ok(bs, b2, s2) && (b1 != b2 || s1 != s2) && def_var(stmt_at(bs, b1, s1)) is Some
            ==> def_var(stmt_at(bs, b1, s1)) != def_var(stmt_at(bs, b2, s2))
}

/// `a` is `b` or lies below it in the tree of immediate dominators.
pub open spec fn under(idom: Seq<Option<usize>>, a: int, b: int) -> bool
    decreases a,
{
    if a == b {
        true
    } else if 0 <= a < idom.len() {
        match idom[a] {
            Some(p) => if (p as int) < a && p >= 0 { under(idom, p as int, b) } else { false },
            None => false,
        }
    } else {
        false
    }
}

/// The blocks renamed once block `n` is: those below it in the tree.
pub open spec fn subtree(idom: Seq<Option<usize>>, n: int, nb: int) -> Set<int> {
    Set::new(|b: int| 0 <= b < nb && under(idom, b, n))
}

/// The number of definitions in the statements.
pub open spec fn def_weight(ss: Seq<StmtV>) -> nat
    decreases ss.len(),
{
    if ss.len() == 0 {
        0
    } else {
        def_weight(ss.drop_last()) + ss.last().defs().len()
    }
}

/// The number of definitions in the blocks of `vis` below `k`, counted on
/// the statements with versions cleared.
pub open spec fn weight(bs: Seq<crate::cfg::BasicBlock>, vis: Set<int>, k: int) -> nat
    decreases k,
{
    if k <= 0 {
        0
    } else {
        weight(bs, vis, k - 1) + if vis.contains(k - 1) { def_weight(erase_block(bs[k - 1].statements@)) } else { 0 }
    }
}

/// The positions that renaming has handled: the blocks of `vis` and the
/// first `upto` statements of block `cur`.
pub open spec fn handled(vis: Set<int>, cur: int, upto: int, b: int, s: int) -> bool {
    vis.contains(b) || (b == cur && s < upto)
}

/// Every handled definition has a version below its variable's counter,
/// and no two handled definitions share variable and version; every
/// defined variable has a counter.
pub open spec fn renamed_so_far(bs: Seq<crate::cfg::BasicBlock>, vis: Set<int>, cur: int, upto: int, vs: Versions) -> bool {
    &&& forall|b: int, s: int| #![trigger def_var(stmt_at(bs, b, s))]
        pos_ok(bs, b, s) && def_var(stmt_at(bs, b, s)) is Some ==> vs.has((def_var(stmt_at(bs, b, s))->Some_0.0, true))
    &&& forall|b: int, s: int| #![trigger def_var(stmt_at(bs, b, s))]
        pos_ok(bs, b, s) && handled(vis, cur, upto, b, s) && def_var(stmt_at(bs, b, s)) is Some
            ==> def_var(stmt_at(bs, b, s))->Some_0.1 < vs.count((def_var(stmt_at(bs, b, s))->Some_0.0, true))
    &&& forall|b1: int, s1: int, b2: int, s2: int|
        #![trigger def_var(stmt_at(bs, b1, s1)), def_var(stmt_at(bs, b2, s2))]
        pos_ok(bs, b1, s1) && pos_ok(bs, b2, s2) && handled(vis, cur, upto, b1, s1) && handled(vis, cur, upto, b2, s2)
            && (b1 != b2 || s1 != s2) && def_var(stmt_at(bs, b1, s1)) is Some
            ==> def_var(stmt_at(bs, b1, s1)) != def_var(stmt_at(bs, b2, s2))
}

/// No counter exceeds `bound`.
pub open spec fn counts_within(vs: Versions, bound: int) -> bool {
    forall|k: (usize, bool)| #[trigger] vs.has(k) ==> vs.count(k) <= bound
}

proof fn lemma_under_below(idom: Seq<Option<usize>>, a: int, b: int)
    requires
        under(idom, a, b),
    ensures
        b <= a,
    decreases a,
{
    if a != b {
        let p = idom[a]->Some_0;
        lemma_under_below(idom, p as int, b);
    }
}

proof fn lemma_under_trans(idom: Seq<Option<usize>>, a: int, b: int, c: int)
    requires
        under(idom, a, b),
        under(idom, b, c),
    ensures
        under(idom, a, c),
    decreases a,
{
    if a != b {
        let p = idom[a]->Some_0;
        lemma_under_trans(idom, p as int, b, c);
    }
}

/// Two blocks that a third lies under are one under the other.
proof fn lemma_under_chain(idom: Seq<Option<usize>>, a: int, b: int, c: int)
    requires
        under(idom, a, b),
        under(idom, a, c),
    ensures
        under(idom, b, c) || under(idom, c, b),
    decreases a,
{
    if a != b && a != c {
        let p = idom[a]->Some_0;
        lemma_under_chain(idom, p as int, b, c);
    }
}

/// A block strictly under `n` lies under a child of `n`.
proof fn lemma_under_child(idom: Seq<Option<usize>>, a: int, n: int)
    requires
        under(idom, a, n),
        a != n,
    ensures
        exists|c: int| n < c <= a && 0 <= c < idom.len() && idom[c] == Some(n as usize) && under(idom, a, c),
    decreases a,
{
    let p = idom[a]->Some_0;
    if p as int == n {
        assert(under(idom, a, a));
        assert(idom[a] == Some(n as usize));
    } else {
        lemma_under_child(idom, p as int, n);
        let c = choose|c: int| n < c <= p && 0 <= c < idom.len() && idom[c] == Some(n as usize) && under(idom, p as int, c);
        assert(under(idom, p as int, p as int));
        assert(under(idom, a, p as int));
        lemma_under_trans(idom, a, p as int, c);
    }
}

/// Every block lies under the first where every other block has an
/// immediate dominator before it.
proof fn lemma_under_root(idom: Seq<Option<usize>>, a: int)
    requires
        0 <= a < idom.len(),
        idom_total(idom),
        forall|v: int| 0 <= v < idom.len() ==> (#[trigger] idom[v] matches Some(p) ==> (p as int) < v),
    ensures
        under(idom, a, 0),
    decreases a,
{
    if a != 0 {
        let p = idom[a]->Some_0;
        lemma_under_root(idom, p as int);
    }
}

proof fn lemma_weight_insert(bs: Seq<crate::cfg::BasicBlock>, vis: Set<int>, x: int, k: int)
    requires
        !vis.contains(x),
    ensures
        weight(bs, vis.insert(x), k) == weight(bs, vis, k) + if 0 <= x < k { def_weight(erase_block(bs[x].statements@)) } else { 0 },
    decreases k,
{
    if k > 0 {
        lemma_weight_insert(bs, vis, x, k - 1);
    }
}

proof fn lemma_weight_union(bs: Seq<crate::cfg::BasicBlock>, a: Set<int>, b: Set<int>, k: int)
    requires
        a.disjoint(b),
    ensures
        weight(bs, a.union(b), k) == weight(bs, a, k) + weight(bs, b, k),
    decreases k,
{
    if k > 0 {
        lemma_weight_union(bs, a, b, k - 1);
    }
}

proof fn lemma_weight_subset(bs: Seq<crate::cfg::BasicBlock>, a: Set<int>, b: Set<int>, k: int)
    requires
        a.subset_of(b),
    ensures
        weight(bs, a, k) <= weight(bs, b, k),
    decreases k,
{
    if k > 0 {
        lemma_weight_subset(bs, a, b, k - 1);
    }
}

/// Blocks that agree up to versions have the same weights.
proof fn lemma_weight_same(a: Seq<crate::cfg::BasicBlock>, b: Seq<crate::cfg::BasicBlock>, vis: Set<int>, k: int)
    requires
        same_but_versions(a, b),
        k <= a.len(),
    ensures
        weight(a, vis, k) == weight(b, vis, k),
    decreases k,
{
    if k > 0 {
        lemma_weight_same(a, b, vis, k - 1);
        assert(erase_block(a[k - 1].statements@) == erase_block(b[k - 1].statements@));
    }
}

/// Argument `j` of the phi function `s` with the latest version of its
/// variable, coming from block `n`; `s` itself where there is no such
/// argument or version.
pub open spec fn phi_arg_renamed(s: StmtV, j: int, n: usize, vs: Versions) -> StmtV {
    match s {
        StmtV::Tac(l, ExprV::Phi(args)) => if 0 <= j < args.len() {
            match args[j].0 {
                Oper::Var(v, _) => match vs.top_of((v, true)) {
                    Some(i) => StmtV::Tac(l, ExprV::Phi(args.update(j, (Oper::Var(v, i), n)))),
                    None => s,
                },
                _ => s,
            }
        } else {
            s
        },
        _ => s,
    }
}

/// Gives argument `j` of a phi function the version on top of its
/// variable's stack and records `n` as the block it comes from.
fn rename_phi_arg(s: &mut Stmt, j: usize, n: usize, vs: &Versions, Ghost(size): Ghost<nat>)
    requires
        vs.wf(),
        n < size,
    ensures
        final(s)@ == phi_arg_renamed(old(s)@, j as int, n, *vs),
        erase_stmt(final(s)@) == erase_stmt(old(s)@),
        phi_args_ok(old(s)@, size) ==> phi_args_ok(final(s)@, size),
        def_var(final(s)@) == def_var(old(s)@),
{
    match s {
        Stmt::Tac(_, e) => match e {
            Expr::Phi(args) => {
                if j < args.len() {
                    let (mut o, _) = args[j];
                    match o {
                        Oper::Var(_, _) => {
                            match vs.top(o.as_non_ssa()) {
                                Some(i) => {
                                    let ghost a0 = args@;
                                    let v0 = o;
                                    o.replace_with_ssa(v0, i);
                                    args.set(j, (o, n));
                                    assert(args@.map_values(|p: (Oper, usize)| (erase_oper(p.0), 0usize))
                                        =~= a0.map_values(|p: (Oper, usize)| (erase_oper(p.0), 0usize)));
                                    assert forall|q: int| 0 <= q < args@.len() && (forall|r: int| 0 <= r < a0.len() ==> (#[trigger] a0[r]).1 < size)
                                        implies (#[trigger] args@[q]).1 < size by {
                                        if q != j as int {
                                            assert(args@[q] == a0[q]);
                                        }
                                    }
                                },
                                None => {},
                            }
                        },
                        _ => {},
                    }
                }
            },
            _ => {},
        },
        _ => {},
    }
}

/// The blocks under the children of `n` before `x`.
pub open spec fn kids_below(idom: Seq<Option<usize>>, n: int, x: int, nb: int) -> Set<int> {
    Set::new(|b: int| 0 <= b < nb && exists|c: int| 0 <= c < x && idom[c] == Some(n as usize) && #[trigger] under(idom, b, c))
}

/// The definitions of the first `i` statements and of statement `i`.
proof fn lemma_def_weight_prefix(ss: Seq<StmtV>, i: int)
    requires
        0 <= i < ss.len(),
    ensures
        def_weight(ss.take(i + 1)) == def_weight(ss.take(i)) + ss[i].defs().len(),
        def_weight(ss.take(i + 1)) <= def_weight(ss),
    decreases ss.len(),
{
    assert(ss.take(i + 1).drop_last() =~= ss.take(i));
    if i + 1 < ss.len() {
        lemma_def_weight_prefix(ss.drop_last(), i);
        assert(ss.drop_last().take(i + 1) =~= ss.take(i + 1));
    } else {
        assert(ss.take(i + 1) =~= ss);
    }
}

/// What renaming has done depends on the counters alone.
proof fn lemma_renamed_vs(bs: Seq<crate::cfg::BasicBlock>, vis: Set<int>, a: Versions, b: Versions)
    requires
        renamed_so_far(bs, vis, -1, 0, a),
        a.keys == b.keys,
        a.counts == b.counts,
    ensures
        renamed_so_far(bs, vis, -1, 0, b),
{
    assert forall|k: (usize, bool)| #[trigger] b.has(k) == a.has(k) && b.count(k) == a.count(k) by {}
}

/// A block renamed to its end counts as renamed as a whole.
proof fn lemma_handled_block(bs: Seq<crate::cfg::BasicBlock>, vis: Set<int>, n: int, vs: Versions)
    requires
        0 <= n < bs.len(),
        renamed_so_far(bs, vis, n, bs[n].statements@.len() as int, vs),
    ensures
        renamed_so_far(bs, vis.insert(n), -1, 0, vs),
{
    let len = bs[n].statements@.len() as int;
    assert forall|b: int, s: int| pos_ok(bs, b, s) implies #[trigger] handled(vis.insert(n), -1, 0, b, s) == handled(vis, n, len, b, s) by {}
    assert forall|b: int, s: int| #![trigger def_var(stmt_at(bs, b, s))]
        pos_ok(bs, b, s) && handled(vis.insert(n), -1, 0, b, s) && def_var(stmt_at(bs, b, s)) is Some
        implies def_var(stmt_at(bs, b, s))->Some_0.1 < vs.count((def_var(stmt_at(bs, b, s))->Some_0.0, true)) by {
        assert(handled(vis, n, len, b, s));
    }
    assert forall|b1: int, s1: int, b2: int, s2: int|
        #![trigger def_var(stmt_at(bs, b1, s1)), def_var(stmt_at(bs, b2, s2))]
        pos_ok(bs, b1, s1) && pos_ok(bs, b2, s2) && handled(vis.insert(n), -1, 0, b1, s1) && handled(vis.insert(n), -1, 0, b2, s2)
            && (b1 != b2 || s1 != s2) && def_var(stmt_at(bs, b1, s1)) is Some
        implies def_var(stmt_at(bs, b1, s1)) != def_var(stmt_at(bs, b2, s2)) by {
        assert(handled(vis, n, len, b1, s1));
        assert(handled(vis, n, len, b2, s2));
    }
}

/// With nothing of block `x` handled, the block being worked on does not matter.
proof fn lemma_handled_shift(bs: Seq<crate::cfg::BasicBlock>, vis: Set<int>, x: int, vs: Versions)
    requires
        renamed_so_far(bs, vis, -1, 0, vs),
    ensures
        renamed_so_far(bs, vis, x, 0, vs),
{
    assert forall|b: int, s: int| pos_ok(bs, b, s) implies #[trigger] handled(vis, x, 0, b, s) == handled(vis, -1, 0, b, s) by {}
    assert forall|b: int, s: int| #![trigger def_var(stmt_at(bs, b, s))]
        pos_ok(bs, b, s) && handled(vis, x, 0, b, s) && def_var(stmt_at(bs, b, s)) is Some
        implies def_var(stmt_at(bs, b, s))->Some_0.1 < vs.count((def_var(stmt_at(bs, b, s))->Some_0.0, true)) by {
        assert(handled(vis, -1, 0, b, s));
    }
    assert forall|b1: int, s1: int, b2: int, s2: int|
        #![trigger def_var(stmt_at(bs, b1, s1)), def_var(stmt_at(bs, b2, s2))]
        pos_ok(bs, b1, s1) && pos_ok(bs, b2, s2) && handled(vis, x, 0, b1, s1) && handled(vis, x, 0, b2, s2)
            && (b1 != b2 || s1 != s2) && def_var(stmt_at(bs, b1, s1)) is Some
        implies def_var(stmt_at(bs, b1, s1)) != def_var(stmt_at(bs, b2, s2)) by {
        assert(handled(vis, -1, 0, b1, s1));
        assert(handled(vis, -1, 0, b2, s2));
    }
}

/// No block under child `x` of `n` is renamed yet while the blocks under
/// the children before it are.
proof fn lemma_child_fresh(idom: Seq<Option<usize>>, vis: Set<int>, n: int, x: int, nb: int)
    requires
        0 <= n < x < idom.len(),
        n <= usize::MAX,
        forall|v: int| 0 <= v < idom.len() ==> (#[trigger] idom[v] matches Some(p) ==> (p as int) < v),
        idom[x] == Some(n as usize),
        forall|b: int| #[trigger] under(idom, b, n) ==> !vis.contains(b),
    ensures
        forall|b: int| #[trigger] under(idom, b, x) ==> !vis.insert(n).union(kids_below(idom, n, x, nb)).contains(b),
{
    assert(under(idom, n, n));
    assert(under(idom, x, n));
    assert forall|b: int| #[trigger] under(idom, b, x) implies !vis.insert(n).union(kids_below(idom, n, x, nb)).contains(b) by {
        lemma_under_trans(idom, b, x, n);
        lemma_under_below(idom, b, x);
        if kids_below(idom, n, x, nb).contains(b) {
            let c = choose|c: int| 0 <= c < x && idom[c] == Some(n as usize) && #[trigger] under(idom, b, c);
            lemma_under_chain(idom, b, c, x);
            if under(idom, c, x) {
                assert(c != x);
                lemma_under_below(idom, c, x);
            } else {
                assert(under(idom, x, c));
                assert(under(idom, n, c));
                lemma_under_below(idom, n, c);
            }
        }
    }
}

/// The blocks under `n` are `n` and the blocks under its children.
proof fn lemma_kids_cover(idom: Seq<Option<usize>>, n: int, nb: int)
    requires
        0 <= n < nb,
        n <= usize::MAX,
        nb == idom.len(),
        forall|v: int| 0 <= v < idom.len() ==> (#[trigger] idom[v] matches Some(p) ==> (p as int) < v),
    ensures
        subtree(idom, n, nb) =~= set![n].union(kids_below(idom, n, nb, nb)),
{
    assert forall|b: int| #[trigger] subtree(idom, n, nb).contains(b) implies set![n].union(kids_below(idom, n, nb, nb)).contains(b) by {
        if b != n {
            lemma_under_child(idom, b, n);
            let c = choose|c: int| n < c <= b && 0 <= c < idom.len() && idom[c] == Some(n as usize) && under(idom, b, c);
            assert(kids_below(idom, n, nb, nb).contains(b));
        }
    }
    assert forall|b: int| #[trigger] set![n].union(kids_below(idom, n, nb, nb)).contains(b) implies subtree(idom, n, nb).contains(b) by {
        if b != n {
            let c = choose|c: int| 0 <= c < nb && idom[c] == Some(n as usize) && #[trigger] under(idom, b, c);
            assert(under(idom, n, n));
            assert(under(idom, c, n));
            lemma_under_trans(idom, b, c, n);
        } else {
            assert(under(idom, n, n));
        }
    }
}

/// The blocks have the same shape and define the same variables with the
/// same versions everywhere.
pub open spec fn same_defs(a: Seq<crate::cfg::BasicBlock>, b: Seq<crate::cfg::BasicBlock>) -> bool {
    &&& a.len() == b.len()
    &&& forall|k: int| 0 <= k < a.len() ==> (#[trigger] a[k]).statements@.len() == b[k].statements@.len()
    &&& forall|k: int, s: int| pos_ok(a, k, s) ==> #[trigger] def_var(stmt_at(a, k, s)) == def_var(stmt_at(b, k, s))
}

proof fn lemma_renamed_transfer(a: Seq<crate::cfg::BasicBlock>, b: Seq<crate::cfg::BasicBlock>, vis: Set<int>, cur: int, upto: int, vs: Versions)
    requires
        same_defs(a, b),
        renamed_so_far(a, vis, cur, upto, vs),
    ensures
        renamed_so_far(b, vis, cur, upto, vs),
{
    assert forall|k: int, t: int| pos_ok(b, k, t) implies #[trigger] def_var(stmt_at(b, k, t)) == def_var(stmt_at(a, k, t)) by {
        assert(a[k].statements@.len() == b[k].statements@.len());
        assert(pos_ok(a, k, t));
    }
}

/// Versions cleared, a statement defines as many operands as before.
proof fn lemma_erase_defs_len(s: StmtV)
    ensures
        erase_stmt(s).defs().len() == s.defs().len(),
{
    if let StmtV::ParallelCopy(c) = s {
        lemma_copy_defs_erase(c);
    }
}

proof fn lemma_copy_defs_erase(c: Seq<(Oper, Oper)>)
    ensures
        crate::ir::copy_defs(c.map_values(|p: (Oper, Oper)| (erase_oper(p.0), erase_oper(p.1)))).len() == crate::ir::copy_defs(c).len(),
    decreases c.len(),
{
    let m = c.map_values(|p: (Oper, Oper)| (erase_oper(p.0), erase_oper(p.1)));
    if c.len() > 0 {
        lemma_copy_defs_erase(c.drop_last());
        assert(m.drop_last() =~= c.drop_last().map_values(|p: (Oper, Oper)| (erase_oper(p.0), erase_oper(p.1))));
        assert(m.last() == (erase_oper(c.last().0), erase_oper(c.last().1)));
    }
}

/// Renames statement `si` of block `n`: a variable it reads (outside a
/// phi function) takes the version on top of its stack, and a variable
/// it defines a fresh version from its counter.
fn rename_statement(cfg: &mut CFG, n: usize, si: usize, vs: &mut Versions, Ghost(vis): Ghost<Set<int>>, Ghost(bound): Ghost<int>, Ghost(bounded): Ghost<bool>)
    requires
        rename_ready(&*old(cfg)),
        n < old(cfg).blocks@.len(),
        si < old(cfg).blocks@[n as int].statements@.len(),
        old(vs).wf(),
        bounded ==> renamed_so_far(old(cfg).blocks@, vis, n as int, si as int, *old(vs)),
        bounded ==> counts_within(*old(vs), bound),
        bounded ==> bound + stmt_at(old(cfg).blocks@, n as int, si as int).defs().len() <= usize::MAX,
    ensures
        final(vs).wf(),
        final(vs).keys == old(vs).keys,
        versions_ok(final(cfg).blocks@, old(cfg).blocks@),
        rename_ready(&*final(cfg)),
        final(cfg).graph == old(cfg).graph,
        final(cfg).def == old(cfg).def,
        final(cfg).uses == old(cfg).uses,
        final(cfg).dom_ctx == old(cfg).dom_ctx,
        final(cfg).stack_offset == old(cfg).stack_offset,
        bounded ==> renamed_so_far(final(cfg).blocks@, vis, n as int, si + 1, *final(vs)),
        bounded ==> counts_within(*final(vs), bound + stmt_at(old(cfg).blocks@, n as int, si as int).defs().len()),
        final(cfg).blocks@.len() == old(cfg).blocks@.len(),
        forall|k: int| 0 <= k < old(cfg).blocks@.len() && k != n ==> #[trigger] final(cfg).blocks@[k] == old(cfg).blocks@[k],
        final(cfg).blocks@[n as int].statements@.len() == old(cfg).blocks@[n as int].statements@.len(),
        forall|t: int| 0 <= t < old(cfg).blocks@[n as int].statements@.len() && t != si
            ==> #[trigger] final(cfg).blocks@[n as int].statements@[t] == old(cfg).blocks@[n as int].statements@[t],
        !has_phi(stmt_at(old(cfg).blocks@, n as int, si as int)) && !(stmt_at(old(cfg).blocks@, n as int, si as int) is ParallelCopy) ==> {
            &&& stmt_at(final(cfg).blocks@, n as int, si as int).uses().len() == stmt_at(old(cfg).blocks@, n as int, si as int).uses().len()
            &&& forall|k: int| 0 <= k < stmt_at(old(cfg).blocks@, n as int, si as int).uses().len() ==>
                #[trigger] stmt_at(final(cfg).blocks@, n as int, si as int).uses()[k] == renamed_use(stmt_at(old(cfg).blocks@, n as int, si as int).uses()[k], *old(vs))
        },
        bounded ==> (def_var(stmt_at(old(cfg).blocks@, n as int, si as int)) matches Some(d) ==> {
            &&& def_var(stmt_at(final(cfg).blocks@, n as int, si as int)) == Some((d.0, old(vs).count((d.0, true)) as usize))
            &&& final(vs).stack((d.0, true)) == old(vs).stack((d.0, true)).push(old(vs).count((d.0, true)) as usize)
            &&& forall|k: (usize, bool)| k != (d.0, true) && old(vs).has(k) ==> #[trigger] final(vs).stack(k) == old(vs).stack(k)
        }),
        def_var(stmt_at(old(cfg).blocks@, n as int, si as int)) is None && !(stmt_at(old(cfg).blocks@, n as int, si as int) is ParallelCopy)
            ==> *final(vs) == *old(vs),
        same_phi_args(stmt_at(final(cfg).blocks@, n as int, si as int), stmt_at(old(cfg).blocks@, n as int, si as int)),
{
    let ghost orig = cfg.blocks@;
    proof {
        lemma_same_refl(orig);
    }
    let len = cfg.blocks[n].statements.len();
    let phi_stmt = match &cfg.blocks[n].statements[si] {
        Stmt::Tac(_, Expr::Phi(_)) => true,
        _ => false,
    };
    if !phi_stmt {
        let used = cfg.blocks[n].statements[si].used();
        let ghost u0 = stmt_at(orig, n as int, si as int).uses();
        let ghost plain = !(stmt_at(orig, n as int, si as int) is ParallelCopy) && !has_phi(stmt_at(orig, n as int, si as int));
        let mut u: usize = 0;
        while u < used.len()
            invariant
                u <= used@.len(),
                si < len,
                n < cfg.blocks@.len(),
                len == cfg.blocks@[n as int].statements@.len(),
                used@ == u0,
                u0 == stmt_at(orig, n as int, si as int).uses(),
                plain == (!(stmt_at(orig, n as int, si as int) is ParallelCopy) && !has_phi(stmt_at(orig, n as int, si as int))),
                !is_phi(stmt_at(orig, n as int, si as int)),
                *vs == *old(vs),
                cfg.blocks@.len() == orig.len(),
                forall|k: int| 0 <= k < orig.len() && k != n ==> #[trigger] cfg.blocks@[k] == orig[k],
                forall|t: int| 0 <= t < len && t != si ==> #[trigger] cfg.blocks@[n as int].statements@[t] == orig[n as int].statements@[t],
                plain ==> stmt_at(cfg.blocks@, n as int, si as int).uses().len() == u0.len(),
                plain ==> !has_phi(stmt_at(cfg.blocks@, n as int, si as int)) && !(stmt_at(cfg.blocks@, n as int, si as int) is ParallelCopy),
                plain ==> forall|k: int| 0 <= k < u0.len() ==> #[trigger] stmt_at(cfg.blocks@, n as int, si as int).uses()[k] == u0[k]
                    || stmt_at(cfg.blocks@, n as int, si as int).uses()[k] == renamed_use(u0[k], *vs),
                plain ==> forall|k: int, j: int| 0 <= j < u && 0 <= k < u0.len() && #[trigger] used@[j] is Var && #[trigger] u0[k] is Var
                    && used@[j]->Var_0 == u0[k]->Var_0 ==> stmt_at(cfg.blocks@, n as int, si as int).uses()[k] == renamed_use(u0[k], *vs),
                vs.wf(),
                rename_ready(&*cfg),
                versions_ok(cfg.blocks@, orig),
                orig == old(cfg).blocks@,
                same_defs(cfg.blocks@, orig),
                cfg.graph == old(cfg).graph,
                cfg.def == old(cfg).def,
                cfg.uses == old(cfg).uses,
                cfg.dom_ctx == old(cfg).dom_ctx,
                cfg.stack_offset == old(cfg).stack_offset,
            decreases used@.len() - u,
        {
            let x = used[u];
            match x {
                Oper::Var(_, _) => {
                    match vs.top(x.as_non_ssa()) {
                        Some(i) => {
                            let ghost before = cfg.blocks@;
                            cfg.blocks[n].statements[si].replace_oper_use_with_ssa(x, i);
                            proof {
                                let s0 = before[n as int].statements@[si as int];
                                let s1 = cfg.blocks@[n as int].statements@[si as int];
                                lemma_use_erase(s0, s1, x, i);
                                if plain {
                                    lemma_use_map(s0, s1, x, i);
                                    let c0 = s0@.uses();
                                    let c1 = s1@.uses();
                                    assert forall|k: int| 0 <= k < u0.len() implies #[trigger] c1[k] == u0[k] || c1[k] == renamed_use(u0[k], *vs) by {
                                        assert(c1[k] == oper_with_ssa(c0[k], x, i));
                                    }
                                    assert forall|k: int, j: int| 0 <= j < u + 1 && 0 <= k < u0.len() && #[trigger] used@[j] is Var && #[trigger] u0[k] is Var
                                        && used@[j]->Var_0 == u0[k]->Var_0 implies c1[k] == renamed_use(u0[k], *vs) by {
                                        assert(c1[k] == oper_with_ssa(c0[k], x, i));
                                    }
                                    lemma_erase_kind(s0@, s1@);
                                }
                                assert forall|k: int| 0 <= k < orig.len() && k != n implies #[trigger] cfg.blocks@[k] == orig[k] by {
                                    assert(before[k] == orig[k]);
                                }
                                assert forall|t: int| 0 <= t < len && t != si implies #[trigger] cfg.blocks@[n as int].statements@[t] == orig[n as int].statements@[t] by {
                                    assert(before[n as int].statements@[t] == orig[n as int].statements@[t]);
                                }
                                lemma_same_after_update(before, cfg.blocks@, n as int, si as int);
                                lemma_same_trans(cfg.blocks@, before, orig);
                                assert forall|k: int, t: int| pos_ok(cfg.blocks@, k, t) implies
                                    #[trigger] def_var(stmt_at(cfg.blocks@, k, t)) == def_var(stmt_at(orig, k, t)) by {
                                    assert(pos_ok(before, k, t));
                                    assert(def_var(stmt_at(before, k, t)) == def_var(stmt_at(orig, k, t)));
                                    if k == n as int && t == si as int {
                                    } else {
                                        assert(cfg.blocks@[k].statements@[t] == before[k].statements@[t]);
                                    }
                                }
                            }
                        },
                        None => {
                            proof {
                                if plain {
                                    let c1 = stmt_at(cfg.blocks@, n as int, si as int).uses();
                                    assert forall|k: int, j: int| 0 <= j < u + 1 && 0 <= k < u0.len() && #[trigger] used@[j] is Var && #[trigger] u0[k] is Var
                                        && used@[j]->Var_0 == u0[k]->Var_0 implies c1[k] == renamed_use(u0[k], *vs) by {
                                        assert(c1[k] == u0[k] || c1[k] == renamed_use(u0[k], *vs));
                                    }
                                }
                            }
                        },
                    }
                },
                _ => {},
            }
            u = u + 1;
        }
        proof {
            if plain {
                assert forall|k: int| 0 <= k < u0.len() implies #[trigger] stmt_at(cfg.blocks@, n as int, si as int).uses()[k] == renamed_use(u0[k], *vs) by {
                    if u0[k] is Var {
                        assert(used@[k] is Var);
                    }
                }
            }
        }
    }
    let ghost mid = cfg.blocks@;
    let ghost vs0 = *vs;
    proof {
        if bounded {
            lemma_renamed_transfer(orig, mid, vis, n as int, si as int, vs0);
        }
        assert(erase_stmt(stmt_at(mid, n as int, si as int)) == erase_stmt(stmt_at(orig, n as int, si as int))) by {
            assert(erase_block(mid[n as int].statements@)[si as int] == erase_block(orig[n as int].statements@)[si as int]);
        }
        lemma_erase_defs_len(stmt_at(mid, n as int, si as int));
        lemma_erase_defs_len(stmt_at(orig, n as int, si as int));
        lemma_erase_kind(stmt_at(mid, n as int, si as int), stmt_at(orig, n as int, si as int));
        assert(def_var(stmt_at(mid, n as int, si as int)) == def_var(stmt_at(orig, n as int, si as int)));
        if phi_stmt {
            assert(mid == orig);
        }
    }
    let defs = cfg.blocks[n].statements[si].def();
    let mut di: usize = 0;
    while di < defs.len()
        invariant
            di <= defs@.len(),
            defs@ == stmt_at(mid, n as int, si as int).defs(),
            defs@.len() == stmt_at(orig, n as int, si as int).defs().len(),
            bounded ==> bound + defs@.len() <= usize::MAX,
            bounded ==> renamed_so_far(mid, vis, n as int, si as int, vs0),
            di == 0 ==> *vs == vs0,
            is_phi(stmt_at(mid, n as int, si as int)) ==> same_phi_args(stmt_at(cfg.blocks@, n as int, si as int), stmt_at(mid, n as int, si as int))
                && is_phi(stmt_at(cfg.blocks@, n as int, si as int)),
            def_var(stmt_at(mid, n as int, si as int)) is None && !(stmt_at(mid, n as int, si as int) is ParallelCopy)
                ==> forall|j: int| 0 <= j < defs@.len() ==> !(#[trigger] defs@[j] is Var),
            def_var(stmt_at(mid, n as int, si as int)) is None && !(stmt_at(mid, n as int, si as int) is ParallelCopy) ==> *vs == vs0,
            !(stmt_at(mid, n as int, si as int) is ParallelCopy) ==> stmt_at(cfg.blocks@, n as int, si as int).uses() == stmt_at(mid, n as int, si as int).uses(),
            def_var(stmt_at(mid, n as int, si as int)) matches Some(dv) ==> (bounded && di > 0 ==> {
                &&& vs.stack((dv.0, true)) == vs0.stack((dv.0, true)).push(vs0.count((dv.0, true)) as usize)
                &&& forall|k: (usize, bool)| k != (dv.0, true) && vs0.has(k) ==> #[trigger] vs.stack(k) == vs0.stack(k)
            }),
            n < mid.len(),
            mid[n as int].statements@.len() == len,
            si < len,
            n < cfg.blocks@.len(),
            len == cfg.blocks@[n as int].statements@.len(),
            vs.wf(),
            vs.keys == vs0.keys,
            bounded ==> counts_within(*vs, bound + di),
            forall|k: (usize, bool)| #[trigger] vs.has(k) ==> vs.count(k) >= vs0.count(k),
            rename_ready(&*cfg),
            versions_ok(cfg.blocks@, orig),
            cfg.blocks@.len() == mid.len(),
            forall|k: int| 0 <= k < mid.len() && k != n ==> #[trigger] cfg.blocks@[k] == mid[k],
            forall|t: int| 0 <= t < len && t != si ==> #[trigger] cfg.blocks@[n as int].statements@[t] == mid[n as int].statements@[t],
            def_var(stmt_at(mid, n as int, si as int)) is None ==> def_var(stmt_at(cfg.blocks@, n as int, si as int)) is None,
            def_var(stmt_at(mid, n as int, si as int)) is Some && di == 0 ==> stmt_at(cfg.blocks@, n as int, si as int) == stmt_at(mid, n as int, si as int),
            bounded && def_var(stmt_at(mid, n as int, si as int)) is Some ==> defs@.len() == 1,
            def_var(stmt_at(mid, n as int, si as int)) matches Some(dv) ==> (bounded && di > 0 ==> def_var(stmt_at(cfg.blocks@, n as int, si as int))
                == Some((dv.0, vs0.count((dv.0, true)) as usize)) && vs.count((dv.0, true)) == vs0.count((dv.0, true)) + 1),
            cfg.graph == old(cfg).graph,
            cfg.def == old(cfg).def,
            cfg.uses == old(cfg).uses,
            cfg.dom_ctx == old(cfg).dom_ctx,
            cfg.stack_offset == old(cfg).stack_offset,
        decreases defs@.len() - di,
    {
        let a = defs[di];
        match a {
            Oper::Var(_, _) => {
                let ghost vs1 = *vs;
                proof {
                    if bounded && def_var(stmt_at(mid, n as int, si as int)) is Some {
                        assert(di == 0);
                        assert(a == defs@[0]);
                        assert(pos_ok(mid, n as int, si as int));
                        assert(vs0.has((def_var(stmt_at(mid, n as int, si as int))->Some_0.0, true)));
                        assert(vs1.has((a->Var_0, true)));
                    }
                }
                match vs.fresh(a.as_non_ssa()) {
                    Some(c) => {
                        let ghost before = cfg.blocks@;
                        cfg.blocks[n].statements[si].replace_oper_def_with_ssa(a, c);
                        proof {
                            let s0 = before[n as int].statements@[si as int];
                            let s1 = cfg.blocks@[n as int].statements@[si as int];
                            lemma_def_erase(s0, s1, a, c);
                            lemma_same_after_update(before, cfg.blocks@, n as int, si as int);
                            lemma_same_trans(cfg.blocks@, before, orig);
                            if !(stmt_at(mid, n as int, si as int) is ParallelCopy) {
                                lemma_def_uses(s0, s1, a, c);
                            }
                        }
                    },
                    None => {},
                }
                proof {
                    if bounded {
                        assert forall|k: (usize, bool)| #[trigger] vs.has(k) implies vs.count(k) <= bound + di + 1 by {
                            assert(vs1.has(k));
                        }
                    }
                    assert forall|k: (usize, bool)| #[trigger] vs.has(k) implies vs.count(k) >= vs0.count(k) by {
                        assert(vs1.has(k));
                    }
                }
            },
            _ => {},
        }
        di = di + 1;
    }
    proof {
        let fin = cfg.blocks@;
        let ef = erase_block(fin[n as int].statements@);
        let eo = erase_block(orig[n as int].statements@);
        assert(ef == eo);
        assert(ef[si as int] == erase_stmt(stmt_at(fin, n as int, si as int)));
        assert(eo[si as int] == erase_stmt(stmt_at(orig, n as int, si as int)));
        lemma_erase_kind(stmt_at(fin, n as int, si as int), stmt_at(orig, n as int, si as int));
    }
    proof { if bounded {
        let fin = cfg.blocks@;
        let here = stmt_at(fin, n as int, si as int);
        assert forall|k: int, t: int| pos_ok(fin, k, t) && !(k == n as int && t == si as int)
            implies #[trigger] stmt_at(fin, k, t) == stmt_at(mid, k, t) by {
            if k != n as int {
                assert(fin[k] == mid[k]);
            }
        }
        assert forall|k: int| 0 <= k < fin.len() implies (#[trigger] fin[k]).statements@.len() == mid[k].statements@.len() by {
            if k != n as int {
                assert(fin[k] == mid[k]);
            }
        }
        assert forall|b: int, t: int| #![trigger def_var(stmt_at(fin, b, t))]
            pos_ok(fin, b, t) && def_var(stmt_at(fin, b, t)) is Some implies vs.has((def_var(stmt_at(fin, b, t))->Some_0.0, true)) by {
            assert(pos_ok(mid, b, t));
            if b == n as int && t == si as int {
                assert(def_var(stmt_at(mid, b, t)) is Some);
            }
        }
        assert forall|b: int, t: int| #![trigger def_var(stmt_at(fin, b, t))]
            pos_ok(fin, b, t) && handled(vis, n as int, si + 1, b, t) && def_var(stmt_at(fin, b, t)) is Some
            implies def_var(stmt_at(fin, b, t))->Some_0.1 < vs.count((def_var(stmt_at(fin, b, t))->Some_0.0, true)) by {
            assert(pos_ok(mid, b, t));
            if b == n as int && t == si as int {
                assert(def_var(stmt_at(mid, b, t)) is Some);
            } else {
                assert(handled(vis, n as int, si as int, b, t));
                assert(def_var(stmt_at(mid, b, t)) == def_var(stmt_at(fin, b, t)));
                assert(vs0.has((def_var(stmt_at(mid, b, t))->Some_0.0, true)));
            }
        }
        assert forall|b1: int, s1: int, b2: int, s2: int|
            #![trigger def_var(stmt_at(fin, b1, s1)), def_var(stmt_at(fin, b2, s2))]
            pos_ok(fin, b1, s1) && pos_ok(fin, b2, s2) && handled(vis, n as int, si + 1, b1, s1) && handled(vis, n as int, si + 1, b2, s2)
                && (b1 != b2 || s1 != s2) && def_var(stmt_at(fin, b1, s1)) is Some
            implies def_var(stmt_at(fin, b1, s1)) != def_var(stmt_at(fin, b2, s2)) by {
            assert(pos_ok(mid, b1, s1) && pos_ok(mid, b2, s2));
            let here1 = b1 == n as int && s1 == si as int;
            let here2 = b2 == n as int && s2 == si as int;
            if !here1 && !here2 {
                assert(def_var(stmt_at(mid, b1, s1)) == def_var(stmt_at(fin, b1, s1)));
                assert(def_var(stmt_at(mid, b2, s2)) == def_var(stmt_at(fin, b2, s2)));
                assert(handled(vis, n as int, si as int, b1, s1));
                assert(handled(vis, n as int, si as int, b2, s2));
            } else if here1 {
                assert(def_var(stmt_at(mid, b1, s1)) is Some);
                if def_var(stmt_at(fin, b2, s2)) is Some {
                    assert(def_var(stmt_at(mid, b2, s2)) == def_var(stmt_at(fin, b2, s2)));
                    assert(handled(vis, n as int, si as int, b2, s2));
                    assert(vs0.has((def_var(stmt_at(mid, b2, s2))->Some_0.0, true)));
                }
            } else {
                assert(def_var(stmt_at(mid, b1, s1)) == def_var(stmt_at(fin, b1, s1)));
                assert(handled(vis, n as int, si as int, b1, s1));
                assert(vs0.has((def_var(stmt_at(mid, b1, s1))->Some_0.0, true)));
                if def_var(stmt_at(fin, b2, s2)) is Some {
                    assert(def_var(stmt_at(mid, b2, s2)) is Some);
                }
            }
        }
    } }
}

/// Renames the variables of block `n`, the phi arguments it feeds in its
/// successors, and then the blocks it immediately dominates, taking and
/// giving back versions on the stacks.
fn rename(cfg: &mut CFG, n: usize, vs: &mut Versions, Ghost(vis): Ghost<Set<int>>, Ghost(bounded): Ghost<bool>, Ghost(plain): Ghost<bool>, Ghost(agree): Ghost<bool>) -> (done: Ghost<Set<int>>)
    requires
        rename_ready(&*old(cfg)),
        n < old(cfg).blocks@.len(),
        old(vs).wf(),
        bounded ==> forall|b: int| #[trigger] under(old(cfg).dom_ctx.idom@, b, n as int) ==> !vis.contains(b),
        bounded ==> renamed_so_far(old(cfg).blocks@, vis, n as int, 0, *old(vs)),
        bounded ==> counts_within(*old(vs), weight(old(cfg).blocks@, vis, old(cfg).blocks@.len() as int) as int),
        bounded ==> weight(old(cfg).blocks@, Set::new(|b: int| true), old(cfg).blocks@.len() as int) < usize::MAX,
        plain ==> bounded,
        plain ==> copy_free(old(cfg).blocks@),
        plain ==> forall|b: int| vis.contains(b) ==> 0 <= b < old(cfg).blocks@.len(),
        plain ==> forall|v: usize| #[trigger] old(vs).has((v, true)) ==> old(vs).stack((v, true)).len() > 0
            && old(vs).stack((v, true)).last() == entry_version(old(cfg).blocks@, old(cfg).dom_ctx.idom@, v, n as int),
        plain ==> forall|b: int| vis.contains(b) ==> #[trigger] uses_ok(old(cfg).blocks@, old(cfg).dom_ctx.idom@, b, key_vars(old(vs).keys@)),
        plain && agree ==> edges_agree(old(cfg).graph.succs(), old(cfg).graph.preds(), old(cfg).blocks@.len() as int),
        plain && agree ==> forall|p: int| vis.contains(p) ==> #[trigger] succ_phis_ok(old(cfg).blocks@, old(cfg).dom_ctx.idom@,
            old(cfg).graph.succs(), old(cfg).graph.preds(), p, key_vars(old(vs).keys@)),
    ensures
        final(vs).wf(),
        final(vs).keys == old(vs).keys,
        versions_ok(final(cfg).blocks@, old(cfg).blocks@),
        final(cfg).graph == old(cfg).graph,
        final(cfg).def == old(cfg).def,
        final(cfg).uses == old(cfg).uses,
        final(cfg).dom_ctx == old(cfg).dom_ctx,
        final(cfg).stack_offset == old(cfg).stack_offset,
        bounded ==> done@ == vis.union(subtree(old(cfg).dom_ctx.idom@, n as int, old(cfg).blocks@.len() as int)),
        bounded ==> renamed_so_far(final(cfg).blocks@, done@, -1, 0, *final(vs)),
        bounded ==> counts_within(*final(vs), weight(old(cfg).blocks@, done@, old(cfg).blocks@.len() as int) as int),
        plain ==> forall|v: usize| #[trigger] final(vs).has((v, true)) ==> final(vs).stack((v, true)) == old(vs).stack((v, true)),
        plain ==> forall|b: int| done@.contains(b) ==> #[trigger] uses_ok(final(cfg).blocks@, old(cfg).dom_ctx.idom@, b, key_vars(old(vs).keys@)),
        plain ==> forall|a: int| 0 <= a < old(cfg).blocks@.len() && !under(old(cfg).dom_ctx.idom@, a, n as int)
            ==> #[trigger] same_plain(final(cfg).blocks@, old(cfg).blocks@, a),
        plain && agree ==> forall|p: int| done@.contains(p) ==> #[trigger] succ_phis_ok(final(cfg).blocks@, old(cfg).dom_ctx.idom@,
            old(cfg).graph.succs(), old(cfg).graph.preds(), p, key_vars(old(vs).keys@)),
    decreases old(cfg).blocks@.len() - n,
{
    let ghost orig = cfg.blocks@;
    let ghost nb = orig.len() as int;
    let ghost idom = cfg.dom_ctx.idom@;
    let ghost full = Set::new(|b: int| true);
    let ghost w0 = weight(orig, vis, nb);
    let nblocks = cfg.blocks.len();
    let ghost wn = def_weight(erase_block(orig[n as int].statements@));
    proof {
        lemma_same_refl(orig);
        assert(under(idom, n as int, n as int));
        if bounded {
            lemma_weight_insert(orig, vis, n as int, nb);
            lemma_weight_subset(orig, vis.insert(n as int), full, nb);
        }
        assert(erase_block(orig[n as int].statements@).take(0) =~= Seq::<StmtV>::empty());
        assert(bounded ==> !vis.contains(n as int));
    }
    let len = cfg.blocks[n].statements.len();
    let mut si: usize = 0;
    while si < len
        invariant
            si <= len,
            n < cfg.blocks@.len(),
            len == cfg.blocks@[n as int].statements@.len(),
            vs.wf(),
            vs.keys == old(vs).keys,
            rename_ready(&*cfg),
            versions_ok(cfg.blocks@, orig),
            orig == old(cfg).blocks@,
            cfg.graph == old(cfg).graph,
            cfg.def == old(cfg).def,
            cfg.uses == old(cfg).uses,
            cfg.dom_ctx == old(cfg).dom_ctx,
            cfg.stack_offset == old(cfg).stack_offset,
            bounded ==> renamed_so_far(cfg.blocks@, vis, n as int, si as int, *vs),
            bounded ==> counts_within(*vs, (w0 + def_weight(erase_block(orig[n as int].statements@).take(si as int))) as int),
            bounded ==> w0 + wn < usize::MAX,
            wn == def_weight(erase_block(orig[n as int].statements@)),
            plain ==> bounded,
            plain ==> copy_free(cfg.blocks@),
            plain ==> copy_free(orig),
            plain ==> forall|v: usize| #[trigger] old(vs).has((v, true)) ==> old(vs).stack((v, true)).len() > 0
                && old(vs).stack((v, true)).last() == entry_version(orig, idom, v, n as int),
            plain ==> forall|b: int| vis.contains(b) ==> 0 <= b < orig.len(),
            bounded ==> forall|b: int| #[trigger] under(idom, b, n as int) ==> !vis.contains(b),
            cfg.blocks@.len() == orig.len(),
            plain ==> forall|a: int| 0 <= a < orig.len() && a != n ==> #[trigger] cfg.blocks@[a] == orig[a],
            plain ==> forall|t: int| si <= t < len ==> #[trigger] cfg.blocks@[n as int].statements@[t] == orig[n as int].statements@[t],
            plain ==> forall|v: usize| #[trigger] vs.has((v, true)) ==> vs.stack((v, true)) == old(vs).stack((v, true)) + defs_of(cfg.blocks@, v, n as int, si as int),
            plain ==> forall|s: int| 0 <= s < si ==> #[trigger] stmt_uses_ok(cfg.blocks@, idom, n as int, s, key_vars(old(vs).keys@)),
            plain ==> forall|b: int| vis.contains(b) ==> #[trigger] uses_ok(cfg.blocks@, idom, b, key_vars(old(vs).keys@)),
            plain && agree ==> forall|p: int| vis.contains(p) ==> #[trigger] succ_phis_ok(cfg.blocks@, idom,
                cfg.graph.succs(), cfg.graph.preds(), p, key_vars(old(vs).keys@)),
            idom == cfg.dom_ctx.idom@,
            nb == nblocks,
            nb == orig.len(),
        decreases len - si,
    {
        let ghost cur = cfg.blocks@;
        let ghost vc = *vs;
        proof {
            let eb = erase_block(orig[n as int].statements@);
            lemma_def_weight_prefix(eb, si as int);
            assert(erase_block(cfg.blocks@[n as int].statements@) == eb);
            assert(eb[si as int] == erase_stmt(stmt_at(cfg.blocks@, n as int, si as int)));
            lemma_erase_defs_len(stmt_at(cfg.blocks@, n as int, si as int));
        }
        rename_statement(cfg, n, si, vs, Ghost(vis), Ghost((w0 + def_weight(erase_block(orig[n as int].statements@).take(si as int))) as int), Ghost(bounded));
        proof {
            if plain {
                let new = cfg.blocks@;
                lemma_copy_free_keep(new, orig);
                assert(pos_ok(cur, n as int, si as int));
                assert(erase_block(new[n as int].statements@) == erase_block(cur[n as int].statements@)) by {
                    assert(erase_block(new[n as int].statements@) == erase_block(orig[n as int].statements@));
                    assert(erase_block(cur[n as int].statements@) == erase_block(orig[n as int].statements@));
                }
                assert(erase_block(new[n as int].statements@)[si as int] == erase_stmt(stmt_at(new, n as int, si as int)));
                assert(erase_block(cur[n as int].statements@)[si as int] == erase_stmt(stmt_at(cur, n as int, si as int)));
                lemma_erase_kind(stmt_at(new, n as int, si as int), stmt_at(cur, n as int, si as int));
                assert forall|a: int| #[trigger] under(idom, n as int, a) && a != n as int implies cur[a] == orig[a] by {
                    lemma_under_below(idom, n as int, a);
                    lemma_under_nonneg(idom, n as int, a);
                }
                assert forall|a: int| #[trigger] under(idom, n as int, a) && a != n as int implies defs_agree(orig, cur, a) by {
                    lemma_under_below(idom, n as int, a);
                    lemma_under_nonneg(idom, n as int, a);
                }
                assert forall|v: usize| #[trigger] old(vs).has((v, true)) implies old(vs).stack((v, true)).len() > 0
                    && old(vs).stack((v, true)).last() == entry_version(cur, idom, v, n as int) by {
                    lemma_entry_frame(orig, cur, idom, v, n as int);
                }
                lemma_statement_renamed(cur, new, idom, n as int, si as int, *old(vs), vc, *vs);
                assert forall|b: int| vis.contains(b) implies #[trigger] uses_ok(new, idom, b, key_vars(old(vs).keys@)) by {
                    assert forall|a: int| #[trigger] under(idom, b, a) implies same_plain(cur, new, a) by {
                        lemma_under_below(idom, b, a);
                        lemma_under_nonneg(idom, b, a);
                        if a == n as int {
                            assert(under(idom, b, n as int));
                        }
                        lemma_same_plain_eq(cur, new, a);
                    }
                    lemma_uses_frame(cur, new, idom, b, key_vars(old(vs).keys@));
                }
                assert forall|a: int| 0 <= a < orig.len() && a != n implies #[trigger] new[a] == orig[a] by {
                    assert(cur[a] == orig[a]);
                }
                assert forall|t: int| si + 1 <= t < len implies #[trigger] new[n as int].statements@[t] == orig[n as int].statements@[t] by {
                    assert(cur[n as int].statements@[t] == orig[n as int].statements@[t]);
                }
                if agree {
                    let succs = cfg.graph.succs();
                    let preds = cfg.graph.preds();
                    let h = key_vars(old(vs).keys@);
                    assert forall|p: int| vis.contains(p) implies #[trigger] succ_phis_ok(new, idom, succs, preds, p, h) by {
                        assert(succ_phis_ok(cur, idom, succs, preds, p, h));
                        assert forall|y: usize, t: int| succs[p as usize].contains(y) && 0 <= t < new[y as int].statements@.len()
                            implies #[trigger] phi_slot_ok(new, idom, p, y as int, t, slot_of(preds, y, p as usize), h) by {
                            assert(rename_ready(&*cfg));
                            assert(0 <= p < cfg.blocks@.len());
                            assert(cfg.blocks@.len() == orig.len());
                            assert(nb == orig.len());
                            assert(nb <= usize::MAX);
                            assert(0 <= p <= usize::MAX);
                            assert((p as usize) as int == p);
                            assert(cfg.graph.succs()[(p as usize)].contains(y));
                            assert(y < nb);
                            if y as int != n as int {
                                assert(new[y as int] == cur[y as int]);
                            } else if t != si as int {
                                assert(new[y as int].statements@[t] == cur[y as int].statements@[t]);
                            }
                            assert(phi_slot_ok(cur, idom, p, y as int, t, slot_of(preds, y, p as usize), h));
                            assert forall|a: int| #[trigger] under(idom, p, a) implies defs_agree(cur, new, a) by {
                                lemma_under_below(idom, p, a);
                                lemma_under_nonneg(idom, p, a);
                                if a == n as int {
                                    assert(under(idom, p, n as int));
                                }
                                lemma_same_plain_eq(cur, new, a);
                            }
                            lemma_slot_frame(cur, new, idom, p, y as int, t, slot_of(preds, y, p as usize), h);
                        }
                    }
                }
            }
        }
        si = si + 1;
    }
    let ghost vis1 = vis.insert(n as int);
    proof {
        assert(erase_block(orig[n as int].statements@).take(len as int) =~= erase_block(orig[n as int].statements@));
        if bounded {
            lemma_handled_block(cfg.blocks@, vis, n as int, *vs);
            assert(weight(orig, vis1, nb) == w0 + wn);
        }
    }
    let ghost b1 = cfg.blocks@;
    let ghost vs_st = *vs;
    let ghost h = key_vars(old(vs).keys@);
    proof {
        if plain {
            assert forall|v: usize| #[trigger] vs_st.has((v, true)) implies vs_st.stack((v, true)).len() > 0
                && vs_st.stack((v, true)).last() == reaching_version(b1, idom, v, n as int, len as int)
                && vs_st.stack((v, true)) == old(vs).stack((v, true)) + defs_of(b1, v, n as int, len as int) by {
                assert(old(vs).has((v, true)));
                assert forall|a: int| #[trigger] under(idom, n as int, a) && a != n as int implies defs_agree(orig, b1, a) by {
                    lemma_under_below(idom, n as int, a);
                    lemma_under_nonneg(idom, n as int, a);
                }
                lemma_entry_frame(orig, b1, idom, v, n as int);
            }
            assert(uses_ok(b1, idom, n as int, h));
            assert forall|a: int| 0 <= a < nb implies #[trigger] same_plain(b1, b1, a) by {}
        }
    }
    match cfg.graph.succ.get(&n) {
        Some(ss) => {
            let ys = elements(ss);
            let mut q: usize = 0;
            while q < ys.len()
                invariant
                    q <= ys@.len(),
                    n < cfg.blocks@.len(),
                    ys@.to_set() == cfg.graph.succs()[n],
                    vs.wf(),
                    rename_ready(&*cfg),
                    versions_ok(cfg.blocks@, orig),
                    bounded ==> renamed_so_far(cfg.blocks@, vis1, -1, 0, *vs),
                    cfg.graph == old(cfg).graph,
                    cfg.def == old(cfg).def,
                    cfg.uses == old(cfg).uses,
                    cfg.dom_ctx == old(cfg).dom_ctx,
                    cfg.stack_offset == old(cfg).stack_offset,
                    *vs == vs_st,
                    idom == cfg.dom_ctx.idom@,
                    nb == orig.len(),
                    b1.len() == nb,
                    plain ==> forall|b: int| vis1.contains(b) ==> 0 <= b < nb,
                    plain ==> forall|a: int| 0 <= a < nb ==> #[trigger] same_plain(cfg.blocks@, b1, a),
                    plain ==> forall|b: int| vis1.contains(b) ==> #[trigger] uses_ok(cfg.blocks@, idom, b, h),
                    ys@.no_duplicates(),
                    plain && agree ==> edges_agree(cfg.graph.succs(), cfg.graph.preds(), nb),
                    plain ==> forall|b: int| vis.contains(b) ==> 0 <= b < nb,
                    nb == nblocks,
                    plain ==> !vis.contains(n as int),
                    plain && agree ==> forall|p: int| vis.contains(p) ==> #[trigger] succ_phis_ok(cfg.blocks@, idom,
                        cfg.graph.succs(), cfg.graph.preds(), p, h),
                    plain && agree ==> forall|y: usize, t: int| ys@.take(q as int).contains(y) && 0 <= t < cfg.blocks@[y as int].statements@.len()
                        ==> #[trigger] phi_slot_ok(cfg.blocks@, idom, n as int, y as int, t, slot_of(cfg.graph.preds(), y, n), h),
                    plain ==> forall|v: usize| #[trigger] vs_st.has((v, true)) ==> vs_st.stack((v, true)).len() > 0
                        && vs_st.stack((v, true)).last() == reaching_version(b1, idom, v, n as int, len as int),
                    len == b1[n as int].statements@.len(),
                    vs_st.keys == old(vs).keys,
                    h == key_vars(old(vs).keys@),
                decreases ys@.len() - q,
            {
                let y = ys[q];
                assert(ys@.to_set().contains(y));
                assert(cfg.graph.succs()[n].contains(y));
                let j = match cfg.graph.pred.get(&y) {
                    Some(ps) => pred_rank(ps, n),
                    None => 0,
                };
                let m = cfg.blocks[y].statements.len();
                let mut t: usize = 0;
                while t < m
                    invariant
                        t <= m,
                        y < cfg.blocks@.len(),
                        n < cfg.blocks@.len(),
                        m == cfg.blocks@[y as int].statements@.len(),
                        vs.wf(),
                        rename_ready(&*cfg),
                        versions_ok(cfg.blocks@, orig),
                        bounded ==> renamed_so_far(cfg.blocks@, vis1, -1, 0, *vs),
                        cfg.graph == old(cfg).graph,
                        cfg.def == old(cfg).def,
                        cfg.uses == old(cfg).uses,
                        cfg.dom_ctx == old(cfg).dom_ctx,
                        cfg.stack_offset == old(cfg).stack_offset,
                        *vs == vs_st,
                        idom == cfg.dom_ctx.idom@,
                        nb == orig.len(),
                        b1.len() == nb,
                        plain ==> forall|b: int| vis1.contains(b) ==> 0 <= b < nb,
                        plain ==> forall|a: int| 0 <= a < nb ==> #[trigger] same_plain(cfg.blocks@, b1, a),
                        plain ==> forall|b: int| vis1.contains(b) ==> #[trigger] uses_ok(cfg.blocks@, idom, b, h),
                        ys@.no_duplicates(),
                        q < ys@.len(),
                        y == ys@[q as int],
                        cfg.graph.succs()[n].contains(y),
                        plain && agree ==> edges_agree(cfg.graph.succs(), cfg.graph.preds(), nb),
                        plain ==> forall|b: int| vis.contains(b) ==> 0 <= b < nb,
                        nb == nblocks,
                        plain ==> !vis.contains(n as int),
                        ys@.to_set() == cfg.graph.succs()[n],
                        plain && agree ==> cfg.graph.preds().contains_key(y) && cfg.graph.preds()[y].finite()
                            && j == slot_of(cfg.graph.preds(), y, n),
                        plain && agree ==> forall|p: int| vis.contains(p) ==> #[trigger] succ_phis_ok(cfg.blocks@, idom,
                            cfg.graph.succs(), cfg.graph.preds(), p, h),
                        plain && agree ==> forall|y2: usize, u: int| ys@.take(q as int).contains(y2) && 0 <= u < cfg.blocks@[y2 as int].statements@.len()
                            ==> #[trigger] phi_slot_ok(cfg.blocks@, idom, n as int, y2 as int, u, slot_of(cfg.graph.preds(), y2, n), h),
                        plain && agree ==> forall|u: int| 0 <= u < t ==> #[trigger] phi_slot_ok(cfg.blocks@, idom, n as int, y as int, u, j as int, h),
                        plain ==> forall|v: usize| #[trigger] vs_st.has((v, true)) ==> vs_st.stack((v, true)).len() > 0
                            && vs_st.stack((v, true)).last() == reaching_version(b1, idom, v, n as int, len as int),
                        len == b1[n as int].statements@.len(),
                        vs_st.keys == old(vs).keys,
                        h == key_vars(old(vs).keys@),
                    decreases m - t,
                {
                    let ghost before = cfg.blocks@;
                    let ghost nbs = cfg.blocks@.len();
                    rename_phi_arg(&mut cfg.blocks[y].statements[t], j, n, vs, Ghost(nbs));
                    proof {
                        lemma_same_after_update(before, cfg.blocks@, y as int, t as int);
                        lemma_same_trans(cfg.blocks@, before, orig);
                        assert forall|k: int| 0 <= k < before.len() implies (#[trigger] before[k]).statements@.len() == cfg.blocks@[k].statements@.len() by {
                            if k != y as int {
                                assert(before[k] == cfg.blocks@[k]);
                            }
                        }
                        assert forall|k: int, u: int| pos_ok(before, k, u) implies #[trigger] def_var(stmt_at(before, k, u)) == def_var(stmt_at(cfg.blocks@, k, u)) by {
                            if k != y as int {
                                assert(before[k] == cfg.blocks@[k]);
                            } else if u != t as int {
                                assert(before[k].statements@[u] == cfg.blocks@[k].statements@[u]);
                            }
                        }
                        if bounded {
                            lemma_renamed_transfer(before, cfg.blocks@, vis1, -1, 0, *vs);
                        }
                        if plain {
                            let new = cfg.blocks@;
                            let s0 = before[y as int].statements@[t as int]@;
                            lemma_phi_arg_plain(s0, j as int, n, *vs);
                            assert forall|a: int| 0 <= a < nb implies #[trigger] same_plain(new, before, a) && same_plain(new, b1, a) by {
                                if a != y as int {
                                    lemma_same_plain_eq(new, before, a);
                                } else {
                                    assert forall|u: int| 0 <= u < new[a].statements@.len() implies #[trigger] def_var(stmt_at(new, a, u)) == def_var(stmt_at(before, a, u)) by {
                                        assert(pos_ok(before, a, u));
                                    }
                                    assert forall|u: int| 0 <= u < new[a].statements@.len() implies #[trigger] is_phi(stmt_at(new, a, u)) == is_phi(stmt_at(before, a, u)) by {
                                        if u != t as int {
                                            assert(before[a].statements@[u] == new[a].statements@[u]);
                                        }
                                    }
                                    assert forall|u: int| 0 <= u < new[a].statements@.len() && !is_phi(stmt_at(before, a, u)) implies #[trigger] stmt_at(new, a, u) == stmt_at(before, a, u) by {
                                        if u != t as int {
                                            assert(before[a].statements@[u] == new[a].statements@[u]);
                                        }
                                    }
                                }
                                assert(same_plain(before, b1, a));
                                lemma_same_plain_trans(new, before, b1, a);
                            }
                            assert forall|a: int| 0 <= a < nb implies #[trigger] same_plain(new, b1, a) by {
                                assert(same_plain(new, before, a) && same_plain(new, b1, a));
                            }
                            if agree {
                                lemma_phi_arg_slots(s0, j as int, n, *vs);
                                let preds = cfg.graph.preds();
                                let succs = cfg.graph.succs();
                                assert forall|a: int| 0 <= a < nb implies #[trigger] defs_agree(before, new, a) by {
                                    assert(same_plain(new, before, a));
                                    lemma_same_plain_sym(new, before, a);
                                }
                                // the slot of `n` in this statement
                                assert forall|a: int| #[trigger] under(idom, n as int, a) implies defs_agree(b1, new, a) by {
                                    lemma_under_below(idom, n as int, a);
                                    lemma_under_nonneg(idom, n as int, a);
                                    assert(same_plain(new, b1, a));
                                    lemma_same_plain_sym(new, b1, a);
                                }
                                assert(phi_slot_ok(new, idom, n as int, y as int, t as int, j as int, h)) by {
                                    if let StmtV::Tac(_, ExprV::Phi(a2)) = stmt_at(new, y as int, t as int) {
                                        if 0 <= j < a2.len() && a2[j as int].0 is Var && h(a2[j as int].0->Var_0) {
                                            let w = a2[j as int].0->Var_0;
                                            assert(vs_st.has((w, true)));
                                            assert(under(idom, n as int, n as int));
                                            assert(defs_agree(b1, new, n as int));
                                            assert forall|a: int| #[trigger] under(idom, n as int, a) && a != n as int implies defs_agree(b1, new, a) by {}
                                            assert forall|u: int| 0 <= u < len implies #[trigger] def_var(stmt_at(b1, n as int, u)) == def_var(stmt_at(new, n as int, u)) by {}
                                            lemma_reach_frame(b1, new, idom, w, n as int, len as int);
                                        }
                                    }
                                }
                                assert forall|u: int| 0 <= u < t + 1 implies #[trigger] phi_slot_ok(new, idom, n as int, y as int, u, j as int, h) by {
                                    if u < t {
                                        assert(new[y as int].statements@[u] == before[y as int].statements@[u]);
                                        lemma_slot_frame(before, new, idom, n as int, y as int, u, j as int, h);
                                    }
                                }
                                assert forall|y2: usize, u: int| ys@.take(q as int).contains(y2) && 0 <= u < new[y2 as int].statements@.len()
                                    implies #[trigger] phi_slot_ok(new, idom, n as int, y2 as int, u, slot_of(preds, y2, n), h) by {
                                    let k = choose|k: int| 0 <= k < q && ys@.take(q as int)[k] == y2;
                                    assert(ys@[k] == y2);
                                    assert(y2 != y);
                                    assert(ys@.contains(y2));
                                    assert(ys@.to_set().contains(y2));
                                    assert(y2 < nb);
                                    assert(new[y2 as int] == before[y2 as int]);
                                    lemma_slot_frame(before, new, idom, n as int, y2 as int, u, slot_of(preds, y2, n), h);
                                }
                                assert forall|p: int| vis.contains(p) implies #[trigger] succ_phis_ok(new, idom, succs, preds, p, h) by {
                                    assert(succ_phis_ok(before, idom, succs, preds, p, h));
                                    assert forall|y2: usize, u: int| succs[p as usize].contains(y2) && 0 <= u < new[y2 as int].statements@.len()
                                        implies #[trigger] phi_slot_ok(new, idom, p, y2 as int, u, slot_of(preds, y2, p as usize), h) by {
                                        assert(0 <= p < nb);
                                        assert((p as usize) as int == p);
                                        assert(y2 < nb);
                                        assert(phi_slot_ok(before, idom, p, y2 as int, u, slot_of(preds, y2, p as usize), h));
                                        if y2 == y && u == t as int {
                                            assert(p != n as int);
                                            assert(preds[y].contains(p as usize));
                                            assert(preds[y].contains(n));
                                            lemma_slot_distinct(preds[y], p as usize, n);
                                        } else if y2 != y {
                                            assert(new[y2 as int] == before[y2 as int]);
                                        } else {
                                            assert(new[y2 as int].statements@[u] == before[y2 as int].statements@[u]);
                                        }
                                        assert forall|a: int| #[trigger] under(idom, p, a) implies defs_agree(before, new, a) by {
                                            lemma_under_below(idom, p, a);
                                            lemma_under_nonneg(idom, p, a);
                                        }
                                        lemma_slot_frame(before, new, idom, p, y2 as int, u, slot_of(preds, y2, p as usize), h);
                                    }
                                }
                            }
                            assert forall|b: int| vis1.contains(b) implies #[trigger] uses_ok(new, idom, b, h) by {
                                assert forall|a: int| #[trigger] under(idom, b, a) implies same_plain(before, new, a) by {
                                    lemma_under_below(idom, b, a);
                                    lemma_under_nonneg(idom, b, a);
                                    lemma_same_plain_sym(new, before, a);
                                }
                                lemma_uses_frame(before, new, idom, b, h);
                            }
                        }
                    }
                    t = t + 1;
                }
                q = q + 1;
            }
            proof {
                if plain && agree {
                    assert(ys@.take(ys@.len() as int) =~= ys@);
                    assert forall|y: usize, t: int| cfg.graph.succs()[n].contains(y) && 0 <= t < cfg.blocks@[y as int].statements@.len()
                        implies #[trigger] phi_slot_ok(cfg.blocks@, idom, n as int, y as int, t, slot_of(cfg.graph.preds(), y, n), h) by {
                        assert(ys@.to_set().contains(y));
                        assert(ys@.take(ys@.len() as int).contains(y));
                    }
                    assert(succ_phis_ok(cfg.blocks@, idom, cfg.graph.succs(), cfg.graph.preds(), n as int, h));
                }
            }
        },
        None => {
            proof {
                assert(cfg.graph.succs().contains_key(n));
            }
        },
    }
    let nidom = cfg.dom_ctx.idom.len();
    let ghost mut cur = vis1;
    let ghost b2 = cfg.blocks@;
    let mut x: usize = 0;
    proof {
        if bounded {
            assert(cur =~= vis1.union(kids_below(idom, n as int, 0, nb)));
        }
        if plain {
            lemma_copy_free_keep(b2, orig);
            assert forall|a: int| 0 <= a < nb && !kids_below(idom, n as int, 0, nb).contains(a) implies #[trigger] same_plain(b2, b2, a) by {}
        }
    }
    while x < nidom
        invariant
            x <= nidom,
            nidom == cfg.dom_ctx.idom@.len(),
            nidom == nb,
            n < cfg.blocks@.len(),
            vs.wf(),
            vs.keys == old(vs).keys,
            rename_ready(&*cfg),
            versions_ok(cfg.blocks@, orig),
            orig == old(cfg).blocks@,
            nb == orig.len(),
            idom == cfg.dom_ctx.idom@,
            cfg.graph == old(cfg).graph,
            cfg.def == old(cfg).def,
            cfg.uses == old(cfg).uses,
            cfg.dom_ctx == old(cfg).dom_ctx,
            cfg.stack_offset == old(cfg).stack_offset,
            vis1 == vis.insert(n as int),
            bounded ==> forall|b: int| #[trigger] under(idom, b, n as int) ==> !vis.contains(b),
            bounded ==> cur == vis1.union(kids_below(idom, n as int, x as int, nb)),
            bounded ==> renamed_so_far(cfg.blocks@, cur, -1, 0, *vs),
            bounded ==> counts_within(*vs, weight(orig, cur, nb) as int),
            bounded ==> weight(orig, full, nb) < usize::MAX,
            full == Set::new(|b: int| true),
            plain ==> bounded,
            plain ==> copy_free(cfg.blocks@),
            plain ==> forall|b: int| vis.contains(b) ==> 0 <= b < nb,
            plain ==> forall|v: usize| #[trigger] vs.has((v, true)) ==> vs.stack((v, true)) == vs_st.stack((v, true)),
            plain ==> forall|b: int| cur.contains(b) ==> 0 <= b < nb,
            vs_st.keys == old(vs).keys,
            b1.len() == nb,
            b2.len() == nb,
            len == b1[n as int].statements@.len(),
            h == key_vars(old(vs).keys@),
            plain ==> forall|v: usize| #[trigger] vs_st.has((v, true)) ==> vs_st.stack((v, true)).len() > 0
                && vs_st.stack((v, true)).last() == reaching_version(b1, idom, v, n as int, len as int)
                && vs_st.stack((v, true)) == old(vs).stack((v, true)) + defs_of(b1, v, n as int, len as int),
            plain ==> forall|v: usize| #[trigger] old(vs).has((v, true)) ==> old(vs).stack((v, true)).len() > 0,
            plain ==> copy_free(orig),
            plain ==> forall|a: int| 0 <= a < nb ==> #[trigger] same_plain(b2, b1, a),
            plain ==> forall|a: int| 0 <= a < nb && !kids_below(idom, n as int, x as int, nb).contains(a) ==> #[trigger] same_plain(cfg.blocks@, b2, a),
            plain ==> forall|b: int| cur.contains(b) ==> #[trigger] uses_ok(cfg.blocks@, idom, b, h),
            plain && agree ==> edges_agree(cfg.graph.succs(), cfg.graph.preds(), nb),
            plain && agree ==> forall|p: int| cur.contains(p) ==> #[trigger] succ_phis_ok(cfg.blocks@, idom,
                cfg.graph.succs(), cfg.graph.preds(), p, h),
        decreases nidom - x,
    {
        match cfg.dom_ctx.idom[x] {
            Some(d) => {
                if d == n {
                    assert(cfg.dom_ctx.idom@[x as int] matches Some(p) ==> (p as int) < x);
                    let ghost before = cfg.blocks@;
                    proof {
                        if bounded {
                            lemma_child_fresh(idom, vis, n as int, x as int, nb);
                            lemma_handled_shift(cfg.blocks@, cur, x as int, *vs);
                            lemma_weight_same(cfg.blocks@, orig, cur, nb);
                            lemma_weight_same(cfg.blocks@, orig, full, nb);
                        }
                    }
                    let ghost vsb = *vs;
                    proof {
                        if plain {
                            assert(under(idom, n as int, n as int));
                            lemma_anc_not_kid(idom, n as int, n as int, x as int, nb);
                            assert(same_plain(before, b2, n as int));
                            assert(same_plain(b2, b1, n as int));
                            lemma_same_plain_trans(before, b2, b1, n as int);
                            assert forall|a: int| #[trigger] under(idom, n as int, a) && a != n as int implies defs_agree(b1, before, a) by {
                                lemma_under_below(idom, n as int, a);
                                lemma_under_nonneg(idom, n as int, a);
                                lemma_anc_not_kid(idom, n as int, a, x as int, nb);
                                assert(same_plain(before, b2, a));
                                assert(same_plain(b2, b1, a));
                                lemma_same_plain_trans(before, b2, b1, a);
                                lemma_same_plain_sym(before, b1, a);
                            }
                            assert forall|t: int| 0 <= t < len implies #[trigger] def_var(stmt_at(b1, n as int, t)) == def_var(stmt_at(before, n as int, t)) by {}
                            assert forall|v: usize| #[trigger] vs.has((v, true)) implies vs.stack((v, true)).len() > 0
                                && vs.stack((v, true)).last() == entry_version(before, idom, v, x as int) by {
                                assert(vs_st.has((v, true)));
                                lemma_reach_frame(b1, before, idom, v, n as int, len as int);
                            }
                        }
                    }
                    let Ghost(got) = rename(cfg, x, vs, Ghost(cur), Ghost(bounded), Ghost(plain), Ghost(agree));
                    proof {
                        lemma_same_trans(cfg.blocks@, before, orig);
                        lemma_weight_same(before, orig, got, nb);
                        if bounded {
                            assert(got =~= vis1.union(kids_below(idom, n as int, x + 1, nb)));
                        }
                        if plain {
                            let after = cfg.blocks@;
                            assert forall|v: usize| #[trigger] vs.has((v, true)) implies vs.stack((v, true)) == vs_st.stack((v, true)) by {
                                assert(vsb.has((v, true)));
                            }
                            lemma_copy_free_keep(after, before);
                            assert forall|a: int| 0 <= a < nb && !kids_below(idom, n as int, x + 1, nb).contains(a)
                                implies #[trigger] same_plain(after, b2, a) by {
                                if under(idom, a, x as int) {
                                    assert(under(idom, a, x as int));
                                    assert(kids_below(idom, n as int, x + 1, nb).contains(a));
                                }
                                assert(!kids_below(idom, n as int, x as int, nb).contains(a)) by {
                                    if kids_below(idom, n as int, x as int, nb).contains(a) {
                                        let c = choose|c: int| 0 <= c < x && idom[c] == Some(n as usize) && #[trigger] under(idom, a, c);
                                        assert(kids_below(idom, n as int, x + 1, nb).contains(a));
                                    }
                                }
                                assert(same_plain(before, b2, a));
                                lemma_same_plain_trans(after, before, b2, a);
                            }
                            assert forall|b: int| got.contains(b) implies #[trigger] uses_ok(after, idom, b, h) by {
                                assert(vsb.keys == old(vs).keys);
                            }
                        }
                        cur = got;
                    }
                } else {
                    proof {
                        if bounded {
                            assert(cur =~= vis1.union(kids_below(idom, n as int, x + 1, nb)));
                        }
                    }
                }
            },
            None => {
                proof {
                    if bounded {
                        assert(cur =~= vis1.union(kids_below(idom, n as int, x + 1, nb)));
                    }
                }
            },
        }
        x = x + 1;
    }
    proof {
        if bounded {
            lemma_kids_cover(idom, n as int, nb);
            assert(cur =~= vis.union(subtree(idom, n as int, nb)));
        }
    }
    let ghost vs_end = *vs;
    let ghost keys_end = vs.keys;
    let ghost counts_end = vs.counts;
    let ghost be = cfg.blocks@;
    let len2 = cfg.blocks[n].statements.len();
    proof {
        if plain {
            lemma_anc_not_kid(idom, n as int, n as int, nb, nb);
            assert(under(idom, n as int, n as int));
            assert(same_plain(be, b2, n as int));
            assert(same_plain(b2, b1, n as int));
            lemma_same_plain_trans(be, b2, b1, n as int);
            assert forall|v: usize| #[trigger] vs.has((v, true)) implies vs.stack((v, true)) ==
                (old(vs).stack((v, true)) + defs_of(be, v, n as int, len2 as int)).take(
                    old(vs).stack((v, true)).len() + defs_of(be, v, n as int, len2 as int).len() - defs_of(be, v, n as int, 0).len()) by {
                assert(vs_st.has((v, true)));
                assert forall|t: int| 0 <= t < len2 implies #[trigger] def_var(stmt_at(be, n as int, t)) == def_var(stmt_at(b1, n as int, t)) by {}
                lemma_defs_of_frame(be, b1, v, n as int, len2 as int);
                let w = old(vs).stack((v, true)) + defs_of(be, v, n as int, len2 as int);
                assert(w.take(w.len() as int) =~= w);
            }
            assert forall|t: int| 0 <= t < len2 && def_var(stmt_at(be, n as int, t)) is Some
                implies vs.has((#[trigger] def_var(stmt_at(be, n as int, t))->Some_0.0, true)) by {
                assert(pos_ok(be, n as int, t));
            }
        }
    }
    let mut si: usize = 0;
    while si < len2
        invariant
            si <= len2,
            n < cfg.blocks@.len(),
            len2 == cfg.blocks@[n as int].statements@.len(),
            vs.wf(),
            vs.keys == keys_end,
            vs.counts == counts_end,
            cfg.blocks@ == be,
            plain ==> copy_free(be),
            plain ==> forall|t: int| 0 <= t < len2 && def_var(stmt_at(be, n as int, t)) is Some
                ==> vs.has((#[trigger] def_var(stmt_at(be, n as int, t))->Some_0.0, true)),
            plain ==> forall|v: usize| #[trigger] old(vs).has((v, true)) ==> old(vs).stack((v, true)).len() > 0,
            keys_end == old(vs).keys,
            plain ==> forall|v: usize| #[trigger] vs.has((v, true)) ==> vs.stack((v, true)) ==
                (old(vs).stack((v, true)) + defs_of(be, v, n as int, len2 as int)).take(
                    old(vs).stack((v, true)).len() + defs_of(be, v, n as int, len2 as int).len() - defs_of(be, v, n as int, si as int).len()),
        decreases len2 - si,
    {
        let defs = cfg.blocks[n].statements[si].def();
        let ghost vsi = *vs;
        let ghost st = stmt_at(be, n as int, si as int);
        proof {
            if plain {
                assert(pos_ok(be, n as int, si as int));
                if let Some(d) = def_var(st) {
                    assert(defs@ =~= seq![Oper::Var(d.0, d.1)]);
                    let v = d.0;
                    assert(vs.has((v, true)));
                    assert(old(vs).has((v, true)));
                    lemma_defs_of_len_mono(be, v, n as int, si as int, len2 as int);
                }
            }
        }
        let mut di: usize = 0;
        while di < defs.len()
            invariant
                di <= defs@.len(),
                vs.wf(),
                vs.keys == keys_end,
                vs.counts == counts_end,
                defs@ == st.defs(),
                plain ==> !(st is ParallelCopy),
                plain ==> (def_var(st) is None ==> *vs == vsi),
                plain ==> (def_var(st) matches Some(d) ==> {
                    &&& defs@ == seq![Oper::Var(d.0, d.1)]
                    &&& di == 0 ==> *vs == vsi
                    &&& di >= 1 ==> vs.stack((d.0, true)) == vsi.stack((d.0, true)).drop_last()
                    &&& di >= 1 ==> forall|k: (usize, bool)| k != (d.0, true) && vsi.has(k) ==> #[trigger] vs.stack(k) == vsi.stack(k)
                    &&& vsi.has((d.0, true))
                    &&& vsi.stack((d.0, true)).len() > 0
                }),
            decreases defs@.len() - di,
        {
            let a = defs[di];
            match a {
                Oper::Var(_, _) => {
                    vs.pop(a.as_non_ssa());
                },
                _ => {},
            }
            di = di + 1;
        }
        proof {
            if plain {
                assert forall|v: usize| #[trigger] vs.has((v, true)) implies vs.stack((v, true)) ==
                    (old(vs).stack((v, true)) + defs_of(be, v, n as int, len2 as int)).take(
                        old(vs).stack((v, true)).len() + defs_of(be, v, n as int, len2 as int).len() - defs_of(be, v, n as int, si + 1).len()) by {
                    assert(vsi.has((v, true)));
                    let w = old(vs).stack((v, true)) + defs_of(be, v, n as int, len2 as int);
                    let m = old(vs).stack((v, true)).len() + defs_of(be, v, n as int, len2 as int).len() - defs_of(be, v, n as int, si as int).len();
                    assert(old(vs).has((v, true)));
                    lemma_defs_of_len_mono(be, v, n as int, si + 1, len2 as int);
                    match def_var(st) {
                        Some(d) => {
                            if d.0 == v {
                                assert(w.take(m).drop_last() =~= w.take(m - 1));
                            }
                        },
                        None => {},
                    }
                }
            }
        }
        si = si + 1;
    }
    proof {
        if plain {
            assert forall|v: usize| #[trigger] vs.has((v, true)) implies vs.stack((v, true)) == old(vs).stack((v, true)) by {
                let w = old(vs).stack((v, true)) + defs_of(be, v, n as int, len2 as int);
                assert(w.take(old(vs).stack((v, true)).len() as int) =~= old(vs).stack((v, true)));
            }
            lemma_kids_cover(idom, n as int, nb);
            assert forall|a: int| 0 <= a < nb && !under(idom, a, n as int) implies #[trigger] same_plain(be, orig, a) by {
                if kids_below(idom, n as int, nb, nb).contains(a) {
                    assert(subtree(idom, n as int, nb).contains(a));
                }
                assert(same_plain(be, b2, a));
                assert(same_plain(b2, b1, a));
                lemma_same_plain_trans(be, b2, b1, a);
                assert(under(idom, n as int, n as int));
                assert(b1[a] == orig[a]);
                lemma_same_plain_eq(b1, orig, a);
                lemma_same_plain_trans(be, b1, orig, a);
            }
        }
    }
    proof {
        if bounded {
            assert forall|k: (usize, bool)| #[trigger] vs.has(k) implies vs.count(k) <= weight(orig, cur, nb) by {
                assert(vs_end.has(k));
            }
            lemma_renamed_vs(cfg.blocks@, cur, vs_end, *vs);
        }
    }
    Ghost(cur)
}

} // verus!

verus! {

/// Statement views with their SSA versions cleared.
pub open spec fn erase_views(ss: Seq<StmtV>) -> Seq<StmtV> {
    ss.map_values(|s: StmtV| erase_stmt(s))
}

/// Renames every variable to SSA form: each variable defined in a block
/// starts with version zero on its stack, and the blocks are renamed along
/// the dominator tree from block 0.
pub fn rename_variables(cfg: &mut CFG)
    requires
        rename_ready(&*old(cfg)),
        old(cfg).blocks@.len() >= 1,
    ensures
        versions_ok(final(cfg).blocks@, old(cfg).blocks@),
        final(cfg).graph == old(cfg).graph,
        final(cfg).def == old(cfg).def,
        final(cfg).uses == old(cfg).uses,
        final(cfg).dom_ctx == old(cfg).dom_ctx,
        final(cfg).stack_offset == old(cfg).stack_offset,
        idom_total(old(cfg).dom_ctx.idom@) && weight(final(cfg).blocks@, Set::new(|b: int| true), final(cfg).blocks@.len() as int) < usize::MAX
            ==> single_assignment(final(cfg).blocks@),
        idom_total(old(cfg).dom_ctx.idom@) && weight(final(cfg).blocks@, Set::new(|b: int| true), final(cfg).blocks@.len() as int) < usize::MAX
            && copy_free(old(cfg).blocks@) ==> forall|b: int| 0 <= b < final(cfg).blocks@.len()
            ==> #[trigger] uses_ok(final(cfg).blocks@, final(cfg).dom_ctx.idom@, b, defined_vars(final(cfg).blocks@)),
        idom_total(old(cfg).dom_ctx.idom@) && weight(final(cfg).blocks@, Set::new(|b: int| true), final(cfg).blocks@.len() as int) < usize::MAX
            && copy_free(old(cfg).blocks@) && edges_agree(old(cfg).graph.succs(), old(cfg).graph.preds(), old(cfg).blocks@.len() as int)
            ==> forall|p: usize, y: usize, t: int| p < final(cfg).blocks@.len() && final(cfg).graph.succs()[p].contains(y)
                && 0 <= t < final(cfg).blocks@[y as int].statements@.len()
            ==> #[trigger] phi_slot_ok(final(cfg).blocks@, final(cfg).dom_ctx.idom@, p as int, y as int, t,
                slot_of(final(cfg).graph.preds(), y, p), defined_vars(final(cfg).blocks@)),
{
    let mut vs = Versions { keys: Vec::new(), counts: Vec::new(), stacks: Vec::new() };
    let ghost bs = cfg.blocks@;
    let ghost cf = copy_free(bs);
    let nb = cfg.blocks.len();
    let mut b: usize = 0;
    while b < nb
        invariant
            b <= nb,
            nb == cfg.blocks@.len(),
            bs == cfg.blocks@,
            vs.wf(),
            forall|k: (usize, bool)| #[trigger] vs.has(k) ==> vs.count(k) == 0 && vs.stack(k) == seq![0usize],
                    cf == copy_free(bs),
                    cf ==> forall|k: (usize, bool)| #[trigger] vs.has(k) ==> k.1 && defined_vars(bs)(k.0),
            forall|c: int, t: int| #![trigger def_var(stmt_at(bs, c, t))]
                pos_ok(bs, c, t) && c < b && def_var(stmt_at(bs, c, t)) is Some ==> vs.has((def_var(stmt_at(bs, c, t))->Some_0.0, true)),
        decreases nb - b,
    {
        let ns = cfg.blocks[b].statements.len();
        let mut si: usize = 0;
        while si < ns
            invariant
                si <= ns,
                b < nb,
                nb == cfg.blocks@.len(),
                bs == cfg.blocks@,
                ns == cfg.blocks@[b as int].statements@.len(),
                vs.wf(),
                forall|k: (usize, bool)| #[trigger] vs.has(k) ==> vs.count(k) == 0 && vs.stack(k) == seq![0usize],
                    cf == copy_free(bs),
                    cf ==> forall|k: (usize, bool)| #[trigger] vs.has(k) ==> k.1 && defined_vars(bs)(k.0),
                forall|c: int, t: int| #![trigger def_var(stmt_at(bs, c, t))]
                    pos_ok(bs, c, t) && (c < b || (c == b && t < si)) && def_var(stmt_at(bs, c, t)) is Some
                    ==> vs.has((def_var(stmt_at(bs, c, t))->Some_0.0, true)),
            decreases ns - si,
        {
            let defs = cfg.blocks[b].statements[si].def();
            let mut di: usize = 0;
            while di < defs.len()
                invariant
                    di <= defs@.len(),
                    defs@ == stmt_at(bs, b as int, si as int).defs(),
                    b < nb,
                    si < ns,
                    nb == cfg.blocks@.len(),
                    bs == cfg.blocks@,
                    ns == cfg.blocks@[b as int].statements@.len(),
                    vs.wf(),
                    forall|k: (usize, bool)| #[trigger] vs.has(k) ==> vs.count(k) == 0 && vs.stack(k) == seq![0usize],
                    cf == copy_free(bs),
                    cf ==> forall|k: (usize, bool)| #[trigger] vs.has(k) ==> k.1 && defined_vars(bs)(k.0),
                    forall|c: int, t: int| #![trigger def_var(stmt_at(bs, c, t))]
                        pos_ok(bs, c, t) && (c < b || (c == b && t < si)) && def_var(stmt_at(bs, c, t)) is Some
                        ==> vs.has((def_var(stmt_at(bs, c, t))->Some_0.0, true)),
                    di > 0 && def_var(stmt_at(bs, b as int, si as int)) is Some ==> vs.has((def_var(stmt_at(bs, b as int, si as int))->Some_0.0, true)),
                decreases defs@.len() - di,
            {
                let a = defs[di];
                match a {
                    Oper::Var(_, _) => {
                        let ghost vs1 = vs;
                        vs.reset(a.as_non_ssa());
                        proof {
                            assert forall|k: (usize, bool)| #[trigger] vs.has(k) implies vs.count(k) == 0 && vs.stack(k) == seq![0usize] by {
                                if k != (a->Var_0, true) {
                                    assert(vs1.has(k));
                                }
                            }
                            if cf {
                                assert(pos_ok(bs, b as int, si as int));
                                assert(def_var(stmt_at(bs, b as int, si as int)) is Some);
                                assert forall|k: (usize, bool)| #[trigger] vs.has(k) implies k.1 && defined_vars(bs)(k.0) by {
                                    if k != (a->Var_0, true) {
                                        assert(vs1.has(k));
                                    }
                                }
                            }
                        }
                    },
                    _ => {},
                }
                di = di + 1;
            }
            si = si + 1;
        }
        b = b + 1;
    }
    let ghost full = Set::new(|c: int| true);
    proof {
        assert forall|k: (usize, bool)| #[trigger] vs.has(k) implies vs.count(k) <= weight(bs, Set::empty(), nb as int) by {
            lemma_weight_empty(bs, nb as int);
        }
        assert forall|c: int| #[trigger] under(cfg.dom_ctx.idom@, c, 0) implies !Set::<int>::empty().contains(c) by {}
    }
    let ghost bounded = weight(bs, full, nb as int) < usize::MAX;
    let ghost vs0 = vs;
    let ghost plain = bounded && cf;
    let ghost agree = edges_agree(cfg.graph.succs(), cfg.graph.preds(), nb as int);
    proof {
        if bounded && cf {
            assert forall|v: usize| #[trigger] vs.has((v, true)) implies vs.stack((v, true)).len() > 0
                && vs.stack((v, true)).last() == entry_version(bs, cfg.dom_ctx.idom@, v, 0) by {
                assert(cfg.dom_ctx.idom@.len() > 0 ==> cfg.dom_ctx.idom@[0] is None) by {
                    if cfg.dom_ctx.idom@.len() > 0 {
                        assert(cfg.dom_ctx.idom@[0] matches Some(p) ==> (p as int) < 0);
                    }
                }
            }
        }
    }
    let Ghost(done) = rename(cfg, 0, &mut vs, Ghost(Set::empty()), Ghost(bounded), Ghost(plain), Ghost(agree));
    proof {
        lemma_weight_same(cfg.blocks@, bs, full, nb as int);
        if idom_total(old(cfg).dom_ctx.idom@) && bounded {
            let fin = cfg.blocks@;
            assert forall|c: int, t: int| pos_ok(fin, c, t) implies #[trigger] handled(done, -1, 0, c, t) by {
                lemma_under_root(old(cfg).dom_ctx.idom@, c);
                assert(subtree(old(cfg).dom_ctx.idom@, 0, nb as int).contains(c));
            }
            assert forall|b1: int, s1: int, b2: int, s2: int|
                #![trigger def_var(stmt_at(fin, b1, s1)), def_var(stmt_at(fin, b2, s2))]
                pos_ok(fin, b1, s1) && pos_ok(fin, b2, s2) && (b1 != b2 || s1 != s2) && def_var(stmt_at(fin, b1, s1)) is Some
                implies def_var(stmt_at(fin, b1, s1)) != def_var(stmt_at(fin, b2, s2)) by {
                assert(handled(done, -1, 0, b1, s1));
                assert(handled(done, -1, 0, b2, s2));
            }
            if cf {
                lemma_defined_vars_same(fin, bs);
                assert(key_vars(vs0.keys@) =~= defined_vars(fin)) by {
                    assert forall|v: usize| #[trigger] key_vars(vs0.keys@)(v) == defined_vars(fin)(v) by {
                        if key_vars(vs0.keys@)(v) {
                            assert(vs0.has((v, true)));
                            assert(defined_vars(bs)(v));
                        }
                        if defined_vars(fin)(v) {
                            assert(defined_vars(bs)(v));
                            let (c, t) = choose|c: int, t: int| #![trigger def_var(stmt_at(bs, c, t))]
                                pos_ok(bs, c, t) && def_var(stmt_at(bs, c, t)) is Some && def_var(stmt_at(bs, c, t))->Some_0.0 == v;
                            assert(vs0.has((v, true)));
                        }
                    }
                }
                assert forall|b: int| 0 <= b < fin.len() implies #[trigger] uses_ok(fin, cfg.dom_ctx.idom@, b, defined_vars(fin)) by {
                    lemma_under_root(old(cfg).dom_ctx.idom@, b);
                    assert(subtree(old(cfg).dom_ctx.idom@, 0, nb as int).contains(b));
                    assert(done.contains(b));
                }
                if agree {
                    assert forall|p: usize, y: usize, t: int| p < fin.len() && cfg.graph.succs()[p].contains(y)
                        && 0 <= t < fin[y as int].statements@.len()
                        implies #[trigger] phi_slot_ok(fin, cfg.dom_ctx.idom@, p as int, y as int, t,
                            slot_of(cfg.graph.preds(), y, p), defined_vars(fin)) by {
                        lemma_under_root(old(cfg).dom_ctx.idom@, p as int);
                        assert(subtree(old(cfg).dom_ctx.idom@, 0, nb as int).contains(p as int));
                        assert(done.contains(p as int));
                        assert(succ_phis_ok(fin, cfg.dom_ctx.idom@, cfg.graph.succs(), cfg.graph.preds(), p as int, key_vars(vs0.keys@)));
                        assert(phi_slot_ok(fin, cfg.dom_ctx.idom@, p as int, y as int, t, slot_of(cfg.graph.preds(), y, p), key_vars(vs0.keys@)));
                    }
                }
            }
        }
    }
}

proof fn lemma_weight_empty(bs: Seq<crate::cfg::BasicBlock>, k: int)
    ensures
        weight(bs, Set::empty(), k) == 0,
    decreases k,
{
    if k > 0 {
        lemma_weight_empty(bs, k - 1);
    }
}

proof fn lemma_erase_views(ss: Seq<Stmt>)
    ensures
        erase_block(ss) == erase_views(view_stmts(ss)),
{
    assert(erase_block(ss) =~= erase_views(view_stmts(ss)));
}

/// Puts the graph into SSA form: phi functions at the iterated dominance
/// frontiers of the variables' definitions, then every variable renamed.
/// Up to SSA versions, each block is the phi functions placed at its head
/// followed by its statements as they were.
pub fn construct_ssa(cfg: &mut CFG)
    requires
        phi_ready(&*old(cfg)),
        rename_ready(&*old(cfg)),
        old(cfg).blocks@.len() >= 1,
    ensures
        final(cfg).blocks@.len() == old(cfg).blocks@.len(),
        forall|y: int| 0 <= y < final(cfg).blocks@.len() ==> erase_block(#[trigger] final(cfg).blocks@[y].statements@) ==
            erase_views(phis_upto(old(cfg).def@, old(cfg).dom_ctx.domf@, old(cfg).graph.preds(), old(cfg).def@.len() as int, y as usize)
                + view_stmts(old(cfg).blocks@[y].statements@)),
        forall|y: int| 0 <= y < final(cfg).blocks@.len() ==> #[trigger] final(cfg).blocks@[y].label == old(cfg).blocks@[y].label
            && final(cfg).blocks@[y].goto == old(cfg).blocks@[y].goto,
        final(cfg).graph == old(cfg).graph,
        final(cfg).def == old(cfg).def,
        final(cfg).uses == old(cfg).uses,
        final(cfg).dom_ctx == old(cfg).dom_ctx,
        final(cfg).stack_offset == old(cfg).stack_offset,
        idom_total(old(cfg).dom_ctx.idom@) && weight(final(cfg).blocks@, Set::new(|b: int| true), final(cfg).blocks@.len() as int) < usize::MAX
            ==> single_assignment(final(cfg).blocks@),
        idom_total(old(cfg).dom_ctx.idom@) && weight(final(cfg).blocks@, Set::new(|b: int| true), final(cfg).blocks@.len() as int) < usize::MAX
            && copy_free(old(cfg).blocks@) ==> forall|b: int| 0 <= b < final(cfg).blocks@.len()
            ==> #[trigger] uses_ok(final(cfg).blocks@, final(cfg).dom_ctx.idom@, b, defined_vars(final(cfg).blocks@)),
        idom_total(old(cfg).dom_ctx.idom@) && weight(final(cfg).blocks@, Set::new(|b: int| true), final(cfg).blocks@.len() as int) < usize::MAX
            && copy_free(old(cfg).blocks@) && edges_agree(old(cfg).graph.succs(), old(cfg).graph.preds(), old(cfg).blocks@.len() as int)
            ==> forall|p: usize, y: usize, t: int| p < final(cfg).blocks@.len() && final(cfg).graph.succs()[p].contains(y)
                && 0 <= t < final(cfg).blocks@[y as int].statements@.len()
            ==> #[trigger] phi_slot_ok(final(cfg).blocks@, final(cfg).dom_ctx.idom@, p as int, y as int, t,
                slot_of(final(cfg).graph.preds(), y, p), defined_vars(final(cfg).blocks@)),
{
    insert_phi_functions(cfg);
    let ghost mid = cfg.blocks@;
    proof {
        if copy_free(old(cfg).blocks@) {
            assert forall|y: int, t: int| pos_ok(mid, y, t) implies !(#[trigger] stmt_at(mid, y, t) is ParallelCopy) by {
                let ph = phis_upto(old(cfg).def@, old(cfg).dom_ctx.domf@, old(cfg).graph.preds(), old(cfg).def@.len() as int, y as usize);
                let w = ph + view_stmts(old(cfg).blocks@[y].statements@);
                assert(erase_block(mid[y].statements@) == erase_views(w));
                assert(erase_block(mid[y].statements@)[t] == erase_stmt(stmt_at(mid, y, t)));
                assert(erase_views(w)[t] == erase_stmt(w[t]));
                lemma_erase_pc(stmt_at(mid, y, t));
                lemma_erase_pc(w[t]);
                if t < ph.len() {
                    lemma_phis_tac(old(cfg).def@, old(cfg).dom_ctx.domf@, old(cfg).graph.preds(), old(cfg).def@.len() as int, y as usize, t);
                } else {
                    assert(w[t] == view_stmts(old(cfg).blocks@[y].statements@)[t - ph.len()]);
                    assert(pos_ok(old(cfg).blocks@, y, t - ph.len()));
                    assert(!(stmt_at(old(cfg).blocks@, y, t - ph.len()) is ParallelCopy));
                }
            }
        }
    }
    rename_variables(cfg);
    proof {
        assert forall|y: int| 0 <= y < cfg.blocks@.len() implies erase_block(#[trigger] cfg.blocks@[y].statements@) ==
            erase_views(phis_upto(old(cfg).def@, old(cfg).dom_ctx.domf@, old(cfg).graph.preds(), old(cfg).def@.len() as int, y as usize)
                + view_stmts(old(cfg).blocks@[y].statements@)) by {
            assert(erase_block(cfg.blocks@[y].statements@) == erase_block(mid[y].statements@));
            lemma_erase_views(mid[y].statements@);
        }
        assert forall|y: int| 0 <= y < cfg.blocks@.len() implies #[trigger] cfg.blocks@[y].label == old(cfg).blocks@[y].label
            && cfg.blocks@[y].goto == old(cfg).blocks@[y].goto by {
            assert(cfg.blocks@[y].label == mid[y].label);
        }
    }
}

} // verus!

verus! {

fn copy_copies(v: &Vec<(Oper, Oper)>) -> (r: Vec<(Oper, Oper)>)
    ensures
        r@ == v@,
{
    let mut r: Vec<(Oper, Oper)> = Vec::new();
    let mut i: usize = 0;
    while i < v.len()
        invariant
            i <= v@.len(),
            r@ == v@.take(i as int),
        decreases v@.len() - i,
    {
        r.push(v[i]);
        i = i + 1;
        assert(r@ =~= v@.take(i as int));
    }
    assert(v@.take(v@.len() as int) =~= v@);
    r
}

/// The store reached by running the copies one after another from `s`.
pub open spec fn run_copies(c: Seq<(Oper, Oper)>, s: spec_fn(Oper) -> int) -> spec_fn(Oper) -> int
    decreases c.len(),
{
    if c.len() == 0 {
        s
    } else {
        let prev = run_copies(c.drop_last(), s);
        let d = c.last().0;
        let a = c.last().1;
        |o: Oper| if o == d { prev(a) } else { prev(o) }
    }
}

/// No operand is the destination of two copies.
pub open spec fn dests_distinct(c: Seq<(Oper, Oper)>) -> bool {
    forall|i: int, j: int| 0 <= i < j < c.len() ==> (#[trigger] c[i]).0 != (#[trigger] c[j]).0
}

/// `o` is the destination of a copy of `c`.
pub open spec fn is_dest(c: Seq<(Oper, Oper)>, o: Oper) -> bool {
    exists|i: int| 0 <= i < c.len() && (#[trigger] c[i]).0 == o
}

/// `o` is the source of a copy of `c`.
pub open spec fn is_source(c: Seq<(Oper, Oper)>, o: Oper) -> bool {
    exists|i: int| 0 <= i < c.len() && (#[trigger] c[i]).1 == o
}

/// Running `c` one copy after another gives every destination of the
/// parallel copy `p` the value that its source had before, from any store.
pub open spec fn implements(c: Seq<(Oper, Oper)>, p: Seq<(Oper, Oper)>) -> bool {
    forall|s: spec_fn(Oper) -> int, k: int| 0 <= k < p.len() ==> #[trigger] run_copies(c, s)(p[k].0) == s(p[k].1)
}

/// One more than the largest temporary number an operand carries.
pub open spec fn oper_bound(o: Oper) -> nat {
    match o {
        Oper::Temp(x, _) => x as nat + 1,
        _ => 0,
    }
}

/// One more than the largest temporary number the copies mention.
pub open spec fn temp_bound(c: Seq<(Oper, Oper)>) -> nat
    decreases c.len(),
{
    if c.len() == 0 {
        0
    } else {
        let b = temp_bound(c.drop_last());
        let b1 = if oper_bound(c.last().0) > b { oper_bound(c.last().0) } else { b };
        if oper_bound(c.last().1) > b1 { oper_bound(c.last().1) } else { b1 }
    }
}

/// The copies can be put in order: their destinations are distinct and
/// there are temporary numbers to spare above those they mention.
pub open spec fn sequenceable(c: Seq<(Oper, Oper)>) -> bool {
    dests_distinct(c) && temp_bound(c) + c.len() < usize::MAX
}

/// Every copy of `c` writes a destination of `p` or a temporary numbered
/// above every temporary that `p` mentions.
pub open spec fn writes_only(c: Seq<(Oper, Oper)>, p: Seq<(Oper, Oper)>) -> bool {
    forall|i: int| 0 <= i < c.len() ==> is_dest(p, (#[trigger] c[i]).0)
        || (c[i].0 matches Oper::Temp(x, _) && x >= temp_bound(p))
}

/// The value of `o` after running `c` as a parallel copy from `t`.
pub open spec fn par_value(c: Seq<(Oper, Oper)>, t: spec_fn(Oper) -> int, o: Oper) -> int {
    if is_dest(c, o) {
        t(c[choose|i: int| 0 <= i < c.len() && (#[trigger] c[i]).0 == o].1)
    } else {
        t(o)
    }
}

/// A source that is not one of the temporaries numbered from `m`.
pub open spec fn plain_sources(c: Seq<(Oper, Oper)>, m: nat) -> nat
    decreases c.len(),
{
    if c.len() == 0 {
        0
    } else {
        plain_sources(c.drop_last(), m) + if oper_bound(c.last().1) > m { 0nat } else { 1nat }
    }
}

proof fn lemma_temp_bound(c: Seq<(Oper, Oper)>, i: int)
    requires
        0 <= i < c.len(),
    ensures
        oper_bound(c[i].0) <= temp_bound(c),
        oper_bound(c[i].1) <= temp_bound(c),
    decreases c.len(),
{
    if i < c.len() - 1 {
        lemma_temp_bound(c.drop_last(), i);
        assert(c.drop_last()[i] == c[i]);
    }
}

proof fn lemma_plain_sources_le(c: Seq<(Oper, Oper)>, m: nat)
    ensures
        plain_sources(c, m) <= c.len(),
    decreases c.len(),
{
    if c.len() > 0 {
        lemma_plain_sources_le(c.drop_last(), m);
    }
}

proof fn lemma_plain_sources_remove(c: Seq<(Oper, Oper)>, m: nat, i: int)
    requires
        0 <= i < c.len(),
    ensures
        plain_sources(c.remove(i), m) <= plain_sources(c, m),
    decreases c.len(),
{
    if i == c.len() - 1 {
        assert(c.remove(i) =~= c.drop_last());
    } else {
        lemma_plain_sources_remove(c.drop_last(), m, i);
        assert(c.remove(i).drop_last() =~= c.drop_last().remove(i));
        assert(c.remove(i).last() == c.last());
    }
}

proof fn lemma_plain_sources_update(c: Seq<(Oper, Oper)>, m: nat, j: int, x: (Oper, Oper))
    requires
        0 <= j < c.len(),
        oper_bound(c[j].1) <= m,
        oper_bound(x.1) > m,
    ensures
        plain_sources(c.update(j, x), m) + 1 == plain_sources(c, m),
    decreases c.len(),
{
    if j == c.len() - 1 {
        assert(c.update(j, x).drop_last() =~= c.drop_last());
    } else {
        lemma_plain_sources_update(c.drop_last(), m, j, x);
        assert(c.update(j, x).drop_last() =~= c.drop_last().update(j, x));
    }
}

/// The store after one more copy.
proof fn lemma_run_push(c: Seq<(Oper, Oper)>, x: (Oper, Oper), s: spec_fn(Oper) -> int, o: Oper)
    ensures
        run_copies(c.push(x), s)(o) == if o == x.0 { run_copies(c, s)(x.1) } else { run_copies(c, s)(o) },
{
    assert(c.push(x).drop_last() =~= c);
}

/// The index of destination `o` in copies with distinct destinations.
proof fn lemma_dest_index(c: Seq<(Oper, Oper)>, i: int)
    requires
        dests_distinct(c),
        0 <= i < c.len(),
    ensures
        (choose|j: int| 0 <= j < c.len() && (#[trigger] c[j]).0 == c[i].0) == i,
{
    let j = choose|j: int| 0 <= j < c.len() && (#[trigger] c[j]).0 == c[i].0;
    assert(0 <= j < c.len() && c[j].0 == c[i].0);
    if j != i {
        if j < i {
            assert(c[j].0 != c[i].0);
        } else {
            assert(c[i].0 != c[j].0);
        }
    }
}

/// The number of the first temporary above those the copies mention.
fn first_free_temp(c: &Vec<(Oper, Oper)>) -> (m: usize)
    requires
        temp_bound(c@) < usize::MAX,
    ensures
        m == temp_bound(c@),
{
    let mut m: usize = 0;
    let mut i: usize = 0;
    while i < c.len()
        invariant
            i <= c@.len(),
            temp_bound(c@) < usize::MAX,
            m == temp_bound(c@.take(i as int)),
            temp_bound(c@.take(i as int)) <= temp_bound(c@),
        decreases c@.len() - i,
    {
        proof {
            assert(c@.take(i + 1).drop_last() =~= c@.take(i as int));
            assert(c@.take(i + 1).last() == c@[i as int]);
            lemma_temp_bound(c@, i as int);
            lemma_prefix_bound(c@, i + 1);
        }
        match c[i].0 {
            Oper::Temp(x, _) => {
                if x + 1 > m {
                    m = x + 1;
                }
            },
            _ => {},
        }
        match c[i].1 {
            Oper::Temp(x, _) => {
                if x + 1 > m {
                    m = x + 1;
                }
            },
            _ => {},
        }
        i = i + 1;
    }
    assert(c@.take(c@.len() as int) =~= c@);
    m
}

proof fn lemma_prefix_bound(c: Seq<(Oper, Oper)>, n: int)
    requires
        0 <= n <= c.len(),
    ensures
        temp_bound(c.take(n)) <= temp_bound(c),
    decreases c.len() - n,
{
    if n < c.len() {
        lemma_prefix_bound(c, n + 1);
        assert(c.take(n + 1).drop_last() =~= c.take(n));
    } else {
        assert(c.take(n) =~= c);
    }
}

fn dests_distinct_exec(c: &Vec<(Oper, Oper)>) -> (r: bool)
    ensures
        r == dests_distinct(c@),
{
    let mut i: usize = 0;
    while i < c.len()
        invariant
            i <= c@.len(),
            forall|a: int, b: int| 0 <= a < b < c@.len() && a < i ==> (#[trigger] c@[a]).0 != (#[trigger] c@[b]).0,
        decreases c@.len() - i,
    {
        let mut j: usize = i + 1;
        while j < c.len()
            invariant
                i < c@.len(),
                i < j <= c@.len(),
                forall|a: int, b: int| 0 <= a < b < c@.len() && a < i ==> (#[trigger] c@[a]).0 != (#[trigger] c@[b]).0,
                forall|b: int| i < b < j ==> c@[i as int].0 != (#[trigger] c@[b]).0,
            decreases c@.len() - j,
        {
            if c[i].0 == c[j].0 {
                return false;
            }
            j = j + 1;
        }
        i = i + 1;
    }
    true
}

/// Orders the copies of a parallel copy for sequential execution. A copy
/// whose destination no remaining copy reads goes next; where every
/// remaining destination is still to be read (the copies form cycles), the
/// source of one copy is saved in a new temporary, numbered above every
/// temporary the copies mention, and that copy reads the temporary
/// instead. Copies with a repeated destination, or without spare
/// temporary numbers, are left as they are.
pub fn sequence_parallel_copy(pcopy: &mut Vec<(Oper, Oper)>)
    ensures
        sequenceable(old(pcopy)@) ==> implements(final(pcopy)@, old(pcopy)@) && writes_only(final(pcopy)@, old(pcopy)@),
        !sequenceable(old(pcopy)@) ==> final(pcopy)@ == old(pcopy)@,
{
    let ghost orig = pcopy@;
    if !dests_distinct_exec(pcopy) {
        return;
    }
    let len = pcopy.len();
    let mut k: usize = 0;
    let mut fits = len < usize::MAX;
    while k < len
        invariant
            k <= len,
            len == pcopy@.len(),
            fits ==> len < usize::MAX,
            fits ==> forall|q: int| 0 <= q < k ==> oper_bound(#[trigger] pcopy@[q].0) + len < usize::MAX
                && oper_bound(pcopy@[q].1) + len < usize::MAX,
            !fits ==> temp_bound(pcopy@) + len >= usize::MAX,
        decreases len - k,
    {
        proof {
            lemma_temp_bound(pcopy@, k as int);
        }
        if fits {
            match pcopy[k].0 {
                Oper::Temp(x, _) => {
                    if x >= usize::MAX - 1 - len {
                        fits = false;
                    }
                },
                _ => {},
            }
        }
        if fits {
            match pcopy[k].1 {
                Oper::Temp(x, _) => {
                    if x >= usize::MAX - 1 - len {
                        fits = false;
                    }
                },
                _ => {},
            }
        }
        k = k + 1;
    }
    if !fits {
        return;
    }
    proof {
        lemma_bound_below(orig, len as nat);
    }
    let m = first_free_temp(pcopy);
    let mut seq: Vec<(Oper, Oper)> = Vec::new();
    let mut next: usize = 0;
    proof {
        lemma_seq_start(orig);
    }
    while pcopy.len() > 0
        invariant
            sequenceable(orig),
            m + orig.len() < usize::MAX,
            seq_state(orig, pcopy@, seq@, m as nat, next as nat),
        decreases pcopy@.len(), plain_sources(pcopy@, m as nat),
    {
        let ghost p0 = pcopy@;
        let ghost s0 = seq@;
        // A copy whose destination no copy reads.
        let mut free: usize = pcopy.len();
        let mut i: usize = 0;
        while i < pcopy.len()
            invariant_except_break
                pcopy@ == p0,
                i <= p0.len(),
                free == p0.len(),
                forall|a: int| 0 <= a < i ==> is_source(p0, (#[trigger] p0[a]).0),
            ensures
                pcopy@ == p0,
                (free == p0.len() && forall|a: int| 0 <= a < p0.len() ==> is_source(p0, (#[trigger] p0[a]).0))
                    || (free < p0.len() && !is_source(p0, p0[free as int].0)),
            decreases p0.len() - i,
        {
            let d = pcopy[i].0;
            let mut read = false;
            let mut j: usize = 0;
            while j < pcopy.len()
                invariant
                    pcopy@ == p0,
                    j <= p0.len(),
                    i < p0.len(),
                    d == p0[i as int].0,
                    !read ==> forall|b: int| 0 <= b < j ==> (#[trigger] p0[b]).1 != d,
                    read ==> is_source(p0, d),
                decreases p0.len() - j,
            {
                if pcopy[j].1 == d {
                    read = true;
                }
                j = j + 1;
            }
            if !read {
                free = i;
                proof {
                    assert(!is_source(p0, d)) by {
                        if is_source(p0, d) {
                            let q = choose|q: int| 0 <= q < p0.len() && (#[trigger] p0[q]).1 == d;
                        }
                    }
                }
                break;
            }
            i = i + 1;
        }
        if free < pcopy.len() {
            let c = pcopy[free];
            seq.push(c);
            pcopy.remove(free);
            proof {
                lemma_seq_emit(orig, p0, s0, m as nat, next as nat, free as int);
                assert(seq@ == s0.push(p0[free as int]));
            }
        } else {
            // Every destination is still read: break a cycle.
            let d = pcopy[0].0;
            proof {
                assert(is_source(p0, p0[0].0));
            }
            let mut j: usize = 0;
            while j < pcopy.len()
                invariant
                    pcopy@ == p0,
                    j <= p0.len(),
                    d == p0[0].0,
                    forall|b: int| 0 <= b < j ==> (#[trigger] p0[b]).1 != d,
                ensures
                    pcopy@ == p0,
                    j <= p0.len(),
                    forall|b: int| 0 <= b < j ==> (#[trigger] p0[b]).1 != d,
                    j < p0.len() ==> p0[j as int].1 == d,
                decreases p0.len() - j,
            {
                if pcopy[j].1 == d {
                    break;
                }
                j = j + 1;
            }
            if j == pcopy.len() {
                proof {
                    let b = choose|b: int| 0 <= b < p0.len() && (#[trigger] p0[b]).1 == d;
                    assert(p0[b].1 != d);
                }
                return;
            }
            proof {
                lemma_seq_break_pre(orig, p0, s0, m as nat, next as nat, j as int);
            }
            let tmp = Oper::Temp(m + next, 0);
            let b = pcopy[j].0;
            seq.push((tmp, d));
            pcopy.set(j, (b, tmp));
            proof {
                lemma_seq_break(orig, p0, s0, m as nat, next as nat, j as int);
                assert(seq@ == s0.push((tmp, d)));
                assert(pcopy@ == p0.update(j as int, (p0[j as int].0, tmp)));
            }
            next = next + 1;
        }
    }
    proof {
        reveal(seq_state);
        assert forall|s: spec_fn(Oper) -> int, q: int| 0 <= q < orig.len() implies
            #[trigger] run_copies(seq@, s)(orig[q].0) == s(orig[q].1) by {
            assert(par_value(pcopy@, run_copies(seq@, s), orig[q].0) == s(orig[q].1));
            assert(!is_dest(pcopy@, orig[q].0));
        }
    }
    *pcopy = seq;
}

/// What holds while the copies are put in order: `p` is what is left of
/// the parallel copy `orig`, `sq` the copies put in order so far, and
/// `next` the number of temporaries taken from `m` on.
#[verifier::opaque]
spec fn seq_state(orig: Seq<(Oper, Oper)>, p: Seq<(Oper, Oper)>, sq: Seq<(Oper, Oper)>, m: nat, next: nat) -> bool {
    &&& m == temp_bound(orig)
    &&& dests_distinct(p)
    &&& forall|s: spec_fn(Oper) -> int, q: int| 0 <= q < orig.len() ==>
        #[trigger] par_value(p, run_copies(sq, s), orig[q].0) == s(orig[q].1)
    &&& forall|o: Oper| is_dest(p, o) ==> is_dest(orig, o)
    &&& forall|i: int| 0 <= i < orig.len() ==> oper_bound((#[trigger] orig[i]).0) <= m && oper_bound(orig[i].1) <= m
    &&& forall|i: int| 0 <= i < p.len() ==> oper_bound((#[trigger] p[i]).1) <= m
        || (p[i].1 matches Oper::Temp(x, _) && m <= x < m + next)
    &&& next + plain_sources(p, m) <= orig.len()
    &&& writes_only(sq, orig)
}

proof fn lemma_seq_start(orig: Seq<(Oper, Oper)>)
    requires
        dests_distinct(orig),
    ensures
        seq_state(orig, orig, Seq::empty(), temp_bound(orig), 0),
{
    reveal(seq_state);
    let m = temp_bound(orig);
    lemma_plain_sources_le(orig, m);
    assert forall|s: spec_fn(Oper) -> int, q: int| 0 <= q < orig.len() implies
        #[trigger] par_value(orig, run_copies(Seq::empty(), s), orig[q].0) == s(orig[q].1) by {
        lemma_dest_index(orig, q);
    }
    assert forall|i: int| 0 <= i < orig.len() implies oper_bound((#[trigger] orig[i]).0) <= m && oper_bound(orig[i].1) <= m by {
        lemma_temp_bound(orig, i);
    }
}

/// Putting a copy whose destination no copy reads next keeps the state.
proof fn lemma_seq_emit(orig: Seq<(Oper, Oper)>, p0: Seq<(Oper, Oper)>, s0: Seq<(Oper, Oper)>, m: nat, next: nat, free: int)
    requires
        seq_state(orig, p0, s0, m, next),
        0 <= free < p0.len(),
        !is_source(p0, p0[free].0),
    ensures
        seq_state(orig, p0.remove(free), s0.push(p0[free]), m, next),
{
    reveal(seq_state);
    let c = p0[free];
    let p1 = p0.remove(free);
    let s1 = s0.push(c);
    assert forall|a: int, b: int| 0 <= a < b < p1.len() implies (#[trigger] p1[a]).0 != (#[trigger] p1[b]).0 by {
        let a0 = if a < free { a } else { a + 1 };
        let b0 = if b < free { b } else { b + 1 };
        assert(p1[a] == p0[a0] && p1[b] == p0[b0]);
    }
    assert forall|o: Oper| is_dest(p1, o) implies is_dest(orig, o) by {
        let a = choose|a: int| 0 <= a < p1.len() && (#[trigger] p1[a]).0 == o;
        let a0 = if a < free { a } else { a + 1 };
        assert(p0[a0].0 == o);
        assert(is_dest(p0, o));
    }
    assert forall|s: spec_fn(Oper) -> int, q: int| 0 <= q < orig.len() implies
        #[trigger] par_value(p1, run_copies(s1, s), orig[q].0) == s(orig[q].1) by {
        let o = orig[q].0;
        let t = run_copies(s0, s);
        assert(par_value(p0, t, o) == s(orig[q].1));
        lemma_run_push(s0, c, s, o);
        if o == c.0 {
            lemma_dest_index(p0, free);
            assert(is_dest(p0, o));
            if is_dest(p1, o) {
                let a = choose|a: int| 0 <= a < p1.len() && (#[trigger] p1[a]).0 == o;
                let a0 = if a < free { a } else { a + 1 };
                assert(p1[a] == p0[a0]);
                assert(p0[a0].0 == p0[free].0);
            }
        } else if is_dest(p1, o) {
            let a = choose|a: int| 0 <= a < p1.len() && (#[trigger] p1[a]).0 == o;
            let a0 = if a < free { a } else { a + 1 };
            assert(p1[a] == p0[a0]);
            lemma_dest_index(p0, a0);
            lemma_dest_index(p1, a);
            lemma_run_push(s0, c, s, p1[a].1);
            assert(p0[a0].1 != c.0) by {
                if p0[a0].1 == c.0 {
                    assert(is_source(p0, c.0));
                }
            }
        } else {
            if is_dest(p0, o) {
                let a0 = choose|a0: int| 0 <= a0 < p0.len() && (#[trigger] p0[a0]).0 == o;
                assert(a0 != free);
                let a = if a0 < free { a0 } else { a0 - 1 };
                assert(p1[a] == p0[a0]);
                assert(is_dest(p1, o));
            }
        }
    }
    assert forall|i: int| 0 <= i < p1.len() implies oper_bound((#[trigger] p1[i]).1) <= m
        || (p1[i].1 matches Oper::Temp(x, _) && m <= x < m + next) by {
        let a0 = if i < free { i } else { i + 1 };
        assert(p1[i] == p0[a0]);
    }
    lemma_plain_sources_remove(p0, m, free);
    assert forall|i: int| 0 <= i < s1.len() implies is_dest(orig, (#[trigger] s1[i]).0)
        || (s1[i].0 matches Oper::Temp(x, _) && x >= temp_bound(orig)) by {
        if i == s0.len() {
            assert(is_dest(p0, c.0));
        } else {
            assert(s1[i] == s0[i]);
        }
    }
}

/// Where every destination is still read, copy `j` reads a destination,
/// which is no new temporary, and a temporary number is left.
proof fn lemma_seq_break_pre(orig: Seq<(Oper, Oper)>, p0: Seq<(Oper, Oper)>, s0: Seq<(Oper, Oper)>, m: nat, next: nat, j: int)
    requires
        seq_state(orig, p0, s0, m, next),
        0 <= j < p0.len(),
        p0[j].1 == p0[0].0,
    ensures
        oper_bound(p0[j].1) <= m,
        next < orig.len(),
        m == temp_bound(orig),
{
    reveal(seq_state);
    let d = p0[0].0;
    assert(is_dest(p0, d));
    assert(is_dest(orig, d));
    let q0 = choose|q0: int| 0 <= q0 < orig.len() && (#[trigger] orig[q0]).0 == d;
    assert(oper_bound(orig[q0].0) <= m);
    lemma_plain_sources_pos(p0, m, j);
}

/// Saving the source of copy `j` in a new temporary, which copy `j` then
/// reads, keeps the state.
proof fn lemma_seq_break(orig: Seq<(Oper, Oper)>, p0: Seq<(Oper, Oper)>, s0: Seq<(Oper, Oper)>, m: nat, next: nat, j: int)
    requires
        seq_state(orig, p0, s0, m, next),
        0 <= j < p0.len(),
        p0[j].1 == p0[0].0,
        m + next < usize::MAX,
    ensures
        seq_state(orig, p0.update(j, (p0[j].0, Oper::Temp((m + next) as usize, 0))),
            s0.push((Oper::Temp((m + next) as usize, 0), p0[0].0)), m, next + 1),
        plain_sources(p0.update(j, (p0[j].0, Oper::Temp((m + next) as usize, 0))), m) < plain_sources(p0, m),
{
    reveal(seq_state);
    let d = p0[0].0;
    let tmp = Oper::Temp((m + next) as usize, 0);
    let p1 = p0.update(j, (p0[j].0, tmp));
    let s1 = s0.push((tmp, d));
    lemma_seq_break_pre(orig, p0, s0, m, next, j);
    lemma_plain_sources_update(p0, m, j, (p0[j].0, tmp));
    assert(!is_dest(p0, tmp)) by {
        if is_dest(p0, tmp) {
            let a = choose|a: int| 0 <= a < p0.len() && (#[trigger] p0[a]).0 == tmp;
            assert(is_dest(orig, tmp));
            let q = choose|q: int| 0 <= q < orig.len() && (#[trigger] orig[q]).0 == tmp;
            assert(oper_bound(orig[q].0) <= m);
        }
    }
    assert(!is_source(p0, tmp)) by {
        if is_source(p0, tmp) {
            let a = choose|a: int| 0 <= a < p0.len() && (#[trigger] p0[a]).1 == tmp;
            assert(oper_bound(p0[a].1) <= m || (p0[a].1 matches Oper::Temp(x, _) && m <= x < m + next));
        }
    }
    assert forall|a: int, c: int| 0 <= a < c < p1.len() implies (#[trigger] p1[a]).0 != (#[trigger] p1[c]).0 by {
        assert(p1[a].0 == p0[a].0 && p1[c].0 == p0[c].0);
    }
    assert forall|o: Oper| is_dest(p1, o) implies is_dest(orig, o) by {
        let a = choose|a: int| 0 <= a < p1.len() && (#[trigger] p1[a]).0 == o;
        assert(p0[a].0 == o);
        assert(is_dest(p0, o));
    }
    assert forall|s: spec_fn(Oper) -> int, q: int| 0 <= q < orig.len() implies
        #[trigger] par_value(p1, run_copies(s1, s), orig[q].0) == s(orig[q].1) by {
        let o = orig[q].0;
        let t = run_copies(s0, s);
        assert(par_value(p0, t, o) == s(orig[q].1));
        lemma_run_push(s0, (tmp, d), s, o);
        assert(o != tmp) by {
            assert(oper_bound(orig[q].0) <= m);
        }
        if is_dest(p1, o) {
            let a = choose|a: int| 0 <= a < p1.len() && (#[trigger] p1[a]).0 == o;
            assert(p0[a].0 == o);
            lemma_dest_index(p1, a);
            lemma_dest_index(p0, a);
            lemma_run_push(s0, (tmp, d), s, p1[a].1);
            if a != j {
                assert(p1[a] == p0[a]);
                assert(p0[a].1 != tmp) by {
                    if p0[a].1 == tmp {
                        assert(is_source(p0, tmp));
                    }
                }
            }
        } else {
            if is_dest(p0, o) {
                let a = choose|a: int| 0 <= a < p0.len() && (#[trigger] p0[a]).0 == o;
                assert(p1[a].0 == o);
            }
        }
    }
    assert forall|i: int| 0 <= i < p1.len() implies oper_bound((#[trigger] p1[i]).1) <= m
        || (p1[i].1 matches Oper::Temp(x, _) && m <= x < m + next + 1) by {
        if i != j {
            assert(p1[i] == p0[i]);
        }
    }
    assert forall|i: int| 0 <= i < s1.len() implies is_dest(orig, (#[trigger] s1[i]).0)
        || (s1[i].0 matches Oper::Temp(x, _) && x >= temp_bound(orig)) by {
        if i < s0.len() {
            assert(s1[i] == s0[i]);
        }
    }
}

/// Where a copy reads a destination, some source is not one of the new
/// temporaries.
proof fn lemma_plain_sources_pos(c: Seq<(Oper, Oper)>, m: nat, j: int)
    requires
        0 <= j < c.len(),
        oper_bound(c[j].1) <= m,
    ensures
        plain_sources(c, m) > 0,
    decreases c.len(),
{
    if j < c.len() - 1 {
        lemma_plain_sources_pos(c.drop_last(), m, j);
        assert(c.drop_last()[j] == c[j]);
    }
}

/// Operand bounds below a limit keep the whole bound below it.
proof fn lemma_bound_below(c: Seq<(Oper, Oper)>, len: nat)
    requires
        len < usize::MAX,
        forall|q: int| 0 <= q < c.len() ==> oper_bound(#[trigger] c[q].0) + len < usize::MAX
            && oper_bound(c[q].1) + len < usize::MAX,
    ensures
        temp_bound(c) + len < usize::MAX,
    decreases c.len(),
{
    if c.len() > 0 {
        assert forall|q: int| 0 <= q < c.drop_last().len() implies oper_bound(#[trigger] c.drop_last()[q].0) + len < usize::MAX
            && oper_bound(c.drop_last()[q].1) + len < usize::MAX by {
            assert(c.drop_last()[q] == c[q]);
        }
        lemma_bound_below(c.drop_last(), len);
        assert(c.last() == c[c.len() - 1]);
        assert(oper_bound(c.last().0) + len < usize::MAX);
        assert(oper_bound(c.last().1) + len < usize::MAX);
    }
}

} // verus!

verus! {

/// The statement is an assignment of a phi function.
pub open spec fn is_phi(s: StmtV) -> bool {
    s matches StmtV::Tac(_, ExprV::Phi(_))
}

/// The statements that are not phi assignments, in order.
pub open spec fn non_phis(ss: Seq<StmtV>) -> Seq<StmtV>
    decreases ss.len(),
{
    if ss.len() == 0 {
        Seq::empty()
    } else {
        non_phis(ss.drop_last()) + if is_phi(ss.last()) { Seq::empty() } else { seq![ss.last()] }
    }
}

/// The copies `a0 := ai` that a phi assignment sends to block `t`, one for
/// each of its arguments `(ai, t)`, in argument order.
pub open spec fn phi_copies(a0: Oper, args: Seq<(Oper, usize)>, t: usize) -> Seq<StmtV>
    decreases args.len(),
{
    if args.len() == 0 {
        Seq::empty()
    } else {
        phi_copies(a0, args.drop_last(), t) + if args.last().1 == t {
            seq![StmtV::Tac(a0, ExprV::Oper(args.last().0))]
        } else {
            Seq::empty()
        }
    }
}

/// The copies that the phi assignments of a block send to block `t`.
pub open spec fn block_copies(ss: Seq<StmtV>, t: usize) -> Seq<StmtV>
    decreases ss.len(),
{
    if ss.len() == 0 {
        Seq::empty()
    } else {
        block_copies(ss.drop_last(), t) + match ss.last() {
            StmtV::Tac(a0, ExprV::Phi(args)) => phi_copies(a0, args, t),
            _ => Seq::empty(),
        }
    }
}

/// The copies that the first `k` blocks send to block `t`.
pub open spec fn gathered_copies(bs: Seq<Seq<StmtV>>, k: int, t: usize) -> Seq<StmtV>
    decreases k,
{
    if k <= 0 {
        Seq::empty()
    } else {
        gathered_copies(bs, k - 1, t) + block_copies(bs[k - 1], t)
    }
}

/// The statement views of every block.
pub open spec fn all_views(blocks: Seq<crate::cfg::BasicBlock>) -> Seq<Seq<StmtV>> {
    blocks.map_values(|b: crate::cfg::BasicBlock| view_stmts(b.statements@))
}

/// Every phi argument names a block below `size`.
pub open spec fn phi_args_below(blocks: Seq<crate::cfg::BasicBlock>) -> bool {
    forall|b: int, i: int| 0 <= b < blocks.len() && 0 <= i < blocks[b].statements@.len()
        ==> phi_args_ok((#[trigger] blocks[b].statements@[i])@, blocks.len())
}

/// A phi assignment's arguments name blocks below `size`.
pub open spec fn phi_args_ok(s: StmtV, size: nat) -> bool {
    match s {
        StmtV::Tac(_, ExprV::Phi(args)) => forall|j: int| 0 <= j < args.len() ==> (#[trigger] args[j]).1 < size,
        _ => true,
    }
}

} // verus!

verus! {

/// No statement of the list is a phi assignment.
pub open spec fn no_phis(s: Seq<StmtV>) -> bool {
    forall|i: int| 0 <= i < s.len() ==> !is_phi(#[trigger] s[i])
}

proof fn lemma_non_phis_concat(a: Seq<StmtV>, b: Seq<StmtV>)
    ensures
        non_phis(a + b) == non_phis(a) + non_phis(b),
    decreases b.len(),
{
    if b.len() == 0 {
        assert(a + b =~= a);
        assert(non_phis(a) + non_phis(b) =~= non_phis(a));
    } else {
        assert((a + b).drop_last() =~= a + b.drop_last());
        lemma_non_phis_concat(a, b.drop_last());
        assert(non_phis(a + b) =~= non_phis(a) + non_phis(b));
    }
}

proof fn lemma_block_copies_concat(a: Seq<StmtV>, b: Seq<StmtV>, t: usize)
    ensures
        block_copies(a + b, t) == block_copies(a, t) + block_copies(b, t),
    decreases b.len(),
{
    if b.len() == 0 {
        assert(a + b =~= a);
        assert(block_copies(a, t) + block_copies(b, t) =~= block_copies(a, t));
    } else {
        assert((a + b).drop_last() =~= a + b.drop_last());
        lemma_block_copies_concat(a, b.drop_last(), t);
        assert(block_copies(a + b, t) =~= block_copies(a, t) + block_copies(b, t));
    }
}

proof fn lemma_no_phis_plain(s: Seq<StmtV>, t: usize)
    requires
        no_phis(s),
    ensures
        non_phis(s) == s,
        block_copies(s, t) == Seq::<StmtV>::empty(),
    decreases s.len(),
{
    if s.len() > 0 {
        assert(no_phis(s.drop_last()));
        lemma_no_phis_plain(s.drop_last(), t);
        assert(!is_phi(s[s.len() - 1]));
        assert(non_phis(s) =~= s);
    }
}

proof fn lemma_phi_copies_plain(a0: Oper, args: Seq<(Oper, usize)>, t: usize)
    ensures
        no_phis(phi_copies(a0, args, t)),
    decreases args.len(),
{
    if args.len() > 0 {
        lemma_phi_copies_plain(a0, args.drop_last(), t);
    }
}

proof fn lemma_block_copies_plain(s: Seq<StmtV>, t: usize)
    ensures
        no_phis(block_copies(s, t)),
    decreases s.len(),
{
    if s.len() > 0 {
        lemma_block_copies_plain(s.drop_last(), t);
        match s.last() {
            StmtV::Tac(a0, ExprV::Phi(args)) => lemma_phi_copies_plain(a0, args, t),
            _ => {},
        }
    }
}

proof fn lemma_gathered_plain(bs: Seq<Seq<StmtV>>, k: int, t: usize)
    ensures
        no_phis(gathered_copies(bs, k, t)),
    decreases k,
{
    if k > 0 {
        lemma_gathered_plain(bs, k - 1, t);
        lemma_block_copies_plain(bs[k - 1], t);
    }
}

/// Replaces each phi assignment `a0 := phi(.., (ai, bi), ..)` by copies
/// `a0 := ai` appended to the blocks `bi`, block by block; the phi
/// assignments themselves are dropped.
#[verifier::spinoff_prover]
#[verifier::rlimit(40)]
pub fn remove_phi_functions(cfg: &mut CFG)
    requires
        phi_args_below(old(cfg).blocks@),
    ensures
        final(cfg).blocks@.len() == old(cfg).blocks@.len(),
        forall|t: int| 0 <= t < old(cfg).blocks@.len() ==> view_stmts(#[trigger] final(cfg).blocks@[t].statements@)
            == non_phis(all_views(old(cfg).blocks@)[t]) + gathered_copies(all_views(old(cfg).blocks@), old(cfg).blocks@.len() as int, t as usize),
        forall|t: int| 0 <= t < final(cfg).blocks@.len() ==> #[trigger] final(cfg).blocks@[t].label == old(cfg).blocks@[t].label
            && final(cfg).blocks@[t].goto == old(cfg).blocks@[t].goto,
        final(cfg).graph == old(cfg).graph,
        final(cfg).def == old(cfg).def,
        final(cfg).uses == old(cfg).uses,
        final(cfg).dom_ctx == old(cfg).dom_ctx,
        final(cfg).stack_offset == old(cfg).stack_offset,
{
    let ghost ov = all_views(old(cfg).blocks@);
    let size = cfg.blocks.len();
    let mut b0: usize = 0;
    proof {
        assert forall|t: int| 0 <= t < size implies view_stmts(#[trigger] cfg.blocks@[t].statements@)
            == ov[t] + gathered_copies(ov, 0, t as usize) by {
            assert(ov[t] + gathered_copies(ov, 0, t as usize) =~= ov[t]);
        }
    }
    while b0 < size
        invariant
            b0 <= size,
            size == cfg.blocks@.len(),
            ov == all_views(old(cfg).blocks@),
            ov.len() == size,
            old(cfg).blocks@.len() == size,
            phi_args_below(old(cfg).blocks@),
            forall|t: int| 0 <= t < size ==> view_stmts(#[trigger] cfg.blocks@[t].statements@)
                == (if t < b0 { non_phis(ov[t]) } else { ov[t] }) + gathered_copies(ov, b0 as int, t as usize),
            forall|t: int| 0 <= t < size ==> #[trigger] cfg.blocks@[t].label == old(cfg).blocks@[t].label
                && cfg.blocks@[t].goto == old(cfg).blocks@[t].goto,
            cfg.graph == old(cfg).graph,
            cfg.def == old(cfg).def,
            cfg.uses == old(cfg).uses,
            cfg.dom_ctx == old(cfg).dom_ctx,
            cfg.stack_offset == old(cfg).stack_offset,
        decreases size - b0,
    {
        let ghost base = all_views(cfg.blocks@);
        let snapshot = copy_stmts(&cfg.blocks[b0].statements);
        let ghost snap = view_stmts(snapshot@);
        proof {
            assert(snap == ov[b0 as int] + gathered_copies(ov, b0 as int, b0 as usize));
        }
        let mut to_remove: Vec<usize> = Vec::new();
        let mut index: usize = 0;
        assert(snap.take(0) =~= Seq::<StmtV>::empty());
        while index < snapshot.len()
            invariant
                index <= snapshot@.len(),
                snap == view_stmts(snapshot@),
                b0 < size,
                size == cfg.blocks@.len(),
                base.len() == size,
                ov.len() == size,
                old(cfg).blocks@.len() == size,
                phi_args_below(old(cfg).blocks@),
                ov == all_views(old(cfg).blocks@),
                snap == ov[b0 as int] + gathered_copies(ov, b0 as int, b0 as usize),
                forall|t: int| 0 <= t < size ==> view_stmts(#[trigger] cfg.blocks@[t].statements@)
                    == base[t] + block_copies(snap.take(index as int), t as usize),
                forall|x: usize| to_remove@.contains(x) <==> x < index && is_phi(snap[x as int]),
                forall|t: int| 0 <= t < size ==> #[trigger] cfg.blocks@[t].label == old(cfg).blocks@[t].label
                    && cfg.blocks@[t].goto == old(cfg).blocks@[t].goto,
                cfg.graph == old(cfg).graph,
                cfg.def == old(cfg).def,
                cfg.uses == old(cfg).uses,
                cfg.dom_ctx == old(cfg).dom_ctx,
                cfg.stack_offset == old(cfg).stack_offset,
            decreases snapshot@.len() - index,
        {
            assert(snap.take(index + 1).drop_last() =~= snap.take(index as int));
            match &snapshot[index] {
                Stmt::Tac(a0, Expr::Phi(args)) => {
                    let ghost pre = all_views(cfg.blocks@);
                    proof {
                        assert(snapshot@[index as int] == Stmt::Tac(*a0, Expr::Phi(*args)));
                        assert(snap.len() == snapshot@.len());
                        assert(snap[index as int] == snapshot@[index as int]@);
                        assert(snap[index as int] == StmtV::Tac(*a0, ExprV::Phi(args@)));
                        assert(is_phi(snap[index as int]));
                        let ob = ov[b0 as int];
                        assert(ob == view_stmts(old(cfg).blocks@[b0 as int].statements@));
                        if index < ob.len() {
                            assert(snap[index as int] == ob[index as int]);
                            assert(ob[index as int] == old(cfg).blocks@[b0 as int].statements@[index as int]@);
                            assert(phi_args_ok(old(cfg).blocks@[b0 as int].statements@[index as int]@, old(cfg).blocks@.len()));
                            assert(phi_args_ok(StmtV::Tac(*a0, ExprV::Phi(args@)), size as nat));
                        } else {
                            lemma_gathered_plain(ov, b0 as int, b0 as usize);
                            assert(snap[index as int] == gathered_copies(ov, b0 as int, b0 as usize)[index - ob.len()]);
                        }
                    }
                    let mut j: usize = 0;
                    assert(args@.take(0) =~= Seq::<(Oper, usize)>::empty());
                    while j < args.len()
                        invariant
                            j <= args@.len(),
                            size == cfg.blocks@.len(),
                            pre.len() == size,
                            forall|q: int| 0 <= q < args@.len() ==> (#[trigger] args@[q]).1 < size,
                            forall|t: int| 0 <= t < size ==> view_stmts(#[trigger] cfg.blocks@[t].statements@)
                                == pre[t] + phi_copies(*a0, args@.take(j as int), t as usize),
                            forall|t: int| 0 <= t < size ==> #[trigger] cfg.blocks@[t].label == old(cfg).blocks@[t].label
                                && cfg.blocks@[t].goto == old(cfg).blocks@[t].goto,
                            cfg.graph == old(cfg).graph,
                            cfg.def == old(cfg).def,
                            cfg.uses == old(cfg).uses,
                            cfg.dom_ctx == old(cfg).dom_ctx,
                            cfg.stack_offset == old(cfg).stack_offset,
                        decreases args@.len() - j,
                    {
                        let (ai, bi) = args[j];
                        let ghost before = cfg.blocks@;
                        cfg.blocks[bi].insert_at_end(Stmt::Tac(*a0, Expr::Oper(ai)));
                        proof {
                            assert(args@.take(j + 1).drop_last() =~= args@.take(j as int));
                            assert forall|t: int| 0 <= t < size implies view_stmts(#[trigger] cfg.blocks@[t].statements@)
                                == pre[t] + phi_copies(*a0, args@.take(j + 1), t as usize) by {
                                if t != bi as int {
                                    assert(cfg.blocks@[t] == before[t]);
                                    assert(phi_copies(*a0, args@.take(j + 1), t as usize) =~= phi_copies(*a0, args@.take(j as int), t as usize));
                                } else {
                                    assert(view_stmts(cfg.blocks@[t].statements@) =~= view_stmts(before[t].statements@).push(StmtV::Tac(*a0, ExprV::Oper(ai))));
                                    assert(pre[t] + phi_copies(*a0, args@.take(j + 1), t as usize) =~=
                                        (pre[t] + phi_copies(*a0, args@.take(j as int), t as usize)).push(StmtV::Tac(*a0, ExprV::Oper(ai))));
                                }
                            }
                            assert forall|t: int| 0 <= t < size implies #[trigger] cfg.blocks@[t].label == old(cfg).blocks@[t].label
                                && cfg.blocks@[t].goto == old(cfg).blocks@[t].goto by {
                                if t != bi as int {
                                    assert(cfg.blocks@[t] == before[t]);
                                }
                            }
                        }
                        j = j + 1;
                    }
                    let ghost tr = to_remove@;
                    to_remove.push(index);
                    proof {
                        assert forall|x: usize| to_remove@.contains(x) <==> x < index + 1 && is_phi(snap[x as int]) by {
                            vstd::seq_lib::lemma_seq_contains_after_push(tr, index, x);
                        }
                        assert(args@.take(args@.len() as int) =~= args@);
                        assert forall|t: int| 0 <= t < size implies view_stmts(#[trigger] cfg.blocks@[t].statements@)
                            == base[t] + block_copies(snap.take(index + 1), t as usize) by {
                            assert(pre[t] == base[t] + block_copies(snap.take(index as int), t as usize));
                        }
                    }
                },
                _ => {
                    proof {
                        assert(snap[index as int] == snapshot@[index as int]@);
                        assert(!is_phi(snap[index as int]));
                        assert(snap.take(index + 1).last() == snap[index as int]);
                        assert forall|t: int| 0 <= t < size implies view_stmts(#[trigger] cfg.blocks@[t].statements@)
                            == base[t] + block_copies(snap.take(index + 1), t as usize) by {
                            assert(block_copies(snap.take(index + 1), t as usize) =~= block_copies(snap.take(index as int), t as usize));
                        }
                    }
                },
            }
            index = index + 1;
        }
        assert(snap.take(snapshot@.len() as int) =~= snap);
        // keep the statements whose position is not marked
        let cur_len = cfg.blocks[b0].statements.len();
        let ghost cur = view_stmts(cfg.blocks@[b0 as int].statements@);
        let mut filtered: Vec<Stmt> = Vec::new();
        let mut i: usize = 0;
        proof {
            lemma_block_copies_plain(snap, b0 as usize);
            assert(cur == base[b0 as int] + block_copies(snap, b0 as usize));
        }
        while i < cur_len
            invariant
                i <= cur_len,
                b0 < size,
                size == cfg.blocks@.len(),
                cur_len == cfg.blocks@[b0 as int].statements@.len(),
                cur == view_stmts(cfg.blocks@[b0 as int].statements@),
                cur == snap + block_copies(snap, b0 as usize) || cur == base[b0 as int] + block_copies(snap, b0 as usize),
                base[b0 as int] == snap,
                no_phis(block_copies(snap, b0 as usize)),
                forall|x: usize| to_remove@.contains(x) <==> x < snap.len() && is_phi(snap[x as int]),
                view_stmts(filtered@) == non_phis(cur.take(i as int)),
            decreases cur_len - i,
        {
            assert(cur.take(i + 1).drop_last() =~= cur.take(i as int));
            let mut marked = false;
            let mut q: usize = 0;
            while q < to_remove.len()
                invariant
                    q <= to_remove@.len(),
                    marked <==> exists|r: int| 0 <= r < q && to_remove@[r] == i,
                decreases to_remove@.len() - q,
            {
                if to_remove[q] == i {
                    marked = true;
                }
                q = q + 1;
            }
            proof {
                if i < snap.len() {
                    assert(cur[i as int] == snap[i as int]);
                } else {
                    assert(cur[i as int] == block_copies(snap, b0 as usize)[i - snap.len()]);
                }
                if marked {
                    assert(to_remove@.contains(i));
                } else {
                    assert(!to_remove@.contains(i));
                }
            }
            if !marked {
                let s = cfg.blocks[b0].statements[i].duplicate();
                filtered.push(s);
                assert(view_stmts(filtered@) =~= non_phis(cur.take(i + 1)));
            } else {
                assert(view_stmts(filtered@) =~= non_phis(cur.take(i + 1)));
            }
            i = i + 1;
        }
        let ghost before = cfg.blocks@;
        cfg.blocks[b0].statements = filtered;
        proof {
            assert(cur.take(cur_len as int) =~= cur);
            lemma_non_phis_concat(snap, block_copies(snap, b0 as usize));
            lemma_no_phis_plain(block_copies(snap, b0 as usize), b0 as usize);
            lemma_block_copies_concat(ov[b0 as int], gathered_copies(ov, b0 as int, b0 as usize), b0 as usize);
            lemma_gathered_plain(ov, b0 as int, b0 as usize);
            lemma_no_phis_plain(gathered_copies(ov, b0 as int, b0 as usize), b0 as usize);
            lemma_non_phis_concat(ov[b0 as int], gathered_copies(ov, b0 as int, b0 as usize));
            assert forall|t: int| 0 <= t < size implies view_stmts(#[trigger] cfg.blocks@[t].statements@)
                == (if t < b0 + 1 { non_phis(ov[t]) } else { ov[t] }) + gathered_copies(ov, b0 + 1, t as usize) by {
                lemma_block_copies_concat(ov[b0 as int], gathered_copies(ov, b0 as int, b0 as usize), t as usize);
                lemma_gathered_plain(ov, b0 as int, b0 as usize);
                lemma_no_phis_plain(gathered_copies(ov, b0 as int, b0 as usize), t as usize);
                if t != b0 as int {
                    assert(cfg.blocks@[t] == before[t]);
                    assert(((if t < b0 { non_phis(ov[t]) } else { ov[t] }) + gathered_copies(ov, b0 as int, t as usize))
                        + block_copies(snap, t as usize) =~= (if t < b0 + 1 { non_phis(ov[t]) } else { ov[t] }) + gathered_copies(ov, b0 + 1, t as usize));
                } else {
                    assert(view_stmts(cfg.blocks@[t].statements@) == non_phis(snap) + block_copies(snap, b0 as usize));
                    assert(non_phis(ov[t]) + gathered_copies(ov, b0 + 1, t as usize) =~=
                        (non_phis(ov[t]) + gathered_copies(ov, b0 as int, t as usize)) + block_copies(snap, t as usize));
                }
            }
            assert forall|t: int| 0 <= t < size implies #[trigger] cfg.blocks@[t].label == old(cfg).blocks@[t].label
                && cfg.blocks@[t].goto == old(cfg).blocks@[t].goto by {
                if t != b0 as int {
                    assert(cfg.blocks@[t] == before[t]);
                }
            }
        }
        b0 = b0 + 1;
    }
}

fn copy_stmts(b: &Vec<Stmt>) -> (r: Vec<Stmt>)
    ensures
        view_stmts(r@) == view_stmts(b@),
{
    let mut r: Vec<Stmt> = Vec::new();
    let mut j: usize = 0;
    while j < b.len()
        invariant
            j <= b@.len(),
            r@.len() == j,
            forall|x: int| 0 <= x < j ==> (#[trigger] r@[x])@ == b@[x]@,
        decreases b@.len() - j,
    {
        let s = b[j].duplicate();
        r.push(s);
        j = j + 1;
    }
    assert(view_stmts(r@) =~= view_stmts(b@));
    r
}

} // verus!

verus! {

/// What flattening makes of a statement: a parallel copy becomes its
/// copies as assignments, in their order; any other statement stays.
pub open spec fn expand(s: StmtV) -> Seq<StmtV> {
    match s {
        StmtV::ParallelCopy(c) => Seq::new(c.len(), |i: int| StmtV::Tac(c[i].0, ExprV::Oper(c[i].1))),
        _ => seq![s],
    }
}

/// The statements with every parallel copy flattened.
pub open spec fn flatten(ss: Seq<StmtV>) -> Seq<StmtV>
    decreases ss.len(),
{
    if ss.len() == 0 {
        Seq::empty()
    } else {
        flatten(ss.drop_last()) + expand(ss.last())
    }
}

/// Replaces each parallel copy by its copies as plain assignments, in
/// their order, in every block.
pub fn flatten_parallel_copies(cfg: &mut CFG)
    ensures
        final(cfg).blocks@.len() == old(cfg).blocks@.len(),
        forall|t: int| 0 <= t < old(cfg).blocks@.len() ==> view_stmts(#[trigger] final(cfg).blocks@[t].statements@)
            == flatten(view_stmts(old(cfg).blocks@[t].statements@)),
        forall|t: int| 0 <= t < final(cfg).blocks@.len() ==> #[trigger] final(cfg).blocks@[t].label == old(cfg).blocks@[t].label
            && final(cfg).blocks@[t].goto == old(cfg).blocks@[t].goto,
        final(cfg).graph == old(cfg).graph,
        final(cfg).def == old(cfg).def,
        final(cfg).uses == old(cfg).uses,
        final(cfg).dom_ctx == old(cfg).dom_ctx,
        final(cfg).stack_offset == old(cfg).stack_offset,
{
    let size = cfg.blocks.len();
    let mut b: usize = 0;
    while b < size
        invariant
            b <= size,
            size == cfg.blocks@.len(),
            old(cfg).blocks@.len() == size,
            forall|t: int| 0 <= t < b ==> view_stmts(#[trigger] cfg.blocks@[t].statements@)
                == flatten(view_stmts(old(cfg).blocks@[t].statements@)),
            forall|t: int| b <= t < size ==> #[trigger] cfg.blocks@[t] == old(cfg).blocks@[t],
            forall|t: int| 0 <= t < size ==> #[trigger] cfg.blocks@[t].label == old(cfg).blocks@[t].label
                && cfg.blocks@[t].goto == old(cfg).blocks@[t].goto,
            cfg.graph == old(cfg).graph,
            cfg.def == old(cfg).def,
            cfg.uses == old(cfg).uses,
            cfg.dom_ctx == old(cfg).dom_ctx,
            cfg.stack_offset == old(cfg).stack_offset,
        decreases size - b,
    {
        let ghost orig = view_stmts(cfg.blocks@[b as int].statements@);
        let n = cfg.blocks[b].statements.len();
        let mut out: Vec<Stmt> = Vec::new();
        let mut s: usize = 0;
        assert(orig.take(0) =~= Seq::<StmtV>::empty());
        while s < n
            invariant
                s <= n,
                b < size,
                size == cfg.blocks@.len(),
                n == cfg.blocks@[b as int].statements@.len(),
                orig == view_stmts(cfg.blocks@[b as int].statements@),
                view_stmts(out@) == flatten(orig.take(s as int)),
            decreases n - s,
        {
            assert(orig.take(s + 1).drop_last() =~= orig.take(s as int));
            assert(orig[s as int] == cfg.blocks@[b as int].statements@[s as int]@);
            match &cfg.blocks[b].statements[s] {
                Stmt::ParallelCopy(copies) => {
                    let ghost base = view_stmts(out@);
                    let m = copies.len();
                    let mut k: usize = 0;
                    while k < m
                        invariant
                            k <= m,
                            m == copies@.len(),
                            view_stmts(out@) == base + Seq::new(k as nat, |i: int| StmtV::Tac(copies@[i].0, ExprV::Oper(copies@[i].1))),
                        decreases m - k,
                    {
                        let (d, src) = copies[k];
                        assert((d, src) == copies@[k as int]);
                        let ghost prev = out@;
                        out.push(Stmt::Tac(d, Expr::Oper(src)));
                        assert(out@ == prev.push(Stmt::Tac(d, Expr::Oper(src))));
                        assert(view_stmts(out@) =~= view_stmts(prev).push(StmtV::Tac(d, ExprV::Oper(src))));
                        k = k + 1;
                        assert(view_stmts(out@) =~= base + Seq::new(k as nat, |i: int| StmtV::Tac(copies@[i].0, ExprV::Oper(copies@[i].1))));
                    }
                    assert(view_stmts(out@) =~= flatten(orig.take(s + 1)));
                },
                _ => {
                    let st = cfg.blocks[b].statements[s].duplicate();
                    out.push(st);
                    assert(view_stmts(out@) =~= flatten(orig.take(s + 1)));
                },
            }
            s = s + 1;
        }
        assert(orig.take(n as int) =~= orig);
        let ghost before = cfg.blocks@;
        cfg.blocks[b].statements = out;
        proof {
            assert forall|t: int| b + 1 <= t < size implies #[trigger] cfg.blocks@[t] == old(cfg).blocks@[t] by {
                assert(cfg.blocks@[t] == before[t]);
            }
            assert forall|t: int| 0 <= t < b + 1 implies view_stmts(#[trigger] cfg.blocks@[t].statements@)
                == flatten(view_stmts(old(cfg).blocks@[t].statements@)) by {
                if t < b {
                    assert(cfg.blocks@[t] == before[t]);
                }
            }
            assert forall|t: int| 0 <= t < size implies #[trigger] cfg.blocks@[t].label == old(cfg).blocks@[t].label
                && cfg.blocks@[t].goto == old(cfg).blocks@[t].goto by {
                if t != b as int {
                    assert(cfg.blocks@[t] == before[t]);
                }
            }
        }
        b = b + 1;
    }
}

/// `b` is statement `a` with its parallel copy, if it is one, put in
/// order by `sequence_parallel_copy`.
pub open spec fn copies_sequenced(a: StmtV, b: StmtV) -> bool {
    match a {
        StmtV::ParallelCopy(c) => b matches StmtV::ParallelCopy(c2) && (sequenceable(c) ==> implements(c2, c) && writes_only(c2, c))
            && (!sequenceable(c) ==> c2 == c),
        _ => b == a,
    }
}

/// The first `k` statements of `c` are those of `a` with their parallel
/// copies put in order; the others are as in `a`.
pub open spec fn sequenced_upto(a: Seq<StmtV>, c: Seq<StmtV>, k: int) -> bool {
    &&& a.len() == c.len()
    &&& forall|i: int| 0 <= i < a.len() ==> if i < k { copies_sequenced(a[i], #[trigger] c[i]) } else { c[i] == a[i] }
}

/// Sequences every parallel copy of every block.
pub fn sequence_parallel_copies(cfg: &mut CFG)
    ensures
        final(cfg).blocks@.len() == old(cfg).blocks@.len(),
        forall|t: int| 0 <= t < old(cfg).blocks@.len() ==> sequenced_upto(view_stmts(old(cfg).blocks@[t].statements@),
            view_stmts(#[trigger] final(cfg).blocks@[t].statements@), old(cfg).blocks@[t].statements@.len() as int),
        forall|t: int| 0 <= t < final(cfg).blocks@.len() ==> #[trigger] final(cfg).blocks@[t].label == old(cfg).blocks@[t].label
            && final(cfg).blocks@[t].goto == old(cfg).blocks@[t].goto,
        final(cfg).graph == old(cfg).graph,
        final(cfg).def == old(cfg).def,
        final(cfg).uses == old(cfg).uses,
        final(cfg).dom_ctx == old(cfg).dom_ctx,
        final(cfg).stack_offset == old(cfg).stack_offset,
{
    let size = cfg.blocks.len();
    let mut b: usize = 0;
    while b < size
        invariant
            b <= size,
            size == cfg.blocks@.len(),
            old(cfg).blocks@.len() == size,
            forall|t: int| 0 <= t < size ==> sequenced_upto(view_stmts(old(cfg).blocks@[t].statements@),
                view_stmts(#[trigger] cfg.blocks@[t].statements@), if t < b { old(cfg).blocks@[t].statements@.len() as int } else { 0 }),
            forall|t: int| 0 <= t < size ==> #[trigger] cfg.blocks@[t].label == old(cfg).blocks@[t].label
                && cfg.blocks@[t].goto == old(cfg).blocks@[t].goto,
            cfg.graph == old(cfg).graph,
            cfg.def == old(cfg).def,
            cfg.uses == old(cfg).uses,
            cfg.dom_ctx == old(cfg).dom_ctx,
            cfg.stack_offset == old(cfg).stack_offset,
        decreases size - b,
    {
        let n = cfg.blocks[b].statements.len();
        proof {
            assert(view_stmts(old(cfg).blocks@[b as int].statements@).len() == view_stmts(cfg.blocks@[b as int].statements@).len());
        }
        let mut s: usize = 0;
        while s < n
            invariant
                s <= n,
                b < size,
                size == cfg.blocks@.len(),
                old(cfg).blocks@.len() == size,
                n == cfg.blocks@[b as int].statements@.len(),
                n == old(cfg).blocks@[b as int].statements@.len(),
                forall|t: int| 0 <= t < size ==> sequenced_upto(view_stmts(old(cfg).blocks@[t].statements@),
                    view_stmts(#[trigger] cfg.blocks@[t].statements@),
                    if t < b { old(cfg).blocks@[t].statements@.len() as int } else if t == b { s as int } else { 0 }),
                forall|t: int| 0 <= t < size ==> #[trigger] cfg.blocks@[t].label == old(cfg).blocks@[t].label
                    && cfg.blocks@[t].goto == old(cfg).blocks@[t].goto,
                cfg.graph == old(cfg).graph,
                cfg.def == old(cfg).def,
                cfg.uses == old(cfg).uses,
                cfg.dom_ctx == old(cfg).dom_ctx,
                cfg.stack_offset == old(cfg).stack_offset,
            decreases n - s,
        {
            let ghost before = cfg.blocks@;
            proof {
                let ov = view_stmts(old(cfg).blocks@[b as int].statements@);
                let bv = view_stmts(before[b as int].statements@);
                assert(bv[s as int] == ov[s as int]);
                assert(bv[s as int] == before[b as int].statements@[s as int]@);
            }
            match &mut cfg.blocks[b].statements[s] {
                Stmt::ParallelCopy(pc) => {
                    sequence_parallel_copy(pc);
                },
                _ => {},
            }
            proof {
                let ov = view_stmts(old(cfg).blocks@[b as int].statements@);
                assert(copies_sequenced(ov[s as int], cfg.blocks@[b as int].statements@[s as int]@));
                assert forall|t: int| 0 <= t < size implies sequenced_upto(view_stmts(old(cfg).blocks@[t].statements@),
                    view_stmts(#[trigger] cfg.blocks@[t].statements@),
                    if t < b { old(cfg).blocks@[t].statements@.len() as int } else if t == b { s + 1 } else { 0 }) by {
                    if t != b as int {
                        assert(cfg.blocks@[t] == before[t]);
                    } else {
                        let cv = view_stmts(cfg.blocks@[t].statements@);
                        let bv = view_stmts(before[t].statements@);
                        assert forall|i: int| 0 <= i < ov.len() implies if i < s + 1 { copies_sequenced(ov[i], #[trigger] cv[i]) } else { cv[i] == ov[i] } by {
                            if i != s as int {
                                assert(cfg.blocks@[t].statements@[i] == before[t].statements@[i]);
                                assert(cv[i] == bv[i]);
                            } else {
                                assert(cv[i] == cfg.blocks@[t].statements@[i]@);
                            }
                        }
                    }
                }
                assert forall|t: int| 0 <= t < size implies #[trigger] cfg.blocks@[t].label == old(cfg).blocks@[t].label
                    && cfg.blocks@[t].goto == old(cfg).blocks@[t].goto by {
                    if t != b as int {
                        assert(cfg.blocks@[t] == before[t]);
                    }
                }
            }
            s = s + 1;
        }
        b = b + 1;
    }
}

} // verus!

verus! {

/// A variable at version zero; any other operand as it is.
pub open spec fn zero(o: Oper) -> Oper {
    match o {
        Oper::Var(v, _) => Oper::Var(v, 0),
        _ => o,
    }
}

/// A phi assignment's destination and arguments are variables.
pub open spec fn phi_vars_ok(s: StmtV) -> bool {
    match s {
        StmtV::Tac(a0, ExprV::Phi(args)) => a0 is Var && forall|j: int| 0 <= j < args.len() ==> (#[trigger] args[j]).0 is Var,
        _ => true,
    }
}

/// Every phi assignment of the blocks is over variables.
pub open spec fn phi_vars(blocks: Seq<crate::cfg::BasicBlock>) -> bool {
    forall|b: int, i: int| 0 <= b < blocks.len() && 0 <= i < blocks[b].statements@.len()
        ==> phi_vars_ok((#[trigger] blocks[b].statements@[i])@)
}

/// The copies `a0 := a0'` (version zero) for the phi assignments of a block.
pub open spec fn heads(ss: Seq<StmtV>) -> Seq<(Oper, Oper)>
    decreases ss.len(),
{
    if ss.len() == 0 {
        Seq::empty()
    } else {
        heads(ss.drop_last()) + match ss.last() {
            StmtV::Tac(a0, ExprV::Phi(_)) => seq![(a0, zero(a0))],
            _ => Seq::empty(),
        }
    }
}

/// The copies `ai' := ai` for the arguments `(ai, t)` of a phi function.
pub open spec fn tail_args(args: Seq<(Oper, usize)>, t: usize) -> Seq<(Oper, Oper)>
    decreases args.len(),
{
    if args.len() == 0 {
        Seq::empty()
    } else {
        tail_args(args.drop_last(), t) + if args.last().1 == t {
            seq![(zero(args.last().0), args.last().0)]
        } else {
            Seq::empty()
        }
    }
}

/// The copies that the phi assignments of a block send to the end of block `t`.
pub open spec fn block_tails(ss: Seq<StmtV>, t: usize) -> Seq<(Oper, Oper)>
    decreases ss.len(),
{
    if ss.len() == 0 {
        Seq::empty()
    } else {
        block_tails(ss.drop_last(), t) + match ss.last() {
            StmtV::Tac(_, ExprV::Phi(args)) => tail_args(args, t),
            _ => Seq::empty(),
        }
    }
}

/// The copies that the first `k` blocks send to the end of block `t`.
pub open spec fn all_tails(bs: Seq<Seq<StmtV>>, k: int, t: usize) -> Seq<(Oper, Oper)>
    decreases k,
{
    if k <= 0 {
        Seq::empty()
    } else {
        all_tails(bs, k - 1, t) + block_tails(bs[k - 1], t)
    }
}

/// A phi assignment with its destination and arguments at version zero.
pub open spec fn conv(s: StmtV) -> StmtV {
    match s {
        StmtV::Tac(a0, ExprV::Phi(args)) => StmtV::Tac(zero(a0), ExprV::Phi(args.map_values(|p: (Oper, usize)| (zero(p.0), p.1)))),
        _ => s,
    }
}

} // verus!

verus! {

/// A block between two parallel copies.
pub open spec fn layout(h: Seq<(Oper, Oper)>, m: Seq<StmtV>, t: Seq<(Oper, Oper)>) -> Seq<StmtV> {
    seq![StmtV::ParallelCopy(h)] + m + seq![StmtV::ParallelCopy(t)]
}

/// Pushes `c` onto the parallel copy that ends block `b`.
fn push_tail(cfg: &mut CFG, b: usize, c: (Oper, Oper), Ghost(h): Ghost<Seq<(Oper, Oper)>>, Ghost(m): Ghost<Seq<StmtV>>, Ghost(t): Ghost<Seq<(Oper, Oper)>>)
    requires
        b < old(cfg).blocks@.len(),
        view_stmts(old(cfg).blocks@[b as int].statements@) == layout(h, m, t),
    ensures
        final(cfg).blocks@.len() == old(cfg).blocks@.len(),
        view_stmts(final(cfg).blocks@[b as int].statements@) == layout(h, m, t.push(c)),
        forall|k: int| 0 <= k < old(cfg).blocks@.len() && k != b ==> #[trigger] final(cfg).blocks@[k] == old(cfg).blocks@[k],
        final(cfg).blocks@[b as int].label == old(cfg).blocks@[b as int].label,
        final(cfg).blocks@[b as int].goto == old(cfg).blocks@[b as int].goto,
        final(cfg).graph == old(cfg).graph,
        final(cfg).def == old(cfg).def,
        final(cfg).uses == old(cfg).uses,
        final(cfg).dom_ctx == old(cfg).dom_ctx,
        final(cfg).stack_offset == old(cfg).stack_offset,
{
    let ghost lay = layout(h, m, t);
    assert(view_stmts(cfg.blocks@[b as int].statements@).len() == lay.len());
    let last = cfg.blocks[b].statements.len() - 1;
    assert(cfg.blocks@[b as int].statements@[last as int]@ == lay[last as int]);
    let ghost before = cfg.blocks@[b as int].statements@;
    let mut v = match &cfg.blocks[b].statements[last] {
        Stmt::ParallelCopy(pc) => copy_copies(pc),
        _ => Vec::new(),
    };
    assert(v@ == t);
    v.push(c);
    cfg.blocks[b].statements[last] = Stmt::ParallelCopy(v);
    proof {
        let nl = layout(h, m, t.push(c));
        assert(nl.len() == lay.len());
        assert forall|k: int| 0 <= k < lay.len() implies #[trigger] view_stmts(cfg.blocks@[b as int].statements@)[k] == nl[k] by {
            if k != last {
                assert(cfg.blocks@[b as int].statements@[k] == before[k]);
                assert(view_stmts(before)[k] == lay[k]);
                if k == 0 {
                    assert(lay[k] == nl[k]);
                } else {
                    assert(lay[k] == m[k - 1]);
                    assert(nl[k] == m[k - 1]);
                }
            } else {
                assert(nl[k] == StmtV::ParallelCopy(t.push(c)));
            }
        }
        assert(view_stmts(cfg.blocks@[b as int].statements@) =~= nl);
    }
}

/// Pushes `c` onto the parallel copy that opens block `b`.
fn push_head(cfg: &mut CFG, b: usize, c: (Oper, Oper), Ghost(h): Ghost<Seq<(Oper, Oper)>>, Ghost(m): Ghost<Seq<StmtV>>, Ghost(t): Ghost<Seq<(Oper, Oper)>>)
    requires
        b < old(cfg).blocks@.len(),
        view_stmts(old(cfg).blocks@[b as int].statements@) == layout(h, m, t),
    ensures
        final(cfg).blocks@.len() == old(cfg).blocks@.len(),
        view_stmts(final(cfg).blocks@[b as int].statements@) == layout(h.push(c), m, t),
        forall|k: int| 0 <= k < old(cfg).blocks@.len() && k != b ==> #[trigger] final(cfg).blocks@[k] == old(cfg).blocks@[k],
        final(cfg).blocks@[b as int].label == old(cfg).blocks@[b as int].label,
        final(cfg).blocks@[b as int].goto == old(cfg).blocks@[b as int].goto,
        final(cfg).graph == old(cfg).graph,
        final(cfg).def == old(cfg).def,
        final(cfg).uses == old(cfg).uses,
        final(cfg).dom_ctx == old(cfg).dom_ctx,
        final(cfg).stack_offset == old(cfg).stack_offset,
{
    let ghost lay = layout(h, m, t);
    assert(view_stmts(cfg.blocks@[b as int].statements@).len() == lay.len());
    assert(cfg.blocks@[b as int].statements@[0]@ == lay[0]);
    let ghost before = cfg.blocks@[b as int].statements@;
    let mut v = match &cfg.blocks[b].statements[0] {
        Stmt::ParallelCopy(pc) => copy_copies(pc),
        _ => Vec::new(),
    };
    assert(v@ == h);
    v.push(c);
    cfg.blocks[b].statements[0] = Stmt::ParallelCopy(v);
    proof {
        let nl = layout(h.push(c), m, t);
        assert(nl.len() == lay.len());
        assert forall|k: int| 0 <= k < lay.len() implies #[trigger] view_stmts(cfg.blocks@[b as int].statements@)[k] == nl[k] by {
            if k != 0 {
                assert(cfg.blocks@[b as int].statements@[k] == before[k]);
                assert(view_stmts(before)[k] == lay[k]);
                if k == lay.len() - 1 {
                    assert(lay[k] == nl[k]);
                } else {
                    assert(lay[k] == m[k - 1]);
                    assert(nl[k] == m[k - 1]);
                }
            } else {
                assert(nl[k] == StmtV::ParallelCopy(h.push(c)));
            }
        }
        assert(view_stmts(cfg.blocks@[b as int].statements@) =~= nl);
    }
}

} // verus!

verus! {

pub open spec fn conv_h(ov: Seq<Seq<StmtV>>, b0: int, p: int, t: int) -> Seq<(Oper, Oper)> {
    if t < b0 { heads(ov[t]) } else if t == b0 { heads(ov[t].take(p)) } else { Seq::empty() }
}

pub open spec fn conv_m(ov: Seq<Seq<StmtV>>, b0: int, p: int, t: int) -> Seq<StmtV> {
    if t < b0 {
        ov[t].map_values(|s: StmtV| conv(s))
    } else if t == b0 {
        ov[t].take(p).map_values(|s: StmtV| conv(s)) + ov[t].skip(p)
    } else {
        ov[t]
    }
}

pub open spec fn conv_t(ov: Seq<Seq<StmtV>>, b0: int, p: int, t: int) -> Seq<(Oper, Oper)> {
    all_tails(ov, b0, t as usize) + if 0 <= b0 < ov.len() { block_tails(ov[b0].take(p), t as usize) } else { Seq::empty() }
}

fn zero_var(o: Oper) -> (r: Oper)
    ensures
        r == zero(o),
{
    match o {
        Oper::Var(v, _) => Oper::Var(v, 0),
        _ => o,
    }
}

fn copy_args(v: &Vec<(Oper, usize)>) -> (r: Vec<(Oper, usize)>)
    ensures
        r@ == v@,
{
    let mut r: Vec<(Oper, usize)> = Vec::new();
    let mut i: usize = 0;
    while i < v.len()
        invariant
            i <= v@.len(),
            r@ == v@.take(i as int),
        decreases v@.len() - i,
    {
        r.push(v[i]);
        i = i + 1;
        assert(r@ =~= v@.take(i as int));
    }
    assert(v@.take(v@.len() as int) =~= v@);
    r
}

proof fn lemma_conv_phi_step(ov: Seq<Seq<StmtV>>, b0: int, p: int, a0: Oper, targs: Seq<(Oper, usize)>, t: int)
    requires
        0 <= b0 < ov.len(),
        0 <= p < ov[b0].len(),
        ov[b0][p] == StmtV::Tac(a0, ExprV::Phi(targs)),
    ensures
        conv_t(ov, b0, p + 1, t) == conv_t(ov, b0, p, t) + tail_args(targs, t as usize),
        t == b0 ==> conv_h(ov, b0, p + 1, t) == conv_h(ov, b0, p, t).push((a0, zero(a0))),
        t == b0 ==> conv_m(ov, b0, p + 1, t) == conv_m(ov, b0, p, t).update(p, conv(ov[b0][p])),
        t != b0 ==> conv_h(ov, b0, p + 1, t) == conv_h(ov, b0, p, t),
        t != b0 ==> conv_m(ov, b0, p + 1, t) == conv_m(ov, b0, p, t),
{
    let ob = ov[b0];
    assert(ob.take(p + 1).drop_last() =~= ob.take(p));
    assert(conv_t(ov, b0, p + 1, t) =~= conv_t(ov, b0, p, t) + tail_args(targs, t as usize));
    if t == b0 {
        assert(conv_h(ov, b0, p + 1, t) =~= conv_h(ov, b0, p, t).push((a0, zero(a0))));
        assert(conv_m(ov, b0, p + 1, t) =~= conv_m(ov, b0, p, t).update(p, conv(ov[b0][p])));
    }
}

proof fn lemma_conv_plain_step(ov: Seq<Seq<StmtV>>, b0: int, p: int, t: int)
    requires
        0 <= b0 < ov.len(),
        0 <= p < ov[b0].len(),
        !is_phi(ov[b0][p]),
    ensures
        conv_t(ov, b0, p + 1, t) == conv_t(ov, b0, p, t),
        conv_h(ov, b0, p + 1, t) == conv_h(ov, b0, p, t),
        conv_m(ov, b0, p + 1, t) == conv_m(ov, b0, p, t),
{
    let ob = ov[b0];
    assert(ob.take(p + 1).drop_last() =~= ob.take(p));
    assert(conv_t(ov, b0, p + 1, t) =~= conv_t(ov, b0, p, t));
    assert(conv_h(ov, b0, p + 1, t) =~= conv_h(ov, b0, p, t));
    if t == b0 {
        assert(conv(ob[p]) == ob[p]);
        assert(conv_m(ov, b0, p + 1, t) =~= conv_m(ov, b0, p, t));
    }
}

proof fn lemma_layout_update(h: Seq<(Oper, Oper)>, m: Seq<StmtV>, tl: Seq<(Oper, Oper)>, p: int, x: StmtV)
    requires
        0 <= p < m.len(),
    ensures
        layout(h, m.update(p, x), tl) == layout(h, m, tl).update(p + 1, x),
{
    assert(layout(h, m.update(p, x), tl) =~= layout(h, m, tl).update(p + 1, x));
}

/// Makes the phi assignments conventional: every block is framed by two
/// parallel copies; each phi argument `(ai, bi)` becomes `ai'` (version
/// zero) with the copy `ai' := ai` at the end of block `bi`, and each phi
/// destination `a0` becomes `a0'` with the copy `a0 := a0'` at the head of
/// its block.
#[verifier::spinoff_prover]
#[verifier::rlimit(60)]
pub fn convert_to_conventional_ssa(cfg: &mut CFG)
    requires
        phi_args_below(old(cfg).blocks@),
        phi_vars(old(cfg).blocks@),
    ensures
        final(cfg).blocks@.len() == old(cfg).blocks@.len(),
        forall|t: int| 0 <= t < old(cfg).blocks@.len() ==> view_stmts(#[trigger] final(cfg).blocks@[t].statements@)
            == layout(heads(all_views(old(cfg).blocks@)[t]),
                all_views(old(cfg).blocks@)[t].map_values(|s: StmtV| conv(s)),
                all_tails(all_views(old(cfg).blocks@), old(cfg).blocks@.len() as int, t as usize)),
        forall|t: int| 0 <= t < final(cfg).blocks@.len() ==> #[trigger] final(cfg).blocks@[t].label == old(cfg).blocks@[t].label
            && final(cfg).blocks@[t].goto == old(cfg).blocks@[t].goto,
        final(cfg).graph == old(cfg).graph,
        final(cfg).def == old(cfg).def,
        final(cfg).uses == old(cfg).uses,
        final(cfg).dom_ctx == old(cfg).dom_ctx,
        final(cfg).stack_offset == old(cfg).stack_offset,
{
    let ghost ov = all_views(old(cfg).blocks@);
    let size = cfg.blocks.len();
    let mut b: usize = 0;
    while b < size
        invariant
            b <= size,
            size == cfg.blocks@.len(),
            old(cfg).blocks@.len() == size,
            ov == all_views(old(cfg).blocks@),
            forall|t: int| 0 <= t < b ==> view_stmts(#[trigger] cfg.blocks@[t].statements@) == layout(Seq::empty(), ov[t], Seq::empty()),
            forall|t: int| b <= t < size ==> #[trigger] cfg.blocks@[t] == old(cfg).blocks@[t],
            forall|t: int| 0 <= t < size ==> #[trigger] cfg.blocks@[t].label == old(cfg).blocks@[t].label
                && cfg.blocks@[t].goto == old(cfg).blocks@[t].goto,
            cfg.graph == old(cfg).graph,
            cfg.def == old(cfg).def,
            cfg.uses == old(cfg).uses,
            cfg.dom_ctx == old(cfg).dom_ctx,
            cfg.stack_offset == old(cfg).stack_offset,
        decreases size - b,
    {
        let ghost before = cfg.blocks@;
        cfg.blocks[b].insert_at_beginning(Stmt::ParallelCopy(Vec::new()));
        cfg.blocks[b].insert_at_end(Stmt::ParallelCopy(Vec::new()));
        proof {
            assert(ov[b as int] == view_stmts(old(cfg).blocks@[b as int].statements@));
            assert(view_stmts(cfg.blocks@[b as int].statements@) =~= layout(Seq::empty(), ov[b as int], Seq::empty()));
            assert forall|t: int| 0 <= t < size && t != b implies #[trigger] cfg.blocks@[t] == before[t] by {}
        }
        b = b + 1;
    }
    proof {
        assert forall|t: int| 0 <= t < size implies view_stmts(#[trigger] cfg.blocks@[t].statements@)
            == layout(conv_h(ov, 0, 0, t), conv_m(ov, 0, 0, t), conv_t(ov, 0, 0, t)) by {
            assert(ov[0].take(0) =~= Seq::<StmtV>::empty());
            assert(ov[t].take(0).map_values(|s: StmtV| conv(s)) + ov[t].skip(0) =~= ov[t]);
            assert(conv_t(ov, 0, 0, t) =~= Seq::<(Oper, Oper)>::empty());
            assert(conv_h(ov, 0, 0, t) =~= Seq::<(Oper, Oper)>::empty());
        }
    }
    let mut b0: usize = 0;
    while b0 < size
        invariant
            b0 <= size,
            size == cfg.blocks@.len(),
            old(cfg).blocks@.len() == size,
            ov == all_views(old(cfg).blocks@),
            ov.len() == size,
            phi_args_below(old(cfg).blocks@),
            phi_vars(old(cfg).blocks@),
            forall|t: int| 0 <= t < size ==> view_stmts(#[trigger] cfg.blocks@[t].statements@)
                == layout(conv_h(ov, b0 as int, 0, t), conv_m(ov, b0 as int, 0, t), conv_t(ov, b0 as int, 0, t)),
            forall|t: int| 0 <= t < size ==> #[trigger] cfg.blocks@[t].label == old(cfg).blocks@[t].label
                && cfg.blocks@[t].goto == old(cfg).blocks@[t].goto,
            cfg.graph == old(cfg).graph,
            cfg.def == old(cfg).def,
            cfg.uses == old(cfg).uses,
            cfg.dom_ctx == old(cfg).dom_ctx,
            cfg.stack_offset == old(cfg).stack_offset,
        decreases size - b0,
    {
        let ghost ob = ov[b0 as int];
        proof {
            assert(ob == view_stmts(old(cfg).blocks@[b0 as int].statements@));
            assert(view_stmts(cfg.blocks@[b0 as int].statements@).len() == ob.len() + 2) by {
                assert(ob.take(0).map_values(|s: StmtV| conv(s)) + ob.skip(0) =~= ob);
            }
        }
        let n = cfg.blocks[b0].statements.len() - 2;
        let mut p: usize = 0;
        while p < n
            invariant
                p <= n,
                n == ob.len(),
                b0 < size,
                ob == ov[b0 as int],
                ob == view_stmts(old(cfg).blocks@[b0 as int].statements@),
                size == cfg.blocks@.len(),
                old(cfg).blocks@.len() == size,
                ov == all_views(old(cfg).blocks@),
                ov.len() == size,
                phi_args_below(old(cfg).blocks@),
                phi_vars(old(cfg).blocks@),
                forall|t: int| 0 <= t < size ==> view_stmts(#[trigger] cfg.blocks@[t].statements@)
                    == layout(conv_h(ov, b0 as int, p as int, t), conv_m(ov, b0 as int, p as int, t), conv_t(ov, b0 as int, p as int, t)),
                forall|t: int| 0 <= t < size ==> #[trigger] cfg.blocks@[t].label == old(cfg).blocks@[t].label
                    && cfg.blocks@[t].goto == old(cfg).blocks@[t].goto,
                cfg.graph == old(cfg).graph,
                cfg.def == old(cfg).def,
                cfg.uses == old(cfg).uses,
                cfg.dom_ctx == old(cfg).dom_ctx,
                cfg.stack_offset == old(cfg).stack_offset,
            decreases n - p,
        {
            let i = p + 1;
            proof {
                let mm = conv_m(ov, b0 as int, p as int, b0 as int);
                assert(mm[p as int] == ob[p as int]);
                let lay = layout(conv_h(ov, b0 as int, p as int, b0 as int), mm, conv_t(ov, b0 as int, p as int, b0 as int));
                assert(lay[i as int] == mm[p as int]);
                assert(view_stmts(cfg.blocks@[b0 as int].statements@)[i as int] == cfg.blocks@[b0 as int].statements@[i as int]@);
                assert(cfg.blocks@[b0 as int].statements@[i as int]@ == ob[p as int]);
                assert(ob[p as int] == old(cfg).blocks@[b0 as int].statements@[p as int]@);
                assert(phi_vars_ok(ob[p as int]));
                assert(phi_args_ok(ob[p as int], size as nat));
                assert(ob.take(p + 1).drop_last() =~= ob.take(p as int));
            }
            let phi = match &cfg.blocks[b0].statements[i] {
                Stmt::Tac(a0, Expr::Phi(args)) => Some((*a0, copy_args(args))),
                _ => None,
            };
            match phi {
                Some((a0, args)) => {
                    let ghost targs = args@;
                    assert(ob[p as int] == StmtV::Tac(a0, ExprV::Phi(targs)));
                    let mut new_args: Vec<(Oper, usize)> = Vec::new();
                    let mut j: usize = 0;
                    assert(targs.take(0) =~= Seq::<(Oper, usize)>::empty());
                    while j < args.len()
                        invariant
                            j <= targs.len(),
                            args@ == targs,
                            forall|q: int| 0 <= q < targs.len() ==> (#[trigger] targs[q]).1 < size,
                            new_args@ == targs.take(j as int).map_values(|pr: (Oper, usize)| (zero(pr.0), pr.1)),
                            size == cfg.blocks@.len(),
                            forall|t: int| 0 <= t < size ==> view_stmts(#[trigger] cfg.blocks@[t].statements@)
                                == layout(conv_h(ov, b0 as int, p as int, t), conv_m(ov, b0 as int, p as int, t),
                                    conv_t(ov, b0 as int, p as int, t) + tail_args(targs.take(j as int), t as usize)),
                            forall|t: int| 0 <= t < size ==> #[trigger] cfg.blocks@[t].label == old(cfg).blocks@[t].label
                                && cfg.blocks@[t].goto == old(cfg).blocks@[t].goto,
                            cfg.graph == old(cfg).graph,
                            cfg.def == old(cfg).def,
                            cfg.uses == old(cfg).uses,
                            cfg.dom_ctx == old(cfg).dom_ctx,
                            cfg.stack_offset == old(cfg).stack_offset,
                        decreases targs.len() - j,
                    {
                        let (ai, bi) = args[j];
                        let ai_prime = zero_var(ai);
                        let ghost before = cfg.blocks@;
                        proof {
                            assert(targs.take(j as int) + seq![targs[j as int]] =~= targs.take(j + 1));
                            assert(targs.take(j + 1).drop_last() =~= targs.take(j as int));
                        }
                        push_tail(cfg, bi, (ai_prime, ai), Ghost(conv_h(ov, b0 as int, p as int, bi as int)),
                            Ghost(conv_m(ov, b0 as int, p as int, bi as int)),
                            Ghost(conv_t(ov, b0 as int, p as int, bi as int) + tail_args(targs.take(j as int), bi)));
                        new_args.push((ai_prime, bi));
                        proof {
                            assert(new_args@ =~= targs.take(j + 1).map_values(|pr: (Oper, usize)| (zero(pr.0), pr.1)));
                            assert forall|t: int| 0 <= t < size implies view_stmts(#[trigger] cfg.blocks@[t].statements@)
                                == layout(conv_h(ov, b0 as int, p as int, t), conv_m(ov, b0 as int, p as int, t),
                                    conv_t(ov, b0 as int, p as int, t) + tail_args(targs.take(j + 1), t as usize)) by {
                                if t != bi as int {
                                    assert(cfg.blocks@[t] == before[t]);
                                    assert(tail_args(targs.take(j + 1), t as usize) =~= tail_args(targs.take(j as int), t as usize));
                                } else {
                                    assert(conv_t(ov, b0 as int, p as int, t) + tail_args(targs.take(j + 1), t as usize) =~=
                                        (conv_t(ov, b0 as int, p as int, t) + tail_args(targs.take(j as int), t as usize)).push((ai_prime, ai)));
                                }
                            }
                            assert forall|t: int| 0 <= t < size implies #[trigger] cfg.blocks@[t].label == old(cfg).blocks@[t].label
                                && cfg.blocks@[t].goto == old(cfg).blocks@[t].goto by {
                                if t != bi as int {
                                    assert(cfg.blocks@[t] == before[t]);
                                }
                            }
                        }
                        j = j + 1;
                    }
                    assert(targs.take(targs.len() as int) =~= targs);
                    let a0_prime = zero_var(a0);
                    let ghost before2 = cfg.blocks@;
                    push_head(cfg, b0, (a0, a0_prime), Ghost(conv_h(ov, b0 as int, p as int, b0 as int)),
                        Ghost(conv_m(ov, b0 as int, p as int, b0 as int)),
                        Ghost(conv_t(ov, b0 as int, p as int, b0 as int) + tail_args(targs, b0)));
                    let ghost before3 = cfg.blocks@[b0 as int].statements@;
                    proof {
                        assert(view_stmts(before3).len() == before3.len());
                        lemma_conv_phi_step(ov, b0 as int, p as int, a0, targs, b0 as int);
                        assert(conv_m(ov, b0 as int, p as int, b0 as int).len() == n);
                    }
                    cfg.blocks[b0].statements[i] = Stmt::Tac(a0_prime, Expr::Phi(new_args));
                    proof {
                        assert(conv(ob[p as int]) == StmtV::Tac(a0_prime, ExprV::Phi(new_args@)));
                        assert forall|t: int| 0 <= t < size implies view_stmts(#[trigger] cfg.blocks@[t].statements@)
                            == layout(conv_h(ov, b0 as int, p + 1, t), conv_m(ov, b0 as int, p + 1, t), conv_t(ov, b0 as int, p + 1, t)) by {
                            lemma_conv_phi_step(ov, b0 as int, p as int, a0, targs, t);
                            if t != b0 as int {
                                assert(cfg.blocks@[t] == before2[t]);
                            } else {
                                let m0 = conv_m(ov, b0 as int, p as int, t);
                                let hh = conv_h(ov, b0 as int, p + 1, t);
                                let tt = conv_t(ov, b0 as int, p + 1, t);
                                lemma_layout_update(hh, m0, tt, p as int, conv(ob[p as int]));
                                assert(view_stmts(cfg.blocks@[t].statements@) =~= view_stmts(before3).update(i as int, conv(ob[p as int])));
                            }
                        }
                        assert forall|t: int| 0 <= t < size implies #[trigger] cfg.blocks@[t].label == old(cfg).blocks@[t].label
                            && cfg.blocks@[t].goto == old(cfg).blocks@[t].goto by {
                            if t != b0 as int {
                                assert(cfg.blocks@[t] == before2[t]);
                            }
                        }
                    }
                },
                None => {
                    proof {
                        assert(!is_phi(ob[p as int]));
                        assert forall|t: int| 0 <= t < size implies view_stmts(#[trigger] cfg.blocks@[t].statements@)
                            == layout(conv_h(ov, b0 as int, p + 1, t), conv_m(ov, b0 as int, p + 1, t), conv_t(ov, b0 as int, p + 1, t)) by {
                            lemma_conv_plain_step(ov, b0 as int, p as int, t);
                        }
                    }
                },
            }
            p = p + 1;
        }
        proof {
            assert forall|t: int| 0 <= t < size implies view_stmts(#[trigger] cfg.blocks@[t].statements@)
                == layout(conv_h(ov, b0 + 1, 0, t), conv_m(ov, b0 + 1, 0, t), conv_t(ov, b0 + 1, 0, t)) by {
                assert(ob.take(n as int) =~= ob);
                assert(conv_h(ov, b0 + 1, 0, t) =~= conv_h(ov, b0 as int, n as int, t));
                assert(conv_m(ov, b0 + 1, 0, t) =~= conv_m(ov, b0 as int, n as int, t));
                if b0 + 1 < size {
                    assert(ov[b0 + 1].take(0) =~= Seq::<StmtV>::empty());
                }
                assert(conv_t(ov, b0 + 1, 0, t) =~= conv_t(ov, b0 as int, n as int, t));
            }
        }
        b0 = b0 + 1;
    }
    proof {
        assert forall|t: int| 0 <= t < size implies view_stmts(#[trigger] cfg.blocks@[t].statements@)
            == layout(heads(ov[t]), ov[t].map_values(|s: StmtV| conv(s)), all_tails(ov, size as int, t as usize)) by {
            assert(conv_t(ov, size as int, 0, t) =~= all_tails(ov, size as int, t as usize));
        }
    }
}

} // verus!

verus! {

/// No statement of the list is a parallel copy.
pub open spec fn no_copies(s: Seq<StmtV>) -> bool {
    forall|i: int| 0 <= i < s.len() ==> !(#[trigger] s[i] is ParallelCopy)
}

proof fn lemma_non_phis_clean(ss: Seq<StmtV>)
    ensures
        no_phis(non_phis(ss)),
    decreases ss.len(),
{
    if ss.len() > 0 {
        lemma_non_phis_clean(ss.drop_last());
    }
}

proof fn lemma_flatten_clean(ss: Seq<StmtV>)
    requires
        no_phis(ss),
    ensures
        no_phis(flatten(ss)),
        no_copies(flatten(ss)),
    decreases ss.len(),
{
    if ss.len() > 0 {
        assert(no_phis(ss.drop_last()));
        lemma_flatten_clean(ss.drop_last());
        assert(!is_phi(ss[ss.len() - 1]));
    }
}

proof fn lemma_conv_block_args(ss: Seq<StmtV>, size: nat, h: Seq<(Oper, Oper)>, tl: Seq<(Oper, Oper)>, lay: Seq<StmtV>)
    requires
        forall|i: int| 0 <= i < ss.len() ==> phi_args_ok(#[trigger] ss[i], size),
        lay == layout(h, ss.map_values(|s: StmtV| conv(s)), tl),
    ensures
        forall|i: int| 0 <= i < lay.len() ==> phi_args_ok(#[trigger] lay[i], size),
{
    assert forall|i: int| 0 <= i < lay.len() implies phi_args_ok(#[trigger] lay[i], size) by {
        if 0 < i < lay.len() - 1 {
            let s0 = ss[i - 1];
            assert(lay[i] == conv(s0));
            assert(phi_args_ok(s0, size));
            match s0 {
                StmtV::Tac(a0, ExprV::Phi(args)) => {
                    let nargs = args.map_values(|p: (Oper, usize)| (zero(p.0), p.1));
                    assert forall|j: int| 0 <= j < nargs.len() implies (#[trigger] nargs[j]).1 < size by {
                        assert(args[j].1 < size);
                    }
                },
                _ => {},
            }
        }
    }
}

/// The steps of leaving SSA form, block by block, from the statements
/// `ov` to `fv`: `r` is the conventional form of `ov` (each block's phi
/// operands at version zero, a parallel copy at its start that gives each
/// phi target the value of its version-zero name, and a parallel copy at
/// its end that gives the version-zero names the values of the phi
/// arguments coming from it) renamed again, which changes only versions; `x` is `r` with every phi assignment replaced by copies at the
/// end of each predecessor, and those parallel copies put in order; `fv`
/// is `x` with the copies flattened into assignments.
pub open spec fn destruct_steps(ov: Seq<Seq<StmtV>>, r: Seq<Seq<StmtV>>, x: Seq<Seq<StmtV>>, fv: Seq<Seq<StmtV>>) -> bool {
    let size = ov.len();
    &&& r.len() == size
    &&& x.len() == size
    &&& fv.len() == size
    &&& forall|t: int| 0 <= t < size ==> erase_views(#[trigger] r[t])
        == erase_views(layout(heads(ov[t]), ov[t].map_values(|s: StmtV| conv(s)), all_tails(ov, size as int, t as usize)))
    &&& forall|t: int| 0 <= t < size ==> sequenced_upto(non_phis(r[t]) + gathered_copies(r, size as int, t as usize),
        #[trigger] x[t], (non_phis(r[t]) + gathered_copies(r, size as int, t as usize)).len() as int)
    &&& forall|t: int| 0 <= t < size ==> #[trigger] fv[t] == flatten(x[t])
}

/// Takes the graph out of SSA form: the phi assignments are made
/// conventional, the variables renamed again, the phi assignments replaced
/// by copies in their predecessors, and the parallel copies sequenced and
/// flattened. No phi assignment and no parallel copy is left.
pub fn destruct_ssa(cfg: &mut CFG)
    requires
        phi_args_below(old(cfg).blocks@),
        phi_vars(old(cfg).blocks@),
        rename_ready(&*old(cfg)),
        old(cfg).blocks@.len() >= 1,
    ensures
        final(cfg).blocks@.len() == old(cfg).blocks@.len(),
        forall|t: int, i: int| 0 <= t < final(cfg).blocks@.len() && 0 <= i < final(cfg).blocks@[t].statements@.len()
            ==> !is_phi((#[trigger] final(cfg).blocks@[t].statements@[i])@) && !(final(cfg).blocks@[t].statements@[i]@ is ParallelCopy),
        forall|t: int| 0 <= t < final(cfg).blocks@.len() ==> #[trigger] final(cfg).blocks@[t].label == old(cfg).blocks@[t].label
            && final(cfg).blocks@[t].goto == old(cfg).blocks@[t].goto,
        final(cfg).graph == old(cfg).graph,
        final(cfg).def == old(cfg).def,
        final(cfg).uses == old(cfg).uses,
        final(cfg).dom_ctx == old(cfg).dom_ctx,
        final(cfg).stack_offset == old(cfg).stack_offset,
        exists|r: Seq<Seq<StmtV>>, x: Seq<Seq<StmtV>>| #[trigger] destruct_steps(all_views(old(cfg).blocks@), r, x, all_views(final(cfg).blocks@)),
{
    convert_to_conventional_ssa(cfg);
    proof {
        let ov = all_views(old(cfg).blocks@);
        let size = old(cfg).blocks@.len();
        assert forall|b: int, i: int| 0 <= b < cfg.blocks@.len() && 0 <= i < cfg.blocks@[b].statements@.len()
            implies phi_args_ok((#[trigger] cfg.blocks@[b].statements@[i])@, cfg.blocks@.len()) by {
            let ss = ov[b];
            assert(ss == view_stmts(old(cfg).blocks@[b].statements@));
            assert forall|k: int| 0 <= k < ss.len() implies phi_args_ok(#[trigger] ss[k], size) by {
                assert(ss[k] == old(cfg).blocks@[b].statements@[k]@);
            }
            lemma_conv_block_args(ss, size, heads(ss), all_tails(ov, size as int, b as usize), view_stmts(cfg.blocks@[b].statements@));
            assert(view_stmts(cfg.blocks@[b].statements@)[i] == cfg.blocks@[b].statements@[i]@);
        }
    }
    let ghost mid = cfg.blocks@;
    rename_variables(cfg);
    let ghost mid2 = cfg.blocks@;
    remove_phi_functions(cfg);
    let ghost mid3 = cfg.blocks@;
    sequence_parallel_copies(cfg);
    let ghost mid4 = cfg.blocks@;
    flatten_parallel_copies(cfg);
    proof {
        let ov2 = all_views(mid2);
        assert forall|t: int, i: int| 0 <= t < cfg.blocks@.len() && 0 <= i < cfg.blocks@[t].statements@.len()
            implies !is_phi((#[trigger] cfg.blocks@[t].statements@[i])@) && !(cfg.blocks@[t].statements@[i]@ is ParallelCopy) by {
            let v3 = view_stmts(mid3[t].statements@);
            assert(v3 == non_phis(ov2[t]) + gathered_copies(ov2, mid2.len() as int, t as usize));
            lemma_non_phis_clean(ov2[t]);
            lemma_gathered_plain(ov2, mid2.len() as int, t as usize);
            assert(no_phis(v3)) by {
                assert forall|k: int| 0 <= k < v3.len() implies !is_phi(#[trigger] v3[k]) by {
                    let a = non_phis(ov2[t]);
                    if k < a.len() {
                        assert(v3[k] == a[k]);
                    } else {
                        assert(v3[k] == gathered_copies(ov2, mid2.len() as int, t as usize)[k - a.len()]);
                    }
                }
            }
            let v4 = view_stmts(mid4[t].statements@);
            assert(sequenced_upto(v3, v4, mid3[t].statements@.len() as int));
            assert(no_phis(v4)) by {
                assert forall|k: int| 0 <= k < v4.len() implies !is_phi(#[trigger] v4[k]) by {
                    assert(copies_sequenced(v3[k], v4[k]));
                    assert(!is_phi(v3[k]));
                }
            }
            lemma_flatten_clean(v4);
            let fv = view_stmts(cfg.blocks@[t].statements@);
            assert(fv == flatten(v4));
            assert(fv[i] == cfg.blocks@[t].statements@[i]@);
        }
        assert forall|t: int| 0 <= t < cfg.blocks@.len() implies #[trigger] cfg.blocks@[t].label == old(cfg).blocks@[t].label
            && cfg.blocks@[t].goto == old(cfg).blocks@[t].goto by {
            assert(mid[t].label == old(cfg).blocks@[t].label);
            assert(mid2[t].label == mid[t].label);
            assert(mid3[t].label == mid2[t].label);
            assert(mid4[t].label == mid3[t].label);
        }
        let ov = all_views(old(cfg).blocks@);
        let size = ov.len();
        let r = all_views(mid2);
        let x = all_views(mid4);
        let fv = all_views(cfg.blocks@);
        assert forall|t: int| 0 <= t < size implies erase_views(#[trigger] r[t])
            == erase_views(layout(heads(ov[t]), ov[t].map_values(|s: StmtV| conv(s)), all_tails(ov, size as int, t as usize))) by {
            assert(erase_block(mid2[t].statements@) == erase_block(mid[t].statements@));
            assert(erase_views(r[t]) =~= erase_block(mid2[t].statements@));
            assert(erase_views(view_stmts(mid[t].statements@)) =~= erase_block(mid[t].statements@));
        }
        assert forall|t: int| 0 <= t < size implies sequenced_upto(non_phis(r[t]) + gathered_copies(r, size as int, t as usize),
            #[trigger] x[t], (non_phis(r[t]) + gathered_copies(r, size as int, t as usize)).len() as int) by {
            assert(view_stmts(mid3[t].statements@) == non_phis(r[t]) + gathered_copies(r, size as int, t as usize));
        }
        assert forall|t: int| 0 <= t < size implies #[trigger] fv[t] == flatten(x[t]) by {}
        assert(destruct_steps(ov, r, x, fv));
    }
}

} // verus!

verus! {

/// The versions that the definitions of variable `v` carry in the first
/// `s` statements of block `b`, in order.
pub open spec fn defs_of(bs: Seq<crate::cfg::BasicBlock>, v: usize, b: int, s: int) -> Seq<usize>
    decreases s,
{
    if s <= 0 {
        Seq::empty()
    } else {
        defs_of(bs, v, b, s - 1) + match def_var(stmt_at(bs, b, s - 1)) {
            Some(d) => if d.0 == v { seq![d.1] } else { Seq::empty() },
            None => Seq::empty(),
        }
    }
}

/// The version of `v` that reaches statement `s` of block `b`: that of the
/// last definition of `v` before it in `b`, or else the one that reaches
/// the end of `b`'s immediate dominator, or version zero at the root.
pub open spec fn reaching_version(bs: Seq<crate::cfg::BasicBlock>, idom: Seq<Option<usize>>, v: usize, b: int, s: int) -> usize
    decreases b, 1nat,
{
    let d = defs_of(bs, v, b, s);
    if d.len() > 0 {
        d.last()
    } else {
        entry_version(bs, idom, v, b)
    }
}

/// The version of `v` that reaches the start of block `b`.
pub open spec fn entry_version(bs: Seq<crate::cfg::BasicBlock>, idom: Seq<Option<usize>>, v: usize, b: int) -> usize
    decreases b, 0nat,
{
    if 0 <= b < idom.len() {
        match idom[b] {
            Some(p) => if (p as int) < b && (p as int) < bs.len() {
                reaching_version(bs, idom, v, p as int, bs[p as int].statements@.len() as int)
            } else {
                0
            },
            None => 0,
        }
    } else {
        0
    }
}

/// An operand read at statement `s` of block `b` carries the version that
/// reaches it, if it is a variable for which `has` holds.
pub open spec fn use_ok(bs: Seq<crate::cfg::BasicBlock>, idom: Seq<Option<usize>>, b: int, s: int, o: Oper, has: spec_fn(usize) -> bool) -> bool {
    match o {
        Oper::Var(v, i) => has(v) ==> i == reaching_version(bs, idom, v, b, s),
        _ => true,
    }
}

/// The statement holds a phi function.
pub open spec fn has_phi(s: StmtV) -> bool {
    s matches StmtV::Tac(_, ExprV::Phi(_)) || s matches StmtV::CJump(ExprV::Phi(_), _)
}

/// Every variable that statement `s` of block `b` reads, outside a phi
/// function, carries the version that reaches it, where `has` says the
/// variable is one that the code defines.
pub open spec fn stmt_uses_ok(bs: Seq<crate::cfg::BasicBlock>, idom: Seq<Option<usize>>, b: int, s: int, has: spec_fn(usize) -> bool) -> bool {
    !has_phi(stmt_at(bs, b, s)) ==> forall|k: int| 0 <= k < stmt_at(bs, b, s).uses().len() ==>
        use_ok(bs, idom, b, s, #[trigger] stmt_at(bs, b, s).uses()[k], has)
}

/// The variables that have a key among `keys`.
pub open spec fn key_vars(keys: Seq<(usize, bool)>) -> spec_fn(usize) -> bool {
    |v: usize| keys.contains((v, true))
}

/// The variables that some statement of the blocks defines.
pub open spec fn defined_vars(bs: Seq<crate::cfg::BasicBlock>) -> spec_fn(usize) -> bool {
    |v: usize| exists|b: int, s: int| #![trigger def_var(stmt_at(bs, b, s))]
        pos_ok(bs, b, s) && def_var(stmt_at(bs, b, s)) is Some && def_var(stmt_at(bs, b, s))->Some_0.0 == v
}

/// A read operand with the version on top of its variable's stack.
pub open spec fn renamed_use(o: Oper, vs: Versions) -> Oper {
    match o {
        Oper::Var(v, _) => match vs.top_of((v, true)) {
            Some(c) => Oper::Var(v, c),
            None => o,
        },
        _ => o,
    }
}

/// Block `a` is the same in both but for the arguments of its phi
/// functions, and its statements define the same.
pub open spec fn same_plain(bs1: Seq<crate::cfg::BasicBlock>, bs2: Seq<crate::cfg::BasicBlock>, a: int) -> bool {
    &&& defs_agree(bs1, bs2, a)
    &&& forall|t: int| 0 <= t < bs1[a].statements@.len() ==> #[trigger] is_phi(stmt_at(bs1, a, t)) == is_phi(stmt_at(bs2, a, t))
    &&& forall|t: int| 0 <= t < bs1[a].statements@.len() && !is_phi(stmt_at(bs2, a, t)) ==> #[trigger] stmt_at(bs1, a, t) == stmt_at(bs2, a, t)
}

proof fn lemma_same_plain_trans(a: Seq<crate::cfg::BasicBlock>, b: Seq<crate::cfg::BasicBlock>, c: Seq<crate::cfg::BasicBlock>, k: int)
    requires
        same_plain(a, b, k),
        same_plain(b, c, k),
    ensures
        same_plain(a, c, k),
{
    assert forall|t: int| 0 <= t < a[k].statements@.len() implies #[trigger] def_var(stmt_at(a, k, t)) == def_var(stmt_at(c, k, t)) by {
        assert(def_var(stmt_at(b, k, t)) == def_var(stmt_at(c, k, t)));
    }
    assert forall|t: int| 0 <= t < a[k].statements@.len() implies #[trigger] is_phi(stmt_at(a, k, t)) == is_phi(stmt_at(c, k, t)) by {
        assert(is_phi(stmt_at(b, k, t)) == is_phi(stmt_at(c, k, t)));
    }
    assert forall|t: int| 0 <= t < a[k].statements@.len() && !is_phi(stmt_at(c, k, t)) implies #[trigger] stmt_at(a, k, t) == stmt_at(c, k, t) by {
        assert(is_phi(stmt_at(b, k, t)) == is_phi(stmt_at(c, k, t)));
        assert(stmt_at(b, k, t) == stmt_at(c, k, t));
    }
}

/// What statements read keeps its versions where only phi arguments and
/// later definitions change.
proof fn lemma_uses_frame(bs1: Seq<crate::cfg::BasicBlock>, bs2: Seq<crate::cfg::BasicBlock>, idom: Seq<Option<usize>>, b: int, has: spec_fn(usize) -> bool)
    requires
        bs1.len() == bs2.len(),
        0 <= b < bs1.len(),
        forall|a: int| #[trigger] under(idom, b, a) ==> same_plain(bs1, bs2, a),
        uses_ok(bs1, idom, b, has),
    ensures
        uses_ok(bs2, idom, b, has),
{
    assert(under(idom, b, b));
    assert(same_plain(bs1, bs2, b));
    assert forall|s: int| 0 <= s < bs2[b].statements@.len() implies #[trigger] stmt_uses_ok(bs2, idom, b, s, has) by {
        assert(stmt_uses_ok(bs1, idom, b, s, has));
        if !has_phi(stmt_at(bs2, b, s)) {
            assert(is_phi(stmt_at(bs1, b, s)) == is_phi(stmt_at(bs2, b, s)));
            assert(stmt_at(bs1, b, s) == stmt_at(bs2, b, s));
            assert forall|a: int| #[trigger] under(idom, b, a) && a != b implies defs_agree(bs1, bs2, a) by {
                assert(same_plain(bs1, bs2, a));
            }
            assert forall|t: int| 0 <= t < s implies #[trigger] def_var(stmt_at(bs1, b, t)) == def_var(stmt_at(bs2, b, t)) by {}
            assert forall|k: int| 0 <= k < stmt_at(bs2, b, s).uses().len() implies
                use_ok(bs2, idom, b, s, #[trigger] stmt_at(bs2, b, s).uses()[k], has) by {
                assert(use_ok(bs1, idom, b, s, stmt_at(bs1, b, s).uses()[k], has));
                if let Oper::Var(v, i) = stmt_at(bs2, b, s).uses()[k] {
                    lemma_reach_frame(bs1, bs2, idom, v, b, s);
                }
            }
        }
    }
}

/// Every statement of block `b` reads the reaching versions.
pub open spec fn uses_ok(bs: Seq<crate::cfg::BasicBlock>, idom: Seq<Option<usize>>, b: int, has: spec_fn(usize) -> bool) -> bool {
    forall|s: int| 0 <= s < bs[b].statements@.len() ==> #[trigger] stmt_uses_ok(bs, idom, b, s, has)
}

/// No statement of the blocks is a parallel copy.
pub open spec fn copy_free(bs: Seq<crate::cfg::BasicBlock>) -> bool {
    forall|b: int, s: int| pos_ok(bs, b, s) ==> !(#[trigger] stmt_at(bs, b, s) is ParallelCopy)
}

/// Block `a` has as many statements in both, each defining the same.
pub open spec fn defs_agree(bs1: Seq<crate::cfg::BasicBlock>, bs2: Seq<crate::cfg::BasicBlock>, a: int) -> bool {
    &&& 0 <= a < bs1.len()
    &&& 0 <= a < bs2.len()
    &&& bs1[a].statements@.len() == bs2[a].statements@.len()
    &&& forall|t: int| 0 <= t < bs1[a].statements@.len() ==> #[trigger] def_var(stmt_at(bs1, a, t)) == def_var(stmt_at(bs2, a, t))
}

proof fn lemma_defs_of_frame(bs1: Seq<crate::cfg::BasicBlock>, bs2: Seq<crate::cfg::BasicBlock>, v: usize, b: int, s: int)
    requires
        forall|t: int| 0 <= t < s ==> #[trigger] def_var(stmt_at(bs1, b, t)) == def_var(stmt_at(bs2, b, t)),
    ensures
        defs_of(bs1, v, b, s) == defs_of(bs2, v, b, s),
    decreases s,
{
    if s > 0 {
        lemma_defs_of_frame(bs1, bs2, v, b, s - 1);
        assert(def_var(stmt_at(bs1, b, s - 1)) == def_var(stmt_at(bs2, b, s - 1)));
    }
}

/// The version reaching the start of `b` depends only on the definitions
/// in the blocks above `b`.
proof fn lemma_entry_frame(bs1: Seq<crate::cfg::BasicBlock>, bs2: Seq<crate::cfg::BasicBlock>, idom: Seq<Option<usize>>, v: usize, b: int)
    requires
        bs1.len() == bs2.len(),
        forall|a: int| #[trigger] under(idom, b, a) && a != b ==> defs_agree(bs1, bs2, a),
    ensures
        entry_version(bs1, idom, v, b) == entry_version(bs2, idom, v, b),
    decreases b,
{
    if 0 <= b < idom.len() {
        match idom[b] {
            Some(p) => {
                if (p as int) < b && (p as int) < bs1.len() {
                    let pi = p as int;
                    assert(under(idom, pi, pi));
                    assert(under(idom, b, pi));
                    assert(defs_agree(bs1, bs2, pi));
                    assert forall|a: int| #[trigger] under(idom, pi, a) && a != pi implies defs_agree(bs1, bs2, a) by {
                        lemma_under_trans(idom, b, pi, a);
                        lemma_under_below(idom, pi, a);
                    }
                    lemma_entry_frame(bs1, bs2, idom, v, pi);
                    let n = bs1[pi].statements@.len() as int;
                    assert forall|t: int| 0 <= t < n implies #[trigger] def_var(stmt_at(bs1, pi, t)) == def_var(stmt_at(bs2, pi, t)) by {}
                    lemma_defs_of_frame(bs1, bs2, v, pi, n);
                }
            },
            None => {},
        }
    }
}

/// The version reaching statement `s` of `b` depends only on the
/// definitions before it in `b` and in the blocks above `b`.
proof fn lemma_reach_frame(bs1: Seq<crate::cfg::BasicBlock>, bs2: Seq<crate::cfg::BasicBlock>, idom: Seq<Option<usize>>, v: usize, b: int, s: int)
    requires
        bs1.len() == bs2.len(),
        forall|a: int| #[trigger] under(idom, b, a) && a != b ==> defs_agree(bs1, bs2, a),
        forall|t: int| 0 <= t < s ==> #[trigger] def_var(stmt_at(bs1, b, t)) == def_var(stmt_at(bs2, b, t)),
    ensures
        reaching_version(bs1, idom, v, b, s) == reaching_version(bs2, idom, v, b, s),
{
    lemma_defs_of_frame(bs1, bs2, v, b, s);
    lemma_entry_frame(bs1, bs2, idom, v, b);
}


/// A variable or temporary stays one when renamed.
proof fn lemma_list_with_ssa(o: Oper, value: Oper, ssa: usize)
    ensures
        var_or_temp_list(oper_with_ssa(o, value, ssa)) == var_or_temp_list(o).map_values(|x: Oper| oper_with_ssa(x, value, ssa)),
{
    assert(var_or_temp_list(oper_with_ssa(o, value, ssa)) =~= var_or_temp_list(o).map_values(|x: Oper| oper_with_ssa(x, value, ssa)));
}

/// Renaming a read variable of a statement renames it in what the
/// statement reads.
proof fn lemma_use_map(s0: Stmt, s1: Stmt, value: Oper, ssa: usize)
    requires
        match s0 {
            Stmt::Tac(l, e) => s1 matches Stmt::Tac(nl, ne) && nl == l && ne == crate::ir::expr_with_ssa(e, value, ssa),
            Stmt::CJump(e, lab) => s1 == Stmt::CJump(crate::ir::expr_with_ssa(e, value, ssa), lab),
            Stmt::StackPush(o) => s1 == Stmt::StackPush(oper_with_ssa(o, value, ssa)),
            Stmt::CastAs(o, t) => s1 == Stmt::CastAs(oper_with_ssa(o, value, ssa), t),
            Stmt::Return(Some(o)) => s1 == Stmt::Return(Some(oper_with_ssa(o, value, ssa))),
            Stmt::ParallelCopy(c) => true,
            _ => s1 == s0,
        },
        !has_phi(s0@),
        !(s0@ is ParallelCopy),
    ensures
        s1@.uses() == s0@.uses().map_values(|x: Oper| oper_with_ssa(x, value, ssa)),
{
    let e_opt: Option<Expr> = match s0 {
        Stmt::Tac(_, e) => Some(e),
        Stmt::CJump(e, _) => Some(e),
        _ => None,
    };
    match e_opt {
        Some(e) => {
            assert(s0@.uses() == e@.uses());
            assert(s1@.uses() == crate::ir::expr_with_ssa(e, value, ssa)@.uses());
            match e {
                Expr::Oper(o) => {
                    lemma_list_with_ssa(o, value, ssa);
                },
                Expr::Binary(l, _, r) => {
                    lemma_list_with_ssa(l, value, ssa);
                    lemma_list_with_ssa(r, value, ssa);
                    assert((var_or_temp_list(l) + var_or_temp_list(r)).map_values(|x: Oper| oper_with_ssa(x, value, ssa))
                        =~= var_or_temp_list(l).map_values(|x: Oper| oper_with_ssa(x, value, ssa))
                        + var_or_temp_list(r).map_values(|x: Oper| oper_with_ssa(x, value, ssa)));
                },
                Expr::Logical(l, _, r) => {
                    lemma_list_with_ssa(l, value, ssa);
                    lemma_list_with_ssa(r, value, ssa);
                    assert((var_or_temp_list(l) + var_or_temp_list(r)).map_values(|x: Oper| oper_with_ssa(x, value, ssa))
                        =~= var_or_temp_list(l).map_values(|x: Oper| oper_with_ssa(x, value, ssa))
                        + var_or_temp_list(r).map_values(|x: Oper| oper_with_ssa(x, value, ssa)));
                },
                Expr::Phi(_) => {},
            }
        },
        None => {
            match s0 {
                Stmt::Return(Some(o)) => {
                    lemma_list_with_ssa(o, value, ssa);
                },
                _ => {
                    assert(s1@.uses() =~= s0@.uses().map_values(|x: Oper| oper_with_ssa(x, value, ssa)));
                },
            }
        },
    }
}

/// Renaming a defined variable leaves what the statement reads.
proof fn lemma_def_uses(s0: Stmt, s1: Stmt, value: Oper, ssa: usize)
    requires
        match s0 {
            Stmt::Tac(l, e) => s1 == Stmt::Tac(oper_with_ssa(l, value, ssa), e),
            Stmt::ParallelCopy(c) => true,
            _ => s1 == s0,
        },
        !(s0@ is ParallelCopy),
    ensures
        s1@.uses() == s0@.uses(),
        is_phi(s1@) == is_phi(s0@),
{
}

/// Two statements with the same erasure are of the same kind and define
/// the same variable.
proof fn lemma_erase_kind(a: StmtV, b: StmtV)
    requires
        erase_stmt(a) == erase_stmt(b),
    ensures
        is_phi(a) == is_phi(b),
        has_phi(a) == has_phi(b),
        (a is ParallelCopy) == (b is ParallelCopy),
        (def_var(a) is Some) == (def_var(b) is Some),
        def_var(a) is Some ==> def_var(a)->Some_0.0 == def_var(b)->Some_0.0,
{
    match (a, b) {
        (StmtV::Tac(la, ea), StmtV::Tac(lb, eb)) => {
            match (ea, eb) {
                (ExprV::Phi(_), _) => {},
                (_, ExprV::Phi(_)) => {},
                _ => {},
            }
        },
        (StmtV::CJump(ea, _), StmtV::CJump(eb, _)) => {
            match (ea, eb) {
                (ExprV::Phi(_), _) => {},
                (_, ExprV::Phi(_)) => {},
                _ => {},
            }
        },
        _ => {},
    }
}


proof fn lemma_under_nonneg(idom: Seq<Option<usize>>, b: int, a: int)
    requires
        under(idom, b, a),
        0 <= b,
    ensures
        0 <= a,
    decreases b,
{
    if b != a {
        let p = idom[b]->Some_0;
        lemma_under_nonneg(idom, p as int, a);
    }
}

/// Renaming keeps the code free of parallel copies.
proof fn lemma_copy_free_keep(a: Seq<crate::cfg::BasicBlock>, b: Seq<crate::cfg::BasicBlock>)
    requires
        versions_ok(a, b),
        copy_free(b),
    ensures
        copy_free(a),
{
    assert forall|k: int, s: int| pos_ok(a, k, s) implies !(#[trigger] stmt_at(a, k, s) is ParallelCopy) by {
        let ea = erase_block(a[k].statements@);
        let eb = erase_block(b[k].statements@);
        assert(ea == eb);
        assert(ea.len() == a[k].statements@.len());
        assert(eb.len() == b[k].statements@.len());
        assert(ea[s] == erase_stmt(stmt_at(a, k, s)));
        assert(eb[s] == erase_stmt(stmt_at(b, k, s)));
        lemma_erase_kind(stmt_at(a, k, s), stmt_at(b, k, s));
        assert(pos_ok(b, k, s));
    }
}

proof fn lemma_defs_of_len_mono(bs: Seq<crate::cfg::BasicBlock>, v: usize, b: int, s1: int, s2: int)
    requires
        s1 <= s2,
    ensures
        defs_of(bs, v, b, s1).len() <= defs_of(bs, v, b, s2).len(),
    decreases s2 - s1,
{
    if s1 < s2 {
        lemma_defs_of_len_mono(bs, v, b, s1, s2 - 1);
    }
}

/// Blocks that agree statement for statement are the same but for phi
/// arguments.
proof fn lemma_same_plain_eq(a: Seq<crate::cfg::BasicBlock>, b: Seq<crate::cfg::BasicBlock>, k: int)
    requires
        0 <= k < a.len(),
        0 <= k < b.len(),
        a[k] == b[k],
    ensures
        same_plain(a, b, k),
{
}

/// Renaming statement `si` of block `n` keeps the stacks holding, above
/// what they held on entering `n`, the versions that `n` has defined so
/// far, and gives what it reads the reaching versions.
proof fn lemma_statement_renamed(cur: Seq<crate::cfg::BasicBlock>, new: Seq<crate::cfg::BasicBlock>, idom: Seq<Option<usize>>,
    n: int, si: int, vs0: Versions, vc: Versions, vn: Versions)
    requires
        pos_ok(cur, n, si),
        new.len() == cur.len(),
        forall|a: int| 0 <= a < cur.len() && a != n ==> #[trigger] new[a] == cur[a],
        new[n].statements@.len() == cur[n].statements@.len(),
        forall|t: int| 0 <= t < cur[n].statements@.len() && t != si ==> #[trigger] new[n].statements@[t] == cur[n].statements@[t],
        !(stmt_at(cur, n, si) is ParallelCopy),
        !has_phi(stmt_at(cur, n, si)) ==> {
            &&& stmt_at(new, n, si).uses().len() == stmt_at(cur, n, si).uses().len()
            &&& forall|k: int| 0 <= k < stmt_at(cur, n, si).uses().len() ==>
                #[trigger] stmt_at(new, n, si).uses()[k] == renamed_use(stmt_at(cur, n, si).uses()[k], vc)
        },
        has_phi(stmt_at(new, n, si)) == has_phi(stmt_at(cur, n, si)),
        def_var(stmt_at(cur, n, si)) matches Some(d) ==> {
            &&& def_var(stmt_at(new, n, si)) == Some((d.0, vc.count((d.0, true)) as usize))
            &&& vn.stack((d.0, true)) == vc.stack((d.0, true)).push(vc.count((d.0, true)) as usize)
            &&& forall|k: (usize, bool)| k != (d.0, true) && vc.has(k) ==> #[trigger] vn.stack(k) == vc.stack(k)
        },
        def_var(stmt_at(cur, n, si)) is None ==> vn == vc && def_var(stmt_at(new, n, si)) is None,
        vn.keys == vs0.keys,
        vc.keys == vs0.keys,
        forall|v: usize| #[trigger] vc.has((v, true)) ==> vc.stack((v, true)) == vs0.stack((v, true)) + defs_of(cur, v, n, si),
        forall|v: usize| #[trigger] vs0.has((v, true)) ==> vs0.stack((v, true)).len() > 0
            && vs0.stack((v, true)).last() == entry_version(cur, idom, v, n),
        forall|s: int| 0 <= s < si ==> #[trigger] stmt_uses_ok(cur, idom, n, s, key_vars(vs0.keys@)),
    ensures
        forall|v: usize| #[trigger] vn.has((v, true)) ==> vn.stack((v, true)) == vs0.stack((v, true)) + defs_of(new, v, n, si + 1),
        forall|s: int| 0 <= s < si + 1 ==> #[trigger] stmt_uses_ok(new, idom, n, s, key_vars(vs0.keys@)),
{
    let h = key_vars(vs0.keys@);
    assert forall|a: int| #[trigger] under(idom, n, a) && a != n implies defs_agree(cur, new, a) by {
        lemma_under_below(idom, n, a);
        lemma_under_nonneg(idom, n, a);
        assert(new[a] == cur[a]);
    }
    assert forall|v: usize| entry_version(cur, idom, v, n) == entry_version(new, idom, v, n) by {
        lemma_entry_frame(cur, new, idom, v, n);
    }
    assert forall|v: usize| #[trigger] defs_of(cur, v, n, si) == defs_of(new, v, n, si) by {
        assert forall|t: int| 0 <= t < si implies #[trigger] def_var(stmt_at(cur, n, t)) == def_var(stmt_at(new, n, t)) by {
            assert(new[n].statements@[t] == cur[n].statements@[t]);
        }
        lemma_defs_of_frame(cur, new, v, n, si);
    }
    assert forall|v: usize| #[trigger] vn.has((v, true)) implies vn.stack((v, true)) == vs0.stack((v, true)) + defs_of(new, v, n, si + 1) by {
        assert(vc.has((v, true)));
        assert(defs_of(cur, v, n, si) == defs_of(new, v, n, si));
        match def_var(stmt_at(cur, n, si)) {
            Some(d) => {
                if d.0 == v {
                    assert(vs0.stack((v, true)) + defs_of(new, v, n, si + 1) =~= (vs0.stack((v, true)) + defs_of(new, v, n, si)).push(vc.count((d.0, true)) as usize));
                } else {
                    assert(defs_of(new, v, n, si + 1) =~= defs_of(new, v, n, si));
                }
            },
            None => {
                assert(defs_of(new, v, n, si + 1) =~= defs_of(new, v, n, si));
            },
        }
    }
    assert forall|s: int| 0 <= s < si + 1 implies #[trigger] stmt_uses_ok(new, idom, n, s, h) by {
        if s < si {
            assert(stmt_uses_ok(cur, idom, n, s, h));
            assert(new[n].statements@[s] == cur[n].statements@[s]);
            assert forall|t: int| 0 <= t < s implies #[trigger] def_var(stmt_at(cur, n, t)) == def_var(stmt_at(new, n, t)) by {
                assert(new[n].statements@[t] == cur[n].statements@[t]);
            }
            if !has_phi(stmt_at(new, n, s)) {
                assert forall|k: int| 0 <= k < stmt_at(new, n, s).uses().len() implies
                    use_ok(new, idom, n, s, #[trigger] stmt_at(new, n, s).uses()[k], h) by {
                    assert(use_ok(cur, idom, n, s, stmt_at(cur, n, s).uses()[k], h));
                    if let Oper::Var(v, i) = stmt_at(new, n, s).uses()[k] {
                        lemma_reach_frame(cur, new, idom, v, n, s);
                    }
                }
            }
        } else {
            if !has_phi(stmt_at(new, n, s)) {
                assert forall|k: int| 0 <= k < stmt_at(new, n, s).uses().len() implies
                    use_ok(new, idom, n, s, #[trigger] stmt_at(new, n, s).uses()[k], h) by {
                    let o = stmt_at(cur, n, si).uses()[k];
                    assert(stmt_at(new, n, s).uses()[k] == renamed_use(o, vc));
                    if let Oper::Var(v, i) = stmt_at(new, n, s).uses()[k] {
                        if h(v) {
                            assert(vs0.keys@.contains((v, true)));
                            assert(vc.has((v, true)));
                            assert(vs0.has((v, true)));
                            let st = vs0.stack((v, true)) + defs_of(cur, v, n, si);
                            assert(vc.stack((v, true)) == st);
                            assert(st.last() == reaching_version(cur, idom, v, n, si));
                            assert(o is Var);
                            lemma_reach_frame(cur, new, idom, v, n, si);
                        }
                    }
                }
            }
        }
    }
}


proof fn lemma_phi_arg_plain(s: StmtV, j: int, n: usize, vs: Versions)
    ensures
        is_phi(phi_arg_renamed(s, j, n, vs)) == is_phi(s),
        !is_phi(s) ==> phi_arg_renamed(s, j, n, vs) == s,
{
}

proof fn lemma_same_plain_sym(a: Seq<crate::cfg::BasicBlock>, b: Seq<crate::cfg::BasicBlock>, k: int)
    requires
        same_plain(a, b, k),
    ensures
        same_plain(b, a, k),
{
    assert forall|t: int| 0 <= t < b[k].statements@.len() && !is_phi(stmt_at(a, k, t)) implies #[trigger] stmt_at(b, k, t) == stmt_at(a, k, t) by {
        assert(is_phi(stmt_at(a, k, t)) == is_phi(stmt_at(b, k, t)));
    }
    assert forall|t: int| 0 <= t < b[k].statements@.len() implies #[trigger] is_phi(stmt_at(b, k, t)) == is_phi(stmt_at(a, k, t)) by {
        assert(is_phi(stmt_at(a, k, t)) == is_phi(stmt_at(b, k, t)));
    }
    assert forall|t: int| 0 <= t < b[k].statements@.len() implies #[trigger] def_var(stmt_at(b, k, t)) == def_var(stmt_at(a, k, t)) by {
        assert(def_var(stmt_at(a, k, t)) == def_var(stmt_at(b, k, t)));
    }
}


/// An ancestor of `n` lies under none of `n`'s children.
proof fn lemma_anc_not_kid(idom: Seq<Option<usize>>, n: int, a: int, x: int, nb: int)
    requires
        crate::dominance::idom_below(idom),
        x <= idom.len(),
        0 <= n <= usize::MAX,
        under(idom, n, a),
    ensures
        !kids_below(idom, n, x, nb).contains(a),
{
    if kids_below(idom, n, x, nb).contains(a) {
        let c = choose|c: int| 0 <= c < x && idom[c] == Some(n as usize) && #[trigger] under(idom, a, c);
        lemma_under_below(idom, a, c);
        lemma_under_below(idom, n, a);
        assert(idom[c] matches Some(p) ==> (p as int) < c);
    }
}


/// Renaming keeps which variables the code defines.
proof fn lemma_defined_vars_same(a: Seq<crate::cfg::BasicBlock>, b: Seq<crate::cfg::BasicBlock>)
    requires
        versions_ok(a, b),
    ensures
        forall|v: usize| #[trigger] defined_vars(a)(v) == defined_vars(b)(v),
{
    assert forall|k: int, s: int| pos_ok(a, k, s) implies pos_ok(b, k, s)
        && (#[trigger] def_var(stmt_at(a, k, s)) is Some) == (def_var(stmt_at(b, k, s)) is Some)
        && (def_var(stmt_at(a, k, s)) is Some ==> def_var(stmt_at(a, k, s))->Some_0.0 == def_var(stmt_at(b, k, s))->Some_0.0) by {
        let ea = erase_block(a[k].statements@);
        let eb = erase_block(b[k].statements@);
        assert(ea == eb);
        assert(ea.len() == a[k].statements@.len());
        assert(eb.len() == b[k].statements@.len());
        assert(ea[s] == erase_stmt(stmt_at(a, k, s)));
        assert(eb[s] == erase_stmt(stmt_at(b, k, s)));
        lemma_erase_kind(stmt_at(a, k, s), stmt_at(b, k, s));
    }
    assert forall|k: int, s: int| pos_ok(b, k, s) implies #[trigger] pos_ok(a, k, s) by {
        assert(erase_block(a[k].statements@) == erase_block(b[k].statements@));
        assert(erase_block(a[k].statements@).len() == a[k].statements@.len());
    }
    assert forall|v: usize| #[trigger] defined_vars(a)(v) == defined_vars(b)(v) by {
        if defined_vars(a)(v) {
            let (c, t) = choose|c: int, t: int| #![trigger def_var(stmt_at(a, c, t))]
                pos_ok(a, c, t) && def_var(stmt_at(a, c, t)) is Some && def_var(stmt_at(a, c, t))->Some_0.0 == v;
            assert(def_var(stmt_at(b, c, t)) is Some);
        }
        if defined_vars(b)(v) {
            let (c, t) = choose|c: int, t: int| #![trigger def_var(stmt_at(b, c, t))]
                pos_ok(b, c, t) && def_var(stmt_at(b, c, t)) is Some && def_var(stmt_at(b, c, t))->Some_0.0 == v;
            assert(pos_ok(a, c, t));
            assert(def_var(stmt_at(a, c, t)) is Some);
        }
    }
}


proof fn lemma_erase_pc(s: StmtV)
    ensures
        (erase_stmt(s) is ParallelCopy) == (s is ParallelCopy),
{
}

/// Every statement that phi placement puts at a block's head is an
/// assignment.
proof fn lemma_phis_tac(defs: Seq<(Oper, HashSet<usize>)>, domf: Seq<HashSet<usize>>, preds: Map<usize, Set<usize>>, k: int, y: usize, i: int)
    requires
        0 <= i < phis_upto(defs, domf, preds, k, y).len(),
    ensures
        phis_upto(defs, domf, preds, k, y)[i] is Tac,
    decreases k,
{
    if k > 0 {
        let v = defs[k - 1].0;
        let head = if v is Var && iterated_frontier(domf, defs[k - 1].1@).contains(y) {
            seq![phi_view(v, preds[y].len())]
        } else {
            Seq::empty()
        };
        if i >= head.len() {
            lemma_phis_tac(defs, domf, preds, k - 1, y, i - head.len());
        }
    }
}


/// The argument slot of predecessor `p` in the phi functions of block `y`:
/// the number of `y`'s predecessors below `p`.
pub open spec fn slot_of(preds: Map<usize, Set<usize>>, y: usize, p: usize) -> int {
    if preds.contains_key(y) {
        preds[y].filter(|x: usize| x < p).len() as int
    } else {
        0
    }
}

/// Where statement `t` of block `y` is a phi function whose argument in
/// slot `j` is a variable for which `has` holds, that argument carries the
/// version reaching the end of block `p`, and names `p`.
pub open spec fn phi_slot_ok(bs: Seq<crate::cfg::BasicBlock>, idom: Seq<Option<usize>>, p: int, y: int, t: int, j: int, has: spec_fn(usize) -> bool) -> bool {
    match stmt_at(bs, y, t) {
        StmtV::Tac(_, ExprV::Phi(args)) => (0 <= j < args.len() && args[j].0 is Var && has(args[j].0->Var_0)) ==>
            args[j] == (Oper::Var(args[j].0->Var_0, reaching_version(bs, idom, args[j].0->Var_0, p, bs[p].statements@.len() as int)), p as usize),
        _ => true,
    }
}

/// Every phi function of every successor of block `p` holds, in `p`'s
/// slot, the version reaching the end of `p`.
pub open spec fn succ_phis_ok(bs: Seq<crate::cfg::BasicBlock>, idom: Seq<Option<usize>>, succs: Map<usize, Set<usize>>,
    preds: Map<usize, Set<usize>>, p: int, has: spec_fn(usize) -> bool) -> bool {
    forall|y: usize, t: int| succs[p as usize].contains(y) && 0 <= t < bs[y as int].statements@.len()
        ==> #[trigger] phi_slot_ok(bs, idom, p, y as int, t, slot_of(preds, y, p as usize), has)
}

/// Each edge among the first `nb` blocks is in both the successors of its
/// source and the predecessors of its target.
pub open spec fn edges_agree(succs: Map<usize, Set<usize>>, preds: Map<usize, Set<usize>>, nb: int) -> bool {
    forall|n: usize, y: usize| n < nb && #[trigger] succs[n].contains(y) ==> preds.contains_key(y) && preds[y].contains(n)
}

/// Where `s2` is a phi assignment, `s1` is one with as many arguments and
/// the same in slot `j`.
pub open spec fn same_phi_slot(s2: StmtV, s1: StmtV, j: int) -> bool {
    s2 matches StmtV::Tac(_, ExprV::Phi(a2)) ==> s1 matches StmtV::Tac(_, ExprV::Phi(a1)) && a1.len() == a2.len()
        && (0 <= j < a1.len() ==> a1[j] == a2[j])
}

/// Where `s2` is a phi assignment, `s1` is one with the same arguments.
pub open spec fn same_phi_args(s2: StmtV, s1: StmtV) -> bool {
    s2 matches StmtV::Tac(_, ExprV::Phi(a2)) ==> s1 matches StmtV::Tac(_, ExprV::Phi(a1)) && a1 == a2
}

proof fn lemma_slot_frame(bs1: Seq<crate::cfg::BasicBlock>, bs2: Seq<crate::cfg::BasicBlock>, idom: Seq<Option<usize>>,
    p: int, y: int, t: int, j: int, has: spec_fn(usize) -> bool)
    requires
        bs1.len() == bs2.len(),
        0 <= p < bs1.len(),
        same_phi_slot(stmt_at(bs2, y, t), stmt_at(bs1, y, t), j),
        forall|a: int| #[trigger] under(idom, p, a) ==> defs_agree(bs1, bs2, a),
        phi_slot_ok(bs1, idom, p, y, t, j, has),
    ensures
        phi_slot_ok(bs2, idom, p, y, t, j, has),
{
    if let StmtV::Tac(_, ExprV::Phi(args)) = stmt_at(bs2, y, t) {
        if 0 <= j < args.len() && args[j].0 is Var && has(args[j].0->Var_0) {
            let v = args[j].0->Var_0;
            assert(under(idom, p, p));
            assert(defs_agree(bs1, bs2, p));
            let n = bs1[p].statements@.len() as int;
            assert forall|a: int| #[trigger] under(idom, p, a) && a != p implies defs_agree(bs1, bs2, a) by {}
            assert forall|u: int| 0 <= u < n implies #[trigger] def_var(stmt_at(bs1, p, u)) == def_var(stmt_at(bs2, p, u)) by {}
            lemma_reach_frame(bs1, bs2, idom, v, p, n);
        }
    }
}

/// Two distinct predecessors of a block have distinct slots.
proof fn lemma_slot_distinct(ps: Set<usize>, p: usize, n: usize)
    requires
        ps.finite(),
        ps.contains(p),
        ps.contains(n),
        p != n,
    ensures
        ps.filter(|x: usize| x < p).len() != ps.filter(|x: usize| x < n).len(),
{
    let (lo, hi) = if p < n { (p, n) } else { (n, p) };
    let a = ps.filter(|x: usize| x < lo);
    let b = ps.filter(|x: usize| x < hi);
    assert(a.insert(lo).subset_of(b));
    assert(!a.contains(lo));
    vstd::set_lib::lemma_len_subset(a.insert(lo), b);
    assert(b.subset_of(ps));
    vstd::set_lib::lemma_len_subset(b, ps);
}

proof fn lemma_phi_arg_slots(s: StmtV, j: int, n: usize, vs: Versions)
    ensures
        s matches StmtV::Tac(l, ExprV::Phi(args)) ==> phi_arg_renamed(s, j, n, vs) matches StmtV::Tac(l2, ExprV::Phi(a2))
            && l2 == l && a2.len() == args.len() && forall|k: int| 0 <= k < args.len() && k != j ==> #[trigger] a2[k] == args[k],
        !is_phi(s) ==> phi_arg_renamed(s, j, n, vs) == s,
{
}

} // verus!
