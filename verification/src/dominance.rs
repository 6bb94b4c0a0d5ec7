use vstd::prelude::*;
use std::collections::{HashMap, HashSet};
use crate::sets::{adjacency, copy_set, elements, keys_of, union_sets};
use crate::cfg::CFG;
use crate::dominator::{lemma_dominates_trans, lemma_entry_dominated_only_by_itself, lemma_dominators_chain, lemma_dominates_self, lemma_entry_dominates, reachable, all_reachable, check_dominators_below, closest_below, closest_dominator_below, compute_dom_tree, dominates, dominators_below, is_closest_below, is_greatest_dom_solution, lemma_closest_below_unique, lemma_closest_max_exists, lemma_greatest_is_path_dominance, path_doms, Dominator};

verus! {

broadcast use vstd::std_specs::hash::group_hash_axioms;

/// The dominator information of a control-flow graph, indexed by block:
/// the dominator found for each block, the blocks each one strictly
/// dominates, the immediate dominators and the dominance frontiers.
pub struct DominatorContext {
    pub dom: Vec<Option<usize>>,
    pub strict_dom: Vec<HashSet<usize>>,
    pub idom: Vec<Option<usize>>,
    pub domf: Vec<HashSet<usize>>,
}

impl DominatorContext {
    /// A context with no blocks.
    pub fn new() -> (r: Self)
        ensures
            r.dom@ == Seq::<Option<usize>>::empty(),
            r.strict_dom@.len() == 0,
            r.idom@ == Seq::<Option<usize>>::empty(),
            r.domf@.len() == 0,
    {
        DominatorContext { dom: Vec::new(), strict_dom: Vec::new(), idom: Vec::new(), domf: Vec::new() }
    }

    /// Whether `a` strictly dominates `b`.
    pub fn strictly_dominates(&self, a: &usize, b: &usize) -> (r: bool)
        requires
            *a < self.strict_dom@.len(),
        ensures
            r == self.strict_dom@[*a as int]@.contains(*b),
    {
        self.strict_dom[*a].contains(b)
    }
}

} // verus!

verus! {

/// An optional block index that, where present, is below `size`.
pub open spec fn opt_below(o: Option<usize>, size: nat) -> bool {
    o matches Some(x) ==> x < size
}

/// Optional block indices, one per block, each below `size`.
pub open spec fn opts_below(v: Seq<Option<usize>>, size: nat) -> bool {
    &&& v.len() == size
    &&& forall|i: int| 0 <= i < v.len() ==> opt_below(#[trigger] v[i], size)
}


/// A vector of `size` empty entries.
fn none_vec(size: usize) -> (r: Vec<Option<usize>>)
    ensures
        r@ == Seq::new(size as nat, |i: int| None::<usize>),
{
    let mut r: Vec<Option<usize>> = Vec::new();
    let mut i: usize = 0;
    while i < size
        invariant
            i <= size,
            r@ == Seq::new(i as nat, |k: int| None::<usize>),
        decreases size - i,
    {
        r.push(None);
        i = i + 1;
        assert(r@ =~= Seq::new(i as nat, |k: int| None::<usize>));
    }
    r
}


} // verus!

verus! {

/// The immediate dominator recorded for block `n`: the dominator found for
/// it where that is another block, else block 0; block 0 has none.
pub open spec fn imm_from(dom: Seq<Option<usize>>, n: int) -> Option<usize> {
    if n == 0 {
        None
    } else {
        match dom[n] {
            Some(e) => if e != n { Some(e) } else { Some(0usize) },
            None => Some(0usize),
        }
    }
}

/// Each dominator found lies at or before its block.
pub open spec fn dominators_before(dom: Seq<Option<usize>>) -> bool {
    forall|n: int| 1 <= n < dom.len() ==> (#[trigger] dom[n] matches Some(e) ==> e <= n)
}

/// Records for each block after the first its immediate dominator.
fn compute_immediate_dominators(dom: &Vec<Option<usize>>) -> (r: Vec<Option<usize>>)
    requires
        dominators_before(dom@),
    ensures
        r@.len() == dom@.len(),
        forall|n: int| 0 <= n < dom@.len() ==> #[trigger] r@[n] == imm_from(dom@, n),
{
    let size = dom.len();
    let mut idom = none_vec(size);
    let mut n: usize = 1;
    while n < size
        invariant
            1 <= n,
            size == dom@.len(),
            dominators_before(dom@),
            idom@.len() == size,
            forall|m: int| 0 <= m < size && (m == 0 || m >= n) ==> #[trigger] idom@[m] == None::<usize>,
            forall|m: int| 1 <= m < n && m < size ==> #[trigger] idom@[m] == imm_from(dom@, m),
        decreases size - n,
    {
        let mut min_index: usize = 0;
        let mut min_value: usize = size;
        match dom[n] {
            Some(e) => {
                assert(dom@[n as int] matches Some(x) ==> x <= n);
                if e != n && n - e < min_value {
                    min_value = n - e;
                    min_index = e;
                }
            },
            None => {},
        }
        idom.set(n, Some(min_index));
        n = n + 1;
    }
    idom
}

} // verus!

verus! {

/// `x` lies on the walk from `a` up the immediate dominators that stops
/// at the first block strictly dominating `b`.
pub open spec fn on_walk(idom: Seq<Option<usize>>, strict: Seq<HashSet<usize>>, a: int, b: usize, x: usize) -> bool
    decreases a,
{
    if 0 <= a < idom.len() && a < strict.len() && !strict[a]@.contains(b) {
        a == x || match idom[a] {
            Some(p) => (p as int) < a && on_walk(idom, strict, p as int, b, x),
            None => false,
        }
    } else {
        false
    }
}

proof fn lemma_on_walk_below(idom: Seq<Option<usize>>, strict: Seq<HashSet<usize>>, a: int, b: usize, x: usize)
    requires
        on_walk(idom, strict, a, b, x),
    ensures
        x as int <= a,
    decreases a,
{
    if a != x as int {
        let p = idom[a]->Some_0;
        lemma_on_walk_below(idom, strict, p as int, b, x);
    }
}

/// The targets `b` of the edges `(a, b)` chosen by `done` whose walk from
/// `a` passes `y`.
pub open spec fn frontier_with(done: spec_fn(usize, usize) -> bool, idom: Seq<Option<usize>>, strict: Seq<HashSet<usize>>, y: usize) -> Set<usize> {
    Set::new(|b: usize| exists|a: usize| #[trigger] done(a, b) && on_walk(idom, strict, a as int, b, y))
}

/// The dominance frontier of `y` over the edges of `edges`.
pub open spec fn frontier(edges: Map<usize, Set<usize>>, idom: Seq<Option<usize>>, strict: Seq<HashSet<usize>>, y: usize) -> Set<usize> {
    frontier_with(|a: usize, b: usize| edges.contains_key(a) && edges[a].contains(b), idom, strict, y)
}

/// Every block but the first has an immediate dominator.
pub open spec fn idom_total(idom: Seq<Option<usize>>) -> bool {
    forall|v: int| 1 <= v < idom.len() ==> #[trigger] idom[v] is Some
}

/// Immediate dominators that lie below their blocks.
pub open spec fn idom_below(idom: Seq<Option<usize>>) -> bool {
    forall|v: int| 0 <= v < idom.len() ==> (#[trigger] idom[v] matches Some(p) ==> (p as int) < v)
}

proof fn lemma_frontier_step(
    d1: spec_fn(usize, usize) -> bool,
    d2: spec_fn(usize, usize) -> bool,
    a0: usize,
    b0: usize,
    idom: Seq<Option<usize>>,
    strict: Seq<HashSet<usize>>,
    y: usize,
)
    requires
        forall|a: usize, b: usize| #[trigger] d2(a, b) == (d1(a, b) || (a == a0 && b == b0)),
    ensures
        frontier_with(d2, idom, strict, y) == frontier_with(d1, idom, strict, y).union(
            if on_walk(idom, strict, a0 as int, b0, y) { set![b0] } else { Set::empty() }),
{
    let lhs = frontier_with(d2, idom, strict, y);
    let rhs = frontier_with(d1, idom, strict, y).union(
        if on_walk(idom, strict, a0 as int, b0, y) { set![b0] } else { Set::empty() });
    assert forall|b: usize| lhs.contains(b) implies rhs.contains(b) by {
        let a = choose|a: usize| #[trigger] d2(a, b) && on_walk(idom, strict, a as int, b, y);
        if d1(a, b) {
            assert(frontier_with(d1, idom, strict, y).contains(b));
        }
    }
    assert forall|b: usize| rhs.contains(b) implies lhs.contains(b) by {
        if frontier_with(d1, idom, strict, y).contains(b) {
            let a = choose|a: usize| #[trigger] d1(a, b) && on_walk(idom, strict, a as int, b, y);
            assert(d2(a, b));
        } else {
            assert(d2(a0, b0));
        }
    }
    assert(lhs =~= rhs);
}

proof fn lemma_frontier_same(
    d1: spec_fn(usize, usize) -> bool,
    d2: spec_fn(usize, usize) -> bool,
    idom: Seq<Option<usize>>,
    strict: Seq<HashSet<usize>>,
    y: usize,
)
    requires
        forall|a: usize, b: usize| #[trigger] d2(a, b) == d1(a, b),
    ensures
        frontier_with(d2, idom, strict, y) == frontier_with(d1, idom, strict, y),
{
    let lhs = frontier_with(d2, idom, strict, y);
    let rhs = frontier_with(d1, idom, strict, y);
    assert forall|b: usize| lhs.contains(b) implies rhs.contains(b) by {
        let a = choose|a: usize| #[trigger] d2(a, b) && on_walk(idom, strict, a as int, b, y);
        assert(d1(a, b));
    }
    assert forall|b: usize| rhs.contains(b) implies lhs.contains(b) by {
        let a = choose|a: usize| #[trigger] d1(a, b) && on_walk(idom, strict, a as int, b, y);
        assert(d2(a, b));
    }
    assert(lhs =~= rhs);
}

/// Adds `b` to the frontier of every block on the walk from `a`.
fn walk_up(domf: &mut Vec<HashSet<usize>>, a: usize, b: usize, idom: &Vec<Option<usize>>, strict: &Vec<HashSet<usize>>)
    requires
        a < idom@.len(),
        idom@.len() == strict@.len(),
        old(domf)@.len() == idom@.len(),
        opts_below(idom@, idom@.len()),
        idom_below(idom@),
    ensures
        final(domf)@.len() == old(domf)@.len(),
        forall|y: int| 0 <= y < final(domf)@.len() ==> #[trigger] final(domf)@[y]@ == old(domf)@[y]@.union(
            if on_walk(idom@, strict@, a as int, b, y as usize) { set![b] } else { Set::empty() }),
{
    let ghost base = domf@;
    let ghost size = idom@.len();
    let len_e = idom.len();
    let mut x: Option<usize> = Some(a);
    loop
        invariant
            size == len_e as nat,
            domf@.len() == size,
            size == idom@.len(),
            size == strict@.len(),
            a < size,
            opts_below(idom@, size),
            idom_below(idom@),
            base == old(domf)@,
            x matches Some(c) ==> c < size && forall|y: usize| on_walk(idom@, strict@, c as int, b, y)
                ==> #[trigger] on_walk(idom@, strict@, a as int, b, y),
            forall|y: int| 0 <= y < size ==> #[trigger] domf@[y]@ == base[y]@.union(
                if on_walk(idom@, strict@, a as int, b, y as usize) && !(x matches Some(c) && on_walk(idom@, strict@, c as int, b, y as usize)) {
                    set![b]
                } else {
                    Set::empty()
                }),
        ensures
            forall|y: int| 0 <= y < size ==> #[trigger] domf@[y]@ == base[y]@.union(
                if on_walk(idom@, strict@, a as int, b, y as usize) { set![b] } else { Set::empty() }),
            domf@.len() == size,
        decreases match x { Some(c) => c + 1, None => 0 },
    {
        match x {
            Some(c) => {
                if strict[c].contains(&b) {
                    proof {
                        assert forall|y: usize| !on_walk(idom@, strict@, c as int, b, y) by {}
                    }
                    break;
                }
                let mut s = copy_set(&domf[c]);
                s.insert(b);
                let ghost prev = domf@;
                domf.set(c, s);
                let next = idom[c];
                proof {
                    assert(opt_below(idom@[c as int], size));
                    assert(idom@[c as int] matches Some(p) ==> (p as int) < c);
                    assert forall|y: usize| #[trigger] on_walk(idom@, strict@, c as int, b, y) == (c == y
                        || (next matches Some(p) && on_walk(idom@, strict@, p as int, b, y))) by {}
                    assert(on_walk(idom@, strict@, a as int, b, c));
                    assert forall|y: int| 0 <= y < size implies #[trigger] domf@[y]@ == base[y]@.union(
                        if on_walk(idom@, strict@, a as int, b, y as usize) && !(next matches Some(p) && on_walk(idom@, strict@, p as int, b, y as usize)) {
                            set![b]
                        } else {
                            Set::empty()
                        }) by {
                        let yy = y as usize;
                        assert(yy as int == y);
                        assert(prev[y]@ == base[y]@.union(
                            if on_walk(idom@, strict@, a as int, b, yy) && !on_walk(idom@, strict@, c as int, b, yy) {
                                set![b]
                            } else {
                                Set::empty()
                            }));
                        assert(on_walk(idom@, strict@, c as int, b, yy) == (c == yy
                            || (next matches Some(p) && on_walk(idom@, strict@, p as int, b, yy))));
                        let cold = on_walk(idom@, strict@, a as int, b, yy) && !on_walk(idom@, strict@, c as int, b, yy);
                        let cnew = on_walk(idom@, strict@, a as int, b, yy) && !(next matches Some(p) && on_walk(idom@, strict@, p as int, b, yy));
                        if y != c as int {
                            assert(domf@[y] == prev[y]);
                            assert(cold == cnew);
                        } else {
                            assert(on_walk(idom@, strict@, c as int, b, c));
                            if let Some(p) = next {
                                if on_walk(idom@, strict@, p as int, b, c) {
                                    lemma_on_walk_below(idom@, strict@, p as int, b, c);
                                }
                            }
                            assert(domf@[y]@ == prev[y]@.insert(b));
                            assert(!cold);
                            assert(cnew);
                        }
                        assert(domf@[y]@ =~= base[y]@.union(
                            if on_walk(idom@, strict@, a as int, b, y as usize) && !(next matches Some(p) && on_walk(idom@, strict@, p as int, b, y as usize)) {
                                set![b]
                            } else {
                                Set::empty()
                            }));
                    }
                }
                x = next;
            },
            None => {
                break;
            },
        }
    }
}

} // verus!

verus! {

/// The edges of `edges` lead between blocks below `size`.
pub open spec fn edges_below(edges: Map<usize, Set<usize>>, size: nat) -> bool {
    forall|a: usize, b: usize| edges.contains_key(a) && edges[a].contains(b) ==> a < size && b < size
}

/// Records for each block its dominance frontier: for every edge `(a, b)`,
/// `b` joins the frontier of each block met walking up the immediate
/// dominators from `a` before one that strictly dominates `b`.
fn compute_dominance_frontier(edges: &HashMap<usize, HashSet<usize>>, idom: &Vec<Option<usize>>, strict: &Vec<HashSet<usize>>) -> (domf: Vec<HashSet<usize>>)
    requires
        idom@.len() == strict@.len(),
        opts_below(idom@, idom@.len()),
        idom_below(idom@),
        edges_below(adjacency(*edges), idom@.len()),
    ensures
        domf@.len() == idom@.len(),
        forall|y: int| 0 <= y < idom@.len() ==> #[trigger] domf@[y]@ == frontier(adjacency(*edges), idom@, strict@, y as usize),
{
    let ghost em = adjacency(*edges);
    let size = idom.len();
    let mut domf: Vec<HashSet<usize>> = Vec::new();
    let mut i: usize = 0;
    while i < size
        invariant
            i <= size,
            domf@.len() == i,
            forall|x: int| 0 <= x < i ==> (#[trigger] domf@[x])@ == Set::<usize>::empty(),
        decreases size - i,
    {
        domf.push(HashSet::new());
        i = i + 1;
    }
    let ks = keys_of(edges);
    let ghost none = |a: usize, b: usize| false;
    proof {
        assert forall|y: int| 0 <= y < size implies #[trigger] domf@[y]@ == frontier_with(none, idom@, strict@, y as usize) by {
            assert(frontier_with(none, idom@, strict@, y as usize) =~= Set::<usize>::empty());
        }
    }
    let mut i: usize = 0;
    while i < ks.len()
        invariant
            i <= ks@.len(),
            size == idom@.len(),
            idom@.len() == strict@.len(),
            opts_below(idom@, idom@.len()),
            idom_below(idom@),
            em == adjacency(*edges),
            edges_below(em, idom@.len()),
            ks@.to_set() == em.dom(),
            domf@.len() == size,
            forall|y: int| 0 <= y < size ==> #[trigger] domf@[y]@ == frontier_with(
                |a: usize, b: usize| ks@.take(i as int).contains(a) && em.contains_key(a) && em[a].contains(b),
                idom@, strict@, y as usize),
        decreases ks@.len() - i,
    {
        let a = ks[i];
        let ghost done_i = |x: usize, y: usize| ks@.take(i as int).contains(x) && em.contains_key(x) && em[x].contains(y);
        assert(ks@.to_set().contains(a));
        match edges.get(&a) {
            Some(conn) => {
                let bs = elements(conn);
                let ghost conn_v = conn@;
                assert(em[a] == conn_v);
                let mut j: usize = 0;
                proof {
                    assert forall|y: int| 0 <= y < size implies #[trigger] domf@[y]@ == frontier_with(
                        |x: usize, z: usize| done_i(x, z) || (x == a && bs@.take(0).contains(z)),
                        idom@, strict@, y as usize) by {
                        lemma_frontier_same(done_i, |x: usize, z: usize| done_i(x, z) || (x == a && bs@.take(0).contains(z)),
                            idom@, strict@, y as usize);
                    }
                }
                while j < bs.len()
                    invariant
                        j <= bs@.len(),
                        i < ks@.len(),
                        a == ks@[i as int],
                        size == idom@.len(),
                        idom@.len() == strict@.len(),
                        opts_below(idom@, idom@.len()),
                        idom_below(idom@),
                        em == adjacency(*edges),
                        edges_below(em, idom@.len()),
                        em.contains_key(a),
                        em[a] == bs@.to_set(),
                        domf@.len() == size,
                        forall|y: int| 0 <= y < size ==> #[trigger] domf@[y]@ == frontier_with(
                            |x: usize, z: usize| done_i(x, z) || (x == a && bs@.take(j as int).contains(z)),
                            idom@, strict@, y as usize),
                    decreases bs@.len() - j,
                {
                    let b = bs[j];
                    assert(bs@.to_set().contains(b));
                    let ghost before = domf@;
                    walk_up(&mut domf, a, b, idom, strict);
                    proof {
                        let d1 = |x: usize, z: usize| done_i(x, z) || (x == a && bs@.take(j as int).contains(z));
                        let d2 = |x: usize, z: usize| done_i(x, z) || (x == a && bs@.take(j + 1).contains(z));
                        assert(bs@.take(j + 1) =~= bs@.take(j as int).push(b));
                        assert forall|x: usize, z: usize| #[trigger] d2(x, z) == (d1(x, z) || (x == a && z == b)) by {
                            vstd::seq_lib::lemma_seq_contains_after_push(bs@.take(j as int), b, z);
                        }
                        assert forall|y: int| 0 <= y < size implies #[trigger] domf@[y]@ == frontier_with(d2, idom@, strict@, y as usize) by {
                            lemma_frontier_step(d1, d2, a, b, idom@, strict@, y as usize);
                            assert(before[y]@ == frontier_with(d1, idom@, strict@, y as usize));
                        }
                    }
                    j = j + 1;
                }
                proof {
                    assert(bs@.take(bs@.len() as int) =~= bs@);
                    let d1 = |x: usize, z: usize| done_i(x, z) || (x == a && bs@.take(bs@.len() as int).contains(z));
                    let d2 = |x: usize, z: usize| ks@.take(i + 1).contains(x) && em.contains_key(x) && em[x].contains(z);
                    assert(ks@.take(i + 1) =~= ks@.take(i as int).push(a));
                    assert forall|x: usize, z: usize| #[trigger] d2(x, z) == d1(x, z) by {
                        vstd::seq_lib::lemma_seq_contains_after_push(ks@.take(i as int), a, x);
                        if x == a && em[a].contains(z) {
                            assert(bs@.to_set().contains(z));
                        }
                    }
                    assert forall|y: int| 0 <= y < size implies #[trigger] domf@[y]@ == frontier_with(d2, idom@, strict@, y as usize) by {
                        lemma_frontier_same(d1, d2, idom@, strict@, y as usize);
                    }
                }
            },
            None => {},
        }
        i = i + 1;
    }
    proof {
        assert(ks@.take(ks@.len() as int) =~= ks@);
        let d1 = |a: usize, b: usize| ks@.take(ks@.len() as int).contains(a) && em.contains_key(a) && em[a].contains(b);
        let d2 = |a: usize, b: usize| em.contains_key(a) && em[a].contains(b);
        assert forall|a: usize, b: usize| #[trigger] d2(a, b) == d1(a, b) by {
            if em.contains_key(a) {
                assert(ks@.to_set().contains(a));
            }
        }
        assert forall|y: int| 0 <= y < size implies #[trigger] domf@[y]@ == frontier(em, idom@, strict@, y as usize) by {
            lemma_frontier_same(d1, d2, idom@, strict@, y as usize);
        }
    }
    domf
}

} // verus!

verus! {

/// The graph that the dominator computation needs: every block has its
/// successor and predecessor sets, and edges stay among the blocks.
pub open spec fn graph_ready(cfg: &CFG) -> bool {
    let size = cfg.blocks@.len();
    let succs = cfg.graph.succs();
    let preds = cfg.graph.preds();
    &&& size >= 1
    &&& forall|n: usize| n < size ==> #[trigger] succs.contains_key(n)
    &&& forall|n: usize| n < size ==> #[trigger] preds.contains_key(n)
    &&& forall|n: usize, x: usize| n < size && #[trigger] succs[n].contains(x) ==> x < size
    &&& forall|n: usize, x: usize| n < size && #[trigger] preds[n].contains(x) ==> x < size
    &&& edges_below(cfg.graph.out_edges(), size)
}

/// The dominator information that the dominator sets `t` give: block 0
/// has no dominator entry, every other block the closest of its
/// dominators below it (block 0 where there is none), and each block `a`
/// strictly dominates the other blocks whose sets hold it.
pub open spec fn ctx_from(ctx: DominatorContext, t: Seq<Set<usize>>, size: nat) -> bool {
    &&& ctx.dom@.len() == size
    &&& size > 0 ==> ctx.dom@[0] is None
    &&& forall|n: int| 1 <= n < size ==> #[trigger] ctx.dom@[n] == Some(closest_below(t[n], n as usize))
    &&& ctx.strict_dom@.len() == size
    &&& forall|a: int| 0 <= a < size ==> (#[trigger] ctx.strict_dom@[a])@
        == Set::new(|b: usize| b < size && b != a && t[b as int].contains(a as usize))
}

/// No block is dominated, by paths from block 0, by a block after it.
pub open spec fn path_dominators_before(preds: Map<usize, Set<usize>>, size: usize) -> bool {
    forall|n: usize, e: usize| 1 <= n < size && e < size && #[trigger] dominates(preds, size, e, n) ==> e <= n
}

/// The immediate dominators and strict dominance that the dominator
/// context holds are those of the graph by paths.
pub open spec fn ctx_by_paths(preds: Map<usize, Set<usize>>, size: usize, idom: Seq<Option<usize>>, strict: Seq<HashSet<usize>>) -> bool {
    &&& size > 0
    &&& idom.len() == size
    &&& strict.len() == size
    &&& idom[0] is None
    &&& forall|n: int| 1 <= n < size ==> #[trigger] idom[n] is Some && is_immediate_dominator(preds, size, idom[n]->Some_0, n as usize)
    &&& forall|c: usize, b: usize| c < size ==> (#[trigger] strict[c as int]@.contains(b) <==> b < size && b != c && dominates(preds, size, c, b))
    &&& path_dominators_before(preds, size)
}

proof fn lemma_dominates_antisym(preds: Map<usize, Set<usize>>, size: usize, c: usize, y: usize)
    requires
        size > 0,
        c < size,
        y < size,
        path_dominators_before(preds, size),
        dominates(preds, size, c, y),
        dominates(preds, size, y, c),
    ensures
        c == y,
{
    if y == 0 {
        lemma_entry_dominated_only_by_itself(preds, size, c);
    } else if c == 0 {
        lemma_entry_dominated_only_by_itself(preds, size, y);
    } else {
        assert(c <= y);
        assert(y <= c);
    }
}

/// Block `y` lies on the walk from `a` up the immediate dominators that
/// stops at the first block strictly dominating `b` exactly when `y`
/// dominates `a` and does not strictly dominate `b`.
proof fn lemma_on_walk_dominance(preds: Map<usize, Set<usize>>, size: usize, idom: Seq<Option<usize>>, strict: Seq<HashSet<usize>>,
    a: int, b: usize, y: usize)
    requires
        ctx_by_paths(preds, size, idom, strict),
        0 <= a < size,
        b < size,
        y < size,
    ensures
        on_walk(idom, strict, a, b, y) == (dominates(preds, size, y, a as usize) && !(y != b && dominates(preds, size, y, b))),
    decreases a,
{
    let au = a as usize;
    if strict[a]@.contains(b) {
        assert(b != au && dominates(preds, size, au, b));
        if dominates(preds, size, y, au) && !(y != b && dominates(preds, size, y, b)) {
            lemma_dominates_trans(preds, size, y, au, b);
            lemma_dominates_antisym(preds, size, au, y);
        }
    } else {
        if a == y as int {
            lemma_dominates_self(preds, size, y);
        } else if a == 0 {
            if dominates(preds, size, y, 0) {
                lemma_entry_dominated_only_by_itself(preds, size, y);
            }
        } else {
            let p = idom[a]->Some_0;
            assert(is_immediate_dominator(preds, size, p, au));
            assert(p <= au);
            lemma_on_walk_dominance(preds, size, idom, strict, p as int, b, y);
            if dominates(preds, size, y, p) {
                lemma_dominates_trans(preds, size, y, p, au);
            }
        }
    }
}

/// The dominance frontier of `y`: the blocks `b` with an edge into them
/// from a block that `y` dominates, where `y` does not strictly dominate
/// `b` itself.
pub open spec fn dominance_frontier(preds: Map<usize, Set<usize>>, out_edges: Map<usize, Set<usize>>, size: usize, y: usize) -> Set<usize> {
    Set::new(|b: usize| exists|a: usize| #![trigger out_edges[a].contains(b)]
        a < size && out_edges.contains_key(a) && out_edges[a].contains(b)
        && dominates(preds, size, y, a) && !(y != b && dominates(preds, size, y, b)))
}

/// `i` is the immediate dominator of `n`: it dominates `n`, is another
/// block, and every other block that dominates `n` dominates `i`.
pub open spec fn is_immediate_dominator(preds: Map<usize, Set<usize>>, size: usize, i: usize, n: usize) -> bool {
    &&& i < size
    &&& i != n
    &&& dominates(preds, size, i, n)
    &&& forall|d: usize| d < size && d != n && #[trigger] dominates(preds, size, d, n) ==> dominates(preds, size, d, i)
}

/// Where every block can be reached and no block is dominated by a block
/// after it, the closest dominator of a block below it is its immediate
/// dominator.
pub proof fn lemma_closest_dominator_is_immediate(preds: Map<usize, Set<usize>>, size: usize, n: usize)
    requires
        all_reachable(preds, size),
        path_dominators_before(preds, size),
        1 <= n < size,
    ensures
        closest_below(path_doms(preds, size)[n as int], n) < n,
        is_immediate_dominator(preds, size, closest_below(path_doms(preds, size)[n as int], n), n),
{
    let s = path_doms(preds, size)[n as int];
    lemma_entry_dominates(preds, size, n);
    assert(s.contains(0));
    lemma_closest_max_exists(s, n, 0);
    let m = choose|m: usize| is_closest_below(s, n, m);
    lemma_closest_below_unique(s, n, m);
    assert(s.contains(m) && m < n);
    assert(dominates(preds, size, m, n));
    assert(reachable(preds, size, n));
    assert forall|d: usize| d < size && d != n && #[trigger] dominates(preds, size, d, n) implies dominates(preds, size, d, m) by {
        assert(d <= n);
        assert(s.contains(d));
        assert(d <= m);
        if d == m {
            lemma_dominates_self(preds, size, m);
        } else if d == 0 {
            lemma_entry_dominates(preds, size, m);
        } else {
            lemma_dominators_chain(preds, size, d, m, n);
            if dominates(preds, size, m, d) {
                assert(m <= d);
            }
        }
    }
}

/// The blocks that each block strictly dominates, read off the dominator
/// sets `t`.
fn strict_sets(d: &Dominator, size: usize, Ghost(t): Ghost<Seq<Set<usize>>>) -> (strict: Vec<HashSet<usize>>)
    requires
        d.tree@.len() == size,
        t == d.trees(),
        forall|n: int, x: usize| 0 <= n < size && #[trigger] t[n].contains(x) ==> x < size,
    ensures
        strict@.len() == size,
        forall|a: int| 0 <= a < size ==> (#[trigger] strict@[a])@ == Set::new(|b: usize| b < size && b != a && t[b as int].contains(a as usize)),
{
    let mut strict: Vec<HashSet<usize>> = Vec::new();
    let mut i: usize = 0;
    while i < size
        invariant
            i <= size,
            strict@.len() == i,
            forall|a: int| 0 <= a < i ==> (#[trigger] strict@[a])@ == Set::<usize>::empty(),
        decreases size - i,
    {
        strict.push(HashSet::new());
        i = i + 1;
    }
    let mut b: usize = 0;
    while b < size
        invariant
            b <= size,
            strict@.len() == size,
            d.tree@.len() == size,
            t == d.trees(),
            forall|n: int, x: usize| 0 <= n < size && #[trigger] t[n].contains(x) ==> x < size,
            forall|a: int| 0 <= a < size ==> (#[trigger] strict@[a])@ == Set::new(|x: usize| x < b && x != a && t[x as int].contains(a as usize)),
        decreases size - b,
    {
        let v = elements(d.get_dominator(b));
        let mut i: usize = 0;
        while i < v.len()
            invariant
                b < size,
                i <= v@.len(),
                strict@.len() == size,
                v@.to_set() == t[b as int],
                v@.no_duplicates(),
                forall|n: int, x: usize| 0 <= n < size && #[trigger] t[n].contains(x) ==> x < size,
                forall|a: int| 0 <= a < size ==> (#[trigger] strict@[a])@ == Set::new(|x: usize|
                    (x < b && x != a && t[x as int].contains(a as usize)) || (x == b && x != a && v@.take(i as int).contains(a as usize))),
            decreases v@.len() - i,
        {
            let e = v[i];
            proof {
                assert(v@.to_set().contains(e));
                assert(t[b as int].contains(e));
            }
            let ghost before = strict@;
            if e != b {
                let mut s = copy_set(&strict[e]);
                s.insert(b);
                strict.set(e, s);
            }
            proof {
                assert forall|a: int| 0 <= a < size implies (#[trigger] strict@[a])@ == Set::new(|x: usize|
                    (x < b && x != a && t[x as int].contains(a as usize)) || (x == b && x != a && v@.take(i + 1).contains(a as usize))) by {
                    assert forall|y: usize| #[trigger] v@.take(i + 1).contains(y) <==> (v@.take(i as int).contains(y) || y == e) by {
                        if v@.take(i + 1).contains(y) {
                            let k = choose|k: int| 0 <= k < i + 1 && #[trigger] v@.take(i + 1)[k] == y;
                            if k < i {
                                assert(v@.take(i as int)[k] == y);
                            }
                        }
                        if v@.take(i as int).contains(y) {
                            let k = choose|k: int| 0 <= k < i && #[trigger] v@.take(i as int)[k] == y;
                            assert(v@.take(i + 1)[k] == y);
                        }
                        assert(v@.take(i + 1)[i as int] == e);
                    }
                    assert(strict@[a]@ =~= Set::new(|x: usize|
                        (x < b && x != a && t[x as int].contains(a as usize)) || (x == b && x != a && v@.take(i + 1).contains(a as usize))));
                }
            }
            i = i + 1;
        }
        proof {
            assert(v@.take(v@.len() as int) =~= v@);
            assert forall|a: int| 0 <= a < size implies (#[trigger] strict@[a])@ == Set::new(|x: usize| x < b + 1 && x != a && t[x as int].contains(a as usize)) by {
                assert forall|y: usize| v@.contains(y) <==> #[trigger] t[b as int].contains(y) by {
                    assert(v@.to_set().contains(y) == v@.contains(y));
                }
                assert(strict@[a]@ =~= Set::new(|x: usize| x < b + 1 && x != a && t[x as int].contains(a as usize)));
            }
        }
        b = b + 1;
    }
    proof {
        assert forall|a: int| 0 <= a < size implies (#[trigger] strict@[a])@ == Set::new(|x: usize| x < size && x != a && t[x as int].contains(a as usize)) by {
            assert(strict@[a]@ =~= Set::new(|x: usize| x < size && x != a && t[x as int].contains(a as usize)));
        }
    }
    strict
}

/// Computes the dominator information of the graph from the dominator
/// sets, the greatest solution of the data-flow equations (by paths from
/// block 0 where every block can be reached): each block's closest
/// dominator below it, the sets of blocks each one strictly dominates, the
/// immediate dominators and the dominance frontiers. Gives `false`,
/// leaving the graph as it was, where a block is dominated by a block
/// after it.
pub fn compute_dominator_context(cfg: &mut CFG) -> (ok: bool)
    requires
        graph_ready(&*old(cfg)),
    ensures
        !ok ==> *final(cfg) == *old(cfg),
        final(cfg).blocks == old(cfg).blocks,
        final(cfg).graph == old(cfg).graph,
        final(cfg).uses == old(cfg).uses,
        final(cfg).def == old(cfg).def,
        final(cfg).stack_offset == old(cfg).stack_offset,
        exists|t: Seq<Set<usize>>| #[trigger] is_greatest_dom_solution(old(cfg).graph.preds(), old(cfg).blocks@.len() as usize, t)
            && ok == dominators_below(t, old(cfg).blocks@.len() as usize)
            && (ok ==> ctx_from(final(cfg).dom_ctx, t, old(cfg).blocks@.len())),
        all_reachable(old(cfg).graph.preds(), old(cfg).blocks@.len() as usize) ==>
            (ok == path_dominators_before(old(cfg).graph.preds(), old(cfg).blocks@.len() as usize)),
        ok && all_reachable(old(cfg).graph.preds(), old(cfg).blocks@.len() as usize) ==> forall|a: usize, b: usize|
            a < old(cfg).blocks@.len() && b < old(cfg).blocks@.len() ==> (#[trigger] final(cfg).dom_ctx.strict_dom@[a as int]@.contains(b)
            <==> a != b && dominates(old(cfg).graph.preds(), old(cfg).blocks@.len() as usize, a, b)),
        ok && all_reachable(old(cfg).graph.preds(), old(cfg).blocks@.len() as usize) ==> forall|n: int|
            1 <= n < old(cfg).blocks@.len() ==> #[trigger] final(cfg).dom_ctx.dom@[n]
            == Some(closest_below(path_doms(old(cfg).graph.preds(), old(cfg).blocks@.len() as usize)[n], n as usize)),
        ok ==> opts_below(final(cfg).dom_ctx.dom@, old(cfg).blocks@.len()),
        ok ==> dominators_before(final(cfg).dom_ctx.dom@),
        ok ==> final(cfg).dom_ctx.idom@.len() == old(cfg).blocks@.len(),
        ok ==> idom_total(final(cfg).dom_ctx.idom@),
        ok ==> forall|n: int| 0 <= n < old(cfg).blocks@.len() ==>
            #[trigger] final(cfg).dom_ctx.idom@[n] == imm_from(final(cfg).dom_ctx.dom@, n),
        ok && all_reachable(old(cfg).graph.preds(), old(cfg).blocks@.len() as usize) ==> forall|n: int|
            1 <= n < old(cfg).blocks@.len() ==> #[trigger] final(cfg).dom_ctx.idom@[n] is Some
            && is_immediate_dominator(old(cfg).graph.preds(), old(cfg).blocks@.len() as usize, final(cfg).dom_ctx.idom@[n]->Some_0, n as usize),
        ok && all_reachable(old(cfg).graph.preds(), old(cfg).blocks@.len() as usize) ==> forall|y: int|
            0 <= y < old(cfg).blocks@.len() ==> #[trigger] final(cfg).dom_ctx.domf@[y]@ == dominance_frontier(
                old(cfg).graph.preds(), old(cfg).graph.out_edges(), old(cfg).blocks@.len() as usize, y as usize),
        ok ==> final(cfg).dom_ctx.domf@.len() == old(cfg).blocks@.len(),
        ok ==> forall|y: int| 0 <= y < old(cfg).blocks@.len() ==> #[trigger] final(cfg).dom_ctx.domf@[y]@
            == frontier(old(cfg).graph.out_edges(), final(cfg).dom_ctx.idom@, final(cfg).dom_ctx.strict_dom@, y as usize),
{
    let size = cfg.blocks.len();
    let ghost preds = cfg.graph.preds();
    proof {
        assert forall|n: usize| n < size implies #[trigger] preds.contains_key(n) && forall|p: usize| #[trigger] preds[n].contains(p) ==> p < size by {
            assert(preds.contains_key(n));
        }
    }
    let mut d = Dominator::new(size);
    compute_dom_tree(&cfg.graph, size, &mut d);
    let ghost t = d.trees();
    proof {
        assert(old(cfg).blocks@.len() as usize == size);
        assert(old(cfg).graph.preds() == preds);
        if all_reachable(preds, size) {
            lemma_greatest_is_path_dominance(preds, size, t);
            assert(dominators_below(t, size) == path_dominators_before(preds, size)) by {
                if dominators_below(t, size) {
                    assert forall|n: usize, e: usize| 1 <= n < size && e < size && #[trigger] dominates(preds, size, e, n) implies e <= n by {
                        assert(t[n as int].contains(e));
                    }
                }
                if path_dominators_before(preds, size) {
                    assert forall|n: int, e: usize| 1 <= n < size && #[trigger] t[n].contains(e) implies e <= n by {
                        assert(t[(n as usize) as int].contains(e));
                        assert(dominates(preds, size, e, n as usize));
                    }
                }
            }
        }
    }
    if !check_dominators_below(&d, size) {
        assert(is_greatest_dom_solution(old(cfg).graph.preds(), old(cfg).blocks@.len() as usize, t));
        return false;
    }
    let mut dom: Vec<Option<usize>> = Vec::new();
    dom.push(None);
    let mut n: usize = 1;
    while n < size
        invariant
            1 <= n <= size,
            d.tree@.len() == size,
            t == d.trees(),
            dom@.len() == n,
            dom@[0] is None,
            forall|k: int| 1 <= k < n ==> #[trigger] dom@[k] == Some(closest_below(t[k], k as usize)),
        decreases size - n,
    {
        let m = closest_dominator_below(d.get_dominator(n), n);
        dom.push(Some(m));
        n = n + 1;
    }
    proof {
        assert forall|k: int| 1 <= k < size implies (#[trigger] dom@[k] matches Some(e) ==> e < k) by {
            let s = t[k];
            let ku = k as usize;
            if exists|e: usize| #[trigger] s.contains(e) && e < ku {
                let e = choose|e: usize| #[trigger] s.contains(e) && e < ku;
                lemma_closest_max_exists(s, ku, e);
                let m = choose|m: usize| is_closest_below(s, ku, m);
                lemma_closest_below_unique(s, ku, m);
            } else {
                lemma_closest_below_unique(s, ku, 0);
            }
        }
        assert(opts_below(dom@, size as nat));
        assert(dominators_before(dom@));
    }
    let strict = strict_sets(&d, size, Ghost(t));
    let idom = compute_immediate_dominators(&dom);
    proof {
        assert forall|v: int| 0 <= v < idom@.len() implies (#[trigger] idom@[v] matches Some(p) ==> (p as int) < v) by {
            assert(idom@[v] == imm_from(dom@, v));
        }
        assert forall|v: int| 0 <= v < idom@.len() implies opt_below(#[trigger] idom@[v], idom@.len()) by {
            assert(idom@[v] == imm_from(dom@, v));
        }
    }
    let domf = compute_dominance_frontier(&cfg.graph.edges, &idom, &strict);
    cfg.dom_ctx = DominatorContext { dom, strict_dom: strict, idom, domf };
    proof {
        assert(ctx_from(cfg.dom_ctx, t, old(cfg).blocks@.len()));
        assert(is_greatest_dom_solution(old(cfg).graph.preds(), old(cfg).blocks@.len() as usize, t));
        if all_reachable(preds, size) {
            lemma_greatest_is_path_dominance(preds, size, t);
            assert(path_dominators_before(preds, size));
            assert forall|k: int| 1 <= k < size implies #[trigger] cfg.dom_ctx.idom@[k] is Some
                && is_immediate_dominator(preds, size, cfg.dom_ctx.idom@[k]->Some_0, k as usize) by {
                lemma_closest_dominator_is_immediate(preds, size, k as usize);
                assert(cfg.dom_ctx.idom@[k] == imm_from(dom@, k));
                assert(t[k] == path_doms(preds, size)[k]);
            }
            let em = cfg.graph.out_edges();
            assert(ctx_by_paths(preds, size, cfg.dom_ctx.idom@, cfg.dom_ctx.strict_dom@)) by {
                assert forall|c: usize, b: usize| c < size implies (#[trigger] cfg.dom_ctx.strict_dom@[c as int]@.contains(b)
                    <==> b < size && b != c && dominates(preds, size, c, b)) by {
                    if b < size {
                        assert(t[b as int] == path_doms(preds, size)[b as int]);
                    }
                }
                assert(cfg.dom_ctx.idom@[0] == imm_from(dom@, 0));
            }
            assert forall|y: int| 0 <= y < size implies #[trigger] cfg.dom_ctx.domf@[y]@ == dominance_frontier(preds, em, size, y as usize) by {
                let fr = frontier(em, cfg.dom_ctx.idom@, cfg.dom_ctx.strict_dom@, y as usize);
                assert(cfg.dom_ctx.domf@[y]@ == fr);
                assert forall|b: usize| #[trigger] fr.contains(b) == dominance_frontier(preds, em, size, y as usize).contains(b) by {
                    if fr.contains(b) {
                        let d = |x: usize, z: usize| em.contains_key(x) && em[x].contains(z);
                        let a = choose|a: usize| #[trigger] d(a, b)
                            && on_walk(cfg.dom_ctx.idom@, cfg.dom_ctx.strict_dom@, a as int, b, y as usize);
                        assert(a < size && b < size);
                        lemma_on_walk_dominance(preds, size, cfg.dom_ctx.idom@, cfg.dom_ctx.strict_dom@, a as int, b, y as usize);
                        assert(em[a].contains(b));
                    }
                    if dominance_frontier(preds, em, size, y as usize).contains(b) {
                        let a = choose|a: usize| a < size && em.contains_key(a) && #[trigger] em[a].contains(b)
                            && dominates(preds, size, y as usize, a) && !(y as usize != b && dominates(preds, size, y as usize, b));
                        assert(b < size);
                        lemma_on_walk_dominance(preds, size, cfg.dom_ctx.idom@, cfg.dom_ctx.strict_dom@, a as int, b, y as usize);
                        let d = |x: usize, z: usize| em.contains_key(x) && em[x].contains(z);
                        assert(d(a, b));
                    }
                }
                assert(fr =~= dominance_frontier(preds, em, size, y as usize));
            }
        }
    }
    true
}


} // verus!
