use vstd::prelude::*;
use std::collections::HashSet;
use crate::graph::DirectedGraph;
use crate::sets::{copy_set, intersect_sets, elements};

verus! {

broadcast use vstd::std_specs::hash::group_hash_axioms;

/// Dominator sets, immediate dominators and dominance frontiers of the
/// nodes of a control-flow graph, indexed by node.
pub struct Dominator {
    pub tree: Vec<HashSet<usize>>,
    pub immediate: Vec<Vec<usize>>,
    pub frontier: Vec<HashSet<usize>>,
}

impl Dominator {
    pub open spec fn trees(&self) -> Seq<Set<usize>> {
        self.tree@.map_values(|s: HashSet<usize>| s@)
    }

    pub open spec fn immediates(&self) -> Seq<Seq<usize>> {
        self.immediate@.map_values(|v: Vec<usize>| v@)
    }

    pub open spec fn frontiers(&self) -> Seq<Set<usize>> {
        self.frontier@.map_values(|s: HashSet<usize>| s@)
    }

    /// Empty sets and lists for `size` nodes.
    pub fn new(size: usize) -> (r: Self)
        ensures
            r.trees() == Seq::new(size as nat, |i: int| Set::<usize>::empty()),
            r.immediates() == Seq::new(size as nat, |i: int| Seq::<usize>::empty()),
            r.frontiers() == Seq::new(size as nat, |i: int| Set::<usize>::empty()),
            r.tree@.len() == size,
            r.immediate@.len() == size,
            r.frontier@.len() == size,
    {
        let mut tree: Vec<HashSet<usize>> = Vec::new();
        let mut immediate: Vec<Vec<usize>> = Vec::new();
        let mut frontier: Vec<HashSet<usize>> = Vec::new();
        let mut i: usize = 0;
        while i < size
            invariant
                i <= size,
                tree@.len() == i,
                immediate@.len() == i,
                frontier@.len() == i,
                forall|j: int| 0 <= j < i ==> (#[trigger] tree@[j])@ == Set::<usize>::empty(),
                forall|j: int| 0 <= j < i ==> (#[trigger] immediate@[j])@ == Seq::<usize>::empty(),
                forall|j: int| 0 <= j < i ==> (#[trigger] frontier@[j])@ == Set::<usize>::empty(),
            decreases size - i,
        {
            tree.push(HashSet::new());
            immediate.push(Vec::new());
            frontier.push(HashSet::new());
            i = i + 1;
        }
        let r = Dominator { tree, immediate, frontier };
        assert(r.trees() =~= Seq::new(size as nat, |i: int| Set::<usize>::empty()));
        assert(r.immediates() =~= Seq::new(size as nat, |i: int| Seq::<usize>::empty()));
        assert(r.frontiers() =~= Seq::new(size as nat, |i: int| Set::<usize>::empty()));
        r
    }

    /// Records `v` as a dominator of `node`.
    pub fn insert_dominator(&mut self, node: usize, v: usize)
        requires
            node < old(self).tree@.len(),
        ensures
            final(self).trees() == old(self).trees().update(node as int, old(self).trees()[node as int].insert(v)),
            final(self).tree@.len() == old(self).tree@.len(),
            final(self).immediate == old(self).immediate,
            final(self).frontier == old(self).frontier,
    {
        self.tree[node].insert(v);
        assert(self.trees() =~= old(self).trees().update(node as int, old(self).trees()[node as int].insert(v)));
    }

    /// The dominators of `node`.
    pub fn get_dominator(&self, node: usize) -> (r: &HashSet<usize>)
        requires
            node < self.tree@.len(),
        ensures
            r@ == self.trees()[node as int],
    {
        &self.tree[node]
    }

    /// Replaces the dominators of `node` with `v`.
    pub fn set_dominator(&mut self, node: usize, v: HashSet<usize>)
        requires
            node < old(self).tree@.len(),
        ensures
            final(self).trees() == old(self).trees().update(node as int, v@),
            final(self).tree@.len() == old(self).tree@.len(),
            final(self).immediate == old(self).immediate,
            final(self).frontier == old(self).frontier,
    {
        self.tree.set(node, v);
        assert(self.trees() =~= old(self).trees().update(node as int, v@));
    }

    /// Appends `v` to the immediate dominators of `node`.
    pub fn insert_immediate(&mut self, node: usize, v: usize)
        requires
            node < old(self).immediate@.len(),
        ensures
            final(self).immediates() == old(self).immediates().update(node as int, old(self).immediates()[node as int].push(v)),
            final(self).immediate@.len() == old(self).immediate@.len(),
            final(self).tree == old(self).tree,
            final(self).frontier == old(self).frontier,
    {
        self.immediate[node].push(v);
        assert(self.immediates() =~= old(self).immediates().update(node as int, old(self).immediates()[node as int].push(v)));
    }

    /// The immediate dominator of `node` recorded at `slot`.
    pub fn get_immediate_at(&self, node: usize, slot: usize) -> (r: usize)
        requires
            node < self.immediate@.len(),
            slot < self.immediate@[node as int]@.len(),
        ensures
            r == self.immediates()[node as int][slot as int],
    {
        self.immediate[node][slot]
    }

    /// Records `v` in the dominance frontier of `node`.
    pub fn insert_frontier(&mut self, node: usize, v: usize)
        requires
            node < old(self).frontier@.len(),
        ensures
            final(self).frontiers() == old(self).frontiers().update(node as int, old(self).frontiers()[node as int].insert(v)),
            final(self).frontier@.len() == old(self).frontier@.len(),
            final(self).tree == old(self).tree,
            final(self).immediate == old(self).immediate,
    {
        self.frontier[node].insert(v);
        assert(self.frontiers() =~= old(self).frontiers().update(node as int, old(self).frontiers()[node as int].insert(v)));
    }

    /// The dominance frontier of `node`.
    pub fn get_frontier(&mut self, node: usize) -> (r: &HashSet<usize>)
        requires
            node < old(self).frontier@.len(),
        ensures
            r@ == old(self).frontiers()[node as int],
            *final(self) == *old(self),
    {
        &self.frontier[node]
    }
}

// ---------------------------------------------------------------------
// Dominator sets as the greatest solution of the data-flow equations.

/// The nodes that are in the set of every node of `ps` (none if `ps` is empty).
pub open spec fn dom_meet(t: Seq<Set<usize>>, ps: Set<usize>) -> Set<usize> {
    Set::new(|x: usize| !ps.is_empty() && forall|p: usize| ps.contains(p) ==> #[trigger] t[p as int].contains(x))
}

/// One round of the equations for node `n` with predecessors `ps`.
pub open spec fn dom_step(t: Seq<Set<usize>>, ps: Set<usize>, n: usize) -> Set<usize> {
    dom_meet(t, ps).insert(n)
}

/// Every node below `len` has a predecessor set, of nodes below `len`.
pub open spec fn preds_within(preds: Map<usize, Set<usize>>, len: usize) -> bool {
    forall|n: usize| n < len ==> #[trigger] preds.contains_key(n) && forall|p: usize| #[trigger] preds[n].contains(p) ==> p < len
}

/// `t` gives each node below `len` a set of nodes below `len`.
pub open spec fn within(t: Seq<Set<usize>>, len: usize) -> bool {
    &&& t.len() == len
    &&& forall|n: int, x: usize| 0 <= n < len && #[trigger] t[n].contains(x) ==> x < len
}

/// `t` solves the dominator equations: the entry is dominated by itself
/// alone, every other node by itself and what dominates all its
/// predecessors.
pub open spec fn is_dom_solution(preds: Map<usize, Set<usize>>, len: usize, t: Seq<Set<usize>>) -> bool {
    &&& within(t, len)
    &&& len > 0 ==> t[0] == Set::<usize>::empty().insert(0)
    &&& forall|n: int| 1 <= n < len ==> #[trigger] t[n] == dom_step(t, preds[n as usize], n as usize)
}

/// Node by node, `a` is contained in `b`.
pub open spec fn pointwise_subset(a: Seq<Set<usize>>, b: Seq<Set<usize>>) -> bool {
    forall|n: int| 0 <= n < a.len() ==> (#[trigger] a[n]).subset_of(b[n])
}

/// `t` is the greatest solution of the dominator equations.
pub open spec fn is_greatest_dom_solution(preds: Map<usize, Set<usize>>, len: usize, t: Seq<Set<usize>>) -> bool {
    &&& is_dom_solution(preds, len, t)
    &&& forall|x: Seq<Set<usize>>| #[trigger] is_dom_solution(preds, len, x) ==> pointwise_subset(x, t)
}

/// The sum of the sizes of the sets.
pub open spec fn total_size(t: Seq<Set<usize>>) -> nat
    decreases t.len(),
{
    if t.len() == 0 {
        0
    } else {
        total_size(t.drop_last()) + t.last().len()
    }
}

proof fn lemma_total_update(t: Seq<Set<usize>>, i: int, s: Set<usize>)
    requires
        0 <= i < t.len(),
    ensures
        total_size(t.update(i, s)) + t[i].len() == total_size(t) + s.len(),
    decreases t.len(),
{
    if i < t.len() - 1 {
        lemma_total_update(t.drop_last(), i, s);
        assert(t.update(i, s).drop_last() =~= t.drop_last().update(i, s));
    } else {
        assert(t.update(i, s).drop_last() =~= t.drop_last());
    }
}

proof fn lemma_meet_monotone(a: Seq<Set<usize>>, b: Seq<Set<usize>>, ps: Set<usize>)
    requires
        forall|p: usize| #[trigger] ps.contains(p) ==> a[p as int].subset_of(b[p as int]),
    ensures
        dom_meet(a, ps).subset_of(dom_meet(b, ps)),
{
    assert forall|x: usize| #[trigger] dom_meet(a, ps).contains(x) implies dom_meet(b, ps).contains(x) by {
        assert forall|p: usize| ps.contains(p) implies #[trigger] b[p as int].contains(x) by {
            assert(a[p as int].contains(x));
        }
    }
}

proof fn lemma_usize_sets_finite(s: Set<usize>)
    ensures
        s.finite(),
{
    broadcast use vstd::set_lib::full_set_properties;
    assert(Set::<usize>::full().finite());
    vstd::set_lib::lemma_set_subset_finite(Set::<usize>::full(), s);
}

/// The nodes that dominate all of `v`'s nodes (none for an empty `v`).
fn meet_of(dom: &Dominator, v: &Vec<usize>) -> (r: HashSet<usize>)
    requires
        forall|j: int| 0 <= j < v@.len() ==> #[trigger] v@[j] < dom.tree@.len(),
    ensures
        r@ == dom_meet(dom.trees(), v@.to_set()),
{
    let ghost t = dom.trees();
    let mut diff: HashSet<usize> = HashSet::new();
    let mut i: usize = 0;
    while i < v.len()
        invariant
            t == dom.trees(),
            i <= v@.len(),
            forall|j: int| 0 <= j < v@.len() ==> #[trigger] v@[j] < dom.tree@.len(),
            i == 0 ==> diff@ == Set::<usize>::empty(),
            i > 0 ==> forall|x: usize| #[trigger] diff@.contains(x) <==> (forall|j: int| 0 <= j < i ==> #[trigger] t[v@[j] as int].contains(x)),
        decreases v@.len() - i,
    {
        let p = v[i];
        if i == 0 {
            diff = copy_set(dom.get_dominator(p));
        } else {
            diff = intersect_sets(&diff, dom.get_dominator(p));
        }
        proof {
            assert forall|x: usize| #[trigger] diff@.contains(x) <==> (forall|j: int| 0 <= j < i + 1 ==> #[trigger] t[v@[j] as int].contains(x)) by {
                if diff@.contains(x) {
                    assert forall|j: int| 0 <= j < i + 1 implies #[trigger] t[v@[j] as int].contains(x) by {
                        if j < i {
                        }
                    }
                }
            }
        }
        i = i + 1;
    }
    proof {
        assert forall|x: usize| #[trigger] diff@.contains(x) <==> dom_meet(t, v@.to_set()).contains(x) by {
            if v@.len() > 0 {
                assert(v@.to_set().contains(v@[0]));
                if diff@.contains(x) {
                    assert forall|p: usize| v@.to_set().contains(p) implies #[trigger] t[p as int].contains(x) by {
                        let j = choose|j: int| 0 <= j < v@.len() && v@[j] == p;
                        assert(t[v@[j] as int].contains(x));
                    }
                }
                if dom_meet(t, v@.to_set()).contains(x) {
                    assert forall|j: int| 0 <= j < v@.len() implies #[trigger] t[v@[j] as int].contains(x) by {
                        assert(v@.to_set().contains(v@[j]));
                    }
                }
            } else {
                assert(v@.to_set() =~= Set::<usize>::empty());
            }
        }
        assert(diff@ =~= dom_meet(t, v@.to_set()));
    }
    diff
}

/// Fills `dom.tree` with the dominator sets of the nodes below `len`: it
/// starts from the entry alone for node 0 and every node for the others,
/// and removes what the equations rule out until nothing changes.
pub fn compute_dom_tree(graph: &DirectedGraph, len: usize, dom: &mut Dominator)
    requires
        len > 0,
        preds_within(graph.preds(), len),
        old(dom).tree@.len() == len,
        forall|n: int| 0 <= n < len ==> #[trigger] old(dom).trees()[n] == Set::<usize>::empty(),
    ensures
        is_greatest_dom_solution(graph.preds(), len, final(dom).trees()),
        final(dom).immediate == old(dom).immediate,
        final(dom).frontier == old(dom).frontier,
{
    let ghost preds = graph.preds();
    let ghost universe = Set::new(|x: usize| x < len);
    dom.insert_dominator(0, 0);
    let mut i: usize = 1;
    while i < len
        invariant
            1 <= i <= len,
            universe == Set::new(|x: usize| x < len),
            dom.tree@.len() == len,
            dom.immediate == old(dom).immediate,
            dom.frontier == old(dom).frontier,
            dom.trees()[0] == Set::<usize>::empty().insert(0),
            forall|n: int| 1 <= n < i ==> #[trigger] dom.trees()[n] == universe,
            forall|n: int| i <= n < len ==> #[trigger] dom.trees()[n] == Set::<usize>::empty(),
        decreases len - i,
    {
        let mut j: usize = 0;
        while j < len
            invariant
                1 <= i < len,
                j <= len,
                universe == Set::new(|x: usize| x < len),
                dom.tree@.len() == len,
                dom.immediate == old(dom).immediate,
                dom.frontier == old(dom).frontier,
                dom.trees()[0] == Set::<usize>::empty().insert(0),
                forall|n: int| 1 <= n < i ==> #[trigger] dom.trees()[n] == universe,
                forall|n: int| i < n < len ==> #[trigger] dom.trees()[n] == Set::<usize>::empty(),
                dom.trees()[i as int] == Set::new(|x: usize| x < j),
            decreases len - j,
        {
            dom.insert_dominator(i, j);
            assert(dom.trees()[i as int] =~= Set::new(|x: usize| x < j + 1));
            j = j + 1;
        }
        assert(dom.trees()[i as int] =~= universe);
        i = i + 1;
    }
    proof {
        assert forall|x: Seq<Set<usize>>| #[trigger] is_dom_solution(preds, len, x) implies pointwise_subset(x, dom.trees()) by {
            assert forall|n: int| 0 <= n < x.len() implies (#[trigger] x[n]).subset_of(dom.trees()[n]) by {
                if n >= 1 {
                    assert forall|y: usize| x[n].contains(y) implies dom.trees()[n].contains(y) by {
                        assert(y < len);
                    }
                }
            }
        }
        assert(within(dom.trees(), len));
        let t0 = dom.trees();
        assert forall|n: int| 1 <= n < len implies #[trigger] dom_step(t0, preds[n as usize], n as usize).subset_of(t0[n]) by {
            assert(t0[n] == universe);
            assert forall|y: usize| dom_step(t0, preds[n as usize], n as usize).contains(y) implies universe.contains(y) by {
                if y != n {
                    let ps = preds[n as usize];
                    assert(preds.contains_key(n as usize));
                    let p = ps.choose();
                    assert(ps.contains(p));
                    assert(t0[p as int].contains(y));
                }
            }
        }
    }
    let mut changed = true;
    while changed
        invariant
            len > 0,
            dom.tree@.len() == len,
            dom.immediate == old(dom).immediate,
            dom.frontier == old(dom).frontier,
            preds == graph.preds(),
            preds_within(preds, len),
            within(dom.trees(), len),
            dom.trees()[0] == Set::<usize>::empty().insert(0),
            forall|n: int| 1 <= n < len ==> #[trigger] dom_step(dom.trees(), preds[n as usize], n as usize).subset_of(dom.trees()[n]),
            forall|x: Seq<Set<usize>>| #[trigger] is_dom_solution(preds, len, x) ==> pointwise_subset(x, dom.trees()),
            !changed ==> forall|n: int| 1 <= n < len ==> #[trigger] dom.trees()[n] == dom_step(dom.trees(), preds[n as usize], n as usize),
        decreases total_size(dom.trees()) + (if changed { 1int } else { 0int }),
    {
        let ghost start = dom.trees();
        changed = false;
        let mut n: usize = 1;
        while n < len
            invariant
                1 <= n <= len,
                dom.tree@.len() == len,
                dom.immediate == old(dom).immediate,
                dom.frontier == old(dom).frontier,
                preds == graph.preds(),
                preds_within(preds, len),
                within(dom.trees(), len),
                dom.trees()[0] == Set::<usize>::empty().insert(0),
                forall|m: int| 1 <= m < len ==> #[trigger] dom_step(dom.trees(), preds[m as usize], m as usize).subset_of(dom.trees()[m]),
                forall|x: Seq<Set<usize>>| #[trigger] is_dom_solution(preds, len, x) ==> pointwise_subset(x, dom.trees()),
                total_size(dom.trees()) <= total_size(start),
                changed ==> total_size(dom.trees()) < total_size(start),
                !changed ==> dom.trees() == start,
                !changed ==> forall|m: int| 1 <= m < n ==> #[trigger] dom.trees()[m] == dom_step(dom.trees(), preds[m as usize], m as usize),
            decreases len - n,
        {
            let ghost t = dom.trees();
            assert(preds.contains_key(n));
            let ps = elements(graph.pred.get(&n).unwrap());
            assert(ps@.to_set() == preds[n]);
            proof {
                assert forall|j: int| 0 <= j < ps@.len() implies #[trigger] ps@[j] < dom.tree@.len() by {
                    assert(ps@.to_set().contains(ps@[j]));
                }
            }
            let mut unioned = meet_of(dom, &ps);
            unioned.insert(n);
            let ghost new_set = unioned@;
            assert(new_set == dom_step(t, preds[n], n));
            assert(dom_step(t, preds[(n as int) as usize], (n as int) as usize).subset_of(t[n as int]));
            let prev_len = dom.get_dominator(n).len();
            dom.set_dominator(n, unioned);
            proof {
                let t2 = dom.trees();
                assert(t2 == t.update(n as int, new_set));
                assert(new_set.subset_of(t[n as int]));
                lemma_usize_sets_finite(new_set);
                lemma_usize_sets_finite(t[n as int]);
                lemma_total_update(t, n as int, new_set);
                vstd::set_lib::lemma_len_subset(new_set, t[n as int]);
                assert(pointwise_subset(t2, t));
                assert forall|m: int| 1 <= m < len implies #[trigger] dom_step(t2, preds[m as usize], m as usize).subset_of(t2[m]) by {
                    assert(preds.contains_key(m as usize));
                    assert forall|p: usize| #[trigger] preds[m as usize].contains(p) implies t2[p as int].subset_of(t[p as int]) by {
                        assert(p < len);
                    }
                    lemma_meet_monotone(t2, t, preds[m as usize]);
                    assert(dom_step(t, preds[m as usize], m as usize).subset_of(t[m]));
                }
                assert forall|x: Seq<Set<usize>>| #[trigger] is_dom_solution(preds, len, x) implies pointwise_subset(x, t2) by {
                    assert(pointwise_subset(x, t));
                    assert forall|k: int| 0 <= k < x.len() implies (#[trigger] x[k]).subset_of(t2[k]) by {
                        if k == n {
                            assert(preds.contains_key(n));
                            assert forall|p: usize| #[trigger] preds[n].contains(p) implies x[p as int].subset_of(t[p as int]) by {
                                assert(p < len);
                            }
                            lemma_meet_monotone(x, t, preds[n]);
                            assert(x[k] == dom_step(x, preds[n], n));
                        }
                    }
                }
                assert forall|k: int, y: usize| 0 <= k < len && #[trigger] t2[k].contains(y) implies y < len by {
                    assert(t[k].contains(y));
                }
                if new_set.len() == t[n as int].len() {
                    vstd::set_lib::lemma_subset_equality(new_set, t[n as int]);
                    assert(t2 =~= t);
                }
            }
            if dom.get_dominator(n).len() != prev_len {
                changed = true;
            }
            n = n + 1;
        }
    }
}

/// `path` runs from the entry to `n` along edges of the graph.
pub open spec fn is_entry_path(preds: Map<usize, Set<usize>>, len: usize, path: Seq<usize>, n: usize) -> bool {
    &&& path.len() > 0
    &&& path[0] == 0
    &&& path.last() == n
    &&& forall|i: int| 0 <= i < path.len() ==> #[trigger] path[i] < len
    &&& forall|i: int| 0 <= i < path.len() - 1 ==> #[trigger] preds[path[i + 1]].contains(path[i])
}

/// Every dominator that the equations give a node lies on every path
/// from the entry to that node.
pub proof fn lemma_dominators_on_every_path(
    preds: Map<usize, Set<usize>>,
    len: usize,
    t: Seq<Set<usize>>,
    path: Seq<usize>,
    n: usize,
)
    requires
        is_dom_solution(preds, len, t),
        is_entry_path(preds, len, path, n),
    ensures
        t[n as int].subset_of(path.to_set()),
    decreases path.len(),
{
    let k = path.len() - 1;
    assert(path[k] == n);
    assert(path.to_set().contains(n));
    if n == 0 {
        assert(t[0] == Set::<usize>::empty().insert(0));
    } else {
        let prev = path.drop_last();
        assert(path[k - 1] < len);
        assert(is_entry_path(preds, len, prev, path[k - 1])) by {
            assert forall|i: int| 0 <= i < prev.len() - 1 implies #[trigger] preds[prev[i + 1]].contains(prev[i]) by {
                assert(preds[path[i + 1]].contains(path[i]));
            }
            assert forall|i: int| 0 <= i < prev.len() implies #[trigger] prev[i] < len by {
                assert(path[i] < len);
            }
        }
        lemma_dominators_on_every_path(preds, len, t, prev, path[k - 1]);
        assert(preds[n].contains(path[k - 1])) by {
            assert(preds[path[(k - 1) + 1]].contains(path[k - 1]));
        }
        assert(t[n as int] == dom_step(t, preds[n], n));
        assert forall|y: usize| t[n as int].contains(y) implies path.to_set().contains(y) by {
            if y != n {
                assert(t[path[k - 1] as int].contains(y));
                assert(prev.to_set().contains(y));
                let j = choose|j: int| 0 <= j < prev.len() && prev[j] == y;
                assert(path[j] == y);
            }
        }
    }
}

/// `m` is the largest node below `n` in `s`, or 0 where there is none.
pub open spec fn is_closest_below(s: Set<usize>, n: usize, m: usize) -> bool {
    if exists|e: usize| #[trigger] s.contains(e) && e < n {
        &&& s.contains(m)
        &&& m < n
        &&& forall|e: usize| #[trigger] s.contains(e) && e < n ==> e <= m
    } else {
        m == 0
    }
}

/// Appends to the immediate dominators of each node other than the entry
/// the closest of its dominators below it (0 where there is none).
pub fn compute_idom_tree(len: usize, dom: &mut Dominator)
    requires
        old(dom).tree@.len() == len,
        old(dom).immediate@.len() == len,
        forall|n: int, e: usize| 1 <= n < len && #[trigger] old(dom).trees()[n].contains(e) ==> e <= n,
    ensures
        final(dom).tree == old(dom).tree,
        final(dom).frontier == old(dom).frontier,
        final(dom).immediate@.len() == len,
        len > 0 ==> final(dom).immediates()[0] == old(dom).immediates()[0],
        forall|n: int| 1 <= n < len ==> #[trigger] final(dom).immediates()[n] == old(dom).immediates()[n].push(
            closest_below(old(dom).trees()[n], n as usize),
        ),
{
    let mut n: usize = 1;
    let ghost mut chosen: Seq<usize> = Seq::new(len as nat, |i: int| 0usize);
    while n < len
        invariant
            1 <= n,
            n <= len || len == 0,
            chosen.len() == len,
            old(dom).tree@.len() == len,
            old(dom).immediate@.len() == len,
            dom.tree == old(dom).tree,
            dom.frontier == old(dom).frontier,
            dom.immediate@.len() == len,
            len > 0 ==> dom.immediates()[0] == old(dom).immediates()[0],
            forall|k: int| n <= k < len ==> #[trigger] dom.immediates()[k] == old(dom).immediates()[k],
            forall|k: int| 1 <= k < n && k < len ==> #[trigger] dom.immediates()[k] == old(dom).immediates()[k].push(chosen[k])
                && is_closest_below(old(dom).trees()[k], k as usize, chosen[k]),
            forall|k: int, e: usize| 1 <= k < len && #[trigger] old(dom).trees()[k].contains(e) ==> e <= k,
        decreases len - n,
    {
        let ghost s = dom.trees()[n as int];
        assert(s == old(dom).trees()[n as int]);
        let v = elements(dom.get_dominator(n));
        let mut min_index: usize = 0;
        let mut min_value: usize = len;
        let mut i: usize = 0;
        while i < v.len()
            invariant
                n < len,
                i <= v@.len(),
                v@.to_set() == s,
                forall|e: usize| #[trigger] s.contains(e) ==> e <= n,
                (exists|j: int| 0 <= j < i && #[trigger] v@[j] < n) ==> {
                    &&& s.contains(min_index)
                    &&& min_index < n
                    &&& min_value == n - min_index
                    &&& forall|j: int| 0 <= j < i && #[trigger] v@[j] < n ==> v@[j] <= min_index
                },
                !(exists|j: int| 0 <= j < i && #[trigger] v@[j] < n) ==> min_index == 0 && min_value == len,
            decreases v@.len() - i,
        {
            let e = v[i];
            assert(v@.to_set().contains(e));
            if e != n && n - e < min_value {
                min_value = n - e;
                min_index = e;
            }
            proof {
                if e < n {
                    assert(v@[i as int] < n);
                }
            }
            i = i + 1;
        }
        proof {
            if exists|e: usize| #[trigger] s.contains(e) && e < n {
                let e = choose|e: usize| #[trigger] s.contains(e) && e < n;
                let j = choose|j: int| 0 <= j < v@.len() && v@[j] == e;
                assert(v@[j] < n);
                assert forall|f: usize| #[trigger] s.contains(f) && f < n implies f <= min_index by {
                    let jf = choose|jf: int| 0 <= jf < v@.len() && v@[jf] == f;
                    assert(v@[jf] < n);
                }
            } else {
                if exists|j: int| 0 <= j < v@.len() && #[trigger] v@[j] < n {
                    let j = choose|j: int| 0 <= j < v@.len() && #[trigger] v@[j] < n;
                    assert(s.contains(v@[j]));
                }
            }
            assert(is_closest_below(s, n, min_index));
        }
        dom.insert_immediate(n, min_index);
        proof {
            assert(dom.immediates()[n as int] == old(dom).immediates()[n as int].push(min_index));
            chosen = chosen.update(n as int, min_index);
        }
        n = n + 1;
    }
    assert forall|k: int| 1 <= k < len implies #[trigger] dom.immediates()[k] == old(dom).immediates()[k].push(
        closest_below(old(dom).trees()[k], k as usize),
    ) by {
        assert(dom.immediates()[k] == old(dom).immediates()[k].push(chosen[k]));
        lemma_closest_below_unique(old(dom).trees()[k], k as usize, chosen[k]);
    }
}

/// The largest node below `n` in `s`, or 0 where there is none.
pub open spec fn closest_below(s: Set<usize>, n: usize) -> usize {
    choose|m: usize| is_closest_below(s, n, m)
}

pub proof fn lemma_closest_below_unique(s: Set<usize>, n: usize, m: usize)
    requires
        is_closest_below(s, n, m),
    ensures
        closest_below(s, n) == m,
{
    let c = closest_below(s, n);
    assert(is_closest_below(s, n, c));
    if exists|e: usize| #[trigger] s.contains(e) && e < n {
        assert(c <= m);
        assert(m <= c);
    }
}

/// The first immediate dominator recorded for each node (0 where none is).
pub open spec fn idom_of(d: Dominator) -> Seq<usize> {
    Seq::new(d.immediate@.len(), |n: int| if d.immediates()[n].len() > 0 { d.immediates()[n][0] } else { 0 })
}

/// The entry has no immediate dominator; every other node has one below it.
pub open spec fn idom_shaped(d: Dominator, len: usize) -> bool {
    &&& d.immediate@.len() == len
    &&& len > 0 ==> d.immediates()[0].len() == 0
    &&& forall|n: int| 1 <= n < len ==> (#[trigger] d.immediates()[n]).len() > 0 && d.immediates()[n][0] < n
}

/// Walking up the immediate dominators from `r` reaches `stop`.
pub open spec fn chain_ok(idom: Seq<usize>, r: usize, stop: usize) -> bool
    decreases r,
{
    if r == stop {
        true
    } else if r == 0 || r >= idom.len() || idom[r as int] >= r {
        false
    } else {
        chain_ok(idom, idom[r as int], stop)
    }
}

/// The nodes passed walking up the immediate dominators from `r` to `stop`
/// (`stop` itself excluded).
pub open spec fn chain_nodes(idom: Seq<usize>, r: usize, stop: usize) -> Set<usize>
    decreases r,
{
    if r == stop || r == 0 || r >= idom.len() || idom[r as int] >= r {
        Set::empty()
    } else {
        chain_nodes(idom, idom[r as int], stop).insert(r)
    }
}

proof fn lemma_chain_nodes_below(idom: Seq<usize>, r: usize, stop: usize)
    ensures
        forall|x: usize| #[trigger] chain_nodes(idom, r, stop).contains(x) ==> x <= r,
    decreases r,
{
    if !(r == stop || r == 0 || r >= idom.len() || idom[r as int] >= r) {
        lemma_chain_nodes_below(idom, idom[r as int], stop);
        assert(chain_nodes(idom, r, stop) == chain_nodes(idom, idom[r as int], stop).insert(r));
    } else {
        assert(chain_nodes(idom, r, stop) == Set::<usize>::empty());
    }
}

/// `b` is in the dominance frontier of `x`: it joins two or more paths,
/// and the walk from one of its predecessors up to its immediate
/// dominator passes `x`.
pub open spec fn df_cond(preds: Map<usize, Set<usize>>, idom: Seq<usize>, b: usize, x: usize) -> bool {
    &&& preds[b].len() >= 2
    &&& exists|p: usize| #[trigger] preds[b].contains(p) && chain_nodes(idom, p, idom[b as int]).contains(x)
}

/// The nodes below `k` in whose frontier computation `x` is passed.
pub open spec fn df_sources(preds: Map<usize, Set<usize>>, idom: Seq<usize>, x: usize, k: usize) -> Set<usize> {
    Set::new(|b: usize| b < k && df_cond(preds, idom, b, x))
}

/// The walks of the frontier computation all reach their end.
pub open spec fn domf_ok(preds: Map<usize, Set<usize>>, len: usize, idom: Seq<usize>) -> bool {
    forall|b: usize| b < len && #[trigger] preds[b].len() >= 2 ==> b != 0 && forall|p: usize| #[trigger] preds[b].contains(p)
        ==> chain_ok(idom, p, idom[b as int])
}

/// Adds to the frontier of each node the join points whose walk up the
/// immediate dominators passes it. `false` where a walk would run past
/// the entry (the computation cannot be done there), and the frontiers
/// are then left in an unspecified state.
pub fn compute_domf_tree(graph: &DirectedGraph, len: usize, dom: &mut Dominator) -> (ok: bool)
    requires
        preds_within(graph.preds(), len),
        idom_shaped(*old(dom), len),
        old(dom).frontier@.len() == len,
    ensures
        final(dom).tree == old(dom).tree,
        final(dom).immediate == old(dom).immediate,
        final(dom).frontier@.len() == len,
        ok == domf_ok(graph.preds(), len, idom_of(*old(dom))),
        ok ==> forall|x: int| 0 <= x < len ==> #[trigger] final(dom).frontiers()[x] == old(dom).frontiers()[x].union(
            df_sources(graph.preds(), idom_of(*old(dom)), x as usize, len),
        ),
{
    let ghost preds = graph.preds();
    let ghost idom = idom_of(*dom);
    let mut b: usize = 0;
    while b < len
        invariant
            b <= len,
            preds == graph.preds(),
            preds_within(preds, len),
            idom == idom_of(*old(dom)),
            idom_shaped(*old(dom), len),
            dom.tree == old(dom).tree,
            dom.immediate == old(dom).immediate,
            dom.frontier@.len() == len,
            old(dom).frontier@.len() == len,
            forall|x: int| 0 <= x < len ==> #[trigger] dom.frontiers()[x] == old(dom).frontiers()[x].union(df_sources(preds, idom, x as usize, b)),
            forall|c: usize| c < b && #[trigger] preds[c].len() >= 2 ==> c != 0 && forall|p: usize| #[trigger] preds[c].contains(p)
                ==> chain_ok(idom, p, idom[c as int]),
        decreases len - b,
    {
        assert(preds.contains_key(b));
        let pset = graph.pred.get(&b).unwrap();
        if pset.len() >= 2 {
            if b == 0 {
                proof {
                    assert(preds[0].len() >= 2);
                }
                return false;
            }
            assert(old(dom).immediates()[b as int].len() > 0);
            let stop = dom.get_immediate_at(b, 0);
            assert(stop == idom[b as int]);
            let ghost base = dom.frontiers();
            let ps = elements(pset);
            let mut j: usize = 0;
            while j < ps.len()
                invariant
                    1 <= b < len,
                    j <= ps@.len(),
                    preds.contains_key(b),
                    preds[b].len() >= 2,
                    ps@.to_set() == preds[b],
                    stop == idom[b as int],
                    preds == graph.preds(),
                    preds_within(preds, len),
                    idom == idom_of(*old(dom)),
                    idom_shaped(*old(dom), len),
                    dom.tree == old(dom).tree,
                    dom.immediate == old(dom).immediate,
                    dom.frontier@.len() == len,
                    base.len() == len,
                    forall|x: int| 0 <= x < len ==> #[trigger] dom.frontiers()[x] == (if exists|i: int| 0 <= i < j && #[trigger] chain_nodes(idom, ps@[i], stop).contains(x as usize) {
                        base[x].insert(b)
                    } else {
                        base[x]
                    }),
                    forall|i: int| 0 <= i < j ==> chain_ok(idom, #[trigger] ps@[i], stop),
                decreases ps@.len() - j,
            {
                let p = ps[j];
                assert(ps@.to_set().contains(ps@[j as int]));
                assert(preds[b].contains(p));
                assert(p < len);
                let mut runner = p;
                let ghost mid = dom.frontiers();
                proof {
                    lemma_chain_nodes_below(idom, p, stop);
                }
                while runner != dom.get_immediate_at(b, 0)
                    invariant
                        1 <= b < len,
                        preds == graph.preds(),
                        preds.contains_key(b),
                        preds[b].len() >= 2,
                        preds[b].contains(p),
                        runner < len,
                        stop == idom[b as int],
                        idom == idom_of(*old(dom)),
                        idom_shaped(*old(dom), len),
                        dom.tree == old(dom).tree,
                        dom.immediate == old(dom).immediate,
                        dom.frontier@.len() == len,
                        mid.len() == len,
                        chain_ok(idom, p, stop) == chain_ok(idom, runner, stop),
                        chain_nodes(idom, runner, stop).subset_of(chain_nodes(idom, p, stop)),
                        forall|x: int| 0 <= x < len ==> #[trigger] dom.frontiers()[x] == (if chain_nodes(idom, p, stop).contains(x as usize)
                            && !chain_nodes(idom, runner, stop).contains(x as usize) {
                            mid[x].insert(b)
                        } else {
                            mid[x]
                        }),
                    decreases runner,
                {
                    if runner == 0 {
                        proof {
                            assert(!chain_ok(idom, runner, stop));
                            assert(preds[b].len() >= 2);
                            assert(preds[b].contains(p));
                        }
                        return false;
                    }
                    assert(old(dom).immediates()[runner as int].len() > 0);
                    let ghost before = dom.frontiers();
                    dom.insert_frontier(runner, b);
                    let next = dom.get_immediate_at(runner, 0);
                    proof {
                        assert(idom[runner as int] == next);
                        assert(next < runner);
                        lemma_chain_nodes_below(idom, next, stop);
                        assert(chain_nodes(idom, runner, stop) == chain_nodes(idom, next, stop).insert(runner));
                        assert forall|x: int| 0 <= x < len implies #[trigger] dom.frontiers()[x] == (if chain_nodes(idom, p, stop).contains(x as usize)
                            && !chain_nodes(idom, next, stop).contains(x as usize) {
                            mid[x].insert(b)
                        } else {
                            mid[x]
                        }) by {
                            if x == runner {
                                assert(!chain_nodes(idom, next, stop).contains(runner));
                            }
                        }
                    }
                    runner = next;
                }
                proof {
                    assert(chain_nodes(idom, runner, stop) == Set::<usize>::empty());
                    assert forall|x: int| 0 <= x < len implies #[trigger] dom.frontiers()[x] == (if exists|i: int| 0 <= i < j + 1 && #[trigger] chain_nodes(idom, ps@[i], stop).contains(x as usize) {
                        base[x].insert(b)
                    } else {
                        base[x]
                    }) by {
                        if chain_nodes(idom, ps@[j as int], stop).contains(x as usize) {
                            assert(exists|i: int| 0 <= i < j + 1 && #[trigger] chain_nodes(idom, ps@[i], stop).contains(x as usize));
                        }
                        if exists|i: int| 0 <= i < j && #[trigger] chain_nodes(idom, ps@[i], stop).contains(x as usize) {
                            let i = choose|i: int| 0 <= i < j && #[trigger] chain_nodes(idom, ps@[i], stop).contains(x as usize);
                            assert(0 <= i < j + 1);
                        }
                        if exists|i: int| 0 <= i < j + 1 && #[trigger] chain_nodes(idom, ps@[i], stop).contains(x as usize) {
                            let i = choose|i: int| 0 <= i < j + 1 && #[trigger] chain_nodes(idom, ps@[i], stop).contains(x as usize);
                            if i < j {
                                assert(exists|i: int| 0 <= i < j && #[trigger] chain_nodes(idom, ps@[i], stop).contains(x as usize));
                            }
                        }
                    }
                }
                j = j + 1;
            }
            proof {
                assert forall|x: int| 0 <= x < len implies #[trigger] dom.frontiers()[x] == old(dom).frontiers()[x].union(df_sources(preds, idom, x as usize, (b + 1) as usize)) by {
                    let cond = exists|i: int| 0 <= i < ps@.len() && #[trigger] chain_nodes(idom, ps@[i], stop).contains(x as usize);
                    assert(cond == df_cond(preds, idom, b, x as usize)) by {
                        if cond {
                            let i = choose|i: int| 0 <= i < ps@.len() && #[trigger] chain_nodes(idom, ps@[i], stop).contains(x as usize);
                            assert(ps@.to_set().contains(ps@[i]));
                        }
                        if df_cond(preds, idom, b, x as usize) {
                            let p = choose|p: usize| #[trigger] preds[b].contains(p) && chain_nodes(idom, p, idom[b as int]).contains(x as usize);
                            let i = choose|i: int| 0 <= i < ps@.len() && ps@[i] == p;
                            assert(chain_nodes(idom, ps@[i], stop).contains(x as usize));
                        }
                    }
                    assert(df_sources(preds, idom, x as usize, (b + 1) as usize) =~= (if cond {
                        df_sources(preds, idom, x as usize, b).insert(b)
                    } else {
                        df_sources(preds, idom, x as usize, b)
                    }));
                }
                assert forall|p: usize| #[trigger] preds[b].contains(p) implies chain_ok(idom, p, idom[b as int]) by {
                    let i = choose|i: int| 0 <= i < ps@.len() && ps@[i] == p;
                    assert(chain_ok(idom, ps@[i], stop));
                }
            }
        } else {
            proof {
                assert forall|x: int| 0 <= x < len implies #[trigger] dom.frontiers()[x] == old(dom).frontiers()[x].union(df_sources(preds, idom, x as usize, (b + 1) as usize)) by {
                    assert(df_sources(preds, idom, x as usize, (b + 1) as usize) =~= df_sources(preds, idom, x as usize, b));
                }
            }
        }
        b = b + 1;
    }
    true
}

/// No dominator of a node other than the entry lies above it.
pub open spec fn dominators_below(t: Seq<Set<usize>>, len: usize) -> bool {
    forall|n: int, e: usize| 1 <= n < len && #[trigger] t[n].contains(e) ==> e <= n
}

/// The immediate dominators that the dominator sets `t` give.
pub open spec fn idom_from(t: Seq<Set<usize>>, len: usize) -> Seq<usize> {
    Seq::new(len as nat, |n: int| if n == 0 { 0 } else { closest_below(t[n], n as usize) })
}

/// There is one greatest solution.
pub proof fn lemma_greatest_unique(preds: Map<usize, Set<usize>>, len: usize, a: Seq<Set<usize>>, b: Seq<Set<usize>>)
    requires
        is_greatest_dom_solution(preds, len, a),
        is_greatest_dom_solution(preds, len, b),
    ensures
        a == b,
{
    assert(pointwise_subset(a, b));
    assert(pointwise_subset(b, a));
    assert forall|n: int| 0 <= n < a.len() implies a[n] == b[n] by {
        assert(a[n].subset_of(b[n]));
        assert(b[n].subset_of(a[n]));
        assert(a[n] =~= b[n]);
    }
    assert(a =~= b);
}

pub fn check_dominators_below(dom: &Dominator, len: usize) -> (r: bool)
    requires
        dom.tree@.len() == len,
    ensures
        r == dominators_below(dom.trees(), len),
{
    let mut n: usize = 1;
    while n < len
        invariant
            1 <= n,
            n <= len || len == 0,
            dom.tree@.len() == len,
            forall|k: int, e: usize| 1 <= k < n && k < len && #[trigger] dom.trees()[k].contains(e) ==> e <= k,
        decreases len - n,
    {
        let v = elements(dom.get_dominator(n));
        let mut i: usize = 0;
        while i < v.len()
            invariant
                1 <= n < len,
                i <= v@.len(),
                dom.tree@.len() == len,
                v@.to_set() == dom.trees()[n as int],
                forall|j: int| 0 <= j < i ==> #[trigger] v@[j] <= n,
            decreases v@.len() - i,
        {
            if v[i] > n {
                proof {
                    assert(v@.to_set().contains(v@[i as int]));
                }
                return false;
            }
            i = i + 1;
        }
        proof {
            assert forall|e: usize| #[trigger] dom.trees()[n as int].contains(e) implies e <= n by {
                let j = choose|j: int| 0 <= j < v@.len() && v@[j] == e;
            }
        }
        n = n + 1;
    }
    true
}

/// The dominator sets, immediate dominators and dominance frontiers of the
/// nodes below `len`, with node 0 the entry. `None` where a node has a
/// dominator above it, so that no immediate dominator can be taken, or
/// where a frontier walk runs past the entry.
pub fn compute_dominators(graph: &DirectedGraph, len: usize) -> (r: Option<Dominator>)
    requires
        len > 0,
        preds_within(graph.preds(), len),
    ensures
        forall|t: Seq<Set<usize>>| #[trigger] is_greatest_dom_solution(graph.preds(), len, t) ==> (r is Some
            <==> dominators_below(t, len) && domf_ok(graph.preds(), len, idom_from(t, len))),
        r matches Some(d) ==> (all_reachable(graph.preds(), len) ==> d.trees() == path_doms(graph.preds(), len)),
        r matches Some(d) ==> {
            &&& is_greatest_dom_solution(graph.preds(), len, d.trees())
            &&& d.immediates()[0] == Seq::<usize>::empty()
            &&& forall|n: int| 1 <= n < len ==> #[trigger] d.immediates()[n] == seq![closest_below(d.trees()[n], n as usize)]
            &&& idom_of(d) == idom_from(d.trees(), len)
            &&& forall|x: int| 0 <= x < len ==> #[trigger] d.frontiers()[x] == df_sources(graph.preds(), idom_of(d), x as usize, len)
        },
{
    let mut dom = Dominator::new(len);
    compute_dom_tree(graph, len, &mut dom);
    let ghost t = dom.trees();
    proof {
        assert forall|u: Seq<Set<usize>>| #[trigger] is_greatest_dom_solution(graph.preds(), len, u) implies u == t by {
            lemma_greatest_unique(graph.preds(), len, u, t);
        }
    }
    if !check_dominators_below(&dom, len) {
        return None;
    }
    let ghost d0 = dom;
    compute_idom_tree(len, &mut dom);
    proof {
        assert forall|n: int| 1 <= n < len implies #[trigger] dom.immediates()[n] == seq![closest_below(t[n], n as usize)] by {
            assert(d0.immediates()[n] == Seq::<usize>::empty());
            assert(dom.immediates()[n] == d0.immediates()[n].push(closest_below(d0.trees()[n], n as usize)));
            assert(seq![closest_below(t[n], n as usize)] =~= Seq::<usize>::empty().push(closest_below(t[n], n as usize)));
        }
        assert(d0.immediates()[0] == Seq::<usize>::empty());
        assert(idom_of(dom) =~= idom_from(t, len)) by {
            assert forall|n: int| 0 <= n < len implies #[trigger] idom_of(dom)[n] == idom_from(t, len)[n] by {
                if n >= 1 {
                    assert(dom.immediates()[n] == seq![closest_below(t[n], n as usize)]);
                }
            }
        }
        assert forall|n: int| 1 <= n < len implies (#[trigger] dom.immediates()[n]).len() > 0 && dom.immediates()[n][0] < n by {
            assert(dom.immediates()[n] == seq![closest_below(t[n], n as usize)]);
            let m = closest_below(t[n], n as usize);
            assert(is_closest_below(t[n], n as usize, m)) by {
                if exists|e: usize| #[trigger] t[n].contains(e) && e < n as usize {
                    let e = choose|e: usize| #[trigger] t[n].contains(e) && e < n as usize;
                    lemma_closest_max_exists(t[n], n as usize, e);
                } else {
                    assert(is_closest_below(t[n], n as usize, 0));
                }
            }
        }
    }
    let ghost d1 = dom;
    let ok = compute_domf_tree(graph, len, &mut dom);
    if ok {
        proof {
            if all_reachable(graph.preds(), len) {
                lemma_greatest_is_path_dominance(graph.preds(), len, t);
            }
            assert forall|x: int| 0 <= x < len implies #[trigger] dom.frontiers()[x] == df_sources(graph.preds(), idom_of(dom), x as usize, len) by {
                assert(d1.frontiers()[x] == Set::<usize>::empty());
                assert(idom_of(dom) == idom_of(d1));
                assert(dom.frontiers()[x] =~= df_sources(graph.preds(), idom_of(dom), x as usize, len));
            }
        }
        Some(dom)
    } else {
        None
    }
}

/// Where `s` holds a node below `n`, it holds a largest one.
pub proof fn lemma_closest_max_exists(s: Set<usize>, n: usize, e: usize)
    requires
        s.contains(e),
        e < n,
    ensures
        exists|m: usize| is_closest_below(s, n, m),
    decreases n - e,
{
    if exists|f: usize| #[trigger] s.contains(f) && e < f && f < n {
        let f = choose|f: usize| #[trigger] s.contains(f) && e < f && f < n;
        lemma_closest_max_exists(s, n, f);
    } else {
        assert(is_closest_below(s, n, e));
    }
}

/// `a` dominates `b`: every path from the entry to `b` passes through `a`.
pub open spec fn dominates(preds: Map<usize, Set<usize>>, len: usize, a: usize, b: usize) -> bool {
    forall|path: Seq<usize>| #![trigger is_entry_path(preds, len, path, b)]
        is_entry_path(preds, len, path, b) ==> path.contains(a)
}

/// Some path leads from the entry to `n`.
pub open spec fn reachable(preds: Map<usize, Set<usize>>, len: usize, n: usize) -> bool {
    exists|path: Seq<usize>| #[trigger] is_entry_path(preds, len, path, n)
}

/// Every node below `len` can be reached from the entry.
pub open spec fn all_reachable(preds: Map<usize, Set<usize>>, len: usize) -> bool {
    forall|n: usize| n < len ==> #[trigger] reachable(preds, len, n)
}

/// The dominators of each node by paths.
pub open spec fn path_doms(preds: Map<usize, Set<usize>>, len: usize) -> Seq<Set<usize>> {
    Seq::new(len as nat, |n: int| Set::new(|x: usize| x < len && dominates(preds, len, x, n as usize)))
}

proof fn lemma_path_extend(preds: Map<usize, Set<usize>>, len: usize, path: Seq<usize>, p: usize, n: usize)
    requires
        is_entry_path(preds, len, path, p),
        n < len,
        preds[n].contains(p),
    ensures
        is_entry_path(preds, len, path.push(n), n),
{
    let q = path.push(n);
    assert forall|i: int| 0 <= i < q.len() implies #[trigger] q[i] < len by {
        if i < path.len() {
            assert(q[i] == path[i]);
        }
    }
    assert forall|i: int| 0 <= i < q.len() - 1 implies #[trigger] preds[q[i + 1]].contains(q[i]) by {
        if i < path.len() - 1 {
            assert(q[i] == path[i] && q[i + 1] == path[i + 1]);
        } else {
            assert(q[i] == path[i]);
        }
    }
}

proof fn lemma_path_prefix(preds: Map<usize, Set<usize>>, len: usize, path: Seq<usize>, n: usize)
    requires
        is_entry_path(preds, len, path, n),
        n != 0,
    ensures
        path.len() >= 2,
        is_entry_path(preds, len, path.drop_last(), path[path.len() - 2]),
        preds[n].contains(path[path.len() - 2]),
{
    let k = path.len() - 1;
    assert(path[k] == n);
    let prev = path.drop_last();
    assert forall|i: int| 0 <= i < prev.len() - 1 implies #[trigger] preds[prev[i + 1]].contains(prev[i]) by {
        assert(preds[path[i + 1]].contains(path[i]));
    }
    assert forall|i: int| 0 <= i < prev.len() implies #[trigger] prev[i] < len by {
        assert(path[i] < len);
    }
    assert(preds[path[(k - 1) + 1]].contains(path[k - 1]));
}

/// Where every node can be reached, the dominators by paths solve the
/// equations.
proof fn lemma_path_doms_solve(preds: Map<usize, Set<usize>>, len: usize)
    requires
        len > 0,
        preds_within(preds, len),
        all_reachable(preds, len),
    ensures
        is_dom_solution(preds, len, path_doms(preds, len)),
{
    let pd = path_doms(preds, len);
    assert(pd[0] =~= Set::<usize>::empty().insert(0)) by {
        assert forall|x: usize| #[trigger] pd[0].contains(x) implies x == 0 by {
            let path = seq![0usize];
            assert(is_entry_path(preds, len, path, 0));
            assert(path.contains(x));
        }
        assert(pd[0].contains(0)) by {
            assert forall|path: Seq<usize>| #[trigger] is_entry_path(preds, len, path, 0) implies path.contains(0) by {
                assert(path[0] == 0);
            }
        }
    }
    assert forall|n: int| 1 <= n < len implies #[trigger] pd[n] == dom_step(pd, preds[n as usize], n as usize) by {
        let nu = n as usize;
        let ps = preds[nu];
        assert(reachable(preds, len, nu));
        let w = choose|path: Seq<usize>| #[trigger] is_entry_path(preds, len, path, nu);
        lemma_path_prefix(preds, len, w, nu);
        let p0 = w[w.len() - 2];
        assert(ps.contains(p0));
        assert forall|x: usize| pd[n].contains(x) implies #[trigger] dom_step(pd, ps, nu).contains(x) by {
            if x != nu {
                assert forall|p: usize| ps.contains(p) implies #[trigger] pd[p as int].contains(x) by {
                    assert(preds.contains_key(nu));
                    assert(preds[nu].contains(p));
                    assert(p < len);
                    assert forall|q: Seq<usize>| #[trigger] is_entry_path(preds, len, q, p) implies q.contains(x) by {
                        lemma_path_extend(preds, len, q, p, nu);
                        assert(q.push(nu).contains(x));
                        let i = choose|i: int| 0 <= i < q.push(nu).len() && q.push(nu)[i] == x;
                        assert(i < q.len());
                        assert(q[i] == x);
                    }
                }
                assert(dom_meet(pd, ps).contains(x));
            }
        }
        assert forall|x: usize| #[trigger] dom_step(pd, ps, nu).contains(x) implies pd[n].contains(x) by {
            if x == nu {
                assert forall|q: Seq<usize>| #[trigger] is_entry_path(preds, len, q, nu) implies q.contains(nu) by {
                    assert(q[q.len() - 1] == nu);
                }
            } else {
                assert(dom_meet(pd, ps).contains(x));
                assert(pd[p0 as int].contains(x));
                assert forall|q: Seq<usize>| #[trigger] is_entry_path(preds, len, q, nu) implies q.contains(x) by {
                    lemma_path_prefix(preds, len, q, nu);
                    let p = q[q.len() - 2];
                    assert(ps.contains(p));
                    assert(pd[p as int].contains(x));
                    assert(q.drop_last().contains(x));
                    let i = choose|i: int| 0 <= i < q.drop_last().len() && q.drop_last()[i] == x;
                    assert(q[i] == x);
                }
            }
        }
        assert(pd[n] =~= dom_step(pd, ps, nu));
    }
}

/// Where every node can be reached from the entry, the greatest solution
/// of the equations gives each node exactly the nodes that lie on every
/// path from the entry to it.
pub proof fn lemma_greatest_is_path_dominance(preds: Map<usize, Set<usize>>, len: usize, t: Seq<Set<usize>>)
    requires
        len > 0,
        preds_within(preds, len),
        all_reachable(preds, len),
        is_greatest_dom_solution(preds, len, t),
    ensures
        t == path_doms(preds, len),
        forall|n: usize, x: usize| n < len ==> (#[trigger] t[n as int].contains(x) <==> x < len && dominates(preds, len, x, n)),
{
    let pd = path_doms(preds, len);
    lemma_path_doms_solve(preds, len);
    assert(pointwise_subset(pd, t));
    assert forall|n: int| 0 <= n < len implies t[n] == pd[n] by {
        assert forall|x: usize| t[n].contains(x) implies #[trigger] pd[n].contains(x) by {
            assert(x < len);
            assert forall|q: Seq<usize>| #[trigger] is_entry_path(preds, len, q, n as usize) implies q.contains(x) by {
                lemma_dominators_on_every_path(preds, len, t, q, n as usize);
                assert(q.to_set().contains(x));
            }
        }
        assert(pd[n].subset_of(t[n]));
        assert(t[n] =~= pd[n]);
    }
    assert(t =~= pd);
}

/// The largest node below `n` in `s`, or 0 where there is none.
pub fn closest_dominator_below(s: &HashSet<usize>, n: usize) -> (m: usize)
    ensures
        m == closest_below(s@, n),
{
    let v = elements(s);
    let mut m: usize = 0;
    let mut found = false;
    let mut i: usize = 0;
    while i < v.len()
        invariant
            i <= v@.len(),
            v@.to_set() == s@,
            found ==> s@.contains(m) && m < n,
            found ==> forall|j: int| 0 <= j < i && v@[j] < n ==> #[trigger] v@[j] <= m,
            !found ==> forall|j: int| 0 <= j < i ==> #[trigger] v@[j] >= n,
            !found ==> m == 0,
        decreases v@.len() - i,
    {
        if v[i] < n && (!found || v[i] > m) {
            m = v[i];
            found = true;
            proof {
                assert(v@.to_set().contains(v@[i as int]));
            }
        }
        i = i + 1;
    }
    proof {
        assert(is_closest_below(s@, n, m)) by {
            if exists|e: usize| #[trigger] s@.contains(e) && e < n {
                let e = choose|e: usize| #[trigger] s@.contains(e) && e < n;
                assert(v@.to_set().contains(e));
                let j = choose|j: int| 0 <= j < v@.len() && v@[j] == e;
                assert forall|f: usize| #[trigger] s@.contains(f) && f < n implies f <= m by {
                    assert(v@.to_set().contains(f));
                    let k = choose|k: int| 0 <= k < v@.len() && v@[k] == f;
                }
            }
        }
        lemma_closest_below_unique(s@, n, m);
    }
    m
}

} // verus!

verus! {

proof fn lemma_last_index(s: Seq<usize>, x: usize)
    requires
        s.contains(x),
    ensures
        exists|j: int| 0 <= j < s.len() && s[j] == x && forall|k: int| j < k < s.len() ==> #[trigger] s[k] != x,
    decreases s.len(),
{
    if s.last() == x {
        assert(s[s.len() - 1] == x);
    } else {
        let i = choose|i: int| 0 <= i < s.len() && s[i] == x;
        assert(s.drop_last()[i] == x);
        lemma_last_index(s.drop_last(), x);
        let j = choose|j: int| 0 <= j < s.drop_last().len() && s.drop_last()[j] == x
            && forall|k: int| j < k < s.drop_last().len() ==> #[trigger] s.drop_last()[k] != x;
        assert forall|k: int| j < k < s.len() implies #[trigger] s[k] != x by {
            if k < s.len() - 1 {
                assert(s.drop_last()[k] == s[k]);
            }
        }
        assert(s[j] == x);
    }
}

/// A path to the node at position `k` of another path, followed by the
/// rest of that path, is a path to where the other path ends.
proof fn lemma_path_splice(preds: Map<usize, Set<usize>>, len: usize, q: Seq<usize>, p: Seq<usize>, k: int, n: usize)
    requires
        0 <= k < p.len(),
        is_entry_path(preds, len, q, p[k]),
        is_entry_path(preds, len, p, n),
    ensures
        is_entry_path(preds, len, q + p.subrange(k + 1, p.len() as int), n),
{
    let r = q + p.subrange(k + 1, p.len() as int);
    assert forall|i: int| 0 <= i < r.len() implies #[trigger] r[i] < len by {
        if i >= q.len() {
            assert(r[i] == p[i - q.len() + k + 1]);
        }
    }
    assert forall|i: int| 0 <= i < r.len() - 1 implies #[trigger] preds[r[i + 1]].contains(r[i]) by {
        if i + 1 < q.len() {
        } else if i + 1 == q.len() {
            assert(r[i] == q.last());
            assert(r[i + 1] == p[k + 1]);
            assert(preds[p[k + 1]].contains(p[k]));
        } else {
            assert(r[i] == p[i - q.len() + k + 1]);
            assert(r[i + 1] == p[(i - q.len() + k + 1) + 1]);
        }
    }
    if k == p.len() - 1 {
        assert(r =~= q);
    } else {
        assert(r.last() == p.last());
    }
}

/// Two dominators of a node that can be reached are ordered: one of them
/// dominates the other.
pub proof fn lemma_dominators_chain(preds: Map<usize, Set<usize>>, len: usize, a: usize, b: usize, n: usize)
    requires
        reachable(preds, len, n),
        dominates(preds, len, a, n),
        dominates(preds, len, b, n),
    ensures
        dominates(preds, len, a, b) || dominates(preds, len, b, a),
{
    if !dominates(preds, len, a, b) && !dominates(preds, len, b, a) {
        let q1 = choose|path: Seq<usize>| is_entry_path(preds, len, path, b) && !path.contains(a);
        let q2 = choose|path: Seq<usize>| is_entry_path(preds, len, path, a) && !path.contains(b);
        let p = choose|path: Seq<usize>| #[trigger] is_entry_path(preds, len, path, n);
        assert(p.contains(b));
        lemma_last_index(p, b);
        let j = choose|j: int| 0 <= j < p.len() && p[j] == b && forall|k: int| j < k < p.len() ==> #[trigger] p[k] != b;
        lemma_path_splice(preds, len, q1, p, j, n);
        let r1 = q1 + p.subrange(j + 1, p.len() as int);
        assert(r1.contains(a));
        let ia = choose|ia: int| 0 <= ia < r1.len() && r1[ia] == a;
        if ia < q1.len() {
            assert(q1[ia] == a);
            assert(q1.contains(a));
        }
        let i = ia - q1.len() + j + 1;
        assert(p[i] == a);
        lemma_path_splice(preds, len, q2, p, i, n);
        let r2 = q2 + p.subrange(i + 1, p.len() as int);
        assert(r2.contains(b));
        let ib = choose|ib: int| 0 <= ib < r2.len() && r2[ib] == b;
        if ib < q2.len() {
            assert(q2[ib] == b);
            assert(q2.contains(b));
        }
        let m = ib - q2.len() + i + 1;
        assert(p[m] == b);
        assert(j < m);
    }
}

/// A node dominates itself.
pub proof fn lemma_dominates_self(preds: Map<usize, Set<usize>>, len: usize, a: usize)
    ensures
        dominates(preds, len, a, a),
{
    assert forall|path: Seq<usize>| #[trigger] is_entry_path(preds, len, path, a) implies path.contains(a) by {
        assert(path[path.len() - 1] == a);
    }
}

/// The entry dominates every node.
pub proof fn lemma_entry_dominates(preds: Map<usize, Set<usize>>, len: usize, n: usize)
    ensures
        dominates(preds, len, 0, n),
{
    assert forall|path: Seq<usize>| #[trigger] is_entry_path(preds, len, path, n) implies path.contains(0) by {
        assert(path[0] == 0);
    }
}


/// Dominance is transitive.
pub proof fn lemma_dominates_trans(preds: Map<usize, Set<usize>>, len: usize, x: usize, p: usize, a: usize)
    requires
        dominates(preds, len, x, p),
        dominates(preds, len, p, a),
    ensures
        dominates(preds, len, x, a),
{
    assert forall|path: Seq<usize>| #[trigger] is_entry_path(preds, len, path, a) implies path.contains(x) by {
        assert(path.contains(p));
        let i = choose|i: int| 0 <= i < path.len() && path[i] == p;
        let pre = path.subrange(0, i + 1);
        assert(is_entry_path(preds, len, pre, p)) by {
            assert forall|k: int| 0 <= k < pre.len() implies #[trigger] pre[k] < len by {
                assert(pre[k] == path[k]);
            }
            assert forall|k: int| 0 <= k < pre.len() - 1 implies #[trigger] preds[pre[k + 1]].contains(pre[k]) by {
                assert(pre[k] == path[k] && pre[k + 1] == path[k + 1]);
            }
        }
        assert(pre.contains(x));
        let j = choose|j: int| 0 <= j < pre.len() && pre[j] == x;
        assert(path[j] == x);
    }
}

/// Only the entry dominates the entry.
pub proof fn lemma_entry_dominated_only_by_itself(preds: Map<usize, Set<usize>>, len: usize, y: usize)
    requires
        len > 0,
        dominates(preds, len, y, 0),
    ensures
        y == 0,
{
    let path = seq![0usize];
    assert(is_entry_path(preds, len, path, 0));
    assert(path.contains(y));
}

} // verus!
