use vstd::prelude::*;
use std::collections::{HashMap, HashSet};
use crate::sets::{adjacency, add_to_entry, remove_from_entry, keys_of};

verus! {

broadcast use vstd::std_specs::hash::group_hash_axioms;

/// A directed graph over integer nodes, with the predecessors and
/// successors of each node kept apart from its outgoing edges.
pub struct DirectedGraph {
    pub pred: HashMap<usize, HashSet<usize>>,
    pub succ: HashMap<usize, HashSet<usize>>,
    pub nodes: HashSet<usize>,
    pub edges: HashMap<usize, HashSet<usize>>,
}

impl DirectedGraph {
    pub open spec fn preds(&self) -> Map<usize, Set<usize>> {
        adjacency(self.pred)
    }

    pub open spec fn succs(&self) -> Map<usize, Set<usize>> {
        adjacency(self.succ)
    }

    pub open spec fn out_edges(&self) -> Map<usize, Set<usize>> {
        adjacency(self.edges)
    }

    /// An empty graph.
    pub fn new() -> (r: Self)
        ensures
            r.nodes@ == Set::<usize>::empty(),
            r.preds() == Map::<usize, Set<usize>>::empty(),
            r.succs() == Map::<usize, Set<usize>>::empty(),
            r.out_edges() == Map::<usize, Set<usize>>::empty(),
    {
        let r = DirectedGraph {
            pred: HashMap::new(),
            succ: HashMap::new(),
            nodes: HashSet::new(),
            edges: HashMap::new(),
        };
        assert(r.preds() =~= Map::<usize, Set<usize>>::empty());
        assert(r.succs() =~= Map::<usize, Set<usize>>::empty());
        assert(r.out_edges() =~= Map::<usize, Set<usize>>::empty());
        r
    }

    /// Adds the node `a`, with no predecessors, successors or edges (an
    /// existing node `a` loses them).
    pub fn insert(&mut self, a: usize)
        ensures
            final(self).nodes@ == old(self).nodes@.insert(a),
            final(self).preds() == old(self).preds().insert(a, Set::<usize>::empty()),
            final(self).succs() == old(self).succs().insert(a, Set::<usize>::empty()),
            final(self).out_edges() == old(self).out_edges().insert(a, Set::<usize>::empty()),
    {
        self.nodes.insert(a);
        self.pred.insert(a, HashSet::new());
        self.succ.insert(a, HashSet::new());
        self.edges.insert(a, HashSet::new());
        assert(self.preds() =~= old(self).preds().insert(a, Set::<usize>::empty()));
        assert(self.succs() =~= old(self).succs().insert(a, Set::<usize>::empty()));
        assert(self.out_edges() =~= old(self).out_edges().insert(a, Set::<usize>::empty()));
    }

    /// Removes the node `a`: its predecessor and successor sets are
    /// emptied, its edges dropped, and `a` is taken out of every other
    /// node's edges.
    pub fn remove(&mut self, a: usize)
        requires
            old(self).preds().contains_key(a),
            old(self).succs().contains_key(a),
        ensures
            final(self).nodes@ == old(self).nodes@.remove(a),
            final(self).preds() == old(self).preds().insert(a, Set::<usize>::empty()),
            final(self).succs() == old(self).succs().insert(a, Set::<usize>::empty()),
            final(self).out_edges().dom() == old(self).out_edges().dom().remove(a),
            forall|k: usize| #[trigger] final(self).out_edges().contains_key(k)
                ==> final(self).out_edges()[k] == old(self).out_edges()[k].remove(a),
    {
        self.nodes.remove(&a);
        self.pred.insert(a, HashSet::new());
        self.succ.insert(a, HashSet::new());
        self.edges.remove(&a);
        assert(self.preds() =~= old(self).preds().insert(a, Set::<usize>::empty()));
        assert(self.succs() =~= old(self).succs().insert(a, Set::<usize>::empty()));
        let ghost e0 = adjacency(self.edges);
        assert(e0 =~= old(self).out_edges().remove(a));
        let keys = keys_of(&self.edges);
        let mut i: usize = 0;
        while i < keys.len()
            invariant
                i <= keys@.len(),
                keys@.to_set() == e0.dom(),
                keys@.no_duplicates(),
                adjacency(self.edges).dom() == e0.dom(),
                self.nodes@ == old(self).nodes@.remove(a),
                self.preds() == old(self).preds().insert(a, Set::<usize>::empty()),
                self.succs() == old(self).succs().insert(a, Set::<usize>::empty()),
                forall|j: int| 0 <= j < i ==> adjacency(self.edges)[#[trigger] keys@[j]] == e0[keys@[j]].remove(a),
                forall|j: int| i <= j < keys@.len() ==> adjacency(self.edges)[#[trigger] keys@[j]] == e0[keys@[j]],
            decreases keys@.len() - i,
        {
            let ghost before = adjacency(self.edges);
            assert(keys@.contains(keys@[i as int]));
            assert(before.contains_key(keys@[i as int]));
            remove_from_entry(&mut self.edges, keys[i], a);
            proof {
                assert forall|j: int| 0 <= j < keys@.len() && j != i implies adjacency(self.edges)[#[trigger] keys@[j]] == before[keys@[j]] by {
                    assert(keys@[j] != keys@[i as int]);
                }
            }
            i = i + 1;
        }
        proof {
            assert forall|k: usize| #[trigger] adjacency(self.edges).contains_key(k) implies adjacency(self.edges)[k] == old(self).out_edges()[k].remove(a) by {
                assert(keys@.to_set().contains(k));
                let j = choose|j: int| 0 <= j < keys@.len() && keys@[j] == k;
                assert(adjacency(self.edges)[keys@[j]] == e0[keys@[j]].remove(a));
            }
        }
    }

    /// Removes every node and edge.
    pub fn clear(&mut self)
        ensures
            final(self).nodes@ == Set::<usize>::empty(),
            final(self).preds() == Map::<usize, Set<usize>>::empty(),
            final(self).succs() == Map::<usize, Set<usize>>::empty(),
            final(self).out_edges() == Map::<usize, Set<usize>>::empty(),
    {
        self.nodes.clear();
        self.pred.clear();
        self.succ.clear();
        self.edges.clear();
        assert(self.preds() =~= Map::<usize, Set<usize>>::empty());
        assert(self.succs() =~= Map::<usize, Set<usize>>::empty());
        assert(self.out_edges() =~= Map::<usize, Set<usize>>::empty());
    }

    /// Adds the edge from `a` to `b` where both are nodes: `b` joins the
    /// edges and successors of `a`, and `a` the predecessors of `b`.
    pub fn add_edge(&mut self, a: usize, b: usize)
        ensures
            final(self).nodes@ == old(self).nodes@,
            old(self).nodes@.contains(a) && old(self).nodes@.contains(b) ==> {
                &&& final(self).out_edges() == add_member(old(self).out_edges(), a, b)
                &&& final(self).succs() == add_member(old(self).succs(), a, b)
                &&& final(self).preds() == add_member(old(self).preds(), b, a)
            },
            !(old(self).nodes@.contains(a) && old(self).nodes@.contains(b)) ==> *final(self) == *old(self),
    {
        if self.nodes.contains(&a) && self.nodes.contains(&b) {
            add_to_entry(&mut self.edges, a, b);
            add_to_entry(&mut self.succ, a, b);
            add_to_entry(&mut self.pred, b, a);
        }
    }
}

/// `m` with `x` added to the set of `k`, where `k` has one.
pub open spec fn add_member(m: Map<usize, Set<usize>>, k: usize, x: usize) -> Map<usize, Set<usize>> {
    if m.contains_key(k) {
        m.insert(k, m[k].insert(x))
    } else {
        m
    }
}

/// An undirected graph over integer nodes.
pub struct UndirectedGraph {
    pub nodes: Vec<usize>,
    pub edges: HashMap<usize, HashSet<usize>>,
}

impl UndirectedGraph {
    pub open spec fn neighbours(&self) -> Map<usize, Set<usize>> {
        adjacency(self.edges)
    }

    /// An empty graph.
    pub fn new() -> (r: Self)
        ensures
            r.nodes@ == Seq::<usize>::empty(),
            r.neighbours() == Map::<usize, Set<usize>>::empty(),
    {
        let r = UndirectedGraph { nodes: Vec::new(), edges: HashMap::new() };
        assert(r.neighbours() =~= Map::<usize, Set<usize>>::empty());
        r
    }

    /// Adds the node `a` with no neighbours, unless it is already a node.
    pub fn insert(&mut self, a: usize)
        ensures
            old(self).nodes@.contains(a) ==> *final(self) == *old(self),
            !old(self).nodes@.contains(a) ==> {
                &&& final(self).nodes@ == old(self).nodes@.push(a)
                &&& final(self).neighbours() == old(self).neighbours().insert(a, Set::<usize>::empty())
            },
    {
        let mut i: usize = 0;
        let mut found = false;
        while i < self.nodes.len()
            invariant
                i <= self.nodes@.len(),
                found <==> exists|j: int| 0 <= j < i && self.nodes@[j] == a,
            decreases self.nodes@.len() - i,
        {
            if self.nodes[i] == a {
                found = true;
            }
            i = i + 1;
        }
        assert(found <==> self.nodes@.contains(a));
        if !found {
            self.nodes.push(a);
            self.edges.insert(a, HashSet::new());
            assert(self.neighbours() =~= old(self).neighbours().insert(a, Set::<usize>::empty()));
        }
    }

    /// Removes every node and edge.
    pub fn clear(&mut self)
        ensures
            final(self).nodes@ == Seq::<usize>::empty(),
            final(self).neighbours() == Map::<usize, Set<usize>>::empty(),
    {
        self.nodes.clear();
        self.edges.clear();
        assert(self.neighbours() =~= Map::<usize, Set<usize>>::empty());
    }

    /// Joins `a` and `b`: each is added to the other's neighbours, where
    /// that node has a neighbour set.
    pub fn add_edge(&mut self, a: usize, b: usize)
        ensures
            final(self).nodes@ == old(self).nodes@,
            final(self).neighbours() == add_member(add_member(old(self).neighbours(), a, b), b, a),
    {
        add_to_entry(&mut self.edges, a, b);
        add_to_entry(&mut self.edges, b, a);
    }
}

/// A directed graph whose nodes are the indices of its adjacency lists.
#[derive(Clone, Debug)]
pub struct Graph {
    pub edges: Vec<Vec<usize>>,
}

impl Graph {
    /// Adds a node with no edges and returns its index.
    pub fn add_node(&mut self) -> (r: usize)
        requires
            old(self).edges@.len() < usize::MAX,
        ensures
            r == old(self).edges@.len(),
            final(self).edges@.len() == old(self).edges@.len() + 1,
            final(self).edges@[r as int]@ == Seq::<usize>::empty(),
            forall|i: int| 0 <= i < r ==> #[trigger] final(self).edges@[i] == old(self).edges@[i],
    {
        let index = self.edges.len();
        self.edges.push(Vec::new());
        index
    }

    /// Appends `b` to the edges of `a`.
    pub fn add_directed_edge(&mut self, a: usize, b: usize)
        requires
            a < old(self).edges@.len(),
            b < old(self).edges@.len(),
        ensures
            final(self).edges@.len() == old(self).edges@.len(),
            final(self).edges@[a as int]@ == old(self).edges@[a as int]@.push(b),
            forall|i: int| 0 <= i < old(self).edges@.len() && i != a ==> #[trigger] final(self).edges@[i] == old(self).edges@[i],
    {
        let mut row = self.edges[a].clone();
        assert(row@ =~= old(self).edges@[a as int]@);
        row.push(b);
        self.edges.set(a, row);
    }

    /// The successors of `n`, in the order the edges were added.
    pub fn successors(&self, n: usize) -> (r: Vec<usize>)
        requires
            n < self.edges@.len(),
        ensures
            r@ == self.edges@[n as int]@,
    {
        let r = self.edges[n].clone();
        assert(r@ =~= self.edges@[n as int]@);
        r
    }

    /// The nodes with an edge to `n`, in increasing order.
    pub fn predecessors(&self, n: usize) -> (r: Vec<usize>)
        ensures
            r@ == predecessors_below(self.edges@.map_values(|v: Vec<usize>| v@), n, self.edges@.len() as int),
    {
        let ghost adj = self.edges@.map_values(|v: Vec<usize>| v@);
        let mut r: Vec<usize> = Vec::new();
        let mut i: usize = 0;
        while i < self.edges.len()
            invariant
                i <= self.edges@.len(),
                adj == self.edges@.map_values(|v: Vec<usize>| v@),
                r@ == predecessors_below(adj, n, i as int),
            decreases self.edges@.len() - i,
        {
            if vec_contains(&self.edges[i], n) {
                r.push(i);
            }
            i = i + 1;
        }
        r
    }
}

/// The nodes below `k` whose adjacency lists hold `n`, in increasing order.
pub open spec fn predecessors_below(adj: Seq<Seq<usize>>, n: usize, k: int) -> Seq<usize>
    decreases k,
{
    if k <= 0 {
        Seq::empty()
    } else if adj[k - 1].contains(n) {
        predecessors_below(adj, n, k - 1).push((k - 1) as usize)
    } else {
        predecessors_below(adj, n, k - 1)
    }
}

/// The predecessors that `predecessors` lists come in strictly increasing
/// order, and a node is among them exactly when it is a node below `k`
/// whose adjacency list holds `n`.
pub proof fn lemma_predecessors_below(adj: Seq<Seq<usize>>, n: usize, k: int)
    requires
        0 <= k <= adj.len(),
        k <= usize::MAX,
    ensures
        forall|i: int, j: int| 0 <= i < j < predecessors_below(adj, n, k).len()
            ==> #[trigger] predecessors_below(adj, n, k)[i] < #[trigger] predecessors_below(adj, n, k)[j],
        forall|i: int| 0 <= i < predecessors_below(adj, n, k).len() ==> #[trigger] predecessors_below(adj, n, k)[i] < k,
        forall|a: usize| #[trigger] predecessors_below(adj, n, k).contains(a) <==> (a < k && adj[a as int].contains(n)),
    decreases k,
{
    if k > 0 {
        lemma_predecessors_below(adj, n, k - 1);
        let p = predecessors_below(adj, n, k - 1);
        let r = predecessors_below(adj, n, k);
        if adj[k - 1].contains(n) {
            assert(r == p.push((k - 1) as usize));
            assert forall|i: int, j: int| 0 <= i < j < r.len() implies #[trigger] r[i] < #[trigger] r[j] by {
                if j == p.len() {
                    assert(r[i] == p[i]);
                    assert(p[i] < k - 1);
                } else {
                    assert(p[i] < p[j]);
                }
            }
            assert forall|i: int| 0 <= i < r.len() implies #[trigger] r[i] < k by {
                if i < p.len() {
                    assert(r[i] == p[i]);
                }
            }
            assert forall|a: usize| #[trigger] r.contains(a) <==> (a < k && adj[a as int].contains(n)) by {
                if r.contains(a) {
                    let i = choose|i: int| 0 <= i < r.len() && r[i] == a;
                    if i < p.len() {
                        assert(p[i] == a);
                        assert(p.contains(a));
                    } else {
                        assert(a == k - 1);
                    }
                }
                if a < k && adj[a as int].contains(n) {
                    if a < k - 1 {
                        assert(p.contains(a));
                        let i = choose|i: int| 0 <= i < p.len() && p[i] == a;
                        assert(r[i] == a);
                    } else {
                        assert(r[p.len() as int] == a);
                    }
                }
            }
        } else {
            assert forall|a: usize| #[trigger] r.contains(a) <==> (a < k && adj[a as int].contains(n)) by {
                if a < k && adj[a as int].contains(n) {
                    assert(a != k - 1);
                }
            }
        }
    }
}

/// The adjacency lists of a graph, as sequences.
pub open spec fn adjacency_lists(g: Graph) -> Seq<Seq<usize>> {
    g.edges@.map_values(|v: Vec<usize>| v@)
}

/// For the nodes of a graph: `a` is among the predecessors of `b` exactly
/// when `b` is among the successors of `a`; the predecessors come in
/// strictly increasing order.
pub proof fn lemma_predecessors_successors(g: Graph, a: usize, b: usize)
    requires
        b < g.edges@.len(),
    ensures
        predecessors_below(adjacency_lists(g), b, g.edges@.len() as int).contains(a)
            <==> (a < g.edges@.len() && g.edges@[a as int]@.contains(b)),
        forall|i: int, j: int| 0 <= i < j < predecessors_below(adjacency_lists(g), b, g.edges@.len() as int).len()
            ==> #[trigger] predecessors_below(adjacency_lists(g), b, g.edges@.len() as int)[i]
                < #[trigger] predecessors_below(adjacency_lists(g), b, g.edges@.len() as int)[j],
{
    let adj = adjacency_lists(g);
    assert(g.edges@.len() == g.edges.len());
    lemma_predecessors_below(adj, b, g.edges@.len() as int);
    if a < g.edges@.len() {
        assert(adj[a as int] == g.edges@[a as int]@);
    }
}

fn vec_contains(v: &Vec<usize>, x: usize) -> (r: bool)
    ensures
        r == v@.contains(x),
{
    let mut i: usize = 0;
    while i < v.len()
        invariant
            i <= v@.len(),
            forall|j: int| 0 <= j < i ==> v@[j] != x,
        decreases v@.len() - i,
    {
        if v[i] == x {
            return true;
        }
        i = i + 1;
    }
    false
}

} // verus!
