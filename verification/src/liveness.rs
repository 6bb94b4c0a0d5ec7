use vstd::prelude::*;
use crate::tac::Operand;
use crate::assoc::{has_key, lookup, lemma_lookup_first, lemma_lookup_update, lemma_lookup_push};

verus! {

/// The statements over which a value is live.
#[derive(Clone, Copy, PartialEq, Eq, Structural, Hash, Debug)]
pub struct Interval {
    pub start: usize,
    pub end: usize,
}

/// Which operands interfere, each with its neighbours, and the registers
/// given to the operands coloured so far.
pub struct InterferenceGraph {
    pub graph: Vec<(Operand, Vec<Operand>)>,
    pub colors: Vec<(Operand, usize)>,
}

/// The registers that the neighbours of `o` hold.
pub open spec fn taken(g: Seq<(Operand, Vec<Operand>)>, colors: Seq<(Operand, usize)>, o: Operand) -> Set<usize> {
    Set::new(|r: usize| exists|k: int| 0 <= k < lookup(g, o)@.len() && lookup(colors, #[trigger] lookup(g, o)@[k]) == r)
}

/// The lowest register below `n` outside `t`, if any.
pub open spec fn first_free(n: usize, t: Set<usize>) -> Option<usize> {
    if exists|r: usize| r < n && !t.contains(r) {
        Some(choose|r: usize| r < n && !t.contains(r) && forall|q: usize| q < r ==> t.contains(q))
    } else {
        None
    }
}

impl InterferenceGraph {
    /// An empty graph with no colours.
    pub fn new() -> (r: Self)
        ensures
            r.graph@ == Seq::<(Operand, Vec<Operand>)>::empty(),
            r.colors@ == Seq::<(Operand, usize)>::empty(),
    {
        InterferenceGraph { graph: Vec::new(), colors: Vec::new() }
    }

    /// Gives `operand` the lowest of the `num_registers` registers that no
    /// neighbour holds, and records it; `None` where all are held.
    pub fn colorable(&mut self, operand: Operand, num_registers: usize) -> (r: Option<usize>)
        requires
            has_key(old(self).graph@, operand),
            forall|k: int| 0 <= k < lookup(old(self).graph@, operand)@.len() ==> has_key(
                old(self).colors@,
                #[trigger] lookup(old(self).graph@, operand)@[k],
            ) && lookup(old(self).colors@, lookup(old(self).graph@, operand)@[k]) < num_registers,
        ensures
            final(self).graph == old(self).graph,
            r == first_free(num_registers, taken(old(self).graph@, old(self).colors@, operand)),
            r is None ==> final(self).colors == old(self).colors,
            r matches Some(c) ==> has_key(final(self).colors@, operand) && lookup(final(self).colors@, operand) == c
                && forall|o: Operand| o != operand ==> (has_key(final(self).colors@, o) == has_key(old(self).colors@, o))
                && lookup(final(self).colors@, o) == lookup(old(self).colors@, o),
    {
        let gi = find_key_neighbours(&self.graph, operand);
        let ghost neigh = lookup(self.graph@, operand)@;
        let mut free: Vec<bool> = Vec::new();
        let mut r: usize = 0;
        while r < num_registers
            invariant
                r <= num_registers,
                free@.len() == r,
                forall|q: int| 0 <= q < r ==> free@[q],
            decreases num_registers - r,
        {
            free.push(true);
            r = r + 1;
        }
        let ghost t = taken(self.graph@, self.colors@, operand);
        let n = self.graph[gi].1.len();
        let mut k: usize = 0;
        while k < n
            invariant
                self.graph == old(self).graph,
                self.colors == old(self).colors,
                gi < self.graph@.len(),
                self.graph@[gi as int].1@ == neigh,
                neigh == lookup(old(self).graph@, operand)@,
                n == neigh.len(),
                k <= n,
                free@.len() == num_registers,
                t == taken(old(self).graph@, old(self).colors@, operand),
                forall|j: int| 0 <= j < neigh.len() ==> has_key(old(self).colors@, #[trigger] neigh[j])
                    && lookup(old(self).colors@, neigh[j]) < num_registers,
                forall|q: int| 0 <= q < num_registers ==> (#[trigger] free@[q] <==> !exists|j: int| 0 <= j < k
                    && lookup(old(self).colors@, #[trigger] neigh[j]) == q),
            decreases n - k,
        {
            let nb = self.graph[gi].1[k];
            let ci = find_key_color(&self.colors, nb);
            let reg = self.colors[ci].1;
            free.set(reg, false);
            proof {
                assert(neigh[k as int] == nb);
                assert forall|q: int| 0 <= q < num_registers implies (#[trigger] free@[q] <==> !exists|j: int| 0 <= j < k + 1
                    && lookup(old(self).colors@, #[trigger] neigh[j]) == q) by {
                    if q == reg {
                        assert(lookup(old(self).colors@, neigh[k as int]) == q);
                    }
                }
            }
            k = k + 1;
        }
        proof {
            assert forall|q: int| 0 <= q < num_registers implies (#[trigger] free@[q] <==> !t.contains(q as usize)) by {
                if !free@[q] {
                    let j = choose|j: int| 0 <= j < k && lookup(old(self).colors@, #[trigger] neigh[j]) == q;
                    assert(t.contains(q as usize));
                }
                if t.contains(q as usize) {
                    let j = choose|j: int| 0 <= j < neigh.len() && lookup(old(self).colors@, #[trigger] lookup(old(self).graph@, operand)@[j]) == q as usize;
                    assert(lookup(old(self).colors@, neigh[j]) == q);
                }
            }
        }
        let mut i: usize = 0;
        while i < free.len()
            invariant
                i <= free@.len(),
                free@.len() == num_registers,
                self.graph == old(self).graph,
                self.colors == old(self).colors,
                t == taken(old(self).graph@, old(self).colors@, operand),
                forall|q: int| 0 <= q < num_registers ==> (#[trigger] free@[q] <==> !t.contains(q as usize)),
                forall|q: int| 0 <= q < i ==> !free@[q],
            decreases free@.len() - i,
        {
            if free[i] {
                proof {
                    assert(!t.contains(i));
                    assert forall|q: usize| q < i implies t.contains(q) by {
                        assert(!free@[q as int]);
                    }
                    let c = choose|c: usize| c < num_registers && !t.contains(c) && forall|q: usize| q < c ==> t.contains(q);
                    if c < i {
                        assert(!free@[c as int]);
                    }
                    if i < c {
                        assert(t.contains(i));
                    }
                }
                set_color(&mut self.colors, operand, i);
                return Some(i);
            }
            i = i + 1;
        }
        proof {
            assert forall|q: usize| q < num_registers implies t.contains(q) by {
                assert(!free@[q as int]);
            }
        }
        None
    }
}

/// The index of the first entry of `o`, whose value `lookup` gives.
fn find_key_neighbours(g: &Vec<(Operand, Vec<Operand>)>, o: Operand) -> (r: usize)
    requires
        has_key(g@, o),
    ensures
        r < g@.len(),
        g@[r as int].0 == o,
        g@[r as int].1 == lookup(g@, o),
{
    let mut i: usize = 0;
    while i < g.len()
        invariant
            i <= g@.len(),
            has_key(g@, o),
            forall|j: int| 0 <= j < i ==> (#[trigger] g@[j]).0 != o,
        decreases g@.len() - i,
    {
        if g[i].0 == o {
            proof {
                lemma_lookup_first(g@, o, i as int);
            }
            return i;
        }
        i = i + 1;
    }
    proof {
        let j = choose|j: int| 0 <= j < g@.len() && (#[trigger] g@[j]).0 == o;
        assert(g@[j].0 != o);
    }
    0
}

/// The index of the first entry of `o` in the colours.
fn find_key_color(g: &Vec<(Operand, usize)>, o: Operand) -> (r: usize)
    requires
        has_key(g@, o),
    ensures
        r < g@.len(),
        g@[r as int].0 == o,
        g@[r as int].1 == lookup(g@, o),
{
    let mut i: usize = 0;
    while i < g.len()
        invariant
            i <= g@.len(),
            has_key(g@, o),
            forall|j: int| 0 <= j < i ==> (#[trigger] g@[j]).0 != o,
        decreases g@.len() - i,
    {
        if g[i].0 == o {
            proof {
                lemma_lookup_first(g@, o, i as int);
            }
            return i;
        }
        i = i + 1;
    }
    proof {
        let j = choose|j: int| 0 <= j < g@.len() && (#[trigger] g@[j]).0 == o;
        assert(g@[j].0 != o);
    }
    0
}

/// Records register `c` for `o`, replacing its first entry or adding one.
fn set_color(colors: &mut Vec<(Operand, usize)>, o: Operand, c: usize)
    ensures
        has_key(final(colors)@, o),
        lookup(final(colors)@, o) == c,
        forall|p: Operand| p != o ==> (has_key(final(colors)@, p) == has_key(old(colors)@, p))
            && lookup(final(colors)@, p) == lookup(old(colors)@, p),
{
    let mut i: usize = 0;
    while i < colors.len()
        invariant
            i <= colors@.len(),
            colors@ == old(colors)@,
            forall|j: int| 0 <= j < i ==> (#[trigger] colors@[j]).0 != o,
        decreases colors@.len() - i,
    {
        if colors[i].0 == o {
            colors.set(i, (o, c));
            proof {
                lemma_lookup_update(old(colors)@, o, i as int, c);
                assert(colors@ == old(colors)@.update(i as int, (o, c)));
                assert(colors@[i as int].0 == o);
                assert forall|p: Operand| p != o implies (has_key(colors@, p) == has_key(old(colors)@, p)) by {
                    if has_key(colors@, p) {
                        let j = choose|j: int| 0 <= j < colors@.len() && (#[trigger] colors@[j]).0 == p;
                        assert(old(colors)@[j].0 == p);
                    }
                    if has_key(old(colors)@, p) {
                        let j = choose|j: int| 0 <= j < old(colors)@.len() && (#[trigger] old(colors)@[j]).0 == p;
                        assert(colors@[j].0 == p);
                    }
                }
            }
            return;
        }
        i = i + 1;
    }
    proof {
        assert(!has_key(old(colors)@, o)) by {
            if has_key(old(colors)@, o) {
                let j = choose|j: int| 0 <= j < old(colors)@.len() && (#[trigger] old(colors)@[j]).0 == o;
                assert(colors@[j].0 != o);
            }
        }
    }
    colors.push((o, c));
    proof {
        assert(colors@ == old(colors)@.push((o, c)));
        assert(colors@[old(colors)@.len() as int].0 == o);
        assert forall|p: Operand| p != o implies (has_key(colors@, p) == has_key(old(colors)@, p)) && lookup(colors@, p)
            == lookup(old(colors)@, p) by {
            lemma_lookup_push(old(colors)@, o, c, p);
            if has_key(colors@, p) {
                let j = choose|j: int| 0 <= j < colors@.len() && (#[trigger] colors@[j]).0 == p;
                assert(j < old(colors)@.len());
                assert(old(colors)@[j].0 == p);
            }
            if has_key(old(colors)@, p) {
                let j = choose|j: int| 0 <= j < old(colors)@.len() && (#[trigger] old(colors)@[j]).0 == p;
                assert(colors@[j].0 == p);
            }
        }
        lemma_lookup_push(old(colors)@, o, c, o);
    }
}

} // verus!
