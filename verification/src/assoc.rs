use vstd::prelude::*;

verus! {

/// Whether `o` has an entry in the association list `g`.
pub open spec fn has_key<K, V>(g: Seq<(K, V)>, o: K) -> bool {
    exists|i: int| 0 <= i < g.len() && (#[trigger] g[i]).0 == o
}

/// The value of the first entry of `o` in `g`.
pub open spec fn lookup<K, V>(g: Seq<(K, V)>, o: K) -> V
    recommends
        has_key(g, o),
    decreases g.len(),
{
    if g.len() == 0 {
        arbitrary()
    } else if g[0].0 == o {
        g[0].1
    } else {
        lookup(g.skip(1), o)
    }
}

pub proof fn lemma_lookup_first<K, V>(g: Seq<(K, V)>, o: K, i: int)
    requires
        0 <= i < g.len(),
        g[i].0 == o,
        forall|j: int| 0 <= j < i ==> (#[trigger] g[j]).0 != o,
    ensures
        lookup(g, o) == g[i].1,
    decreases i,
{
    if i > 0 {
        assert(g[0].0 != o);
        lemma_lookup_first(g.skip(1), o, i - 1);
        assert(g.skip(1)[i - 1] == g[i]);
    }
}

pub proof fn lemma_lookup_update<K, V>(g: Seq<(K, V)>, o: K, i: int, v: V)
    requires
        0 <= i < g.len(),
        g[i].0 == o,
        forall|j: int| 0 <= j < i ==> (#[trigger] g[j]).0 != o,
    ensures
        lookup(g.update(i, (o, v)), o) == v,
        forall|p: K| p != o ==> #[trigger] lookup(g.update(i, (o, v)), p) == lookup(g, p),
    decreases i,
{
    let h = g.update(i, (o, v));
    lemma_lookup_first(h, o, i);
    assert forall|p: K| p != o implies #[trigger] lookup(h, p) == lookup(g, p) by {
        lemma_lookup_other(g, o, i, v, p);
    }
}

pub proof fn lemma_lookup_other<K, V>(g: Seq<(K, V)>, o: K, i: int, v: V, p: K)
    requires
        0 <= i < g.len(),
        g[i].0 == o,
        p != o,
    ensures
        lookup(g.update(i, (o, v)), p) == lookup(g, p),
    decreases g.len(),
{
    let h = g.update(i, (o, v));
    if g[0].0 != p {
        if i > 0 {
            assert(h.skip(1) =~= g.skip(1).update(i - 1, (o, v)));
            lemma_lookup_other(g.skip(1), o, i - 1, v, p);
        } else {
            assert(h.skip(1) =~= g.skip(1));
        }
    }
}

pub proof fn lemma_lookup_push<K, V>(g: Seq<(K, V)>, o: K, v: V, p: K)
    requires
        !has_key(g, o),
    ensures
        lookup(g.push((o, v)), o) == v,
        p != o ==> lookup(g.push((o, v)), p) == lookup(g, p),
    decreases g.len(),
{
    let h = g.push((o, v));
    if g.len() == 0 {
        assert(h[0].0 == o);
        assert(h.skip(1) =~= g);
        if p != o {
            assert(lookup(h, p) == lookup(h.skip(1), p));
        }
    } else {
        assert(g[0].0 != o);
        assert(h[0] == g[0]);
        assert(h.skip(1) =~= g.skip(1).push((o, v)));
        assert(!has_key(g.skip(1), o)) by {
            if has_key(g.skip(1), o) {
                let j = choose|j: int| 0 <= j < g.skip(1).len() && (#[trigger] g.skip(1)[j]).0 == o;
                assert(g[j + 1].0 == o);
            }
        }
        lemma_lookup_push(g.skip(1), o, v, p);
        if p != o {
            if g[0].0 == p {
                assert(lookup(h, p) == h[0].1);
                assert(lookup(g, p) == g[0].1);
            } else {
                assert(lookup(h, p) == lookup(h.skip(1), p));
                assert(lookup(g, p) == lookup(g.skip(1), p));
            }
        }
    }
}

} // verus!
