use vstd::prelude::*;
use std::collections::{HashMap, HashSet};
use vstd::std_specs::iter::IteratorSpec;

verus! {

broadcast use vstd::std_specs::hash::group_hash_axioms;

/// The elements of `a`, each once, in the order in which the set is walked.
pub fn elements(a: &HashSet<usize>) -> (v: Vec<usize>)
    ensures
        v@.to_set() == a@,
        v@.no_duplicates(),
{
    let mut v: Vec<usize> = Vec::new();
    let ghost keys = vstd::std_specs::hash::spec_hash_keys_iter(a).remaining();
    proof {
        vstd::std_specs::hash::axiom_spec_hash_keys_iter(a);
    }
    for x in it: a.iter()
        invariant
            it.seq() == keys,
            keys.unref().to_set() == a@,
            keys.no_duplicates(),
            v@ == keys.unref().take(it.index() as int),
    {
        v.push(*x);
        proof {
            assert(v@ =~= keys.unref().take(it.index() + 1));
        }
    }
    proof {
        assert(v@ =~= keys.unref());
        assert(keys.unref().no_duplicates()) by {
            assert forall|i: int, j: int|
                0 <= i < keys.len() && 0 <= j < keys.len() && i != j implies keys.unref()[i]
                != keys.unref()[j] by {
                assert(keys[i] != keys[j]);
            }
        }
    }
    v
}

/// A set holding the elements of `v`.
pub fn set_of(v: &Vec<usize>) -> (r: HashSet<usize>)
    ensures
        r@ == v@.to_set(),
{
    let mut r: HashSet<usize> = HashSet::new();
    let mut i: usize = 0;
    while i < v.len()
        invariant
            i <= v@.len(),
            r@ == v@.take(i as int).to_set(),
        decreases v@.len() - i,
    {
        r.insert(v[i]);
        proof {
            assert(v@.take(i + 1) =~= v@.take(i as int).push(v@[i as int]));
            v@.take(i as int).lemma_push_to_set_commute(v@[i as int]);
        }
        i = i + 1;
    }
    assert(v@.take(v@.len() as int) =~= v@);
    r
}

/// A copy of `a`.
pub fn copy_set(a: &HashSet<usize>) -> (r: HashSet<usize>)
    ensures
        r@ == a@,
{
    let v = elements(a);
    set_of(&v)
}

/// The elements of `a` that are also in `b`.
pub fn intersect_sets(a: &HashSet<usize>, b: &HashSet<usize>) -> (r: HashSet<usize>)
    ensures
        r@ == a@.intersect(b@),
{
    let v = elements(a);
    let mut r: HashSet<usize> = HashSet::new();
    let mut i: usize = 0;
    while i < v.len()
        invariant
            i <= v@.len(),
            r@ == v@.take(i as int).to_set().intersect(b@),
        decreases v@.len() - i,
    {
        proof {
            assert(v@.take(i + 1) =~= v@.take(i as int).push(v@[i as int]));
            v@.take(i as int).lemma_push_to_set_commute(v@[i as int]);
        }
        if b.contains(&v[i]) {
            r.insert(v[i]);
        }
        i = i + 1;
        assert(r@ =~= v@.take(i as int).to_set().intersect(b@));
    }
    assert(v@.take(v@.len() as int) =~= v@);
    r
}

/// The keys of `m`, each once, in the order in which the map is walked.
pub fn keys_of(m: &HashMap<usize, HashSet<usize>>) -> (v: Vec<usize>)
    ensures
        v@.to_set() == m@.dom(),
        v@.no_duplicates(),
{
    let mut v: Vec<usize> = Vec::new();
    let ghost keys = vstd::std_specs::hash::spec_keys_iter(m).remaining();
    proof {
        vstd::std_specs::hash::axiom_spec_keys_iter(m);
    }
    for x in it: m.keys()
        invariant
            it.seq() == keys,
            keys.unref().to_set() == m@.dom(),
            keys.no_duplicates(),
            v@ == keys.unref().take(it.index() as int),
    {
        v.push(*x);
        proof {
            assert(v@ =~= keys.unref().take(it.index() + 1));
        }
    }
    proof {
        assert(v@ =~= keys.unref());
        assert(keys.unref().no_duplicates()) by {
            assert forall|i: int, j: int|
                0 <= i < keys.len() && 0 <= j < keys.len() && i != j implies keys.unref()[i]
                != keys.unref()[j] by {
                assert(keys[i] != keys[j]);
            }
        }
    }
    v
}

/// The sets that `m` maps to, as sets.
pub open spec fn adjacency(m: HashMap<usize, HashSet<usize>>) -> Map<usize, Set<usize>> {
    m@.map_values(|s: HashSet<usize>| s@)
}

/// Adds `x` to the set that `k` maps to, where there is one.
pub fn add_to_entry(m: &mut HashMap<usize, HashSet<usize>>, k: usize, x: usize)
    ensures
        adjacency(*final(m)) == (if adjacency(*old(m)).contains_key(k) {
            adjacency(*old(m)).insert(k, adjacency(*old(m))[k].insert(x))
        } else {
            adjacency(*old(m))
        }),
{
    match m.remove(&k) {
        Some(mut v) => {
            v.insert(x);
            m.insert(k, v);
            assert(adjacency(*m) =~= adjacency(*old(m)).insert(k, adjacency(*old(m))[k].insert(x)));
        },
        None => {
            assert(adjacency(*m) =~= adjacency(*old(m)));
        },
    }
}

/// Removes `x` from the set that `k` maps to, where there is one.
pub fn remove_from_entry(m: &mut HashMap<usize, HashSet<usize>>, k: usize, x: usize)
    ensures
        adjacency(*final(m)) == (if adjacency(*old(m)).contains_key(k) {
            adjacency(*old(m)).insert(k, adjacency(*old(m))[k].remove(x))
        } else {
            adjacency(*old(m))
        }),
{
    match m.remove(&k) {
        Some(mut v) => {
            v.remove(&x);
            m.insert(k, v);
            assert(adjacency(*m) =~= adjacency(*old(m)).insert(k, adjacency(*old(m))[k].remove(x)));
        },
        None => {
            assert(adjacency(*m) =~= adjacency(*old(m)));
        },
    }
}

/// The elements of `a` together with those of `b`.
pub fn union_sets(a: &HashSet<usize>, b: &HashSet<usize>) -> (r: HashSet<usize>)
    ensures
        r@ == a@.union(b@),
{
    let v = elements(b);
    let mut r = copy_set(a);
    let mut i: usize = 0;
    while i < v.len()
        invariant
            i <= v@.len(),
            r@ == a@.union(v@.take(i as int).to_set()),
        decreases v@.len() - i,
    {
        proof {
            assert(v@.take(i + 1) =~= v@.take(i as int).push(v@[i as int]));
            v@.take(i as int).lemma_push_to_set_commute(v@[i as int]);
        }
        r.insert(v[i]);
        i = i + 1;
        assert(r@ =~= a@.union(v@.take(i as int).to_set()));
    }
    assert(v@.take(v@.len() as int) =~= v@);
    r
}

} // verus!
