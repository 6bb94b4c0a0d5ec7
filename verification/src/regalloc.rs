use vstd::prelude::*;
use indexmap::IndexSet;
use crate::ir::{Oper, Stmt, StmtV};
use crate::cfg::{CFG, BasicBlock, BlockView, view_blocks, view_stmts, block_subst};
use crate::assoc::{has_key, lookup, lemma_lookup_first, lemma_lookup_update, lemma_lookup_push};

verus! {

#[verifier::external_type_specification]
#[verifier::external_body]
#[verifier::reject_recursive_types(T)]
#[verifier::reject_recursive_types(S)]
pub struct ExIndexSet<T, S>(IndexSet<T, S>);

/// The items of an insertion-ordered set, in insertion order.
pub uninterp spec fn index_set_items(s: IndexSet<usize>) -> Seq<usize>;

/// `IndexSet::new`: an empty set.
#[verifier::external_body]
pub(crate) fn index_set_new() -> (r: IndexSet<usize>)
    ensures
        index_set_items(r) == Seq::<usize>::empty(),
{
    IndexSet::new()
}

/// `IndexSet::insert`: a value not in the set is appended and `true` is
/// returned; a value already in it leaves the set unchanged and gives `false`.
#[verifier::external_body]
pub(crate) fn index_set_insert(s: &mut IndexSet<usize>, v: usize) -> (r: bool)
    ensures
        r == !index_set_items(*old(s)).contains(v),
        index_set_items(*final(s)) == (if r { index_set_items(*old(s)).push(v) } else { index_set_items(*old(s)) }),
{
    s.insert(v)
}

/// `IndexSet::pop`: removes and returns the last value, `None` when empty.
#[verifier::external_body]
pub(crate) fn index_set_pop(s: &mut IndexSet<usize>) -> (r: Option<usize>)
    ensures
        index_set_items(*old(s)).len() == 0 ==> r is None && index_set_items(*final(s)) == index_set_items(*old(s)),
        index_set_items(*old(s)).len() > 0 ==> r == Some(index_set_items(*old(s)).last())
            && index_set_items(*final(s)) == index_set_items(*old(s)).drop_last(),
{
    s.pop()
}

/// The statements over which an operand is live.
#[derive(Clone, Copy, PartialEq, Eq, Structural, Debug)]
pub struct Interval {
    pub start: usize,
    pub end: usize,
    pub oper: Oper,
}

/// No key occurs twice in the association list.
pub open spec fn keys_unique<V>(l: Seq<(Oper, V)>) -> bool {
    forall|i: int, j: int| 0 <= i < j < l.len() ==> (#[trigger] l[i]).0 != (#[trigger] l[j]).0
}

proof fn lemma_unique_lookup<V>(l: Seq<(Oper, V)>, i: int)
    requires
        keys_unique(l),
        0 <= i < l.len(),
    ensures
        has_key(l, l[i].0),
        lookup(l, l[i].0) == l[i].1,
{
    lemma_lookup_first(l, l[i].0, i);
}

/// Sets the value of `o` to `v`: its entry is updated, or one is added.
fn assoc_set(l: &mut Vec<(Oper, usize)>, o: Oper, v: usize)
    requires
        keys_unique(old(l)@),
    ensures
        keys_unique(final(l)@),
        forall|p: Oper| #[trigger] has_key(final(l)@, p) == (has_key(old(l)@, p) || p == o),
        lookup(final(l)@, o) == v,
        forall|p: Oper| p != o ==> #[trigger] lookup(final(l)@, p) == lookup(old(l)@, p),
{
    let mut i: usize = 0;
    while i < l.len()
        invariant
            i <= l@.len(),
            l@ == old(l)@,
            keys_unique(old(l)@),
            forall|j: int| 0 <= j < i ==> (#[trigger] l@[j]).0 != o,
        decreases l@.len() - i,
    {
        if l[i].0 == o {
            l.set(i, (o, v));
            proof {
                lemma_lookup_update(old(l)@, o, i as int, v);
                assert forall|p: Oper| #[trigger] has_key(l@, p) == (has_key(old(l)@, p) || p == o) by {
                    assert(l@[i as int].0 == o);
                    assert(old(l)@[i as int].0 == o);
                    if has_key(l@, p) {
                        let j = choose|j: int| 0 <= j < l@.len() && (#[trigger] l@[j]).0 == p;
                        assert(old(l)@[j].0 == p);
                    }
                    if has_key(old(l)@, p) {
                        let j = choose|j: int| 0 <= j < old(l)@.len() && (#[trigger] old(l)@[j]).0 == p;
                        assert(l@[j].0 == p);
                    }
                }
                assert forall|a: int, b: int| 0 <= a < b < l@.len() implies (#[trigger] l@[a]).0 != (#[trigger] l@[b]).0 by {
                    assert(old(l)@[a].0 != old(l)@[b].0);
                }
            }
            return;
        }
        i = i + 1;
    }
    proof {
        assert(!has_key(old(l)@, o)) by {
            if has_key(old(l)@, o) {
                let j = choose|j: int| 0 <= j < old(l)@.len() && (#[trigger] old(l)@[j]).0 == o;
                assert(l@[j].0 != o);
            }
        }
    }
    l.push((o, v));
    proof {
        assert forall|p: Oper| #[trigger] lookup(l@, p) == (if p == o { v } else { lookup(old(l)@, p) }) by {
            lemma_lookup_push(old(l)@, o, v, p);
        }
        assert forall|p: Oper| #[trigger] has_key(l@, p) == (has_key(old(l)@, p) || p == o) by {
            assert(l@[old(l)@.len() as int].0 == o);
            if has_key(l@, p) && p != o {
                let j = choose|j: int| 0 <= j < l@.len() && (#[trigger] l@[j]).0 == p;
                assert(old(l)@[j].0 == p);
            }
            if has_key(old(l)@, p) {
                let j = choose|j: int| 0 <= j < old(l)@.len() && (#[trigger] old(l)@[j]).0 == p;
                assert(l@[j].0 == p);
            }
        }
        assert forall|a: int, b: int| 0 <= a < b < l@.len() implies (#[trigger] l@[a]).0 != (#[trigger] l@[b]).0 by {
            if b == old(l)@.len() {
                assert(old(l)@[a].0 != o) by {
                    if old(l)@[a].0 == o {
                        assert(has_key(old(l)@, o));
                    }
                }
            } else {
                assert(old(l)@[a].0 != old(l)@[b].0);
            }
        }
    }
}

/// The value of `o`.
fn assoc_get(l: &Vec<(Oper, usize)>, o: Oper) -> (r: usize)
    requires
        has_key(l@, o),
    ensures
        r == lookup(l@, o),
{
    let mut i: usize = 0;
    while i < l.len()
        invariant
            i <= l@.len(),
            has_key(l@, o),
            forall|j: int| 0 <= j < i ==> (#[trigger] l@[j]).0 != o,
        decreases l@.len() - i,
    {
        if l[i].0 == o {
            proof {
                lemma_lookup_first(l@, o, i as int);
            }
            return l[i].1;
        }
        i = i + 1;
    }
    proof {
        let j = choose|j: int| 0 <= j < l@.len() && (#[trigger] l@[j]).0 == o;
        assert(l@[j].0 != o);
    }
    0
}

/// Removes the entry of `o`, if there is one.
fn assoc_remove(l: &mut Vec<(Oper, usize)>, o: Oper)
    requires
        keys_unique(old(l)@),
    ensures
        keys_unique(final(l)@),
        forall|p: Oper| #[trigger] has_key(final(l)@, p) == (has_key(old(l)@, p) && p != o),
        forall|p: Oper| p != o ==> #[trigger] lookup(final(l)@, p) == lookup(old(l)@, p),
{
    let mut i: usize = 0;
    while i < l.len()
        invariant
            i <= l@.len(),
            l@ == old(l)@,
            keys_unique(old(l)@),
            forall|j: int| 0 <= j < i ==> (#[trigger] l@[j]).0 != o,
        decreases l@.len() - i,
    {
        if l[i].0 == o {
            l.remove(i);
            proof {
                let ol = old(l)@;
                assert(l@ == ol.take(i as int) + ol.skip(i + 1));
                assert forall|a: int| 0 <= a < l@.len() implies #[trigger] l@[a] == (if a < i { ol[a] } else { ol[a + 1] }) by {}
                assert forall|a: int, b: int| 0 <= a < b < l@.len() implies (#[trigger] l@[a]).0 != (#[trigger] l@[b]).0 by {
                    let a2 = if a < i { a } else { a + 1 };
                    let b2 = if b < i { b } else { b + 1 };
                    assert(ol[a2].0 != ol[b2].0);
                }
                assert forall|p: Oper| #[trigger] has_key(l@, p) == (has_key(ol, p) && p != o) by {
                    if has_key(l@, p) {
                        let j = choose|j: int| 0 <= j < l@.len() && (#[trigger] l@[j]).0 == p;
                        let j2 = if j < i { j } else { j + 1 };
                        assert(ol[j2].0 == p);
                        assert(p != o) by {
                            if p == o {
                                if j2 != i {
                                    if j2 < i {
                                        assert(l@[j2].0 != o);
                                    } else {
                                        assert(ol[i as int].0 != ol[j2].0);
                                    }
                                }
                            }
                        }
                    }
                    if has_key(ol, p) && p != o {
                        let j = choose|j: int| 0 <= j < ol.len() && (#[trigger] ol[j]).0 == p;
                        assert(j != i);
                        let j2 = if j < i { j } else { j - 1 };
                        assert(l@[j2].0 == p);
                    }
                }
                assert forall|p: Oper| p != o implies #[trigger] lookup(l@, p) == lookup(ol, p) by {
                    if has_key(ol, p) {
                        let j = choose|j: int| 0 <= j < ol.len() && (#[trigger] ol[j]).0 == p;
                        lemma_unique_lookup(ol, j);
                        let j2 = if j < i { j } else { j - 1 };
                        assert(l@[j2] == ol[j]);
                        lemma_unique_lookup(l@, j2);
                    } else {
                        lemma_lookup_absent(ol, p);
                        assert(!has_key(l@, p));
                        lemma_lookup_absent(l@, p);
                    }
                }
            }
            return;
        }
        i = i + 1;
    }
    proof {
        assert forall|p: Oper| #[trigger] has_key(l@, p) == (has_key(old(l)@, p) && p != o) by {
            if has_key(l@, p) && p == o {
                let j = choose|j: int| 0 <= j < l@.len() && (#[trigger] l@[j]).0 == p;
                assert(l@[j].0 != o);
            }
        }
    }
}

/// Without an entry, the lookup is the unspecified value.
proof fn lemma_lookup_absent<V>(l: Seq<(Oper, V)>, p: Oper)
    requires
        !has_key(l, p),
    ensures
        lookup(l, p) == arbitrary::<V>(),
    decreases l.len(),
{
    if l.len() > 0 {
        assert(l[0].0 != p);
        assert(!has_key(l.skip(1), p)) by {
            if has_key(l.skip(1), p) {
                let j = choose|j: int| 0 <= j < l.skip(1).len() && (#[trigger] l.skip(1)[j]).0 == p;
                assert(l[j + 1].0 == p);
            }
        }
        lemma_lookup_absent(l.skip(1), p);
    }
}

/// No operand has two intervals.
pub open spec fn opers_distinct(ivs: Seq<Interval>) -> bool {
    forall|i: int, j: int| 0 <= i < j < ivs.len() ==> (#[trigger] ivs[i]).oper != (#[trigger] ivs[j]).oper
}

pub open spec fn iv_has(ivs: Seq<Interval>, o: Oper) -> bool {
    exists|k: int| 0 <= k < ivs.len() && (#[trigger] ivs[k]).oper == o
}

/// The position of the interval of `o`.
pub open spec fn iv_index(ivs: Seq<Interval>, o: Oper) -> int {
    choose|k: int| 0 <= k < ivs.len() && (#[trigger] ivs[k]).oper == o
}

/// A definition of `o` at statement `s`: its interval is extended to
/// `s`, or one starting there is added.
pub open spec fn def_one(ivs: Seq<Interval>, o: Oper, s: usize) -> Seq<Interval> {
    if iv_has(ivs, o) {
        let k = iv_index(ivs, o);
        ivs.update(k, Interval { end: s, ..ivs[k] })
    } else {
        ivs.push(Interval { start: s, end: s, oper: o })
    }
}

/// A use of `o` at statement `s`: its interval, if any, is extended to `s`.
pub open spec fn use_one(ivs: Seq<Interval>, o: Oper, s: usize) -> Seq<Interval> {
    if iv_has(ivs, o) {
        let k = iv_index(ivs, o);
        ivs.update(k, Interval { end: s, ..ivs[k] })
    } else {
        ivs
    }
}

pub open spec fn defs_apply(ivs: Seq<Interval>, ds: Seq<Oper>, s: usize) -> Seq<Interval>
    decreases ds.len(),
{
    if ds.len() == 0 {
        ivs
    } else {
        def_one(defs_apply(ivs, ds.drop_last(), s), ds.last(), s)
    }
}

pub open spec fn uses_apply(ivs: Seq<Interval>, us: Seq<Oper>, s: usize) -> Seq<Interval>
    decreases us.len(),
{
    if us.len() == 0 {
        ivs
    } else {
        use_one(uses_apply(ivs, us.drop_last(), s), us.last(), s)
    }
}

/// The live intervals of the statements `ss`, numbered from 1, in the
/// order in which their operands are first defined.
pub open spec fn live_intervals(ss: Seq<StmtV>) -> Seq<Interval>
    decreases ss.len(),
{
    if ss.len() == 0 {
        Seq::empty()
    } else {
        let s = ss.len() as usize;
        uses_apply(defs_apply(live_intervals(ss.drop_last()), ss.last().defs(), s), ss.last().uses(), s)
    }
}

/// Some interval of `o` runs from at or before `p` to at or after it.
pub open spec fn covers(ivs: Seq<Interval>, o: Oper, p: int) -> bool {
    exists|k: int| 0 <= k < ivs.len() && (#[trigger] ivs[k]).oper == o && ivs[k].start <= p <= ivs[k].end
}

/// Every interval starts no later than it ends, and ends by `s`.
pub open spec fn ends_by(ivs: Seq<Interval>, s: int) -> bool {
    forall|k: int| 0 <= k < ivs.len() ==> (#[trigger] ivs[k]).start <= ivs[k].end <= s
}

/// `b` keeps the intervals of `a` in place with their operands and starts,
/// ends them no earlier and by `s`, and adds only intervals `[s, s]`.
pub open spec fn grows(a: Seq<Interval>, b: Seq<Interval>, s: int) -> bool {
    &&& b.len() >= a.len()
    &&& forall|k: int| 0 <= k < a.len() ==> (#[trigger] b[k]).oper == a[k].oper && b[k].start == a[k].start
        && a[k].end <= b[k].end <= s
    &&& forall|k: int| a.len() <= k < b.len() ==> (#[trigger] b[k]).start == s && b[k].end == s
}

proof fn lemma_grows_trans(a: Seq<Interval>, b: Seq<Interval>, c: Seq<Interval>, s: int)
    requires
        grows(a, b, s),
        grows(b, c, s),
    ensures
        grows(a, c, s),
{
    assert forall|k: int| 0 <= k < a.len() implies (#[trigger] c[k]).oper == a[k].oper && c[k].start == a[k].start
        && a[k].end <= c[k].end <= s by {
        assert(b[k].oper == a[k].oper);
    }
    assert forall|k: int| a.len() <= k < c.len() implies (#[trigger] c[k]).start == s && c[k].end == s by {
        if k < b.len() {
            assert(b[k].start == s);
        }
    }
}

proof fn lemma_grows_covers(a: Seq<Interval>, b: Seq<Interval>, s: int, o: Oper, p: int)
    requires
        grows(a, b, s),
        covers(a, o, p),
    ensures
        covers(b, o, p),
{
    let k = choose|k: int| 0 <= k < a.len() && (#[trigger] a[k]).oper == o && a[k].start <= p <= a[k].end;
    assert(b[k].oper == o);
}

proof fn lemma_grows_has(a: Seq<Interval>, b: Seq<Interval>, s: int, o: Oper)
    requires
        grows(a, b, s),
        iv_has(a, o),
    ensures
        iv_has(b, o),
{
    let k = choose|k: int| 0 <= k < a.len() && (#[trigger] a[k]).oper == o;
    assert(b[k].oper == o);
}

proof fn lemma_def_one_covers(ivs: Seq<Interval>, o: Oper, s: usize)
    requires
        ends_by(ivs, s as int),
    ensures
        grows(ivs, def_one(ivs, o, s), s as int),
        ends_by(def_one(ivs, o, s), s as int),
        covers(def_one(ivs, o, s), o, s as int),
{
    let r = def_one(ivs, o, s);
    if iv_has(ivs, o) {
        let k = iv_index(ivs, o);
        assert(r[k].oper == o);
    } else {
        assert(r[ivs.len() as int].oper == o);
    }
}

proof fn lemma_use_one_covers(ivs: Seq<Interval>, o: Oper, s: usize)
    requires
        ends_by(ivs, s as int),
    ensures
        grows(ivs, use_one(ivs, o, s), s as int),
        ends_by(use_one(ivs, o, s), s as int),
        iv_has(ivs, o) ==> covers(use_one(ivs, o, s), o, s as int),
{
    let r = use_one(ivs, o, s);
    if iv_has(ivs, o) {
        let k = iv_index(ivs, o);
        assert(r[k].oper == o);
    }
}

proof fn lemma_defs_apply_covers(ivs: Seq<Interval>, ds: Seq<Oper>, s: usize)
    requires
        ends_by(ivs, s as int),
    ensures
        grows(ivs, defs_apply(ivs, ds, s), s as int),
        ends_by(defs_apply(ivs, ds, s), s as int),
        forall|o: Oper| #[trigger] ds.contains(o) ==> covers(defs_apply(ivs, ds, s), o, s as int),
    decreases ds.len(),
{
    if ds.len() > 0 {
        let prev = defs_apply(ivs, ds.drop_last(), s);
        lemma_defs_apply_covers(ivs, ds.drop_last(), s);
        lemma_def_one_covers(prev, ds.last(), s);
        let r = defs_apply(ivs, ds, s);
        lemma_grows_trans(ivs, prev, r, s as int);
        assert forall|o: Oper| #[trigger] ds.contains(o) implies covers(r, o, s as int) by {
            if o != ds.last() {
                let i = choose|i: int| 0 <= i < ds.len() && ds[i] == o;
                assert(ds.drop_last()[i] == o);
                assert(ds.drop_last().contains(o));
                lemma_grows_covers(prev, r, s as int, o, s as int);
            }
        }
    }
}

proof fn lemma_uses_apply_covers(ivs: Seq<Interval>, us: Seq<Oper>, s: usize)
    requires
        ends_by(ivs, s as int),
    ensures
        grows(ivs, uses_apply(ivs, us, s), s as int),
        ends_by(uses_apply(ivs, us, s), s as int),
        forall|o: Oper| #[trigger] us.contains(o) && iv_has(ivs, o) ==> covers(uses_apply(ivs, us, s), o, s as int),
    decreases us.len(),
{
    if us.len() > 0 {
        let prev = uses_apply(ivs, us.drop_last(), s);
        lemma_uses_apply_covers(ivs, us.drop_last(), s);
        lemma_use_one_covers(prev, us.last(), s);
        let r = uses_apply(ivs, us, s);
        lemma_grows_trans(ivs, prev, r, s as int);
        assert forall|o: Oper| #[trigger] us.contains(o) && iv_has(ivs, o) implies covers(r, o, s as int) by {
            if o != us.last() {
                let i = choose|i: int| 0 <= i < us.len() && us[i] == o;
                assert(us.drop_last()[i] == o);
                assert(us.drop_last().contains(o));
                lemma_grows_covers(prev, r, s as int, o, s as int);
            } else {
                lemma_grows_has(ivs, prev, s as int, o);
            }
        }
    }
}

/// Live intervals cover their operands: the interval of an operand runs
/// over every statement that defines it (statements numbered from 1), and
/// over every statement that reads it at or after a statement that defines
/// it. So two operands that are defined or read at one statement have
/// overlapping intervals, and never share a register.
pub proof fn lemma_live_intervals_cover(ss: Seq<StmtV>)
    requires
        ss.len() <= usize::MAX,
    ensures
        ends_by(live_intervals(ss), ss.len() as int),
        forall|p: int, o: Oper| 1 <= p <= ss.len() && #[trigger] ss[p - 1].defs().contains(o) ==> covers(live_intervals(ss), o, p),
        forall|p: int, q: int, o: Oper| 1 <= q <= p <= ss.len() && #[trigger] ss[q - 1].defs().contains(o)
            && #[trigger] ss[p - 1].uses().contains(o) ==> covers(live_intervals(ss), o, p),
    decreases ss.len(),
{
    if ss.len() > 0 {
        let n = ss.len() as int;
        let s = ss.len() as usize;
        let pre = ss.drop_last();
        lemma_live_intervals_cover(pre);
        let i0 = live_intervals(pre);
        let a = defs_apply(i0, ss.last().defs(), s);
        let b = uses_apply(a, ss.last().uses(), s);
        assert(b == live_intervals(ss));
        lemma_defs_apply_covers(i0, ss.last().defs(), s);
        lemma_uses_apply_covers(a, ss.last().uses(), s);
        lemma_grows_trans(i0, a, b, n);
        assert forall|p: int, o: Oper| 1 <= p <= ss.len() && #[trigger] ss[p - 1].defs().contains(o) implies covers(b, o, p) by {
            if p < n {
                assert(pre[p - 1] == ss[p - 1]);
                lemma_grows_covers(i0, b, n, o, p);
            } else {
                lemma_grows_covers(a, b, n, o, p);
            }
        }
        assert forall|p: int, q: int, o: Oper| 1 <= q <= p <= ss.len() && #[trigger] ss[q - 1].defs().contains(o)
            && #[trigger] ss[p - 1].uses().contains(o) implies covers(b, o, p) by {
            if p < n {
                assert(pre[p - 1] == ss[p - 1]);
                assert(pre[q - 1] == ss[q - 1]);
                lemma_grows_covers(i0, b, n, o, p);
            } else {
                if q < n {
                    assert(pre[q - 1] == ss[q - 1]);
                    assert(covers(i0, o, q));
                    let k = choose|k: int| 0 <= k < i0.len() && (#[trigger] i0[k]).oper == o && i0[k].start <= q <= i0[k].end;
                    assert(iv_has(i0, o));
                    lemma_grows_has(i0, a, n, o);
                } else {
                    assert(covers(a, o, n));
                    let k = choose|k: int| 0 <= k < a.len() && (#[trigger] a[k]).oper == o && a[k].start <= n <= a[k].end;
                    assert(iv_has(a, o));
                }
            }
        }
    }
}

/// Each interval starts at a statement (numbered from 1) that defines its
/// operand, and ends at one that defines or reads it.
pub open spec fn tight(ivs: Seq<Interval>, ss: Seq<StmtV>) -> bool {
    forall|k: int| 0 <= k < ivs.len() ==> {
        &&& 1 <= (#[trigger] ivs[k]).start
        &&& ivs[k].start <= ivs[k].end
        &&& ivs[k].end <= ss.len()
        &&& ss[ivs[k].start - 1].defs().contains(ivs[k].oper)
        &&& (ss[ivs[k].end - 1].defs().contains(ivs[k].oper) || ss[ivs[k].end - 1].uses().contains(ivs[k].oper))
    }
}

/// `b` is `a` with some intervals of operands among `d` ended at `s`, and
/// intervals `[s, s]` of operands among `d` added.
pub open spec fn changes(a: Seq<Interval>, b: Seq<Interval>, s: int, d: Seq<Oper>) -> bool {
    &&& b.len() >= a.len()
    &&& forall|k: int| 0 <= k < a.len() ==> (#[trigger] b[k]) == a[k]
        || (b[k].oper == a[k].oper && b[k].start == a[k].start && b[k].end == s && d.contains(a[k].oper))
    &&& forall|k: int| a.len() <= k < b.len() ==> (#[trigger] b[k]).start == s && b[k].end == s && d.contains(b[k].oper)
}

proof fn lemma_changes_trans(a: Seq<Interval>, b: Seq<Interval>, c: Seq<Interval>, s: int, d1: Seq<Oper>, d2: Seq<Oper>, d: Seq<Oper>)
    requires
        changes(a, b, s, d1),
        changes(b, c, s, d2),
        forall|o: Oper| #[trigger] d1.contains(o) ==> d.contains(o),
        forall|o: Oper| #[trigger] d2.contains(o) ==> d.contains(o),
    ensures
        changes(a, c, s, d),
{
    assert forall|k: int| 0 <= k < a.len() implies (#[trigger] c[k]) == a[k]
        || (c[k].oper == a[k].oper && c[k].start == a[k].start && c[k].end == s && d.contains(a[k].oper)) by {
        assert(b[k] == a[k] || (b[k].oper == a[k].oper && b[k].start == a[k].start && b[k].end == s && d1.contains(a[k].oper)));
        assert(c[k] == b[k] || (c[k].oper == b[k].oper && c[k].start == b[k].start && c[k].end == s && d2.contains(b[k].oper)));
    }
    assert forall|k: int| a.len() <= k < c.len() implies (#[trigger] c[k]).start == s && c[k].end == s && d.contains(c[k].oper) by {
        if k < b.len() {
            assert(b[k].start == s && b[k].end == s && d1.contains(b[k].oper));
            assert(c[k] == b[k] || (c[k].oper == b[k].oper && c[k].start == b[k].start && c[k].end == s && d2.contains(b[k].oper)));
        }
    }
}

proof fn lemma_def_one_changes(ivs: Seq<Interval>, o: Oper, s: usize)
    requires
        opers_distinct(ivs),
    ensures
        changes(ivs, def_one(ivs, o, s), s as int, seq![o]),
        opers_distinct(def_one(ivs, o, s)),
{
    let r = def_one(ivs, o, s);
    assert(seq![o].contains(o)) by {
        assert(seq![o][0] == o);
    }
    if iv_has(ivs, o) {
        let k = iv_index(ivs, o);
        assert forall|i: int, j: int| 0 <= i < j < r.len() implies (#[trigger] r[i]).oper != (#[trigger] r[j]).oper by {
            assert(ivs[i].oper != ivs[j].oper);
        }
    } else {
        assert forall|i: int, j: int| 0 <= i < j < r.len() implies (#[trigger] r[i]).oper != (#[trigger] r[j]).oper by {
            if j < ivs.len() {
                assert(ivs[i].oper != ivs[j].oper);
            } else {
                assert(r[i] == ivs[i]);
            }
        }
    }
}

proof fn lemma_use_one_changes(ivs: Seq<Interval>, o: Oper, s: usize)
    requires
        opers_distinct(ivs),
    ensures
        changes(ivs, use_one(ivs, o, s), s as int, seq![o]),
        use_one(ivs, o, s).len() == ivs.len(),
        opers_distinct(use_one(ivs, o, s)),
{
    let r = use_one(ivs, o, s);
    assert(seq![o].contains(o)) by {
        assert(seq![o][0] == o);
    }
    if iv_has(ivs, o) {
        assert forall|i: int, j: int| 0 <= i < j < r.len() implies (#[trigger] r[i]).oper != (#[trigger] r[j]).oper by {
            assert(ivs[i].oper != ivs[j].oper);
        }
    }
}

proof fn lemma_contains_drop_last(d: Seq<Oper>)
    requires
        d.len() > 0,
    ensures
        forall|o: Oper| #[trigger] d.drop_last().contains(o) ==> d.contains(o),
        forall|o: Oper| #[trigger] seq![d.last()].contains(o) ==> d.contains(o),
{
    assert forall|o: Oper| #[trigger] d.drop_last().contains(o) implies d.contains(o) by {
        let i = choose|i: int| 0 <= i < d.drop_last().len() && d.drop_last()[i] == o;
        assert(d[i] == o);
    }
    assert forall|o: Oper| #[trigger] seq![d.last()].contains(o) implies d.contains(o) by {
        assert(seq![d.last()][0] == d.last());
        assert(d[d.len() - 1] == d.last());
    }
}

proof fn lemma_defs_apply_changes(ivs: Seq<Interval>, ds: Seq<Oper>, s: usize)
    requires
        opers_distinct(ivs),
    ensures
        changes(ivs, defs_apply(ivs, ds, s), s as int, ds),
        opers_distinct(defs_apply(ivs, ds, s)),
    decreases ds.len(),
{
    if ds.len() > 0 {
        let prev = defs_apply(ivs, ds.drop_last(), s);
        lemma_defs_apply_changes(ivs, ds.drop_last(), s);
        lemma_def_one_changes(prev, ds.last(), s);
        lemma_contains_drop_last(ds);
        lemma_changes_trans(ivs, prev, defs_apply(ivs, ds, s), s as int, ds.drop_last(), seq![ds.last()], ds);
    } else {
        assert forall|k: int| 0 <= k < ivs.len() implies (#[trigger] ivs[k]) == ivs[k] by {}
    }
}

proof fn lemma_uses_apply_changes(ivs: Seq<Interval>, us: Seq<Oper>, s: usize)
    requires
        opers_distinct(ivs),
    ensures
        changes(ivs, uses_apply(ivs, us, s), s as int, us),
        uses_apply(ivs, us, s).len() == ivs.len(),
        opers_distinct(uses_apply(ivs, us, s)),
    decreases us.len(),
{
    if us.len() > 0 {
        let prev = uses_apply(ivs, us.drop_last(), s);
        lemma_uses_apply_changes(ivs, us.drop_last(), s);
        lemma_use_one_changes(prev, us.last(), s);
        lemma_contains_drop_last(us);
        lemma_changes_trans(ivs, prev, uses_apply(ivs, us, s), s as int, us.drop_last(), seq![us.last()], us);
    }
}

/// The live intervals are exact: one interval per operand, starting at a
/// statement that defines the operand and ending at one that defines or
/// reads it. With `lemma_live_intervals_cover`, an interval runs from the
/// first definition of its operand to the last statement that defines or
/// (after a definition) reads it.
pub proof fn lemma_live_intervals_tight(ss: Seq<StmtV>)
    requires
        ss.len() <= usize::MAX,
    ensures
        opers_distinct(live_intervals(ss)),
        tight(live_intervals(ss), ss),
    decreases ss.len(),
{
    if ss.len() > 0 {
        let n = ss.len() as int;
        let s = ss.len() as usize;
        let pre = ss.drop_last();
        lemma_live_intervals_tight(pre);
        let i0 = live_intervals(pre);
        let a = defs_apply(i0, ss.last().defs(), s);
        let b = uses_apply(a, ss.last().uses(), s);
        assert(b == live_intervals(ss));
        lemma_defs_apply_changes(i0, ss.last().defs(), s);
        lemma_uses_apply_changes(a, ss.last().uses(), s);
        assert(ss[n - 1] == ss.last());
        assert forall|k: int| 0 <= k < b.len() implies {
            &&& 1 <= (#[trigger] b[k]).start
            &&& b[k].start <= b[k].end
            &&& b[k].end <= ss.len()
            &&& ss[b[k].start - 1].defs().contains(b[k].oper)
            &&& (ss[b[k].end - 1].defs().contains(b[k].oper) || ss[b[k].end - 1].uses().contains(b[k].oper))
        } by {
            assert(b[k] == a[k] || (b[k].oper == a[k].oper && b[k].start == a[k].start && b[k].end == n
                && ss.last().uses().contains(a[k].oper)));
            if k < i0.len() {
                let iv = i0[k];
                assert(1 <= iv.start && iv.start <= iv.end && iv.end <= pre.len());
                assert(pre[iv.start - 1] == ss[iv.start - 1]);
                assert(pre[iv.end - 1] == ss[iv.end - 1]);
                assert(a[k] == i0[k] || (a[k].oper == i0[k].oper && a[k].start == i0[k].start && a[k].end == n
                    && ss.last().defs().contains(i0[k].oper)));
            } else {
                assert(a[k].start == n && a[k].end == n && ss.last().defs().contains(a[k].oper));
            }
        }
    }
}

/// The statements of the blocks (without labels and jumps), in order.
pub open spec fn body_statements(bs: Seq<BlockView>) -> Seq<StmtV>
    decreases bs.len(),
{
    if bs.len() == 0 {
        Seq::empty()
    } else {
        body_statements(bs.drop_last()) + bs.last().statements
    }
}

/// The two intervals share a statement.
pub open spec fn overlap(a: Interval, b: Interval) -> bool {
    a.start <= b.end && b.start <= a.end
}

/// Starts never decrease along the list.
pub open spec fn starts_sorted(ivs: Seq<Interval>) -> bool {
    forall|i: int, j: int| 0 <= i <= j < ivs.len() ==> (#[trigger] ivs[i]).start <= (#[trigger] ivs[j]).start
}

/// No interval starts after `s`.
pub open spec fn starts_below(ivs: Seq<Interval>, s: int) -> bool {
    forall|i: int| 0 <= i < ivs.len() ==> (#[trigger] ivs[i]).start <= s
}

/// The interval of `o` among `ivs`.
pub open spec fn interval_of(ivs: Seq<Interval>, o: Oper) -> Interval {
    ivs[iv_index(ivs, o)]
}

proof fn lemma_def_one_starts(ivs: Seq<Interval>, o: Oper, s: usize)
    requires
        starts_sorted(ivs),
        starts_below(ivs, s as int),
    ensures
        starts_sorted(def_one(ivs, o, s)),
        starts_below(def_one(ivs, o, s), s as int),
{
    let r = def_one(ivs, o, s);
    if iv_has(ivs, o) {
        let k = iv_index(ivs, o);
        assert forall|i: int| 0 <= i < r.len() implies #[trigger] r[i].start == ivs[i].start by {}
        assert forall|i: int, j: int| 0 <= i <= j < r.len() implies (#[trigger] r[i]).start <= (#[trigger] r[j]).start by {
            assert(r[i].start == ivs[i].start);
            assert(r[j].start == ivs[j].start);
        }
        assert forall|i: int| 0 <= i < r.len() implies (#[trigger] r[i]).start <= s as int by {
            assert(r[i].start == ivs[i].start);
        }
    } else {
        assert forall|i: int, j: int| 0 <= i <= j < r.len() implies (#[trigger] r[i]).start <= (#[trigger] r[j]).start by {
            if j < ivs.len() {
                assert(r[i] == ivs[i] && r[j] == ivs[j]);
            } else if i < ivs.len() {
                assert(r[i] == ivs[i]);
            }
        }
        assert forall|i: int| 0 <= i < r.len() implies (#[trigger] r[i]).start <= s as int by {
            if i < ivs.len() {
                assert(r[i] == ivs[i]);
            }
        }
    }
}

proof fn lemma_defs_apply_starts(ivs: Seq<Interval>, ds: Seq<Oper>, s: usize)
    requires
        starts_sorted(ivs),
        starts_below(ivs, s as int),
    ensures
        starts_sorted(defs_apply(ivs, ds, s)),
        starts_below(defs_apply(ivs, ds, s), s as int),
    decreases ds.len(),
{
    if ds.len() > 0 {
        lemma_defs_apply_starts(ivs, ds.drop_last(), s);
        lemma_def_one_starts(defs_apply(ivs, ds.drop_last(), s), ds.last(), s);
    }
}

proof fn lemma_uses_apply_starts(ivs: Seq<Interval>, us: Seq<Oper>, s: usize)
    ensures
        uses_apply(ivs, us, s).len() == ivs.len(),
        forall|i: int| 0 <= i < ivs.len() ==> #[trigger] uses_apply(ivs, us, s)[i].start == ivs[i].start,
    decreases us.len(),
{
    if us.len() > 0 {
        lemma_uses_apply_starts(ivs, us.drop_last(), s);
    }
}

/// Live intervals come in the order of their starts, none after the last
/// statement.
proof fn lemma_live_starts(ss: Seq<StmtV>)
    requires
        ss.len() < usize::MAX,
    ensures
        starts_sorted(live_intervals(ss)),
        starts_below(live_intervals(ss), ss.len() as int),
    decreases ss.len(),
{
    if ss.len() > 0 {
        let prev = live_intervals(ss.drop_last());
        let s = ss.len() as usize;
        lemma_live_starts(ss.drop_last());
        lemma_defs_apply_starts(prev, ss.last().defs(), s);
        let d = defs_apply(prev, ss.last().defs(), s);
        lemma_uses_apply_starts(d, ss.last().uses(), s);
        let r = uses_apply(d, ss.last().uses(), s);
        assert forall|i: int, j: int| 0 <= i <= j < r.len() implies (#[trigger] r[i]).start <= (#[trigger] r[j]).start by {
            assert(r[i].start == d[i].start && r[j].start == d[j].start);
        }
        assert forall|i: int| 0 <= i < r.len() implies (#[trigger] r[i]).start <= ss.len() as int by {
            assert(r[i].start == d[i].start);
        }
    }
}

fn find_iv(ivs: &Vec<Interval>, o: Oper) -> (r: Option<usize>)
    requires
        opers_distinct(ivs@),
    ensures
        match r {
            Some(k) => iv_has(ivs@, o) && k == iv_index(ivs@, o),
            None => !iv_has(ivs@, o),
        },
{
    let mut i: usize = 0;
    while i < ivs.len()
        invariant
            i <= ivs@.len(),
            opers_distinct(ivs@),
            forall|j: int| 0 <= j < i ==> (#[trigger] ivs@[j]).oper != o,
        decreases ivs@.len() - i,
    {
        if ivs[i].oper == o {
            proof {
                assert(ivs@[i as int].oper == o);
                assert(iv_has(ivs@, o));
                let k = iv_index(ivs@, o);
                if k != i {
                    if k < i {
                        assert(ivs@[k].oper != o);
                    } else {
                        assert(ivs@[i as int].oper != ivs@[k].oper);
                    }
                }
            }
            return Some(i);
        }
        i = i + 1;
    }
    None
}

fn extend_def(ivs: &mut Vec<Interval>, o: Oper, s: usize)
    requires
        opers_distinct(old(ivs)@),
    ensures
        opers_distinct(final(ivs)@),
        final(ivs)@ == def_one(old(ivs)@, o, s),
{
    match find_iv(ivs, o) {
        Some(k) => {
            let iv = ivs[k];
            ivs.set(k, Interval { start: iv.start, end: s, oper: iv.oper });
            proof {
                assert forall|i: int, j: int| 0 <= i < j < ivs@.len() implies (#[trigger] ivs@[i]).oper != (#[trigger] ivs@[j]).oper by {
                    assert(old(ivs)@[i].oper != old(ivs)@[j].oper);
                }
            }
        },
        None => {
            ivs.push(Interval { start: s, end: s, oper: o });
            proof {
                assert forall|i: int, j: int| 0 <= i < j < ivs@.len() implies (#[trigger] ivs@[i]).oper != (#[trigger] ivs@[j]).oper by {
                    if j == old(ivs)@.len() {
                        assert(old(ivs)@[i].oper != o);
                    } else {
                        assert(old(ivs)@[i].oper != old(ivs)@[j].oper);
                    }
                }
            }
        },
    }
}

fn extend_use(ivs: &mut Vec<Interval>, o: Oper, s: usize)
    requires
        opers_distinct(old(ivs)@),
    ensures
        opers_distinct(final(ivs)@),
        final(ivs)@ == use_one(old(ivs)@, o, s),
{
    match find_iv(ivs, o) {
        Some(k) => {
            let iv = ivs[k];
            ivs.set(k, Interval { start: iv.start, end: s, oper: iv.oper });
            proof {
                assert forall|i: int, j: int| 0 <= i < j < ivs@.len() implies (#[trigger] ivs@[i]).oper != (#[trigger] ivs@[j]).oper by {
                    assert(old(ivs)@[i].oper != old(ivs)@[j].oper);
                }
            }
        },
        None => {},
    }
}

/// The live intervals of the operands of the blocks' statements, numbered
/// from 1 across all blocks: an interval starts at the first definition
/// and ends at the last definition or use.
pub fn compute_live_intervals(cfg: &CFG) -> (r: Vec<Interval>)
    requires
        body_statements(view_blocks(cfg.blocks@)).len() < usize::MAX,
    ensures
        r@ == live_intervals(body_statements(view_blocks(cfg.blocks@))),
        opers_distinct(r@),
{
    let ghost bs = view_blocks(cfg.blocks@);
    let mut intervals: Vec<Interval> = Vec::new();
    let mut s: usize = 1;
    let mut b: usize = 0;
    assert(bs.take(0) =~= Seq::<BlockView>::empty());
    while b < cfg.blocks.len()
        invariant
            b <= cfg.blocks@.len(),
            bs == view_blocks(cfg.blocks@),
            body_statements(bs).len() < usize::MAX,
            s == body_statements(bs.take(b as int)).len() + 1,
            intervals@ == live_intervals(body_statements(bs.take(b as int))),
            opers_distinct(intervals@),
        decreases cfg.blocks@.len() - b,
    {
        let bb = &cfg.blocks[b];
        let ghost done = body_statements(bs.take(b as int));
        proof {
            assert(bs.take(b + 1).drop_last() =~= bs.take(b as int));
            assert(bs[b as int] == crate::cfg::view_block(*bb));
            lemma_body_prefix(bs, b + 1);
        }
        let mut j: usize = 0;
        while j < bb.statements.len()
            invariant
                j <= bb.statements@.len(),
                body_statements(bs).len() < usize::MAX,
                done.len() + bb.statements@.len() <= body_statements(bs).len(),
                s == done.len() + j + 1,
                intervals@ == live_intervals(done + view_stmts(bb.statements@.take(j as int))),
                opers_distinct(intervals@),
            decreases bb.statements@.len() - j,
        {
            let statement = &bb.statements[j];
            let ghost prefix = done + view_stmts(bb.statements@.take(j as int));
            let ghost next = done + view_stmts(bb.statements@.take(j + 1));
            proof {
                assert(next.drop_last() =~= prefix);
                assert(next.last() == statement@);
                assert(next.len() == s);
            }
            let defs = statement.def();
            let mut k: usize = 0;
            while k < defs.len()
                invariant
                    k <= defs@.len(),
                    intervals@ == defs_apply(live_intervals(prefix), defs@.take(k as int), s),
                    opers_distinct(intervals@),
                decreases defs@.len() - k,
            {
                assert(defs@.take(k + 1).drop_last() =~= defs@.take(k as int));
                extend_def(&mut intervals, defs[k], s);
                k = k + 1;
            }
            assert(defs@.take(defs@.len() as int) =~= defs@);
            let used = statement.used();
            let ghost after_defs = intervals@;
            let mut k: usize = 0;
            while k < used.len()
                invariant
                    k <= used@.len(),
                    intervals@ == uses_apply(after_defs, used@.take(k as int), s),
                    opers_distinct(intervals@),
                decreases used@.len() - k,
            {
                assert(used@.take(k + 1).drop_last() =~= used@.take(k as int));
                extend_use(&mut intervals, used[k], s);
                k = k + 1;
            }
            assert(used@.take(used@.len() as int) =~= used@);
            s = s + 1;
            j = j + 1;
        }
        proof {
            assert(bb.statements@.take(bb.statements@.len() as int) =~= bb.statements@);
            assert(body_statements(bs.take(b + 1)) == done + view_stmts(bb.statements@));
        }
        b = b + 1;
    }
    assert(bs.take(cfg.blocks@.len() as int) =~= bs);
    intervals
}

proof fn lemma_body_prefix(bs: Seq<BlockView>, k: int)
    requires
        0 <= k <= bs.len(),
    ensures
        body_statements(bs.take(k)).len() <= body_statements(bs).len(),
    decreases bs.len(),
{
    if k < bs.len() {
        assert(bs.drop_last().take(k) =~= bs.take(k));
        lemma_body_prefix(bs.drop_last(), k);
    } else {
        assert(bs.take(k) =~= bs);
    }
}

/// The intervals are ordered by their ends.
pub open spec fn sorted_by_end(v: Seq<Interval>) -> bool {
    forall|i: int, j: int| 0 <= i < j < v.len() ==> (#[trigger] v[i]).end <= (#[trigger] v[j]).end
}

/// `s` with `x` placed after every interval that ends no later than it.
pub open spec fn sorted_insert(s: Seq<Interval>, x: Interval) -> Seq<Interval>
    decreases s.len(),
{
    if s.len() == 0 {
        seq![x]
    } else if s.last().end > x.end {
        sorted_insert(s.drop_last(), x).push(s.last())
    } else {
        s.push(x)
    }
}

proof fn lemma_sorted_insert(s: Seq<Interval>, x: Interval, p: int)
    requires
        0 <= p <= s.len(),
        forall|k: int| 0 <= k < p ==> (#[trigger] s[k]).end <= x.end,
        forall|k: int| p <= k < s.len() ==> (#[trigger] s[k]).end > x.end,
    ensures
        s.take(p).push(x) + s.skip(p) == sorted_insert(s, x),
    decreases s.len(),
{
    if p == s.len() {
        assert(s.take(p) =~= s);
        assert(s.skip(p) =~= Seq::<Interval>::empty());
        assert(s.take(p).push(x) + s.skip(p) =~= s.push(x));
        if s.len() > 0 {
            assert(s[s.len() - 1].end <= x.end);
        }
    } else {
        let d = s.drop_last();
        assert(s[s.len() - 1].end > x.end);
        assert forall|k: int| p <= k < d.len() implies (#[trigger] d[k]).end > x.end by {
            assert(d[k] == s[k]);
        }
        assert forall|k: int| 0 <= k < p implies (#[trigger] d[k]).end <= x.end by {
            assert(d[k] == s[k]);
        }
        lemma_sorted_insert(d, x, p);
        assert(d.take(p) =~= s.take(p));
        assert(s.take(p).push(x) + s.skip(p) =~= (d.take(p).push(x) + d.skip(p)).push(s.last()));
    }
}

/// Inserts `x` after every interval that ends no later than it: what
/// appending it and stably sorting by end gives.
fn insert_sorted(active: &mut Vec<Interval>, x: Interval)
    requires
        sorted_by_end(old(active)@),
    ensures
        sorted_by_end(final(active)@),
        final(active)@ == sorted_insert(old(active)@, x),
        exists|p: int| 0 <= p <= old(active)@.len() && final(active)@ == old(active)@.take(p).push(x) + old(active)@.skip(p)
            && (forall|k: int| 0 <= k < p ==> (#[trigger] old(active)@[k]).end <= x.end)
            && (forall|k: int| p <= k < old(active)@.len() ==> (#[trigger] old(active)@[k]).end > x.end),
{
    let mut p: usize = 0;
    while p < active.len() && active[p].end <= x.end
        invariant
            p <= active@.len(),
            active@ == old(active)@,
            forall|k: int| 0 <= k < p ==> (#[trigger] active@[k]).end <= x.end,
        decreases active@.len() - p,
    {
        p = p + 1;
    }
    proof {
        assert forall|k: int| p <= k < old(active)@.len() implies (#[trigger] old(active)@[k]).end > x.end by {
            assert(old(active)@[p as int].end > x.end);
            assert(old(active)@[p as int].end <= old(active)@[k].end);
        }
    }
    active.insert(p, x);
    proof {
        let o = old(active)@;
        lemma_sorted_insert(o, x, p as int);
        assert(active@ =~= o.take(p as int).push(x) + o.skip(p as int));
        assert forall|i: int, j: int| 0 <= i < j < active@.len() implies (#[trigger] active@[i]).end <= (#[trigger] active@[j]).end by {
            if j < p {
                assert(o[i].end <= o[j].end);
            } else if j == p {
                assert(active@[i] == o[i]);
            } else if i < p {
                assert(active@[j] == o[j - 1]);
                assert(o[i].end <= x.end);
            } else if i == p {
                assert(active@[j] == o[j - 1]);
            } else {
                assert(o[i - 1].end <= o[j - 1].end);
            }
        }
    }
}

/// The register of an active interval.
pub open spec fn reg_of(register: Seq<(Oper, usize)>, a: Interval) -> usize {
    lookup(register, a.oper)
}

/// The state of linear-scan allocation: the intervals live at the current
/// point (by end), the free registers, and the register or stack slot
/// given to each operand.
pub struct AllocState {
    pub active: Vec<Interval>,
    pub registers: IndexSet<usize>,
    pub register: Vec<(Oper, usize)>,
    pub location: Vec<(Oper, usize)>,
}

/// The allocation invariant with `num` registers: each register is free
/// or held by exactly one active interval.
pub open spec fn alloc_inv(st: AllocState, num: usize) -> bool {
    let items = index_set_items(st.registers);
    let act = st.active@;
    &&& sorted_by_end(act)
    &&& act.len() + items.len() == num
    &&& items.no_duplicates()
    &&& forall|j: int| 0 <= j < items.len() ==> #[trigger] items[j] < num
    &&& forall|k: int| 0 <= k < act.len() ==> has_key(st.register@, (#[trigger] act[k]).oper) && reg_of(st.register@, act[k]) < num
    &&& forall|k1: int, k2: int| 0 <= k1 < k2 < act.len() ==> reg_of(st.register@, #[trigger] act[k1]) != reg_of(st.register@, #[trigger] act[k2])
    &&& forall|k: int| 0 <= k < act.len() ==> !items.contains(reg_of(st.register@, #[trigger] act[k]))
    &&& forall|o: Oper| #[trigger] has_key(st.register@, o) ==> lookup(st.register@, o) < num
    &&& keys_unique(st.register@)
    &&& keys_unique(st.location@)
    &&& forall|o: Oper| #[trigger] has_key(st.register@, o) ==> !has_key(st.location@, o)
}

/// What the allocation state holds, as mathematical values: the active
/// intervals (by end), the free registers (the next one last), the register
/// of each operand that has one, and the operands sent to the stack.
pub struct ScanModel {
    pub active: Seq<Interval>,
    pub free: Seq<usize>,
    pub reg: Map<Oper, usize>,
    pub spilled: Set<Oper>,
}

#[verifier::opaque]
pub open spec fn model_of(st: AllocState) -> ScanModel {
    ScanModel {
        active: st.active@,
        free: index_set_items(st.registers),
        reg: Map::new(|o: Oper| has_key(st.register@, o), |o: Oper| lookup(st.register@, o)),
        spilled: Set::new(|o: Oper| has_key(st.location@, o)),
    }
}

/// Before interval `i`: where every active interval ends before `i`
/// starts, they all end and their registers are freed in order.
pub open spec fn scan_expire(m: ScanModel, i: Interval) -> ScanModel {
    if forall|k: int| 0 <= k < m.active.len() ==> (#[trigger] m.active[k]).end < i.start {
        ScanModel { active: Seq::empty(), free: m.free + m.active.map_values(|a: Interval| m.reg[a.oper]), ..m }
    } else {
        m
    }
}

/// Placing interval `i` with `num` registers: a free register where one
/// is left; else, of `i` and the active interval that ends last, the one
/// that ends later goes to the stack, and `i` takes that interval's
/// register if it was not `i`.
pub open spec fn scan_place(m: ScanModel, i: Interval, num: usize) -> ScanModel {
    if m.active.len() == num {
        let sp = m.active.last();
        if sp.end > i.end {
            ScanModel {
                active: sorted_insert(m.active.drop_last(), i),
                free: m.free,
                reg: m.reg.remove(sp.oper).insert(i.oper, m.reg[sp.oper]),
                spilled: m.spilled.insert(sp.oper),
            }
        } else {
            ScanModel { spilled: m.spilled.insert(i.oper), ..m }
        }
    } else {
        ScanModel { active: sorted_insert(m.active, i), free: m.free.drop_last(), reg: m.reg.insert(i.oper, m.free.last()), spilled: m.spilled }
    }
}

/// The state before any interval: all `num` registers free, register 0
/// to be taken first.
pub open spec fn scan_init(num: usize) -> ScanModel {
    ScanModel {
        active: Seq::empty(),
        free: Seq::new(num as nat, |j: int| (num - 1 - j) as usize),
        reg: Map::empty(),
        spilled: Set::empty(),
    }
}

/// Linear scan over the first `k` intervals.
pub open spec fn scan_upto(ivs: Seq<Interval>, k: int, num: usize) -> ScanModel
    decreases k,
{
    if k <= 0 {
        scan_init(num)
    } else {
        scan_place(scan_expire(scan_upto(ivs, k - 1, num), ivs[k - 1]), ivs[k - 1], num)
    }
}

/// Linear scan over all the intervals.
pub open spec fn scan(ivs: Seq<Interval>, num: usize) -> ScanModel {
    scan_upto(ivs, ivs.len() as int, num)
}

/// Frees the registers of the active intervals if every one of them ends
/// before `i` starts; otherwise nothing changes.
fn expire_old_intervals(i: &Interval, state: &mut AllocState, num: usize)
    requires
        alloc_inv(*old(state), num),
    ensures
        alloc_inv(*final(state), num),
        final(state).register == old(state).register,
        final(state).location == old(state).location,
        (forall|k: int| 0 <= k < old(state).active@.len() ==> (#[trigger] old(state).active@[k]).end < i.start)
            ==> final(state).active@ == Seq::<Interval>::empty(),
        !(forall|k: int| 0 <= k < old(state).active@.len() ==> (#[trigger] old(state).active@[k]).end < i.start)
            ==> final(state).active@ == old(state).active@ && index_set_items(final(state).registers) == index_set_items(old(state).registers),
        model_of(*final(state)) == scan_expire(model_of(*old(state)), *i),
{
    let n = state.active.len();
    let mut k: usize = 0;
    while k < n
        invariant
            k <= n,
            n == state.active@.len(),
            *state == *old(state),
            alloc_inv(*old(state), num),
            forall|j: int| 0 <= j < k ==> (#[trigger] state.active@[j]).end < i.start,
        decreases n - k,
    {
        if state.active[k].end >= i.start {
            proof {
                reveal(model_of);
                assert(!(forall|j: int| 0 <= j < old(state).active@.len() ==> (#[trigger] old(state).active@[j]).end < i.start));
            }
            return;
        }
        k = k + 1;
    }
    let ghost items0 = index_set_items(state.registers);
    let mut k: usize = 0;
    while k < n
        invariant
            k <= n,
            n == state.active@.len(),
            state.active == old(state).active,
            state.register == old(state).register,
            state.location == old(state).location,
            alloc_inv(*old(state), num),
            items0 == index_set_items(old(state).registers),
            index_set_items(state.registers) == items0 + state.active@.take(k as int).map_values(|a: Interval| reg_of(state.register@, a)),
            index_set_items(state.registers).no_duplicates(),
            forall|j: int| 0 <= j < index_set_items(state.registers).len() ==> #[trigger] index_set_items(state.registers)[j] < num,
        decreases n - k,
    {
        let oper = state.active[k].oper;
        let reg = assoc_get(&state.register, oper);
        let ghost before = index_set_items(state.registers);
        proof {
            let act = state.active@;
            assert(reg == reg_of(state.register@, act[k as int]));
            assert(!before.contains(reg)) by {
                if before.contains(reg) {
                    let j = choose|j: int| 0 <= j < before.len() && before[j] == reg;
                    if j < items0.len() {
                        assert(items0[j] == before[j]);
                        assert(items0.contains(reg));
                    } else {
                        let kk = j - items0.len();
                        assert(before[j] == reg_of(state.register@, act[kk]));
                        assert(kk < k);
                    }
                }
            }
        }
        index_set_insert(&mut state.registers, reg);
        proof {
            assert(state.active@.take(k + 1).map_values(|a: Interval| reg_of(state.register@, a)) =~= state.active@.take(k as int).map_values(|a: Interval| reg_of(state.register@, a)).push(reg));
            assert(index_set_items(state.registers) =~= items0 + state.active@.take(k + 1).map_values(|a: Interval| reg_of(state.register@, a)));
            assert forall|a: int, b: int| 0 <= a < index_set_items(state.registers).len() && 0 <= b < index_set_items(state.registers).len() && a != b implies index_set_items(state.registers)[a] != index_set_items(state.registers)[b] by {
                if a < before.len() && b < before.len() {
                } else if a < before.len() {
                    assert(before[a] != reg);
                } else if b < before.len() {
                    assert(before[b] != reg);
                }
            }
        }
        k = k + 1;
    }
    proof {
        assert(state.active@.take(n as int) =~= state.active@);
        assert(index_set_items(state.registers).len() == items0.len() + n);
        reveal(model_of);
        let m0 = model_of(*old(state));
        assert(old(state).active@.map_values(|a: Interval| reg_of(old(state).register@, a))
            =~= m0.active.map_values(|a: Interval| m0.reg[a.oper]));
    }
    state.active = Vec::new();
    proof {
        reveal(model_of);
        let m0 = model_of(*old(state));
        assert(model_of(*state).reg =~= m0.reg);
        assert(model_of(*state).spilled =~= m0.spilled);
        assert(model_of(*state).active =~= Seq::<Interval>::empty());
    }
}

/// With every register held, the interval that ends last among the
/// active ones and `i` goes to the stack: if that is an active interval,
/// `i` takes its register.
#[verifier::rlimit(40)]
fn spill_at_interval(i: &Interval, state: &mut AllocState, num: usize)
    requires
        alloc_inv(*old(state), num),
        old(state).active@.len() == num,
        num > 0,
        !has_key(old(state).register@, i.oper),
        !has_key(old(state).location@, i.oper),
    ensures
        alloc_inv(*final(state), num),
        has_key(final(state).register@, i.oper) || has_key(final(state).location@, i.oper),
        forall|o: Oper| #![trigger has_key(old(state).register@, o)] #![trigger has_key(old(state).location@, o)]
            has_key(old(state).register@, o) || has_key(old(state).location@, o) ==> has_key(final(state).register@, o)
            || has_key(final(state).location@, o),
        forall|o: Oper| #[trigger] has_key(final(state).register@, o) ==> has_key(old(state).register@, o) || o == i.oper,
        forall|o: Oper| #[trigger] has_key(final(state).location@, o) ==> has_key(old(state).location@, o) || has_key(old(state).register@, o) || o == i.oper,
        old(state).active@.last().end > i.end ==> {
            &&& lookup(final(state).register@, i.oper) == reg_of(old(state).register@, old(state).active@.last())
            &&& !has_key(final(state).register@, old(state).active@.last().oper)
            &&& forall|o: Oper| o != i.oper && o != old(state).active@.last().oper
                ==> #[trigger] lookup(final(state).register@, o) == lookup(old(state).register@, o)
            &&& forall|k: int| 0 <= k < old(state).active@.len() - 1
                ==> reg_of(old(state).register@, #[trigger] old(state).active@[k]) != lookup(final(state).register@, i.oper)
            &&& forall|k: int| 0 <= k < final(state).active@.len()
                ==> (#[trigger] final(state).active@[k]) == *i || old(state).active@.drop_last().contains(final(state).active@[k])
            &&& forall|k: int| 0 <= k < old(state).active@.len() - 1 ==> final(state).active@.contains(#[trigger] old(state).active@[k])
            &&& final(state).active@.contains(*i)
        },
        !(old(state).active@.last().end > i.end) ==> final(state).register == old(state).register && final(state).active == old(state).active,
        model_of(*final(state)) == scan_place(model_of(*old(state)), *i, num),
{
    let ghost act = state.active@;
    let ghost loc0 = state.location@;
    let ghost regs0 = state.registers;
    let spill = state.active[state.active.len() - 1];
    assert(spill == act[act.len() - 1]);
    if spill.end > i.end {
        let spilled = assoc_get(&state.register, spill.oper);
        assert(spilled == reg_of(state.register@, act[act.len() - 1]));
        let ghost reg0 = state.register@;
        let ghost items = index_set_items(state.registers);
        assoc_set(&mut state.register, i.oper, spilled);
        assoc_remove(&mut state.register, spill.oper);
        assoc_set(&mut state.location, spill.oper, 0);
        state.active.pop();
        let ghost rest = state.active@;
        assert(rest == act.drop_last());
        proof {
            assert(spill.oper != i.oper) by {
                assert(has_key(reg0, act[act.len() - 1].oper));
            }
            assert forall|k: int| 0 <= k < rest.len() implies (#[trigger] rest[k]).oper != spill.oper && rest[k].oper != i.oper by {
                assert(rest[k] == act[k]);
                assert(has_key(reg0, act[k].oper));
                if act[k].oper == spill.oper {
                    assert(reg_of(reg0, act[k]) == reg_of(reg0, act[act.len() - 1]));
                }
            }
        }
        insert_sorted(&mut state.active, *i);
        proof {
            let fin = state.active@;
            let p = choose|p: int| 0 <= p <= rest.len() && fin == rest.take(p).push(*i) + rest.skip(p)
                && (forall|k: int| 0 <= k < p ==> (#[trigger] rest[k]).end <= i.end)
                && (forall|k: int| p <= k < rest.len() ==> (#[trigger] rest[k]).end > i.end);
            let reg = state.register@;
            assert forall|k: int| 0 <= k < fin.len() implies #[trigger] fin[k] == (if k < p { act[k] } else if k == p { *i } else { act[k - 1] }) by {
                if k < p {
                    assert(fin[k] == rest[k]);
                } else if k > p {
                    assert(fin[k] == rest.skip(p)[k - p - 1]);
                }
            }
            assert forall|k: int| 0 <= k < fin.len() implies has_key(reg, (#[trigger] fin[k]).oper) && reg_of(reg, fin[k])
                == (if k == p { spilled } else if k < p { reg_of(reg0, act[k]) } else { reg_of(reg0, act[k - 1]) }) by {
                if k < p {
                    assert(fin[k].oper != spill.oper && fin[k].oper != i.oper);
                    assert(has_key(reg0, act[k].oper));
                } else if k > p {
                    assert(rest[k - 1] == act[k - 1]);
                    assert(fin[k].oper != spill.oper && fin[k].oper != i.oper);
                    assert(has_key(reg0, act[k - 1].oper));
                }
            }
            assert forall|k1: int, k2: int| 0 <= k1 < k2 < fin.len() implies reg_of(reg, #[trigger] fin[k1]) != reg_of(reg, #[trigger] fin[k2]) by {
                let a1 = if k1 < p { k1 } else if k1 == p { act.len() - 1 } else { k1 - 1 };
                let a2 = if k2 < p { k2 } else if k2 == p { act.len() - 1 } else { k2 - 1 };
                assert(reg_of(reg, fin[k1]) == reg_of(reg0, act[a1]));
                assert(reg_of(reg, fin[k2]) == reg_of(reg0, act[a2]));
                assert(a1 != a2);
                if a1 < a2 {
                    assert(reg_of(reg0, act[a1]) != reg_of(reg0, act[a2]));
                } else {
                    assert(reg_of(reg0, act[a2]) != reg_of(reg0, act[a1]));
                }
            }
            assert forall|k: int| 0 <= k < fin.len() implies !items.contains(reg_of(reg, #[trigger] fin[k])) by {
                let a = if k < p { k } else if k == p { act.len() - 1 } else { k - 1 };
                assert(reg_of(reg, fin[k]) == reg_of(reg0, act[a]));
            }
            assert forall|k: int| 0 <= k < fin.len() implies reg_of(reg, #[trigger] fin[k]) < num by {
                let a = if k < p { k } else if k == p { act.len() - 1 } else { k - 1 };
                assert(reg_of(reg, fin[k]) == reg_of(reg0, act[a]));
            }
            assert forall|o: Oper| #[trigger] has_key(reg, o) implies lookup(reg, o) < num by {
                if o == i.oper {
                } else {
                    assert(has_key(reg0, o));
                }
            }
            assert forall|k: int| 0 <= k < act.len() - 1 implies reg_of(reg0, #[trigger] act[k]) != spilled by {
                assert(reg_of(reg0, act[k]) != reg_of(reg0, act[act.len() - 1]));
            }
            assert forall|k: int| 0 <= k < fin.len() implies (#[trigger] fin[k]) == *i || rest.contains(fin[k]) by {
                if k < p {
                    assert(rest[k] == fin[k]);
                } else if k > p {
                    assert(rest[k - 1] == fin[k]);
                }
            }
            assert forall|k: int| 0 <= k < act.len() - 1 implies fin.contains(#[trigger] act[k]) by {
                let kk = if k < p { k } else { k + 1 };
                assert(fin[kk] == act[k]);
            }
            assert(fin[p] == *i);
        }
        proof {
            reveal(model_of);
            let m0 = model_of(*old(state));
            let m1 = model_of(*state);
            assert(m0.active.len() == num);
            assert(m0.active.last() == spill);
            assert(m1.active == sorted_insert(m0.active.drop_last(), *i));
            assert(m1.free == m0.free);
            assert(m1.reg =~= m0.reg.remove(spill.oper).insert(i.oper, m0.reg[spill.oper]));
            assert(m1.spilled =~= m0.spilled.insert(spill.oper));
        }
    } else {
        assoc_set(&mut state.location, i.oper, 0);
        proof {
            reveal(model_of);
            let m0 = model_of(*old(state));
            let m1 = model_of(*state);
            assert(m0.active.last() == spill);
            assert(m1.reg =~= m0.reg);
            assert(m1.spilled =~= m0.spilled.insert(i.oper));
        }
    }
}

/// Operands whose live intervals overlap are never given the same register.
pub open spec fn no_shared_register(ivs: Seq<Interval>, register: Seq<(Oper, usize)>) -> bool {
    forall|u: int, v: int|
        #![trigger ivs[u], ivs[v]]
        0 <= u < v < ivs.len() && has_key(register, ivs[u].oper) && has_key(register, ivs[v].oper)
            && overlap(ivs[u], ivs[v]) ==> lookup(register, ivs[u].oper) != lookup(register, ivs[v].oper)
}

/// Giving the interval `ivs[t]` a register different from those of the
/// intervals in `act` keeps apart the registers of overlapping intervals:
/// every earlier interval that still has a register is in `act` or ended
/// before `horizon`, where no later interval starts.
proof fn lemma_scan_pairs(
    ivs: Seq<Interval>,
    t: int,
    reg0: Seq<(Oper, usize)>,
    reg1: Seq<(Oper, usize)>,
    act: Seq<Interval>,
    horizon: int,
)
    requires
        0 <= t < ivs.len(),
        horizon <= ivs[t].start,
        no_shared_register(ivs.take(t), reg0),
        forall|u: int| 0 <= u < t && has_key(reg1, (#[trigger] ivs[u]).oper) ==> act.contains(ivs[u]) || ivs[u].end < horizon,
        forall|u: int| 0 <= u < t && has_key(reg1, (#[trigger] ivs[u]).oper) ==> has_key(reg0, ivs[u].oper)
            && lookup(reg1, ivs[u].oper) == lookup(reg0, ivs[u].oper),
        has_key(reg1, ivs[t].oper) ==> forall|k: int| 0 <= k < act.len() ==> lookup(reg0, (#[trigger] act[k]).oper) != lookup(reg1, ivs[t].oper),
    ensures
        no_shared_register(ivs.take(t + 1), reg1),
{
    let p0 = ivs.take(t);
    let p1 = ivs.take(t + 1);
    assert forall|u: int, v: int|
        #![trigger p1[u], p1[v]]
        0 <= u < v < p1.len() && has_key(reg1, p1[u].oper) && has_key(reg1, p1[v].oper)
            && overlap(p1[u], p1[v]) implies lookup(reg1, p1[u].oper) != lookup(reg1, p1[v].oper) by {
        assert(p1[u] == ivs[u]);
        assert(p1[v] == ivs[v]);
        assert(has_key(reg1, ivs[u].oper));
        if v < t {
            assert(p0[u] == ivs[u]);
            assert(p0[v] == ivs[v]);
            assert(has_key(reg1, ivs[v].oper));
        } else {
            assert(!(ivs[u].end < horizon));
            let k = choose|k: int| 0 <= k < act.len() && act[k] == ivs[u];
            assert(lookup(reg0, act[k].oper) != lookup(reg1, ivs[t].oper));
        }
    }
}

/// Linear-scan register allocation over the live intervals of the
/// blocks, taken by start, with `num_registers` registers: each interval
/// gets a free register, or, when all are held, the one that ends last
/// among it and the active intervals is sent to the stack.
#[verifier::rlimit(60)]
pub fn linear_scan_register_allocation(cfg: &CFG, num_registers: usize) -> (st: AllocState)
    requires
        body_statements(view_blocks(cfg.blocks@)).len() < usize::MAX,
        num_registers > 0,
    ensures
        alloc_inv(st, num_registers),
        forall|o: Oper| #[trigger] has_key(st.register@, o) ==> !has_key(st.location@, o),
        forall|t: int| 0 <= t < live_intervals(body_statements(view_blocks(cfg.blocks@))).len() ==> has_key(
            st.register@,
            (#[trigger] live_intervals(body_statements(view_blocks(cfg.blocks@)))[t]).oper,
        ) || has_key(st.location@, live_intervals(body_statements(view_blocks(cfg.blocks@)))[t].oper),
        forall|o: Oper| #[trigger] has_key(st.register@, o) ==> lookup(st.register@, o) < num_registers,
        forall|o: Oper| #[trigger] has_key(st.location@, o) ==> exists|u: int| 0 <= u < live_intervals(body_statements(view_blocks(cfg.blocks@))).len()
            && (#[trigger] live_intervals(body_statements(view_blocks(cfg.blocks@)))[u]).oper == o,
        no_shared_register(live_intervals(body_statements(view_blocks(cfg.blocks@))), st.register@),
        forall|o: Oper| #[trigger] has_key(st.register@, o) ==> exists|u: int| 0 <= u < live_intervals(body_statements(view_blocks(cfg.blocks@))).len()
            && (#[trigger] live_intervals(body_statements(view_blocks(cfg.blocks@)))[u]).oper == o,
        opers_distinct(live_intervals(body_statements(view_blocks(cfg.blocks@)))),
        model_of(st) == scan(live_intervals(body_statements(view_blocks(cfg.blocks@))), num_registers),
{
    let intervals = compute_live_intervals(cfg);
    let mut registers = index_set_new();
    let mut r: usize = num_registers;
    while r > 0
        invariant
            r <= num_registers,
            index_set_items(registers) == Seq::new((num_registers - r) as nat, |j: int| (num_registers - 1 - j) as usize),
        decreases r,
    {
        r = r - 1;
        proof {
            assert(!index_set_items(registers).contains(r)) by {
                if index_set_items(registers).contains(r) {
                    let j = choose|j: int| 0 <= j < index_set_items(registers).len() && index_set_items(registers)[j] == r;
                }
            }
        }
        index_set_insert(&mut registers, r);
        assert(index_set_items(registers) =~= Seq::new((num_registers - r) as nat, |j: int| (num_registers - 1 - j) as usize));
    }
    let mut state = AllocState { active: Vec::new(), registers, register: Vec::new(), location: Vec::new() };
    proof {
        let items = index_set_items(state.registers);
        assert(items.len() == num_registers);
        assert(items.no_duplicates()) by {
            assert forall|a: int, b: int| 0 <= a < items.len() && 0 <= b < items.len() && a != b implies items[a] != items[b] by {}
        }
        reveal(model_of);
        let m = model_of(state);
        assert(m.reg =~= Map::<Oper, usize>::empty());
        assert(m.spilled =~= Set::<Oper>::empty());
        assert(m.active =~= Seq::<Interval>::empty());
        assert(m == scan_upto(intervals@, 0, num_registers));
    }
    proof {
        lemma_live_starts(body_statements(view_blocks(cfg.blocks@)));
    }
    let ghost mut horizon: int = 0;
    let mut t: usize = 0;
    while t < intervals.len()
        invariant
            t <= intervals@.len(),
            opers_distinct(intervals@),
            intervals@ == live_intervals(body_statements(view_blocks(cfg.blocks@))),
            num_registers > 0,
            alloc_inv(state, num_registers),
            forall|u: int| 0 <= u < t ==> has_key(state.register@, (#[trigger] intervals@[u]).oper) || has_key(state.location@, intervals@[u].oper),
            forall|o: Oper| #[trigger] has_key(state.register@, o) ==> exists|u: int| 0 <= u < t && (#[trigger] intervals@[u]).oper == o,
            forall|o: Oper| #[trigger] has_key(state.location@, o) ==> exists|u: int| 0 <= u < t && (#[trigger] intervals@[u]).oper == o,
            starts_sorted(intervals@),
            forall|v: int| t <= v < intervals@.len() ==> horizon <= (#[trigger] intervals@[v]).start,
            forall|k: int| 0 <= k < state.active@.len() ==> intervals@.take(t as int).contains(#[trigger] state.active@[k]),
            forall|u: int| 0 <= u < t && has_key(state.register@, (#[trigger] intervals@[u]).oper)
                ==> state.active@.contains(intervals@[u]) || intervals@[u].end < horizon,
            no_shared_register(intervals@.take(t as int), state.register@),
            model_of(state) == scan_upto(intervals@, t as int, num_registers),
        decreases intervals@.len() - t,
    {
        let i = intervals[t];
        let ghost before = state;
        proof {
            assert(!has_key(state.register@, i.oper)) by {
                if has_key(state.register@, i.oper) {
                    let u = choose|u: int| 0 <= u < t && (#[trigger] intervals@[u]).oper == i.oper;
                    assert(intervals@[u].oper != intervals@[t as int].oper);
                }
            }
            assert(!has_key(state.location@, i.oper)) by {
                if has_key(state.location@, i.oper) {
                    let u = choose|u: int| 0 <= u < t && (#[trigger] intervals@[u]).oper == i.oper;
                    assert(intervals@[u].oper != intervals@[t as int].oper);
                }
            }
        }
        expire_old_intervals(&i, &mut state, num_registers);
        let ghost mid = state;
        let ghost ivs = intervals@;
        let ghost horizon1: int = if before.active@.len() > 0 && mid.active@.len() == 0 { i.start as int } else { horizon };
        proof {
            assert(i == ivs[t as int]);
            assert forall|v: int| t <= v < ivs.len() implies horizon1 <= (#[trigger] ivs[v]).start by {
                assert(ivs[t as int].start <= ivs[v].start);
            }
            assert forall|u: int| 0 <= u < t && has_key(mid.register@, (#[trigger] ivs[u]).oper)
                implies mid.active@.contains(ivs[u]) || ivs[u].end < horizon1 by {
                if before.active@.contains(ivs[u]) && !mid.active@.contains(ivs[u]) {
                    let k = choose|k: int| 0 <= k < before.active@.len() && before.active@[k] == ivs[u];
                    assert(before.active@[k].end < i.start);
                }
            }
        }
        if state.active.len() == num_registers {
            spill_at_interval(&i, &mut state, num_registers);
            proof {
                let sp = mid.active@.last();
                if sp.end > i.end {
                    assert(mid.active@.contains(sp));
                    assert(has_key(mid.register@, sp.oper));
                    assert forall|u: int| 0 <= u < t && has_key(state.register@, (#[trigger] ivs[u]).oper)
                        implies mid.active@.drop_last().contains(ivs[u]) || ivs[u].end < horizon1 by {
                        assert(ivs[u].oper != i.oper);
                        assert(ivs[u].oper != sp.oper);
                        assert(has_key(mid.register@, ivs[u].oper));
                        if mid.active@.contains(ivs[u]) {
                            let k = choose|k: int| 0 <= k < mid.active@.len() && mid.active@[k] == ivs[u];
                            assert(k != mid.active@.len() - 1);
                            assert(mid.active@.drop_last()[k] == ivs[u]);
                        }
                    }
                    lemma_scan_pairs(ivs, t as int, mid.register@, state.register@, mid.active@.drop_last(), horizon1);
                } else {
                    assert(!has_key(state.register@, i.oper));
                    assert(ivs.take(t + 1).drop_last() =~= ivs.take(t as int));
                    assert forall|u: int, v: int|
                        #![trigger ivs.take(t + 1)[u], ivs.take(t + 1)[v]]
                        0 <= u < v < t + 1 && has_key(state.register@, ivs.take(t + 1)[u].oper) && has_key(state.register@, ivs.take(t + 1)[v].oper)
                            && overlap(ivs.take(t + 1)[u], ivs.take(t + 1)[v]) implies
                        lookup(state.register@, ivs.take(t + 1)[u].oper) != lookup(state.register@, ivs.take(t + 1)[v].oper) by {
                        assert(ivs.take(t as int)[u] == ivs[u]);
                        assert(ivs.take(t as int)[v] == ivs[v]);
                    }
                }
            }
        } else {
            allocate_register(&i, &mut state, num_registers);
            proof {
                assert forall|u: int| 0 <= u < t && has_key(state.register@, (#[trigger] ivs[u]).oper)
                    implies mid.active@.contains(ivs[u]) || ivs[u].end < horizon1 by {
                    assert(ivs[u].oper != i.oper);
                }
                lemma_scan_pairs(ivs, t as int, mid.register@, state.register@, mid.active@, horizon1);
            }
        }
        proof {
            assert forall|k: int| 0 <= k < state.active@.len() implies ivs.take(t + 1).contains(#[trigger] state.active@[k]) by {
                let a = state.active@[k];
                if a == i {
                    assert(ivs.take(t + 1)[t as int] == a);
                } else {
                    assert(mid.active@.contains(a)) by {
                        if mid.active@.len() > 0 && mid.active@.drop_last().contains(a) {
                            let j = choose|j: int| 0 <= j < mid.active@.drop_last().len() && mid.active@.drop_last()[j] == a;
                            assert(mid.active@[j] == a);
                        }
                    }
                    let j = choose|j: int| 0 <= j < mid.active@.len() && mid.active@[j] == a;
                    assert(ivs.take(t as int).contains(mid.active@[j]));
                    let m = choose|m: int| 0 <= m < ivs.take(t as int).len() && ivs.take(t as int)[m] == a;
                    assert(ivs.take(t + 1)[m] == a);
                }
            }
            horizon = horizon1;
        }
        proof {
            assert forall|u: int| 0 <= u < t + 1 implies has_key(state.register@, (#[trigger] intervals@[u]).oper) || has_key(state.location@, intervals@[u].oper) by {
                if u < t {
                    assert(has_key(before.register@, intervals@[u].oper) || has_key(before.location@, intervals@[u].oper));
                }
            }
            assert forall|o: Oper| #[trigger] has_key(state.register@, o) implies exists|u: int| 0 <= u < t + 1 && (#[trigger] intervals@[u]).oper == o by {
                if o == i.oper {
                    assert(intervals@[t as int].oper == o);
                } else {
                    assert(has_key(before.register@, o));
                    let u = choose|u: int| 0 <= u < t && (#[trigger] intervals@[u]).oper == o;
                    assert(0 <= u < t + 1);
                }
            }
            assert forall|o: Oper| #[trigger] has_key(state.location@, o) implies exists|u: int| 0 <= u < t + 1 && (#[trigger] intervals@[u]).oper == o by {
                if o == i.oper {
                    assert(intervals@[t as int].oper == o);
                } else if has_key(before.location@, o) {
                    let u = choose|u: int| 0 <= u < t && (#[trigger] intervals@[u]).oper == o;
                    assert(0 <= u < t + 1);
                } else {
                    assert(has_key(before.register@, o));
                    let u = choose|u: int| 0 <= u < t && (#[trigger] intervals@[u]).oper == o;
                    assert(0 <= u < t + 1);
                }
            }
        }
        t = t + 1;
    }
    assert(intervals@.take(intervals@.len() as int) =~= intervals@);
    assert(model_of(state) == scan(intervals@, num_registers));
    state
}

/// Gives `i` the last free register and makes it active.
fn allocate_register(i: &Interval, state: &mut AllocState, num: usize)
    requires
        alloc_inv(*old(state), num),
        old(state).active@.len() < num,
        !has_key(old(state).register@, i.oper),
        !has_key(old(state).location@, i.oper),
    ensures
        alloc_inv(*final(state), num),
        has_key(final(state).register@, i.oper),
        final(state).location == old(state).location,
        forall|o: Oper| #[trigger] has_key(old(state).register@, o) ==> has_key(final(state).register@, o),
        forall|o: Oper| #[trigger] has_key(final(state).register@, o) ==> has_key(old(state).register@, o) || o == i.oper,
        forall|o: Oper| o != i.oper ==> #[trigger] lookup(final(state).register@, o) == lookup(old(state).register@, o),
        forall|k: int| 0 <= k < old(state).active@.len() ==> lookup(final(state).register@, i.oper) != reg_of(old(state).register@, #[trigger] old(state).active@[k]),
        forall|k: int| 0 <= k < final(state).active@.len() ==> (#[trigger] final(state).active@[k]) == *i || old(state).active@.contains(final(state).active@[k]),
        forall|k: int| 0 <= k < old(state).active@.len() ==> final(state).active@.contains(#[trigger] old(state).active@[k]),
        final(state).active@.contains(*i),
        model_of(*final(state)) == scan_place(model_of(*old(state)), *i, num),
{
    let i = *i;
        let popped = index_set_pop(&mut state.registers);
        let reg = match popped {
            Some(x) => x,
            None => 0,
        };
        let ghost items_before = index_set_items(old(state).registers);
        let ghost reg0 = state.register@;
        let ghost act = state.active@;
        assoc_set(&mut state.register, i.oper, reg);
        proof {
            assert forall|k: int| 0 <= k < act.len() implies (#[trigger] act[k]).oper != i.oper by {
                assert(has_key(reg0, act[k].oper));
            }
        }
        insert_sorted(&mut state.active, i);
        proof {
            let fin = state.active@;
            let items = index_set_items(state.registers);
            let regm = state.register@;
            let p = choose|p: int| 0 <= p <= act.len() && fin == act.take(p).push(i) + act.skip(p)
                && (forall|k: int| 0 <= k < p ==> (#[trigger] act[k]).end <= i.end)
                && (forall|k: int| p <= k < act.len() ==> (#[trigger] act[k]).end > i.end);
            assert forall|k: int| 0 <= k < fin.len() implies #[trigger] fin[k] == (if k < p { act[k] } else if k == p { i } else { act[k - 1] }) by {
                if k < p {
                    assert(fin[k] == act.take(p)[k]);
                } else if k > p {
                    assert(fin[k] == act.skip(p)[k - p - 1]);
                }
            }
            assert forall|k: int| 0 <= k < fin.len() implies has_key(regm, (#[trigger] fin[k]).oper) && reg_of(regm, fin[k])
                == (if k == p { reg } else if k < p { reg_of(reg0, act[k]) } else { reg_of(reg0, act[k - 1]) }) by {
                if k < p {
                    assert(act[k].oper != i.oper);
                    assert(has_key(reg0, act[k].oper));
                } else if k > p {
                    assert(act[k - 1].oper != i.oper);
                    assert(has_key(reg0, act[k - 1].oper));
                }
            }
            let old_items = index_set_items(old(state).registers);
            assert(!items.contains(reg)) by {
                if items.contains(reg) {
                    let j = choose|j: int| 0 <= j < items.len() && items[j] == reg;
                }
            }
            assert forall|k1: int, k2: int| 0 <= k1 < k2 < fin.len() implies reg_of(regm, #[trigger] fin[k1]) != reg_of(regm, #[trigger] fin[k2]) by {
                if k1 == p {
                    let a2 = if k2 < p { k2 } else { k2 - 1 };
                    assert(reg_of(regm, fin[k2]) == reg_of(reg0, act[a2]));
                } else if k2 == p {
                    let a1 = if k1 < p { k1 } else { k1 - 1 };
                    assert(reg_of(regm, fin[k1]) == reg_of(reg0, act[a1]));
                } else {
                    let a1 = if k1 < p { k1 } else { k1 - 1 };
                    let a2 = if k2 < p { k2 } else { k2 - 1 };
                    assert(reg_of(regm, fin[k1]) == reg_of(reg0, act[a1]));
                    assert(reg_of(regm, fin[k2]) == reg_of(reg0, act[a2]));
                }
            }
            assert forall|k: int| 0 <= k < fin.len() implies !items.contains(reg_of(regm, #[trigger] fin[k])) && reg_of(regm, fin[k]) < num by {
                if k != p {
                    let a = if k < p { k } else { k - 1 };
                    assert(reg_of(regm, fin[k]) == reg_of(reg0, act[a]));
                }
            }
            assert forall|o: Oper| #[trigger] has_key(regm, o) implies lookup(regm, o) < num by {
                if o != i.oper {
                    assert(has_key(reg0, o));
                }
            }
            assert forall|k: int| 0 <= k < act.len() implies reg != reg_of(reg0, #[trigger] act[k]) by {
                let kk = if k < p { k } else { k + 1 };
                assert(fin[kk] == act[k]);
                if kk < p {
                    assert(reg_of(regm, fin[kk]) != reg_of(regm, fin[p]));
                } else {
                    assert(reg_of(regm, fin[p]) != reg_of(regm, fin[kk]));
                }
            }
            assert forall|k: int| 0 <= k < fin.len() implies (#[trigger] fin[k]) == i || act.contains(fin[k]) by {
                if k < p {
                    assert(act[k] == fin[k]);
                } else if k > p {
                    assert(act[k - 1] == fin[k]);
                }
            }
            assert forall|k: int| 0 <= k < act.len() implies fin.contains(#[trigger] act[k]) by {
                let kk = if k < p { k } else { k + 1 };
                assert(fin[kk] == act[k]);
            }
            assert(fin[p] == i);
        }
        proof {
            reveal(model_of);
            let m0 = model_of(*old(state));
            let m1 = model_of(*state);
            assert(m0.active.len() < num);
            assert(m0.free.len() > 0);
            assert(m1.active == sorted_insert(m0.active, i));
            assert(m1.free == m0.free.drop_last());
            assert(m1.reg =~= m0.reg.insert(i.oper, m0.free.last()));
            assert(m1.spilled =~= m0.spilled);
        }
    }

/// The blocks after replacing each operand `subs[k].0` by `subs[k].1`,
/// in order.
pub open spec fn apply_substs(bs: Seq<BlockView>, subs: Seq<(Oper, Oper)>) -> Seq<BlockView>
    decreases subs.len(),
{
    if subs.len() == 0 {
        bs
    } else {
        apply_substs(bs, subs.drop_last()).map_values(|blk: BlockView| block_subst(blk, subs.last().0, subs.last().1))
    }
}

/// Some substitution replaces `o`.
pub open spec fn substituted(subs: Seq<(Oper, Oper)>, o: Oper) -> bool {
    exists|k: int| 0 <= k < subs.len() && (#[trigger] subs[k]).0 == o
}

proof fn lemma_keys_bound(l: Seq<(Oper, usize)>, ivs: Seq<Interval>)
    requires
        keys_unique(l),
        forall|o: Oper| #[trigger] has_key(l, o) ==> exists|u: int| 0 <= u < ivs.len() && (#[trigger] ivs[u]).oper == o,
    ensures
        l.len() <= ivs.len(),
{
    let ks = l.map_values(|p: (Oper, usize)| p.0);
    let os = ivs.map_values(|i: Interval| i.oper);
    assert(ks.no_duplicates()) by {
        assert forall|a: int, b: int| 0 <= a < ks.len() && 0 <= b < ks.len() && a != b implies ks[a] != ks[b] by {
            if a < b {
                assert(l[a].0 != l[b].0);
            } else {
                assert(l[b].0 != l[a].0);
            }
        }
    }
    ks.unique_seq_to_set();
    os.lemma_cardinality_of_set();
    assert(ks.to_set().subset_of(os.to_set())) by {
        assert forall|o: Oper| ks.to_set().contains(o) implies os.to_set().contains(o) by {
            let a = choose|a: int| 0 <= a < ks.len() && ks[a] == o;
            assert(l[a].0 == o);
            assert(has_key(l, o));
            let u = choose|u: int| 0 <= u < ivs.len() && (#[trigger] ivs[u]).oper == o;
            assert(os[u] == o);
        }
    }
    vstd::set_lib::lemma_len_subset(ks.to_set(), os.to_set());
}

/// No two operands that the substitution sends to the same register have
/// overlapping live intervals.
pub open spec fn registers_apart(ivs: Seq<Interval>, subs: Seq<(Oper, Oper)>) -> bool {
    forall|k1: int, k2: int|
        0 <= k1 < subs.len() && 0 <= k2 < subs.len() && k1 != k2 && (#[trigger] subs[k1]).1 is Register
            && subs[k1].1 == (#[trigger] subs[k2]).1
            ==> !overlap(interval_of(ivs, subs[k1].0), interval_of(ivs, subs[k2].0))
}

/// A substitution that follows the scan `m`: an operand it gives a
/// register is replaced by that register, one it sends to the stack by a
/// stack slot.
pub open spec fn subst_from_scan(m: ScanModel, sub: (Oper, Oper)) -> bool {
    match sub.1 {
        Oper::Register(r) => m.reg.contains_key(sub.0) && m.reg[sub.0] == r,
        Oper::StackLocation(_) => m.spilled.contains(sub.0),
        _ => false,
    }
}

/// Allocates registers to the operands of the blocks' statements and
/// rewrites the code: an operand given a register is replaced by it, and
/// each operand sent to the stack by a fresh stack slot, numbered on from
/// `stack_loc`.
pub fn register_allocation(cfg: &mut CFG, num_registers: usize, stack_loc: &mut usize)
    requires
        body_statements(view_blocks(old(cfg).blocks@)).len() < usize::MAX,
        num_registers > 0,
        *old(stack_loc) + live_intervals(body_statements(view_blocks(old(cfg).blocks@))).len() <= usize::MAX,
    ensures
        *final(stack_loc) >= *old(stack_loc),
        final(cfg).graph == old(cfg).graph,
        final(cfg).uses == old(cfg).uses,
        final(cfg).def == old(cfg).def,
        final(cfg).stack_offset == old(cfg).stack_offset,
        exists|subs: Seq<(Oper, Oper)>| {
            &&& view_blocks(final(cfg).blocks@) == apply_substs(view_blocks(old(cfg).blocks@), subs)
            &&& forall|k: int| 0 <= k < subs.len() ==> match (#[trigger] subs[k]).1 {
                Oper::Register(r) => r < num_registers,
                Oper::StackLocation(l) => *old(stack_loc) <= l < *final(stack_loc),
                _ => false,
            }
            &&& forall|t: int| 0 <= t < live_intervals(body_statements(view_blocks(old(cfg).blocks@))).len()
                ==> substituted(subs, (#[trigger] live_intervals(body_statements(view_blocks(old(cfg).blocks@)))[t]).oper)
            &&& registers_apart(live_intervals(body_statements(view_blocks(old(cfg).blocks@))), subs)
            &&& forall|k: int| 0 <= k < subs.len() ==> subst_from_scan(scan(live_intervals(body_statements(view_blocks(old(cfg).blocks@))), num_registers), #[trigger] subs[k])
            &&& forall|o: Oper| #![trigger scan(live_intervals(body_statements(view_blocks(old(cfg).blocks@))), num_registers).reg.contains_key(o)]
                #![trigger scan(live_intervals(body_statements(view_blocks(old(cfg).blocks@))), num_registers).spilled.contains(o)]
                scan(live_intervals(body_statements(view_blocks(old(cfg).blocks@))), num_registers).reg.contains_key(o)
                || scan(live_intervals(body_statements(view_blocks(old(cfg).blocks@))), num_registers).spilled.contains(o) ==> substituted(subs, o)
        },
{
    let ghost ivs = live_intervals(body_statements(view_blocks(cfg.blocks@)));
    let ghost bs0 = view_blocks(cfg.blocks@);
    let state = linear_scan_register_allocation(cfg, num_registers);
    let ghost st0 = state;
    let register = state.register;
    let mut location = state.location;
    let ghost loc0 = location@;
    let ghost mut subs: Seq<(Oper, Oper)> = Seq::empty();
    let mut k: usize = 0;
    while k < register.len()
        invariant
            k <= register@.len(),
            keys_unique(register@),
            keys_unique(location@),
            forall|o: Oper| #[trigger] has_key(register@, o) ==> lookup(register@, o) < num_registers,
            forall|o: Oper| #[trigger] has_key(location@, o) ==> exists|u: int| 0 <= u < ivs.len() && (#[trigger] ivs[u]).oper == o,
            forall|o: Oper| #[trigger] has_key(loc0, o) ==> has_key(location@, o) || substituted(subs, o),
            forall|o: Oper| #[trigger] has_key(location@, o) ==> has_key(loc0, o),
            forall|j: int| 0 <= j < k ==> substituted(subs, (#[trigger] register@[j]).0),
            forall|t: int| 0 <= t < ivs.len() ==> has_key(register@, (#[trigger] ivs[t]).oper) || has_key(loc0, ivs[t].oper),
            subs.len() == k,
            forall|q: int| 0 <= q < k ==> #[trigger] subs[q] == (register@[q].0, Oper::Register(register@[q].1)),
            forall|q: int| 0 <= q < subs.len() ==> match (#[trigger] subs[q]).1 {
                Oper::Register(r) => r < num_registers,
                _ => false,
            },
            view_blocks(cfg.blocks@) == apply_substs(bs0, subs),
            cfg.graph == old(cfg).graph,
            cfg.uses == old(cfg).uses,
            cfg.def == old(cfg).def,
            cfg.stack_offset == old(cfg).stack_offset,
        decreases register@.len() - k,
    {
        let (oper, reg) = register[k];
        proof {
            lemma_unique_lookup(register@, k as int);
        }
        assoc_remove(&mut location, oper);
        let ghost before = view_blocks(cfg.blocks@);
        cfg.replace_all_operand_with(&oper, &Oper::Register(reg));
        proof {
            let old_subs = subs;
            subs = subs.push((oper, Oper::Register(reg)));
            assert(subs.drop_last() =~= old_subs);
            assert(subs[subs.len() - 1] == (oper, Oper::Register(reg)));
            assert forall|o: Oper| #[trigger] has_key(loc0, o) implies has_key(location@, o) || substituted(subs, o) by {
                if substituted(old_subs, o) {
                    let q = choose|q: int| 0 <= q < old_subs.len() && (#[trigger] old_subs[q]).0 == o;
                    assert(subs[q] == old_subs[q]);
                } else if o == oper {
                    assert(subs[subs.len() - 1].0 == o);
                }
            }
            assert forall|j: int| 0 <= j < k + 1 implies substituted(subs, (#[trigger] register@[j]).0) by {
                if j < k {
                    let q = choose|q: int| 0 <= q < old_subs.len() && (#[trigger] old_subs[q]).0 == register@[j].0;
                    assert(subs[q] == old_subs[q]);
                } else {
                    assert(subs[subs.len() - 1].0 == register@[j].0);
                }
            }
            assert forall|q: int| 0 <= q < subs.len() implies match (#[trigger] subs[q]).1 {
                Oper::Register(r) => r < num_registers,
                _ => false,
            } by {
                if q < old_subs.len() {
                    assert(subs[q] == old_subs[q]);
                } else {
                    assert(has_key(register@, oper));
                }
            }
            assert forall|q: int| 0 <= q < k + 1 implies #[trigger] subs[q] == (register@[q].0, Oper::Register(register@[q].1)) by {
                if q < k {
                    assert(subs[q] == old_subs[q]);
                }
            }
        }
        k = k + 1;
    }
    let ghost subs1 = subs;
    let ghost start = *stack_loc;
    proof {
        lemma_keys_bound(location@, ivs);
    }
    let mut k: usize = 0;
    while k < location.len()
        invariant
            k <= location@.len(),
            start == *old(stack_loc),
            *stack_loc == start + k,
            start + ivs.len() <= usize::MAX,
            location@.len() <= ivs.len(),
            subs.len() == subs1.len() + k,
            forall|q: int| 0 <= q < subs1.len() ==> #[trigger] subs[q] == subs1[q],
            forall|q: int| 0 <= q < subs1.len() ==> match (#[trigger] subs1[q]).1 {
                Oper::Register(r) => r < num_registers,
                _ => false,
            },
            forall|q: int| subs1.len() <= q < subs.len() ==> match (#[trigger] subs[q]).1 {
                Oper::StackLocation(l) => start <= l < *stack_loc,
                _ => false,
            },
            forall|j: int| 0 <= j < k ==> substituted(subs, (#[trigger] location@[j]).0),
            forall|j: int| 0 <= j < k ==> #[trigger] subs[subs1.len() + j].0 == location@[j].0,
            forall|o: Oper| #[trigger] has_key(location@, o) ==> has_key(loc0, o),
            view_blocks(cfg.blocks@) == apply_substs(bs0, subs),
            cfg.graph == old(cfg).graph,
            cfg.uses == old(cfg).uses,
            cfg.def == old(cfg).def,
            cfg.stack_offset == old(cfg).stack_offset,
        decreases location@.len() - k,
    {
        let (oper, _) = location[k];
        let loc = *stack_loc;
        *stack_loc = loc + 1;
        cfg.replace_all_operand_with(&oper, &Oper::StackLocation(loc));
        proof {
            let old_subs = subs;
            subs = subs.push((oper, Oper::StackLocation(loc)));
            assert(subs.drop_last() =~= old_subs);
            assert forall|j: int| 0 <= j < k + 1 implies substituted(subs, (#[trigger] location@[j]).0) by {
                if j < k {
                    let q = choose|q: int| 0 <= q < old_subs.len() && (#[trigger] old_subs[q]).0 == location@[j].0;
                    assert(subs[q] == old_subs[q]);
                } else {
                    assert(subs[subs.len() - 1].0 == location@[j].0);
                }
            }
            assert forall|q: int| subs1.len() <= q < subs.len() implies match (#[trigger] subs[q]).1 {
                Oper::StackLocation(l) => start <= l < *stack_loc,
                _ => false,
            } by {
                if q < old_subs.len() {
                    assert(subs[q] == old_subs[q]);
                }
            }
            assert forall|j: int| 0 <= j < k + 1 implies #[trigger] subs[subs1.len() + j].0 == location@[j].0 by {
                if j < k {
                    assert(subs[subs1.len() + j] == old_subs[subs1.len() + j]);
                }
            }
        }
        k = k + 1;
    }
    proof {
        assert forall|q: int| 0 <= q < subs.len() implies match (#[trigger] subs[q]).1 {
            Oper::Register(r) => r < num_registers,
            Oper::StackLocation(l) => *old(stack_loc) <= l < *stack_loc,
            _ => false,
        } by {
            if q < subs1.len() {
                assert(subs[q] == subs1[q]);
                assert(match subs1[q].1 {
                    Oper::Register(r) => r < num_registers,
                    _ => false,
                });
            }
        }
        assert forall|k1: int, k2: int|
            0 <= k1 < subs.len() && 0 <= k2 < subs.len() && k1 != k2 && (#[trigger] subs[k1]).1 is Register
                && subs[k1].1 == (#[trigger] subs[k2]).1
            implies !overlap(interval_of(ivs, subs[k1].0), interval_of(ivs, subs[k2].0)) by {
            assert(k1 < subs1.len()) by {
                if k1 >= subs1.len() {
                    assert(subs[k1].1 is StackLocation);
                }
            }
            assert(k2 < subs1.len()) by {
                if k2 >= subs1.len() {
                    assert(subs[k2].1 is StackLocation);
                }
            }
            assert(subs[k1] == subs1[k1] && subs[k2] == subs1[k2]);
            let o1 = register@[k1].0;
            let o2 = register@[k2].0;
            lemma_unique_lookup(register@, k1);
            lemma_unique_lookup(register@, k2);
            assert(o1 != o2);
            assert(has_key(register@, o1) && has_key(register@, o2));
            let u1 = iv_index(ivs, o1);
            let u2 = iv_index(ivs, o2);
            assert(ivs[u1].oper == o1 && ivs[u2].oper == o2);
            if u1 < u2 {
                assert(lookup(register@, ivs[u1].oper) != lookup(register@, ivs[u2].oper) || !overlap(ivs[u1], ivs[u2]));
            } else {
                assert(lookup(register@, ivs[u2].oper) != lookup(register@, ivs[u1].oper) || !overlap(ivs[u2], ivs[u1]));
            }
        }
        assert forall|t: int| 0 <= t < ivs.len() implies substituted(subs, (#[trigger] ivs[t]).oper) by {
            let o = ivs[t].oper;
            if has_key(register@, o) {
                let j = choose|j: int| 0 <= j < register@.len() && (#[trigger] register@[j]).0 == o;
                assert(substituted(subs1, register@[j].0));
                let q = choose|q: int| 0 <= q < subs1.len() && (#[trigger] subs1[q]).0 == o;
                assert(subs[q] == subs1[q]);
            } else {
                assert(has_key(loc0, o));
                if has_key(location@, o) {
                    let j = choose|j: int| 0 <= j < location@.len() && (#[trigger] location@[j]).0 == o;
                    assert(substituted(subs, location@[j].0));
                } else {
                    assert(substituted(subs1, o));
                    let q = choose|q: int| 0 <= q < subs1.len() && (#[trigger] subs1[q]).0 == o;
                    assert(subs[q] == subs1[q]);
                }
            }
        }
        reveal(model_of);
        let m = scan(ivs, num_registers);
        assert(model_of(st0) == m);
        assert forall|q: int| 0 <= q < subs.len() implies subst_from_scan(m, #[trigger] subs[q]) by {
            if q < subs1.len() {
                assert(subs[q] == subs1[q]);
                lemma_unique_lookup(register@, q);
                assert(has_key(register@, register@[q].0));
            } else {
                let j = q - subs1.len();
                assert(subs[subs1.len() + j].0 == location@[j].0);
                assert(has_key(location@, location@[j].0));
                assert(has_key(loc0, subs[q].0));
            }
        }
        assert forall|o: Oper| m.reg.contains_key(o) || m.spilled.contains(o) implies substituted(subs, o) by {
            let u = choose|u: int| 0 <= u < ivs.len() && (#[trigger] ivs[u]).oper == o;
            assert(substituted(subs, ivs[u].oper));
        }
    }
}

} // verus!
