use vstd::prelude::*;

verus! {

/// A table of interned strings: each distinct string gets the index at
/// which it was first interned.
pub struct Interner {
    vec: Vec<String>,
}

/// No string occurs twice in the table.
pub open spec fn distinct_strings(t: Seq<Seq<char>>) -> bool {
    forall|i: int, j: int| 0 <= i < t.len() && 0 <= j < t.len() && i != j ==> t[i] != t[j]
}

/// The index that interning `s` into the table `t` gives.
pub open spec fn intern_index(t: Seq<Seq<char>>, s: Seq<char>) -> int {
    if t.contains(s) {
        t.index_of(s)
    } else {
        t.len() as int
    }
}

/// The table after interning `s` into `t`.
pub open spec fn intern_table(t: Seq<Seq<char>>, s: Seq<char>) -> Seq<Seq<char>> {
    if t.contains(s) {
        t
    } else {
        t.push(s)
    }
}

impl View for Interner {
    type V = Seq<Seq<char>>;

    closed spec fn view(&self) -> Seq<Seq<char>> {
        self.vec@.map_values(|s: String| s@)
    }
}

impl Interner {
    /// The table is well formed: no string occurs twice.
    pub open spec fn wf(&self) -> bool {
        distinct_strings(self@)
    }

    pub fn new() -> (r: Self)
        ensures
            r@ == Seq::<Seq<char>>::empty(),
            r.wf(),
    {
        let r = Interner { vec: Vec::new() };
        assert(r@ =~= Seq::<Seq<char>>::empty());
        r
    }

    /// The index of `s` in the table, adding it at the end if it is new.
    pub fn intern(&mut self, s: String) -> (r: usize)
        requires
            old(self).wf(),
        ensures
            final(self).wf(),
            r == intern_index(old(self)@, s@),
            final(self)@ == intern_table(old(self)@, s@),
            r < final(self)@.len(),
            final(self)@[r as int] == s@,
    {
        let n = self.vec.len();
        let mut i: usize = 0;
        while i < n
            invariant
                n == self.vec@.len(),
                0 <= i <= n,
                forall|k: int| 0 <= k < i ==> self@[k] != s@,
                self@.len() == n,
                self@ == old(self)@,
                distinct_strings(self@),
            decreases n - i,
        {
            if self.vec[i] == s {
                proof {
                    assert(self@[i as int] == s@);
                    assert(self@.contains(s@));
                    let j = self@.index_of(s@);
                    assert(self@[j] == s@);
                    assert(j == i as int);
                }
                return i;
            }
            i = i + 1;
        }
        proof {
            assert(!self@.contains(s@));
        }
        let ghost old_view = self@;
        self.vec.push(s);
        proof {
            assert(self@ =~= old_view.push(s@));
            lemma_intern_then_get(old_view, s@);
        }
        n
    }

    /// The string with index `i`.
    pub fn get(&self, i: usize) -> (r: String)
        requires
            i < self@.len(),
        ensures
            r@ == self@[i as int],
    {
        self.vec[i].clone()
    }

    pub fn len(&self) -> (r: usize)
        ensures
            r == self@.len(),
    {
        self.vec.len()
    }
}

/// Interns `s` in `interner` and gives its index.
pub fn intern_string(interner: &mut Interner, s: String) -> (r: usize)
    requires
        old(interner).wf(),
    ensures
        final(interner).wf(),
        r == intern_index(old(interner)@, s@),
        final(interner)@ == intern_table(old(interner)@, s@),
{
    interner.intern(s)
}

/// The string interned at index `i`.
pub fn get_string(interner: &Interner, i: usize) -> (r: String)
    requires
        i < interner@.len(),
    ensures
        r@ == interner@[i as int],
{
    interner.get(i)
}

/// Interning a string and reading back its index gives the string.
pub proof fn lemma_intern_then_get(t: Seq<Seq<char>>, s: Seq<char>)
    requires
        distinct_strings(t),
    ensures
        intern_table(t, s)[intern_index(t, s)] == s,
        distinct_strings(intern_table(t, s)),
        t.is_prefix_of(intern_table(t, s)),
{
    if t.contains(s) {
        let j = t.index_of(s);
        assert(t[j] == s);
        assert(t.is_prefix_of(t));
    } else {
        assert(t.is_prefix_of(t.push(s)));
        assert forall|i: int, j: int|
            0 <= i < t.push(s).len() && 0 <= j < t.push(s).len() && i != j implies t.push(s)[i]
            != t.push(s)[j] by {
            if i == t.len() {
                assert(t.push(s)[j] == t[j]);
                assert(t.contains(t[j]));
            } else if j == t.len() {
                assert(t.contains(t[i]));
            }
        }
    }
}

/// Interning the same string twice gives the same index and leaves the
/// table as the first interning left it.
pub proof fn lemma_intern_idempotent(t: Seq<Seq<char>>, s: Seq<char>)
    requires
        distinct_strings(t),
    ensures
        intern_index(intern_table(t, s), s) == intern_index(t, s),
        intern_table(intern_table(t, s), s) == intern_table(t, s),
{
    lemma_intern_then_get(t, s);
    let t2 = intern_table(t, s);
    let i = intern_index(t, s);
    assert(t2.contains(s)) by {
        assert(t2[i] == s);
    }
    let j = t2.index_of(s);
    assert(t2[j] == s);
    assert(i == j);
}

/// Distinct strings are interned at distinct indices.
pub proof fn lemma_intern_injective(t: Seq<Seq<char>>, a: Seq<char>, b: Seq<char>)
    requires
        distinct_strings(t),
        a != b,
    ensures
        intern_index(intern_table(t, a), b) != intern_index(t, a),
{
    lemma_intern_then_get(t, a);
    let t2 = intern_table(t, a);
    lemma_intern_then_get(t2, b);
    let ib = intern_index(t2, b);
    let ia = intern_index(t, a);
    assert(t2[ia] == a);
    if ib == ia {
        assert(intern_table(t2, b)[ib] == b);
        assert(intern_table(t2, b)[ia] == t2[ia]) by {
            assert(t2.is_prefix_of(intern_table(t2, b)));
        }
    }
}

} // verus!
