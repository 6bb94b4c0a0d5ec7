use vstd::prelude::*;
use std::collections::HashSet;
use crate::ir::{Oper, Expr, Stmt, StmtV};
use crate::graph::{DirectedGraph, add_member};
use std::collections::HashMap;
use crate::dominance::DominatorContext;
use crate::assoc::{has_key, lookup, lemma_lookup_first, lemma_lookup_update, lemma_lookup_push};
use crate::sets::elements;

verus! {

broadcast use vstd::std_specs::hash::group_hash_axioms;

/// A basic block: straight-line statements, with the label that opens it
/// and the jump that closes it.
#[derive(Clone, Debug)]
pub struct BasicBlock {
    pub statements: Vec<Stmt>,
    pub label: Option<Stmt>,
    pub goto: Option<Stmt>,
}

/// A basic block as a mathematical value.
pub struct BlockView {
    pub statements: Seq<StmtV>,
    pub label: Option<StmtV>,
    pub goto: Option<StmtV>,
}

pub open spec fn view_opt(s: Option<Stmt>) -> Option<StmtV> {
    match s {
        Some(x) => Some(x@),
        None => None,
    }
}

pub open spec fn view_stmts(ss: Seq<Stmt>) -> Seq<StmtV> {
    ss.map_values(|s: Stmt| s@)
}

pub open spec fn empty_block() -> BlockView {
    BlockView { statements: Seq::empty(), label: None, goto: None }
}

pub open spec fn view_block(b: BasicBlock) -> BlockView {
    BlockView { statements: view_stmts(b.statements@), label: view_opt(b.label), goto: view_opt(b.goto) }
}

/// The label number of a block that opens with a label or named label.
pub open spec fn label_of(b: BlockView) -> Option<usize> {
    match b.label {
        Some(StmtV::Label(l)) => Some(l),
        Some(StmtV::NamedLabel(l)) => Some(l),
        _ => None,
    }
}

/// The label that a block's closing jump or conditional jump goes to.
pub open spec fn jump_of(b: BlockView) -> Option<usize> {
    match b.goto {
        Some(StmtV::Jump(l)) => Some(l),
        Some(StmtV::CJump(_, l)) => Some(l),
        _ => None,
    }
}

/// The operands defined by a sequence of statements, in order.
pub open spec fn defs_of(ss: Seq<Stmt>) -> Seq<Oper>
    decreases ss.len(),
{
    if ss.len() == 0 {
        Seq::empty()
    } else {
        defs_of(ss.drop_last()) + ss.last().def_spec()
    }
}

impl BasicBlock {
    /// A block with no statements, label or jump.
    pub fn new() -> (r: Self)
        ensures
            view_block(r) == empty_block(),
    {
        let r = BasicBlock { statements: Vec::new(), label: None, goto: None };
        assert(view_stmts(r.statements@) =~= Seq::<StmtV>::empty());
        r
    }

    /// The number of the label that opens the block, if any.
    pub fn label(&self) -> (r: Option<usize>)
        ensures
            r == label_of(view_block(*self)),
    {
        match &self.label {
            Some(s) => match s {
                Stmt::Label(l) => Some(*l),
                Stmt::NamedLabel(l) => Some(*l),
                _ => None,
            },
            None => None,
        }
    }

    /// The label that the closing jump goes to, if any.
    pub fn jump(&self) -> (r: Option<usize>)
        ensures
            r == jump_of(view_block(*self)),
    {
        match &self.goto {
            Some(s) => match s {
                Stmt::Jump(l) => Some(*l),
                Stmt::CJump(_, l) => Some(*l),
                _ => None,
            },
            None => None,
        }
    }

    /// The operands that the block's statements define, in order.
    pub fn oper_defined(&self) -> (r: Vec<Oper>)
        ensures
            r@ == defs_of(self.statements@),
    {
        let mut variables: Vec<Oper> = Vec::new();
        let mut i: usize = 0;
        while i < self.statements.len()
            invariant
                i <= self.statements@.len(),
                variables@ == defs_of(self.statements@.take(i as int)),
            decreases self.statements@.len() - i,
        {
            assert(self.statements@.take(i + 1).drop_last() =~= self.statements@.take(i as int));
            let mut d = self.statements[i].def();
            variables.append(&mut d);
            i = i + 1;
        }
        assert(self.statements@.take(self.statements@.len() as int) =~= self.statements@);
        variables
    }

    /// Puts `statement` before the others.
    pub fn insert_at_beginning(&mut self, statement: Stmt)
        ensures
            final(self).statements@ == seq![statement] + old(self).statements@,
            final(self).label == old(self).label,
            final(self).goto == old(self).goto,
    {
        self.statements.insert(0, statement);
        assert(self.statements@ =~= seq![statement] + old(self).statements@);
    }

    /// Puts `statement` after the others.
    pub fn insert_at_end(&mut self, statement: Stmt)
        ensures
            final(self).statements@ == old(self).statements@.push(statement),
            final(self).label == old(self).label,
            final(self).goto == old(self).goto,
    {
        self.statements.push(statement);
    }
}

/// `m` with `idx` added to the set of `o`.
pub open spec fn add_one(m: Map<Oper, Set<usize>>, o: Oper, idx: usize) -> Map<Oper, Set<usize>> {
    m.insert(o, (if m.contains_key(o) { m[o] } else { Set::empty() }).insert(idx))
}

/// `m` with `idx` added to the set of each of `os`.
pub open spec fn add_all(m: Map<Oper, Set<usize>>, os: Seq<Oper>, idx: usize) -> Map<Oper, Set<usize>>
    decreases os.len(),
{
    if os.len() == 0 {
        m
    } else {
        add_one(add_all(m, os.drop_last(), idx), os.last(), idx)
    }
}

/// The state of splitting code into blocks: the blocks closed so far,
/// the block being filled, and for each operand the blocks that define
/// and that use it.
pub struct SplitState {
    pub blocks: Seq<BlockView>,
    pub cur: BlockView,
    pub def: Map<Oper, Set<usize>>,
    pub uses: Map<Oper, Set<usize>>,
}

/// One statement of the splitting: a label opens the current block, a
/// jump, call or conditional jump closes it, and anything else joins it
/// (an assignment also records what it defines and uses).
pub open spec fn split_step(st: SplitState, s: StmtV) -> SplitState {
    match s {
        StmtV::Label(_) => SplitState { cur: BlockView { label: Some(s), ..st.cur }, ..st },
        StmtV::NamedLabel(_) => SplitState { cur: BlockView { label: Some(s), ..st.cur }, ..st },
        StmtV::Jump(_) => SplitState { blocks: st.blocks.push(BlockView { goto: Some(s), ..st.cur }), cur: empty_block(), ..st },
        StmtV::Call(_, _) => SplitState { blocks: st.blocks.push(BlockView { goto: Some(s), ..st.cur }), cur: empty_block(), ..st },
        StmtV::CJump(_, _) => SplitState { blocks: st.blocks.push(BlockView { goto: Some(s), ..st.cur }), cur: empty_block(), ..st },
        StmtV::Tac(l, r) => SplitState {
            cur: BlockView { statements: st.cur.statements.push(s), ..st.cur },
            def: add_one(st.def, l, st.blocks.len() as usize),
            uses: add_all(st.uses, r.uses(), st.blocks.len() as usize),
            ..st
        },
        _ => SplitState { cur: BlockView { statements: st.cur.statements.push(s), ..st.cur }, ..st },
    }
}

pub open spec fn split_code(code: Seq<StmtV>) -> SplitState
    decreases code.len(),
{
    if code.len() == 0 {
        SplitState { blocks: Seq::empty(), cur: empty_block(), def: Map::empty(), uses: Map::empty() }
    } else {
        split_step(split_code(code.drop_last()), code.last())
    }
}

/// The basic blocks of `code`: the closed ones and the last one.
pub open spec fn blocks_of(code: Seq<StmtV>) -> Seq<BlockView> {
    split_code(code).blocks.push(split_code(code).cur)
}

/// For each label, the last of the first `k` blocks that it opens.
pub open spec fn label_map(bs: Seq<BlockView>, k: int) -> Map<usize, usize>
    decreases k,
{
    if k <= 0 {
        Map::empty()
    } else {
        match label_of(bs[k - 1]) {
            Some(l) => label_map(bs, k - 1).insert(l, (k - 1) as usize),
            None => label_map(bs, k - 1),
        }
    }
}

/// Every jump goes to a label that opens a block.
pub open spec fn jumps_resolved(bs: Seq<BlockView>) -> bool {
    forall|b: int| 0 <= b < bs.len() ==> match jump_of(#[trigger] bs[b]) {
        Some(l) => label_map(bs, bs.len() as int).contains_key(l),
        None => true,
    }
}

/// The blocks that block `b` jumps or falls through to.
pub open spec fn targets(bs: Seq<BlockView>, b: int) -> Set<usize> {
    let lm = label_map(bs, bs.len() as int);
    match bs[b].goto {
        Some(StmtV::CJump(_, l)) => if b + 1 < bs.len() {
            Set::empty().insert(lm[l]).insert((b + 1) as usize)
        } else {
            Set::empty().insert(lm[l])
        },
        Some(StmtV::Jump(l)) => Set::empty().insert(lm[l]),
        _ => Set::empty(),
    }
}

/// A control-flow graph: the basic blocks, the edges between them, and
/// for each operand the blocks that define and that use it.
pub struct CFG {
    pub blocks: Vec<BasicBlock>,
    pub graph: DirectedGraph,
    pub uses: Vec<(Oper, HashSet<usize>)>,
    pub def: Vec<(Oper, HashSet<usize>)>,
    pub stack_offset: usize,
    pub dom_ctx: DominatorContext,
}

/// An association list of index sets as a map.
pub open spec fn assoc_sets(l: Seq<(Oper, HashSet<usize>)>) -> Map<Oper, Set<usize>> {
    Map::new(|o: Oper| has_key(l, o), |o: Oper| lookup(l, o)@)
}

/// Adds `idx` to the set of `o`, adding an entry for `o` if it has none.
fn add_index(list: &mut Vec<(Oper, HashSet<usize>)>, o: Oper, idx: usize)
    ensures
        assoc_sets(final(list)@) == add_one(assoc_sets(old(list)@), o, idx),
{
    let mut i: usize = 0;
    while i < list.len()
        invariant
            i <= list@.len(),
            list@ == old(list)@,
            forall|j: int| 0 <= j < i ==> (#[trigger] list@[j]).0 != o,
        decreases list@.len() - i,
    {
        if list[i].0 == o {
            proof {
                lemma_lookup_first(list@, o, i as int);
            }
            list[i].1.insert(idx);
            proof {
                let newv = list@[i as int].1;
                assert(list@ == old(list)@.update(i as int, (o, newv)));
                lemma_lookup_update(old(list)@, o, i as int, newv);
                assert forall|p: Oper| has_key(list@, p) == has_key(old(list)@, p) by {
                    if has_key(list@, p) {
                        let j = choose|j: int| 0 <= j < list@.len() && (#[trigger] list@[j]).0 == p;
                        assert(old(list)@[j].0 == p);
                    }
                    if has_key(old(list)@, p) {
                        let j = choose|j: int| 0 <= j < old(list)@.len() && (#[trigger] old(list)@[j]).0 == p;
                        assert(list@[j].0 == p);
                    }
                }
                assert(assoc_sets(list@) =~= add_one(assoc_sets(old(list)@), o, idx));
            }
            return;
        }
        i = i + 1;
    }
    proof {
        assert(!has_key(old(list)@, o)) by {
            if has_key(old(list)@, o) {
                let j = choose|j: int| 0 <= j < old(list)@.len() && (#[trigger] old(list)@[j]).0 == o;
                assert(list@[j].0 != o);
            }
        }
    }
    let mut s: HashSet<usize> = HashSet::new();
    s.insert(idx);
    list.push((o, s));
    proof {
        assert(list@ == old(list)@.push((o, s)));
        assert(list@[old(list)@.len() as int].0 == o);
        assert forall|p: Oper| has_key(list@, p) == (has_key(old(list)@, p) || p == o) by {
            if has_key(list@, p) && p != o {
                let j = choose|j: int| 0 <= j < list@.len() && (#[trigger] list@[j]).0 == p;
                assert(old(list)@[j].0 == p);
            }
            if has_key(old(list)@, p) {
                let j = choose|j: int| 0 <= j < old(list)@.len() && (#[trigger] old(list)@[j]).0 == p;
                assert(list@[j].0 == p);
            }
        }
        assert forall|p: Oper| #[trigger] lookup(list@, p) == (if p == o { s } else { lookup(old(list)@, p) }) by {
            lemma_lookup_push(old(list)@, o, s, p);
        }
        assert(assoc_sets(list@) =~= add_one(assoc_sets(old(list)@), o, idx));
    }
}

pub open spec fn view_blocks(bs: Seq<BasicBlock>) -> Seq<BlockView> {
    bs.map_values(|b: BasicBlock| view_block(b))
}

proof fn lemma_view_stmts_push(ss: Seq<Stmt>, s: Stmt)
    ensures
        view_stmts(ss.push(s)) == view_stmts(ss).push(s@),
{
    assert(view_stmts(ss.push(s)) =~= view_stmts(ss).push(s@));
}

/// Splits `code` into basic blocks, recording the blocks that define and
/// use each operand.
fn split_into_blocks(code: &Vec<Stmt>) -> (r: (Vec<BasicBlock>, Vec<(Oper, HashSet<usize>)>, Vec<(Oper, HashSet<usize>)>))
    requires
        code@.len() < usize::MAX,
    ensures
        view_blocks(r.0@) == blocks_of(view_stmts(code@)),
        assoc_sets(r.1@) == split_code(view_stmts(code@)).uses,
        assoc_sets(r.2@) == split_code(view_stmts(code@)).def,
{
    let ghost cv = view_stmts(code@);
    let mut blocks: Vec<BasicBlock> = Vec::new();
    let mut cur: Vec<Stmt> = Vec::new();
    let mut blabel: Option<Stmt> = None;
    let mut uses: Vec<(Oper, HashSet<usize>)> = Vec::new();
    let mut def: Vec<(Oper, HashSet<usize>)> = Vec::new();
    proof {
        assert(cv.take(0) =~= Seq::<StmtV>::empty());
        assert(view_blocks(blocks@) =~= Seq::<BlockView>::empty());
        assert(view_stmts(cur@) =~= Seq::<StmtV>::empty());
        assert(assoc_sets(uses@) =~= Map::<Oper, Set<usize>>::empty());
        assert(assoc_sets(def@) =~= Map::<Oper, Set<usize>>::empty());
    }
    let mut i: usize = 0;
    while i < code.len()
        invariant
            i <= code@.len(),
            code@.len() < usize::MAX,
            cv == view_stmts(code@),
            view_blocks(blocks@) == split_code(cv.take(i as int)).blocks,
            view_stmts(cur@) == split_code(cv.take(i as int)).cur.statements,
            view_opt(blabel) == split_code(cv.take(i as int)).cur.label,
            split_code(cv.take(i as int)).cur.goto is None,
            blocks@.len() <= i,
            assoc_sets(uses@) == split_code(cv.take(i as int)).uses,
            assoc_sets(def@) == split_code(cv.take(i as int)).def,
        decreases code@.len() - i,
    {
        let ghost st = split_code(cv.take(i as int));
        proof {
            assert(cv.take(i + 1).drop_last() =~= cv.take(i as int));
            assert(cv.take(i + 1).last() == code@[i as int]@);
        }
        let statement = &code[i];
        match statement {
            Stmt::Label(_) | Stmt::NamedLabel(_) => {
                blabel = Some(statement.duplicate());
            },
            Stmt::Jump(_) | Stmt::Call(_, _) | Stmt::CJump(_, _) => {
                let mut stmts: Vec<Stmt> = Vec::new();
                std::mem::swap(&mut stmts, &mut cur);
                let mut lab: Option<Stmt> = None;
                std::mem::swap(&mut lab, &mut blabel);
                let ghost old_blocks = blocks@;
                blocks.push(BasicBlock { statements: stmts, label: lab, goto: Some(statement.duplicate()) });
                proof {
                    assert(view_blocks(blocks@) =~= view_blocks(old_blocks).push(view_block(blocks@.last())));
                    assert(view_stmts(cur@) =~= Seq::<StmtV>::empty());
                }
            },
            Stmt::Tac(lval, rval) => {
                let nindex = blocks.len();
                add_index(&mut def, *lval, nindex);
                let used = rval.oper_used();
                let ghost uses0 = assoc_sets(uses@);
                let mut j: usize = 0;
                while j < used.len()
                    invariant
                        j <= used@.len(),
                        assoc_sets(uses@) == add_all(uses0, used@.take(j as int), nindex),
                    decreases used@.len() - j,
                {
                    proof {
                        assert(used@.take(j + 1).drop_last() =~= used@.take(j as int));
                    }
                    add_index(&mut uses, used[j], nindex);
                    j = j + 1;
                }
                assert(used@.take(used@.len() as int) =~= used@);
                let ghost old_cur = cur@;
                cur.push(statement.duplicate());
                proof {
                    lemma_view_stmts_push(old_cur, cur@.last());
                    assert(cur@ == old_cur.push(cur@.last()));
                }
            },
            _ => {
                let ghost old_cur = cur@;
                cur.push(statement.duplicate());
                proof {
                    lemma_view_stmts_push(old_cur, cur@.last());
                    assert(cur@ == old_cur.push(cur@.last()));
                }
            },
        }
        i = i + 1;
    }
    assert(cv.take(code@.len() as int) =~= cv);
    let ghost old_blocks = blocks@;
    blocks.push(BasicBlock { statements: cur, label: blabel, goto: None });
    proof {
        assert(view_blocks(blocks@) =~= view_blocks(old_blocks).push(view_block(blocks@.last())));
    }
    (blocks, uses, def)
}

/// The successors of the first `k` blocks, and no successors for the others.
pub open spec fn succ_upto(bs: Seq<BlockView>, k: int) -> Map<usize, Set<usize>> {
    Map::new(|i: usize| i < bs.len(), |i: usize| if i < k { targets(bs, i as int) } else { Set::empty() })
}

/// The predecessors among the first `k` blocks.
pub open spec fn pred_upto(bs: Seq<BlockView>, k: int) -> Map<usize, Set<usize>> {
    Map::new(|c: usize| c < bs.len(), |c: usize| Set::new(|b: usize| b < k && targets(bs, b as int).contains(c)))
}

/// Whether every jump of the code, once it is split into blocks, goes to a
/// label that opens a block: what `CFG::from_linear_code` needs.
pub fn code_jumps_resolved(code: &Vec<Stmt>) -> (r: bool)
    requires
        code@.len() < usize::MAX,
    ensures
        r == jumps_resolved(blocks_of(view_stmts(code@))),
{
    let (blocks, _, _) = split_into_blocks(code);
    blocks_jumps_resolved(&blocks)
}

fn blocks_jumps_resolved(blocks: &Vec<BasicBlock>) -> (r: bool)
    ensures
        r == jumps_resolved(view_blocks(blocks@)),
{
    let ghost bs = view_blocks(blocks@);
    let n = blocks.len();
    let mut label_to_block: HashMap<usize, usize> = HashMap::new();
    let mut i: usize = 0;
    while i < n
        invariant
            i <= n,
            n == blocks@.len(),
            bs == view_blocks(blocks@),
            label_to_block@ == label_map(bs, i as int),
        decreases n - i,
    {
        let lb = blocks[i].label();
        assert(bs[i as int] == view_block(blocks@[i as int]));
        if let Some(b) = lb {
            label_to_block.insert(b, i);
        }
        i = i + 1;
    }
    let mut b: usize = 0;
    while b < n
        invariant
            b <= n,
            n == blocks@.len(),
            bs == view_blocks(blocks@),
            label_to_block@ == label_map(bs, n as int),
            forall|c: int| 0 <= c < b ==> match jump_of(#[trigger] bs[c]) {
                Some(l) => label_map(bs, bs.len() as int).contains_key(l),
                None => true,
            },
        decreases n - b,
    {
        assert(bs[b as int] == view_block(blocks@[b as int]));
        match &blocks[b].goto {
            Some(stmt) => match stmt {
                Stmt::CJump(_, label) => {
                    if !label_to_block.contains_key(label) {
                        return false;
                    }
                },
                Stmt::Jump(label) => {
                    if !label_to_block.contains_key(label) {
                        return false;
                    }
                },
                _ => {},
            },
            None => {},
        }
        b = b + 1;
    }
    true
}

/// The graph of the blocks: one node per block, an edge from each block
/// to the target of its jump and, for a conditional jump, to the next block.
fn build_graph(blocks: &Vec<BasicBlock>) -> (g: DirectedGraph)
    requires
        jumps_resolved(view_blocks(blocks@)),
    ensures
        g.nodes@ == Set::new(|i: usize| i < blocks@.len()),
        g.succs() == succ_upto(view_blocks(blocks@), blocks@.len() as int),
        g.out_edges() == succ_upto(view_blocks(blocks@), blocks@.len() as int),
        g.preds() == pred_upto(view_blocks(blocks@), blocks@.len() as int),
{
    let ghost bs = view_blocks(blocks@);
    let n = blocks.len();
    let mut graph = DirectedGraph::new();
    let mut label_to_block: HashMap<usize, usize> = HashMap::new();
    let mut i: usize = 0;
    while i < n
        invariant
            i <= n,
            n == blocks@.len(),
            bs == view_blocks(blocks@),
            graph.nodes@ == Set::new(|j: usize| j < i),
            graph.succs() == Map::new(|j: usize| j < i, |j: usize| Set::<usize>::empty()),
            graph.out_edges() == Map::new(|j: usize| j < i, |j: usize| Set::<usize>::empty()),
            graph.preds() == Map::new(|j: usize| j < i, |j: usize| Set::<usize>::empty()),
            label_to_block@ == label_map(bs, i as int),
        decreases n - i,
    {
        graph.insert(i);
        let lb = blocks[i].label();
        assert(bs[i as int] == view_block(blocks@[i as int]));
        if let Some(b) = lb {
            label_to_block.insert(b, i);
        }
        proof {
            assert(graph.nodes@ =~= Set::new(|j: usize| j < i + 1));
            assert(graph.succs() =~= Map::new(|j: usize| j < i + 1, |j: usize| Set::<usize>::empty()));
            assert(graph.out_edges() =~= Map::new(|j: usize| j < i + 1, |j: usize| Set::<usize>::empty()));
            assert(graph.preds() =~= Map::new(|j: usize| j < i + 1, |j: usize| Set::<usize>::empty()));
        }
        i = i + 1;
    }
    proof {
        assert(graph.succs() =~= succ_upto(bs, 0));
        assert(graph.out_edges() =~= succ_upto(bs, 0));
        assert(graph.preds() =~~= pred_upto(bs, 0));
    }
    let mut b: usize = 0;
    while b < n
        invariant
            b <= n,
            n == blocks@.len(),
            bs == view_blocks(blocks@),
            jumps_resolved(bs),
            graph.nodes@ == Set::new(|j: usize| j < n),
            graph.succs() == succ_upto(bs, b as int),
            graph.out_edges() == succ_upto(bs, b as int),
            graph.preds() == pred_upto(bs, b as int),
            label_to_block@ == label_map(bs, n as int),
        decreases n - b,
    {
        assert(bs[b as int] == view_block(blocks@[b as int]));
        let ghost lm = label_map(bs, n as int);
        match &blocks[b].goto {
            Some(stmt) => match stmt {
                Stmt::CJump(_, label) => {
                    assert(jump_of(bs[b as int]) == Some(*label));
                    let t = *label_to_block.get(label).unwrap();
                    proof {
                        lemma_label_map_below(bs, n as int, *label);
                    }
                    graph.add_edge(b, t);
                    graph.add_edge(b, b + 1);
                    proof {
                        assert(targets(bs, b as int) == (if b + 1 < n {
                            Set::empty().insert(t).insert((b + 1) as usize)
                        } else {
                            Set::empty().insert(t)
                        }));
                        assert(graph.succs() =~= succ_upto(bs, b + 1));
                        assert(graph.out_edges() =~= succ_upto(bs, b + 1));
                        assert(graph.preds() =~~= pred_upto(bs, b + 1));
                    }
                },
                Stmt::Jump(label) => {
                    assert(jump_of(bs[b as int]) == Some(*label));
                    let t = *label_to_block.get(label).unwrap();
                    proof {
                        lemma_label_map_below(bs, n as int, *label);
                    }
                    graph.add_edge(b, t);
                    proof {
                        assert(targets(bs, b as int) == Set::empty().insert(t));
                        assert(graph.succs() =~= succ_upto(bs, b + 1));
                        assert(graph.out_edges() =~= succ_upto(bs, b + 1));
                        assert(graph.preds() =~~= pred_upto(bs, b + 1));
                    }
                },
                _ => {
                    proof {
                        assert(targets(bs, b as int) == Set::<usize>::empty());
                        assert(graph.succs() =~= succ_upto(bs, b + 1));
                        assert(graph.out_edges() =~= succ_upto(bs, b + 1));
                        assert(graph.preds() =~~= pred_upto(bs, b + 1));
                    }
                },
            },
            None => {
                proof {
                    assert(targets(bs, b as int) == Set::<usize>::empty());
                    assert(graph.succs() =~= succ_upto(bs, b + 1));
                    assert(graph.out_edges() =~= succ_upto(bs, b + 1));
                    assert(graph.preds() =~~= pred_upto(bs, b + 1));
                }
            },
        }
        b = b + 1;
    }
    graph
}

/// The label map sends labels to blocks among the first `k`.
/// Where every jump is resolved, each edge of the blocks' graph is among
/// the successors of its source and the predecessors of its target.
pub proof fn lemma_edges_agree(bs: Seq<BlockView>)
    requires
        jumps_resolved(bs),
    ensures
        crate::ssa::edges_agree(succ_upto(bs, bs.len() as int), pred_upto(bs, bs.len() as int), bs.len() as int),
{
    let k = bs.len() as int;
    assert forall|n: usize, y: usize| n < k && #[trigger] succ_upto(bs, k)[n].contains(y)
        implies pred_upto(bs, k).contains_key(y) && pred_upto(bs, k)[y].contains(n) by {
        assert(targets(bs, n as int).contains(y));
        if let Some(l) = jump_of(bs[n as int]) {
            lemma_label_map_below(bs, k, l);
        }
        assert(y < k);
    }
}

proof fn lemma_label_map_below(bs: Seq<BlockView>, k: int, l: usize)
    requires
        0 <= k <= bs.len(),
    ensures
        label_map(bs, k).contains_key(l) ==> label_map(bs, k)[l] < k,
    decreases k,
{
    if k > 0 {
        lemma_label_map_below(bs, k - 1, l);
    }
}

/// The statements of the blocks in order, each block given as its label,
/// its statements and its jump; blocks with none of these are skipped.
pub open spec fn flatten_blocks(bs: Seq<BlockView>) -> Seq<StmtV>
    decreases bs.len(),
{
    if bs.len() == 0 {
        Seq::empty()
    } else {
        flatten_blocks(bs.drop_last()) + block_statements(bs.last())
    }
}

pub open spec fn opt_seq(s: Option<StmtV>) -> Seq<StmtV> {
    match s {
        Some(x) => seq![x],
        None => Seq::empty(),
    }
}

pub open spec fn block_statements(b: BlockView) -> Seq<StmtV> {
    if b.label is None && b.goto is None && b.statements.len() == 0 {
        Seq::empty()
    } else {
        opt_seq(b.label) + b.statements + opt_seq(b.goto)
    }
}

/// A block whose statements have the operand `a` replaced by `b`, as
/// definition and as use, and whose jump has it replaced as use.
pub open spec fn block_subst(blk: BlockView, a: Oper, b: Oper) -> BlockView {
    BlockView {
        statements: blk.statements.map_values(|s: StmtV| s.subst_def(a, b).subst_use(a, b)),
        label: blk.label,
        goto: match blk.goto {
            Some(g) => Some(g.subst_use(a, b)),
            None => None,
        },
    }
}

impl CFG {
    /// The control-flow graph of linear code (and its stack offset): the
    /// code split into basic blocks, with an edge for each jump and from
    /// each conditional jump to the next block.
    pub fn from_linear_code(transformed_code: &(Vec<Stmt>, usize)) -> (r: CFG)
        requires
            transformed_code.0@.len() < usize::MAX,
            jumps_resolved(blocks_of(view_stmts(transformed_code.0@))),
        ensures
            view_blocks(r.blocks@) == blocks_of(view_stmts(transformed_code.0@)),
            r.graph.nodes@ == Set::new(|i: usize| i < r.blocks@.len()),
            r.graph.succs() == succ_upto(view_blocks(r.blocks@), r.blocks@.len() as int),
            r.graph.out_edges() == succ_upto(view_blocks(r.blocks@), r.blocks@.len() as int),
            r.graph.preds() == pred_upto(view_blocks(r.blocks@), r.blocks@.len() as int),
            assoc_sets(r.uses@) == split_code(view_stmts(transformed_code.0@)).uses,
            assoc_sets(r.def@) == split_code(view_stmts(transformed_code.0@)).def,
            r.stack_offset == transformed_code.1,
            r.dom_ctx.dom@.len() == 0,
            crate::ssa::edges_agree(r.graph.succs(), r.graph.preds(), r.blocks@.len() as int),
    {
        let (blocks, uses, def) = split_into_blocks(&transformed_code.0);
        let graph = build_graph(&blocks);
        proof {
            lemma_edges_agree(view_blocks(blocks@));
        }
        CFG { blocks, graph, uses, def, stack_offset: transformed_code.1, dom_ctx: DominatorContext::new() }
    }

    /// All statements, block by block.
    pub fn statements(&self) -> (r: Vec<Stmt>)
        ensures
            view_stmts(r@) == flatten_blocks(view_blocks(self.blocks@)),
    {
        let ghost bs = view_blocks(self.blocks@);
        let mut statements: Vec<Stmt> = Vec::new();
        let mut i: usize = 0;
        assert(bs.take(0) =~= Seq::<BlockView>::empty());
        assert(view_stmts(statements@) =~= Seq::<StmtV>::empty());
        while i < self.blocks.len()
            invariant
                i <= self.blocks@.len(),
                bs == view_blocks(self.blocks@),
                view_stmts(statements@) == flatten_blocks(bs.take(i as int)),
            decreases self.blocks@.len() - i,
        {
            let bb = &self.blocks[i];
            let ghost before = view_stmts(statements@);
            assert(bs.take(i + 1).drop_last() =~= bs.take(i as int));
            assert(bs[i as int] == view_block(*bb));
            if !(bb.label.is_none() && bb.goto.is_none() && bb.statements.len() == 0) {
                match &bb.label {
                    Some(label) => {
                        let ghost o = statements@;
                        statements.push(label.duplicate());
                        proof {
                            lemma_view_stmts_push(o, statements@.last());
                            assert(statements@ == o.push(statements@.last()));
                        }
                    },
                    None => {},
                }
                assert(view_stmts(statements@) =~= before + opt_seq(view_opt(bb.label)) + view_stmts(bb.statements@.take(0)));
                let mut j: usize = 0;
                while j < bb.statements.len()
                    invariant
                        j <= bb.statements@.len(),
                        view_stmts(statements@) == before + opt_seq(view_opt(bb.label)) + view_stmts(bb.statements@.take(j as int)),
                    decreases bb.statements@.len() - j,
                {
                    let ghost o = statements@;
                    statements.push(bb.statements[j].duplicate());
                    proof {
                        lemma_view_stmts_push(o, statements@.last());
                        assert(statements@ == o.push(statements@.last()));
                        assert(bb.statements@.take(j + 1) == bb.statements@.take(j as int).push(bb.statements@[j as int]));
                        lemma_view_stmts_push(bb.statements@.take(j as int), bb.statements@[j as int]);
                        assert(view_stmts(statements@) =~= before + opt_seq(view_opt(bb.label)) + view_stmts(bb.statements@.take(j + 1)));
                    }
                    j = j + 1;
                }
                let ghost mid = statements@;
                match &bb.goto {
                    Some(stmt) => {
                        statements.push(stmt.duplicate());
                        proof {
                            lemma_view_stmts_push(mid, statements@.last());
                            assert(statements@ == mid.push(statements@.last()));
                        }
                    },
                    None => {},
                }
                proof {
                    assert(bb.statements@.take(bb.statements@.len() as int) =~= bb.statements@);
                    assert(view_stmts(mid) == before + opt_seq(view_opt(bb.label)) + view_stmts(bb.statements@));
                    assert(view_stmts(statements@) =~= before + block_statements(bs[i as int]));
                }
            } else {
                proof {
                    assert(block_statements(bs[i as int]) =~= Seq::<StmtV>::empty());
                    assert(view_stmts(statements@) =~= before + block_statements(bs[i as int]));
                }
            }
            i = i + 1;
        }
        assert(bs.take(self.blocks@.len() as int) =~= bs);
        statements
    }

    /// Replaces the operand `orig` by `new` everywhere: as definition and
    /// use in each statement, and as use in each jump.
    pub fn replace_all_operand_with(&mut self, orig: &Oper, new: &Oper)
        ensures
            view_blocks(final(self).blocks@) == view_blocks(old(self).blocks@).map_values(
                |blk: BlockView| block_subst(blk, *orig, *new),
            ),
            final(self).graph == old(self).graph,
            final(self).uses == old(self).uses,
            final(self).def == old(self).def,
            final(self).stack_offset == old(self).stack_offset,
    {
        let ghost target = view_blocks(old(self).blocks@).map_values(|blk: BlockView| block_subst(blk, *orig, *new));
        let mut i: usize = 0;
        while i < self.blocks.len()
            invariant
                i <= self.blocks@.len(),
                self.blocks@.len() == old(self).blocks@.len(),
                target == view_blocks(old(self).blocks@).map_values(|blk: BlockView| block_subst(blk, *orig, *new)),
                forall|k: int| 0 <= k < i ==> view_block(#[trigger] self.blocks@[k]) == target[k],
                forall|k: int| i <= k < self.blocks@.len() ==> #[trigger] self.blocks@[k] == old(self).blocks@[k],
                self.graph == old(self).graph,
                self.uses == old(self).uses,
                self.def == old(self).def,
                self.stack_offset == old(self).stack_offset,
            decreases self.blocks@.len() - i,
        {
            let ghost ob = view_block(self.blocks@[i as int]);
            let n = self.blocks[i].statements.len();
            let mut j: usize = 0;
            while j < n
                invariant
                    i < self.blocks@.len(),
                    self.blocks@.len() == old(self).blocks@.len(),
                    n == self.blocks@[i as int].statements@.len(),
                    j <= n,
                    ob.statements.len() == n,
                    forall|k: int| 0 <= k < j ==> (#[trigger] self.blocks@[i as int].statements@[k])@ == ob.statements[k].subst_def(*orig, *new).subst_use(*orig, *new),
                    forall|k: int| j <= k < n ==> (#[trigger] self.blocks@[i as int].statements@[k])@ == ob.statements[k],
                    view_opt(self.blocks@[i as int].label) == ob.label,
                    view_opt(self.blocks@[i as int].goto) == ob.goto,
                    forall|k: int| 0 <= k < self.blocks@.len() && k != i ==> #[trigger] self.blocks@[k] == old(self).blocks@[k] || (k < i && view_block(self.blocks@[k]) == target[k]),
                    forall|k: int| 0 <= k < i ==> view_block(#[trigger] self.blocks@[k]) == target[k],
                    forall|k: int| i < k < self.blocks@.len() ==> #[trigger] self.blocks@[k] == old(self).blocks@[k],
                    self.graph == old(self).graph,
                    self.uses == old(self).uses,
                    self.def == old(self).def,
                    self.stack_offset == old(self).stack_offset,
                decreases n - j,
            {
                self.blocks[i].statements[j].replace_all_oper_def_with(orig, new);
                self.blocks[i].statements[j].replace_all_oper_use_with(orig, new);
                j = j + 1;
            }
            match &mut self.blocks[i].goto {
                Some(stmt) => {
                    stmt.replace_all_oper_use_with(orig, new);
                },
                None => {},
            }
            proof {
                assert(view_block(self.blocks@[i as int]).statements =~= ob.statements.map_values(|s: StmtV| s.subst_def(*orig, *new).subst_use(*orig, *new)));
                assert(view_block(self.blocks@[i as int]) == target[i as int]);
            }
            i = i + 1;
        }
        assert(view_blocks(self.blocks@) =~= target);
    }
}

} // verus!

verus! {

/// The statements of the list that read `v`, in order.
pub open spec fn using_stmts(ss: Seq<StmtV>, v: Oper) -> Seq<StmtV>
    decreases ss.len(),
{
    if ss.len() == 0 {
        Seq::empty()
    } else {
        using_stmts(ss.drop_last(), v) + if ss.last().uses().contains(v) { seq![ss.last()] } else { Seq::empty() }
    }
}

/// The statements of a block, its closing jump last, that read `v`.
pub open spec fn using_block(b: BlockView, v: Oper) -> Seq<StmtV> {
    using_stmts(b.statements, v) + match b.goto {
        Some(g) => if g.uses().contains(v) { seq![g] } else { Seq::empty() },
        None => Seq::empty(),
    }
}

/// The statements of the first `k` blocks that read `v`.
pub open spec fn using_upto(bs: Seq<BlockView>, k: int, v: Oper) -> Seq<StmtV>
    decreases k,
{
    if k <= 0 {
        Seq::empty()
    } else {
        using_upto(bs, k - 1, v) + using_block(bs[k - 1], v)
    }
}

/// The list without its first element equal to `x`, if it has one.
pub open spec fn remove_first(ss: Seq<StmtV>, x: StmtV) -> Seq<StmtV>
    decreases ss.len(),
{
    if ss.len() == 0 {
        ss
    } else if ss[0] == x {
        ss.skip(1)
    } else {
        seq![ss[0]] + remove_first(ss.skip(1), x)
    }
}

proof fn lemma_remove_first_at(ss: Seq<StmtV>, x: StmtV, i: int)
    requires
        0 <= i < ss.len(),
        ss[i] == x,
        forall|j: int| 0 <= j < i ==> ss[j] != x,
    ensures
        remove_first(ss, x) == ss.remove(i),
    decreases i,
{
    if i == 0 {
        assert(ss.skip(1) =~= ss.remove(0));
    } else {
        lemma_remove_first_at(ss.skip(1), x, i - 1);
        assert(seq![ss[0]] + ss.skip(1).remove(i - 1) =~= ss.remove(i));
    }
}

proof fn lemma_remove_first_absent(ss: Seq<StmtV>, x: StmtV)
    requires
        forall|j: int| 0 <= j < ss.len() ==> ss[j] != x,
    ensures
        remove_first(ss, x) == ss,
    decreases ss.len(),
{
    if ss.len() > 0 {
        lemma_remove_first_absent(ss.skip(1), x);
        assert(seq![ss[0]] + ss.skip(1) =~= ss);
    }
}

fn contains_oper(v: &Vec<Oper>, o: &Oper) -> (r: bool)
    ensures
        r == v@.contains(*o),
{
    let mut i: usize = 0;
    while i < v.len()
        invariant
            i <= v@.len(),
            forall|j: int| 0 <= j < i ==> v@[j] != *o,
        decreases v@.len() - i,
    {
        if v[i] == *o {
            assert(v@[i as int] == *o);
            return true;
        }
        i = i + 1;
    }
    false
}

impl CFG {
    /// Copies of the statements that read `v`, block by block, each block's
    /// closing jump after its statements.
    pub fn statements_using(&mut self, v: &Oper) -> (r: Vec<Stmt>)
        ensures
            *final(self) == *old(self),
            view_stmts(r@) == using_upto(view_blocks(old(self).blocks@), old(self).blocks@.len() as int, *v),
    {
        let ghost bs = view_blocks(self.blocks@);
        let mut statements: Vec<Stmt> = Vec::new();
        let mut b: usize = 0;
        while b < self.blocks.len()
            invariant
                b <= self.blocks@.len(),
                *self == *old(self),
                bs == view_blocks(self.blocks@),
                view_stmts(statements@) == using_upto(bs, b as int, *v),
            decreases self.blocks@.len() - b,
        {
            let ghost start = view_stmts(statements@);
            let ghost ss = view_stmts(self.blocks@[b as int].statements@);
            assert(bs[b as int] == view_block(self.blocks@[b as int]));
            let n = self.blocks[b].statements.len();
            let mut i: usize = 0;
            assert(ss.take(0) =~= Seq::<StmtV>::empty());
            while i < n
                invariant
                    i <= n,
                    b < self.blocks@.len(),
                    n == self.blocks@[b as int].statements@.len(),
                    ss == view_stmts(self.blocks@[b as int].statements@),
                    *self == *old(self),
                    view_stmts(statements@) == start + using_stmts(ss.take(i as int), *v),
                decreases n - i,
            {
                assert(ss.take(i + 1).drop_last() =~= ss.take(i as int));
                assert(ss[i as int] == self.blocks@[b as int].statements@[i as int]@);
                let used = self.blocks[b].statements[i].used();
                if contains_oper(&used, v) {
                    let c = self.blocks[b].statements[i].duplicate();
                    let ghost prev = statements@;
                    statements.push(c);
                    assert(view_stmts(statements@) =~= view_stmts(prev).push(c@));
                    assert(view_stmts(statements@) =~= start + using_stmts(ss.take(i + 1), *v));
                } else {
                    assert(view_stmts(statements@) =~= start + using_stmts(ss.take(i + 1), *v));
                }
                i = i + 1;
            }
            assert(ss.take(n as int) =~= ss);
            match &self.blocks[b].goto {
                Some(g) => {
                    let used = g.used();
                    if contains_oper(&used, v) {
                        let c = g.duplicate();
                        let ghost prev = statements@;
                        statements.push(c);
                        assert(view_stmts(statements@) =~= view_stmts(prev).push(c@));
                    }
                },
                None => {},
            }
            assert(view_stmts(statements@) =~= using_upto(bs, b + 1, *v));
            b = b + 1;
        }
        statements
    }

    /// Removes from each block the first statement equal to `s`.
    pub fn remove_statement(&mut self, s: &Stmt)
        ensures
            final(self).blocks@.len() == old(self).blocks@.len(),
            forall|k: int| 0 <= k < old(self).blocks@.len() ==> view_stmts(#[trigger] final(self).blocks@[k].statements@)
                == remove_first(view_stmts(old(self).blocks@[k].statements@), s@),
            forall|k: int| 0 <= k < old(self).blocks@.len() ==> #[trigger] final(self).blocks@[k].label == old(self).blocks@[k].label
                && final(self).blocks@[k].goto == old(self).blocks@[k].goto,
            final(self).graph == old(self).graph,
            final(self).uses == old(self).uses,
            final(self).def == old(self).def,
            final(self).dom_ctx == old(self).dom_ctx,
            final(self).stack_offset == old(self).stack_offset,
    {
        let size = self.blocks.len();
        let mut b: usize = 0;
        while b < size
            invariant
                b <= size,
                size == self.blocks@.len(),
                old(self).blocks@.len() == size,
                forall|k: int| 0 <= k < b ==> view_stmts(#[trigger] self.blocks@[k].statements@)
                    == remove_first(view_stmts(old(self).blocks@[k].statements@), s@),
                forall|k: int| b <= k < size ==> #[trigger] self.blocks@[k] == old(self).blocks@[k],
                forall|k: int| 0 <= k < size ==> #[trigger] self.blocks@[k].label == old(self).blocks@[k].label
                    && self.blocks@[k].goto == old(self).blocks@[k].goto,
                self.graph == old(self).graph,
                self.uses == old(self).uses,
                self.def == old(self).def,
                self.dom_ctx == old(self).dom_ctx,
                self.stack_offset == old(self).stack_offset,
            decreases size - b,
        {
            let ghost ss = view_stmts(self.blocks@[b as int].statements@);
            let ghost before = self.blocks@;
            let len = self.blocks[b].statements.len();
            let mut i: usize = 0;
            let mut found = false;
            while i < len
                invariant_except_break
                    self.blocks@ == before,
                    !found,
                invariant
                    i <= len,
                    b < size,
                    size == before.len(),
                    len == ss.len(),
                    ss == view_stmts(before[b as int].statements@),
                    forall|j: int| 0 <= j < i ==> ss[j] != s@,
                    self.graph == old(self).graph,
                    self.uses == old(self).uses,
                    self.def == old(self).def,
                    self.dom_ctx == old(self).dom_ctx,
                    self.stack_offset == old(self).stack_offset,
                ensures
                    self.graph == old(self).graph,
                    self.uses == old(self).uses,
                    self.def == old(self).def,
                    self.dom_ctx == old(self).dom_ctx,
                    self.stack_offset == old(self).stack_offset,
                    found ==> self.blocks@.len() == size && view_stmts(self.blocks@[b as int].statements@) == remove_first(ss, s@)
                        && self.blocks@[b as int].label == before[b as int].label
                        && self.blocks@[b as int].goto == before[b as int].goto
                        && forall|k: int| 0 <= k < size && k != b ==> #[trigger] self.blocks@[k] == before[k],
                    !found ==> self.blocks@ == before && forall|j: int| 0 <= j < ss.len() ==> ss[j] != s@,
                decreases len - i,
            {
                assert(ss[i as int] == self.blocks@[b as int].statements@[i as int]@);
                if self.blocks[b].statements[i].same_as(s) {
                    let _ = self.blocks[b].statements.remove(i);
                    proof {
                        lemma_remove_first_at(ss, s@, i as int);
                        assert(view_stmts(self.blocks@[b as int].statements@) =~= ss.remove(i as int));
                    }
                    found = true;
                    break;
                }
                i = i + 1;
            }
            proof {
                if !found {
                    lemma_remove_first_absent(ss, s@);
                }
                assert forall|k: int| b + 1 <= k < size implies #[trigger] self.blocks@[k] == old(self).blocks@[k] by {
                    assert(self.blocks@[k] == before[k]);
                }
                assert forall|k: int| 0 <= k < b implies view_stmts(#[trigger] self.blocks@[k].statements@)
                    == remove_first(view_stmts(old(self).blocks@[k].statements@), s@) by {
                    assert(self.blocks@[k] == before[k]);
                }
                assert forall|k: int| 0 <= k < size implies #[trigger] self.blocks@[k].label == old(self).blocks@[k].label
                    && self.blocks@[k].goto == old(self).blocks@[k].goto by {
                    if k != b as int {
                        assert(self.blocks@[k] == before[k]);
                    }
                }
            }
            b = b + 1;
        }
    }
}

} // verus!

verus! {

/// The nodes whose successor sets are not empty.
pub open spec fn busy(g: DirectedGraph) -> Set<usize> {
    g.succs().dom().filter(|k: usize| g.succs()[k] != Set::<usize>::empty())
}

/// Every block has its predecessor and successor sets, and successors are
/// blocks.
pub open spec fn graph_keys(g: DirectedGraph, size: nat) -> bool {
    &&& forall|n: usize| n < size ==> #[trigger] g.preds().contains_key(n)
    &&& forall|n: usize| n < size ==> #[trigger] g.succs().contains_key(n)
    &&& forall|n: usize, x: usize| n < size && #[trigger] g.succs()[n].contains(x) ==> x < size
}

/// The block keeps its statements; its label and jump are kept or both gone.
pub open spec fn kept_or_cut(a: BasicBlock, b: BasicBlock) -> bool {
    &&& a.statements == b.statements
    &&& (a.label == b.label && a.goto == b.goto) || (a.label is None && a.goto is None)
}

/// What removing block `b` from `before` leaves in `after`, with `r` the
/// statements handed back: nothing changes where `b` is the first block or
/// has a predecessor; otherwise `b` loses its label and jump and its
/// successors, and `r` opens with its statements. Other blocks keep their
/// statements and either keep or lose both label and jump.
pub open spec fn cut_from(before: CFG, after: CFG, b: usize, r: Seq<StmtV>) -> bool {
    &&& after.blocks@.len() == before.blocks@.len()
    &&& busy(after.graph).subset_of(busy(before.graph))
    &&& forall|k: int| 0 <= k < before.blocks@.len() ==> kept_or_cut(#[trigger] after.blocks@[k], before.blocks@[k])
    &&& (b == 0 || before.graph.preds()[b] != Set::<usize>::empty()) ==> r.len() == 0 && after == before
    &&& !(b == 0 || before.graph.preds()[b] != Set::<usize>::empty()) ==> {
        &&& after.blocks@[b as int].label is None
        &&& after.blocks@[b as int].goto is None
        &&& after.graph.succs()[b] == Set::<usize>::empty()
        &&& r.len() >= before.blocks@[b as int].statements@.len()
        &&& r.take(before.blocks@[b as int].statements@.len() as int) == view_stmts(before.blocks@[b as int].statements@)
    }
    &&& after.uses == before.uses
    &&& after.def == before.def
    &&& after.dom_ctx == before.dom_ctx
    &&& after.stack_offset == before.stack_offset
}

/// Whether `k` is the first block whose jump statement is `s`.
pub open spec fn first_goto(bs: Seq<BlockView>, s: StmtV, k: int) -> bool {
    &&& 0 <= k < bs.len()
    &&& bs[k].goto == Some(s)
    &&& forall|j: int| 0 <= j < k ==> (#[trigger] bs[j]).goto != Some(s)
}

/// Whether `k` is the first block whose jump goes to `label`.
pub open spec fn first_jump_to(bs: Seq<BlockView>, label: usize, k: int) -> bool {
    &&& 0 <= k < bs.len()
    &&& jump_of(bs[k]) == Some(label)
    &&& forall|j: int| 0 <= j < k ==> jump_of(#[trigger] bs[j]) != Some(label)
}

/// The target of a conditional jump.
pub open spec fn cjump_label(s: Option<StmtV>) -> Option<usize> {
    match s {
        Some(StmtV::CJump(_, l)) => Some(l),
        _ => None,
    }
}

impl CFG {
    /// Removes block `b` where it is not the first block and has no
    /// predecessor: its label and jump are dropped, it leaves the graph, and
    /// each of its successors left without a predecessor is removed in turn.
    /// Gives the statements of the removed blocks, block `b`'s first.
    fn remove_block(&mut self, b: usize) -> (r: Vec<Stmt>)
        requires
            b < old(self).blocks@.len(),
            graph_keys(old(self).graph, old(self).blocks@.len()),
        ensures
            graph_keys(final(self).graph, final(self).blocks@.len()),
            cut_from(*old(self), *final(self), b, view_stmts(r@)),
        decreases busy(old(self).graph).len(),
    {
        let ghost size = self.blocks@.len();
        assert(self.graph.preds().contains_key(b));
        let no_preds = match self.graph.pred.get(&b) {
            Some(p) => p.is_empty(),
            None => true,
        };
        if b == 0 || !no_preds {
            return Vec::new();
        }
        let ghost g0 = self.graph;
        let ghost b0 = self.blocks@;
        self.blocks[b].label = None;
        self.blocks[b].goto = None;
        let mut modified: Vec<Stmt> = Vec::new();
        let n = self.blocks[b].statements.len();
        let mut i: usize = 0;
        while i < n
            invariant
                i <= n,
                b < self.blocks@.len(),
                n == self.blocks@[b as int].statements@.len(),
                view_stmts(modified@) == view_stmts(self.blocks@[b as int].statements@).take(i as int),
            decreases n - i,
        {
            let c = self.blocks[b].statements[i].duplicate();
            let ghost prev = modified@;
            modified.push(c);
            assert(view_stmts(modified@) =~= view_stmts(self.blocks@[b as int].statements@).take(i + 1)) by {
                assert(view_stmts(modified@) =~= view_stmts(prev).push(c@));
            }
            i = i + 1;
        }
        assert(view_stmts(self.blocks@[b as int].statements@).take(n as int) =~= view_stmts(self.blocks@[b as int].statements@));
        assert(self.graph.succs().contains_key(b));
        let children = match self.graph.succ.get(&b) {
            Some(sc) => elements(sc),
            None => Vec::new(),
        };
        proof {
            assert(children@.to_set() == g0.succs()[b]);
            if children@.len() > 0 {
                assert(children@.to_set().contains(children@[0]));
                assert(g0.succs()[b] != Set::<usize>::empty());
                assert(busy(g0).contains(b));
            }
        }
        self.graph.remove(b);
        proof {
            assert(busy(self.graph) =~= busy(g0).remove(b));
            vstd::std_specs::hash::axiom_hashmap_view_finite_dom(g0.succ);
            assert(g0.succs().dom() =~= g0.succ@.dom());
            assert(busy(g0).finite()) by {
                vstd::set_lib::lemma_len_subset(busy(g0), g0.succs().dom());
            }
            assert forall|k: int| 0 <= k < size implies kept_or_cut(#[trigger] self.blocks@[k], b0[k]) by {}
        }
        let ghost blen = b0[b as int].statements@.len();
        let ghost bstmts = view_stmts(b0[b as int].statements@);
        let mut j: usize = 0;
        while j < children.len()
            invariant
                j <= children@.len(),
                children@.len() > 0 ==> busy(g0).contains(b),
                busy(g0).finite(),
                size == self.blocks@.len(),
                b < size,
                graph_keys(self.graph, size),
                busy(self.graph).subset_of(busy(g0).remove(b)),
                forall|k: int| 0 <= k < size ==> kept_or_cut(#[trigger] self.blocks@[k], b0[k]),
                self.blocks@[b as int].label is None,
                self.blocks@[b as int].goto is None,
                self.graph.succs()[b] == Set::<usize>::empty(),
                b0 == old(self).blocks@,
                g0 == old(self).graph,
                bstmts == view_stmts(b0[b as int].statements@),
                blen == bstmts.len(),
                view_stmts(modified@).len() >= blen,
                view_stmts(modified@).take(blen as int) == bstmts,
                self.uses == old(self).uses,
                self.def == old(self).def,
                self.dom_ctx == old(self).dom_ctx,
                self.stack_offset == old(self).stack_offset,
            decreases children@.len() - j,
        {
            let child = children[j];
            if child < self.blocks.len() {
                assert(self.graph.preds().contains_key(child));
                let empty = match self.graph.pred.get(&child) {
                    Some(p) => p.is_empty(),
                    None => false,
                };
                if empty {
                    proof {
                        vstd::set_lib::lemma_len_subset(busy(self.graph), busy(g0).remove(b));
                    }
                    let ghost before = self.blocks@;
                    let ghost bg = self.graph;
                    let mut more = self.remove_block(child);
                    let ghost prevm = modified@;
                    modified.append(&mut more);
                    proof {
                        assert(view_stmts(modified@).take(blen as int) =~= view_stmts(prevm).take(blen as int));
                        assert forall|k: int| 0 <= k < size implies kept_or_cut(#[trigger] self.blocks@[k], b0[k]) by {
                            assert(kept_or_cut(self.blocks@[k], before[k]));
                            assert(kept_or_cut(before[k], b0[k]));
                        }
                        assert(!busy(bg).contains(b));
                        assert(self.graph.succs().contains_key(b));
                        if self.graph.succs()[b] != Set::<usize>::empty() {
                            assert(busy(self.graph).contains(b));
                        }
                        assert(self.blocks@[b as int].label is None) by {
                            assert(kept_or_cut(self.blocks@[b as int], before[b as int]));
                        }
                    }
                }
            }
            j = j + 1;
        }
        proof {
            assert(busy(self.graph).subset_of(busy(old(self).graph)));
        }
        modified
    }

    /// Settles the conditional jump `stmt`, whose condition is known to be
    /// `res`: where it is taken, the block after the jump's block is
    /// removed; where it is not, the first block that jumps to `label` is.
    /// Gives the statements of the removed blocks and the target of the
    /// jump's block where that block still ends in a conditional jump.
    pub fn remove_conditional_jump(&mut self, stmt: &Stmt, res: bool, label: usize) -> (r: (Vec<Stmt>, Option<usize>))
        requires
            graph_keys(old(self).graph, old(self).blocks@.len()),
            exists|k: int| 0 <= k < old(self).blocks@.len() && #[trigger] view_blocks(old(self).blocks@)[k].goto == Some(stmt@),
            res ==> forall|k: int| first_goto(view_blocks(old(self).blocks@), stmt@, k) ==> k + 1 < old(self).blocks@.len(),
            !res ==> exists|k: int| 0 <= k < old(self).blocks@.len() && jump_of(#[trigger] view_blocks(old(self).blocks@)[k]) == Some(label),
        ensures
            graph_keys(final(self).graph, final(self).blocks@.len()),
            res ==> forall|k: int| first_goto(view_blocks(old(self).blocks@), stmt@, k)
                ==> cut_from(*old(self), *final(self), (k + 1) as usize, view_stmts(r.0@)),
            !res ==> forall|k: int| first_jump_to(view_blocks(old(self).blocks@), label, k)
                ==> cut_from(*old(self), *final(self), k as usize, view_stmts(r.0@)),
            forall|k: int| first_goto(view_blocks(old(self).blocks@), stmt@, k)
                ==> r.1 == cjump_label(view_opt(final(self).blocks@[k].goto)),
    {
        let ghost vb = view_blocks(self.blocks@);
        let ghost w = choose|k: int| 0 <= k < self.blocks@.len() && #[trigger] vb[k].goto == Some(stmt@);
        let len = self.blocks.len();
        let mut block: usize = 0;
        while block < len
            invariant
                len == self.blocks@.len(),
                vb == view_blocks(self.blocks@),
                0 <= w < len,
                vb[w].goto == Some(stmt@),
                block <= w,
                forall|j: int| 0 <= j < block ==> (#[trigger] vb[j]).goto != Some(stmt@),
            ensures
                first_goto(vb, stmt@, block as int),
            decreases len - block,
        {
            let found = match &self.blocks[block].goto {
                Some(g) => g.same_as(stmt),
                None => false,
            };
            assert(vb[block as int] == view_block(self.blocks@[block as int]));
            if found {
                break;
            }
            block = block + 1;
        }
        assert(first_goto(vb, stmt@, block as int));
        let mut modified: Vec<Stmt> = Vec::new();
        if res {
            modified = self.remove_block(block + 1);
        } else {
            let ghost v = choose|k: int| 0 <= k < len && jump_of(#[trigger] vb[k]) == Some(label);
            let mut t: usize = 0;
            while t < len
                invariant
                    len == self.blocks@.len(),
                    vb == view_blocks(self.blocks@),
                    0 <= v < len,
                    jump_of(vb[v]) == Some(label),
                    t <= v,
                    forall|j: int| 0 <= j < t ==> jump_of(#[trigger] vb[j]) != Some(label),
                ensures
                    first_jump_to(vb, label, t as int),
                decreases len - t,
            {
                assert(vb[t as int] == view_block(self.blocks@[t as int]));
                if self.blocks[t].jump() == Some(label) {
                    break;
                }
                t = t + 1;
            }
            assert(first_jump_to(vb, label, t as int));
            modified = self.remove_block(t);
            proof {
                assert forall|k: int| first_jump_to(vb, label, k) implies k == t as int by {
                    if k < t as int {
                        assert(jump_of(vb[k]) != Some(label));
                    } else if k > t as int {
                        assert(jump_of(vb[t as int]) != Some(label));
                    }
                }
            }
        }
        proof {
            assert forall|k: int| first_goto(vb, stmt@, k) implies k == block as int by {
                if k < block as int {
                    assert(vb[k].goto != Some(stmt@));
                } else if k > block as int {
                    assert(vb[block as int].goto != Some(stmt@));
                }
            }
        }
        let jump_label = match &self.blocks[block].goto {
            Some(g) => match g {
                Stmt::CJump(_, l) => Some(*l),
                _ => None,
            },
            None => None,
        };
        (modified, jump_label)
    }
}

/// Every label of the code opens it or follows a jump, conditional jump or
/// call, so that it starts a block.
pub open spec fn labels_lead(code: Seq<StmtV>) -> bool {
    forall|i: int| 0 <= i < code.len() && (#[trigger] code[i] is Label || code[i] is NamedLabel) ==>
        i == 0 || code[i - 1] is Jump || code[i - 1] is CJump || code[i - 1] is Call
}

/// The statements of a block still being filled: its label, if any, and
/// its body.
pub open spec fn open_block_statements(b: BlockView) -> Seq<StmtV> {
    opt_seq(b.label) + b.statements
}

proof fn lemma_split_flat(code: Seq<StmtV>)
    requires
        labels_lead(code),
    ensures
        split_code(code).cur.goto is None,
        flatten_blocks(split_code(code).blocks) + open_block_statements(split_code(code).cur) == code,
        code.len() == 0 || code.last() is Jump || code.last() is CJump || code.last() is Call
            ==> split_code(code).cur == empty_block(),
    decreases code.len(),
{
    if code.len() > 0 {
        let prev = code.drop_last();
        assert(labels_lead(prev)) by {
            assert forall|i: int| 0 <= i < prev.len() && (#[trigger] prev[i] is Label || prev[i] is NamedLabel) implies
                i == 0 || prev[i - 1] is Jump || prev[i - 1] is CJump || prev[i - 1] is Call by {
                assert(code[i] == prev[i]);
                if i > 0 {
                    assert(code[i - 1] == prev[i - 1]);
                }
            }
        }
        lemma_split_flat(prev);
        let st = split_code(prev);
        let s = code.last();
        assert(code =~= prev.push(s));
        match s {
            StmtV::Label(_) | StmtV::NamedLabel(_) => {
                let i = code.len() - 1;
                assert(code[i] == s);
                if i > 0 {
                    assert(code[i - 1] == prev.last());
                }
                assert(st.cur == empty_block());
                assert(open_block_statements(split_code(code).cur) =~= seq![s]);
                assert(open_block_statements(st.cur) =~= Seq::<StmtV>::empty());
            },
            StmtV::Jump(_) | StmtV::Call(_, _) | StmtV::CJump(_, _) => {
                let b = BlockView { goto: Some(s), ..st.cur };
                assert(split_code(code).blocks == st.blocks.push(b));
                assert(st.blocks.push(b).drop_last() =~= st.blocks);
                assert(block_statements(b) =~= open_block_statements(st.cur).push(s));
                assert(open_block_statements(empty_block()) =~= Seq::<StmtV>::empty());
            },
            _ => {
                assert(open_block_statements(split_code(code).cur) =~= open_block_statements(st.cur).push(s));
            },
        }
    }
}

/// Splitting code whose labels start blocks into basic blocks and
/// flattening the blocks back gives the code: nothing is lost or moved.
pub proof fn lemma_flatten_blocks_of(code: Seq<StmtV>)
    requires
        labels_lead(code),
    ensures
        flatten_blocks(blocks_of(code)) == code,
{
    lemma_split_flat(code);
    let st = split_code(code);
    assert(blocks_of(code).drop_last() =~= st.blocks);
    assert(block_statements(st.cur) =~= open_block_statements(st.cur));
}

/// A graph built from code whose labels start blocks gives that code back,
/// statement for statement, from `CFG::statements`.
pub proof fn lemma_statements_round_trip(cfg: CFG, code: Seq<Stmt>)
    requires
        view_blocks(cfg.blocks@) == blocks_of(view_stmts(code)),
        labels_lead(view_stmts(code)),
    ensures
        flatten_blocks(view_blocks(cfg.blocks@)) == view_stmts(code),
{
    lemma_flatten_blocks_of(view_stmts(code));
}

} // verus!
