use vstd::prelude::*;
use crate::ops::{BinOp, RelOp};
use crate::value::{Type, Value};

verus! {

/// An operand of three-address code: a variable or temporary with its SSA
/// version, a constant, or a machine location.
#[derive(Clone, Copy, PartialEq, Eq, Structural, Hash, Debug)]
pub enum Oper {
    Var(usize, usize),
    Temp(usize, usize),
    Value(Value),
    StackPop,
    Register(usize),
    ReturnValue,
    StackLocation(usize),
}

/// `o`, renamed to version `ssa` where it is the variable (or temporary)
/// that `value` names.
pub open spec fn oper_with_ssa(o: Oper, value: Oper, ssa: usize) -> Oper {
    match (o, value) {
        (Oper::Var(v, _), Oper::Var(a, _)) => if v == a { Oper::Var(v, ssa) } else { o },
        (Oper::Temp(v, _), Oper::Temp(a, _)) => if v == a { Oper::Temp(v, ssa) } else { o },
        _ => o,
    }
}

pub open spec fn is_var_or_temp(o: Oper) -> bool {
    o is Var || o is Temp
}

/// `o` as a one-element list if it is a variable or temporary, else empty.
pub open spec fn var_or_temp_list(o: Oper) -> Seq<Oper> {
    if is_var_or_temp(o) { seq![o] } else { Seq::empty() }
}

impl Oper {
    /// The symbol of a variable or temporary, and whether it is a variable.
    pub fn as_non_ssa(&self) -> (r: (usize, bool))
        requires
            is_var_or_temp(*self),
        ensures
            match *self {
                Oper::Var(v, _) => r == (v, true),
                Oper::Temp(v, _) => r == (v, false),
                _ => false,
            },
    {
        match self {
            Oper::Var(value, _) => (*value, true),
            Oper::Temp(value, _) => (*value, false),
            _ => (0, false),
        }
    }

    /// Replaces the operand by `b` if it is `a`; says whether it did.
    pub fn replace_oper_with(&mut self, a: &Oper, b: &Oper) -> (r: bool)
        ensures
            r == (*old(self) == *a),
            *final(self) == (if r { *b } else { *old(self) }),
    {
        if *self == *a {
            *self = *b;
            true
        } else {
            false
        }
    }

    /// Sets the SSA version to `ssa` where this is the variable (or
    /// temporary) that `value` names.
    pub fn replace_with_ssa(&mut self, value: Oper, ssa: usize)
        ensures
            *final(self) == oper_with_ssa(*old(self), value, ssa),
    {
        match *self {
            Oper::Var(v, _) => {
                if let Oper::Var(a, _) = value {
                    if v == a {
                        *self = Oper::Var(v, ssa);
                    }
                }
            },
            Oper::Temp(v, _) => {
                if let Oper::Temp(a, _) = value {
                    if v == a {
                        *self = Oper::Temp(v, ssa);
                    }
                }
            },
            _ => {},
        }
    }
}

/// The right-hand side of a three-address statement.
#[derive(Clone, PartialEq, Debug)]
pub enum Expr {
    Binary(Oper, BinOp, Oper),
    Logical(Oper, RelOp, Oper),
    Oper(Oper),
    Phi(Vec<(Oper, usize)>),
}

/// The variables among the arguments of a phi function, in order.
pub open spec fn phi_vars(args: Seq<(Oper, usize)>) -> Seq<Oper>
    decreases args.len(),
{
    if args.len() == 0 {
        Seq::empty()
    } else if args.last().0 is Var {
        phi_vars(args.drop_last()).push(args.last().0)
    } else {
        phi_vars(args.drop_last())
    }
}

/// Phi arguments with `a` replaced by `b`.
pub open spec fn phi_replaced(args: Seq<(Oper, usize)>, a: Oper, b: Oper) -> Seq<(Oper, usize)> {
    args.map_values(|p: (Oper, usize)| if p.0 == a { (b, p.1) } else { p })
}

impl Expr {
    /// The operands that are variables or temporaries (for a phi function,
    /// its variables).
    pub open spec fn used_spec(self) -> Seq<Oper> {
        self@.uses()
    }

    /// The expression with every operand `a` replaced by `b`.
    pub open spec fn replaced(self, a: Oper, b: Oper) -> Expr {
        match self {
            Expr::Oper(o) => Expr::Oper(if o == a { b } else { o }),
            Expr::Binary(l, op, r) => Expr::Binary(if l == a { b } else { l }, op, if r == a { b } else { r }),
            Expr::Logical(l, op, r) => Expr::Logical(if l == a { b } else { l }, op, if r == a { b } else { r }),
            Expr::Phi(args) => self,
        }
    }

    /// Whether the expression has an operand `a`.
    pub open spec fn mentions(self, a: Oper) -> bool {
        match self {
            Expr::Oper(o) => o == a,
            Expr::Binary(l, _, r) => l == a || r == a,
            Expr::Logical(l, _, r) => l == a || r == a,
            Expr::Phi(args) => exists|i: int| 0 <= i < args@.len() && (#[trigger] args@[i]).0 == a,
        }
    }

    pub fn oper_used(&self) -> (r: Vec<Oper>)
        ensures
            r@ == self.used_spec(),
    {
        match self {
            Expr::Oper(o) => var_or_temp_vec(*o),
            Expr::Binary(l, _, r) => {
                let mut v = var_or_temp_vec(*l);
                let mut w = var_or_temp_vec(*r);
                v.append(&mut w);
                v
            },
            Expr::Logical(l, _, r) => {
                let mut v = var_or_temp_vec(*l);
                let mut w = var_or_temp_vec(*r);
                v.append(&mut w);
                v
            },
            Expr::Phi(args) => {
                let mut used: Vec<Oper> = Vec::new();
                let mut i: usize = 0;
                while i < args.len()
                    invariant
                        i <= args@.len(),
                        used@ == phi_vars(args@.take(i as int)),
                    decreases args@.len() - i,
                {
                    assert(args@.take(i + 1).drop_last() =~= args@.take(i as int));
                    if let Oper::Var(_, _) = args[i].0 {
                        used.push(args[i].0);
                    }
                    i = i + 1;
                }
                assert(args@.take(args@.len() as int) =~= args@);
                used
            },
        }
    }

    /// Replaces every operand `a` by `b` (in a phi function, every argument
    /// `a`); says whether one was replaced.
    pub fn replace_oper_with(&mut self, a: &Oper, b: &Oper) -> (r: bool)
        ensures
            r == old(self).mentions(*a),
            match *old(self) {
                Expr::Phi(args) => *final(self) matches Expr::Phi(nargs) && nargs@ == phi_replaced(args@, *a, *b),
                _ => *final(self) == old(self).replaced(*a, *b),
            },
    {
        match self {
            Expr::Oper(o) => o.replace_oper_with(a, b),
            Expr::Binary(l, _, r) => {
                let a_b = l.replace_oper_with(a, b);
                let b_b = r.replace_oper_with(a, b);
                a_b || b_b
            },
            Expr::Logical(l, _, r) => {
                let a_b = l.replace_oper_with(a, b);
                let b_b = r.replace_oper_with(a, b);
                a_b || b_b
            },
            Expr::Phi(args) => {
                let ghost orig = args@;
                let mut res = false;
                let mut i: usize = 0;
                while i < args.len()
                    invariant
                        i <= args@.len(),
                        args@.len() == orig.len(),
                        forall|j: int| 0 <= j < i ==> #[trigger] args@[j] == (if orig[j].0 == *a { (*b, orig[j].1) } else { orig[j] }),
                        forall|j: int| i <= j < args@.len() ==> #[trigger] args@[j] == orig[j],
                        res == exists|j: int| 0 <= j < i && (#[trigger] orig[j]).0 == *a,
                    decreases args@.len() - i,
                {
                    if args[i].0 == *a {
                        let blk = args[i].1;
                        args.set(i, (*b, blk));
                        res = true;
                    }
                    i = i + 1;
                }
                assert(args@ =~= phi_replaced(orig, *a, *b));
                res
            },
        }
    }

    /// Renames the variable (or temporary) that `value` names to version
    /// `ssa` in a binary, relational or single-operand expression.
    pub fn replace_with_ssa(&mut self, value: Oper, ssa: usize)
        ensures
            *final(self) == expr_with_ssa(*old(self), value, ssa),
    {
        match self {
            Expr::Oper(o) => o.replace_with_ssa(value, ssa),
            Expr::Binary(l, _, r) => {
                l.replace_with_ssa(value, ssa);
                r.replace_with_ssa(value, ssa);
            },
            Expr::Logical(l, _, r) => {
                l.replace_with_ssa(value, ssa);
                r.replace_with_ssa(value, ssa);
            },
            _ => {},
        }
    }
}

fn var_or_temp_vec(o: Oper) -> (r: Vec<Oper>)
    ensures
        r@ == var_or_temp_list(o),
{
    match o {
        Oper::Var(_, _) | Oper::Temp(_, _) => {
            let mut v: Vec<Oper> = Vec::new();
            v.push(o);
            assert(v@ =~= seq![o]);
            v
        },
        _ => Vec::new(),
    }
}

/// A statement of three-address code. A parallel copy holds its
/// (destination, source) pairs, all of which take effect at once.
#[derive(Clone, PartialEq, Debug)]
pub enum Stmt {
    Tac(Oper, Expr),
    Label(usize),
    NamedLabel(usize),
    Jump(usize),
    CJump(Expr, usize),
    CastAs(Oper, Type),
    Call(usize, usize),
    StackPushAllReg,
    StackPopAllReg,
    StackPush(Oper),
    Return(Option<Oper>),
    ParallelCopy(Vec<(Oper, Oper)>),
}

/// The destinations of a parallel copy that are variables or temporaries.
pub open spec fn copy_defs(c: Seq<(Oper, Oper)>) -> Seq<Oper>
    decreases c.len(),
{
    if c.len() == 0 {
        Seq::empty()
    } else {
        copy_defs(c.drop_last()) + var_or_temp_list(c.last().0)
    }
}

/// The sources of a parallel copy that are variables or temporaries.
pub open spec fn copy_uses(c: Seq<(Oper, Oper)>) -> Seq<Oper>
    decreases c.len(),
{
    if c.len() == 0 {
        Seq::empty()
    } else {
        copy_uses(c.drop_last()) + var_or_temp_list(c.last().1)
    }
}

pub open spec fn swap_if(o: Oper, a: Oper, b: Oper) -> Oper {
    if o == a { b } else { o }
}

/// The arguments of a phi function other than those whose operand is `x`.
pub open spec fn phi_without(args: Seq<(Oper, usize)>, x: Oper) -> Seq<(Oper, usize)>
    decreases args.len(),
{
    if args.len() == 0 {
        Seq::empty()
    } else if args.last().0 != x {
        phi_without(args.drop_last(), x).push(args.last())
    } else {
        phi_without(args.drop_last(), x)
    }
}

impl Stmt {
    /// The operands that the statement defines.
    pub open spec fn def_spec(self) -> Seq<Oper> {
        self@.defs()
    }

    /// The operands that the statement reads.
    pub open spec fn used_spec(self) -> Seq<Oper> {
        self@.uses()
    }

    /// Whether the statement is the label `label` or jumps to it.
    pub fn contains_label(&self, label: usize) -> (r: bool)
        ensures
            r == (match *self {
                Stmt::Label(l) => l == label,
                Stmt::Jump(j) => j == label,
                Stmt::CJump(_, cj) => cj == label,
                _ => false,
            }),
    {
        match self {
            Stmt::Label(l) => *l == label,
            Stmt::Jump(j) => *j == label,
            Stmt::CJump(_, cj) => *cj == label,
            _ => false,
        }
    }

    /// Makes a label, jump or conditional jump refer to `label`.
    pub fn replace_label(&mut self, label: usize)
        ensures
            *final(self) == (match *old(self) {
                Stmt::Label(_) => Stmt::Label(label),
                Stmt::Jump(_) => Stmt::Jump(label),
                Stmt::CJump(c, _) => Stmt::CJump(c, label),
                _ => *old(self),
            }),
    {
        match self {
            Stmt::Label(l) => {
                *l = label;
            },
            Stmt::Jump(j) => {
                *j = label;
            },
            Stmt::CJump(_, cj) => {
                *cj = label;
            },
            _ => {},
        }
    }

    /// The operands that the statement defines.
    pub fn def(&self) -> (r: Vec<Oper>)
        ensures
            r@ == self.def_spec(),
    {
        match self {
            Stmt::Tac(lval, _) => var_or_temp_vec(*lval),
            Stmt::ParallelCopy(copies) => {
                let mut v: Vec<Oper> = Vec::new();
                let mut i: usize = 0;
                while i < copies.len()
                    invariant
                        i <= copies@.len(),
                        v@ == copy_defs(copies@.take(i as int)),
                    decreases copies@.len() - i,
                {
                    assert(copies@.take(i + 1).drop_last() =~= copies@.take(i as int));
                    let mut w = var_or_temp_vec(copies[i].0);
                    v.append(&mut w);
                    i = i + 1;
                }
                assert(copies@.take(copies@.len() as int) =~= copies@);
                v
            },
            _ => Vec::new(),
        }
    }

    /// The operands that the statement reads.
    pub fn used(&self) -> (r: Vec<Oper>)
        ensures
            r@ == self.used_spec(),
    {
        match self {
            Stmt::Tac(_, rval) => rval.oper_used(),
            Stmt::CJump(cond, _) => cond.oper_used(),
            Stmt::StackPush(oper) => {
                let mut v: Vec<Oper> = Vec::new();
                v.push(*oper);
                assert(v@ =~= seq![*oper]);
                v
            },
            Stmt::CastAs(oper, _) => {
                let mut v: Vec<Oper> = Vec::new();
                v.push(*oper);
                assert(v@ =~= seq![*oper]);
                v
            },
            Stmt::ParallelCopy(copies) => {
                let mut v: Vec<Oper> = Vec::new();
                let mut i: usize = 0;
                while i < copies.len()
                    invariant
                        i <= copies@.len(),
                        v@ == copy_uses(copies@.take(i as int)),
                    decreases copies@.len() - i,
                {
                    assert(copies@.take(i + 1).drop_last() =~= copies@.take(i as int));
                    let mut w = var_or_temp_vec(copies[i].1);
                    v.append(&mut w);
                    i = i + 1;
                }
                assert(copies@.take(copies@.len() as int) =~= copies@);
                v
            },
            Stmt::Return(oper) => match oper {
                Some(o) => var_or_temp_vec(*o),
                None => Vec::new(),
            },
            _ => Vec::new(),
        }
    }

    /// Replaces the defined operand `a` by `b`. For an assignment, whether
    /// it was `a`; for a parallel copy, whether every destination was `a`;
    /// otherwise `false`.
    pub fn replace_all_oper_def_with(&mut self, a: &Oper, b: &Oper) -> (r: bool)
        ensures
            final(self)@ == old(self)@.subst_def(*a, *b),
            match *old(self) {
                Stmt::Tac(l, e) => r == (l == *a) && *final(self) == Stmt::Tac(swap_if(l, *a, *b), e),
                Stmt::ParallelCopy(c) => *final(self) matches Stmt::ParallelCopy(nc) && nc@ == c@.map_values(
                    |p: (Oper, Oper)| (swap_if(p.0, *a, *b), p.1),
                ) && r == (forall|i: int| 0 <= i < c@.len() ==> (#[trigger] c@[i]).0 == *a),
                _ => !r && *final(self) == *old(self),
            },
    {
        match self {
            Stmt::Tac(lval, _) => lval.replace_oper_with(a, b),
            Stmt::ParallelCopy(copies) => {
                let ghost orig = copies@;
                let mut res: bool = true;
                let mut i: usize = 0;
                while i < copies.len()
                    invariant
                        i <= copies@.len(),
                        copies@.len() == orig.len(),
                        forall|j: int| 0 <= j < i ==> #[trigger] copies@[j] == (swap_if(orig[j].0, *a, *b), orig[j].1),
                        forall|j: int| i <= j < copies@.len() ==> #[trigger] copies@[j] == orig[j],
                        res == (forall|j: int| 0 <= j < i ==> (#[trigger] orig[j]).0 == *a),
                    decreases copies@.len() - i,
                {
                    let (mut d, src) = copies[i];
                    let hit = d.replace_oper_with(a, b);
                    copies.set(i, (d, src));
                    res = res && hit;
                    i = i + 1;
                }
                assert(copies@ =~= orig.map_values(|p: (Oper, Oper)| (swap_if(p.0, *a, *b), p.1)));
                res
            },
            _ => false,
        }
    }

    /// Replaces the read operand `a` by `b`; says whether one was replaced
    /// (for a parallel copy, whether every source was `a`).
    pub fn replace_all_oper_use_with(&mut self, a: &Oper, b: &Oper) -> (r: bool)
        ensures
            final(self)@ == old(self)@.subst_use(*a, *b),
            match *old(self) {
                Stmt::Tac(l, e) => r == e.mentions(*a) && (match e {
                    Expr::Phi(args) => *final(self) matches Stmt::Tac(nl, Expr::Phi(nargs)) && nl == l && nargs@ == phi_replaced(args@, *a, *b),
                    _ => *final(self) == Stmt::Tac(l, e.replaced(*a, *b)),
                }),
                Stmt::CJump(e, lab) => r == e.mentions(*a) && (match e {
                    Expr::Phi(args) => *final(self) matches Stmt::CJump(Expr::Phi(nargs), nlab) && nlab == lab && nargs@ == phi_replaced(args@, *a, *b),
                    _ => *final(self) == Stmt::CJump(e.replaced(*a, *b), lab),
                }),
                Stmt::StackPush(o) => r == (o == *a) && *final(self) == Stmt::StackPush(swap_if(o, *a, *b)),
                Stmt::CastAs(o, t) => r == (o == *a) && *final(self) == Stmt::CastAs(swap_if(o, *a, *b), t),
                Stmt::Return(Some(o)) => r == (o == *a) && *final(self) == Stmt::Return(Some(swap_if(o, *a, *b))),
                Stmt::ParallelCopy(c) => *final(self) matches Stmt::ParallelCopy(nc) && nc@ == c@.map_values(
                    |p: (Oper, Oper)| (p.0, swap_if(p.1, *a, *b)),
                ) && r == (forall|i: int| 0 <= i < c@.len() ==> (#[trigger] c@[i]).1 == *a),
                _ => !r && *final(self) == *old(self),
            },
    {
        match self {
            Stmt::Tac(_, rval) => rval.replace_oper_with(a, b),
            Stmt::CJump(cond, _) => cond.replace_oper_with(a, b),
            Stmt::StackPush(oper) => oper.replace_oper_with(a, b),
            Stmt::CastAs(oper, _) => oper.replace_oper_with(a, b),
            Stmt::ParallelCopy(copies) => {
                let ghost orig = copies@;
                let mut res: bool = true;
                let mut i: usize = 0;
                while i < copies.len()
                    invariant
                        i <= copies@.len(),
                        copies@.len() == orig.len(),
                        forall|j: int| 0 <= j < i ==> #[trigger] copies@[j] == (orig[j].0, swap_if(orig[j].1, *a, *b)),
                        forall|j: int| i <= j < copies@.len() ==> #[trigger] copies@[j] == orig[j],
                        res == (forall|j: int| 0 <= j < i ==> (#[trigger] orig[j]).1 == *a),
                    decreases copies@.len() - i,
                {
                    let (d, mut src) = copies[i];
                    let hit = src.replace_oper_with(a, b);
                    copies.set(i, (d, src));
                    res = res && hit;
                    i = i + 1;
                }
                assert(copies@ =~= orig.map_values(|p: (Oper, Oper)| (p.0, swap_if(p.1, *a, *b))));
                res
            },
            Stmt::Return(oper) => {
                if let Some(oper) = oper {
                    oper.replace_oper_with(a, b)
                } else {
                    false
                }
            },
            _ => false,
        }
    }

    /// Renames the defined variable (or temporary) that `value` names to
    /// version `ssa`.
    pub fn replace_oper_def_with_ssa(&mut self, value: Oper, ssa: usize)
        ensures
            match *old(self) {
                Stmt::Tac(l, e) => *final(self) == Stmt::Tac(oper_with_ssa(l, value, ssa), e),
                Stmt::ParallelCopy(c) => *final(self) matches Stmt::ParallelCopy(nc) && nc@ == c@.map_values(
                    |p: (Oper, Oper)| (oper_with_ssa(p.0, value, ssa), p.1),
                ),
                _ => *final(self) == *old(self),
            },
    {
        match self {
            Stmt::Tac(lval, _) => lval.replace_with_ssa(value, ssa),
            Stmt::ParallelCopy(copies) => {
                let ghost orig = copies@;
                let mut i: usize = 0;
                while i < copies.len()
                    invariant
                        i <= copies@.len(),
                        copies@.len() == orig.len(),
                        forall|j: int| 0 <= j < i ==> #[trigger] copies@[j] == (oper_with_ssa(orig[j].0, value, ssa), orig[j].1),
                        forall|j: int| i <= j < copies@.len() ==> #[trigger] copies@[j] == orig[j],
                    decreases copies@.len() - i,
                {
                    let (mut d, src) = copies[i];
                    d.replace_with_ssa(value, ssa);
                    copies.set(i, (d, src));
                    i = i + 1;
                }
                assert(copies@ =~= orig.map_values(|p: (Oper, Oper)| (oper_with_ssa(p.0, value, ssa), p.1)));
            },
            _ => {},
        }
    }

    /// Renames the read variable (or temporary) that `value` names to
    /// version `ssa` (phi arguments are left alone).
    pub fn replace_oper_use_with_ssa(&mut self, value: Oper, ssa: usize)
        ensures
            match *old(self) {
                Stmt::Tac(l, e) => *final(self) matches Stmt::Tac(nl, ne) && nl == l && ne == expr_with_ssa(e, value, ssa),
                Stmt::CJump(e, lab) => *final(self) == Stmt::CJump(expr_with_ssa(e, value, ssa), lab),
                Stmt::StackPush(o) => *final(self) == Stmt::StackPush(oper_with_ssa(o, value, ssa)),
                Stmt::CastAs(o, t) => *final(self) == Stmt::CastAs(oper_with_ssa(o, value, ssa), t),
                Stmt::Return(Some(o)) => *final(self) == Stmt::Return(Some(oper_with_ssa(o, value, ssa))),
                Stmt::ParallelCopy(c) => *final(self) matches Stmt::ParallelCopy(nc) && nc@ == c@.map_values(
                    |p: (Oper, Oper)| (p.0, oper_with_ssa(p.1, value, ssa)),
                ),
                _ => *final(self) == *old(self),
            },
    {
        match self {
            Stmt::Tac(_, rval) => rval.replace_with_ssa(value, ssa),
            Stmt::CJump(cond, _) => cond.replace_with_ssa(value, ssa),
            Stmt::StackPush(oper) => oper.replace_with_ssa(value, ssa),
            Stmt::ParallelCopy(copies) => {
                let ghost orig = copies@;
                let mut i: usize = 0;
                while i < copies.len()
                    invariant
                        i <= copies@.len(),
                        copies@.len() == orig.len(),
                        forall|j: int| 0 <= j < i ==> #[trigger] copies@[j] == (orig[j].0, oper_with_ssa(orig[j].1, value, ssa)),
                        forall|j: int| i <= j < copies@.len() ==> #[trigger] copies@[j] == orig[j],
                    decreases copies@.len() - i,
                {
                    let (d, mut src) = copies[i];
                    src.replace_with_ssa(value, ssa);
                    copies.set(i, (d, src));
                    i = i + 1;
                }
                assert(copies@ =~= orig.map_values(|p: (Oper, Oper)| (p.0, oper_with_ssa(p.1, value, ssa))));
            },
            Stmt::CastAs(oper, _) => oper.replace_with_ssa(value, ssa),
            Stmt::Return(oper) => {
                if let Some(oper) = oper {
                    oper.replace_with_ssa(value, ssa)
                }
            },
            _ => {},
        }
    }

    /// Drops the arguments `x` from a phi assignment, which becomes a plain
    /// copy where one argument is left; says whether the statement is a
    /// phi assignment.
    pub fn patch_phi(&mut self, x: &Oper) -> (r: bool)
        ensures
            match *old(self) {
                Stmt::Tac(l, Expr::Phi(args)) => r && {
                    let rest = phi_without(args@, *x);
                    if rest.len() == 1 {
                        *final(self) == Stmt::Tac(l, Expr::Oper(rest[0].0))
                    } else {
                        *final(self) matches Stmt::Tac(nl, Expr::Phi(nargs)) && nl == l && nargs@ == rest
                    }
                },
                _ => !r && *final(self) == *old(self),
            },
    {
        match self {
            Stmt::Tac(lval, rval) => {
                let l = *lval;
                match rval {
                    Expr::Phi(args) => {
                        let ghost orig = args@;
                        let ghost mut k: int = 0;
                        let mut i: usize = 0;
                        assert(orig.take(0) =~= Seq::<(Oper, usize)>::empty());
                        assert(args@.take(0) =~= Seq::<(Oper, usize)>::empty());
                        assert(args@.skip(0) =~= orig.skip(0));
                        while i < args.len()
                            invariant
                                i <= args@.len(),
                                0 <= k <= orig.len(),
                                phi_without(orig.take(k), *x) == args@.take(i as int),
                                args@.skip(i as int) == orig.skip(k),
                            decreases args@.len() - i,
                        {
                            proof {
                                assert(args@[i as int] == args@.skip(i as int)[0]);
                                assert(orig.skip(k).len() == args@.skip(i as int).len());
                                assert(k < orig.len());
                                assert(orig.skip(k)[0] == orig[k]);
                                assert(orig.take(k + 1).drop_last() =~= orig.take(k));
                                assert(orig.take(k + 1).last() == orig[k]);
                            }
                            if args[i].0 == *x {
                                let ghost before = args@;
                                args.remove(i);
                                proof {
                                    assert(args@.take(i as int) =~= before.take(i as int));
                                    assert forall|j: int| 0 <= j < args@.len() - i implies #[trigger] args@.skip(i as int)[j] == orig.skip(k + 1)[j] by {
                                        assert(args@[i + j] == before[i + j + 1]);
                                        assert(before.skip(i as int)[j + 1] == orig.skip(k)[j + 1]);
                                    }
                                    assert(args@.skip(i as int) =~= orig.skip(k + 1));
                                    assert(phi_without(orig.take(k + 1), *x) == phi_without(orig.take(k), *x));
                                    k = k + 1;
                                }
                            } else {
                                proof {
                                    assert(args@.take(i + 1) =~= args@.take(i as int).push(args@[i as int]));
                                    assert(phi_without(orig.take(k + 1), *x) == phi_without(orig.take(k), *x).push(orig[k]));
                                    assert forall|j: int| 0 <= j < args@.len() - i - 1 implies #[trigger] args@.skip(i + 1)[j] == orig.skip(k + 1)[j] by {
                                        assert(args@.skip(i as int)[j + 1] == orig.skip(k)[j + 1]);
                                    }
                                    assert(args@.skip(i + 1) =~= orig.skip(k + 1));
                                    k = k + 1;
                                }
                                i = i + 1;
                            }
                        }
                        proof {
                            assert(args@.take(i as int) =~= args@);
                            assert(orig.skip(k).len() == 0);
                            assert(orig.take(k) =~= orig);
                        }
                        if args.len() == 1 {
                            let o = args[0].0;
                            *rval = Expr::Oper(o);
                        }
                        true
                    },
                    _ => false,
                }
            },
            _ => false,
        }
    }
}

/// `e` with the variable (or temporary) that `value` names renamed to
/// version `ssa` (phi functions are left alone).
pub open spec fn expr_with_ssa(e: Expr, value: Oper, ssa: usize) -> Expr {
    match e {
        Expr::Oper(o) => Expr::Oper(oper_with_ssa(o, value, ssa)),
        Expr::Binary(l, op, r) => Expr::Binary(oper_with_ssa(l, value, ssa), op, oper_with_ssa(r, value, ssa)),
        Expr::Logical(l, op, r) => Expr::Logical(oper_with_ssa(l, value, ssa), op, oper_with_ssa(r, value, ssa)),
        Expr::Phi(_) => e,
    }
}

fn copy_pairs<A: Copy, B: Copy>(v: &Vec<(A, B)>) -> (r: Vec<(A, B)>)
    ensures
        r@ == v@,
{
    let mut r: Vec<(A, B)> = Vec::new();
    let mut i: usize = 0;
    while i < v.len()
        invariant
            i <= v@.len(),
            r@ == v@.take(i as int),
        decreases v@.len() - i,
    {
        r.push(v[i]);
        assert(r@ =~= v@.take(i + 1));
        i = i + 1;
    }
    assert(v@.take(v@.len() as int) =~= v@);
    r
}

impl Expr {
    /// A copy of the expression.
    pub fn duplicate(&self) -> (r: Expr)
        ensures
            r@ == self@,
    {
        match self {
            Expr::Binary(l, op, r) => Expr::Binary(*l, *op, *r),
            Expr::Logical(l, op, r) => Expr::Logical(*l, *op, *r),
            Expr::Oper(o) => Expr::Oper(*o),
            Expr::Phi(args) => Expr::Phi(copy_pairs(args)),
        }
    }
}

impl Stmt {
    /// A copy of the statement.
    pub fn duplicate(&self) -> (r: Stmt)
        ensures
            r@ == self@,
    {
        match self {
            Stmt::Tac(l, e) => Stmt::Tac(*l, e.duplicate()),
            Stmt::Label(l) => Stmt::Label(*l),
            Stmt::NamedLabel(l) => Stmt::NamedLabel(*l),
            Stmt::Jump(l) => Stmt::Jump(*l),
            Stmt::CJump(e, l) => Stmt::CJump(e.duplicate(), *l),
            Stmt::CastAs(o, t) => Stmt::CastAs(*o, *t),
            Stmt::Call(a, b) => Stmt::Call(*a, *b),
            Stmt::StackPushAllReg => Stmt::StackPushAllReg,
            Stmt::StackPopAllReg => Stmt::StackPopAllReg,
            Stmt::StackPush(o) => Stmt::StackPush(*o),
            Stmt::Return(o) => Stmt::Return(*o),
            Stmt::ParallelCopy(c) => Stmt::ParallelCopy(copy_pairs(c)),
        }
    }
}

/// An expression as a mathematical value.
pub enum ExprV {
    Binary(Oper, BinOp, Oper),
    Logical(Oper, RelOp, Oper),
    Oper(Oper),
    Phi(Seq<(Oper, usize)>),
}

impl ExprV {
    /// The operands that are variables or temporaries (for a phi function,
    /// its variables).
    pub open spec fn uses(self) -> Seq<Oper> {
        match self {
            ExprV::Oper(o) => var_or_temp_list(o),
            ExprV::Binary(l, _, r) => var_or_temp_list(l) + var_or_temp_list(r),
            ExprV::Logical(l, _, r) => var_or_temp_list(l) + var_or_temp_list(r),
            ExprV::Phi(args) => phi_vars(args),
        }
    }
}

impl View for Expr {
    type V = ExprV;

    open spec fn view(&self) -> ExprV {
        match *self {
            Expr::Binary(l, op, r) => ExprV::Binary(l, op, r),
            Expr::Logical(l, op, r) => ExprV::Logical(l, op, r),
            Expr::Oper(o) => ExprV::Oper(o),
            Expr::Phi(args) => ExprV::Phi(args@),
        }
    }
}

/// A statement as a mathematical value.
pub enum StmtV {
    Tac(Oper, ExprV),
    Label(usize),
    NamedLabel(usize),
    Jump(usize),
    CJump(ExprV, usize),
    CastAs(Oper, Type),
    Call(usize, usize),
    StackPushAllReg,
    StackPopAllReg,
    StackPush(Oper),
    Return(Option<Oper>),
    ParallelCopy(Seq<(Oper, Oper)>),
}

impl StmtV {
    /// The operands that the statement defines.
    pub open spec fn defs(self) -> Seq<Oper> {
        match self {
            StmtV::Tac(l, _) => var_or_temp_list(l),
            StmtV::ParallelCopy(c) => copy_defs(c),
            _ => Seq::empty(),
        }
    }

    /// The operands that the statement reads.
    pub open spec fn uses(self) -> Seq<Oper> {
        match self {
            StmtV::Tac(_, r) => r.uses(),
            StmtV::CJump(c, _) => c.uses(),
            StmtV::StackPush(o) => seq![o],
            StmtV::CastAs(o, _) => seq![o],
            StmtV::ParallelCopy(c) => copy_uses(c),
            StmtV::Return(Some(o)) => var_or_temp_list(o),
            _ => Seq::empty(),
        }
    }
}

impl View for Stmt {
    type V = StmtV;

    open spec fn view(&self) -> StmtV {
        match *self {
            Stmt::Tac(l, e) => StmtV::Tac(l, e@),
            Stmt::Label(l) => StmtV::Label(l),
            Stmt::NamedLabel(l) => StmtV::NamedLabel(l),
            Stmt::Jump(l) => StmtV::Jump(l),
            Stmt::CJump(e, l) => StmtV::CJump(e@, l),
            Stmt::CastAs(o, t) => StmtV::CastAs(o, t),
            Stmt::Call(a, b) => StmtV::Call(a, b),
            Stmt::StackPushAllReg => StmtV::StackPushAllReg,
            Stmt::StackPopAllReg => StmtV::StackPopAllReg,
            Stmt::StackPush(o) => StmtV::StackPush(o),
            Stmt::Return(o) => StmtV::Return(o),
            Stmt::ParallelCopy(c) => StmtV::ParallelCopy(c@),
        }
    }
}

impl ExprV {
    /// The expression with every operand `a` replaced by `b`.
    pub open spec fn subst(self, a: Oper, b: Oper) -> ExprV {
        match self {
            ExprV::Oper(o) => ExprV::Oper(swap_if(o, a, b)),
            ExprV::Binary(l, op, r) => ExprV::Binary(swap_if(l, a, b), op, swap_if(r, a, b)),
            ExprV::Logical(l, op, r) => ExprV::Logical(swap_if(l, a, b), op, swap_if(r, a, b)),
            ExprV::Phi(args) => ExprV::Phi(phi_replaced(args, a, b)),
        }
    }
}

impl StmtV {
    /// The statement with its defined operand `a` replaced by `b`.
    pub open spec fn subst_def(self, a: Oper, b: Oper) -> StmtV {
        match self {
            StmtV::Tac(l, e) => StmtV::Tac(swap_if(l, a, b), e),
            StmtV::ParallelCopy(c) => StmtV::ParallelCopy(c.map_values(|p: (Oper, Oper)| (swap_if(p.0, a, b), p.1))),
            _ => self,
        }
    }

    /// The statement with its read operand `a` replaced by `b`.
    pub open spec fn subst_use(self, a: Oper, b: Oper) -> StmtV {
        match self {
            StmtV::Tac(l, e) => StmtV::Tac(l, e.subst(a, b)),
            StmtV::CJump(e, lab) => StmtV::CJump(e.subst(a, b), lab),
            StmtV::StackPush(o) => StmtV::StackPush(swap_if(o, a, b)),
            StmtV::CastAs(o, t) => StmtV::CastAs(swap_if(o, a, b), t),
            StmtV::Return(Some(o)) => StmtV::Return(Some(swap_if(o, a, b))),
            StmtV::ParallelCopy(c) => StmtV::ParallelCopy(c.map_values(|p: (Oper, Oper)| (p.0, swap_if(p.1, a, b)))),
            _ => self,
        }
    }
}

} // verus!

verus! {

fn same_args(a: &Vec<(Oper, usize)>, b: &Vec<(Oper, usize)>) -> (r: bool)
    ensures
        r == (a@ == b@),
{
    if a.len() != b.len() {
        return false;
    }
    let mut i: usize = 0;
    while i < a.len()
        invariant
            i <= a@.len(),
            a@.len() == b@.len(),
            forall|j: int| 0 <= j < i ==> a@[j] == b@[j],
        decreases a@.len() - i,
    {
        if !(a[i].0 == b[i].0 && a[i].1 == b[i].1) {
            return false;
        }
        i = i + 1;
    }
    assert(a@ =~= b@);
    true
}

fn same_copies(a: &Vec<(Oper, Oper)>, b: &Vec<(Oper, Oper)>) -> (r: bool)
    ensures
        r == (a@ == b@),
{
    if a.len() != b.len() {
        return false;
    }
    let mut i: usize = 0;
    while i < a.len()
        invariant
            i <= a@.len(),
            a@.len() == b@.len(),
            forall|j: int| 0 <= j < i ==> a@[j] == b@[j],
        decreases a@.len() - i,
    {
        if !(a[i].0 == b[i].0 && a[i].1 == b[i].1) {
            return false;
        }
        i = i + 1;
    }
    assert(a@ =~= b@);
    true
}

impl Expr {
    /// Whether the two expressions are equal as values.
    pub fn same_as(&self, other: &Expr) -> (r: bool)
        ensures
            r == (self@ == other@),
    {
        match (self, other) {
            (Expr::Binary(a, o, b), Expr::Binary(c, p, d)) => *a == *c && *o == *p && *b == *d,
            (Expr::Logical(a, o, b), Expr::Logical(c, p, d)) => *a == *c && *o == *p && *b == *d,
            (Expr::Oper(a), Expr::Oper(b)) => *a == *b,
            (Expr::Phi(a), Expr::Phi(b)) => same_args(a, b),
            _ => false,
        }
    }
}

impl Stmt {
    /// Whether the two statements are equal as values.
    pub fn same_as(&self, other: &Stmt) -> (r: bool)
        ensures
            r == (self@ == other@),
    {
        match (self, other) {
            (Stmt::Tac(a, e), Stmt::Tac(b, f)) => *a == *b && e.same_as(f),
            (Stmt::Label(a), Stmt::Label(b)) => *a == *b,
            (Stmt::NamedLabel(a), Stmt::NamedLabel(b)) => *a == *b,
            (Stmt::Jump(a), Stmt::Jump(b)) => *a == *b,
            (Stmt::CJump(e, a), Stmt::CJump(f, b)) => e.same_as(f) && *a == *b,
            (Stmt::CastAs(a, t), Stmt::CastAs(b, u)) => *a == *b && *t == *u,
            (Stmt::Call(a, x), Stmt::Call(b, y)) => *a == *b && *x == *y,
            (Stmt::StackPushAllReg, Stmt::StackPushAllReg) => true,
            (Stmt::StackPopAllReg, Stmt::StackPopAllReg) => true,
            (Stmt::StackPush(a), Stmt::StackPush(b)) => *a == *b,
            (Stmt::Return(a), Stmt::Return(b)) => match (a, b) {
                (Some(x), Some(y)) => *x == *y,
                (None, None) => true,
                _ => false,
            },
            (Stmt::ParallelCopy(a), Stmt::ParallelCopy(b)) => same_copies(a, b),
            _ => false,
        }
    }
}


/// The views of the statements of a block.
pub open spec fn block_view(b: Seq<Stmt>) -> Seq<StmtV> {
    b.map_values(|s: Stmt| s@)
}

/// The views of a block after a push.
pub broadcast proof fn lemma_block_view_push(b: Seq<Stmt>, s: Stmt)
    ensures
        #[trigger] block_view(b.push(s)) == block_view(b).push(s@),
{
    assert(block_view(b.push(s)) =~= block_view(b).push(s@));
}

/// The views of a list of blocks.
pub open spec fn blocks_view(bs: Seq<Vec<Stmt>>) -> Seq<Seq<StmtV>> {
    bs.map_values(|b: Vec<Stmt>| block_view(b@))
}

/// The views of a list of blocks after a push.
pub broadcast proof fn lemma_blocks_view_push(bs: Seq<Vec<Stmt>>, b: Vec<Stmt>)
    ensures
        #[trigger] blocks_view(bs.push(b)) == blocks_view(bs).push(block_view(b@)),
{
    assert(blocks_view(bs.push(b)) =~= blocks_view(bs).push(block_view(b@)));
}

} // verus!
