use vstd::prelude::*;
use crate::ast;
use crate::ir::{block_view, blocks_view, lemma_block_view_push, lemma_blocks_view_push, Expr, ExprV, Oper, Stmt, StmtV};
use crate::interner::{intern_index, intern_table, Interner};
use crate::ops::{BinOp, RelOp, spec_negated};
use crate::value::Type;

verus! {

/// `b` is `a` with statements appended.
pub open spec fn extends(a: Seq<Stmt>, b: Seq<Stmt>) -> bool {
    &&& a.len() <= b.len()
    &&& forall|i: int| 0 <= i < a.len() ==> #[trigger] b[i] == a[i]
}

/// The number of nodes of an expression.
pub open spec fn expr_size(e: ast::Expr) -> nat
    decreases e, 0nat,
{
    match e {
        ast::Expr::Value(_) => 1,
        ast::Expr::Variable(_) => 1,
        ast::Expr::Assign(_, _, b) => 1 + expr_size(*b),
        ast::Expr::Binary(l, _, r) => 1 + expr_size(*l) + expr_size(*r),
        ast::Expr::Logical(l, _, r) => 1 + expr_size(*l) + expr_size(*r),
        ast::Expr::Grouping(b) => 1 + expr_size(*b),
        ast::Expr::CastAs(b, _) => 1 + expr_size(*b),
        ast::Expr::Call(b, args) => 1 + expr_size(*b) + exprs_size(args@),
    }
}

pub open spec fn exprs_size(es: Seq<ast::Expr>) -> nat
    decreases es, 1nat,
{
    if es.len() == 0 {
        0
    } else {
        exprs_size(es.drop_last()) + expr_size(es.last())
    }
}

/// The number of nodes of a statement.
pub open spec fn stmt_size(s: ast::Stmt) -> nat
    decreases s, 0nat,
{
    match s {
        ast::Stmt::Block(ss) => 1 + stmts_size(ss@),
        ast::Stmt::If(c, b, o) => 1 + expr_size(*c) + stmt_size(*b) + match o {
            Some(x) => stmt_size(*x),
            None => 0,
        },
        ast::Stmt::While(c, b) => 1 + expr_size(*c) + stmt_size(*b),
        ast::Stmt::Expression(e) => 1 + expr_size(*e),
        ast::Stmt::Print(args) => 1 + exprs_size(args@),
        ast::Stmt::Return(o) => 1 + match o {
            Some(e) => expr_size(*e),
            None => 0,
        },
        ast::Stmt::Function(_, _, _, body) => 1 + stmts_size(body@),
    }
}

pub open spec fn stmts_size(ss: Seq<ast::Stmt>) -> nat
    decreases ss, 1nat,
{
    if ss.len() == 0 {
        0
    } else {
        stmts_size(ss.drop_last()) + stmt_size(ss.last())
    }
}

/// The expression translates to a variable (what a call needs as callee).
pub open spec fn yields_var(e: ast::Expr) -> bool
    decreases e,
{
    match e {
        ast::Expr::Variable(_) => true,
        ast::Expr::Assign(_, _, _) => true,
        ast::Expr::Grouping(b) => yields_var(*b),
        _ => false,
    }
}

/// The expression can be translated: calls are made on names and casts
/// on names, values, calls, or arithmetic and comparisons.
pub open spec fn translatable_expr(e: ast::Expr) -> bool
    decreases e, 0nat,
{
    match e {
        ast::Expr::Value(_) => true,
        ast::Expr::Variable(_) => true,
        ast::Expr::Assign(_, _, b) => translatable_expr(*b),
        ast::Expr::Binary(l, _, r) => translatable_expr(*l) && translatable_expr(*r),
        ast::Expr::Logical(l, _, r) => translatable_expr(*l) && translatable_expr(*r),
        ast::Expr::Grouping(b) => translatable_expr(*b),
        ast::Expr::CastAs(b, _) => castable(*b),
        ast::Expr::Call(b, args) => yields_var(*b) && translatable_expr(*b) && translatable_exprs(args@),
    }
}

pub open spec fn translatable_exprs(es: Seq<ast::Expr>) -> bool
    decreases es, 1nat,
{
    if es.len() == 0 {
        true
    } else {
        translatable_exprs(es.drop_last()) && translatable_expr(es.last())
    }
}

/// The expression can be cast.
pub open spec fn castable(e: ast::Expr) -> bool
    decreases e, 1nat,
{
    match e {
        ast::Expr::Value(_) => true,
        ast::Expr::Variable(_) => true,
        ast::Expr::Call(_, _) => translatable_expr(e),
        ast::Expr::Grouping(b) => castable(*b),
        ast::Expr::Binary(l, _, r) => translatable_expr(*l) && translatable_expr(*r),
        ast::Expr::Logical(l, _, r) => translatable_expr(*l) && translatable_expr(*r),
        _ => false,
    }
}

/// No function is declared inside the statement.
pub open spec fn fn_free(s: ast::Stmt) -> bool
    decreases s, 0nat,
{
    match s {
        ast::Stmt::Block(ss) => fn_free_all(ss@),
        ast::Stmt::If(_, b, o) => fn_free(*b) && match o {
            Some(x) => fn_free(*x),
            None => true,
        },
        ast::Stmt::While(_, b) => fn_free(*b),
        ast::Stmt::Function(_, _, _, _) => false,
        _ => true,
    }
}

pub open spec fn fn_free_all(ss: Seq<ast::Stmt>) -> bool
    decreases ss, 1nat,
{
    if ss.len() == 0 {
        true
    } else {
        fn_free_all(ss.drop_last()) && fn_free(ss.last())
    }
}

/// The statement can be translated: its expressions can, every return
/// gives a value, and no function is declared in an alternative.
pub open spec fn translatable_stmt(s: ast::Stmt) -> bool
    decreases s, 0nat,
{
    match s {
        ast::Stmt::Block(ss) => translatable_stmts(ss@),
        ast::Stmt::If(c, b, o) => translatable_expr(*c) && translatable_stmt(*b) && match o {
            Some(x) => translatable_stmt(*x) && fn_free(*x),
            None => true,
        },
        ast::Stmt::While(c, b) => translatable_expr(*c) && translatable_stmt(*b),
        ast::Stmt::Expression(e) => translatable_expr(*e),
        ast::Stmt::Print(args) => translatable_exprs(args@),
        ast::Stmt::Return(o) => match o {
            Some(e) => translatable_expr(*e),
            None => false,
        },
        ast::Stmt::Function(_, _, _, body) => translatable_stmts(body@),
    }
}

pub open spec fn translatable_stmts(ss: Seq<ast::Stmt>) -> bool
    decreases ss, 1nat,
{
    if ss.len() == 0 {
        true
    } else {
        translatable_stmts(ss.drop_last()) && translatable_stmt(ss.last())
    }
}

/// Translates the syntax tree into three-address code, one block of
/// statements per function.
pub struct LinearCodeTransformer {
    pub statements: Vec<Vec<Stmt>>,
    pub reg_count: usize,
    pub label_count: usize,
    pub backpatch: Vec<usize>,
}

/// Each block opens with the label of its function and ends with a return.
pub open spec fn function_block(b: Seq<Stmt>) -> bool {
    &&& b.len() > 0
    &&& b[0] is NamedLabel
    &&& b.last() is Return
}

impl LinearCodeTransformer {
    /// A transformer with no blocks and counters at zero.
    pub fn new() -> (r: Self)
        ensures
            r.statements@.len() == 0,
            r.reg_count == 0,
            r.label_count == 0,
            r.backpatch@.len() == 0,
    {
        LinearCodeTransformer { statements: Vec::new(), reg_count: 0, label_count: 0, backpatch: Vec::new() }
    }

    fn new_temporary(&mut self) -> (r: Oper)
        requires
            old(self).reg_count < usize::MAX,
        ensures
            r == Oper::Temp(old(self).reg_count as usize, 0),
            final(self).reg_count == old(self).reg_count + 1,
            final(self).label_count == old(self).label_count,
            final(self).statements == old(self).statements,
            final(self).backpatch == old(self).backpatch,
    {
        let count = self.reg_count;
        self.reg_count = self.reg_count + 1;
        Oper::Temp(count, 0)
    }

    fn new_label(&mut self) -> (r: usize)
        requires
            old(self).label_count < usize::MAX,
        ensures
            r == old(self).label_count,
            final(self).label_count == old(self).label_count + 1,
            final(self).reg_count == old(self).reg_count,
            final(self).statements == old(self).statements,
            final(self).backpatch == old(self).backpatch,
    {
        let label = self.label_count;
        self.label_count = self.label_count + 1;
        label
    }
}

/// The operand that translating `e` gives, where it is fixed by `e`
/// (`reg` is the first free temporary).
pub open spec fn expr_oper(e: ast::Expr, reg: usize) -> Option<Oper>
    decreases e,
{
    match e {
        ast::Expr::Value(v) => Some(Oper::Value(v)),
        ast::Expr::Variable(n) => Some(Oper::Var(n, 0)),
        ast::Expr::Assign(n, _, _) => Some(Oper::Var(n, 0)),
        ast::Expr::Binary(_, _, _) => Some(Oper::Temp(reg, 0)),
        ast::Expr::Logical(_, _, _) => Some(Oper::Temp(reg, 0)),
        ast::Expr::Grouping(b) => expr_oper(*b, reg),
        _ => None,
    }
}

pub open spec fn simple_oper(o: Oper) -> bool {
    o is Value || o is Var || o is Temp
}

/// What translating an expression gives: the block's code after it, the
/// next free temporary, and the operand that holds the value.
pub struct Ex {
    pub code: Seq<StmtV>,
    pub reg: nat,
    pub res: Oper,
}

/// `x` is the code `code`, the next free temporary `reg` and the operand `res`.
pub open spec fn ex_is(x: Ex, code: Seq<StmtV>, reg: nat, res: Oper) -> bool {
    &&& x.code == code
    &&& x.reg == reg
    &&& x.res == res
}

/// The code that translating `e` appends to `code`, with `reg` the first
/// free temporary: operands are used as they are; an assignment, a
/// computation or a call writes its value to a variable or a fresh
/// temporary; a comparison is stored negated.
pub open spec fn tr_expr(e: ast::Expr, code: Seq<StmtV>, reg: nat) -> Ex
    decreases expr_size(e), 1nat,
{
    match e {
        ast::Expr::Value(v) => Ex { code, reg, res: Oper::Value(v) },
        ast::Expr::Variable(n) => Ex { code, reg, res: Oper::Var(n, 0) },
        ast::Expr::Assign(n, _, l) => tr_assign(n, *l, code, reg),
        ast::Expr::Call(c, args) => tr_call(*c, args@, code, reg),
        ast::Expr::Binary(l, o, r) => tr_binary(*l, o, *r, code, reg),
        ast::Expr::Logical(l, o, r) => tr_logical(*l, o, *r, code, reg),
        ast::Expr::Grouping(b) => tr_expr(*b, code, reg),
        ast::Expr::CastAs(b, t) => tr_cast(*b, t, code, reg),
    }
}

/// `n := l`: the value of `l` (a call's result directly) copied into `n`.
pub open spec fn tr_assign(n: usize, l: ast::Expr, code: Seq<StmtV>, reg: nat) -> Ex
    decreases 1 + expr_size(l), 0nat,
{
    let x = match l {
        ast::Expr::Call(c, args) => tr_call(*c, args@, code, reg),
        _ => tr_expr(l, code, reg),
    };
    Ex { code: x.code.push(StmtV::Tac(Oper::Var(n, 0), ExprV::Oper(x.res))), reg: x.reg, res: Oper::Var(n, 0) }
}

/// `l o r` computed into a fresh temporary, taken before the operands.
pub open spec fn tr_binary(l: ast::Expr, o: BinOp, r: ast::Expr, code: Seq<StmtV>, reg: nat) -> Ex
    decreases 1 + expr_size(l) + expr_size(r), 0nat,
{
    let temp = Oper::Temp(reg as usize, 0);
    let a = tr_expr(l, code, reg + 1);
    let b = tr_expr(r, a.code, a.reg);
    Ex { code: b.code.push(StmtV::Tac(temp, ExprV::Binary(a.res, o, b.res))), reg: b.reg, res: temp }
}

/// The comparison `l o r` stored negated in a fresh temporary.
pub open spec fn tr_logical(l: ast::Expr, o: RelOp, r: ast::Expr, code: Seq<StmtV>, reg: nat) -> Ex
    decreases 1 + expr_size(l) + expr_size(r), 0nat,
{
    let temp = Oper::Temp(reg as usize, 0);
    let a = tr_expr(l, code, reg + 1);
    let b = tr_expr(r, a.code, a.reg);
    Ex { code: b.code.push(StmtV::Tac(temp, ExprV::Logical(a.res, spec_negated(o), b.res))), reg: b.reg, res: temp }
}

broadcast use lemma_block_view_push, lemma_blocks_view_push;

/// The code for arguments pushed on the stack one after the other, and the
/// next free temporary.
pub open spec fn tr_args(es: Seq<ast::Expr>, code: Seq<StmtV>, reg: nat) -> (Seq<StmtV>, nat)
    decreases exprs_size(es), 2nat,
{
    if es.len() == 0 {
        (code, reg)
    } else {
        proof {
            assert(expr_size(es.last()) >= 1);
        }
        let (c, r) = tr_args(es.drop_last(), code, reg);
        let x = tr_expr(es.last(), c, r);
        (x.code.push(StmtV::StackPush(x.res)), x.reg)
    }
}

/// A call: registers saved, arguments pushed, the callee called, registers
/// restored and the returned value copied into a fresh temporary.
pub open spec fn tr_call(callee: ast::Expr, args: Seq<ast::Expr>, code: Seq<StmtV>, reg: nat) -> Ex
    decreases 1 + expr_size(callee) + exprs_size(args), 0nat,
{
    let (c, r) = tr_args(args, code.push(StmtV::StackPushAllReg), reg);
    let f = tr_expr(callee, c, r);
    match f.res {
        Oper::Var(sym, _) => {
            let temp = Oper::Temp(f.reg as usize, 0);
            Ex {
                code: f.code.push(StmtV::Call(sym, args.len() as usize)).push(StmtV::StackPopAllReg).push(
                    StmtV::Tac(temp, ExprV::Oper(Oper::ReturnValue))),
                reg: f.reg + 1,
                res: temp,
            }
        },
        _ => Ex { code: f.code, reg: f.reg, res: Oper::Temp(0, 0) },
    }
}

/// A cast: the value is copied into a fresh temporary, which is cast.
pub open spec fn tr_cast(e: ast::Expr, t: Type, code: Seq<StmtV>, reg: nat) -> Ex
    decreases expr_size(e) + 1, 0nat,
{
    let temp = Oper::Temp(reg as usize, 0);
    match e {
        ast::Expr::Variable(n) => {
            let x = tr_expr(e, code.push(StmtV::Tac(temp, ExprV::Oper(Oper::Var(n, 0)))), reg + 1);
            Ex { code: x.code.push(StmtV::CastAs(temp, t)), reg: x.reg, res: temp }
        },
        ast::Expr::Value(v) => {
            let x = tr_expr(e, code.push(StmtV::Tac(temp, ExprV::Oper(Oper::Value(v)))), reg + 1);
            Ex { code: x.code.push(StmtV::CastAs(temp, t)), reg: x.reg, res: temp }
        },
        ast::Expr::Grouping(b) => tr_cast(*b, t, code, reg),
        ast::Expr::Call(_, _) | ast::Expr::Binary(_, _, _) | ast::Expr::Logical(_, _, _) => {
            let x = tr_expr(e, code, reg + 1);
            Ex { code: x.code.push(StmtV::Tac(temp, ExprV::Oper(x.res))).push(StmtV::CastAs(temp, t)), reg: x.reg, res: temp }
        },
        _ => Ex { code, reg, res: Oper::Temp(0, 0) },
    }
}

/// The state of a translation: the block being written, the next free
/// temporary and label, the positions of jumps that await their target,
/// the table of interned names, and the blocks of the functions done.
#[verifier::ext_equal]
pub struct Tr {
    pub code: Seq<StmtV>,
    pub reg: nat,
    pub lab: nat,
    pub bp: Seq<usize>,
    pub names: Seq<Seq<char>>,
    pub funs: Seq<Seq<StmtV>>,
}

/// The state after code and temporaries were taken by an expression.
pub open spec fn with_ex(t: Tr, x: Ex) -> Tr {
    Tr { code: x.code, reg: x.reg, lab: t.lab, bp: t.bp, names: t.names, funs: t.funs }
}

/// The state with `code` as its block.
pub open spec fn with_code(t: Tr, code: Seq<StmtV>) -> Tr {
    Tr { code, reg: t.reg, lab: t.lab, bp: t.bp, names: t.names, funs: t.funs }
}

/// The state with `names` as its table of interned names.
pub open spec fn with_names(t: Tr, names: Seq<Seq<char>>) -> Tr {
    Tr { code: t.code, reg: t.reg, lab: t.lab, bp: t.bp, names, funs: t.funs }
}

/// The name under which `print` is called.
pub open spec fn print_name() -> Seq<char> {
    "print"@
}

/// The arguments of a function taken off the stack, the last one first.
pub open spec fn arg_pops(args: Seq<(usize, Type)>) -> Seq<StmtV> {
    Seq::new(args.len(), |j: int| StmtV::Tac(Oper::Var(args[args.len() - 1 - j].0, 0), ExprV::Oper(Oper::StackPop)))
}

/// `code` with the jumps at the positions in `bp` sent to `label`.
pub open spec fn patched(code: Seq<StmtV>, bp: Seq<usize>, label: usize) -> Seq<StmtV> {
    Seq::new(code.len(), |i: int| if bp.contains(i as usize) { StmtV::Jump(label) } else { code[i] })
}

/// What translating a statement does to the state.
pub open spec fn tr_stmt(s: ast::Stmt, t: Tr) -> Tr
    decreases stmt_size(s), 1nat,
{
    match s {
        ast::Stmt::If(c, b, o) => tr_if(*c, *b, o, t),
        ast::Stmt::Expression(e) => with_ex(t, tr_expr(*e, t.code, t.reg)),
        ast::Stmt::Block(ss) => tr_stmts(ss@, t),
        ast::Stmt::While(c, b) => tr_while(*c, *b, t),
        ast::Stmt::Print(args) => tr_print(args@, t),
        ast::Stmt::Return(o) => tr_return(o, t),
        ast::Stmt::Function(sym, args, _, body) => tr_function(sym, args@, body@, t),
    }
}

/// `return e`: the value computed and returned.
pub open spec fn tr_return(o: Option<Box<ast::Expr>>, t: Tr) -> Tr
    decreases 1 + match o {
        Some(e) => expr_size(*e),
        None => 0,
    }, 0nat,
{
    match o {
        Some(e) => {
            let x = tr_expr(*e, t.code, t.reg);
            with_code(with_ex(t, x), x.code.push(StmtV::Return(Some(x.res))))
        },
        None => t,
    }
}

/// The translation state of a transformer writing `block`, with `names`
/// the table of interned names.
pub open spec fn tr_now(x: LinearCodeTransformer, block: Seq<Stmt>, names: Seq<Seq<char>>) -> Tr {
    Tr {
        code: block_view(block),
        reg: x.reg_count as nat,
        lab: x.label_count as nat,
        bp: x.backpatch@,
        names,
        funs: blocks_view(x.statements@),
    }
}

/// Statements translated one after the other.
pub open spec fn tr_stmts(ss: Seq<ast::Stmt>, t: Tr) -> Tr
    decreases stmts_size(ss), 2nat,
{
    if ss.len() == 0 {
        t
    } else {
        proof {
            assert(stmt_size(ss.last()) >= 1);
        }
        tr_stmt(ss.last(), tr_stmts(ss.drop_last(), t))
    }
}

/// `print(args)`: the arguments pushed and the interned name `print` called.
pub open spec fn tr_print(args: Seq<ast::Expr>, t: Tr) -> Tr
    decreases 1 + exprs_size(args), 0nat,
{
    let name = intern_index(t.names, print_name());
    let (c, r) = tr_args(args, t.code, t.reg);
    Tr {
        code: c.push(StmtV::Call(name as usize, args.len() as usize)),
        reg: r,
        lab: t.lab,
        bp: t.bp,
        names: intern_table(t.names, print_name()),
        funs: t.funs,
    }
}

/// `while (c) b`: a jump to the loop head, the head, the test of the
/// condition jumping past the loop, a label, the body, and a jump back.
pub open spec fn tr_while(c: ast::Expr, b: ast::Stmt, t: Tr) -> Tr
    decreases 1 + expr_size(c) + stmt_size(b), 0nat,
{
    let head = t.lab as usize;
    let exit = (t.lab + 1) as usize;
    let x = tr_expr(c, t.code.push(StmtV::Jump(head)).push(StmtV::Label(head)), t.reg);
    let before = Tr {
        code: x.code.push(StmtV::CJump(ExprV::Oper(x.res), exit)).push(StmtV::Label((t.lab + 2) as usize)),
        reg: x.reg,
        lab: t.lab + 3,
        bp: t.bp,
        names: t.names,
        funs: t.funs,
    };
    let after = tr_stmt(b, before);
    with_code(after, after.code.push(StmtV::Jump(head)).push(StmtV::Label(exit)))
}

/// The end of a chain of conditionals: a last label is placed and all
/// awaiting jumps are sent to it.
pub open spec fn close_chain_tr(t: Tr) -> Tr {
    let end = t.lab as usize;
    Tr {
        code: patched(t.code.push(StmtV::Jump(end)).push(StmtV::Label(end)), t.bp, end),
        reg: t.reg,
        lab: t.lab + 1,
        bp: Seq::empty(),
        names: t.names,
        funs: t.funs,
    }
}

/// `if (c) b else o`: the test jumps past the body, and the body ends in a
/// jump that awaits its target; the alternative, if any, follows. A chain
/// ends at an alternative that is no conditional, or at a conditional
/// without one, where it is closed.
pub open spec fn tr_if(c: ast::Expr, b: ast::Stmt, o: Option<Box<ast::Stmt>>, t: Tr) -> Tr
    decreases 1 + expr_size(c) + stmt_size(b) + other_size(o), 0nat,
{
    let skip = t.lab as usize;
    let x = tr_expr(c, t.code, t.reg);
    let before = Tr {
        code: x.code.push(StmtV::CJump(ExprV::Oper(x.res), skip)).push(StmtV::Label((t.lab + 1) as usize)),
        reg: x.reg,
        lab: t.lab + 2,
        bp: t.bp,
        names: t.names,
        funs: t.funs,
    };
    let body = tr_stmt(b, before);
    let alt = Tr {
        code: body.code.push(StmtV::Jump(skip)).push(StmtV::Label(skip)),
        reg: body.reg,
        lab: body.lab,
        bp: body.bp.push(body.code.len() as usize),
        names: body.names,
        funs: body.funs,
    };
    match o {
        None => close_chain_tr(alt),
        Some(st) => {
            let rest = tr_stmt(*st, alt);
            match *st {
                ast::Stmt::If(_, _, _) => rest,
                _ => close_chain_tr(rest),
            }
        },
    }
}

/// The block of a function: its label, its arguments taken off the stack,
/// its body, and a return where the body does not end with one.
pub open spec fn fn_block(sym: usize, args: Seq<(usize, Type)>, body: Seq<ast::Stmt>, t: Tr) -> Tr
    decreases stmts_size(body), 3nat,
{
    tr_stmts(body, with_code(t, seq![StmtV::NamedLabel(sym)] + arg_pops(args)))
}

/// A function declared inside another gets a block of its own, added to
/// the finished ones; the block being written is left as it was.
pub open spec fn tr_function(sym: usize, args: Seq<(usize, Type)>, body: Seq<ast::Stmt>, t: Tr) -> Tr
    decreases 1 + stmts_size(body), 0nat,
{
    let inner = fn_block(sym, args, body, t);
    let done = if inner.code.len() > 0 && inner.code.last() is Return { inner.code } else { inner.code.push(StmtV::Return(None)) };
    Tr { code: t.code, reg: inner.reg, lab: inner.lab, bp: inner.bp, names: inner.names, funs: inner.funs.push(done) }
}

proof fn lemma_yields_var(e: ast::Expr, reg: usize)
    requires
        yields_var(e),
    ensures
        expr_oper(e, reg) matches Some(o) && o is Var,
    decreases e,
{
    if let ast::Expr::Grouping(b) = e {
        lemma_yields_var(*b, reg);
    }
}

proof fn lemma_exprs_size_prefix(es: Seq<ast::Expr>, i: int)
    requires
        0 <= i < es.len(),
    ensures
        exprs_size(es.take(i)) + expr_size(es[i]) == exprs_size(es.take(i + 1)),
        exprs_size(es.take(i + 1)) <= exprs_size(es),
        translatable_exprs(es) ==> translatable_expr(es[i]),
    decreases es.len(),
{
    assert(es.take(i + 1).drop_last() =~= es.take(i));
    if i + 1 < es.len() {
        lemma_exprs_size_prefix(es.drop_last(), i);
        assert(es.drop_last().take(i) =~= es.take(i));
        assert(es.drop_last().take(i + 1) =~= es.take(i + 1));
        assert(es.drop_last()[i] == es[i]);
    } else {
        assert(es.take(i + 1) =~= es);
    }
}

impl LinearCodeTransformer {
    /// Translates an expression, appending its code to `block`, and gives
    /// the operand that holds its value.
    fn translate_expression(&mut self, expr: &ast::Expr, is_cond: bool, block: &mut Vec<Stmt>) -> (r: Oper)
        requires
            translatable_expr(*expr),
            old(self).reg_count + expr_size(*expr) <= usize::MAX,
        ensures
            final(self).statements == old(self).statements,
            final(self).backpatch == old(self).backpatch,
            final(self).label_count == old(self).label_count,
            old(self).reg_count <= final(self).reg_count <= old(self).reg_count + expr_size(*expr),
            extends(old(block)@, final(block)@),
            simple_oper(r),
            expr_oper(*expr, old(self).reg_count) matches Some(o) ==> r == o,
            ex_is(tr_expr(*expr, block_view(old(block)@), old(self).reg_count as nat), block_view(final(block)@), final(self).reg_count as nat, r),
        decreases expr_size(*expr), 1nat,
    {
        match expr {
            ast::Expr::Value(value) => Oper::Value(*value),
            ast::Expr::Variable(n) => Oper::Var(*n, 0),
            ast::Expr::Assign(n, _, l) => self.translate_assign(*n, l, block),
            ast::Expr::Call(n, args) => self.translate_call(n, args, block),
            ast::Expr::Binary(l, o, r) => self.translate_binary(l, *o, r, block),
            ast::Expr::Logical(l, o, r) => self.translate_logical(l, *o, r, block),
            ast::Expr::Grouping(e) => self.translate_expression(e, is_cond, block),
            ast::Expr::CastAs(e, t) => self.translate_cast(e, *t, is_cond, block),
        }
    }

    /// Translates `expr` cast to `t`: its value is copied into a new
    /// temporary, which is then cast.
    fn translate_cast(&mut self, expr: &ast::Expr, t: Type, is_cond: bool, block: &mut Vec<Stmt>) -> (r: Oper)
        requires
            castable(*expr),
            old(self).reg_count + expr_size(*expr) + 1 <= usize::MAX,
        ensures
            final(self).statements == old(self).statements,
            final(self).backpatch == old(self).backpatch,
            final(self).label_count == old(self).label_count,
            old(self).reg_count <= final(self).reg_count <= old(self).reg_count + expr_size(*expr) + 1,
            extends(old(block)@, final(block)@),
            r is Temp,
            ex_is(tr_cast(*expr, t, block_view(old(block)@), old(self).reg_count as nat), block_view(final(block)@), final(self).reg_count as nat, r),
        decreases expr_size(*expr) + 1, 0nat,
    {
        match expr {
            ast::Expr::Variable(n) => {
                let temp = self.new_temporary();
                block.push(Stmt::Tac(temp, Expr::Oper(Oper::Var(*n, 0))));
                let _ = self.translate_expression(expr, is_cond, block);
                block.push(Stmt::CastAs(temp, t));
                temp
            },
            ast::Expr::Value(v) => {
                let temp = self.new_temporary();
                block.push(Stmt::Tac(temp, Expr::Oper(Oper::Value(*v))));
                let _ = self.translate_expression(expr, is_cond, block);
                block.push(Stmt::CastAs(temp, t));
                temp
            },
            ast::Expr::Call(_, _) => {
                let ghost c0 = block_view(block@);
                let ghost r0 = self.reg_count as nat;
                let temp = self.new_temporary();
                let res = self.translate_expression(expr, is_cond, block);
                let ghost x = tr_expr(*expr, c0, r0 + 1);
                assert(tr_cast(*expr, t, c0, r0) == Ex { code: x.code.push(StmtV::Tac(temp, ExprV::Oper(x.res))).push(StmtV::CastAs(temp, t)), reg: x.reg, res: temp });
                block.push(Stmt::Tac(temp, Expr::Oper(res)));
                block.push(Stmt::CastAs(temp, t));
                temp
            },
            ast::Expr::Grouping(e) => self.translate_cast(e, t, is_cond, block),
            ast::Expr::Binary(left, op, right) => {
                let ghost c0 = block_view(block@);
                let ghost r0 = self.reg_count as nat;
                let temp = self.new_temporary();
                let res = self.translate_binary(left, *op, right, block);
                assert(tr_expr(*expr, c0, r0 + 1) == tr_binary(**left, *op, **right, c0, r0 + 1));
                block.push(Stmt::Tac(temp, Expr::Oper(res)));
                block.push(Stmt::CastAs(temp, t));
                temp
            },
            ast::Expr::Logical(left, op, right) => {
                let ghost c0 = block_view(block@);
                let ghost r0 = self.reg_count as nat;
                let temp = self.new_temporary();
                let res = self.translate_logical(left, *op, right, block);
                assert(tr_expr(*expr, c0, r0 + 1) == tr_logical(**left, *op, **right, c0, r0 + 1));
                block.push(Stmt::Tac(temp, Expr::Oper(res)));
                block.push(Stmt::CastAs(temp, t));
                temp
            },
            _ => Oper::Temp(0, 0),
        }
    }

    /// Translates a call: registers are saved, the arguments pushed, the
    /// function called, registers restored, and the returned value copied
    /// into a new temporary.
    fn translate_call(&mut self, callee: &ast::Expr, args: &Vec<ast::Expr>, block: &mut Vec<Stmt>) -> (r: Oper)
        requires
            yields_var(*callee),
            translatable_expr(*callee),
            translatable_exprs(args@),
            old(self).reg_count + expr_size(*callee) + exprs_size(args@) + 1 <= usize::MAX,
        ensures
            final(self).statements == old(self).statements,
            final(self).backpatch == old(self).backpatch,
            final(self).label_count == old(self).label_count,
            old(self).reg_count <= final(self).reg_count <= old(self).reg_count + expr_size(*callee) + exprs_size(args@) + 1,
            extends(old(block)@, final(block)@),
            r is Temp,
            ex_is(tr_call(*callee, args@, block_view(old(block)@), old(self).reg_count as nat), block_view(final(block)@), final(self).reg_count as nat, r),
        decreases expr_size(*callee) + exprs_size(args@) + 1, 0nat,
    {
        block.push(Stmt::StackPushAllReg);
        let ghost reg0 = self.reg_count;
        let ghost block0 = old(block)@;
        let ghost c0 = block_view(block@);
        let mut i: usize = 0;
        assert(args@.take(0) =~= Seq::<ast::Expr>::empty());
        while i < args.len()
            invariant
                i <= args@.len(),
                translatable_exprs(args@),
                reg0 == old(self).reg_count,
                block0 == old(block)@,
                c0 == block_view(old(block)@).push(StmtV::StackPushAllReg),
                tr_args(args@.take(i as int), c0, reg0 as nat) == (block_view(block@), self.reg_count as nat),
                reg0 + expr_size(*callee) + exprs_size(args@) + 1 <= usize::MAX,
                reg0 <= self.reg_count <= reg0 + exprs_size(args@.take(i as int)),
                self.statements == old(self).statements,
                self.backpatch == old(self).backpatch,
                self.label_count == old(self).label_count,
                extends(block0, block@),
            decreases args@.len() - i,
        {
            proof {
                lemma_exprs_size_prefix(args@, i as int);
            }
            let res = self.translate_expression(&args[i], false, block);
            block.push(Stmt::StackPush(res));
            proof {
                assert(args@.take(i + 1).drop_last() =~= args@.take(i as int));
                assert(args@.take(i + 1).last() == args@[i as int]);
            }
            i = i + 1;
        }
        assert(args@.take(args@.len() as int) =~= args@);
        let ghost reg1 = self.reg_count;
        let raw = self.translate_expression(callee, false, block);
        proof {
            lemma_yields_var(*callee, reg1);
        }
        match raw {
            Oper::Var(sym, _) => {
                block.push(Stmt::Call(sym, args.len()));
                block.push(Stmt::StackPopAllReg);
                let temp = self.new_temporary();
                block.push(Stmt::Tac(temp, Expr::Oper(Oper::ReturnValue)));
                temp
            },
            _ => Oper::Temp(0, 0),
        }
    }

    /// Translates `n := l`, giving the variable `n`.
    fn translate_assign(&mut self, n: usize, l: &ast::Expr, block: &mut Vec<Stmt>) -> (r: Oper)
        requires
            translatable_expr(*l),
            old(self).reg_count + expr_size(*l) + 1 <= usize::MAX,
        ensures
            final(self).statements == old(self).statements,
            final(self).backpatch == old(self).backpatch,
            final(self).label_count == old(self).label_count,
            old(self).reg_count <= final(self).reg_count <= old(self).reg_count + expr_size(*l),
            extends(old(block)@, final(block)@),
            r == Oper::Var(n, 0),
            ex_is(tr_assign(n, *l, block_view(old(block)@), old(self).reg_count as nat), block_view(final(block)@), final(self).reg_count as nat, r),
        decreases expr_size(*l) + 1, 0nat,
    {
        let lval = Oper::Var(n, 0);
        match l {
            ast::Expr::Call(name, args) => {
                let temp = self.translate_call(name, args, block);
                block.push(Stmt::Tac(lval, Expr::Oper(temp)));
            },
            _ => {
                let rval = Expr::Oper(self.translate_expression(l, false, block));
                block.push(Stmt::Tac(lval, rval));
            },
        }
        lval
    }

    /// Translates `l o r` into a new temporary.
    fn translate_binary(&mut self, l: &ast::Expr, o: BinOp, r: &ast::Expr, block: &mut Vec<Stmt>) -> (res: Oper)
        requires
            translatable_expr(*l),
            translatable_expr(*r),
            old(self).reg_count + expr_size(*l) + expr_size(*r) + 1 <= usize::MAX,
        ensures
            final(self).statements == old(self).statements,
            final(self).backpatch == old(self).backpatch,
            final(self).label_count == old(self).label_count,
            old(self).reg_count <= final(self).reg_count <= old(self).reg_count + expr_size(*l) + expr_size(*r) + 1,
            extends(old(block)@, final(block)@),
            res == Oper::Temp(old(self).reg_count as usize, 0),
            ex_is(tr_binary(*l, o, *r, block_view(old(block)@), old(self).reg_count as nat), block_view(final(block)@), final(self).reg_count as nat, res),
        decreases expr_size(*l) + expr_size(*r) + 1, 0nat,
    {
        let lval = self.new_temporary();
        let a = self.translate_expression(l, false, block);
        let b = self.translate_expression(r, false, block);
        block.push(Stmt::Tac(lval, Expr::Binary(a, o, b)));
        lval
    }

    /// Translates the comparison `l o r` into a new temporary; the
    /// three-address form holds the negated comparison.
    fn translate_logical(&mut self, l: &ast::Expr, o: RelOp, r: &ast::Expr, block: &mut Vec<Stmt>) -> (res: Oper)
        requires
            translatable_expr(*l),
            translatable_expr(*r),
            old(self).reg_count + expr_size(*l) + expr_size(*r) + 1 <= usize::MAX,
        ensures
            final(self).statements == old(self).statements,
            final(self).backpatch == old(self).backpatch,
            final(self).label_count == old(self).label_count,
            old(self).reg_count <= final(self).reg_count <= old(self).reg_count + expr_size(*l) + expr_size(*r) + 1,
            extends(old(block)@, final(block)@),
            res == Oper::Temp(old(self).reg_count as usize, 0),
            ex_is(tr_logical(*l, o, *r, block_view(old(block)@), old(self).reg_count as nat), block_view(final(block)@), final(self).reg_count as nat, res),
        decreases expr_size(*l) + expr_size(*r) + 1, 0nat,
    {
        let lval = self.new_temporary();
        let a = self.translate_expression(l, false, block);
        let flipped = o.flip();
        let b = self.translate_expression(r, false, block);
        block.push(Stmt::Tac(lval, Expr::Logical(a, flipped, b)));
        lval
    }
}

proof fn lemma_stmts_size_prefix(ss: Seq<ast::Stmt>, i: int)
    requires
        0 <= i < ss.len(),
    ensures
        stmts_size(ss.take(i)) + stmt_size(ss[i]) == stmts_size(ss.take(i + 1)),
        stmts_size(ss.take(i + 1)) <= stmts_size(ss),
        translatable_stmts(ss) ==> translatable_stmt(ss[i]),
        fn_free_all(ss) ==> fn_free(ss[i]),
    decreases ss.len(),
{
    assert(ss.take(i + 1).drop_last() =~= ss.take(i));
    if i + 1 < ss.len() {
        lemma_stmts_size_prefix(ss.drop_last(), i);
        assert(ss.drop_last().take(i) =~= ss.take(i));
        assert(ss.drop_last().take(i + 1) =~= ss.take(i + 1));
        assert(ss.drop_last()[i] == ss[i]);
    } else {
        assert(ss.take(i + 1) =~= ss);
    }
}

/// The size of an alternative, none counting as zero.
pub open spec fn other_size(o: Option<Box<ast::Stmt>>) -> nat {
    match o {
        Some(x) => stmt_size(*x),
        None => 0,
    }
}

/// `b` keeps the blocks of `a` and adds function blocks.
pub open spec fn adds_functions(a: Seq<Vec<Stmt>>, b: Seq<Vec<Stmt>>) -> bool {
    &&& a.len() <= b.len()
    &&& forall|i: int| 0 <= i < a.len() ==> #[trigger] b[i] == a[i]
    &&& forall|i: int| a.len() <= i < b.len() ==> function_block(#[trigger] b[i]@)
}

/// The positions awaiting a jump target lie at or after `lo`.
pub open spec fn bp_above(bp: Seq<usize>, lo: int) -> bool {
    forall|k: int| 0 <= k < bp.len() ==> #[trigger] bp[k] >= lo
}

/// The positions awaiting a jump target are positions of `block`.
pub open spec fn patches_within(bp: Seq<usize>, len: nat) -> bool {
    forall|k: int| 0 <= k < bp.len() ==> #[trigger] bp[k] < len
}

impl LinearCodeTransformer {
    /// Translates a statement, appending its code to `block`; a function
    /// declared in it becomes a block of its own.
    fn translate_statement(&mut self, stmt: &ast::Stmt, block: &mut Vec<Stmt>, interner: &mut Interner, Ghost(lo): Ghost<int>)
        requires
            0 <= lo <= old(block)@.len(),
            bp_above(old(self).backpatch@, lo),
            translatable_stmt(*stmt),
            old(interner).wf(),
            old(self).reg_count + stmt_size(*stmt) <= usize::MAX,
            old(self).label_count + 3 * stmt_size(*stmt) <= usize::MAX,
            patches_within(old(self).backpatch@, old(block)@.len()),
            old(self).backpatch@.len() == 0 || fn_free(*stmt),
        ensures
            final(interner).wf(),
            old(self).reg_count <= final(self).reg_count <= old(self).reg_count + stmt_size(*stmt),
            old(self).label_count <= final(self).label_count <= old(self).label_count + 3 * stmt_size(*stmt),
            patches_within(final(self).backpatch@, final(block)@.len()),
            old(block)@.len() <= final(block)@.len(),
            bp_above(final(self).backpatch@, lo),
            forall|i: int| 0 <= i < lo ==> #[trigger] final(block)@[i] == old(block)@[i],
            old(self).backpatch@.len() == 0 ==> final(self).backpatch@.len() == 0,
            *stmt is If ==> final(self).backpatch@.len() == 0,
            adds_functions(old(self).statements@, final(self).statements@),
            fn_free(*stmt) ==> final(self).statements == old(self).statements,
            tr_now(*final(self), final(block)@, final(interner)@) == tr_stmt(*stmt, tr_now(*old(self), old(block)@, old(interner)@)),
        decreases stmt_size(*stmt), 1nat,
    {
        match stmt {
            ast::Stmt::If(cond, body, other) => {
                self.translate_if_statement(&**cond, &**body, other, block, interner, Ghost(lo));
            },
            ast::Stmt::Expression(expr) => {
                let _ = self.translate_expression(&**expr, false, block);
            },
            ast::Stmt::Block(statements) => {
                let mut i: usize = 0;
                assert(statements@.take(0) =~= Seq::<ast::Stmt>::empty());
                while i < statements.len()
                    invariant
                        i <= statements@.len(),
                        translatable_stmts(statements@),
                        stmt_size(*stmt) == 1 + stmts_size(statements@),
                        fn_free(*stmt) == fn_free_all(statements@),
                        interner.wf(),
                        old(self).reg_count <= self.reg_count <= old(self).reg_count + stmts_size(statements@.take(i as int)),
                        old(self).label_count <= self.label_count <= old(self).label_count + 3 * stmts_size(statements@.take(i as int)),
                        old(self).reg_count + stmt_size(*stmt) <= usize::MAX,
                        old(self).label_count + 3 * stmt_size(*stmt) <= usize::MAX,
                        patches_within(self.backpatch@, block@.len()),
                        old(block)@.len() <= block@.len(),
                        0 <= lo <= old(block)@.len(),
                        bp_above(self.backpatch@, lo),
                        forall|j: int| 0 <= j < lo ==> #[trigger] block@[j] == old(block)@[j],
                        old(self).backpatch@.len() == 0 ==> self.backpatch@.len() == 0,
                        old(self).backpatch@.len() == 0 || fn_free(*stmt),
                        adds_functions(old(self).statements@, self.statements@),
                        fn_free(*stmt) ==> self.statements == old(self).statements,
                        tr_stmts(statements@.take(i as int), tr_now(*old(self), old(block)@, old(interner)@))
                            == tr_now(*self, block@, interner@),
                    decreases statements@.len() - i,
                {
                    proof {
                        lemma_stmts_size_prefix(statements@, i as int);
                    }
                    self.translate_statement(&statements[i], block, interner, Ghost(lo));
                    proof {
                        assert(statements@.take(i + 1).drop_last() =~= statements@.take(i as int));
                        assert(statements@.take(i + 1).last() == statements@[i as int]);
                    }
                    i = i + 1;
                }
                assert(statements@.take(statements@.len() as int) =~= statements@);
            },
            ast::Stmt::While(cond, body) => {
                self.translate_while_statement(&**cond, &**body, block, interner, Ghost(lo));
            },
            ast::Stmt::Print(args) => {
                self.translate_print_statement(args, block, interner);
            },
            ast::Stmt::Return(to_return) => {
                let ghost before = tr_now(*self, block@, Seq::empty());
                self.translate_return(to_return, block);
                proof {
                    let named = tr_now(*old(self), old(block)@, old(interner)@);
                    assert(tr_return(*to_return, named) == with_names(tr_return(*to_return, before), named.names));
                }
            },
            ast::Stmt::Function(function_sym, args, _, body) => {
                let ghost before = tr_now(*self, Seq::empty(), interner@);
                self.translate_function(*function_sym, args, body, interner);
                proof {
                    let t0 = tr_now(*old(self), old(block)@, old(interner)@);
                    assert(t0 == with_code(before, block_view(block@)));
                    assert(fn_block(*function_sym, args@, body@, t0) == fn_block(*function_sym, args@, body@, before));
                }
            },
        }
    }

    /// Translates a return of a value.
    fn translate_return(&mut self, to_return: &Option<Box<ast::Expr>>, block: &mut Vec<Stmt>)
        requires
            to_return matches Some(e) && translatable_expr(**e),
            old(self).reg_count + 1 + expr_size(*to_return->Some_0) <= usize::MAX,
        ensures
            final(self).statements == old(self).statements,
            final(self).backpatch == old(self).backpatch,
            final(self).label_count == old(self).label_count,
            old(self).reg_count <= final(self).reg_count <= old(self).reg_count + expr_size(*to_return->Some_0),
            extends(old(block)@, final(block)@),
            final(block)@.len() > 0 && final(block)@.last() is Return,
            tr_now(*final(self), final(block)@, Seq::empty()) == tr_return(*to_return, tr_now(*old(self), old(block)@, Seq::empty())),
    {
        match to_return {
            Some(expr) => {
                let res = self.translate_expression(&**expr, false, block);
                block.push(Stmt::Return(Some(res)));
            },
            None => {},
        }
    }

    /// Translates `print(args)`: the arguments are pushed and `print` called.
    fn translate_print_statement(&mut self, args: &Vec<ast::Expr>, block: &mut Vec<Stmt>, interner: &mut Interner)
        requires
            translatable_exprs(args@),
            old(interner).wf(),
            old(self).reg_count + exprs_size(args@) <= usize::MAX,
        ensures
            final(interner).wf(),
            final(self).statements == old(self).statements,
            final(self).backpatch == old(self).backpatch,
            final(self).label_count == old(self).label_count,
            old(self).reg_count <= final(self).reg_count <= old(self).reg_count + exprs_size(args@),
            extends(old(block)@, final(block)@),
            tr_now(*final(self), final(block)@, final(interner)@) == tr_print(args@, tr_now(*old(self), old(block)@, old(interner)@)),
    {
        let name = interner.intern(String::from_str("print"));
        let ghost c0 = block_view(block@);
        let ghost reg0 = self.reg_count as nat;
        let mut i: usize = 0;
        assert(args@.take(0) =~= Seq::<ast::Expr>::empty());
        while i < args.len()
            invariant
                i <= args@.len(),
                c0 == block_view(old(block)@),
                reg0 == old(self).reg_count as nat,
                tr_args(args@.take(i as int), c0, reg0) == (block_view(block@), self.reg_count as nat),
                translatable_exprs(args@),
                old(self).reg_count + exprs_size(args@) <= usize::MAX,
                old(self).reg_count <= self.reg_count <= old(self).reg_count + exprs_size(args@.take(i as int)),
                self.statements == old(self).statements,
                self.backpatch == old(self).backpatch,
                self.label_count == old(self).label_count,
                extends(old(block)@, block@),
            decreases args@.len() - i,
        {
            proof {
                lemma_exprs_size_prefix(args@, i as int);
            }
            let operand = self.translate_expression(&args[i], false, block);
            block.push(Stmt::StackPush(operand));
            proof {
                assert(args@.take(i + 1).drop_last() =~= args@.take(i as int));
                assert(args@.take(i + 1).last() == args@[i as int]);
            }
            i = i + 1;
        }
        assert(args@.take(args@.len() as int) =~= args@);
        block.push(Stmt::Call(name, args.len()));
    }

    /// Translates `while (cond) body` as a loop head that tests the
    /// condition, the body, and a jump back to the head.
    fn translate_while_statement(&mut self, cond: &ast::Expr, body: &ast::Stmt, block: &mut Vec<Stmt>, interner: &mut Interner, Ghost(lo): Ghost<int>)
        requires
            0 <= lo <= old(block)@.len(),
            bp_above(old(self).backpatch@, lo),
            translatable_expr(*cond),
            translatable_stmt(*body),
            old(interner).wf(),
            old(self).reg_count + expr_size(*cond) + stmt_size(*body) + 1 <= usize::MAX,
            old(self).label_count + 3 * (expr_size(*cond) + stmt_size(*body) + 1) <= usize::MAX,
            patches_within(old(self).backpatch@, old(block)@.len()),
            old(self).backpatch@.len() == 0 || fn_free(*body),
        ensures
            final(interner).wf(),
            old(self).reg_count <= final(self).reg_count <= old(self).reg_count + expr_size(*cond) + stmt_size(*body) + 1,
            old(self).label_count <= final(self).label_count <= old(self).label_count + 3 * (expr_size(*cond) + stmt_size(*body) + 1),
            patches_within(final(self).backpatch@, final(block)@.len()),
            old(block)@.len() <= final(block)@.len(),
            bp_above(final(self).backpatch@, lo),
            forall|i: int| 0 <= i < lo ==> #[trigger] final(block)@[i] == old(block)@[i],
            old(self).backpatch@.len() == 0 ==> final(self).backpatch@.len() == 0,
            adds_functions(old(self).statements@, final(self).statements@),
            fn_free(*body) ==> final(self).statements == old(self).statements,
            tr_now(*final(self), final(block)@, final(interner)@) == tr_while(*cond, *body, tr_now(*old(self), old(block)@, old(interner)@)),
        decreases expr_size(*cond) + stmt_size(*body) + 1, 0nat,
    {
        let loop_label = self.new_label();
        block.push(Stmt::Jump(loop_label));
        block.push(Stmt::Label(loop_label));
        let jump_if_label = self.new_label();
        let c = self.translate_expression(cond, true, block);
        block.push(Stmt::CJump(Expr::Oper(c), jump_if_label));
        let dummy_label = self.new_label();
        block.push(Stmt::Label(dummy_label));
        self.translate_statement(body, block, interner, Ghost(lo));
        block.push(Stmt::Jump(loop_label));
        block.push(Stmt::Label(jump_if_label));
    }

    /// Translates a function declared inside another into a block of its
    /// own: its label, its arguments popped from the stack (last first),
    /// its body, and a return where the body does not end with one.
    fn translate_function(&mut self, function_sym: usize, args: &Vec<(usize, Type)>, body: &Vec<ast::Stmt>, interner: &mut Interner)
        requires
            translatable_stmts(body@),
            old(interner).wf(),
            old(self).reg_count + stmts_size(body@) <= usize::MAX,
            old(self).label_count + 3 * stmts_size(body@) <= usize::MAX,
            old(self).backpatch@.len() == 0,
        ensures
            final(interner).wf(),
            old(self).reg_count <= final(self).reg_count <= old(self).reg_count + stmts_size(body@),
            old(self).label_count <= final(self).label_count <= old(self).label_count + 3 * stmts_size(body@),
            final(self).backpatch@.len() == 0,
            adds_functions(old(self).statements@, final(self).statements@),
            final(self).statements@.len() > old(self).statements@.len(),
            tr_now(*final(self), Seq::empty(), final(interner)@) == tr_function(function_sym, args@, body@, tr_now(*old(self), Seq::empty(), old(interner)@)),
        decreases stmts_size(body@) + 1, 0nat,
    {
        let ghost t0 = tr_now(*self, Seq::empty(), interner@);
        let ghost start = seq![StmtV::NamedLabel(function_sym)] + arg_pops(args@);
        let mut block_inner: Vec<Stmt> = Vec::new();
        block_inner.push(Stmt::NamedLabel(function_sym));
        let mut k: usize = args.len();
        assert(block_view(block_inner@) =~= seq![StmtV::NamedLabel(function_sym)] + arg_pops(args@).take(0));
        while k > 0
            invariant
                k <= args@.len(),
                block_inner@.len() > 0,
                block_inner@[0] == Stmt::NamedLabel(function_sym),
                block_view(block_inner@) == seq![StmtV::NamedLabel(function_sym)] + arg_pops(args@).take(args@.len() - k),
            decreases k,
        {
            k = k - 1;
            let ghost prev = block_view(block_inner@);
            block_inner.push(Stmt::Tac(Oper::Var(args[k].0, 0), Expr::Oper(Oper::StackPop)));
            assert(block_view(block_inner@) =~= seq![StmtV::NamedLabel(function_sym)] + arg_pops(args@).take(args@.len() - k));
        }
        assert(arg_pops(args@).take(args@.len() as int) =~= arg_pops(args@));
        assert(with_code(t0, start) == tr_now(*self, block_inner@, interner@));
        let mut i: usize = 0;
        assert(body@.take(0) =~= Seq::<ast::Stmt>::empty());
        while i < body.len()
            invariant
                i <= body@.len(),
                translatable_stmts(body@),
                interner.wf(),
                old(self).reg_count + stmts_size(body@) <= usize::MAX,
                old(self).label_count + 3 * stmts_size(body@) <= usize::MAX,
                old(self).reg_count <= self.reg_count <= old(self).reg_count + stmts_size(body@.take(i as int)),
                old(self).label_count <= self.label_count <= old(self).label_count + 3 * stmts_size(body@.take(i as int)),
                self.backpatch@.len() == 0,
                block_inner@.len() > 0,
                block_inner@[0] == Stmt::NamedLabel(function_sym),
                adds_functions(old(self).statements@, self.statements@),
                t0 == tr_now(*old(self), Seq::empty(), old(interner)@),
                tr_stmts(body@.take(i as int), with_code(t0, start)) == tr_now(*self, block_inner@, interner@),
            decreases body@.len() - i,
        {
            proof {
                lemma_stmts_size_prefix(body@, i as int);
            }
            self.translate_statement(&body[i], &mut block_inner, interner, Ghost(1));
            proof {
                assert(body@.take(i + 1).drop_last() =~= body@.take(i as int));
                assert(body@.take(i + 1).last() == body@[i as int]);
            }
            i = i + 1;
        }
        assert(body@.take(body@.len() as int) =~= body@);
        let last_is_return = match &block_inner[block_inner.len() - 1] {
            Stmt::Return(_) => true,
            _ => false,
        };
        proof {
            let inner = fn_block(function_sym, args@, body@, t0);
            assert(inner == tr_now(*self, block_inner@, interner@));
            assert(inner.code.last() == block_inner@.last()@);
        }
        if !last_is_return {
            block_inner.push(Stmt::Return(None));
        }
        self.statements.push(block_inner);
        assert(block_view(Seq::<Stmt>::empty()) =~= Seq::<StmtV>::empty());
    }

    /// Translates `if (cond) body else other`: the condition jumps past the
    /// body, whose end jumps past the alternative; a chain of conditionals
    /// has those jumps filled in with the label after its last part.
    fn translate_if_statement(
        &mut self,
        cond: &ast::Expr,
        body: &ast::Stmt,
        other: &Option<Box<ast::Stmt>>,
        block: &mut Vec<Stmt>,
        interner: &mut Interner,
        Ghost(lo): Ghost<int>,
    )
        requires
            0 <= lo <= old(block)@.len(),
            bp_above(old(self).backpatch@, lo),
            translatable_expr(*cond),
            translatable_stmt(*body),
            other matches Some(x) ==> translatable_stmt(**x) && fn_free(**x),
            old(interner).wf(),
            old(self).reg_count + expr_size(*cond) + stmt_size(*body) + other_size(*other) + 1 <= usize::MAX,
            old(self).label_count + 3 * (expr_size(*cond) + stmt_size(*body) + other_size(*other) + 1) <= usize::MAX,
            patches_within(old(self).backpatch@, old(block)@.len()),
            old(self).backpatch@.len() == 0 || fn_free(*body),
        ensures
            final(interner).wf(),
            old(self).reg_count <= final(self).reg_count <= old(self).reg_count + expr_size(*cond) + stmt_size(*body) + other_size(*other) + 1,
            old(self).label_count <= final(self).label_count <= old(self).label_count + 3 * (expr_size(*cond) + stmt_size(*body) + other_size(*other) + 1),
            final(self).backpatch@.len() == 0,
            patches_within(final(self).backpatch@, final(block)@.len()),
            old(block)@.len() <= final(block)@.len(),
            bp_above(final(self).backpatch@, lo),
            forall|i: int| 0 <= i < lo ==> #[trigger] final(block)@[i] == old(block)@[i],
            adds_functions(old(self).statements@, final(self).statements@),
            fn_free(*body) ==> final(self).statements == old(self).statements,
            tr_now(*final(self), final(block)@, final(interner)@) == tr_if(*cond, *body, *other, tr_now(*old(self), old(block)@, old(interner)@)),
        decreases expr_size(*cond) + stmt_size(*body) + other_size(*other) + 1, 0nat,
    {
        let jump_if_label = self.new_label();
        let c = self.translate_expression(cond, true, block);
        block.push(Stmt::CJump(Expr::Oper(c), jump_if_label));
        let next_block_label = self.new_label();
        block.push(Stmt::Label(next_block_label));
        self.translate_statement(body, block, interner, Ghost(lo));
        let ghost start = block@;
        let pos = block.len();
        self.backpatch.push(pos);
        block.push(Stmt::Jump(jump_if_label));
        block.push(Stmt::Label(jump_if_label));
        match other {
            Some(stmt) => {
                self.translate_statement(&**stmt, block, interner, Ghost(lo));
                match **stmt {
                    ast::Stmt::If(_, _, _) => {},
                    _ => {
                        self.close_chain(block, Ghost(lo));
                    },
                }
            },
            None => {
                self.close_chain(block, Ghost(lo));
            },
        }
    }

    /// Places the last label of a chain of conditionals and sends every
    /// awaiting jump to it.
    fn close_chain(&mut self, block: &mut Vec<Stmt>, Ghost(lo): Ghost<int>)
        requires
            0 <= lo <= old(block)@.len(),
            patches_within(old(self).backpatch@, old(block)@.len()),
            bp_above(old(self).backpatch@, lo),
            old(self).label_count < usize::MAX,
        ensures
            block_view(final(block)@) == patched(block_view(old(block)@).push(StmtV::Jump(old(self).label_count)).push(
                StmtV::Label(old(self).label_count)), old(self).backpatch@, old(self).label_count),
            final(self).label_count == old(self).label_count + 1,
            final(self).reg_count == old(self).reg_count,
            final(self).statements == old(self).statements,
            final(self).backpatch@.len() == 0,
            old(block)@.len() <= final(block)@.len(),
            forall|i: int| 0 <= i < lo ==> #[trigger] final(block)@[i] == old(block)@[i],
    {
        let label = self.new_label();
        block.push(Stmt::Jump(label));
        block.push(Stmt::Label(label));
        let ghost before_patch = block@;
        let mut k: usize = 0;
        while k < self.backpatch.len()
            invariant
                k <= self.backpatch@.len(),
                patches_within(self.backpatch@, block@.len()),
                bp_above(self.backpatch@, lo),
                0 <= lo <= before_patch.len(),
                forall|j: int| 0 <= j < lo ==> #[trigger] block@[j] == before_patch[j],
                block@.len() == before_patch.len(),
                forall|i: int| 0 <= i < block@.len() ==> #[trigger] block@[i] == before_patch[i]
                    || exists|j: int| 0 <= j < k && self.backpatch@[j] == i,
                forall|j: int| 0 <= j < k ==> block@[#[trigger] self.backpatch@[j] as int] == Stmt::Jump(label),
                block_view(block@) == patched(block_view(before_patch), self.backpatch@.take(k as int), label),
            decreases self.backpatch@.len() - k,
        {
            let patch = self.backpatch[k];
            let ghost prev = block_view(block@);
            let blen = block.len();
            block.set(patch, Stmt::Jump(label));
            proof {
                let bp = self.backpatch@;
                assert(bp.take(k + 1) =~= bp.take(k as int).push(patch));
                assert forall|i: usize| #[trigger] bp.take(k + 1).contains(i) == (bp.take(k as int).contains(i) || i == patch) by {
                    vstd::seq_lib::lemma_seq_contains_after_push(bp.take(k as int), patch, i);
                }
                assert(block_view(block@) =~= prev.update(patch as int, StmtV::Jump(label)));
                let goal = patched(block_view(before_patch), bp.take(k + 1), label);
                assert forall|i: int| 0 <= i < goal.len() implies #[trigger] block_view(block@)[i] == goal[i] by {
                    assert(i < blen);
                    assert(bp.take(k + 1).contains(i as usize) == (bp.take(k as int).contains(i as usize) || i as usize == patch));
                    if i != patch as int {
                        assert(prev[i] == patched(block_view(before_patch), bp.take(k as int), label)[i]);
                    }
                }
                assert(block_view(block@) =~= goal);
            }
            k = k + 1;
        }
        assert(self.backpatch@.take(self.backpatch@.len() as int) =~= self.backpatch@);
        self.backpatch.clear();
    }
}

} // verus!

verus! {

/// The label that a label, jump or conditional jump names.
pub open spec fn label_of(s: StmtV) -> Option<usize> {
    match s {
        StmtV::Label(l) => Some(l),
        StmtV::Jump(j) => Some(j),
        StmtV::CJump(_, cj) => Some(cj),
        _ => None,
    }
}

/// The statement with the label it names replaced by `main`.
pub open spec fn relabel(s: StmtV, main: usize) -> StmtV {
    match s {
        StmtV::Label(_) => StmtV::Label(main),
        StmtV::Jump(_) => StmtV::Jump(main),
        StmtV::CJump(c, _) => StmtV::CJump(c, main),
        _ => s,
    }
}

/// The statements up to position `upto` that name `other` renamed to `main`.
pub open spec fn relabel_prefix(b: Seq<StmtV>, upto: int, other: usize, main: usize) -> Seq<StmtV> {
    Seq::new(b.len(), |j: int| if j <= upto && label_of(b[j]) == Some(other) { relabel(b[j], main) } else { b[j] })
}

/// The block and the marks after the first `i` positions of `orig` were
/// looked at: a label at position `k > 1` that follows another label in
/// the block is marked, and every name of it up to `k` is renamed to the
/// label before it.
pub open spec fn merge_state(orig: Seq<StmtV>, i: nat) -> (Seq<StmtV>, Seq<bool>)
    decreases i,
{
    if i == 0 {
        (orig, Seq::new(orig.len(), |j: int| false))
    } else {
        let (b, m) = merge_state(orig, (i - 1) as nat);
        let k = i - 1;
        if 1 < k < orig.len() && b[k - 1] is Label && orig[k] is Label {
            (relabel_prefix(b, k, orig[k]->Label_0, b[k - 1]->Label_0), m.update(k, true))
        } else {
            (b, m)
        }
    }
}

/// The statements of `b` whose mark is off, in order.
pub open spec fn kept(b: Seq<StmtV>, m: Seq<bool>) -> Seq<StmtV>
    decreases b.len(),
{
    if b.len() == 0 {
        Seq::empty()
    } else {
        let rest = kept(b.drop_last(), m.take(b.len() - 1));
        if m[b.len() - 1] {
            rest
        } else {
            rest.push(b.last())
        }
    }
}

/// A block with each label that directly follows another merged into it.
pub open spec fn merged(orig: Seq<StmtV>) -> Seq<StmtV> {
    let (b, m) = merge_state(orig, orig.len());
    kept(b, m)
}


/// A function block as views: it opens with its label and ends with a return.
pub open spec fn function_view(b: Seq<StmtV>) -> bool {
    &&& b.len() > 0
    &&& b[0] is NamedLabel
    &&& b.last() is Return
}

proof fn lemma_merge_state_shape(orig: Seq<StmtV>, i: nat)
    requires
        i <= orig.len(),
    ensures
        merge_state(orig, i).0.len() == orig.len(),
        merge_state(orig, i).1.len() == orig.len(),
        forall|j: int| 0 <= j < orig.len() && merge_state(orig, i).1[j] ==> 1 < j && orig[j] is Label,
        orig.len() > 0 && !(orig[0] is Label || orig[0] is Jump || orig[0] is CJump)
            ==> merge_state(orig, i).0[0] == orig[0],
        orig.len() > 0 && !(orig.last() is Label || orig.last() is Jump || orig.last() is CJump)
            ==> merge_state(orig, i).0.last() == orig.last(),
    decreases i,
{
    if i > 0 {
        lemma_merge_state_shape(orig, (i - 1) as nat);
    }
}

proof fn lemma_kept_ends(b: Seq<StmtV>, m: Seq<bool>)
    requires
        b.len() == m.len(),
        b.len() > 0,
        !m[0],
        !m[b.len() - 1],
    ensures
        kept(b, m).len() > 0,
        kept(b, m)[0] == b[0],
        kept(b, m).last() == b.last(),
    decreases b.len(),
{
    let rest = kept(b.drop_last(), m.take(b.len() - 1));
    if b.len() > 1 {
        assert(b.drop_last()[0] == b[0]);
        assert(m.take(b.len() - 1)[0] == m[0]);
        lemma_kept_first(b.drop_last(), m.take(b.len() - 1));
        assert(rest[0] == b[0]);
    } else {
        assert(rest.len() == 0);
    }
}

proof fn lemma_kept_first(b: Seq<StmtV>, m: Seq<bool>)
    requires
        b.len() == m.len(),
        b.len() > 0,
        !m[0],
    ensures
        kept(b, m).len() > 0,
        kept(b, m)[0] == b[0],
    decreases b.len(),
{
    let rest = kept(b.drop_last(), m.take(b.len() - 1));
    if b.len() > 1 {
        assert(b.drop_last()[0] == b[0]);
        assert(m.take(b.len() - 1)[0] == m[0]);
        lemma_kept_first(b.drop_last(), m.take(b.len() - 1));
        assert(rest[0] == b[0]);
    } else {
        assert(rest.len() == 0);
    }
}

proof fn lemma_merge_state_labels(orig: Seq<StmtV>, i: nat)
    requires
        i <= orig.len(),
    ensures
        merge_state(orig, i).0.len() == orig.len(),
        merge_state(orig, i).1.len() == orig.len(),
        forall|j: int| 0 <= j < orig.len() ==> (#[trigger] merge_state(orig, i).0[j] is Label) == (orig[j] is Label),
        forall|j: int| 0 <= j < orig.len() && #[trigger] merge_state(orig, i).1[j] ==> 1 < j && orig[j] is Label,
        forall|j: int| 1 < j < i && orig[j] is Label && orig[j - 1] is Label ==> #[trigger] merge_state(orig, i).1[j],
    decreases i,
{
    if i > 0 {
        lemma_merge_state_labels(orig, (i - 1) as nat);
        let (b, m) = merge_state(orig, (i - 1) as nat);
        let k = i - 1;
        if 1 < k < orig.len() && b[k - 1] is Label && orig[k] is Label {
            let nb = relabel_prefix(b, k, orig[k]->Label_0, b[k - 1]->Label_0);
            assert forall|j: int| 0 <= j < orig.len() implies (#[trigger] nb[j] is Label) == (orig[j] is Label) by {
                assert(b[j] is Label == orig[j] is Label);
            }
        } else {
            if 1 < k < orig.len() && orig[k] is Label && orig[k - 1] is Label {
                assert(b[k - 1] is Label);
            }
        }
    }
}

proof fn lemma_kept_labels(b: Seq<StmtV>, m: Seq<bool>, orig: Seq<StmtV>, k: int)
    requires
        b.len() == m.len(),
        b.len() == orig.len(),
        0 <= k <= b.len(),
        forall|j: int| 0 <= j < orig.len() ==> (#[trigger] b[j] is Label) == (orig[j] is Label),
        forall|j: int| 0 <= j < orig.len() && #[trigger] m[j] ==> 1 < j && orig[j] is Label,
        forall|j: int| 1 < j < orig.len() && orig[j] is Label && orig[j - 1] is Label ==> #[trigger] m[j],
    ensures
        kept(b.take(k), m.take(k)).len() <= k,
        kept(b.take(k), m.take(k)).len() > 0 && kept(b.take(k), m.take(k)).last() is Label ==> orig[k - 1] is Label,
        forall|p: int| 2 <= p < kept(b.take(k), m.take(k)).len()
            ==> !(#[trigger] kept(b.take(k), m.take(k))[p] is Label && kept(b.take(k), m.take(k))[p - 1] is Label),
    decreases k,
{
    if k > 0 {
        lemma_kept_labels(b, m, orig, k - 1);
        lemma_kept_step(b, m, k - 1);
        let prev = kept(b.take(k - 1), m.take(k - 1));
        let cur = kept(b.take(k), m.take(k));
        if !m[k - 1] {
            assert(cur == prev.push(b[k - 1]));
            assert forall|p: int| 2 <= p < cur.len() implies !(#[trigger] cur[p] is Label && cur[p - 1] is Label) by {
                if p == cur.len() - 1 {
                    assert(cur[p - 1] == prev.last());
                    if cur[p] is Label && cur[p - 1] is Label {
                        assert(orig[k - 1] is Label);
                        assert(orig[k - 2] is Label);
                        assert(m[k - 1]);
                    }
                } else {
                    assert(cur[p] == prev[p]);
                    assert(cur[p - 1] == prev[p - 1]);
                }
            }
        }
    }
}

/// After merging, no label directly follows another label past the first
/// two statements of the block.
pub proof fn lemma_merged_no_adjacent_labels(orig: Seq<StmtV>)
    ensures
        forall|p: int| 2 <= p < merged(orig).len() ==> !(#[trigger] merged(orig)[p] is Label && merged(orig)[p - 1] is Label),
{
    lemma_merge_state_labels(orig, orig.len());
    let (b, m) = merge_state(orig, orig.len());
    lemma_kept_labels(b, m, orig, orig.len() as int);
    assert(b.take(orig.len() as int) =~= b);
    assert(m.take(orig.len() as int) =~= m);
}

/// Merging labels keeps a function block one: its opening label and its
/// final return stay where they are.
pub proof fn lemma_merged_function(orig: Seq<StmtV>)
    requires
        function_view(orig),
    ensures
        function_view(merged(orig)),
        merged(orig)[0] == orig[0],
        merged(orig).last() == orig.last(),
{
    lemma_merge_state_shape(orig, orig.len());
    let (b, m) = merge_state(orig, orig.len());
    lemma_kept_ends(b, m);
}

} // verus!

verus! {

/// A copy of a block, statement by statement.
fn copy_block(b: &Vec<Stmt>) -> (r: Vec<Stmt>)
    ensures
        block_view(r@) == block_view(b@),
{
    let mut r: Vec<Stmt> = Vec::new();
    let mut j: usize = 0;
    while j < b.len()
        invariant
            j <= b@.len(),
            r@.len() == j,
            block_view(r@) == block_view(b@).take(j as int),
        decreases b@.len() - j,
    {
        let s = b[j].duplicate();
        let ghost prev = r@;
        r.push(s);
        proof {
            assert forall|x: int| 0 <= x <= j implies #[trigger] block_view(r@)[x] == block_view(b@)[x] by {
                if x < j {
                    assert(r@[x] == prev[x]);
                    assert(block_view(prev)[x] == prev[x]@);
                }
            }
        }
        j = j + 1;
        assert(block_view(r@) =~= block_view(b@).take(j as int));
    }
    assert(block_view(b@).take(b@.len() as int) =~= block_view(b@));
    r
}

proof fn lemma_kept_step(b: Seq<StmtV>, m: Seq<bool>, k: int)
    requires
        b.len() == m.len(),
        0 <= k < b.len(),
    ensures
        kept(b.take(k + 1), m.take(k + 1)) == if m[k] {
            kept(b.take(k), m.take(k))
        } else {
            kept(b.take(k), m.take(k)).push(b[k])
        },
{
    assert(b.take(k + 1).drop_last() =~= b.take(k));
    assert(m.take(k + 1).take(k) =~= m.take(k));
}

impl LinearCodeTransformer {
    /// Merges each label that directly follows another label (past the
    /// first two statements) into the one before it: every name of it up to
    /// that point is renamed, and the label itself is dropped.
    fn merge_labels(&mut self, b: usize)
        requires
            b < old(self).statements@.len(),
        ensures
            final(self).statements@.len() == old(self).statements@.len(),
            forall|i: int| 0 <= i < old(self).statements@.len() && i != b
                ==> #[trigger] final(self).statements@[i] == old(self).statements@[i],
            block_view(final(self).statements@[b as int]@) == merged(block_view(old(self).statements@[b as int]@)),
            final(self).reg_count == old(self).reg_count,
            final(self).label_count == old(self).label_count,
            final(self).backpatch == old(self).backpatch,
    {
        let ghost orig = block_view(self.statements@[b as int]@);
        let n = self.statements[b].len();
        let mut block = copy_block(&self.statements[b]);
        let mut marked: Vec<bool> = Vec::new();
        let mut j: usize = 0;
        while j < n
            invariant
                j <= n,
                marked@ =~= Seq::new(j as nat, |x: int| false),
            decreases n - j,
        {
            marked.push(false);
            j = j + 1;
        }
        let mut i: usize = 0;
        while i < n
            invariant
                i <= n,
                n == orig.len(),
                self.statements == old(self).statements,
                orig == block_view(self.statements@[b as int]@),
                b < self.statements@.len(),
                block_view(block@) == merge_state(orig, i as nat).0,
                marked@ == merge_state(orig, i as nat).1,
            decreases n - i,
        {
            proof {
                lemma_merge_state_shape(orig, i as nat);
            }
            if i > 1 {
                let main_label = match &block[i - 1] {
                    Stmt::Label(l) => Some(*l),
                    _ => None,
                };
                let this_label = match &self.statements[b][i] {
                    Stmt::Label(l) => Some(*l),
                    _ => None,
                };
                match (main_label, this_label) {
                    (Some(main), Some(other)) => {
                        marked.set(i, true);
                        let ghost start = block_view(block@);
                        let mut k: usize = 0;
                        while k <= i
                            invariant
                                i < n,
                                k <= i + 1,
                                block@.len() == start.len(),
                                start.len() == n,
                                block_view(block@) == Seq::new(start.len(), |x: int|
                                    if x < k && label_of(start[x]) == Some(other) { relabel(start[x], main) } else { start[x] }),
                            decreases i + 1 - k,
                        {
                            let mut s = block[k].duplicate();
                            assert(s@ == start[k as int]) by {
                                assert(block_view(block@)[k as int] == block@[k as int]@);
                            }
                            if s.contains_label(other) {
                                s.replace_label(main);
                            }
                            let ghost prev = block@;
                            block.set(k, s);
                            proof {
                                assert forall|x: int| 0 <= x < start.len() && x != k implies #[trigger] block_view(block@)[x] == block_view(prev)[x] by {
                                    assert(block@[x] == prev[x]);
                                }
                            }
                            k = k + 1;
                            assert(block_view(block@) =~= Seq::new(start.len(), |x: int|
                                if x < k && label_of(start[x]) == Some(other) { relabel(start[x], main) } else { start[x] }));
                        }
                        assert(block_view(block@) =~= relabel_prefix(start, i as int, other, main));
                    },
                    _ => {},
                }
            }
            i = i + 1;
        }
        let ghost fb = block_view(block@);
        let ghost fm = marked@;
        proof {
            lemma_merge_state_shape(orig, n as nat);
        }
        let mut filtered: Vec<Stmt> = Vec::new();
        let mut k: usize = 0;
        assert(fb.take(0) =~= Seq::<StmtV>::empty());
        while k < n
            invariant
                k <= n,
                fb == block_view(block@),
                fm == marked@,
                fb.len() == n,
                fm.len() == n,
                block_view(filtered@) == kept(fb.take(k as int), fm.take(k as int)),
            decreases n - k,
        {
            proof {
                lemma_kept_step(fb, fm, k as int);
            }
            if !marked[k] {
                let s = block[k].duplicate();
                filtered.push(s);
            }
            k = k + 1;
            assert(block_view(filtered@) =~= kept(fb.take(k as int), fm.take(k as int)));
        }
        assert(fb.take(n as int) =~= fb);
        assert(fm.take(n as int) =~= fm);
        self.statements.set(b, filtered);
    }
}

} // verus!

verus! {

/// Every statement is a function declaration.
pub open spec fn all_functions(ss: Seq<ast::Stmt>) -> bool {
    forall|i: int| 0 <= i < ss.len() ==> #[trigger] ss[i] is Function
}

/// Translating the program `ast` took the transformer from `before` (with
/// the table `names0`) to `after` (with `names1`): the function blocks are
/// those the translation finishes, with adjacent labels merged, and the
/// counters and the table are where the translation leaves them.
pub open spec fn program_translated(
    ast: Seq<ast::Stmt>,
    before: LinearCodeTransformer,
    names0: Seq<Seq<char>>,
    after: LinearCodeTransformer,
    names1: Seq<Seq<char>>,
) -> bool {
    let t = tr_stmts(ast, tr_now(before, Seq::empty(), names0));
    &&& blocks_view(after.statements@) == t.funs.map_values(|b: Seq<StmtV>| merged(b))
    &&& after.reg_count == t.reg
    &&& after.label_count == t.lab
    &&& names1 == t.names
}

impl LinearCodeTransformer {
    /// Translates a program, a list of function declarations, into one
    /// block of three-address code per function (functions declared inside
    /// others get blocks of their own), merges adjacent labels in every
    /// block, and gives a copy of all the blocks.
    pub fn translate(&mut self, ast: Vec<ast::Stmt>, interner: &mut Interner) -> (r: Vec<Vec<Stmt>>)
        requires
            all_functions(ast@),
            translatable_stmts(ast@),
            old(interner).wf(),
            old(self).backpatch@.len() == 0,
            old(self).reg_count + stmts_size(ast@) <= usize::MAX,
            old(self).label_count + 3 * stmts_size(ast@) <= usize::MAX,
        ensures
            final(interner).wf(),
            final(self).backpatch@.len() == 0,
            final(self).statements@.len() >= old(self).statements@.len() + ast@.len(),
            forall|i: int| 0 <= i < old(self).statements@.len() ==>
                block_view(#[trigger] final(self).statements@[i]@) == merged(block_view(old(self).statements@[i]@)),
            forall|i: int| old(self).statements@.len() <= i < final(self).statements@.len() ==>
                function_view(block_view(#[trigger] final(self).statements@[i]@)),
            r@.len() == final(self).statements@.len(),
            forall|i: int| 0 <= i < r@.len() ==> block_view(#[trigger] r@[i]@) == block_view(final(self).statements@[i]@),
            program_translated(ast@, *old(self), old(interner)@, *final(self), final(interner)@),
    {
        let ghost t0 = tr_now(*self, Seq::empty(), interner@);
        let mut i: usize = 0;
        assert(ast@.take(0) =~= Seq::<ast::Stmt>::empty());
        while i < ast.len()
            invariant
                i <= ast@.len(),
                all_functions(ast@),
                translatable_stmts(ast@),
                interner.wf(),
                self.backpatch@.len() == 0,
                old(self).reg_count + stmts_size(ast@) <= usize::MAX,
                old(self).label_count + 3 * stmts_size(ast@) <= usize::MAX,
                old(self).reg_count <= self.reg_count <= old(self).reg_count + stmts_size(ast@.take(i as int)),
                old(self).label_count <= self.label_count <= old(self).label_count + 3 * stmts_size(ast@.take(i as int)),
                adds_functions(old(self).statements@, self.statements@),
                self.statements@.len() >= old(self).statements@.len() + i,
                t0 == tr_now(*old(self), Seq::empty(), old(interner)@),
                tr_stmts(ast@.take(i as int), t0) == tr_now(*self, Seq::empty(), interner@),
            decreases ast@.len() - i,
        {
            proof {
                lemma_stmts_size_prefix(ast@, i as int);
            }
            assert(ast@[i as int] is Function);
            let ghost before = tr_now(*self, Seq::empty(), interner@);
            match &ast[i] {
                ast::Stmt::Function(function_sym, args, _, body) => {
                    self.translate_function(*function_sym, args, body, interner);
                    assert(tr_stmt(ast@[i as int], before) == tr_function(*function_sym, args@, body@, before));
                },
                _ => {},
            }
            proof {
                assert(ast@.take(i + 1).drop_last() =~= ast@.take(i as int));
                assert(ast@.take(i + 1).last() == ast@[i as int]);
            }
            i = i + 1;
        }
        assert(ast@.take(ast@.len() as int) =~= ast@);
        let ghost pre = self.statements@;
        let ghost t_end = tr_now(*self, Seq::empty(), interner@);
        let size = self.statements.len();
        let mut b: usize = 0;
        while b < size
            invariant
                b <= size,
                size == pre.len(),
                self.statements@.len() == size,
                self.backpatch@.len() == 0,
                adds_functions(old(self).statements@, pre),
                forall|j: int| 0 <= j < b ==> block_view(#[trigger] self.statements@[j]@) == merged(block_view(pre[j]@)),
                forall|j: int| b <= j < size ==> #[trigger] self.statements@[j] == pre[j],
                self.reg_count as nat == t_end.reg,
                self.label_count as nat == t_end.lab,
            decreases size - b,
        {
            self.merge_labels(b);
            b = b + 1;
        }
        proof {
            assert(blocks_view(self.statements@) =~= t_end.funs.map_values(|b: Seq<StmtV>| merged(b)));
            assert forall|j: int| old(self).statements@.len() <= j < size implies
                function_view(block_view(#[trigger] self.statements@[j]@)) by {
                assert(function_block(pre[j]@));
                assert(block_view(pre[j]@)[0] == pre[j]@[0]@);
                assert(block_view(pre[j]@).last() == pre[j]@.last()@);
                lemma_merged_function(block_view(pre[j]@));
            }
        }
        let mut r: Vec<Vec<Stmt>> = Vec::new();
        let mut k: usize = 0;
        while k < size
            invariant
                k <= size,
                self.statements@.len() == size,
                r@.len() == k,
                forall|j: int| 0 <= j < k ==> block_view(#[trigger] r@[j]@) == block_view(self.statements@[j]@),
            decreases size - k,
        {
            let copy = copy_block(&self.statements[k]);
            r.push(copy);
            k = k + 1;
        }
        r
    }
}

} // verus!

verus! {

/// Whether the expression translates to a variable.
fn yields_var_exec(e: &ast::Expr) -> (r: bool)
    ensures
        r == yields_var(*e),
    decreases *e,
{
    match e {
        ast::Expr::Variable(_) => true,
        ast::Expr::Assign(_, _, _) => true,
        ast::Expr::Grouping(b) => yields_var_exec(&**b),
        _ => false,
    }
}

/// Whether the expression can be translated.
fn expr_ok(e: &ast::Expr) -> (r: bool)
    ensures
        r == translatable_expr(*e),
    decreases *e, 0nat,
{
    match e {
        ast::Expr::Value(_) => true,
        ast::Expr::Variable(_) => true,
        ast::Expr::Assign(_, _, b) => expr_ok(&**b),
        ast::Expr::Binary(l, _, r) => expr_ok(&**l) && expr_ok(&**r),
        ast::Expr::Logical(l, _, r) => expr_ok(&**l) && expr_ok(&**r),
        ast::Expr::Grouping(b) => expr_ok(&**b),
        ast::Expr::CastAs(b, _) => castable_exec(&**b),
        ast::Expr::Call(b, args) => yields_var_exec(&**b) && expr_ok(&**b) && exprs_ok(args),
    }
}

fn exprs_ok(es: &Vec<ast::Expr>) -> (r: bool)
    ensures
        r == translatable_exprs(es@),
    decreases es@, 1nat,
{
    let mut ok = true;
    let mut i: usize = 0;
    assert(es@.take(0) =~= Seq::<ast::Expr>::empty());
    while i < es.len()
        invariant
            i <= es@.len(),
            ok == translatable_exprs(es@.take(i as int)),
        decreases es@.len() - i,
    {
        assert(es@.take(i + 1).drop_last() =~= es@.take(i as int));
        assert(es@.take(i + 1).last() == es@[i as int]);
        assert(decreases_to!(es@ => es@[i as int]));
        let e = expr_ok(&es[i]);
        ok = ok && e;
        i = i + 1;
    }
    assert(es@.take(es@.len() as int) =~= es@);
    ok
}

fn castable_exec(e: &ast::Expr) -> (r: bool)
    ensures
        r == castable(*e),
    decreases *e, 1nat,
{
    match e {
        ast::Expr::Value(_) => true,
        ast::Expr::Variable(_) => true,
        ast::Expr::Call(_, _) => expr_ok(e),
        ast::Expr::Grouping(b) => castable_exec(&**b),
        ast::Expr::Binary(l, _, r) => expr_ok(&**l) && expr_ok(&**r),
        ast::Expr::Logical(l, _, r) => expr_ok(&**l) && expr_ok(&**r),
        _ => false,
    }
}

} // verus!

verus! {

fn fn_free_exec(s: &ast::Stmt) -> (r: bool)
    ensures
        r == fn_free(*s),
    decreases *s, 0nat,
{
    match s {
        ast::Stmt::Block(ss) => fn_free_all_exec(ss),
        ast::Stmt::If(_, b, o) => fn_free_exec(&**b) && match o {
            Some(x) => fn_free_exec(&**x),
            None => true,
        },
        ast::Stmt::While(_, b) => fn_free_exec(&**b),
        ast::Stmt::Function(_, _, _, _) => false,
        _ => true,
    }
}

fn fn_free_all_exec(ss: &Vec<ast::Stmt>) -> (r: bool)
    ensures
        r == fn_free_all(ss@),
    decreases ss@, 1nat,
{
    let mut ok = true;
    let mut i: usize = 0;
    assert(ss@.take(0) =~= Seq::<ast::Stmt>::empty());
    while i < ss.len()
        invariant
            i <= ss@.len(),
            ok == fn_free_all(ss@.take(i as int)),
        decreases ss@.len() - i,
    {
        assert(ss@.take(i + 1).drop_last() =~= ss@.take(i as int));
        assert(decreases_to!(ss@ => ss@[i as int]));
        let e = fn_free_exec(&ss[i]);
        ok = ok && e;
        i = i + 1;
    }
    assert(ss@.take(ss@.len() as int) =~= ss@);
    ok
}

fn stmt_ok(s: &ast::Stmt) -> (r: bool)
    ensures
        r == translatable_stmt(*s),
    decreases *s, 0nat,
{
    match s {
        ast::Stmt::Block(ss) => stmts_ok(ss),
        ast::Stmt::If(c, b, o) => expr_ok(&**c) && stmt_ok(&**b) && match o {
            Some(x) => stmt_ok(&**x) && fn_free_exec(&**x),
            None => true,
        },
        ast::Stmt::While(c, b) => expr_ok(&**c) && stmt_ok(&**b),
        ast::Stmt::Expression(e) => expr_ok(&**e),
        ast::Stmt::Print(args) => exprs_ok(args),
        ast::Stmt::Return(o) => match o {
            Some(e) => expr_ok(&**e),
            None => false,
        },
        ast::Stmt::Function(_, _, _, body) => stmts_ok(body),
    }
}

fn stmts_ok(ss: &Vec<ast::Stmt>) -> (r: bool)
    ensures
        r == translatable_stmts(ss@),
    decreases ss@, 1nat,
{
    let mut ok = true;
    let mut i: usize = 0;
    assert(ss@.take(0) =~= Seq::<ast::Stmt>::empty());
    while i < ss.len()
        invariant
            i <= ss@.len(),
            ok == translatable_stmts(ss@.take(i as int)),
        decreases ss@.len() - i,
    {
        assert(ss@.take(i + 1).drop_last() =~= ss@.take(i as int));
        assert(decreases_to!(ss@ => ss@[i as int]));
        let e = stmt_ok(&ss[i]);
        ok = ok && e;
        i = i + 1;
    }
    assert(ss@.take(ss@.len() as int) =~= ss@);
    ok
}

/// The bound on program size below which the counters of a fresh
/// transformer cannot overflow.
pub open spec fn size_cap() -> int {
    (usize::MAX / 3) as int
}

fn cap_add(a: usize, b: usize) -> (r: usize)
    requires
        a <= size_cap() + 1,
        b <= size_cap() + 1,
    ensures
        r == min_cap(a + b),
{
    if a + b <= usize::MAX / 3 {
        a + b
    } else {
        usize::MAX / 3 + 1
    }
}

/// `n`, or one past the cap where it exceeds it.
pub open spec fn min_cap(n: int) -> int {
    if n <= size_cap() { n } else { size_cap() + 1 as int }
}

proof fn lemma_min_cap_add(a: int, b: int)
    requires
        a >= 0,
        b >= 0,
    ensures
        min_cap(min_cap(a) + min_cap(b)) == min_cap(a + b),
{
}

fn expr_size_capped(e: &ast::Expr) -> (r: usize)
    ensures
        r == min_cap(expr_size(*e) as int),
    decreases *e, 0nat,
{
    match e {
        ast::Expr::Value(_) => 1,
        ast::Expr::Variable(_) => 1,
        ast::Expr::Assign(_, _, b) => {
            let x = expr_size_capped(&**b);
            proof { lemma_min_cap_add(1, expr_size(**b) as int); }
            cap_add(1, x)
        },
        ast::Expr::Binary(l, _, r) => {
            let a = expr_size_capped(&**l);
            let b = expr_size_capped(&**r);
            proof {
                lemma_min_cap_add(1, expr_size(**l) as int);
                lemma_min_cap_add((1 + expr_size(**l)) as int, expr_size(**r) as int);
            }
            cap_add(cap_add(1, a), b)
        },
        ast::Expr::Logical(l, _, r) => {
            let a = expr_size_capped(&**l);
            let b = expr_size_capped(&**r);
            proof {
                lemma_min_cap_add(1, expr_size(**l) as int);
                lemma_min_cap_add((1 + expr_size(**l)) as int, expr_size(**r) as int);
            }
            cap_add(cap_add(1, a), b)
        },
        ast::Expr::Grouping(b) => {
            let x = expr_size_capped(&**b);
            proof { lemma_min_cap_add(1, expr_size(**b) as int); }
            cap_add(1, x)
        },
        ast::Expr::CastAs(b, _) => {
            let x = expr_size_capped(&**b);
            proof { lemma_min_cap_add(1, expr_size(**b) as int); }
            cap_add(1, x)
        },
        ast::Expr::Call(b, args) => {
            let a = expr_size_capped(&**b);
            let c = exprs_size_capped(args);
            proof {
                lemma_min_cap_add(1, expr_size(**b) as int);
                lemma_min_cap_add((1 + expr_size(**b)) as int, exprs_size(args@) as int);
            }
            cap_add(cap_add(1, a), c)
        },
    }
}

fn exprs_size_capped(es: &Vec<ast::Expr>) -> (r: usize)
    ensures
        r == min_cap(exprs_size(es@) as int),
    decreases es@, 1nat,
{
    let mut total: usize = 0;
    let mut i: usize = 0;
    assert(es@.take(0) =~= Seq::<ast::Expr>::empty());
    while i < es.len()
        invariant
            i <= es@.len(),
            total == min_cap(exprs_size(es@.take(i as int)) as int),
        decreases es@.len() - i,
    {
        assert(es@.take(i + 1).drop_last() =~= es@.take(i as int));
        assert(decreases_to!(es@ => es@[i as int]));
        let x = expr_size_capped(&es[i]);
        proof {
            lemma_min_cap_add(exprs_size(es@.take(i as int)) as int, expr_size(es@[i as int]) as int);
        }
        total = cap_add(total, x);
        i = i + 1;
    }
    assert(es@.take(es@.len() as int) =~= es@);
    total
}

fn stmt_size_capped(s: &ast::Stmt) -> (r: usize)
    ensures
        r == min_cap(stmt_size(*s) as int),
    decreases *s, 0nat,
{
    match s {
        ast::Stmt::Block(ss) => {
            let x = stmts_size_capped(ss);
            proof { lemma_min_cap_add(1, stmts_size(ss@) as int); }
            cap_add(1, x)
        },
        ast::Stmt::If(c, b, o) => {
            let a = expr_size_capped(&**c);
            let bb = stmt_size_capped(&**b);
            let oo: usize = match o {
                Some(x) => stmt_size_capped(&**x),
                None => 0,
            };
            proof {
                let os: int = match o { Some(x) => stmt_size(**x) as int, None => 0 };
                assert(oo == min_cap(os));
                lemma_min_cap_add(1, expr_size(**c) as int);
                lemma_min_cap_add((1 + expr_size(**c)) as int, stmt_size(**b) as int);
                lemma_min_cap_add((1 + expr_size(**c) + stmt_size(**b)) as int, os);
            }
            cap_add(cap_add(cap_add(1, a), bb), oo)
        },
        ast::Stmt::While(c, b) => {
            let a = expr_size_capped(&**c);
            let bb = stmt_size_capped(&**b);
            proof {
                lemma_min_cap_add(1, expr_size(**c) as int);
                lemma_min_cap_add((1 + expr_size(**c)) as int, stmt_size(**b) as int);
            }
            cap_add(cap_add(1, a), bb)
        },
        ast::Stmt::Expression(e) => {
            let x = expr_size_capped(&**e);
            proof { lemma_min_cap_add(1, expr_size(**e) as int); }
            cap_add(1, x)
        },
        ast::Stmt::Print(args) => {
            let x = exprs_size_capped(args);
            proof { lemma_min_cap_add(1, exprs_size(args@) as int); }
            cap_add(1, x)
        },
        ast::Stmt::Return(o) => match o {
            Some(e) => {
                let x = expr_size_capped(&**e);
                proof { lemma_min_cap_add(1, expr_size(**e) as int); }
                cap_add(1, x)
            },
            None => 1,
        },
        ast::Stmt::Function(_, _, _, body) => {
            let x = stmts_size_capped(body);
            proof { lemma_min_cap_add(1, stmts_size(body@) as int); }
            cap_add(1, x)
        },
    }
}

fn stmts_size_capped(ss: &Vec<ast::Stmt>) -> (r: usize)
    ensures
        r == min_cap(stmts_size(ss@) as int),
    decreases ss@, 1nat,
{
    let mut total: usize = 0;
    let mut i: usize = 0;
    assert(ss@.take(0) =~= Seq::<ast::Stmt>::empty());
    while i < ss.len()
        invariant
            i <= ss@.len(),
            total == min_cap(stmts_size(ss@.take(i as int)) as int),
        decreases ss@.len() - i,
    {
        assert(ss@.take(i + 1).drop_last() =~= ss@.take(i as int));
        assert(decreases_to!(ss@ => ss@[i as int]));
        let x = stmt_size_capped(&ss[i]);
        proof {
            lemma_min_cap_add(stmts_size(ss@.take(i as int)) as int, stmt_size(ss@[i as int]) as int);
        }
        total = cap_add(total, x);
        i = i + 1;
    }
    assert(ss@.take(ss@.len() as int) =~= ss@);
    total
}

/// Whether a fresh transformer can translate the program: it is a list of
/// functions that can all be translated, small enough for the counters.
pub fn translation_ready(ast: &Vec<ast::Stmt>) -> (r: bool)
    ensures
        r == (all_functions(ast@) && translatable_stmts(ast@) && stmts_size(ast@) <= size_cap()),
{
    let mut all = true;
    let mut i: usize = 0;
    while i < ast.len()
        invariant
            i <= ast@.len(),
            all == forall|k: int| 0 <= k < i ==> #[trigger] ast@[k] is Function,
        decreases ast@.len() - i,
    {
        let f = match &ast[i] {
            ast::Stmt::Function(_, _, _, _) => true,
            _ => false,
        };
        all = all && f;
        i = i + 1;
    }
    let ok = stmts_ok(ast);
    let size = stmts_size_capped(ast);
    all && ok && size <= usize::MAX / 3
}

} // verus!

verus! {

/// An arithmetic expression: values and variables combined by binary
/// operators and comparisons, with parentheses.
pub open spec fn arith_expr(e: ast::Expr) -> bool
    decreases e,
{
    match e {
        ast::Expr::Value(_) => true,
        ast::Expr::Variable(_) => true,
        ast::Expr::Binary(l, _, r) => arith_expr(*l) && arith_expr(*r),
        ast::Expr::Logical(l, _, r) => arith_expr(*l) && arith_expr(*r),
        ast::Expr::Grouping(b) => arith_expr(*b),
        _ => false,
    }
}

/// The value of an arithmetic expression, where `env` gives the values of
/// the operands (values and variables), `f` what each operator computes
/// from its left and right operands, and `c` what each comparison does; a
/// comparison is taken negated, as the three-address code stores it.
pub open spec fn eval_arith(e: ast::Expr, env: spec_fn(Oper) -> int, f: spec_fn(BinOp, int, int) -> int, c: spec_fn(RelOp, int, int) -> int) -> int
    decreases e,
{
    match e {
        ast::Expr::Value(v) => env(Oper::Value(v)),
        ast::Expr::Variable(n) => env(Oper::Var(n, 0)),
        ast::Expr::Binary(l, o, r) => f(o, eval_arith(*l, env, f, c), eval_arith(*r, env, f, c)),
        ast::Expr::Logical(l, o, r) => c(spec_negated(o), eval_arith(*l, env, f, c), eval_arith(*r, env, f, c)),
        ast::Expr::Grouping(b) => eval_arith(*b, env, f, c),
        _ => 0,
    }
}

/// The values of the operands after running the three-address statements
/// `code` from `env`: an assignment of a computation gives its destination
/// `f` (for a comparison `c`) of the values of its left and right operands,
/// a copy gives its destination the value of its source; other statements
/// change nothing.
pub open spec fn run_tac(code: Seq<StmtV>, env: spec_fn(Oper) -> int, f: spec_fn(BinOp, int, int) -> int, c: spec_fn(RelOp, int, int) -> int) -> spec_fn(Oper) -> int
    decreases code.len(),
{
    if code.len() == 0 {
        env
    } else {
        let e2 = run_tac(code.drop_last(), env, f, c);
        match code.last() {
            StmtV::Tac(d, ExprV::Binary(a, o, b)) => |x: Oper| if x == d { f(o, e2(a), e2(b)) } else { e2(x) },
            StmtV::Tac(d, ExprV::Logical(a, o, b)) => |x: Oper| if x == d { c(o, e2(a), e2(b)) } else { e2(x) },
            StmtV::Tac(d, ExprV::Oper(a)) => |x: Oper| if x == d { e2(a) } else { e2(x) },
            _ => e2,
        }
    }
}

/// Every statement of `code` is an assignment to a temporary numbered from
/// `lo` to below `hi`.
pub open spec fn writes_temps(code: Seq<StmtV>, lo: int, hi: int) -> bool {
    forall|i: int| 0 <= i < code.len() ==> writes_temp_in(#[trigger] code[i], lo, hi)
}

/// The statement assigns to a temporary numbered from `lo` to below `hi`.
pub open spec fn writes_temp_in(s: StmtV, lo: int, hi: int) -> bool {
    s matches StmtV::Tac(Oper::Temp(k, _), _) && lo <= k < hi
}

/// `o` is not a temporary numbered from `lo` to below `hi`.
pub open spec fn outside_temps(o: Oper, lo: int, hi: int) -> bool {
    !(o is Temp && lo <= o->Temp_0 < hi)
}

proof fn lemma_run_frame(code: Seq<StmtV>, env: spec_fn(Oper) -> int, f: spec_fn(BinOp, int, int) -> int, c: spec_fn(RelOp, int, int) -> int, lo: int, hi: int, o: Oper)
    requires
        writes_temps(code, lo, hi),
        outside_temps(o, lo, hi),
    ensures
        run_tac(code, env, f, c)(o) == env(o),
    decreases code.len(),
{
    if code.len() > 0 {
        assert(writes_temps(code.drop_last(), lo, hi)) by {
            assert forall|i: int| 0 <= i < code.drop_last().len() implies writes_temp_in(#[trigger] code.drop_last()[i], lo, hi) by {
                assert(code.drop_last()[i] == code[i]);
            }
        }
        lemma_run_frame(code.drop_last(), env, f, c, lo, hi, o);
        assert(code[code.len() - 1] == code.last());
    }
}

proof fn lemma_run_concat(a: Seq<StmtV>, b: Seq<StmtV>, env: spec_fn(Oper) -> int, f: spec_fn(BinOp, int, int) -> int, c: spec_fn(RelOp, int, int) -> int, o: Oper)
    ensures
        run_tac(a + b, env, f, c)(o) == run_tac(b, run_tac(a, env, f, c), f, c)(o),
    decreases b.len(),
{
    if b.len() == 0 {
        assert(a + b =~= a);
    } else {
        assert((a + b).drop_last() =~= a + b.drop_last());
        assert((a + b).last() == b.last());
        let e1 = run_tac((a + b).drop_last(), env, f, c);
        let e2 = run_tac(b.drop_last(), run_tac(a, env, f, c), f, c);
        assert forall|x: Oper| #[trigger] e1(x) == e2(x) by {
            lemma_run_concat(a, b.drop_last(), env, f, c, x);
        }
    }
}

proof fn lemma_eval_frame(e: ast::Expr, env1: spec_fn(Oper) -> int, env2: spec_fn(Oper) -> int, f: spec_fn(BinOp, int, int) -> int, c: spec_fn(RelOp, int, int) -> int)
    requires
        arith_expr(e),
        forall|o: Oper| !(o is Temp) ==> #[trigger] env1(o) == env2(o),
    ensures
        eval_arith(e, env1, f, c) == eval_arith(e, env2, f, c),
    decreases e,
{
    match e {
        ast::Expr::Binary(l, _, r) => {
            lemma_eval_frame(*l, env1, env2, f, c);
            lemma_eval_frame(*r, env1, env2, f, c);
        },
        ast::Expr::Logical(l, _, r) => {
            lemma_eval_frame(*l, env1, env2, f, c);
            lemma_eval_frame(*r, env1, env2, f, c);
        },
        ast::Expr::Grouping(b) => {
            lemma_eval_frame(*b, env1, env2, f, c);
        },
        ast::Expr::Value(v) => {
            assert(env1(Oper::Value(v)) == env2(Oper::Value(v)));
        },
        ast::Expr::Variable(n) => {
            assert(env1(Oper::Var(n, 0)) == env2(Oper::Var(n, 0)));
        },
        _ => {},
    }
}

/// Translating an arithmetic expression computes it: run from any values
/// of the operands, the statements that the translation appends leave in
/// the operand it gives the value of the expression, whatever each
/// operator and comparison computes, with every operator applied to the
/// value of its left operand first and of its right operand second (a
/// comparison stored negated). The appended statements write only fresh
/// temporaries, numbered from `reg` to below the next free one.
pub proof fn lemma_translate_arith(e: ast::Expr, code: Seq<StmtV>, reg: nat, env: spec_fn(Oper) -> int,
    f: spec_fn(BinOp, int, int) -> int, c: spec_fn(RelOp, int, int) -> int)
    requires
        arith_expr(e),
        reg + expr_size(e) <= usize::MAX,
    ensures
        tr_expr(e, code, reg).code.len() >= code.len(),
        tr_expr(e, code, reg).code.subrange(0, code.len() as int) == code,
        reg <= tr_expr(e, code, reg).reg <= reg + expr_size(e),
        writes_temps(tr_expr(e, code, reg).code.subrange(code.len() as int, tr_expr(e, code, reg).code.len() as int),
            reg as int, tr_expr(e, code, reg).reg as int),
        tr_expr(e, code, reg).res is Value || tr_expr(e, code, reg).res is Var
            || (tr_expr(e, code, reg).res is Temp && reg <= tr_expr(e, code, reg).res->Temp_0 < tr_expr(e, code, reg).reg),
        run_tac(tr_expr(e, code, reg).code.subrange(code.len() as int, tr_expr(e, code, reg).code.len() as int), env, f, c)(
            tr_expr(e, code, reg).res) == eval_arith(e, env, f, c),
    decreases e,
{
    let x = tr_expr(e, code, reg);
    match e {
        ast::Expr::Value(v) => {
            assert(x.code.subrange(code.len() as int, x.code.len() as int) =~= Seq::<StmtV>::empty());
            assert(code.subrange(0, code.len() as int) =~= code);
        },
        ast::Expr::Variable(n) => {
            assert(x.code.subrange(code.len() as int, x.code.len() as int) =~= Seq::<StmtV>::empty());
            assert(code.subrange(0, code.len() as int) =~= code);
        },
        ast::Expr::Grouping(b) => {
            lemma_translate_arith(*b, code, reg, env, f, c);
        },
        ast::Expr::Binary(l, o, r) => {
            let temp = Oper::Temp(reg as usize, 0);
            let a = tr_expr(*l, code, reg + 1);
            lemma_translate_arith(*l, code, reg + 1, env, f, c);
            let na = a.code.subrange(code.len() as int, a.code.len() as int);
            let env1 = run_tac(na, env, f, c);
            let b = tr_expr(*r, a.code, a.reg);
            lemma_translate_arith(*r, a.code, a.reg, env1, f, c);
            let nb = b.code.subrange(a.code.len() as int, b.code.len() as int);
            let t = StmtV::Tac(temp, ExprV::Binary(a.res, o, b.res));
            assert(x == tr_binary(*l, o, *r, code, reg));
            assert(x.code == b.code.push(t));
            assert(a.code =~= code + na);
            assert(b.code =~= a.code + nb);
            let nw = x.code.subrange(code.len() as int, x.code.len() as int);
            assert(nw =~= (na + nb).push(t));
            assert(x.code.subrange(0, code.len() as int) =~= code);
            assert(writes_temps(nw, reg as int, x.reg as int)) by {
                assert forall|i: int| 0 <= i < nw.len() implies writes_temp_in(#[trigger] nw[i], reg as int, x.reg as int) by {
                    if i < na.len() {
                        assert(nw[i] == na[i]);
                    } else if i < na.len() + nb.len() {
                        assert(nw[i] == nb[i - na.len()]);
                    } else {
                        assert(nw[i] == t);
                    }
                }
            }
            // values after the operands' code
            let e2 = run_tac(na + nb, env, f, c);
            assert forall|q: Oper| !(q is Temp) implies #[trigger] env1(q) == env(q) by {
                lemma_run_frame(na, env, f, c, (reg + 1) as int, a.reg as int, q);
            }
            lemma_eval_frame(*r, env1, env, f, c);
            lemma_run_concat(na, nb, env, f, c, b.res);
            lemma_run_concat(na, nb, env, f, c, a.res);
            lemma_run_frame(nb, env1, f, c, a.reg as int, b.reg as int, a.res);
            assert(e2(a.res) == eval_arith(*l, env, f, c));
            assert(e2(b.res) == eval_arith(*r, env, f, c));
            assert(nw.drop_last() =~= na + nb);
            assert(nw.last() == t);
        },
        ast::Expr::Logical(l, o, r) => {
            let temp = Oper::Temp(reg as usize, 0);
            let a = tr_expr(*l, code, reg + 1);
            lemma_translate_arith(*l, code, reg + 1, env, f, c);
            let na = a.code.subrange(code.len() as int, a.code.len() as int);
            let env1 = run_tac(na, env, f, c);
            let b = tr_expr(*r, a.code, a.reg);
            lemma_translate_arith(*r, a.code, a.reg, env1, f, c);
            let nb = b.code.subrange(a.code.len() as int, b.code.len() as int);
            let t = StmtV::Tac(temp, ExprV::Logical(a.res, spec_negated(o), b.res));
            assert(x == tr_logical(*l, o, *r, code, reg));
            assert(x.code == b.code.push(t));
            assert(a.code =~= code + na);
            assert(b.code =~= a.code + nb);
            let nw = x.code.subrange(code.len() as int, x.code.len() as int);
            assert(nw =~= (na + nb).push(t));
            assert(x.code.subrange(0, code.len() as int) =~= code);
            assert(writes_temps(nw, reg as int, x.reg as int)) by {
                assert forall|i: int| 0 <= i < nw.len() implies writes_temp_in(#[trigger] nw[i], reg as int, x.reg as int) by {
                    if i < na.len() {
                        assert(nw[i] == na[i]);
                    } else if i < na.len() + nb.len() {
                        assert(nw[i] == nb[i - na.len()]);
                    } else {
                        assert(nw[i] == t);
                    }
                }
            }
            // values after the operands' code
            let e2 = run_tac(na + nb, env, f, c);
            assert forall|q: Oper| !(q is Temp) implies #[trigger] env1(q) == env(q) by {
                lemma_run_frame(na, env, f, c, (reg + 1) as int, a.reg as int, q);
            }
            lemma_eval_frame(*r, env1, env, f, c);
            lemma_run_concat(na, nb, env, f, c, b.res);
            lemma_run_concat(na, nb, env, f, c, a.res);
            lemma_run_frame(nb, env1, f, c, a.reg as int, b.reg as int, a.res);
            assert(e2(a.res) == eval_arith(*l, env, f, c));
            assert(e2(b.res) == eval_arith(*r, env, f, c));
            assert(nw.drop_last() =~= na + nb);
            assert(nw.last() == t);
        },
        _ => {},
    }
}


/// Translating an assignment `n = l` of an arithmetic expression leaves in
/// `n` the value of `l`, gives `n` as the expression's operand, and changes
/// no other operand but fresh temporaries numbered from `reg` to below the
/// next free one.
pub proof fn lemma_translate_assign(n: usize, ty: Type, l: ast::Expr, code: Seq<StmtV>, reg: nat, env: spec_fn(Oper) -> int,
    f: spec_fn(BinOp, int, int) -> int, c: spec_fn(RelOp, int, int) -> int)
    requires
        arith_expr(l),
        reg + expr_size(l) <= usize::MAX,
    ensures
        tr_expr(ast::Expr::Assign(n, ty, Box::new(l)), code, reg).res == Oper::Var(n, 0),
        tr_expr(ast::Expr::Assign(n, ty, Box::new(l)), code, reg).code.len() > code.len(),
        tr_expr(ast::Expr::Assign(n, ty, Box::new(l)), code, reg).code.subrange(0, code.len() as int) == code,
        run_tac(tr_expr(ast::Expr::Assign(n, ty, Box::new(l)), code, reg).code.subrange(code.len() as int,
            tr_expr(ast::Expr::Assign(n, ty, Box::new(l)), code, reg).code.len() as int), env, f, c)(Oper::Var(n, 0))
            == eval_arith(l, env, f, c),
        forall|o: Oper| o != Oper::Var(n, 0) && outside_temps(o, reg as int, tr_expr(ast::Expr::Assign(n, ty, Box::new(l)), code, reg).reg as int)
            ==> #[trigger] run_tac(tr_expr(ast::Expr::Assign(n, ty, Box::new(l)), code, reg).code.subrange(code.len() as int,
                tr_expr(ast::Expr::Assign(n, ty, Box::new(l)), code, reg).code.len() as int), env, f, c)(o) == env(o),
{
    let e = ast::Expr::Assign(n, ty, Box::new(l));
    let x = tr_expr(e, code, reg);
    let y = tr_expr(l, code, reg);
    lemma_translate_arith(l, code, reg, env, f, c);
    assert(!(l is Call));
    assert(x == tr_assign(n, l, code, reg));
    let t = StmtV::Tac(Oper::Var(n, 0), ExprV::Oper(y.res));
    assert(x.code == y.code.push(t));
    let ny = y.code.subrange(code.len() as int, y.code.len() as int);
    let nw = x.code.subrange(code.len() as int, x.code.len() as int);
    assert(y.code =~= code + ny);
    assert(nw =~= ny.push(t));
    assert(x.code.subrange(0, code.len() as int) =~= code);
    assert(nw.drop_last() =~= ny);
    assert(nw.last() == t);
    assert forall|o: Oper| o != Oper::Var(n, 0) && outside_temps(o, reg as int, x.reg as int)
        implies #[trigger] run_tac(nw, env, f, c)(o) == env(o) by {
        lemma_run_frame(ny, env, f, c, reg as int, y.reg as int, o);
    }
}

} // verus!
