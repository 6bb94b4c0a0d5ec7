use vstd::prelude::*;
use crate::ast::{Expr, ExprView, Stmt, StmtView, expr_view};
use crate::parser::{binop_of, precedence_of, primary_result, relop_of, type_of_symbol, FloatCast, ParseError, Precedence};
use crate::scanner::{Symbol, Token};
use crate::value::{Primitive, Type, Value};

verus! {

/// A parse error as a mathematical value.
pub enum ErrView {
    TokenStreamEmpty,
    CastError(Token, Type),
    UnexpectedToken(Token, Symbol),
    UnexpectedInfixOperator(Token),
    UnexpectedPrefixOperator(Token),
    ExpectedIdentifier(Token),
    ExpectedBinaryOperator(Token),
    ExpectedLiteral(Token),
    ExpectedLValue(ExprView),
    ExpectedVariableType(Token),
    UndefinedVariable(usize),
}

pub open spec fn err_view(e: ParseError) -> ErrView {
    match e {
        ParseError::TokenStreamEmpty => ErrView::TokenStreamEmpty,
        ParseError::CastError(t, ty) => ErrView::CastError(t, ty),
        ParseError::UnexpectedToken(t, s) => ErrView::UnexpectedToken(t, s),
        ParseError::UnexpectedInfixOperator(t) => ErrView::UnexpectedInfixOperator(t),
        ParseError::UnexpectedPrefixOperator(t) => ErrView::UnexpectedPrefixOperator(t),
        ParseError::ExpectedIdentifier(t) => ErrView::ExpectedIdentifier(t),
        ParseError::ExpectedBinaryOperator(t) => ErrView::ExpectedBinaryOperator(t),
        ParseError::ExpectedLiteral(t) => ErrView::ExpectedLiteral(t),
        ParseError::ExpectedLValue(e) => ErrView::ExpectedLValue(expr_view(e)),
        ParseError::ExpectedVariableType(t) => ErrView::ExpectedVariableType(t),
        ParseError::UndefinedVariable(n) => ErrView::UndefinedVariable(n),
    }
}

/// What a step of parsing gives: a value or an error, and the tokens left
/// on the stack (the next token on top).
pub struct Parsed<T> {
    pub res: Result<T, ErrView>,
    pub rest: Seq<Token>,
}

pub open spec fn fail<T>(e: ErrView, rest: Seq<Token>) -> Parsed<T> {
    Parsed { res: Err(e), rest }
}

pub open spec fn done<T>(v: T, rest: Seq<Token>) -> Parsed<T> {
    Parsed { res: Ok(v), rest }
}

/// The same failure, for a result of another type.
pub open spec fn pass<A, B>(p: Parsed<A>) -> Parsed<B> {
    Parsed { res: Err(p.res->Err_0), rest: p.rest }
}

/// The expression parsed, with the tokens `rest` left, is what `p` says.
pub open spec fn expr_parsed(r: Result<Expr, ParseError>, rest: Seq<Token>, p: Parsed<ExprView>) -> bool {
    &&& rest == p.rest
    &&& match r {
        Ok(v) => p.res == Ok::<ExprView, ErrView>(expr_view(v)),
        Err(e) => p.res == Err::<ExprView, ErrView>(err_view(e)),
    }
}

/// The expressions parsed, with the tokens `rest` left, are what `p` says.
pub open spec fn exprs_parsed(r: Result<Vec<Expr>, ParseError>, rest: Seq<Token>, p: Parsed<Seq<ExprView>>) -> bool {
    &&& rest == p.rest
    &&& match r {
        Ok(v) => p.res == Ok::<Seq<ExprView>, ErrView>(crate::ast::exprs_view(v@)),
        Err(e) => p.res == Err::<Seq<ExprView>, ErrView>(err_view(e)),
    }
}

/// The statement parsed, with the tokens `rest` left, is what `p` says.
pub open spec fn stmt_parsed(r: Result<Stmt, ParseError>, rest: Seq<Token>, p: Parsed<StmtView>) -> bool {
    &&& rest == p.rest
    &&& match r {
        Ok(v) => p.res == Ok::<StmtView, ErrView>(crate::ast::stmt_view(v)),
        Err(e) => p.res == Err::<StmtView, ErrView>(err_view(e)),
    }
}

/// The statements parsed, with the tokens `rest` left, are what `p` says.
pub open spec fn stmts_parsed(r: Result<Vec<Stmt>, ParseError>, rest: Seq<Token>, p: Parsed<Seq<StmtView>>) -> bool {
    &&& rest == p.rest
    &&& match r {
        Ok(v) => p.res == Ok::<Seq<StmtView>, ErrView>(crate::ast::stmts_view(v@)),
        Err(e) => p.res == Err::<Seq<StmtView>, ErrView>(err_view(e)),
    }
}

/// The alternative parsed, with the tokens `rest` left, is what `p` says.
pub open spec fn alt_parsed(r: Result<Option<Box<Stmt>>, ParseError>, rest: Seq<Token>, p: Parsed<Option<Box<StmtView>>>) -> bool {
    &&& rest == p.rest
    &&& match r {
        Ok(v) => p.res == Ok::<Option<Box<StmtView>>, ErrView>(match v {
            Some(x) => Some(Box::new(crate::ast::stmt_view(*x))),
            None => None,
        }),
        Err(e) => p.res == Err::<Option<Box<StmtView>>, ErrView>(err_view(e)),
    }
}

/// The parameters parsed, with the tokens `rest` left, are what `p` says.
pub open spec fn params_parsed(r: Result<Vec<(usize, Type)>, ParseError>, rest: Seq<Token>, p: Parsed<Seq<(usize, Type)>>) -> bool {
    &&& rest == p.rest
    &&& match r {
        Ok(v) => p.res == Ok::<Seq<(usize, Type)>, ErrView>(v@),
        Err(e) => p.res == Err::<Seq<(usize, Type)>, ErrView>(err_view(e)),
    }
}

/// Taking the next token, which must be `expected`.
pub open spec fn g_consume(toks: Seq<Token>, expected: Symbol) -> Parsed<()> {
    if toks.len() == 0 {
        fail(ErrView::TokenStreamEmpty, toks)
    } else if toks.last().sym != expected {
        fail(ErrView::UnexpectedToken(toks.last(), expected), toks)
    } else {
        done((), toks.drop_last())
    }
}

/// Taking a type name.
pub open spec fn g_type(toks: Seq<Token>) -> Parsed<Type> {
    if toks.len() == 0 {
        fail(ErrView::TokenStreamEmpty, toks)
    } else {
        match type_of_symbol(toks.last().sym) {
            Some(t) => done(t, toks.drop_last()),
            None => fail(ErrView::ExpectedVariableType(toks.last()), toks.drop_last()),
        }
    }
}

/// A literal or a name.
pub open spec fn g_primary(toks: Seq<Token>, floats: Seq<FloatCast>, ty: Option<Type>) -> Parsed<ExprView> {
    if toks.len() == 0 {
        fail(ErrView::TokenStreamEmpty, toks)
    } else {
        match primary_result(floats, toks.last(), ty) {
            Ok(e) => done(expr_view(e), toks.drop_last()),
            Err(e) => fail(err_view(e), toks.drop_last()),
        }
    }
}

/// An expression whose operators bind more tightly than `prec`: a prefix
/// expression, then operators applied while they bind more tightly.
pub open spec fn g_expr(toks: Seq<Token>, floats: Seq<FloatCast>, prec: Precedence, ty: Option<Type>) -> Parsed<ExprView>
    decreases toks.len(), 7nat,
{
    let p = g_prefix(toks, floats, ty);
    match p.res {
        Ok(left) => if p.rest.len() < toks.len() { g_loop(left, p.rest, floats, prec, ty) } else { p },
        Err(_) => p,
    }
}

/// Operators applied to `left` while they bind more tightly than `prec`.
pub open spec fn g_loop(left: ExprView, toks: Seq<Token>, floats: Seq<FloatCast>, prec: Precedence, ty: Option<Type>) -> Parsed<ExprView>
    decreases toks.len(), 6nat,
{
    if toks.len() == 0 {
        done(left, toks)
    } else if prec.rank_spec() >= precedence_of(toks.last().sym).rank_spec() {
        done(left, toks)
    } else {
        let q = g_infix(left, toks, floats, ty);
        match q.res {
            Ok(e) => if q.rest.len() < toks.len() { g_loop(e, q.rest, floats, prec, ty) } else { q },
            Err(_) => q,
        }
    }
}

/// The operator on top applied to `left`.
pub open spec fn g_infix(left: ExprView, toks: Seq<Token>, floats: Seq<FloatCast>, ty: Option<Type>) -> Parsed<ExprView>
    decreases toks.len(), 5nat,
{
    if toks.len() == 0 {
        fail(ErrView::TokenStreamEmpty, toks)
    } else {
        match toks.last().sym {
            Symbol::Or | Symbol::And | Symbol::Plus | Symbol::Minus | Symbol::Star | Symbol::Slash | Symbol::Modulo | Symbol::Carat
                => g_binary(left, toks, floats, ty),
            Symbol::Less | Symbol::LessEqual | Symbol::Greater | Symbol::GreaterEqual | Symbol::NotEqual | Symbol::EqualEqual
                => g_logical(left, toks, floats, ty),
            Symbol::Colon => g_assign(left, toks, floats),
            Symbol::LeftParen => g_call(left, toks, floats, ty),
            _ => fail(ErrView::UnexpectedInfixOperator(toks.last()), toks),
        }
    }
}

/// A literal, name, boolean or parenthesised expression.
pub open spec fn g_prefix(toks: Seq<Token>, floats: Seq<FloatCast>, ty: Option<Type>) -> Parsed<ExprView>
    decreases toks.len(), 5nat,
{
    if toks.len() == 0 {
        fail(ErrView::TokenStreamEmpty, toks)
    } else {
        match toks.last().sym {
            Symbol::IntegerLiteral(_) | Symbol::FloatLiteral(_) | Symbol::Identifier(_) | Symbol::StringLiteral(_)
                => g_primary(toks, floats, ty),
            Symbol::True => done(ExprView::Value(Value { inner: Primitive::Bool(true) }), toks.drop_last()),
            Symbol::False => done(ExprView::Value(Value { inner: Primitive::Bool(false) }), toks.drop_last()),
            Symbol::LeftParen => g_grouping(toks, floats, ty),
            _ => fail(ErrView::UnexpectedPrefixOperator(toks.last()), toks),
        }
    }
}

/// `left op right` for an arithmetic or logical operator; the right side
/// binds more tightly than the operator.
pub open spec fn g_binary(left: ExprView, toks: Seq<Token>, floats: Seq<FloatCast>, ty: Option<Type>) -> Parsed<ExprView>
    decreases toks.len(), 4nat,
{
    if toks.len() == 0 {
        fail(ErrView::TokenStreamEmpty, toks)
    } else {
        let op = toks.last();
        let rest = toks.drop_last();
        match binop_of(op.sym) {
            Some(b) => {
                let r = g_expr(rest, floats, precedence_of(op.sym), ty);
                match r.res {
                    Ok(right) => done(ExprView::Binary(Box::new(left), b, Box::new(right)), r.rest),
                    Err(_) => r,
                }
            },
            None => fail(ErrView::ExpectedBinaryOperator(op), rest),
        }
    }
}

/// `left op right` for a relational operator.
pub open spec fn g_logical(left: ExprView, toks: Seq<Token>, floats: Seq<FloatCast>, ty: Option<Type>) -> Parsed<ExprView>
    decreases toks.len(), 4nat,
{
    if toks.len() == 0 {
        fail(ErrView::TokenStreamEmpty, toks)
    } else {
        let op = toks.last();
        let rest = toks.drop_last();
        match relop_of(op.sym) {
            Some(o) => {
                let r = g_expr(rest, floats, precedence_of(op.sym), ty);
                match r.res {
                    Ok(right) => done(ExprView::Logical(Box::new(left), o, Box::new(right)), r.rest),
                    Err(_) => r,
                }
            },
            None => fail(ErrView::ExpectedBinaryOperator(op), rest),
        }
    }
}

/// `left: type = expression`, where `left` is a variable.
pub open spec fn g_assign(left: ExprView, toks: Seq<Token>, floats: Seq<FloatCast>) -> Parsed<ExprView>
    decreases toks.len(), 4nat,
{
    let c = g_consume(toks, Symbol::Colon);
    if c.res is Err {
        pass(c)
    } else {
        let t = g_type(c.rest);
        if t.res is Err {
            pass(t)
        } else {
            let e = g_consume(t.rest, Symbol::Equal);
            if e.res is Err {
                pass(e)
            } else if e.rest.len() < toks.len() {
                let r = g_expr(e.rest, floats, Precedence::Nil, Some(t.res->Ok_0));
                match r.res {
                    Ok(right) => match left {
                        ExprView::Variable(id) => done(ExprView::Assign(id, t.res->Ok_0, Box::new(right)), r.rest),
                        _ => fail(ErrView::ExpectedLValue(left), r.rest),
                    },
                    Err(_) => r,
                }
            } else {
                fail(ErrView::TokenStreamEmpty, e.rest)
            }
        }
    }
}

/// `left(arguments)`.
pub open spec fn g_call(left: ExprView, toks: Seq<Token>, floats: Seq<FloatCast>, ty: Option<Type>) -> Parsed<ExprView>
    decreases toks.len(), 4nat,
{
    let c = g_consume(toks, Symbol::LeftParen);
    if c.res is Err {
        pass(c)
    } else if c.rest.len() < toks.len() {
        let a = g_list(c.rest, floats, ty);
        match a.res {
            Ok(args) => {
                let d = g_consume(a.rest, Symbol::RightParen);
                if d.res is Err { pass(d) } else { done(ExprView::Call(Box::new(left), args), d.rest) }
            },
            Err(e) => fail(e, a.rest),
        }
    } else {
        fail(ErrView::TokenStreamEmpty, c.rest)
    }
}

/// `(expression)`.
pub open spec fn g_grouping(toks: Seq<Token>, floats: Seq<FloatCast>, ty: Option<Type>) -> Parsed<ExprView>
    decreases toks.len(), 4nat,
{
    let c = g_consume(toks, Symbol::LeftParen);
    if c.res is Err {
        pass(c)
    } else if c.rest.len() < toks.len() {
        let r = g_expr(c.rest, floats, Precedence::Nil, ty);
        match r.res {
            Ok(e) => {
                let d = g_consume(r.rest, Symbol::RightParen);
                if d.res is Err { pass(d) } else { done(ExprView::Grouping(Box::new(e)), d.rest) }
            },
            Err(_) => r,
        }
    } else {
        fail(ErrView::TokenStreamEmpty, c.rest)
    }
}

/// Expressions separated by commas, up to a closing parenthesis.
pub open spec fn g_list(toks: Seq<Token>, floats: Seq<FloatCast>, ty: Option<Type>) -> Parsed<Seq<ExprView>>
    decreases toks.len(), 9nat,
{
    if toks.len() == 0 {
        fail(ErrView::TokenStreamEmpty, toks)
    } else if toks.last().sym != Symbol::RightParen {
        let e = g_expr(toks, floats, Precedence::Nil, ty);
        match e.res {
            Ok(x) => if e.rest.len() <= toks.len() { g_more(seq![x], e.rest, floats, ty) } else { done(seq![x], e.rest) },
            Err(err) => fail(err, e.rest),
        }
    } else {
        g_more(Seq::empty(), toks, floats, ty)
    }
}

/// Further expressions, each after a comma, added to `acc`.
pub open spec fn g_more(acc: Seq<ExprView>, toks: Seq<Token>, floats: Seq<FloatCast>, ty: Option<Type>) -> Parsed<Seq<ExprView>>
    decreases toks.len(), 8nat,
{
    if toks.len() == 0 {
        fail(ErrView::TokenStreamEmpty, toks)
    } else if toks.last().sym != Symbol::Comma {
        done(acc, toks)
    } else {
        let e = g_expr(toks.drop_last(), floats, Precedence::Nil, ty);
        match e.res {
            Ok(x) => if e.rest.len() < toks.len() { g_more(acc.push(x), e.rest, floats, ty) } else { done(acc.push(x), e.rest) },
            Err(err) => fail(err, e.rest),
        }
    }
}

/// A declaration: a function, or else a statement.
pub open spec fn g_decl(toks: Seq<Token>, floats: Seq<FloatCast>) -> Parsed<StmtView>
    decreases toks.len(), 10nat,
{
    if toks.len() == 0 {
        fail(ErrView::TokenStreamEmpty, toks)
    } else if toks.last().sym == Symbol::Fun {
        g_function(toks, floats)
    } else {
        g_statement(toks, floats)
    }
}

/// Declarations added to `acc` up to a closing brace or the end of input.
pub open spec fn g_decls(acc: Seq<StmtView>, toks: Seq<Token>, floats: Seq<FloatCast>) -> Parsed<Seq<StmtView>>
    decreases toks.len(), 11nat,
{
    if toks.len() == 0 {
        fail(ErrView::TokenStreamEmpty, toks)
    } else if toks.last().sym == Symbol::RightBrace || toks.last().sym == Symbol::Eof {
        done(acc, toks)
    } else {
        let d = g_decl(toks, floats);
        match d.res {
            Ok(x) => if d.rest.len() < toks.len() { g_decls(acc.push(x), d.rest, floats) } else { done(acc.push(x), d.rest) },
            Err(e) => fail(e, d.rest),
        }
    }
}

/// `# name(params): type { declarations }`.
pub open spec fn g_function(toks: Seq<Token>, floats: Seq<FloatCast>) -> Parsed<StmtView>
    decreases toks.len(), 9nat,
{
    let c = g_consume(toks, Symbol::Fun);
    if c.res is Err {
        pass(c)
    } else if c.rest.len() == 0 {
        fail(ErrView::TokenStreamEmpty, c.rest)
    } else {
        let after = c.rest.drop_last();
        match c.rest.last().sym {
            Symbol::Identifier(name) => {
                let o = g_consume(after, Symbol::LeftParen);
                if o.res is Err {
                    pass(o)
                } else if o.rest.len() == 0 {
                    fail(ErrView::TokenStreamEmpty, o.rest)
                } else if o.rest.last().sym != Symbol::RightParen {
                    let p = g_idents(o.rest);
                    match p.res {
                        Ok(ps) => if p.rest.len() < toks.len() {
                            g_fn_tail(name, ps, p.rest, floats)
                        } else {
                            fail(ErrView::TokenStreamEmpty, p.rest)
                        },
                        Err(e) => fail(e, p.rest),
                    }
                } else {
                    g_fn_tail(name, Seq::empty(), o.rest, floats)
                }
            },
            _ => if after.len() == 0 {
                fail(ErrView::TokenStreamEmpty, after)
            } else {
                fail(ErrView::ExpectedIdentifier(after.last()), after)
            },
        }
    }
}

/// The part of a function after its parameters: `): type { declarations }`.
pub open spec fn g_fn_tail(name: usize, params: Seq<(usize, Type)>, toks: Seq<Token>, floats: Seq<FloatCast>) -> Parsed<StmtView>
    decreases toks.len(), 8nat,
{
    let c = g_consume(toks, Symbol::RightParen);
    if c.res is Err {
        pass(c)
    } else if c.rest.len() == 0 {
        fail(ErrView::TokenStreamEmpty, c.rest)
    } else if c.rest.last().sym == Symbol::Colon {
        let t = g_type(c.rest.drop_last());
        match t.res {
            Ok(ty) => g_fn_body(name, params, ty, t.rest, floats),
            Err(e) => fail(e, t.rest),
        }
    } else {
        g_fn_body(name, params, Type::Nil, c.rest, floats)
    }
}

/// The body of a function: `{ declarations }`.
pub open spec fn g_fn_body(name: usize, params: Seq<(usize, Type)>, ret: Type, toks: Seq<Token>, floats: Seq<FloatCast>) -> Parsed<StmtView>
    decreases toks.len(), 7nat,
{
    let c = g_consume(toks, Symbol::LeftBrace);
    if c.res is Err {
        pass(c)
    } else if c.rest.len() < toks.len() {
        let d = g_decls(Seq::empty(), c.rest, floats);
        match d.res {
            Ok(body) => {
                let e = g_consume(d.rest, Symbol::RightBrace);
                if e.res is Err { pass(e) } else { done(StmtView::Function(name, params, ret, body), e.rest) }
            },
            Err(err) => fail(err, d.rest),
        }
    } else {
        fail(ErrView::TokenStreamEmpty, c.rest)
    }
}

/// `name: type, name: type, ...`.
pub open spec fn g_idents(toks: Seq<Token>) -> Parsed<Seq<(usize, Type)>> {
    if toks.len() == 0 {
        fail(ErrView::TokenStreamEmpty, toks)
    } else {
        let c = g_consume(toks.drop_last(), Symbol::Colon);
        if c.res is Err {
            pass(c)
        } else {
            let t = g_type(c.rest);
            match t.res {
                Ok(ty) => match toks.last().sym {
                    Symbol::Identifier(name) => g_idents_more(seq![(name, ty)], t.rest),
                    _ => fail(ErrView::ExpectedIdentifier(toks.last()), t.rest),
                },
                Err(e) => fail(e, t.rest),
            }
        }
    }
}

/// Further parameters, each after a comma, added to `acc`.
pub open spec fn g_idents_more(acc: Seq<(usize, Type)>, toks: Seq<Token>) -> Parsed<Seq<(usize, Type)>>
    decreases toks.len(),
{
    if toks.len() == 0 {
        fail(ErrView::TokenStreamEmpty, toks)
    } else if toks.last().sym != Symbol::Comma {
        done(acc, toks)
    } else {
        let after = toks.drop_last();
        if after.len() == 0 {
            fail(ErrView::TokenStreamEmpty, after)
        } else {
            let c = g_consume(after.drop_last(), Symbol::Colon);
            if c.res is Err {
                pass(c)
            } else {
                let t = g_type(c.rest);
                match t.res {
                    Ok(ty) => match after.last().sym {
                        Symbol::Identifier(name) => if t.rest.len() < toks.len() {
                            g_idents_more(acc.push((name, ty)), t.rest)
                        } else {
                            done(acc.push((name, ty)), t.rest)
                        },
                        _ => fail(ErrView::ExpectedIdentifier(after.last()), t.rest),
                    },
                    Err(e) => fail(e, t.rest),
                }
            }
        }
    }
}

/// A statement: `if`, `print`, `return` or an expression statement.
pub open spec fn g_statement(toks: Seq<Token>, floats: Seq<FloatCast>) -> Parsed<StmtView>
    decreases toks.len(), 9nat,
{
    if toks.len() == 0 {
        fail(ErrView::TokenStreamEmpty, toks)
    } else {
        match toks.last().sym {
            Symbol::If => g_if(toks, floats),
            Symbol::Print => g_print(toks, floats),
            Symbol::Return => g_return(toks, floats),
            _ => g_expr_stmt(toks, floats),
        }
    }
}

/// `{ declarations }`.
pub open spec fn g_block(toks: Seq<Token>, floats: Seq<FloatCast>) -> Parsed<StmtView>
    decreases toks.len(), 6nat,
{
    let c = g_consume(toks, Symbol::LeftBrace);
    if c.res is Err {
        pass(c)
    } else if c.rest.len() < toks.len() {
        let d = g_decls(Seq::empty(), c.rest, floats);
        match d.res {
            Ok(body) => {
                let e = g_consume(d.rest, Symbol::RightBrace);
                if e.res is Err { pass(e) } else { done(StmtView::Block(body), e.rest) }
            },
            Err(err) => fail(err, d.rest),
        }
    } else {
        fail(ErrView::TokenStreamEmpty, c.rest)
    }
}

/// `(condition) { ... }` and what follows it, after `if` or `elif`.
pub open spec fn g_branch(toks: Seq<Token>, floats: Seq<FloatCast>) -> Parsed<StmtView>
    decreases toks.len(), 8nat,
{
    let o = g_consume(toks, Symbol::LeftParen);
    if o.res is Err {
        pass(o)
    } else if o.rest.len() < toks.len() {
        let cond = g_expr(o.rest, floats, Precedence::Nil, None);
        match cond.res {
            Ok(c) => {
                let p = g_consume(cond.rest, Symbol::RightParen);
                if p.res is Err {
                    pass(p)
                } else if p.rest.len() < toks.len() {
                    let b = g_block(p.rest, floats);
                    match b.res {
                        Ok(blk) => if b.rest.len() < toks.len() {
                            let e = g_elif(b.rest, floats);
                            match e.res {
                                Ok(alt) => done(StmtView::If(Box::new(c), Box::new(blk), alt), e.rest),
                                Err(err) => fail(err, e.rest),
                            }
                        } else {
                            fail(ErrView::TokenStreamEmpty, b.rest)
                        },
                        Err(_) => b,
                    }
                } else {
                    fail(ErrView::TokenStreamEmpty, p.rest)
                }
            },
            Err(_) => pass(cond),
        }
    } else {
        fail(ErrView::TokenStreamEmpty, o.rest)
    }
}

/// `if (condition) { ... }` followed by `elif` and `else` parts.
pub open spec fn g_if(toks: Seq<Token>, floats: Seq<FloatCast>) -> Parsed<StmtView>
    decreases toks.len(), 8nat,
{
    let c = g_consume(toks, Symbol::If);
    if c.res is Err {
        pass(c)
    } else if c.rest.len() < toks.len() {
        g_branch(c.rest, floats)
    } else {
        fail(ErrView::TokenStreamEmpty, c.rest)
    }
}

/// `elif (condition) { ... }` parts, or the `else` part.
pub open spec fn g_elif(toks: Seq<Token>, floats: Seq<FloatCast>) -> Parsed<Option<Box<StmtView>>>
    decreases toks.len(), 8nat,
{
    if toks.len() == 0 {
        fail(ErrView::TokenStreamEmpty, toks)
    } else if toks.last().sym == Symbol::Elif {
        let b = g_branch(toks.drop_last(), floats);
        match b.res {
            Ok(s) => done(Some(Box::new(s)), b.rest),
            Err(e) => fail(e, b.rest),
        }
    } else {
        g_else(toks, floats)
    }
}

/// `else { ... }`, or an empty block where there is none.
pub open spec fn g_else(toks: Seq<Token>, floats: Seq<FloatCast>) -> Parsed<Option<Box<StmtView>>>
    decreases toks.len(), 7nat,
{
    if toks.len() == 0 {
        fail(ErrView::TokenStreamEmpty, toks)
    } else if toks.last().sym == Symbol::Else {
        let b = g_block(toks.drop_last(), floats);
        match b.res {
            Ok(s) => done(Some(Box::new(s)), b.rest),
            Err(e) => fail(e, b.rest),
        }
    } else {
        done(Some(Box::new(StmtView::Block(Seq::empty()))), toks)
    }
}

/// `print(expressions);`.
pub open spec fn g_print(toks: Seq<Token>, floats: Seq<FloatCast>) -> Parsed<StmtView> {
    let c = g_consume(toks, Symbol::Print);
    if c.res is Err {
        pass(c)
    } else {
        let o = g_consume(c.rest, Symbol::LeftParen);
        if o.res is Err {
            pass(o)
        } else {
            let l = g_list(o.rest, floats, None);
            match l.res {
                Ok(args) => {
                    let p = g_consume(l.rest, Symbol::RightParen);
                    if p.res is Err {
                        pass(p)
                    } else {
                        let s = g_consume(p.rest, Symbol::Semicolon);
                        if s.res is Err { pass(s) } else { done(StmtView::Print(args), s.rest) }
                    }
                },
                Err(e) => fail(e, l.rest),
            }
        }
    }
}

/// `return expression;` or `return;`.
pub open spec fn g_return(toks: Seq<Token>, floats: Seq<FloatCast>) -> Parsed<StmtView> {
    let c = g_consume(toks, Symbol::Return);
    if c.res is Err {
        pass(c)
    } else if c.rest.len() == 0 {
        fail(ErrView::TokenStreamEmpty, c.rest)
    } else if c.rest.last().sym != Symbol::Semicolon {
        let e = g_expr(c.rest, floats, Precedence::Nil, None);
        match e.res {
            Ok(x) => {
                let s = g_consume(e.rest, Symbol::Semicolon);
                if s.res is Err { pass(s) } else { done(StmtView::Return(Some(Box::new(x))), s.rest) }
            },
            Err(_) => pass(e),
        }
    } else {
        done(StmtView::Return(None), c.rest.drop_last())
    }
}

/// `expression;`.
pub open spec fn g_expr_stmt(toks: Seq<Token>, floats: Seq<FloatCast>) -> Parsed<StmtView> {
    let e = g_expr(toks, floats, Precedence::Nil, None);
    match e.res {
        Ok(x) => {
            let s = g_consume(e.rest, Symbol::Semicolon);
            if s.res is Err { pass(s) } else { done(StmtView::Expression(Box::new(x)), s.rest) }
        },
        Err(_) => pass(e),
    }
}

/// A program: declarations added to `acc` up to the end-of-input token.
pub open spec fn g_program(acc: Seq<StmtView>, toks: Seq<Token>, floats: Seq<FloatCast>) -> Parsed<Seq<StmtView>>
    decreases toks.len(),
{
    if toks.len() == 0 {
        fail(ErrView::TokenStreamEmpty, toks)
    } else if toks.last().sym == Symbol::Eof {
        done(acc, toks)
    } else {
        let d = g_decl(toks, floats);
        match d.res {
            Ok(x) => if d.rest.len() < toks.len() { g_program(acc.push(x), d.rest, floats) } else { done(acc.push(x), d.rest) },
            Err(e) => fail(e, d.rest),
        }
    }
}

/// The program parsed is what `p` says.
pub open spec fn program_parsed(r: Result<Vec<Stmt>, ParseError>, p: Parsed<Seq<StmtView>>) -> bool {
    match r {
        Ok(v) => p.res == Ok::<Seq<StmtView>, ErrView>(crate::ast::stmts_view(v@)),
        Err(e) => p.res == Err::<Seq<StmtView>, ErrView>(err_view(e)),
    }
}

} // verus!
