use vstd::prelude::*;
use crate::ast::{expr_view, exprs_view, stmt_view, stmts_view, lemma_exprs_view_push, lemma_stmts_view_push, Expr, ExprView, Stmt, StmtView};
use crate::grammar::{done, g_program, program_parsed, g_loop, g_more, g_decl, g_decls, g_function, g_fn_tail, g_fn_body, g_idents, g_idents_more, g_statement, g_block, g_if, g_elif, g_else, g_print, g_return, g_expr_stmt, alt_parsed, expr_parsed, exprs_parsed, g_assign, g_binary, g_call, g_expr, g_grouping, g_infix, g_list, g_logical, g_prefix, g_primary, params_parsed, stmt_parsed, stmts_parsed};
use crate::ops::{BinOp, RelOp};
use crate::scanner::{Symbol, Token};
use crate::value::{Primitive, Type, Value};

verus! {

broadcast use lemma_exprs_view_push, lemma_stmts_view_push;

/// The errors of parsing.
#[derive(Debug)]
pub enum ParseError {
    TokenStreamEmpty,
    CastError(Token, Type),
    UnexpectedToken(Token, Symbol),
    UnexpectedInfixOperator(Token),
    UnexpectedPrefixOperator(Token),
    ExpectedIdentifier(Token),
    ExpectedBinaryOperator(Token),
    ExpectedLiteral(Token),
    ExpectedLValue(Expr),
    ExpectedVariableType(Token),
    UndefinedVariable(usize),
}

/// What converting a float literal (by the index of its text) to a type
/// gives: floating-point work, done before parsing.
#[derive(Clone, Copy, Debug)]
pub struct FloatCast {
    pub literal: usize,
    pub target: Type,
    pub result: Result<Primitive, ()>,
}

/// The result recorded for converting literal `i` to `t` (the first entry).
pub open spec fn float_lookup(table: Seq<FloatCast>, i: usize, t: Type) -> Option<Result<Primitive, ()>>
    decreases table.len(),
{
    if table.len() == 0 {
        None
    } else if table[0].literal == i && table[0].target == t {
        Some(table[0].result)
    } else {
        float_lookup(table.skip(1), i, t)
    }
}

/// The precedences of the operators, from lowest to highest.
#[derive(Clone, Copy, PartialEq, Eq, Structural, Debug)]
pub enum Precedence {
    Nil,
    Assign,
    Or,
    And,
    Equality,
    Comparison,
    Term,
    Factor,
    Power,
    Unary,
    Index,
    Call,
}

impl Precedence {
    /// The place of the precedence in the order.
    pub open spec fn rank_spec(self) -> u8 {
        match self {
            Precedence::Nil => 0,
            Precedence::Assign => 1,
            Precedence::Or => 2,
            Precedence::And => 3,
            Precedence::Equality => 4,
            Precedence::Comparison => 5,
            Precedence::Term => 6,
            Precedence::Factor => 7,
            Precedence::Power => 8,
            Precedence::Unary => 9,
            Precedence::Index => 10,
            Precedence::Call => 11,
        }
    }

    pub fn rank(&self) -> (r: u8)
        ensures
            r == self.rank_spec(),
    {
        match self {
            Precedence::Nil => 0,
            Precedence::Assign => 1,
            Precedence::Or => 2,
            Precedence::And => 3,
            Precedence::Equality => 4,
            Precedence::Comparison => 5,
            Precedence::Term => 6,
            Precedence::Factor => 7,
            Precedence::Power => 8,
            Precedence::Unary => 9,
            Precedence::Index => 10,
            Precedence::Call => 11,
        }
    }
}

/// The precedence with which a token binds as an infix operator.
pub open spec fn precedence_of(sym: Symbol) -> Precedence {
    match sym {
        Symbol::Colon => Precedence::Assign,
        Symbol::Or => Precedence::Or,
        Symbol::And => Precedence::And,
        Symbol::NotEqual | Symbol::EqualEqual => Precedence::Equality,
        Symbol::Less | Symbol::LessEqual | Symbol::Greater | Symbol::GreaterEqual => Precedence::Comparison,
        Symbol::Plus | Symbol::Minus => Precedence::Term,
        Symbol::Star | Symbol::Slash | Symbol::Modulo => Precedence::Factor,
        Symbol::Carat => Precedence::Power,
        Symbol::Not => Precedence::Unary,
        Symbol::LeftSquare => Precedence::Index,
        Symbol::LeftParen | Symbol::Dot => Precedence::Call,
        _ => Precedence::Nil,
    }
}

pub fn precedence_from(token: Token) -> (r: Precedence)
    ensures
        r == precedence_of(token.sym),
{
    match token.sym {
        Symbol::Colon => Precedence::Assign,
        Symbol::Or => Precedence::Or,
        Symbol::And => Precedence::And,
        Symbol::NotEqual | Symbol::EqualEqual => Precedence::Equality,
        Symbol::Less | Symbol::LessEqual | Symbol::Greater | Symbol::GreaterEqual => Precedence::Comparison,
        Symbol::Plus | Symbol::Minus => Precedence::Term,
        Symbol::Star | Symbol::Slash | Symbol::Modulo => Precedence::Factor,
        Symbol::Carat => Precedence::Power,
        Symbol::Not => Precedence::Unary,
        Symbol::LeftSquare => Precedence::Index,
        Symbol::LeftParen | Symbol::Dot => Precedence::Call,
        _ => Precedence::Nil,
    }
}

/// The type that a type keyword names.
pub open spec fn type_of_symbol(sym: Symbol) -> Option<Type> {
    match sym {
        Symbol::TypeInt8 => Some(Type::Int8),
        Symbol::TypeInt16 => Some(Type::Int16),
        Symbol::TypeInt32 => Some(Type::Int32),
        Symbol::TypeInt64 => Some(Type::Int64),
        Symbol::TypeInt => Some(Type::Int),
        Symbol::TypeInt128 => Some(Type::Int128),
        Symbol::TypeUInt8 => Some(Type::UInt8),
        Symbol::TypeUInt16 => Some(Type::UInt16),
        Symbol::TypeUInt32 => Some(Type::UInt32),
        Symbol::TypeUInt64 => Some(Type::UInt64),
        Symbol::TypeUInt => Some(Type::UInt),
        Symbol::TypeUInt128 => Some(Type::UInt128),
        Symbol::TypeFloat32 => Some(Type::Float32),
        Symbol::TypeFloat64 => Some(Type::Float64),
        Symbol::TypeBool => Some(Type::Bool),
        _ => None,
    }
}

/// The binary operator a token stands for.
pub open spec fn binop_of(sym: Symbol) -> Option<BinOp> {
    match sym {
        Symbol::Plus => Some(BinOp::Plus),
        Symbol::Minus => Some(BinOp::Minus),
        Symbol::Slash => Some(BinOp::Slash),
        Symbol::Modulo => Some(BinOp::Modulo),
        Symbol::Carat => Some(BinOp::Carat),
        Symbol::Star => Some(BinOp::Star),
        Symbol::And => Some(BinOp::And),
        Symbol::Or => Some(BinOp::Or),
        _ => None,
    }
}

/// The relational operator a token stands for.
pub open spec fn relop_of(sym: Symbol) -> Option<RelOp> {
    match sym {
        Symbol::NotEqual => Some(RelOp::NotEqual),
        Symbol::EqualEqual => Some(RelOp::EqualEqual),
        Symbol::Greater => Some(RelOp::Greater),
        Symbol::GreaterEqual => Some(RelOp::GreaterEqual),
        Symbol::Less => Some(RelOp::Less),
        Symbol::LessEqual => Some(RelOp::LessEqual),
        _ => None,
    }
}

/// The level at which a binary operator groups, from loosest to tightest:
/// `or`, `and`, the equality tests, the comparisons, the additive, the
/// multiplicative operators and the power.
pub open spec fn binop_group(op: BinOp) -> int {
    match op {
        BinOp::Or => 0,
        BinOp::And => 1,
        BinOp::Plus | BinOp::Minus => 4,
        BinOp::Star | BinOp::Slash | BinOp::Modulo => 5,
        BinOp::Carat => 6,
    }
}

/// The level at which a relational operator groups (see `binop_group`).
pub open spec fn relop_group(op: RelOp) -> int {
    match op {
        RelOp::EqualEqual | RelOp::NotEqual => 2,
        RelOp::Less | RelOp::LessEqual | RelOp::Greater | RelOp::GreaterEqual => 3,
    }
}

/// The level of the operator a token stands for, if it is a binary or
/// relational operator.
pub open spec fn operator_group(sym: Symbol) -> Option<int> {
    match binop_of(sym) {
        Some(op) => Some(binop_group(op)),
        None => match relop_of(sym) {
            Some(op) => Some(relop_group(op)),
            None => None,
        },
    }
}

/// Precedence follows the grouping of the operators: of two operator
/// tokens, the one whose operator groups more tightly (multiplication over
/// addition, addition over comparison, and so on) binds with a higher
/// precedence, and operators of one level bind alike; every operator binds
/// above an assignment and above the tokens that are no operators.
pub proof fn lemma_precedence_order(x: Symbol, y: Symbol)
    ensures
        operator_group(x) is Some && operator_group(y) is Some
            && operator_group(x)->Some_0 < operator_group(y)->Some_0 ==> precedence_of(x).rank_spec() < precedence_of(y).rank_spec(),
        operator_group(x) is Some && operator_group(x) == operator_group(y)
            ==> precedence_of(x).rank_spec() == precedence_of(y).rank_spec(),
        operator_group(x) is Some ==> precedence_of(x).rank_spec() > Precedence::Assign.rank_spec(),
{
    lemma_group_rank(x);
    lemma_group_rank(y);
}

/// Different tokens stand for different operators.
pub proof fn lemma_operators_distinct(x: Symbol, y: Symbol)
    ensures
        binop_of(x) is Some && binop_of(x) == binop_of(y) ==> x == y,
        relop_of(x) is Some && relop_of(x) == relop_of(y) ==> x == y,
        !(binop_of(x) is Some && relop_of(x) is Some),
{
}

proof fn lemma_group_rank(x: Symbol)
    ensures
        operator_group(x) matches Some(g) ==> precedence_of(x).rank_spec() == g + 2,
{
    match x {
        Symbol::Or | Symbol::And | Symbol::Plus | Symbol::Minus | Symbol::Star | Symbol::Slash | Symbol::Modulo | Symbol::Carat => {},
        Symbol::NotEqual | Symbol::EqualEqual | Symbol::Less | Symbol::LessEqual | Symbol::Greater | Symbol::GreaterEqual => {},
        _ => {
            assert(binop_of(x) is None);
            assert(relop_of(x) is None);
        },
    }
}

/// `after` is what is left of the token stack `before` once tokens have
/// been taken from its top.
pub open spec fn taken_from(before: Seq<Token>, after: Seq<Token>) -> bool {
    &&& after.len() <= before.len()
    &&& forall|i: int| 0 <= i < after.len() ==> #[trigger] after[i] == before[i]
}

/// The result of reading a literal or name, `tok`, where a value of type
/// `expected` (if any) is wanted.
pub open spec fn primary_result(table: Seq<FloatCast>, tok: Token, expected: Option<Type>) -> Result<Expr, ParseError> {
    match expected {
        Some(t) => match tok.sym {
            Symbol::IntegerLiteral(n) => if t.is_signed() {
                match Primitive::Int128(n as i128).spec_cast(t) {
                    Ok(p) => Ok(Expr::Value(Value { inner: p })),
                    Err(_) => Err(ParseError::CastError(tok, t)),
                }
            } else if t.is_unsigned() {
                match Primitive::UInt128(n).spec_cast(t) {
                    Ok(p) => Ok(Expr::Value(Value { inner: p })),
                    Err(_) => Err(ParseError::CastError(tok, t)),
                }
            } else {
                Err(ParseError::ExpectedLiteral(tok))
            },
            Symbol::FloatLiteral(i) => match float_lookup(table, i, t) {
                Some(Ok(p)) => Ok(Expr::Value(Value { inner: p })),
                _ => Err(ParseError::CastError(tok, t)),
            },
            Symbol::Identifier(s) => Ok(Expr::Variable(s)),
            _ => Err(ParseError::ExpectedLiteral(tok)),
        },
        None => match tok.sym {
            Symbol::IntegerLiteral(n) => Ok(Expr::Value(Value { inner: Primitive::UInt(n as usize) })),
            Symbol::FloatLiteral(i) => match float_lookup(table, i, Type::Float64) {
                Some(Ok(p)) => Ok(Expr::Value(Value { inner: p })),
                _ => Err(ParseError::ExpectedLiteral(tok)),
            },
            Symbol::Identifier(s) => Ok(Expr::Variable(s)),
            _ => Err(ParseError::ExpectedLiteral(tok)),
        },
    }
}

/// A parser over a stack of tokens, the next token on top.
pub struct Parser {
    pub tokens: Vec<Token>,
    pub floats: Vec<FloatCast>,
}

impl Parser {
    /// A parser for `tokens` in reading order.
    pub fn new(tokens: Vec<Token>, floats: Vec<FloatCast>) -> (r: Parser)
        ensures
            r.tokens@ == tokens@.reverse(),
            r.floats@ == floats@,
    {
        let mut stack: Vec<Token> = Vec::new();
        let mut i: usize = tokens.len();
        while i > 0
            invariant
                i <= tokens@.len(),
                stack@ == tokens@.skip(i as int).reverse(),
            decreases i,
        {
            i = i - 1;
            stack.push(tokens[i]);
            assert(stack@ =~= tokens@.skip(i as int).reverse());
        }
        assert(tokens@.skip(0) =~= tokens@);
        Parser { tokens: stack, floats }
    }

    /// The next token.
    pub fn peek(&self) -> (r: Result<Token, ParseError>)
        ensures
            self.tokens@.len() == 0 ==> (r matches Err(ParseError::TokenStreamEmpty)),
            self.tokens@.len() > 0 ==> r == Ok::<Token, ParseError>(self.tokens@.last()),
    {
        if self.tokens.len() > 0 {
            Ok(self.tokens[self.tokens.len() - 1])
        } else {
            Err(ParseError::TokenStreamEmpty)
        }
    }

    /// Takes the next token.
    pub fn next(&mut self) -> (r: Result<Token, ParseError>)
        ensures
            final(self).floats == old(self).floats,
            old(self).tokens@.len() == 0 ==> (r matches Err(ParseError::TokenStreamEmpty) && final(self).tokens@ == old(self).tokens@),
            old(self).tokens@.len() > 0 ==> r == Ok::<Token, ParseError>(old(self).tokens@.last())
                && final(self).tokens@ == old(self).tokens@.drop_last(),
    {
        match self.tokens.pop() {
            Some(t) => Ok(t),
            None => Err(ParseError::TokenStreamEmpty),
        }
    }

    /// Takes the next token, which must be `expected`.
    pub fn consume(&mut self, expected: Symbol) -> (r: Result<(), ParseError>)
        ensures
            final(self).floats == old(self).floats,
            old(self).tokens@.len() == 0 ==> (r matches Err(ParseError::TokenStreamEmpty) && final(self).tokens@ == old(self).tokens@),
            old(self).tokens@.len() > 0 && old(self).tokens@.last().sym != expected ==> (r matches Err(ParseError::UnexpectedToken(f, e))
                && f == old(self).tokens@.last() && e == expected && final(self).tokens@ == old(self).tokens@),
            old(self).tokens@.len() > 0 && old(self).tokens@.last().sym == expected ==> r is Ok && final(self).tokens@
                == old(self).tokens@.drop_last(),
    {
        let found = self.peek()?;
        if found.sym != expected {
            Err(ParseError::UnexpectedToken(found, expected))
        } else {
            self.next()?;
            Ok(())
        }
    }

    /// Takes the next token, which must name a type.
    pub fn consume_type(&mut self) -> (r: Result<Type, ParseError>)
        ensures
            final(self).floats == old(self).floats,
            old(self).tokens@.len() == 0 ==> (r matches Err(ParseError::TokenStreamEmpty) && final(self).tokens@ == old(self).tokens@),
            old(self).tokens@.len() > 0 ==> final(self).tokens@ == old(self).tokens@.drop_last() && match type_of_symbol(old(self).tokens@.last().sym) {
                Some(t) => r == Ok::<Type, ParseError>(t),
                None => r matches Err(ParseError::ExpectedVariableType(f)) && f == old(self).tokens@.last(),
            },
    {
        let found = self.next()?;
        match found.sym {
            Symbol::TypeInt8 => Ok(Type::Int8),
            Symbol::TypeInt16 => Ok(Type::Int16),
            Symbol::TypeInt32 => Ok(Type::Int32),
            Symbol::TypeInt64 => Ok(Type::Int64),
            Symbol::TypeInt => Ok(Type::Int),
            Symbol::TypeInt128 => Ok(Type::Int128),
            Symbol::TypeUInt8 => Ok(Type::UInt8),
            Symbol::TypeUInt16 => Ok(Type::UInt16),
            Symbol::TypeUInt32 => Ok(Type::UInt32),
            Symbol::TypeUInt64 => Ok(Type::UInt64),
            Symbol::TypeUInt => Ok(Type::UInt),
            Symbol::TypeUInt128 => Ok(Type::UInt128),
            Symbol::TypeFloat32 => Ok(Type::Float32),
            Symbol::TypeFloat64 => Ok(Type::Float64),
            Symbol::TypeBool => Ok(Type::Bool),
            _ => Err(ParseError::ExpectedVariableType(found)),
        }
    }

    fn float_cast(&self, i: usize, t: Type) -> (r: Option<Result<Primitive, ()>>)
        ensures
            r == float_lookup(self.floats@, i, t),
    {
        let mut k: usize = 0;
        assert(self.floats@.skip(0) =~= self.floats@);
        while k < self.floats.len()
            invariant
                k <= self.floats@.len(),
                float_lookup(self.floats@, i, t) == float_lookup(self.floats@.skip(k as int), i, t),
            decreases self.floats@.len() - k,
        {
            let e = self.floats[k];
            proof {
                let s = self.floats@.skip(k as int);
                assert(s[0] == e);
                assert(s.skip(1) =~= self.floats@.skip(k + 1));
            }
            if e.literal == i && e.target == t {
                return Some(e.result);
            }
            k = k + 1;
        }
        None
    }

    /// Reads a literal or a name, converting a literal to `expected_type`
    /// where one is given.
    pub fn parse_primary(&mut self, expected_type: Option<Type>) -> (r: Result<Expr, ParseError>)
        ensures
            final(self).floats == old(self).floats,
            old(self).tokens@.len() == 0 ==> (r matches Err(ParseError::TokenStreamEmpty) && final(self).tokens@ == old(self).tokens@),
            old(self).tokens@.len() > 0 ==> final(self).tokens@ == old(self).tokens@.drop_last() && r == primary_result(
                old(self).floats@,
                old(self).tokens@.last(),
                expected_type,
            ),
            expr_parsed(r, final(self).tokens@, g_primary(old(self).tokens@, old(self).floats@, expected_type)),
    {
        let token = self.next()?;
        match expected_type {
            Some(t) => match token.sym {
                Symbol::IntegerLiteral(number) => {
                    if type_is_signed(t) {
                        let n: i128 = number as i128;
                        match Primitive::Int128(n).try_cast_to(&t) {
                            Ok(p) => Ok(Expr::Value(Value::from(p))),
                            Err(()) => Err(ParseError::CastError(token, t)),
                        }
                    } else if type_is_unsigned(t) {
                        match Primitive::UInt128(number).try_cast_to(&t) {
                            Ok(p) => Ok(Expr::Value(Value::from(p))),
                            Err(()) => Err(ParseError::CastError(token, t)),
                        }
                    } else {
                        Err(ParseError::ExpectedLiteral(token))
                    }
                },
                Symbol::FloatLiteral(i) => match self.float_cast(i, t) {
                    Some(Ok(p)) => Ok(Expr::Value(Value::from(p))),
                    _ => Err(ParseError::CastError(token, t)),
                },
                Symbol::Identifier(sym) => Ok(Expr::Variable(sym)),
                _ => Err(ParseError::ExpectedLiteral(token)),
            },
            None => match token.sym {
                Symbol::IntegerLiteral(number) => Ok(Expr::Value(Value::from(Primitive::UInt(number as usize)))),
                Symbol::FloatLiteral(i) => match self.float_cast(i, Type::Float64) {
                    Some(Ok(p)) => Ok(Expr::Value(Value::from(p))),
                    _ => Err(ParseError::ExpectedLiteral(token)),
                },
                Symbol::Identifier(sym) => Ok(Expr::Variable(sym)),
                _ => Err(ParseError::ExpectedLiteral(token)),
            },
        }
    }
}

fn type_is_signed(t: Type) -> (r: bool)
    ensures
        r == t.is_signed(),
{
    match t {
        Type::Int8 | Type::Int16 | Type::Int32 | Type::Int64 | Type::Int | Type::Int128 => true,
        _ => false,
    }
}

fn type_is_unsigned(t: Type) -> (r: bool)
    ensures
        r == t.is_unsigned(),
{
    match t {
        Type::UInt8 | Type::UInt16 | Type::UInt32 | Type::UInt64 | Type::UInt | Type::UInt128 => true,
        _ => false,
    }
}

impl Parser {
    /// A declaration: a function or a statement.
    pub fn parse_declaration(&mut self) -> (r: Result<Stmt, ParseError>)
        ensures
            final(self).floats == old(self).floats,
            taken_from(old(self).tokens@, final(self).tokens@),
            r is Ok ==> final(self).tokens@.len() < old(self).tokens@.len(),
            stmt_parsed(r, final(self).tokens@, g_decl(old(self).tokens@, old(self).floats@)),
        decreases old(self).tokens@.len(), 10nat,
    {
        let t = self.peek()?;
        match t.sym {
            Symbol::Fun => self.parse_function(),
            _ => self.parse_statement(),
        }
    }

    /// `# name(params): type { declarations }`.
    pub fn parse_function(&mut self) -> (r: Result<Stmt, ParseError>)
        ensures
            final(self).floats == old(self).floats,
            taken_from(old(self).tokens@, final(self).tokens@),
            r is Ok ==> final(self).tokens@.len() < old(self).tokens@.len() && r->Ok_0 is Function,
            stmt_parsed(r, final(self).tokens@, g_function(old(self).tokens@, old(self).floats@)),
        decreases old(self).tokens@.len(), 9nat,
    {
        let ghost entry = old(self).tokens@;
        let ghost fl = old(self).floats@;
        self.consume(Symbol::Fun)?;
        let next = self.next()?;
        let name = match next.sym {
            Symbol::Identifier(name) => name,
            _ => {
                let p = self.peek()?;
                return Err(ParseError::ExpectedIdentifier(p));
            },
        };
        self.consume(Symbol::LeftParen)?;
        let params: Vec<(usize, Type)> = if self.peek()?.sym != Symbol::RightParen {
            self.parse_identifier_list()?
        } else {
            Vec::new()
        };
        assert(g_function(entry, fl) == g_fn_tail(name, params@, self.tokens@, fl));
        let ghost tail = self.tokens@;
        self.consume(Symbol::RightParen)?;
        let mut return_type = Type::Nil;
        if self.peek()?.sym == Symbol::Colon {
            self.consume(Symbol::Colon)?;
            return_type = self.consume_type()?;
        }
        assert(g_fn_tail(name, params@, tail, fl) == g_fn_body(name, params@, return_type, self.tokens@, fl));
        let ghost body_toks = self.tokens@;
        self.consume(Symbol::LeftBrace)?;
        let mut statements: Vec<Stmt> = Vec::new();
        let ghost start = self.tokens@;
        assert(stmts_view(statements@) =~= Seq::<StmtView>::empty());
        loop
            invariant
                self.floats == old(self).floats,
                taken_from(entry, self.tokens@),
                self.tokens@.len() < entry.len(),
                entry == old(self).tokens@,
                fl == self.floats@,
                g_function(entry, fl) == g_fn_body(name, params@, return_type, body_toks, fl),
                body_toks.len() > 0 && body_toks.last().sym == Symbol::LeftBrace && start == body_toks.drop_last(),
                g_decls(stmts_view(statements@), self.tokens@, fl) == g_decls(Seq::empty(), start, fl),
            ensures
                self.floats == old(self).floats,
                taken_from(entry, self.tokens@),
                self.tokens@.len() < entry.len(),
                g_decls(Seq::empty(), start, fl) == done::<Seq<StmtView>>(stmts_view(statements@), self.tokens@),
            decreases self.tokens@.len(),
        {
            let t = self.peek()?;
            if t.sym == Symbol::RightBrace || t.sym == Symbol::Eof {
                break;
            }
            let d = self.parse_declaration()?;
            statements.push(d);
        }
        self.consume(Symbol::RightBrace)?;
        Ok(Stmt::Function(name, params, return_type, statements))
    }

    /// `name: type, name: type, ...`.
    pub fn parse_identifier_list(&mut self) -> (r: Result<Vec<(usize, Type)>, ParseError>)
        ensures
            final(self).floats == old(self).floats,
            taken_from(old(self).tokens@, final(self).tokens@),
            r is Ok ==> final(self).tokens@.len() < old(self).tokens@.len() && r->Ok_0@.len() > 0,
            params_parsed(r, final(self).tokens@, g_idents(old(self).tokens@)),
    {
        let mut identifiers: Vec<(usize, Type)> = Vec::new();
        let n = self.next()?;
        self.consume(Symbol::Colon)?;
        let ptype = self.consume_type()?;
        let sym = match n.sym {
            Symbol::Identifier(name) => name,
            _ => {
                return Err(ParseError::ExpectedIdentifier(n));
            },
        };
        identifiers.push((sym, ptype));
        let ghost entry = old(self).tokens@;
        loop
            invariant
                self.floats == old(self).floats,
                taken_from(entry, self.tokens@),
                self.tokens@.len() < entry.len(),
                entry == old(self).tokens@,
                identifiers@.len() > 0,
                g_idents_more(identifiers@, self.tokens@) == g_idents(entry),
            ensures
                self.floats == old(self).floats,
                taken_from(entry, self.tokens@),
                self.tokens@.len() < entry.len(),
                identifiers@.len() > 0,
                g_idents(entry) == done::<Seq<(usize, Type)>>(identifiers@, self.tokens@),
            decreases self.tokens@.len(),
        {
            let t = self.peek()?;
            if t.sym != Symbol::Comma {
                break;
            }
            self.consume(Symbol::Comma)?;
            let n = self.next()?;
            self.consume(Symbol::Colon)?;
            let ptype = self.consume_type()?;
            let sym = match n.sym {
                Symbol::Identifier(name) => name,
                _ => {
                    return Err(ParseError::ExpectedIdentifier(n));
                },
            };
            identifiers.push((sym, ptype));
        }
        Ok(identifiers)
    }

    /// A statement: `if`, `print`, `return` or an expression statement.
    pub fn parse_statement(&mut self) -> (r: Result<Stmt, ParseError>)
        ensures
            final(self).floats == old(self).floats,
            taken_from(old(self).tokens@, final(self).tokens@),
            r is Ok ==> final(self).tokens@.len() < old(self).tokens@.len(),
            stmt_parsed(r, final(self).tokens@, g_statement(old(self).tokens@, old(self).floats@)),
        decreases old(self).tokens@.len(), 9nat,
    {
        let t = self.peek()?;
        match t.sym {
            Symbol::If => self.parse_if_statement(),
            Symbol::Print => self.parse_print_statement(),
            Symbol::Return => self.parse_return_statement(),
            _ => self.parse_expression_statement(),
        }
    }

    /// `{ declarations }`.
    pub fn parse_block_statement(&mut self) -> (r: Result<Stmt, ParseError>)
        ensures
            final(self).floats == old(self).floats,
            taken_from(old(self).tokens@, final(self).tokens@),
            r is Ok ==> final(self).tokens@.len() < old(self).tokens@.len() && r->Ok_0 is Block,
            stmt_parsed(r, final(self).tokens@, g_block(old(self).tokens@, old(self).floats@)),
        decreases old(self).tokens@.len(), 6nat,
    {
        let ghost fl = old(self).floats@;
        self.consume(Symbol::LeftBrace)?;
        let mut statements: Vec<Stmt> = Vec::new();
        let ghost entry = old(self).tokens@;
        let ghost start = self.tokens@;
        assert(stmts_view(statements@) =~= Seq::<StmtView>::empty());
        loop
            invariant
                self.floats == old(self).floats,
                taken_from(entry, self.tokens@),
                self.tokens@.len() < entry.len(),
                entry == old(self).tokens@,
                fl == self.floats@,
                entry.len() > 0 && entry.last().sym == Symbol::LeftBrace && start == entry.drop_last(),
                g_decls(stmts_view(statements@), self.tokens@, fl) == g_decls(Seq::empty(), start, fl),
            ensures
                self.floats == old(self).floats,
                taken_from(entry, self.tokens@),
                self.tokens@.len() < entry.len(),
                g_decls(Seq::empty(), start, fl) == done::<Seq<StmtView>>(stmts_view(statements@), self.tokens@),
            decreases self.tokens@.len(),
        {
            let t = self.peek()?;
            if t.sym == Symbol::RightBrace || t.sym == Symbol::Eof {
                break;
            }
            let d = self.parse_declaration()?;
            statements.push(d);
        }
        self.consume(Symbol::RightBrace)?;
        Ok(Stmt::Block(statements))
    }

    /// `if (condition) { ... }` followed by `elif` and `else` parts.
    pub fn parse_if_statement(&mut self) -> (r: Result<Stmt, ParseError>)
        ensures
            final(self).floats == old(self).floats,
            taken_from(old(self).tokens@, final(self).tokens@),
            r is Ok ==> final(self).tokens@.len() < old(self).tokens@.len() && r->Ok_0 is If,
            stmt_parsed(r, final(self).tokens@, g_if(old(self).tokens@, old(self).floats@)),
        decreases old(self).tokens@.len(), 8nat,
    {
        self.consume(Symbol::If)?;
        self.consume(Symbol::LeftParen)?;
        let if_condition = self.parse_expression(Precedence::Nil, None)?;
        self.consume(Symbol::RightParen)?;
        let if_block = self.parse_block_statement()?;
        let rest = self.parse_elif_statement()?;
        Ok(Stmt::If(Box::new(if_condition), Box::new(if_block), rest))
    }

    /// `elif (condition) { ... }` parts, or the `else` part.
    pub fn parse_elif_statement(&mut self) -> (r: Result<Option<Box<Stmt>>, ParseError>)
        ensures
            final(self).floats == old(self).floats,
            taken_from(old(self).tokens@, final(self).tokens@),
            r is Ok ==> r->Ok_0 is Some,
            alt_parsed(r, final(self).tokens@, g_elif(old(self).tokens@, old(self).floats@)),
        decreases old(self).tokens@.len(), 8nat,
    {
        let t = self.peek()?;
        if t.sym == Symbol::Elif {
            self.consume(Symbol::Elif)?;
            self.consume(Symbol::LeftParen)?;
            let elif_condition = self.parse_expression(Precedence::Nil, None)?;
            self.consume(Symbol::RightParen)?;
            let elif_block = self.parse_block_statement()?;
            let rest = self.parse_elif_statement()?;
            Ok(Some(Box::new(Stmt::If(Box::new(elif_condition), Box::new(elif_block), rest))))
        } else {
            self.parse_else_statement()
        }
    }

    /// `else { ... }`, or an empty block where there is none.
    pub fn parse_else_statement(&mut self) -> (r: Result<Option<Box<Stmt>>, ParseError>)
        ensures
            final(self).floats == old(self).floats,
            taken_from(old(self).tokens@, final(self).tokens@),
            r is Ok ==> (r->Ok_0 matches Some(b) && *b is Block),
            alt_parsed(r, final(self).tokens@, g_else(old(self).tokens@, old(self).floats@)),
        decreases old(self).tokens@.len(), 7nat,
    {
        let t = self.peek()?;
        if t.sym == Symbol::Else {
            self.consume(Symbol::Else)?;
            let else_block = self.parse_block_statement()?;
            Ok(Some(Box::new(else_block)))
        } else {
            let else_block = Stmt::Block(Vec::new());
            assert(stmt_view(else_block) == StmtView::Block(Seq::empty())) by {
                assert(stmts_view(Seq::<Stmt>::empty()) =~= Seq::<StmtView>::empty());
            }
            Ok(Some(Box::new(else_block)))
        }
    }

    /// `print(expressions);`.
    pub fn parse_print_statement(&mut self) -> (r: Result<Stmt, ParseError>)
        ensures
            final(self).floats == old(self).floats,
            taken_from(old(self).tokens@, final(self).tokens@),
            r is Ok ==> final(self).tokens@.len() < old(self).tokens@.len() && r->Ok_0 is Print,
            stmt_parsed(r, final(self).tokens@, g_print(old(self).tokens@, old(self).floats@)),
        decreases old(self).tokens@.len(), 8nat,
    {
        self.consume(Symbol::Print)?;
        self.consume(Symbol::LeftParen)?;
        let expr_list = self.parse_expression_list(None)?;
        self.consume(Symbol::RightParen)?;
        self.consume(Symbol::Semicolon)?;
        Ok(Stmt::Print(expr_list))
    }

    /// `return expression;` or `return;`.
    pub fn parse_return_statement(&mut self) -> (r: Result<Stmt, ParseError>)
        ensures
            final(self).floats == old(self).floats,
            taken_from(old(self).tokens@, final(self).tokens@),
            r is Ok ==> final(self).tokens@.len() < old(self).tokens@.len() && r->Ok_0 is Return,
            stmt_parsed(r, final(self).tokens@, g_return(old(self).tokens@, old(self).floats@)),
        decreases old(self).tokens@.len(), 8nat,
    {
        self.consume(Symbol::Return)?;
        let t = self.peek()?;
        let expr = if t.sym != Symbol::Semicolon {
            Some(Box::new(self.parse_expression(Precedence::Nil, None)?))
        } else {
            None
        };
        self.consume(Symbol::Semicolon)?;
        Ok(Stmt::Return(expr))
    }

    /// Expressions separated by commas, up to a closing parenthesis.
    pub fn parse_expression_list(&mut self, expected_type: Option<Type>) -> (r: Result<Vec<Expr>, ParseError>)
        ensures
            final(self).floats == old(self).floats,
            taken_from(old(self).tokens@, final(self).tokens@),
            exprs_parsed(r, final(self).tokens@, g_list(old(self).tokens@, old(self).floats@, expected_type)),
        decreases old(self).tokens@.len(), 8nat,
    {
        let mut expressions: Vec<Expr> = Vec::new();
        let t = self.peek()?;
        if t.sym != Symbol::RightParen {
            let e = self.parse_expression(Precedence::Nil, expected_type)?;
            expressions.push(e);
        }
        let ghost entry = old(self).tokens@;
        proof {
            assert(exprs_view(Seq::<Expr>::empty()) =~= Seq::<ExprView>::empty());
        }
        loop
            invariant
                self.floats == old(self).floats,
                taken_from(entry, self.tokens@),
                entry == old(self).tokens@,
                g_more(exprs_view(expressions@), self.tokens@, self.floats@, expected_type) == g_list(entry, self.floats@, expected_type),
            ensures
                self.floats == old(self).floats,
                taken_from(entry, self.tokens@),
                g_list(entry, self.floats@, expected_type) == done::<Seq<ExprView>>(exprs_view(expressions@), self.tokens@),
            decreases self.tokens@.len(),
        {
            let t = self.peek()?;
            if t.sym != Symbol::Comma {
                break;
            }
            self.consume(Symbol::Comma)?;
            let e = self.parse_expression(Precedence::Nil, expected_type)?;
            expressions.push(e);
        }
        Ok(expressions)
    }

    /// `expression;`.
    pub fn parse_expression_statement(&mut self) -> (r: Result<Stmt, ParseError>)
        ensures
            final(self).floats == old(self).floats,
            taken_from(old(self).tokens@, final(self).tokens@),
            r is Ok ==> final(self).tokens@.len() < old(self).tokens@.len() && r->Ok_0 is Expression,
            stmt_parsed(r, final(self).tokens@, g_expr_stmt(old(self).tokens@, old(self).floats@)),
        decreases old(self).tokens@.len(), 8nat,
    {
        let expr = self.parse_expression(Precedence::Nil, None)?;
        self.consume(Symbol::Semicolon)?;
        Ok(Stmt::Expression(Box::new(expr)))
    }

    /// An expression whose operators bind more tightly than `precedence`.
    pub fn parse_expression(&mut self, precedence: Precedence, expected_type: Option<Type>) -> (r: Result<Expr, ParseError>)
        ensures
            final(self).floats == old(self).floats,
            taken_from(old(self).tokens@, final(self).tokens@),
            r is Ok ==> final(self).tokens@.len() < old(self).tokens@.len(),
            expr_parsed(r, final(self).tokens@, g_expr(old(self).tokens@, old(self).floats@, precedence, expected_type)),
        decreases old(self).tokens@.len(), 7nat,
    {
        let mut expr = self.prefix(expected_type)?;
        let ghost entry = old(self).tokens@;
        loop
            invariant
                self.floats == old(self).floats,
                taken_from(entry, self.tokens@),
                self.tokens@.len() < entry.len(),
                entry == old(self).tokens@,
                g_loop(expr_view(expr), self.tokens@, self.floats@, precedence, expected_type) == g_expr(entry, self.floats@, precedence, expected_type),
            ensures
                self.floats == old(self).floats,
                taken_from(entry, self.tokens@),
                self.tokens@.len() < entry.len(),
                g_expr(entry, self.floats@, precedence, expected_type) == done::<ExprView>(expr_view(expr), self.tokens@),
            decreases self.tokens@.len(),
        {
            let token = match self.peek() {
                Ok(t) => t,
                Err(_) => {
                    break;
                },
            };
            let next = precedence_from(token);
            if precedence.rank() >= next.rank() {
                break;
            }
            expr = self.infix(expr, expected_type)?;
        }
        Ok(expr)
    }

    /// The operator that follows `left`, applied to it.
    pub fn infix(&mut self, left: Expr, expected_type: Option<Type>) -> (r: Result<Expr, ParseError>)
        ensures
            final(self).floats == old(self).floats,
            taken_from(old(self).tokens@, final(self).tokens@),
            r is Ok ==> final(self).tokens@.len() < old(self).tokens@.len(),
            expr_parsed(r, final(self).tokens@, g_infix(expr_view(left), old(self).tokens@, old(self).floats@, expected_type)),
        decreases old(self).tokens@.len(), 6nat,
    {
        let t = self.peek()?;
        match t.sym {
            Symbol::Or | Symbol::And | Symbol::Plus | Symbol::Minus | Symbol::Star | Symbol::Slash | Symbol::Modulo | Symbol::Carat => {
                self.parse_binary(left, expected_type)
            },
            Symbol::Less | Symbol::LessEqual | Symbol::Greater | Symbol::GreaterEqual | Symbol::NotEqual | Symbol::EqualEqual => {
                self.parse_logical(left, expected_type)
            },
            Symbol::Colon => self.parse_assign(left),
            Symbol::LeftParen => self.parse_call(left, expected_type),
            _ => Err(ParseError::UnexpectedInfixOperator(t)),
        }
    }

    /// A literal, name, boolean or parenthesised expression.
    pub fn prefix(&mut self, expected_type: Option<Type>) -> (r: Result<Expr, ParseError>)
        ensures
            final(self).floats == old(self).floats,
            taken_from(old(self).tokens@, final(self).tokens@),
            r is Ok ==> final(self).tokens@.len() < old(self).tokens@.len(),
            expr_parsed(r, final(self).tokens@, g_prefix(old(self).tokens@, old(self).floats@, expected_type)),
        decreases old(self).tokens@.len(), 6nat,
    {
        let t = self.peek()?;
        match t.sym {
            Symbol::IntegerLiteral(_) | Symbol::FloatLiteral(_) | Symbol::Identifier(_) | Symbol::StringLiteral(_) => {
                self.parse_primary(expected_type)
            },
            Symbol::True => {
                self.next()?;
                Ok(Expr::Value(Value::from(Primitive::Bool(true))))
            },
            Symbol::False => {
                self.next()?;
                Ok(Expr::Value(Value::from(Primitive::Bool(false))))
            },
            Symbol::LeftParen => self.parse_grouping(expected_type),
            _ => Err(ParseError::UnexpectedPrefixOperator(t)),
        }
    }

    /// `left: type = expression`, where `left` is a variable.
    pub fn parse_assign(&mut self, left: Expr) -> (r: Result<Expr, ParseError>)
        ensures
            final(self).floats == old(self).floats,
            taken_from(old(self).tokens@, final(self).tokens@),
            r is Ok ==> final(self).tokens@.len() < old(self).tokens@.len() && (left matches Expr::Variable(id)
                && (r->Ok_0 matches Expr::Assign(id2, _, _) && id2 == id)),
            expr_parsed(r, final(self).tokens@, g_assign(expr_view(left), old(self).tokens@, old(self).floats@)),
        decreases old(self).tokens@.len(), 5nat,
    {
        self.consume(Symbol::Colon)?;
        let expected_type = self.consume_type()?;
        self.consume(Symbol::Equal)?;
        let right = self.parse_expression(Precedence::Nil, Some(expected_type))?;
        match left {
            Expr::Variable(identifier) => Ok(Expr::Assign(identifier, expected_type, Box::new(right))),
            _ => Err(ParseError::ExpectedLValue(left)),
        }
    }

    /// `left(arguments)`.
    pub fn parse_call(&mut self, left: Expr, expected_type: Option<Type>) -> (r: Result<Expr, ParseError>)
        ensures
            final(self).floats == old(self).floats,
            taken_from(old(self).tokens@, final(self).tokens@),
            r is Ok ==> final(self).tokens@.len() < old(self).tokens@.len() && r->Ok_0 is Call,
            expr_parsed(r, final(self).tokens@, g_call(expr_view(left), old(self).tokens@, old(self).floats@, expected_type)),
        decreases old(self).tokens@.len(), 5nat,
    {
        self.consume(Symbol::LeftParen)?;
        let args = self.parse_expression_list(expected_type)?;
        self.consume(Symbol::RightParen)?;
        Ok(Expr::Call(Box::new(left), args))
    }

    /// `(expression)`.
    pub fn parse_grouping(&mut self, expected_type: Option<Type>) -> (r: Result<Expr, ParseError>)
        ensures
            final(self).floats == old(self).floats,
            taken_from(old(self).tokens@, final(self).tokens@),
            r is Ok ==> final(self).tokens@.len() < old(self).tokens@.len() && r->Ok_0 is Grouping,
            expr_parsed(r, final(self).tokens@, g_grouping(old(self).tokens@, old(self).floats@, expected_type)),
        decreases old(self).tokens@.len(), 5nat,
    {
        self.consume(Symbol::LeftParen)?;
        let expr = self.parse_expression(Precedence::Nil, expected_type)?;
        self.consume(Symbol::RightParen)?;
        Ok(Expr::Grouping(Box::new(expr)))
    }

    /// `left op right` for an arithmetic or logical operator.
    pub fn parse_binary(&mut self, left: Expr, expected_type: Option<Type>) -> (r: Result<Expr, ParseError>)
        ensures
            final(self).floats == old(self).floats,
            taken_from(old(self).tokens@, final(self).tokens@),
            r is Ok ==> final(self).tokens@.len() < old(self).tokens@.len() && (r->Ok_0 matches Expr::Binary(_, op, _)
                && binop_of(old(self).tokens@.last().sym) == Some(op)),
            expr_parsed(r, final(self).tokens@, g_binary(expr_view(left), old(self).tokens@, old(self).floats@, expected_type)),
        decreases old(self).tokens@.len(), 5nat,
    {
        let t = self.peek()?;
        let precedence = precedence_from(t);
        let op = self.next()?;
        let bop = match op.sym {
            Symbol::Or => BinOp::Or,
            Symbol::And => BinOp::And,
            Symbol::Plus => BinOp::Plus,
            Symbol::Minus => BinOp::Minus,
            Symbol::Star => BinOp::Star,
            Symbol::Slash => BinOp::Slash,
            Symbol::Modulo => BinOp::Modulo,
            Symbol::Carat => BinOp::Carat,
            _ => {
                return Err(ParseError::ExpectedBinaryOperator(op));
            },
        };
        let right = self.parse_expression(precedence, expected_type)?;
        Ok(Expr::Binary(Box::new(left), bop, Box::new(right)))
    }

    /// `left op right` for a relational operator.
    pub fn parse_logical(&mut self, left: Expr, expected_type: Option<Type>) -> (r: Result<Expr, ParseError>)
        ensures
            final(self).floats == old(self).floats,
            taken_from(old(self).tokens@, final(self).tokens@),
            r is Ok ==> final(self).tokens@.len() < old(self).tokens@.len() && (r->Ok_0 matches Expr::Logical(_, op, _)
                && relop_of(old(self).tokens@.last().sym) == Some(op)),
            expr_parsed(r, final(self).tokens@, g_logical(expr_view(left), old(self).tokens@, old(self).floats@, expected_type)),
        decreases old(self).tokens@.len(), 5nat,
    {
        let t = self.peek()?;
        let precedence = precedence_from(t);
        let op = self.next()?;
        let rop = match op.sym {
            Symbol::Less => RelOp::Less,
            Symbol::LessEqual => RelOp::LessEqual,
            Symbol::Greater => RelOp::Greater,
            Symbol::GreaterEqual => RelOp::GreaterEqual,
            Symbol::NotEqual => RelOp::NotEqual,
            Symbol::EqualEqual => RelOp::EqualEqual,
            _ => {
                return Err(ParseError::ExpectedBinaryOperator(op));
            },
        };
        let right = self.parse_expression(precedence, expected_type)?;
        Ok(Expr::Logical(Box::new(left), rop, Box::new(right)))
    }
}

/// Parses a program: declarations up to the end of the token stream.
pub fn parse_program(tokens: Vec<Token>, floats: Vec<FloatCast>) -> (r: Result<Vec<Stmt>, ParseError>)
    ensures
        r is Ok ==> exists|k: int| 0 <= k < tokens@.len() && (#[trigger] tokens@[k]).sym == Symbol::Eof,
        tokens@.len() > 0 && tokens@[0].sym == Symbol::Eof ==> (r matches Ok(v) && v@.len() == 0),
        tokens@.len() == 0 ==> (r matches Err(ParseError::TokenStreamEmpty)),
        program_parsed(r, g_program(Seq::empty(), tokens@.reverse(), floats@)),
{
    let ghost orig = tokens@;
    let ghost fl = floats@;
    let mut parser = Parser::new(tokens, floats);
    let ghost rev = parser.tokens@;
    let mut statements: Vec<Stmt> = Vec::new();
    assert(stmts_view(statements@) =~= Seq::<StmtView>::empty());
    loop
        invariant
            rev == orig.reverse(),
            orig == tokens@,
            fl == floats@,
            parser.floats@ == fl,
            taken_from(rev, parser.tokens@),
            orig.len() > 0 && orig[0].sym == Symbol::Eof ==> parser.tokens@ == rev && statements@.len() == 0,
            g_program(stmts_view(statements@), parser.tokens@, fl) == g_program(Seq::empty(), rev, fl),
        ensures
            exists|k: int| 0 <= k < orig.len() && (#[trigger] orig[k]).sym == Symbol::Eof,
            orig.len() > 0 && orig[0].sym == Symbol::Eof ==> statements@.len() == 0,
            g_program(Seq::empty(), rev, fl) == done::<Seq<StmtView>>(stmts_view(statements@), parser.tokens@),
        decreases parser.tokens@.len(),
    {
        proof {
            if orig.len() > 0 && orig[0].sym == Symbol::Eof {
                assert(rev.len() == orig.len());
                assert(parser.tokens@.len() > 0);
                assert(parser.tokens@.last() == rev[rev.len() - 1]);
                assert(rev[rev.len() - 1] == orig[0]);
            }
        }
        let t = parser.peek()?;
        if t.sym == Symbol::Eof {
            proof {
                let n = parser.tokens@.len();
                assert(parser.tokens@[n - 1] == rev[n - 1]);
                assert(rev[n - 1] == orig[orig.len() - n]);
                assert(orig[orig.len() - n].sym == Symbol::Eof);
                assert(0 <= orig.len() - n < orig.len());
            }
            break;
        }
        proof {
            if orig.len() > 0 && orig[0].sym == Symbol::Eof {
                assert(rev[rev.len() - 1] == orig[0]);
            }
        }
        let d = parser.parse_declaration()?;
        statements.push(d);
    }
    Ok(statements)
}

} // verus!
