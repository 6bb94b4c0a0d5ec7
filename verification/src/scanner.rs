use vstd::prelude::*;
use crate::chars::{is_numeric_char, is_alphabetic_char, char_is_numeric, char_is_alphabetic, char_is_alphanumeric, string_from_chars, chars_of, chars_equal};
use crate::interner::{Interner, distinct_strings, intern_index, intern_table};

verus! {

/// The symbols that the scanner produces. Names, string literals and
/// float literals carry the index of their text in the interner.
#[derive(Clone, Copy, PartialEq, Eq, Structural, Debug)]
pub enum Symbol {
    LeftParen,
    RightParen,
    LeftBrace,
    RightBrace,
    LeftSquare,
    RightSquare,
    Comma,
    Colon,
    Dot,
    Minus,
    Plus,
    Semicolon,
    Slash,
    Modulo,
    Carat,
    Star,
    Not,
    NotEqual,
    Equal,
    EqualEqual,
    Greater,
    GreaterEqual,
    Less,
    LessEqual,
    Identifier(usize),
    StringLiteral(usize),
    IntegerLiteral(u128),
    FloatLiteral(usize),
    Class,
    Fun,
    Var,
    And,
    Elif,
    Else,
    False,
    For,
    If,
    In,
    My,
    Nil,
    Or,
    Print,
    Return,
    Super,
    True,
    While,
    Eof,
    TypeInt8,
    TypeInt16,
    TypeInt32,
    TypeInt64,
    TypeInt128,
    TypeInt,
    TypeUInt8,
    TypeUInt16,
    TypeUInt32,
    TypeUInt64,
    TypeUInt128,
    TypeUInt,
    TypeFloat32,
    TypeFloat64,
    TypeBool,
    TypeChar,
    TypeString,
    TypeVector,
    TypeTuple,
}

/// A symbol with the line and column at which scanning it ended.
#[derive(Clone, Copy, PartialEq, Eq, Structural, Debug)]
pub struct Token {
    pub sym: Symbol,
    pub line: usize,
    pub col: usize,
}

impl Token {
    pub fn new(sym: Symbol, line: usize, col: usize) -> (r: Self)
        ensures
            r.sym == sym,
            r.line == line,
            r.col == col,
    {
        Token { sym, line, col }
    }
}

#[derive(Clone, Copy, PartialEq, Eq, Structural, Debug)]
pub enum ScanError {
    InputStreamEmpty,
    UnterminatedString(usize, usize),
    InvalidNumeric(usize, usize),
}

// ---------------------------------------------------------------------
// The scanner as a function of its input.

/// A position in the input: index of the next character, line, column.
pub struct Cursor {
    pub pos: int,
    pub line: int,
    pub col: int,
}

/// What a token denotes: a symbol, or the text of a name, of a string
/// literal or of a float literal.
pub enum Lexeme {
    Sym(Symbol),
    Ident(Seq<char>),
    Str(Seq<char>),
    Float(Seq<char>),
}

pub struct SpecToken {
    pub lex: Lexeme,
    pub line: int,
    pub col: int,
}

/// The result of scanning: the tokens, an error, or a state in which the
/// scanner stops by panicking (a `/` as the very last character read by
/// the whitespace skipper).
pub enum ScanOutcome {
    Tokens(Seq<SpecToken>),
    Failed(ScanError),
    Stuck,
}

pub enum WsOutcome {
    Done(Cursor, bool),
    Stuck,
}

pub enum StepOutcome {
    Lex(Lexeme, Cursor),
    Fail(ScanError),
    Stop,
}

/// Sets of characters that the scanner consumes runs of.
#[derive(Clone, Copy)]
pub enum CharClass {
    Numeric,
    IdentTail,
    NotDelim(char),
}

pub open spec fn in_class(k: CharClass, c: char) -> bool {
    match k {
        CharClass::Numeric => is_numeric_char(c),
        CharClass::IdentTail => is_alphabetic_char(c) || is_numeric_char(c) || c == '_',
        CharClass::NotDelim(d) => c != d,
    }
}

pub open spec fn step(c: Cursor) -> Cursor {
    Cursor { pos: c.pos + 1, line: c.line, col: c.col + 1 }
}

pub open spec fn moved(c: Cursor, to: int) -> Cursor {
    Cursor { pos: to, line: c.line, col: c.col + (to - c.pos) }
}

/// The end of the run of characters of class `k` that starts at `p`.
pub open spec fn run_end(s: Seq<char>, p: int, k: CharClass) -> int
    decreases s.len() - p,
{
    if p < 0 || p >= s.len() || !in_class(k, s[p]) {
        p
    } else {
        run_end(s, p + 1, k)
    }
}

/// The position of the first newline at or after `p` (or the end).
pub open spec fn line_end(s: Seq<char>, p: int) -> int
    decreases s.len() - p,
{
    if p < 0 || p >= s.len() || s[p] == '\n' {
        p
    } else {
        line_end(s, p + 1)
    }
}

pub proof fn lemma_run_end(s: Seq<char>, p: int, k: CharClass)
    requires
        0 <= p <= s.len(),
    ensures
        p <= run_end(s, p, k) <= s.len(),
        forall|i: int| p <= i < run_end(s, p, k) ==> in_class(k, #[trigger] s[i]),
        run_end(s, p, k) < s.len() ==> !in_class(k, s[run_end(s, p, k)]),
    decreases s.len() - p,
{
    if p < s.len() && in_class(k, s[p]) {
        lemma_run_end(s, p + 1, k);
    }
}

pub proof fn lemma_line_end(s: Seq<char>, p: int)
    requires
        0 <= p <= s.len(),
    ensures
        p <= line_end(s, p) <= s.len(),
        forall|i: int| p <= i < line_end(s, p) ==> #[trigger] s[i] != '\n',
        line_end(s, p) < s.len() ==> s[line_end(s, p)] == '\n',
    decreases s.len() - p,
{
    if p < s.len() && s[p] != '\n' {
        lemma_line_end(s, p + 1);
    }
}

/// Skipping blanks, newlines and `//` comments from `c`. A `/` that is not
/// followed by another `/` is consumed and reported.
pub open spec fn skip_ws(s: Seq<char>, c: Cursor) -> WsOutcome
    decreases s.len() - c.pos,
{
    if c.pos < 0 || c.pos >= s.len() {
        WsOutcome::Done(c, false)
    } else {
        let ch = s[c.pos];
        if ch == '\t' || ch == ' ' || ch == '\r' {
            skip_ws(s, step(c))
        } else if ch == '\n' {
            skip_ws(s, Cursor { pos: c.pos + 1, line: c.line + 1, col: 0 })
        } else if ch == '/' {
            if c.pos + 1 >= s.len() {
                WsOutcome::Stuck
            } else if s[c.pos + 1] == '/' {
                let e = line_end(s, c.pos + 1);
                if c.pos < e <= s.len() {
                    skip_ws(s, moved(step(c), e))
                } else {
                    WsOutcome::Stuck
                }
            } else {
                WsOutcome::Done(step(c), true)
            }
        } else {
            WsOutcome::Done(c, false)
        }
    }
}

pub proof fn lemma_skip_ws(s: Seq<char>, c: Cursor)
    requires
        0 <= c.pos <= s.len(),
    ensures
        skip_ws(s, c) matches WsOutcome::Done(d, _) ==> c.pos <= d.pos <= s.len(),
        skip_ws(s, c) matches WsOutcome::Done(d, slash) ==> (slash ==> d.pos > c.pos),
    decreases s.len() - c.pos,
{
    if c.pos < s.len() {
        let ch = s[c.pos];
        if ch == '\t' || ch == ' ' || ch == '\r' {
            lemma_skip_ws(s, step(c));
        } else if ch == '\n' {
            lemma_skip_ws(s, Cursor { pos: c.pos + 1, line: c.line + 1, col: 0 });
        } else if ch == '/' && c.pos + 1 < s.len() && s[c.pos + 1] == '/' {
            lemma_line_end(s, c.pos + 1);
            lemma_skip_ws(s, moved(step(c), line_end(s, c.pos + 1)));
        }
    }
}

pub open spec fn is_ascii_digit(c: char) -> bool {
    '0' <= c <= '9'
}

pub open spec fn all_ascii_digits(t: Seq<char>) -> bool {
    forall|i: int| 0 <= i < t.len() ==> is_ascii_digit(#[trigger] t[i])
}

/// The number written in decimal by the digits `t`.
pub open spec fn decimal_value(t: Seq<char>) -> int
    decreases t.len(),
{
    if t.len() == 0 {
        0
    } else {
        decimal_value(t.drop_last()) * 10 + (t.last() as int - '0' as int)
    }
}

/// The keyword that `name` spells, if any.
pub open spec fn keyword_of(name: Seq<char>) -> Option<Symbol> {
    if name == "and"@ {
        Some(Symbol::And)
    } else if name == "elif"@ {
        Some(Symbol::Elif)
    } else if name == "else"@ {
        Some(Symbol::Else)
    } else if name == "false"@ {
        Some(Symbol::False)
    } else if name == "for"@ {
        Some(Symbol::For)
    } else if name == "if"@ {
        Some(Symbol::If)
    } else if name == "in"@ {
        Some(Symbol::In)
    } else if name == "my"@ {
        Some(Symbol::My)
    } else if name == "none"@ {
        Some(Symbol::Nil)
    } else if name == "or"@ {
        Some(Symbol::Or)
    } else if name == "print"@ {
        Some(Symbol::Print)
    } else if name == "return"@ {
        Some(Symbol::Return)
    } else if name == "super"@ {
        Some(Symbol::Super)
    } else if name == "true"@ {
        Some(Symbol::True)
    } else if name == "while"@ {
        Some(Symbol::While)
    } else if name == "int8"@ {
        Some(Symbol::TypeInt8)
    } else if name == "int16"@ {
        Some(Symbol::TypeInt16)
    } else if name == "int32"@ {
        Some(Symbol::TypeInt32)
    } else if name == "int64"@ {
        Some(Symbol::TypeInt64)
    } else if name == "int128"@ {
        Some(Symbol::TypeInt128)
    } else if name == "int"@ {
        Some(Symbol::TypeInt)
    } else if name == "uint8"@ {
        Some(Symbol::TypeUInt8)
    } else if name == "uint16"@ {
        Some(Symbol::TypeUInt16)
    } else if name == "uint32"@ {
        Some(Symbol::TypeUInt32)
    } else if name == "uint64"@ {
        Some(Symbol::TypeUInt64)
    } else if name == "uint128"@ {
        Some(Symbol::TypeUInt128)
    } else if name == "uint"@ {
        Some(Symbol::TypeUInt)
    } else if name == "float32"@ {
        Some(Symbol::TypeFloat32)
    } else if name == "float64"@ {
        Some(Symbol::TypeFloat64)
    } else if name == "bool"@ {
        Some(Symbol::TypeBool)
    } else if name == "char"@ {
        Some(Symbol::TypeChar)
    } else if name == "string"@ {
        Some(Symbol::TypeString)
    } else if name == "Vec"@ {
        Some(Symbol::TypeVector)
    } else if name == "Tuple"@ {
        Some(Symbol::TypeTuple)
    } else {
        None
    }
}

/// `expected` may follow: the two-character symbol, or else the one-character one.
pub open spec fn either_step(s: Seq<char>, c: Cursor, expected: char, pass: Symbol, fail: Symbol) -> StepOutcome {
    if 0 <= c.pos < s.len() && s[c.pos] == expected {
        StepOutcome::Lex(Lexeme::Sym(pass), step(c))
    } else {
        StepOutcome::Lex(Lexeme::Sym(fail), c)
    }
}

/// A number whose first digit `x` has been read; `c` is just past it.
pub open spec fn number_step(s: Seq<char>, c: Cursor, x: char) -> StepOutcome {
    let q1 = run_end(s, c.pos, CharClass::Numeric);
    let int_digits = seq![x] + s.subrange(c.pos, q1);
    let err = StepOutcome::Fail(ScanError::InvalidNumeric(c.line as usize, c.col as usize));
    if q1 < s.len() && s[q1] == '.' {
        let q3 = run_end(s, q1 + 1, CharClass::Numeric);
        let frac = s.subrange(q1 + 1, q3);
        let after = Cursor { pos: q3, line: c.line, col: c.col + (q3 - c.pos) + 1 };
        if all_ascii_digits(int_digits) && all_ascii_digits(frac) {
            StepOutcome::Lex(Lexeme::Float(int_digits + seq!['.'] + frac), after)
        } else {
            err
        }
    } else if all_ascii_digits(int_digits) && decimal_value(int_digits) <= u128::MAX {
        StepOutcome::Lex(
            Lexeme::Sym(Symbol::IntegerLiteral(decimal_value(int_digits) as u128)),
            moved(c, q1),
        )
    } else {
        err
    }
}

/// A name whose first letter `x` has been read.
pub open spec fn identifier_step(s: Seq<char>, c: Cursor, x: char) -> StepOutcome {
    let q = run_end(s, c.pos, CharClass::IdentTail);
    let name = seq![x] + s.subrange(c.pos, q);
    match keyword_of(name) {
        Some(k) => StepOutcome::Lex(Lexeme::Sym(k), moved(c, q)),
        None => StepOutcome::Lex(Lexeme::Ident(name), moved(c, q)),
    }
}

/// A string literal whose opening quote `delim` has been read.
pub open spec fn string_step(s: Seq<char>, c: Cursor, delim: char) -> StepOutcome {
    let q = run_end(s, c.pos, CharClass::NotDelim(delim));
    if q >= s.len() {
        StepOutcome::Fail(ScanError::InputStreamEmpty)
    } else {
        StepOutcome::Lex(Lexeme::Str(s.subrange(c.pos, q)), step(moved(c, q)))
    }
}

/// The token that starts with `ch`, which has been read; `c` is just past it.
pub open spec fn symbol_step(s: Seq<char>, c: Cursor, ch: char) -> StepOutcome {
    if ch == '!' {
        either_step(s, c, '=', Symbol::NotEqual, Symbol::Not)
    } else if ch == '=' {
        either_step(s, c, '=', Symbol::EqualEqual, Symbol::Equal)
    } else if ch == '<' {
        either_step(s, c, '=', Symbol::LessEqual, Symbol::Less)
    } else if ch == '>' {
        either_step(s, c, '=', Symbol::GreaterEqual, Symbol::Greater)
    } else if single_char_symbol(ch) is Some {
        StepOutcome::Lex(Lexeme::Sym(single_char_symbol(ch).unwrap()), c)
    } else if is_numeric_char(ch) {
        number_step(s, c, ch)
    } else if is_alphabetic_char(ch) {
        identifier_step(s, c, ch)
    } else if ch == '\'' || ch == '"' {
        string_step(s, c, ch)
    } else {
        StepOutcome::Stop
    }
}

pub open spec fn single_char_symbol(ch: char) -> Option<Symbol> {
    if ch == '+' {
        Some(Symbol::Plus)
    } else if ch == '-' {
        Some(Symbol::Minus)
    } else if ch == '*' {
        Some(Symbol::Star)
    } else if ch == '/' {
        Some(Symbol::Slash)
    } else if ch == '%' {
        Some(Symbol::Modulo)
    } else if ch == '^' {
        Some(Symbol::Carat)
    } else if ch == '(' {
        Some(Symbol::LeftParen)
    } else if ch == ')' {
        Some(Symbol::RightParen)
    } else if ch == '{' {
        Some(Symbol::LeftBrace)
    } else if ch == '}' {
        Some(Symbol::RightBrace)
    } else if ch == '[' {
        Some(Symbol::LeftSquare)
    } else if ch == ']' {
        Some(Symbol::RightSquare)
    } else if ch == ',' {
        Some(Symbol::Comma)
    } else if ch == '.' {
        Some(Symbol::Dot)
    } else if ch == ':' {
        Some(Symbol::Colon)
    } else if ch == ';' {
        Some(Symbol::Semicolon)
    } else if ch == '#' {
        Some(Symbol::Fun)
    } else if ch == '@' {
        Some(Symbol::Class)
    } else if ch == '$' {
        Some(Symbol::Var)
    } else {
        None
    }
}

/// The text of a punctuation or operator token; empty for the tokens that
/// are names, literals or keywords.
pub open spec fn symbol_text(sym: Symbol) -> Seq<char> {
    match sym {
        Symbol::LeftParen => seq!['('],
        Symbol::RightParen => seq![')'],
        Symbol::LeftBrace => seq!['{'],
        Symbol::RightBrace => seq!['}'],
        Symbol::LeftSquare => seq!['['],
        Symbol::RightSquare => seq![']'],
        Symbol::Comma => seq![','],
        Symbol::Colon => seq![':'],
        Symbol::Dot => seq!['.'],
        Symbol::Minus => seq!['-'],
        Symbol::Plus => seq!['+'],
        Symbol::Semicolon => seq![';'],
        Symbol::Slash => seq!['/'],
        Symbol::Modulo => seq!['%'],
        Symbol::Carat => seq!['^'],
        Symbol::Star => seq!['*'],
        Symbol::Not => seq!['!'],
        Symbol::NotEqual => seq!['!', '='],
        Symbol::Equal => seq!['='],
        Symbol::EqualEqual => seq!['=', '='],
        Symbol::Greater => seq!['>'],
        Symbol::GreaterEqual => seq!['>', '='],
        Symbol::Less => seq!['<'],
        Symbol::LessEqual => seq!['<', '='],
        Symbol::Fun => seq!['#'],
        Symbol::Class => seq!['@'],
        Symbol::Var => seq!['$'],
        _ => Seq::empty(),
    }
}

/// A punctuation or operator token is the symbol whose text was read: where
/// the step from `ch` (not a letter) gives such a symbol, its text is `ch`
/// followed by the characters the step took after it. So no two different
/// texts scan to the same symbol.
pub proof fn lemma_symbol_token_text(s: Seq<char>, c: Cursor, ch: char)
    requires
        0 <= c.pos <= s.len(),
        !is_alphabetic_char(ch),
    ensures
        symbol_step(s, c, ch) matches StepOutcome::Lex(Lexeme::Sym(x), d) ==> (symbol_text(x).len() > 0
            ==> c.pos <= d.pos <= s.len() && symbol_text(x) == seq![ch] + s.subrange(c.pos, d.pos)),
{
    if let StepOutcome::Lex(Lexeme::Sym(x), d) = symbol_step(s, c, ch) {
        if symbol_text(x).len() > 0 {
            if 0 <= c.pos < s.len() && s[c.pos] == '=' && (ch == '!' || ch == '=' || ch == '<' || ch == '>') {
                assert(s.subrange(c.pos, c.pos + 1) =~= seq!['=']);
                assert(seq![ch] + s.subrange(c.pos, d.pos) =~= seq![ch, '=']);
            } else {
                assert(s.subrange(c.pos, c.pos) =~= Seq::<char>::empty());
                assert(seq![ch] + s.subrange(c.pos, d.pos) =~= seq![ch]);
            }
        }
    }
}

/// Reading the text of a one-character punctuation or operator token, with
/// no `=` after it, gives that token and takes nothing more.
pub proof fn lemma_text_scans_to_symbol(s: Seq<char>, c: Cursor, x: Symbol)
    requires
        symbol_text(x).len() == 1,
        !(0 <= c.pos < s.len() && s[c.pos] == '='),
    ensures
        symbol_step(s, c, symbol_text(x)[0]) == StepOutcome::Lex(Lexeme::Sym(x), c),
{
}

pub proof fn lemma_symbol_step(s: Seq<char>, c: Cursor, ch: char)
    requires
        0 <= c.pos <= s.len(),
    ensures
        symbol_step(s, c, ch) matches StepOutcome::Lex(_, d) ==> c.pos <= d.pos <= s.len(),
{
    lemma_run_end(s, c.pos, CharClass::Numeric);
    lemma_run_end(s, c.pos, CharClass::IdentTail);
    lemma_run_end(s, c.pos, CharClass::NotDelim(ch));
    let q1 = run_end(s, c.pos, CharClass::Numeric);
    if q1 < s.len() {
        lemma_run_end(s, q1 + 1, CharClass::Numeric);
    }
}

pub open spec fn tok(l: Lexeme, c: Cursor) -> SpecToken {
    SpecToken { lex: l, line: c.line, col: c.col }
}

pub open spec fn prepend(ts: Seq<SpecToken>, o: ScanOutcome) -> ScanOutcome {
    match o {
        ScanOutcome::Tokens(rest) => ScanOutcome::Tokens(ts + rest),
        _ => o,
    }
}

/// After the whitespace: the next character starts a token, or scanning ends.
pub open spec fn next_cursor(s: Seq<char>, c: Cursor) -> Cursor {
    let ch = s[c.pos];
    if ch == '\n' || ch == '\r' {
        Cursor { pos: c.pos + 1, line: c.line + 1, col: 0 }
    } else {
        step(c)
    }
}

/// Scanning the input from `c` to the end.
pub open spec fn scan_from(s: Seq<char>, c: Cursor) -> ScanOutcome
    decreases s.len() - c.pos,
{
    if c.pos < 0 || c.pos > s.len() {
        ScanOutcome::Stuck
    } else {
        match skip_ws(s, c) {
            WsOutcome::Stuck => ScanOutcome::Stuck,
            WsOutcome::Done(c1, slash) => {
                let w2 = if slash {
                    skip_ws(s, c1)
                } else {
                    WsOutcome::Done(c1, false)
                };
                let pre = if slash {
                    seq![tok(Lexeme::Sym(Symbol::Slash), c1)]
                } else {
                    Seq::<SpecToken>::empty()
                };
                match w2 {
                    WsOutcome::Stuck => ScanOutcome::Stuck,
                    WsOutcome::Done(c2, _) => {
                        if c2.pos < c.pos || c2.pos > s.len() {
                            ScanOutcome::Stuck
                        } else if c2.pos == s.len() {
                            ScanOutcome::Tokens(pre.push(tok(Lexeme::Sym(Symbol::Eof), c2)))
                        } else {
                            let c3 = next_cursor(s, c2);
                            match symbol_step(s, c3, s[c2.pos]) {
                                StepOutcome::Stop => ScanOutcome::Tokens(
                                    pre.push(tok(Lexeme::Sym(Symbol::Eof), c3)),
                                ),
                                StepOutcome::Fail(e) => ScanOutcome::Failed(e),
                                StepOutcome::Lex(l, c4) => {
                                    if c.pos < c4.pos <= s.len() {
                                        prepend(pre.push(tok(l, c4)), scan_from(s, c4))
                                    } else {
                                        ScanOutcome::Stuck
                                    }
                                },
                            }
                        }
                    },
                }
            },
        }
    }
}

/// The whole input scanned from its start.
pub open spec fn scan(s: Seq<char>) -> ScanOutcome {
    scan_from(s, Cursor { pos: 0, line: 1, col: 0 })
}

/// The symbol `e` that the scanner produced stands for `l`, given the
/// final table of interned strings.
pub open spec fn symbol_matches(tbl: Seq<Seq<char>>, e: Symbol, l: Lexeme) -> bool {
    match l {
        Lexeme::Sym(x) => e == x,
        Lexeme::Ident(n) => e matches Symbol::Identifier(i) && i < tbl.len() && tbl[i as int] == n,
        Lexeme::Str(n) => e matches Symbol::StringLiteral(i) && i < tbl.len() && tbl[i as int] == n,
        Lexeme::Float(n) => e matches Symbol::FloatLiteral(i) && i < tbl.len() && tbl[i as int]
            == n,
    }
}

pub open spec fn token_matches(tbl: Seq<Seq<char>>, e: Token, t: SpecToken) -> bool {
    &&& symbol_matches(tbl, e.sym, t.lex)
    &&& e.line == t.line
    &&& e.col == t.col
}

pub open spec fn tokens_match(tbl: Seq<Seq<char>>, es: Seq<Token>, ts: Seq<SpecToken>) -> bool {
    &&& es.len() == ts.len()
    &&& forall|i: int| 0 <= i < es.len() ==> token_matches(tbl, #[trigger] es[i], ts[i])
}

proof fn lemma_tokens_match_extend(
    tbl: Seq<Seq<char>>,
    tbl2: Seq<Seq<char>>,
    es: Seq<Token>,
    ts: Seq<SpecToken>,
)
    requires
        tokens_match(tbl, es, ts),
        tbl.is_prefix_of(tbl2),
    ensures
        tokens_match(tbl2, es, ts),
{
    assert forall|i: int| 0 <= i < es.len() implies token_matches(tbl2, #[trigger] es[i], ts[i]) by {
        assert(token_matches(tbl, es[i], ts[i]));
        match ts[i].lex {
            Lexeme::Ident(n) => {
                if let Symbol::Identifier(j) = es[i].sym {
                    assert(tbl2[j as int] == tbl[j as int]);
                }
            },
            Lexeme::Str(n) => {
                if let Symbol::StringLiteral(j) = es[i].sym {
                    assert(tbl2[j as int] == tbl[j as int]);
                }
            },
            Lexeme::Float(n) => {
                if let Symbol::FloatLiteral(j) = es[i].sym {
                    assert(tbl2[j as int] == tbl[j as int]);
                }
            },
            _ => {},
        }
    }
}


pub proof fn lemma_prepend_assoc(a: Seq<SpecToken>, b: Seq<SpecToken>, o: ScanOutcome)
    ensures
        prepend(a, prepend(b, o)) == prepend(a + b, o),
{
    if let ScanOutcome::Tokens(rest) = o {
        assert(a + (b + rest) =~= (a + b) + rest);
    }
}

proof fn lemma_decimal_prefix(t: Seq<char>, k: int)
    requires
        all_ascii_digits(t),
        0 <= k <= t.len(),
    ensures
        decimal_value(t.take(k)) <= decimal_value(t),
        decimal_value(t) >= 0,
    decreases t.len(),
{
    if t.len() > 0 {
        let d = t.drop_last();
        assert(all_ascii_digits(d)) by {
            assert forall|i: int| 0 <= i < d.len() implies is_ascii_digit(#[trigger] d[i]) by {
                assert(d[i] == t[i]);
            }
        }
        assert(is_ascii_digit(t[t.len() - 1]));
        if k < t.len() {
            lemma_decimal_prefix(d, k);
            assert(d.take(k) =~= t.take(k));
        } else {
            lemma_decimal_prefix(d, 0);
            assert(t.take(k) =~= t);
        }
    } else {
        assert(t.take(k) =~= t);
    }
}

/// How the whitespace skipper ended.
enum Blank {
    Plain,
    SlashRead,
    Stuck,
}

/// The outcome of scanning one token.
enum Step {
    Sym(Symbol),
    Fail(ScanError),
    Stop,
}

/// Converts a run of ASCII digits to the number it denotes, or fails if
/// a character is not an ASCII digit or the number does not fit.
pub fn parse_u128(digits: &Vec<char>) -> (r: Option<u128>)
    requires
        digits@.len() > 0,
    ensures
        r == (if all_ascii_digits(digits@) && decimal_value(digits@) <= u128::MAX {
            Some(decimal_value(digits@) as u128)
        } else {
            None::<u128>
        }),
{
    let n = digits.len();
    let mut acc: u128 = 0;
    let mut i: usize = 0;
    while i < n
        invariant
            n == digits@.len(),
            i <= n,
            all_ascii_digits(digits@.take(i as int)),
            acc == decimal_value(digits@.take(i as int)),
        decreases n - i,
    {
        let c = digits[i];
        assert(digits@.take(i + 1).drop_last() =~= digits@.take(i as int));
        if !('0' <= c && c <= '9') {
            proof {
                assert(!is_ascii_digit(digits@[i as int]));
            }
            return None;
        }
        let d = (c as u32 - '0' as u32) as u128;
        let m = acc.checked_mul(10);
        match m {
            Some(m) => {
                match m.checked_add(d) {
                    Some(v) => {
                        acc = v;
                    },
                    None => {
                        proof {
                            lemma_digits_overflow(digits@, i as int);
                        }
                        return None;
                    },
                }
            },
            None => {
                proof {
                    lemma_digits_overflow(digits@, i as int);
                }
                return None;
            },
        }
        i = i + 1;
        proof {
            assert forall|k: int| 0 <= k < i implies is_ascii_digit(
                #[trigger] digits@.take(i as int)[k],
            ) by {
                if k < i - 1 {
                    assert(digits@.take(i as int)[k] == digits@.take(i - 1)[k]);
                }
            }
        }
    }
    assert(digits@.take(n as int) =~= digits@);
    Some(acc)
}

/// If the digits up to and including position `i` already exceed the
/// largest `u128`, then either a later character is not a digit or the
/// whole number exceeds it too.
proof fn lemma_digits_overflow(t: Seq<char>, i: int)
    requires
        0 <= i < t.len(),
        all_ascii_digits(t.take(i)),
        is_ascii_digit(t[i]),
        decimal_value(t.take(i)) * 10 + (t[i] as int - '0' as int) > u128::MAX,
    ensures
        !(all_ascii_digits(t) && decimal_value(t) <= u128::MAX),
{
    assert(t.take(i + 1).drop_last() =~= t.take(i));
    if all_ascii_digits(t) {
        lemma_decimal_prefix(t, i + 1);
    }
}

fn all_digits(v: &Vec<char>) -> (r: bool)
    ensures
        r == all_ascii_digits(v@),
{
    let n = v.len();
    let mut i: usize = 0;
    while i < n
        invariant
            n == v@.len(),
            i <= n,
            forall|k: int| 0 <= k < i ==> is_ascii_digit(#[trigger] v@[k]),
        decreases n - i,
    {
        if !('0' <= v[i] && v[i] <= '9') {
            return false;
        }
        i = i + 1;
    }
    true
}

/// The keyword that `name` spells, if any.
fn keyword(name: &Vec<char>) -> (r: Option<Symbol>)
    ensures
        r == keyword_of(name@),
{
    if chars_equal(name, "and") {
        Some(Symbol::And)
    } else if chars_equal(name, "elif") {
        Some(Symbol::Elif)
    } else if chars_equal(name, "else") {
        Some(Symbol::Else)
    } else if chars_equal(name, "false") {
        Some(Symbol::False)
    } else if chars_equal(name, "for") {
        Some(Symbol::For)
    } else if chars_equal(name, "if") {
        Some(Symbol::If)
    } else if chars_equal(name, "in") {
        Some(Symbol::In)
    } else if chars_equal(name, "my") {
        Some(Symbol::My)
    } else if chars_equal(name, "none") {
        Some(Symbol::Nil)
    } else if chars_equal(name, "or") {
        Some(Symbol::Or)
    } else if chars_equal(name, "print") {
        Some(Symbol::Print)
    } else if chars_equal(name, "return") {
        Some(Symbol::Return)
    } else if chars_equal(name, "super") {
        Some(Symbol::Super)
    } else if chars_equal(name, "true") {
        Some(Symbol::True)
    } else if chars_equal(name, "while") {
        Some(Symbol::While)
    } else if chars_equal(name, "int8") {
        Some(Symbol::TypeInt8)
    } else if chars_equal(name, "int16") {
        Some(Symbol::TypeInt16)
    } else if chars_equal(name, "int32") {
        Some(Symbol::TypeInt32)
    } else if chars_equal(name, "int64") {
        Some(Symbol::TypeInt64)
    } else if chars_equal(name, "int128") {
        Some(Symbol::TypeInt128)
    } else if chars_equal(name, "int") {
        Some(Symbol::TypeInt)
    } else if chars_equal(name, "uint8") {
        Some(Symbol::TypeUInt8)
    } else if chars_equal(name, "uint16") {
        Some(Symbol::TypeUInt16)
    } else if chars_equal(name, "uint32") {
        Some(Symbol::TypeUInt32)
    } else if chars_equal(name, "uint64") {
        Some(Symbol::TypeUInt64)
    } else if chars_equal(name, "uint128") {
        Some(Symbol::TypeUInt128)
    } else if chars_equal(name, "uint") {
        Some(Symbol::TypeUInt)
    } else if chars_equal(name, "float32") {
        Some(Symbol::TypeFloat32)
    } else if chars_equal(name, "float64") {
        Some(Symbol::TypeFloat64)
    } else if chars_equal(name, "bool") {
        Some(Symbol::TypeBool)
    } else if chars_equal(name, "char") {
        Some(Symbol::TypeChar)
    } else if chars_equal(name, "string") {
        Some(Symbol::TypeString)
    } else if chars_equal(name, "Vec") {
        Some(Symbol::TypeVector)
    } else if chars_equal(name, "Tuple") {
        Some(Symbol::TypeTuple)
    } else {
        None
    }
}

fn single_char(ch: char) -> (r: Option<Symbol>)
    ensures
        r == single_char_symbol(ch),
{
    match ch {
        '+' => Some(Symbol::Plus),
        '-' => Some(Symbol::Minus),
        '*' => Some(Symbol::Star),
        '/' => Some(Symbol::Slash),
        '%' => Some(Symbol::Modulo),
        '^' => Some(Symbol::Carat),
        '(' => Some(Symbol::LeftParen),
        ')' => Some(Symbol::RightParen),
        '{' => Some(Symbol::LeftBrace),
        '}' => Some(Symbol::RightBrace),
        '[' => Some(Symbol::LeftSquare),
        ']' => Some(Symbol::RightSquare),
        ',' => Some(Symbol::Comma),
        '.' => Some(Symbol::Dot),
        ':' => Some(Symbol::Colon),
        ';' => Some(Symbol::Semicolon),
        '#' => Some(Symbol::Fun),
        '@' => Some(Symbol::Class),
        '$' => Some(Symbol::Var),
        _ => None,
    }
}

fn class_contains(k: CharClass, c: char) -> (r: bool)
    ensures
        r == in_class(k, c),
{
    match k {
        CharClass::Numeric => char_is_numeric(c),
        CharClass::IdentTail => char_is_alphanumeric(c) || c == '_',
        CharClass::NotDelim(d) => c != d,
    }
}

/// Reads a source text and turns it into a stream of tokens.
pub struct Scanner {
    chars: Vec<char>,
    pos: usize,
    line: usize,
    column: usize,
}

impl Scanner {
    /// The characters of the source text.
    pub closed spec fn input(&self) -> Seq<char> {
        self.chars@
    }

    /// Where the scanner stands.
    pub closed spec fn cursor(&self) -> Cursor {
        Cursor { pos: self.pos as int, line: self.line as int, col: self.column as int }
    }

    /// The position is in the input and line and column are bounded by
    /// it, for an input short enough that they cannot overflow.
    pub closed spec fn wf(&self) -> bool {
        &&& self.pos <= self.chars@.len()
        &&& self.line <= self.pos + 1
        &&& self.column <= 2 * self.pos
        &&& self.chars@.len() <= usize::MAX / 4
    }

    /// A scanner at the start (line 1, column 0) of `buf`.
    pub fn new(buf: &str) -> (r: Self)
        ensures
            r.input() == buf@,
            r.cursor() == (Cursor { pos: 0, line: 1, col: 0 }),
            r.wf() == (buf@.len() <= usize::MAX / 4),
    {
        Scanner { chars: chars_of(buf), pos: 0, line: 1, column: 0 }
    }

    fn peek(&self) -> (r: Option<char>)
        requires
            self.wf(),
        ensures
            r == (if self.pos < self.chars@.len() {
                Some(self.chars@[self.pos as int])
            } else {
                None::<char>
            }),
    {
        if self.pos < self.chars.len() {
            Some(self.chars[self.pos])
        } else {
            None
        }
    }

    /// The next character, which is consumed.
    fn next(&mut self) -> (r: Result<char, ScanError>)
        requires
            old(self).wf(),
        ensures
            final(self).wf(),
            final(self).input() == old(self).input(),
            old(self).pos < old(self).chars@.len() ==> r == Ok::<char, ScanError>(
                old(self).chars@[old(self).pos as int],
            ) && final(self).cursor() == step(old(self).cursor()),
            old(self).pos >= old(self).chars@.len() ==> r == Err::<char, ScanError>(
                ScanError::InputStreamEmpty,
            ) && *final(self) == *old(self),
    {
        if self.pos < self.chars.len() {
            let c = self.chars[self.pos];
            self.pos = self.pos + 1;
            self.column = self.column + 1;
            Ok(c)
        } else {
            Err(ScanError::InputStreamEmpty)
        }
    }

    /// Consumes the run of characters of class `k`.
    fn consume_while(&mut self, k: CharClass) -> (r: Result<Vec<char>, ScanError>)
        requires
            old(self).wf(),
        ensures
            final(self).wf(),
            final(self).input() == old(self).input(),
            ({
                let q = run_end(old(self).input(), old(self).pos as int, k);
                &&& r is Ok
                &&& r->Ok_0@ == old(self).input().subrange(old(self).pos as int, q)
                &&& final(self).cursor() == moved(old(self).cursor(), q)
            }),
    {
        let ghost s = self.chars@;
        let ghost p0 = self.pos as int;
        let ghost c0 = self.cursor();
        proof {
            lemma_run_end(s, p0, k);
        }
        let mut chars: Vec<char> = Vec::new();
        while self.pos < self.chars.len() && class_contains(k, self.chars[self.pos])
            invariant
                self.wf(),
                self.chars@ == s,
                p0 <= self.pos <= run_end(s, p0, k),
                run_end(s, p0, k) <= s.len(),
                chars@ == s.subrange(p0, self.pos as int),
                self.cursor() == moved(c0, self.pos as int),
                forall|i: int| p0 <= i < run_end(s, p0, k) ==> in_class(k, #[trigger] s[i]),
                run_end(s, p0, k) < s.len() ==> !in_class(k, s[run_end(s, p0, k)]),
            decreases s.len() - self.pos,
        {
            let ch = self.next()?;
            chars.push(ch);
            assert(chars@ =~= s.subrange(p0, self.pos as int));
        }
        Ok(chars)
    }

    fn either(&mut self, expected: char, pass: Symbol, fail: Symbol) -> (r: Result<Symbol, ScanError>)
        requires
            old(self).wf(),
        ensures
            final(self).wf(),
            final(self).input() == old(self).input(),
            either_step(old(self).input(), old(self).cursor(), expected, pass, fail) matches StepOutcome::Lex(Lexeme::Sym(x), d)
                && r == Ok::<Symbol, ScanError>(x) && final(self).cursor() == d,
    {
        match self.peek() {
            Some(symbol) => {
                if symbol == expected {
                    self.next()?;
                    Ok(pass)
                } else {
                    Ok(fail)
                }
            },
            None => Ok(fail),
        }
    }

    /// Skips blanks, newlines and comments; a lone `/` is consumed and
    /// reported. `Stuck` is the state in which a `/` is the last
    /// character, where scanning cannot go on.
    fn whitespace(&mut self) -> (r: Blank)
        requires
            old(self).wf(),
        ensures
            final(self).wf(),
            final(self).input() == old(self).input(),
            match skip_ws(old(self).input(), old(self).cursor()) {
                WsOutcome::Stuck => r is Stuck,
                WsOutcome::Done(d, slash) => final(self).cursor() == d && (if slash {
                    r is SlashRead
                } else {
                    r is Plain
                }),
            },
        decreases old(self).chars@.len() - old(self).pos,
    {
        let ghost s = self.chars@;
        match self.peek() {
            Some(ch) => {
                if ch == '\t' || ch == ' ' || ch == '\r' {
                    let _ = self.next();
                    self.whitespace()
                } else if ch == '\n' {
                    let _ = self.next();
                    self.line = self.line + 1;
                    self.column = 0;
                    self.whitespace()
                } else if ch == '/' {
                    let _ = self.next();
                    match self.peek() {
                        None => Blank::Stuck,
                        Some(c2) => {
                            if c2 == '/' {
                                let ghost p1 = self.pos as int;
                                let ghost c1 = self.cursor();
                                proof {
                                    lemma_line_end(s, p1);
                                }
                                while self.pos < self.chars.len() && self.chars[self.pos] != '\n'
                                    invariant
                                        self.wf(),
                                        self.chars@ == s,
                                        p1 <= self.pos <= line_end(s, p1),
                                        line_end(s, p1) <= s.len(),
                                        self.cursor() == moved(c1, self.pos as int),
                                        forall|i: int|
                                            p1 <= i < line_end(s, p1) ==> #[trigger] s[i] != '\n',
                                        line_end(s, p1) < s.len() ==> s[line_end(s, p1)] == '\n',
                                    decreases s.len() - self.pos,
                                {
                                    let _ = self.next();
                                }
                                self.whitespace()
                            } else {
                                Blank::SlashRead
                            }
                        },
                    }
                } else {
                    Blank::Plain
                }
            },
            None => Blank::Plain,
        }
    }

    /// A number whose first digit `x` has just been read.
    fn number(&mut self, x: char, interner: &mut Interner) -> (r: Step)
        requires
            old(self).wf(),
            old(interner).wf(),
        ensures
            final(self).wf(),
            final(self).input() == old(self).input(),
            final(interner).wf(),
            old(interner)@.is_prefix_of(final(interner)@),
            step_matches(number_step(old(self).input(), old(self).cursor(), x), r, final(self).cursor(), final(interner)@),
    {
        let ghost s = self.chars@;
        let ghost c0 = self.cursor();
        let start_line = self.line;
        let start_col = self.column;
        let mut result: Vec<char> = Vec::new();
        result.push(x);
        let integer = match self.consume_while(CharClass::Numeric) {
            Ok(v) => v,
            Err(e) => { return Step::Fail(e); },
        };
        let mut i: usize = 0;
        while i < integer.len()
            invariant
                i <= integer@.len(),
                result@ == seq![x] + integer@.take(i as int),
            decreases integer@.len() - i,
        {
            result.push(integer[i]);
            i = i + 1;
            assert(result@ =~= seq![x] + integer@.take(i as int));
        }
        assert(integer@.take(integer@.len() as int) =~= integer@);
        let ghost q1 = self.pos as int;
        proof {
            lemma_run_end(s, c0.pos, CharClass::Numeric);
        }
        if self.peek() == Some('.') {
            let _ = self.next();
            let ghost cb = self.cursor();
            assert(cb.col < 2 * cb.pos);
            let decimal = match self.consume_while(CharClass::Numeric) {
                Ok(v) => v,
                Err(e) => { return Step::Fail(e); },
            };
            proof {
                lemma_run_end(s, cb.pos, CharClass::Numeric);
            }
            assert(self.cursor() == moved(cb, run_end(s, cb.pos, CharClass::Numeric)));
            assert(self.column < 2 * self.pos);
            self.column = self.column + 1;
            let valid = all_digits(&result) && all_digits(&decimal);
            let ghost int_digits = result@;
            result.push('.');
            let mut j: usize = 0;
            while j < decimal.len()
                invariant
                    j <= decimal@.len(),
                    result@ == int_digits + seq!['.'] + decimal@.take(j as int),
                decreases decimal@.len() - j,
            {
                result.push(decimal[j]);
                j = j + 1;
                assert(result@ =~= int_digits + seq!['.'] + decimal@.take(j as int));
            }
            assert(decimal@.take(decimal@.len() as int) =~= decimal@);
            if valid {
                let text = string_from_chars(&result);
                let id = interner.intern(text);
                Step::Sym(Symbol::FloatLiteral(id))
            } else {
                Step::Fail(ScanError::InvalidNumeric(start_line, start_col))
            }
        } else {
            match parse_u128(&result) {
                Some(v) => Step::Sym(Symbol::IntegerLiteral(v)),
                None => Step::Fail(ScanError::InvalidNumeric(start_line, start_col)),
            }
        }
    }

    /// A name or keyword whose first letter `x` has just been read.
    fn identifier(&mut self, x: char, interner: &mut Interner) -> (r: Step)
        requires
            old(self).wf(),
            old(interner).wf(),
        ensures
            final(self).wf(),
            final(self).input() == old(self).input(),
            final(interner).wf(),
            old(interner)@.is_prefix_of(final(interner)@),
            step_matches(identifier_step(old(self).input(), old(self).cursor(), x), r, final(self).cursor(), final(interner)@),
    {
        let mut result: Vec<char> = Vec::new();
        result.push(x);
        let rest = match self.consume_while(CharClass::IdentTail) {
            Ok(v) => v,
            Err(e) => { return Step::Fail(e); },
        };
        let mut i: usize = 0;
        while i < rest.len()
            invariant
                i <= rest@.len(),
                result@ == seq![x] + rest@.take(i as int),
            decreases rest@.len() - i,
        {
            result.push(rest[i]);
            i = i + 1;
            assert(result@ =~= seq![x] + rest@.take(i as int));
        }
        assert(rest@.take(rest@.len() as int) =~= rest@);
        match keyword(&result) {
            Some(k) => Step::Sym(k),
            None => {
                let text = string_from_chars(&result);
                let id = interner.intern(text);
                Step::Sym(Symbol::Identifier(id))
            },
        }
    }

    /// A string literal whose opening quote `delim` has just been read.
    fn string(&mut self, delim: char, interner: &mut Interner) -> (r: Step)
        requires
            old(self).wf(),
            old(interner).wf(),
        ensures
            final(self).wf(),
            final(self).input() == old(self).input(),
            final(interner).wf(),
            old(interner)@.is_prefix_of(final(interner)@),
            step_matches(string_step(old(self).input(), old(self).cursor(), delim), r, final(self).cursor(), final(interner)@),
    {
        let start_line = self.line;
        let start_col = self.column;
        let ghost s = self.chars@;
        let ghost c0 = self.cursor();
        proof {
            lemma_run_end(s, c0.pos, CharClass::NotDelim(delim));
        }
        let result = match self.consume_while(CharClass::NotDelim(delim)) {
            Ok(v) => v,
            Err(e) => { return Step::Fail(e); },
        };
        match self.next() {
            Ok(c) => {
                if c != delim {
                    return Step::Fail(ScanError::UnterminatedString(start_line, start_col));
                }
            },
            Err(e) => { return Step::Fail(e); },
        }
        let text = string_from_chars(&result);
        let id = interner.intern(text);
        assert(interner@.is_prefix_of(interner@));
        Step::Sym(Symbol::StringLiteral(id))
    }

    /// The token that starts with `ch`, which has just been read.
    fn symbol(&mut self, ch: char, interner: &mut Interner) -> (r: Step)
        requires
            old(self).wf(),
            old(interner).wf(),
        ensures
            final(self).wf(),
            final(self).input() == old(self).input(),
            final(interner).wf(),
            old(interner)@.is_prefix_of(final(interner)@),
            step_matches(symbol_step(old(self).input(), old(self).cursor(), ch), r, final(self).cursor(), final(interner)@),
            r is Stop ==> final(self).cursor() == old(self).cursor(),
    {
        assert(interner@.is_prefix_of(interner@));
        if ch == '!' {
            match self.either('=', Symbol::NotEqual, Symbol::Not) {
                Ok(x) => Step::Sym(x),
                Err(e) => Step::Fail(e),
            }
        } else if ch == '=' {
            match self.either('=', Symbol::EqualEqual, Symbol::Equal) {
                Ok(x) => Step::Sym(x),
                Err(e) => Step::Fail(e),
            }
        } else if ch == '<' {
            match self.either('=', Symbol::LessEqual, Symbol::Less) {
                Ok(x) => Step::Sym(x),
                Err(e) => Step::Fail(e),
            }
        } else if ch == '>' {
            match self.either('=', Symbol::GreaterEqual, Symbol::Greater) {
                Ok(x) => Step::Sym(x),
                Err(e) => Step::Fail(e),
            }
        } else {
            match single_char(ch) {
                Some(x) => Step::Sym(x),
                None => {
                    if char_is_numeric(ch) {
                        self.number(ch, interner)
                    } else if char_is_alphabetic(ch) {
                        self.identifier(ch, interner)
                    } else if ch == '\'' || ch == '"' {
                        self.string(ch, interner)
                    } else {
                        Step::Stop
                    }
                },
            }
        }
    }
}

impl Scanner {
    /// Tokenizes the rest of the input. `None` where the input ends in a
    /// lone `/` read by the whitespace skipper, where no token stream can
    /// be formed.
    pub fn try_tokenize(&mut self, interner: &mut Interner) -> (r: Option<Result<Vec<Token>, ScanError>>)
        requires
            old(self).wf(),
            old(interner).wf(),
        ensures
            final(self).input() == old(self).input(),
            final(interner).wf(),
            old(interner)@.is_prefix_of(final(interner)@),
            match scan_from(old(self).input(), old(self).cursor()) {
                ScanOutcome::Stuck => r is None,
                ScanOutcome::Failed(e) => r == Some(Err::<Vec<Token>, ScanError>(e)),
                ScanOutcome::Tokens(ts) => r matches Some(Ok(v)) && tokens_match(final(interner)@, v@, ts),
            },
    {
        let ghost s = self.chars@;
        let ghost c0 = self.cursor();
        let ghost tbl0 = interner@;
        let ghost mut pre: Seq<SpecToken> = Seq::empty();
        let mut tokens: Vec<Token> = Vec::new();
        assert(prepend(pre, scan_from(s, c0)) == scan_from(s, c0)) by {
            if let ScanOutcome::Tokens(rest) = scan_from(s, c0) {
                assert(pre + rest =~= rest);
            }
        }
        assert(tbl0.is_prefix_of(interner@));
        loop
            invariant
                self.wf(),
                self.chars@ == s,
                s == old(self).input(),
                c0 == old(self).cursor(),
                tbl0 == old(interner)@,
                interner.wf(),
                tbl0.is_prefix_of(interner@),
                tokens_match(interner@, tokens@, pre),
                scan_from(s, c0) == prepend(pre, scan_from(s, self.cursor())),
            decreases s.len() - self.pos,
        {
            let ghost cur = self.cursor();
            proof {
                lemma_skip_ws(s, cur);
            }
            let ghost mut pre_step: Seq<SpecToken> = Seq::empty();
            assert(pre + pre_step =~= pre);
            match self.whitespace() {
                Blank::Stuck => {
                    return None;
                },
                Blank::SlashRead => {
                    let ghost c1 = self.cursor();
                    tokens.push(Token::new(Symbol::Slash, self.line, self.column));
                    proof {
                        pre_step = seq![tok(Lexeme::Sym(Symbol::Slash), c1)];
                        lemma_skip_ws(s, c1);
                        lemma_tokens_match_push(interner@, tokens@.drop_last(), pre, tokens@.last(), pre_step[0]);
                        assert(tokens@.drop_last().push(tokens@.last()) =~= tokens@);
                        assert(pre.push(pre_step[0]) =~= pre + pre_step);
                    }
                    match self.whitespace() {
                        Blank::Stuck => {
                            return None;
                        },
                        _ => {},
                    }
                },
                Blank::Plain => {},
            }
            let ghost c2 = self.cursor();
            assert(tokens_match(interner@, tokens@, pre + pre_step));
            let ch = match self.next() {
                Ok(ch) => ch,
                Err(_) => {
                    tokens.push(Token::new(Symbol::Eof, self.line, self.column));
                    proof {
                        let t = tok(Lexeme::Sym(Symbol::Eof), c2);
                        lemma_tokens_match_push(interner@, tokens@.drop_last(), pre + pre_step, tokens@.last(), t);
                        assert(tokens@.drop_last().push(tokens@.last()) =~= tokens@);
                        assert((pre + pre_step).push(t) =~= pre + pre_step.push(t));
                        assert(interner@.is_prefix_of(interner@));
                    }
                    return Some(Ok(tokens));
                },
            };
            if ch == '\n' || ch == '\r' {
                self.line = self.line + 1;
                self.column = 0;
            }
            let ghost c3 = self.cursor();
            assert(c3 == next_cursor(s, c2));
            assert(ch == s[c2.pos]);
            proof {
                lemma_symbol_step(s, c3, ch);
            }
            let ghost tbl_before = interner@;
            let ghost tokens_before = tokens@;
            match self.symbol(ch, interner) {
                Step::Stop => {
                    tokens.push(Token::new(Symbol::Eof, self.line, self.column));
                    proof {
                        let t = tok(Lexeme::Sym(Symbol::Eof), c3);
                        lemma_tokens_match_extend(tbl_before, interner@, tokens_before, pre + pre_step);
                        lemma_tokens_match_push(interner@, tokens_before, pre + pre_step, tokens@.last(), t);
                        assert(tokens_before.push(tokens@.last()) =~= tokens@);
                        assert((pre + pre_step).push(t) =~= pre + pre_step.push(t));
                    }
                    return Some(Ok(tokens));
                },
                Step::Fail(e) => {
                    return Some(Err(e));
                },
                Step::Sym(x) => {
                    tokens.push(Token::new(x, self.line, self.column));
                    proof {
                        let c4 = self.cursor();
                        let l = symbol_step(s, c3, ch)->Lex_0;
                        let t = tok(l, c4);
                        lemma_tokens_match_extend(tbl_before, interner@, tokens_before, pre + pre_step);
                        lemma_tokens_match_push(interner@, tokens_before, pre + pre_step, tokens@.last(), t);
                        assert(tokens_before.push(tokens@.last()) =~= tokens@);
                        assert((pre + pre_step).push(t) =~= pre + pre_step.push(t));
                        lemma_prepend_assoc(pre, pre_step.push(t), scan_from(s, c4));
                        pre = pre + pre_step.push(t);
                    }
                },
            }
        }
    }
}

impl Scanner {
    /// Tokenizes the rest of the input; the stream ends with `Eof`.
    pub fn tokenize(&mut self, interner: &mut Interner) -> (r: Result<Vec<Token>, ScanError>)
        requires
            old(self).wf(),
            old(interner).wf(),
            !(scan_from(old(self).input(), old(self).cursor()) is Stuck),
        ensures
            final(interner).wf(),
            old(interner)@.is_prefix_of(final(interner)@),
            match scan_from(old(self).input(), old(self).cursor()) {
                ScanOutcome::Failed(e) => r == Err::<Vec<Token>, ScanError>(e),
                ScanOutcome::Tokens(ts) => r matches Ok(v) && tokens_match(final(interner)@, v@, ts),
                ScanOutcome::Stuck => false,
            },
            r matches Ok(v) ==> v@.len() > 0 && v@.last().sym == Symbol::Eof,
    {
        proof {
            lemma_scan_ends_with_eof(old(self).input(), old(self).cursor());
        }
        match self.try_tokenize(interner) {
            Some(r) => r,
            None => Err(ScanError::InputStreamEmpty),
        }
    }
}

/// A token stream that scanning produces is never empty and ends with `Eof`.
pub proof fn lemma_scan_ends_with_eof(s: Seq<char>, c: Cursor)
    ensures
        scan_from(s, c) matches ScanOutcome::Tokens(ts) ==> ts.len() > 0 && ts.last().lex
            == Lexeme::Sym(Symbol::Eof),
    decreases s.len() - c.pos,
{
    if 0 <= c.pos <= s.len() {
        if let WsOutcome::Done(c1, slash) = skip_ws(s, c) {
            let w2 = if slash {
                skip_ws(s, c1)
            } else {
                WsOutcome::Done(c1, false)
            };
            if let WsOutcome::Done(c2, _) = w2 {
                if c.pos <= c2.pos < s.len() {
                    let c3 = next_cursor(s, c2);
                    if let StepOutcome::Lex(l, c4) = symbol_step(s, c3, s[c2.pos]) {
                        if c.pos < c4.pos <= s.len() {
                            lemma_scan_ends_with_eof(s, c4);
                        }
                    }
                }
            }
        }
    }
}

proof fn lemma_tokens_match_push(
    tbl: Seq<Seq<char>>,
    es: Seq<Token>,
    ts: Seq<SpecToken>,
    e: Token,
    t: SpecToken,
)
    requires
        tokens_match(tbl, es, ts),
        token_matches(tbl, e, t),
    ensures
        tokens_match(tbl, es.push(e), ts.push(t)),
{
    assert forall|i: int| 0 <= i < es.len() + 1 implies token_matches(tbl, #[trigger] es.push(e)[i], ts.push(t)[i]) by {
        if i < es.len() {
            assert(es.push(e)[i] == es[i]);
            assert(ts.push(t)[i] == ts[i]);
        }
    }
}

/// The exec outcome `r`, with the scanner at `d` and the table `tbl`,
/// is the one that the spec outcome `o` describes.
spec fn step_matches(o: StepOutcome, r: Step, d: Cursor, tbl: Seq<Seq<char>>) -> bool {
    match o {
        StepOutcome::Lex(l, c) => r matches Step::Sym(x) && symbol_matches(tbl, x, l) && d == c,
        StepOutcome::Fail(e) => r == Step::Fail(e),
        StepOutcome::Stop => r is Stop,
    }
}

} // verus!
