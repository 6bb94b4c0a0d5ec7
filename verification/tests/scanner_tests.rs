use pineapple::interner::Interner;
use pineapple::scanner::{Scanner, Symbol, Token, ScanError};

fn scan(src: &str) -> (Result<Vec<Token>, ScanError>, Interner) {
    let mut interner = Interner::new();
    let mut scanner = Scanner::new(src);
    let r = scanner.tokenize(&mut interner);
    (r, interner)
}

#[test]
fn scans_arithmetic() {
    let (r, _) = scan("1 + 22 * 3");
    let toks = r.unwrap();
    let syms: Vec<Symbol> = toks.iter().map(|t| t.sym).collect();
    assert_eq!(
        syms,
        vec![
            Symbol::IntegerLiteral(1),
            Symbol::Plus,
            Symbol::IntegerLiteral(22),
            Symbol::Star,
            Symbol::IntegerLiteral(3),
            Symbol::Eof
        ]
    );
}
