use vstd::prelude::*;

verus! {

/// What `char::is_numeric` answers for `c`: whether its Unicode general
/// category is one of the number categories (Nd, Nl, No).
pub uninterp spec fn is_numeric_char(c: char) -> bool;

/// What `char::is_alphabetic` answers for `c`: whether it has the Unicode
/// `Alphabetic` property.
pub uninterp spec fn is_alphabetic_char(c: char) -> bool;

/// Calls `char::is_numeric`. The contract claims that the answer is a
/// function of `c` (the Unicode tables of the standard library) and that,
/// among the ASCII characters, exactly the digits are numeric: they are in
/// category Nd, and ASCII has no other number characters.
#[verifier::external_body]
pub fn char_is_numeric(c: char) -> (r: bool)
    ensures
        r == is_numeric_char(c),
        '0' <= c <= '9' ==> r,
        c <= '\x7f' ==> (r <==> '0' <= c <= '9'),
{
    c.is_numeric()
}

/// Calls `char::is_alphabetic`. The contract claims that the answer is a
/// function of `c` and that, among the ASCII characters, exactly the
/// letters have the `Alphabetic` property.
#[verifier::external_body]
pub fn char_is_alphabetic(c: char) -> (r: bool)
    ensures
        r == is_alphabetic_char(c),
        ('a' <= c <= 'z' || 'A' <= c <= 'Z') ==> r,
        c <= '\x7f' ==> (r <==> ('a' <= c <= 'z' || 'A' <= c <= 'Z')),
{
    c.is_alphabetic()
}

/// Calls `char::is_alphanumeric`, which the standard library documents as
/// `is_alphabetic() || is_numeric()`.
#[verifier::external_body]
pub fn char_is_alphanumeric(c: char) -> (r: bool)
    ensures
        r == (is_alphabetic_char(c) || is_numeric_char(c)),
{
    c.is_alphanumeric()
}

/// Calls `FromIterator<char> for String` on the characters of `v`; the
/// documented result is the string made of those characters in order.
#[verifier::external_body]
pub fn string_from_chars(v: &Vec<char>) -> (r: String)
    ensures
        r@ == v@,
{
    v.iter().collect()
}

/// The characters of a string slice, in order.
pub fn chars_of(buf: &str) -> (r: Vec<char>)
    ensures
        r@ == buf@,
{
    let n = buf.unicode_len();
    let mut v: Vec<char> = Vec::new();
    let mut i: usize = 0;
    while i < n
        invariant
            n == buf@.len(),
            i <= n,
            v@ == buf@.subrange(0, i as int),
        decreases n - i,
    {
        v.push(buf.get_char(i));
        i = i + 1;
        assert(v@ =~= buf@.subrange(0, i as int));
    }
    assert(buf@.subrange(0, n as int) =~= buf@);
    v
}

/// Whether the characters of `v` are those of `lit`.
pub fn chars_equal(v: &Vec<char>, lit: &str) -> (r: bool)
    ensures
        r == (v@ == lit@),
{
    let n = lit.unicode_len();
    if v.len() != n {
        return false;
    }
    let mut i: usize = 0;
    while i < n
        invariant
            n == lit@.len(),
            n == v@.len(),
            i <= n,
            forall|k: int| 0 <= k < i ==> v@[k] == lit@[k],
        decreases n - i,
    {
        if v[i] != lit.get_char(i) {
            return false;
        }
        i = i + 1;
    }
    assert(v@ =~= lit@);
    true
}

} // verus!
