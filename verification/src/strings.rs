//! Building the texts the library reports: decimal numbers and character-wise
//! string assembly.

use vstd::prelude::*;
use vstd::utf8::*;
use vstd::string::*;

verus! {

/// The character of a decimal digit.
pub open spec fn digit_char(d: nat) -> char {
    ((d + 48) as u8) as char
}

/// The decimal notation of a natural number, as `{}` formats it.
pub open spec fn decimal(n: nat) -> Seq<char>
    decreases n,
{
    if n < 10 {
        seq![digit_char(n)]
    } else {
        decimal(n / 10).push(digit_char(n % 10))
    }
}

/// Appends one character to a string (`String::push`).
#[verifier::external_body]
pub fn push_char(s: &mut String, c: char)
    ensures
        final(s)@ == old(s)@.push(c),
{
    s.push(c);
}

/// The part of `s` between byte positions `from` and `to` (`str::get` with a
/// range): none unless `from <= to` and both positions are character boundaries
/// of the UTF-8 encoding (which also keeps them within the text).
#[verifier::external_body]
pub fn str_get(s: &str, from: usize, to: usize) -> (r: Option<&str>)
    ensures
        r is Some <==> (from <= to && is_char_boundary(s.spec_bytes(), from as int)
            && is_char_boundary(s.spec_bytes(), to as int)),
        r matches Some(t) ==> t.spec_bytes() == s.spec_bytes().subrange(from as int, to as int),
{
    s.get(from..to)
}

/// Compares two string slices (`==` on `str`).
#[verifier::external_body]
pub fn str_eq(a: &str, b: &str) -> (r: bool)
    ensures
        r == (a@ == b@),
{
    a == b
}

/// The characters of a string slice, in order.
pub fn chars_of(s: &str) -> (v: Vec<char>)
    ensures
        v@ == s@,
{
    let mut v: Vec<char> = Vec::new();
    for c in it: s.chars()
        invariant
            v@ == it.seq().take(it.index()),
    {
        v.push(c);
        assert(v@ == it.seq().take(it.index() + 1));
    }
    v
}

/// Formats `n` in decimal.
pub fn decimal_string(n: usize) -> (r: String)
    ensures
        r@ == decimal(n as nat),
    decreases n,
{
    let d: u8 = (n % 10) as u8;
    let c: char = (d + 48u8) as char;
    if n < 10 {
        let mut s = String::new();
        push_char(&mut s, c);
        s
    } else {
        let mut s = decimal_string(n / 10);
        push_char(&mut s, c);
        s
    }
}

} // verus!
