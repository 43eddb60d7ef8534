//! Decimal (`{}`) and uppercase hexadecimal (`{:X}`) text of unsigned numbers, used in
//! messages and in the text forms of identifiers.
use vstd::prelude::*;
use vstd::string::*;

verus! {

/// The decimal digit character of `d` (below 10).
pub open spec fn decimal_digit(d: nat) -> char {
    (d + 48) as char
}

/// The decimal digits of `n`, without leading zeros (`0` for zero).
pub open spec fn decimal(n: nat) -> Seq<char>
    decreases n,
{
    if n < 10 {
        seq![decimal_digit(n)]
    } else {
        decimal(n / 10).push(decimal_digit(n % 10))
    }
}

/// `String::push`: appends the character.
#[verifier::external_body]
pub(crate) fn push_char(s: &mut String, c: char)
    ensures
        final(s)@ == old(s)@.push(c),
{
    s.push(c);
}

/// Appends the decimal digits of `n`.
pub fn push_decimal(s: &mut String, n: u64)
    ensures
        final(s)@ == old(s)@ + decimal(n as nat),
    decreases n,
{
    if n < 10 {
        push_char(s, ((n as u8) + 48) as char);
    } else {
        push_decimal(s, n / 10);
        push_char(s, (((n % 10) as u8) + 48) as char);
    }
}

/// A string made of the characters of `text`.
pub fn string_of(text: &str) -> (s: String)
    ensures
        s@ == text@,
{
    let mut s = String::new();
    s.append(text);
    s
}

/// The uppercase hexadecimal digit character of `d` (below 16).
pub open spec fn hex_digit(d: nat) -> char {
    if d < 10 {
        (d + 48) as char
    } else {
        (d + 55) as char
    }
}

/// The uppercase hexadecimal digits of `n`, without leading zeros (`0` for zero).
pub open spec fn hex_upper(n: nat) -> Seq<char>
    decreases n,
{
    if n < 16 {
        seq![hex_digit(n)]
    } else {
        hex_upper(n / 16).push(hex_digit(n % 16))
    }
}

/// Appends the uppercase hexadecimal digits of `n`.
pub fn push_hex_upper(s: &mut String, n: u64)
    ensures
        final(s)@ == old(s)@ + hex_upper(n as nat),
    decreases n,
{
    if n < 16 {
        let d = n as u8;
        let c = if d < 10 { (d + 48) as char } else { (d + 55) as char };
        push_char(s, c);
        assert(old(s)@.push(c) =~= old(s)@ + hex_upper(n as nat));
    } else {
        push_hex_upper(s, n / 16);
        let d = (n % 16) as u8;
        let c = if d < 10 { (d + 48) as char } else { (d + 55) as char };
        push_char(s, c);
        assert(old(s)@ + hex_upper((n / 16) as nat) + seq![c] =~= old(s)@ + hex_upper(n as nat));
    }
}

} // verus!
