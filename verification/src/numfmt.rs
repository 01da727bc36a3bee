//! Decimal text of numbers.
use vstd::prelude::*;
use crate::ast::Decimal;

verus! {

/// The digit character of a value below 10.
pub open spec fn digit_char(d: int) -> char {
    (('0' as int) + d) as char
}

/// The decimal digits of a natural number, without leading zeros ("0"
/// for zero).
pub open spec fn nat_text(n: nat) -> Seq<char>
    decreases n,
{
    if n < 10 {
        seq![digit_char(n as int)]
    } else {
        nat_text(n / 10) + seq![digit_char((n % 10) as int)]
    }
}

/// The decimal text of a natural number (see [`nat_text`]).
pub fn u64_text(n: u64) -> (r: Vec<char>)
    ensures
        r@ == nat_text(n as nat),
    decreases n,
{
    if n < 10 {
        let mut v: Vec<char> = Vec::new();
        v.push(digit(n));
        v
    } else {
        let mut v = u64_text(n / 10);
        v.push(digit(n % 10));
        v
    }
}

fn digit(d: u64) -> (c: char)
    requires
        d < 10,
    ensures
        c == digit_char(d as int),
{
    match d {
        0 => '0',
        1 => '1',
        2 => '2',
        3 => '3',
        4 => '4',
        5 => '5',
        6 => '6',
        7 => '7',
        8 => '8',
        _ => '9',
    }
}

/// The digits of the fraction `f` thousandths (`0 < f < 1000`) without
/// trailing zeros.
pub open spec fn frac_text(f: int) -> Seq<char> {
    if f % 100 == 0 {
        seq![digit_char(f / 100)]
    } else if f % 10 == 0 {
        seq![digit_char(f / 100), digit_char((f / 10) % 10)]
    } else {
        seq![digit_char(f / 100), digit_char((f / 10) % 10), digit_char(f % 10)]
    }
}

/// The shortest decimal text of a decimal: its whole part, and a point and
/// the fraction without trailing zeros when it has one (`80`, `76.2`).
pub open spec fn decimal_text(d: Decimal) -> Seq<char> {
    let m = d.milli as int;
    if m % 1000 == 0 {
        nat_text((m / 1000) as nat)
    } else {
        nat_text((m / 1000) as nat) + seq!['.'] + frac_text(m % 1000)
    }
}

/// The shortest decimal text of a decimal (see [`decimal_text`]).
pub fn decimal_to_text(d: Decimal) -> (r: Vec<char>)
    ensures
        r@ == decimal_text(d),
{
    let m = d.milli;
    let mut v = u64_text(m / 1000);
    let f = m % 1000;
    if f != 0 {
        v.push('.');
        v.push(digit(f / 100));
        if f % 100 != 0 {
            v.push(digit((f / 10) % 10));
            if f % 10 != 0 {
                v.push(digit(f % 10));
            }
        }
    }
    v
}

/// A decimal with one digit after the point, rounded half to even
/// (`12.0`, `10.2` for 10.25).
pub open spec fn tenths_text(d: Decimal) -> Seq<char> {
    let m = d.milli as int;
    let q = m / 100;
    let r = m % 100;
    let t = if r > 50 || (r == 50 && q % 2 == 1) { q + 1 } else { q };
    nat_text((t / 10) as nat) + seq!['.', digit_char(t % 10)]
}

/// A decimal with one digit after the point (see [`tenths_text`]).
pub fn decimal_tenths(d: Decimal) -> (r: Vec<char>)
    ensures
        r@ == tenths_text(d),
{
    let m = d.milli;
    let q = m / 100;
    let r = m % 100;
    let t: u64 = if r > 50 || (r == 50 && q % 2 == 1) { q + 1 } else { q };
    let mut v = u64_text(t / 10);
    v.push('.');
    v.push(digit(t % 10));
    v
}

} // verus!
