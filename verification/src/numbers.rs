//! Parsing of unsigned integers, decimals and lengths.
use vstd::prelude::*;
use crate::ast::Decimal;
use crate::lexical::{first_index, has_suffix, trim, ends_with, find_first, slice_vec, trimmed};

verus! {

/// Whether `c` is an ASCII decimal digit.
pub open spec fn is_digit(c: char) -> bool {
    48 <= (c as u32) <= 57
}

/// The value of a decimal digit.
pub open spec fn digit_value(c: char) -> nat {
    ((c as u32) - 48) as nat
}

/// Whether every character of `cs` is a digit.
pub open spec fn all_digits(cs: Seq<char>) -> bool {
    forall|i: int| 0 <= i < cs.len() ==> is_digit(#[trigger] cs[i])
}

/// The number that a string of digits spells (0 for the empty string).
pub open spec fn digits_value(cs: Seq<char>) -> nat
    decreases cs.len(),
{
    if cs.len() == 0 {
        0
    } else {
        digits_value(cs.drop_last()) * 10 + digit_value(cs.last())
    }
}

/// `cs` without one leading `+`.
pub open spec fn unsigned_body(cs: Seq<char>) -> Seq<char> {
    if cs.len() > 0 && cs[0] == '+' {
        cs.drop_first()
    } else {
        cs
    }
}

/// An unsigned integer in the form `str::parse` accepts: an optional `+`
/// and one or more digits, with a value of at most `max`.
pub open spec fn parse_uint_spec(cs: Seq<char>, max: nat) -> Option<nat> {
    let body = unsigned_body(cs);
    if body.len() > 0 && all_digits(body) && digits_value(body) <= max {
        Some(digits_value(body))
    } else {
        None
    }
}

proof fn lemma_digits_value_prefix(cs: Seq<char>, i: int)
    requires
        0 <= i <= cs.len(),
        all_digits(cs),
    ensures
        digits_value(cs.take(i)) <= digits_value(cs),
    decreases cs.len() - i,
{
    if i < cs.len() {
        lemma_digits_value_prefix(cs, i + 1);
        assert(cs.take(i + 1).drop_last() =~= cs.take(i));
    } else {
        assert(cs.take(i) =~= cs);
    }
}

proof fn lemma_digits_step(cs: Seq<char>, i: int)
    requires
        0 <= i < cs.len(),
    ensures
        digits_value(cs.take(i + 1)) == digits_value(cs.take(i)) * 10 + digit_value(cs[i]),
{
    assert(cs.take(i + 1).drop_last() =~= cs.take(i));
}

/// The value of the digits `cs`, if they are all digits and the value is
/// at most `max`.
fn digits_upto(cs: &[char], max: u64) -> (r: Option<u64>)
    ensures
        r == (if all_digits(cs@) && digits_value(cs@) <= max { Some(digits_value(cs@) as u64) } else { None::<u64> }),
{
    let mut v: u64 = 0;
    let mut i: usize = 0;
    while i < cs.len()
        invariant
            i <= cs@.len(),
            all_digits(cs@.take(i as int)),
            v == digits_value(cs@.take(i as int)),
            v <= max,
        decreases cs@.len() - i,
    {
        let c = cs[i];
        if !((c as u32) >= 48 && (c as u32) <= 57) {
            assert(!is_digit(cs@[i as int]));
            return None;
        }
        let d = ((c as u32) - 48) as u64;
        proof {
            lemma_digits_step(cs@, i as int);
            assert(cs@.take(i + 1) =~= cs@.take(i as int).push(c));
        }
        if d > max || v > (max - d) / 10 {
            proof {
                assert(v * 10 + d > max) by (nonlinear_arith)
                    requires d > max || v > (max - d) / 10, d <= 9;
                if all_digits(cs@) {
                    lemma_digits_value_prefix(cs@, i + 1);
                }
            }
            return None;
        }
        proof {
            assert(v * 10 + d <= max) by (nonlinear_arith)
                requires v <= (max - d) / 10, d <= max;
        }
        v = v * 10 + d;
        i = i + 1;
    }
    proof {
        assert(cs@.take(i as int) =~= cs@);
    }
    Some(v)
}

/// Parse an unsigned integer of at most `max` (see [`parse_uint_spec`]).
pub fn parse_uint(cs: &[char], max: u64) -> (r: Option<u64>)
    ensures
        r == (match parse_uint_spec(cs@, max as nat) { Some(v) => Some(v as u64), None => None::<u64> }),
{
    let start: usize = if cs.len() > 0 && cs[0] == '+' { 1 } else { 0 };
    let body = slice_vec(cs, start, cs.len());
    proof {
        assert(body@ =~= unsigned_body(cs@));
    }
    if body.len() == 0 {
        return None;
    }
    digits_upto(body.as_slice(), max)
}

/// The integer and fraction digits of a decimal: the text before and after
/// its first `.` (the whole text and nothing when there is none).
pub open spec fn decimal_parts(body: Seq<char>) -> (Seq<char>, Seq<char>) {
    match first_index(body, '.') {
        Some(p) => (body.take(p), body.skip(p + 1)),
        None => (body, seq![]),
    }
}

/// The first three fraction digits, padded with zeros, as thousandths.
pub open spec fn frac_milli(frac: Seq<char>) -> nat {
    digits_value((frac + seq!['0', '0', '0']).take(3))
}

/// A non-negative decimal number: an optional `+`, digits, and optionally
/// a `.` followed by digits, with at least one digit in all. The value is
/// truncated to thousandths and must fit in 64 bits.
pub open spec fn parse_decimal_spec(cs: Seq<char>) -> Option<Decimal> {
    let body = unsigned_body(cs);
    let (int_part, frac) = decimal_parts(body);
    if all_digits(int_part) && all_digits(frac) && int_part.len() + frac.len() > 0 {
        let m = digits_value(int_part) * 1000 + frac_milli(frac);
        if m <= u64::MAX {
            Some(Decimal { milli: m as u64 })
        } else {
            None
        }
    } else {
        None
    }
}

/// Parse a decimal number (see [`parse_decimal_spec`]).
pub fn parse_decimal(cs: &[char]) -> (r: Option<Decimal>)
    ensures
        r == parse_decimal_spec(cs@),
{
    let start: usize = if cs.len() > 0 && cs[0] == '+' { 1 } else { 0 };
    let body = slice_vec(cs, start, cs.len());
    proof {
        assert(body@ =~= unsigned_body(cs@));
    }
    let (int_part, frac) = match find_first(body.as_slice(), '.') {
        Some(p) => (slice_vec(body.as_slice(), 0, p), slice_vec(body.as_slice(), p + 1, body.len())),
        None => (slice_vec(body.as_slice(), 0, body.len()), Vec::new()),
    };
    proof {
        match first_index(body@, '.') {
            Some(p) => {
                assert(int_part@ =~= body@.take(p));
                assert(frac@ =~= body@.skip(p + 1));
            },
            None => {
                assert(int_part@ =~= body@);
                assert(frac@ =~= Seq::<char>::empty());
            },
        }
    }
    if int_part.len() + frac.len() == 0 {
        return None;
    }
    // Fraction: every character must be a digit; the first three count.
    let mut padded: Vec<char> = Vec::new();
    let mut i: usize = 0;
    while i < 3
        invariant
            i <= 3,
            padded@ == (frac@ + seq!['0', '0', '0']).take(i as int),
        decreases 3 - i,
    {
        if i < frac.len() {
            padded.push(frac[i]);
        } else {
            padded.push('0');
        }
        i = i + 1;
        assert(padded@ =~= (frac@ + seq!['0', '0', '0']).take(i as int));
    }
    if !all_digits_exec(frac.as_slice()) {
        return None;
    }
    let f = match digits_upto(padded.as_slice(), 999) {
        Some(f) => f,
        None => {
            proof {
                assert forall|k: int| 0 <= k < padded@.len() implies is_digit(#[trigger] padded@[k]) by {
                    if k < frac@.len() {
                        assert(padded@[k] == frac@[k]);
                    }
                }
                lemma_three_digits(padded@);
            }
            return None;
        },
    };
    let v = match digits_upto(int_part.as_slice(), 18446744073709551) {
        Some(v) => v,
        None => {
            proof {
                if all_digits(int_part@) {
                    assert(digits_value(int_part@) * 1000 + frac_milli(frac@) > u64::MAX) by (nonlinear_arith)
                        requires digits_value(int_part@) > 18446744073709551nat;
                }
            }
            return None;
        },
    };
    if v * 1000 > u64::MAX - f {
        return None;
    }
    Some(Decimal { milli: v * 1000 + f })
}

proof fn lemma_three_digits(cs: Seq<char>)
    requires
        cs.len() == 3,
        all_digits(cs),
    ensures
        digits_value(cs) <= 999,
{
    let a = cs.take(1);
    let b = cs.take(2);
    assert(a.drop_last() =~= Seq::<char>::empty());
    assert(b.drop_last() =~= a);
    assert(cs.drop_last() =~= b);
    assert(is_digit(cs[0]) && is_digit(cs[1]) && is_digit(cs[2]));
    assert(a.last() == cs[0] && b.last() == cs[1] && cs.last() == cs[2]);
    assert(digits_value(a.drop_last()) == 0);
    assert(digits_value(a) == digit_value(cs[0]));
    assert(digits_value(b) == digit_value(cs[0]) * 10 + digit_value(cs[1]));
}

/// Whether every character is a digit.
pub fn all_digits_exec(cs: &[char]) -> (r: bool)
    ensures
        r == all_digits(cs@),
{
    let mut i: usize = 0;
    while i < cs.len()
        invariant
            i <= cs@.len(),
            forall|j: int| 0 <= j < i ==> is_digit(cs@[j]),
        decreases cs@.len() - i,
    {
        if !((cs[i] as u32) >= 48 && (cs[i] as u32) <= 57) {
            return false;
        }
        i = i + 1;
    }
    true
}

} // verus!
