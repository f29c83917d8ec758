//! Decimal numbers as documents spell them, read exactly as far as their
//! target range allows.

use crate::chars;
use crate::chars::{from, CharClass};
use vstd::prelude::*;

verus! {

/// Whether `s` holds decimal digits only.
pub open spec fn all_digits(s: Seq<char>) -> bool {
    forall|i: int| 0 <= i < s.len() ==> chars::digit(#[trigger] s[i])
}

/// The number that the digits of `s` spell.
pub open spec fn decimal(s: Seq<char>) -> nat
    decreases s.len(),
{
    if s.len() == 0 {
        0
    } else {
        10 * decimal(s.drop_last()) + chars::digit_value(s.last())
    }
}

/// The digits of `s` as a number, when `s` is one or more digits that spell
/// at most `max`.
pub open spec fn magnitude(s: Seq<char>, max: nat) -> Option<nat> {
    if s.len() > 0 && all_digits(s) && decimal(s) <= max {
        Some(decimal(s))
    } else {
        None
    }
}

/// An unsigned integer: an optional `+`, then digits.
pub open spec fn unsigned(s: Seq<char>, max: nat) -> Option<nat> {
    if s.len() > 0 && s[0] == '+' {
        magnitude(s.skip(1), max)
    } else {
        magnitude(s, max)
    }
}

/// A signed 64-bit integer: an optional sign, then digits.
pub open spec fn signed(s: Seq<char>) -> Option<int> {
    if s.len() > 0 && s[0] == '-' {
        match magnitude(s.skip(1), 0x8000_0000_0000_0000) {
            Some(m) => Some(-(m as int)),
            None => None,
        }
    } else {
        match unsigned(s, 0x7fff_ffff_ffff_ffff) {
            Some(m) => Some(m as int),
            None => None,
        }
    }
}

/// Leading digits never spell more than the whole.
proof fn lemma_decimal_prefix(s: Seq<char>, k: int)
    requires
        0 <= k <= s.len(),
        all_digits(s),
    ensures
        decimal(s.take(k)) <= decimal(s),
    decreases s.len() - k,
{
    if k < s.len() {
        assert(s.take(k + 1).drop_last() =~= s.take(k));
        lemma_decimal_prefix(s, k + 1);
    } else {
        assert(s.take(k) =~= s);
    }
}

/// The digits of `s` as a number, when `s` is one or more digits that spell
/// at most `max`.
pub fn parse_magnitude(s: &[char], max: u64) -> (r: Option<u64>)
    ensures
        match r {
            Some(v) => magnitude(s@, max as nat) == Some(v as nat),
            None => magnitude(s@, max as nat) is None,
        },
{
    if s.len() == 0 {
        return None;
    }
    let mut v: u64 = 0;
    let mut i: usize = 0;
    while i < s.len()
        invariant
            i <= s@.len(),
            v <= max,
            all_digits(s@.take(i as int)),
            v == decimal(s@.take(i as int)),
        decreases s@.len() - i,
    {
        let c: char = s[i];
        if !CharClass::Digit.matches(c) {
            assert(!chars::digit(s@[i as int]));
            return None;
        }
        let d: u64 = (c as u32 - '0' as u32) as u64;
        let ghost next = s@.take(i + 1);
        proof {
            assert(next.drop_last() =~= s@.take(i as int));
            assert forall|j: int| 0 <= j < next.len() implies chars::digit(#[trigger] next[j]) by {
                if j < i {
                    assert(next[j] == s@.take(i as int)[j]);
                }
            }
            if all_digits(s@) {
                lemma_decimal_prefix(s@, i + 1);
            }
        }
        if v as u128 * 10 + d as u128 > max as u128 {
            return None;
        }
        v = v * 10 + d;
        i += 1;
    }
    assert(s@.take(i as int) =~= s@);
    Some(v)
}

/// An unsigned 32-bit integer, with an optional `+` before its digits.
pub fn parse_u32(s: &[char]) -> (r: Option<u32>)
    ensures
        match r {
            Some(v) => unsigned(s@, u32::MAX as nat) == Some(v as nat),
            None => unsigned(s@, u32::MAX as nat) is None,
        },
{
    let digits: &[char] = if s.len() > 0 && s[0] == '+' {
        from(s, 1)
    } else {
        s
    };
    match parse_magnitude(digits, u32::MAX as u64) {
        Some(v) => Some(v as u32),
        None => None,
    }
}

/// A signed 64-bit integer, with an optional sign before its digits.
pub fn parse_i64(s: &[char]) -> (r: Option<i64>)
    ensures
        match r {
            Some(v) => signed(s@) == Some(v as int),
            None => signed(s@) is None,
        },
{
    if s.len() > 0 && s[0] == '-' {
        match parse_magnitude(from(s, 1), 0x8000_0000_0000_0000) {
            Some(v) => Some((0 - v as i128) as i64),
            None => None,
        }
    } else {
        let digits: &[char] = if s.len() > 0 && s[0] == '+' {
            from(s, 1)
        } else {
            s
        };
        match parse_magnitude(digits, 0x7fff_ffff_ffff_ffff) {
            Some(v) => Some(v as i64),
            None => None,
        }
    }
}

/// The decimal digits of `n`, most significant first.
pub open spec fn digits_of(n: nat) -> Seq<char>
    decreases n,
{
    let last = (('0' as u32 + n % 10) as u32) as char;
    if n < 10 {
        seq![last]
    } else {
        digits_of(n / 10).push(last)
    }
}

/// The decimal spelling of `n`, with a `-` before a negative one.
pub open spec fn spelled(n: int) -> Seq<char> {
    if n < 0 {
        seq!['-'] + digits_of((-n) as nat)
    } else {
        digits_of(n as nat)
    }
}

/// The decimal digits of `n`, most significant first.
fn digits(n: u64) -> (r: Vec<char>)
    ensures
        r@ == digits_of(n as nat),
    decreases n,
{
    let last: char = (48u8 + (n % 10) as u8) as char;
    if n < 10 {
        let mut out: Vec<char> = Vec::new();
        out.push(last);
        out
    } else {
        let mut out: Vec<char> = digits(n / 10);
        out.push(last);
        out
    }
}

/// The decimal spelling of `n`, with a `-` before a negative one.
pub fn spell(n: i64) -> (r: Vec<char>)
    ensures
        r@ == spelled(n as int),
{
    if n < 0 {
        let mut ds: Vec<char> = digits((0 - n as i128) as u64);
        let mut out: Vec<char> = Vec::new();
        out.push('-');
        out.append(&mut ds);
        assert(out@ =~= spelled(n as int));
        out
    } else {
        digits(n as u64)
    }
}

} // verus!
