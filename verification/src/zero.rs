//! Whether a numeric literal is zero.
//!
//! No binary fraction is built: the literal's digits decide, down to the
//! smallest magnitudes, which double precision rounds to zero.

use crate::chars;
use crate::chars::{find, from, upto, without_end, CharClass};
use crate::number;
use vstd::arithmetic::mul::*;
use vstd::arithmetic::power::*;
use vstd::prelude::*;

verus! {

/// A decimal literal without its sign: `mantissa * 10^scale`.
pub struct Literal {
    pub mantissa: nat,
    pub scale: int,
}

/// `s` without a sign at its start.
pub open spec fn unsigned_part(s: Seq<char>) -> Seq<char> {
    if s.len() > 0 && (s[0] == '+' || s[0] == '-') {
        s.skip(1)
    } else {
        s
    }
}

/// The exponent that `s` spells after the `e`: an optional sign and one or
/// more digits.
pub open spec fn exponent(s: Seq<char>) -> Option<int> {
    let ds = unsigned_part(s);
    if ds.len() == 0 || !number::all_digits(ds) {
        None
    } else if s[0] == '-' {
        Some(-(number::decimal(ds) as int))
    } else {
        Some(number::decimal(ds) as int)
    }
}

/// The literal that `s` spells: an optional sign; digits with an optional
/// point among, before or after them; an optional exponent.
pub open spec fn literal(s: Seq<char>) -> Option<Literal> {
    let body = unsigned_part(s);
    let whole = body.take(chars::first(body, CharClass::Digit, false) as int);
    let after = body.skip(whole.len() as int);
    let fraction = if after.len() > 0 && after[0] == '.' {
        after.skip(1).take(chars::first(after.skip(1), CharClass::Digit, false) as int)
    } else {
        Seq::empty()
    };
    let rest = if after.len() > 0 && after[0] == '.' {
        after.skip(1 + fraction.len() as int)
    } else {
        after
    };
    let ds = whole + fraction;
    if ds.len() == 0 {
        None
    } else if rest.len() == 0 {
        Some(Literal { mantissa: number::decimal(ds), scale: -(fraction.len() as int) })
    } else if rest[0] == 'e' || rest[0] == 'E' {
        match exponent(rest.skip(1)) {
            Some(e) => Some(Literal { mantissa: number::decimal(ds), scale: e - fraction.len() }),
            None => None,
        }
    } else {
        None
    }
}

/// Whether the nearest double to the literal is zero: the literal is zero, or
/// at most half the smallest positive double, `2^-1075`.
pub open spec fn rounds_to_zero(l: Literal) -> bool {
    l.mantissa == 0 || (l.scale < 0 && l.mantissa * pow(2, 1075) <= pow(10, (-l.scale) as nat))
}

/// Whether a CSS numeric value is zero, with or without a trailing unit;
/// `None` when it is not a plain number.
pub open spec fn zero(value: Seq<char>) -> Option<bool> {
    match literal(chars::trim_end_of(value, CharClass::Unit)) {
        Some(l) => Some(rounds_to_zero(l)),
        None => None,
    }
}

// ---------------------------------------------------------------------------
// Bounds on powers

proof fn lemma_pow_base(a: int, b: int, n: nat)
    requires
        0 <= a <= b,
    ensures
        0 <= pow(a, n) <= pow(b, n),
    decreases n,
{
    reveal(pow);
    if n > 0 {
        lemma_pow_base(a, b, (n - 1) as nat);
        lemma_mul_upper_bound(a, b, pow(a, (n - 1) as nat), pow(b, (n - 1) as nat));
        lemma_mul_nonnegative(a, pow(a, (n - 1) as nat));
    }
}

proof fn lemma_pow_1075()
    ensures
        pow(10, 268) < pow(2, 1075) <= pow(10, 359),
{
    reveal(pow);
    reveal_with_fuel(pow, 5);
    assert(pow(2, 3) == 8);
    assert(pow(2, 4) == 16);
    // From below: 2^1072 is 16^268.
    lemma_pow_multiplies(2, 4, 268);
    lemma_pow_base(10, 16, 268);
    lemma_pow_adds(2, 1072, 3);
    lemma_pow_positive(10, 268);
    assert(pow(2, 1075) == pow(2, 1072) * 8);
    // From above: 2^1077 is 8^359.
    lemma_pow_multiplies(2, 3, 359);
    lemma_pow_base(8, 10, 359);
    lemma_pow_increases(2, 1075, 1077);
}

/// A mantissa of at most `n` digits, scaled far down, rounds to zero.
proof fn lemma_tiny(m: nat, n: nat, y: nat)
    requires
        m < pow(10, n),
        y >= n + 359,
    ensures
        m * pow(2, 1075) <= pow(10, y),
{
    lemma_pow_1075();
    lemma_pow_positive(2, 1075);
    lemma_mul_upper_bound(m as int, pow(10, n), pow(2, 1075), pow(10, 359));
    lemma_pow_adds(10, n, 359);
    lemma_pow_increases(10, n + 359, y);
}

/// A mantissa of `n` digits that is not scaled far down does not.
proof fn lemma_not_tiny(m: nat, n: nat, y: nat)
    requires
        n > 0,
        m >= pow(10, (n - 1) as nat),
        y <= n + 267,
    ensures
        m * pow(2, 1075) > pow(10, y),
{
    lemma_pow_1075();
    lemma_pow_positive(10, (n - 1) as nat);
    lemma_pow_positive(2, 1075);
    lemma_pow_adds(10, (n - 1) as nat, 268);
    lemma_pow_increases(10, y, (n + 267) as nat);
    let a = pow(10, (n - 1) as nat);
    lemma_mul_strict_inequality(pow(10, 268), pow(2, 1075), a);
    lemma_mul_is_commutative(a, pow(10, 268));
    lemma_mul_is_commutative(a, pow(2, 1075));
    lemma_mul_inequality(a, m as int, pow(2, 1075));
}

// ---------------------------------------------------------------------------
// Digits as a number

/// What decimal digits, least significant first, add up to.
spec fn value(d: Seq<u8>) -> nat
    decreases d.len(),
{
    if d.len() == 0 {
        0
    } else {
        value(d.drop_last()) + (d.last() as nat) * (pow(10, (d.len() - 1) as nat) as nat)
    }
}

spec fn each_digit(d: Seq<u8>) -> bool {
    forall|i: int| 0 <= i < d.len() ==> #[trigger] d[i] < 10
}

proof fn lemma_value_bound(d: Seq<u8>)
    requires
        each_digit(d),
    ensures
        value(d) < pow(10, d.len()),
    decreases d.len(),
{
    lemma_pow_positive(10, d.len());
    if d.len() > 0 {
        let p = pow(10, (d.len() - 1) as nat);
        lemma_value_bound(d.drop_last());
        lemma_pow_adds(10, (d.len() - 1) as nat, 1);
        lemma_pow1(10);
        lemma_pow_positive(10, (d.len() - 1) as nat);
        lemma_mul_inequality(d.last() as int, 9, p);
    }
}

proof fn lemma_value_top(d: Seq<u8>)
    requires
        d.len() > 0,
    ensures
        value(d) >= d.last() * pow(10, (d.len() - 1) as nat),
{
    lemma_pow_positive(10, (d.len() - 1) as nat);
}

proof fn lemma_value_zeros(d: Seq<u8>)
    requires
        forall|i: int| 0 <= i < d.len() ==> #[trigger] d[i] == 0,
    ensures
        value(d) == 0,
    decreases d.len(),
{
    if d.len() > 0 {
        lemma_value_zeros(d.drop_last());
    }
}

proof fn lemma_value_zero(d: Seq<u8>, i: int)
    requires
        value(d) == 0,
        0 <= i < d.len(),
    ensures
        d[i] == 0,
    decreases d.len(),
{
    lemma_pow_positive(10, (d.len() - 1) as nat);
    let p = pow(10, (d.len() - 1) as nat);
    if d.last() > 0 {
        lemma_mul_inequality(1, d.last() as int, p);
    }
    if i < d.len() - 1 {
        lemma_value_zero(d.drop_last(), i);
    }
}

/// The first digit of `s` weighs `10^(len - 1)`.
proof fn lemma_decimal_front(s: Seq<char>)
    requires
        s.len() > 0,
    ensures
        number::decimal(s) == chars::digit_value(s[0]) * pow(10, (s.len() - 1) as nat)
            + number::decimal(s.skip(1)),
    decreases s.len(),
{
    let t = s.skip(1);
    if s.len() == 1 {
        assert(s.drop_last() =~= Seq::<char>::empty());
        assert(t =~= Seq::<char>::empty());
        lemma_pow0(10);
        assert(number::decimal(s.drop_last()) == 0);
        assert(chars::digit_value(s[0]) * pow(10, 0) == chars::digit_value(s[0])) by {
            lemma_mul_basics(chars::digit_value(s[0]) as int);
        }
    } else {
        lemma_decimal_front(s.drop_last());
        assert(s.drop_last().skip(1) =~= t.drop_last());
        let v = chars::digit_value(s[0]) as int;
        let p = pow(10, (s.len() - 2) as nat);
        lemma_pow_adds(10, (s.len() - 2) as nat, 1);
        lemma_pow1(10);
        assert(10 * (v * p) == v * (p * 10)) by (nonlinear_arith);
    }
}

/// A slice of digits, least significant first.
fn reversed(s: &[char]) -> (r: Vec<u8>)
    requires
        number::all_digits(s@),
    ensures
        each_digit(r@),
        r@.len() == s@.len(),
        value(r@) == number::decimal(s@),
        s@.len() > 0 ==> r@.last() == chars::digit_value(s@[0]),
{
    let mut out: Vec<u8> = Vec::new();
    let mut i: usize = s.len();
    assert(s@.skip(i as int) =~= Seq::<char>::empty());
    while i > 0
        invariant
            i <= s@.len(),
            number::all_digits(s@),
            each_digit(out@),
            out@.len() == s@.len() - i,
            value(out@) == number::decimal(s@.skip(i as int)),
            i < s@.len() ==> out@.last() == chars::digit_value(s@[i as int]),
        decreases i,
    {
        i -= 1;
        let c: char = s[i];
        assert(chars::digit(s@[i as int]));
        let d: u8 = (c as u32 - '0' as u32) as u8;
        let ghost before = out@;
        out.push(d);
        proof {
            assert(out@.drop_last() =~= before);
            assert(s@.skip(i as int).skip(1) =~= s@.skip(i + 1));
            lemma_decimal_front(s@.skip(i as int));
            lemma_pow_positive(10, before.len());
            assert(pow(10, before.len()) as nat == pow(10, before.len()));
        }
    }
    assert(s@.skip(0) =~= s@);
    out
}

/// Twice the number, digit by digit.
fn double(d: &mut Vec<u8>)
    requires
        each_digit(old(d)@),
        old(d)@.len() > 0,
        old(d)@.last() > 0,
    ensures
        each_digit(final(d)@),
        final(d)@.len() > 0,
        final(d)@.last() > 0,
        value(final(d)@) == 2 * value(old(d)@),
{
    let ghost was = d@;
    let n: usize = d.len();
    let mut carry: u8 = 0;
    let mut i: usize = 0;
    proof {
        assert(d@.take(0) =~= Seq::<u8>::empty());
        lemma_pow0(10);
    }
    while i < n
        invariant
            n == was.len(),
            d@.len() == n,
            i <= n,
            carry <= 1,
            each_digit(was),
            each_digit(d@),
            was.len() > 0,
            was.last() > 0,
            forall|j: int| i <= j < n ==> d@[j] == was[j],
            value(d@.take(i as int)) + carry * pow(10, i as nat) == 2 * value(was.take(i as int)),
            i == n ==> carry == 1 || d@.last() > 0,
        decreases n - i,
    {
        let t: u8 = 2 * d[i] + carry;
        let ghost before = d@;
        let ghost c0 = carry as int;
        d[i] = t % 10;
        carry = t / 10;
        proof {
            let p = pow(10, i as nat);
            lemma_pow_positive(10, i as nat);
            lemma_pow_adds(10, i as nat, 1);
            lemma_pow1(10);
            assert(d@.take(i + 1).drop_last() =~= before.take(i as int));
            assert(was.take(i + 1).drop_last() =~= was.take(i as int));
            assert(d@.take(i + 1).last() == t % 10);
            assert(was.take(i + 1).last() == was[i as int]);
            let x = was[i as int] as int;
            assert((t % 10) * p + (t / 10) * (p * 10) == (2 * x + c0) * p) by (nonlinear_arith)
                requires
                    (t % 10) + 10 * (t / 10) == 2 * x + c0,
            ;
            assert((2 * x + c0) * p == 2 * (x * p) + c0 * p) by (nonlinear_arith);
        }
        i += 1;
    }
    assert(d@.take(n as int) =~= d@);
    assert(was.take(n as int) =~= was);
    if carry == 1 {
        let ghost before = d@;
        d.push(1);
        proof {
            assert(d@.drop_last() =~= before);
            lemma_pow_positive(10, n as nat);
        }
    }
}

/// Whether the digits spell at most `10^y`.
fn at_most_power(d: &Vec<u8>, y: i128) -> (r: bool)
    requires
        y >= 0,
        each_digit(d@),
        d@.len() > 0,
        d@.last() > 0,
    ensures
        r == (value(d@) <= pow(10, y as nat)),
{
    let n: usize = d.len();
    proof {
        lemma_value_bound(d@);
        lemma_value_top(d@);
        lemma_pow_positive(10, (n - 1) as nat);
        lemma_mul_inequality(1, d@.last() as int, pow(10, (n - 1) as nat));
    }
    if n as i128 <= y {
        proof {
            lemma_pow_increases(10, n as nat, y as nat);
        }
        return true;
    }
    if n as i128 - 1 > y {
        proof {
            lemma_pow_strictly_increases(10, y as nat, (n - 1) as nat);
        }
        return false;
    }
    let ghost p = pow(10, y as nat);
    let ghost low = d@.drop_last();
    assert(value(d@) == value(low) + d@.last() * p);
    if d[n - 1] != 1 {
        proof {
            lemma_mul_inequality(2, d@.last() as int, p);
        }
        return false;
    }
    let mut i: usize = 0;
    while i < n - 1
        invariant
            n == d@.len(),
            n > 0,
            i <= n - 1,
            low == d@.drop_last(),
            p == pow(10, y as nat),
            value(d@) == value(low) + p,
            forall|j: int| 0 <= j < i ==> d@[j] == 0,
        decreases n - i,
    {
        if d[i] != 0 {
            proof {
                if value(low) == 0 {
                    lemma_value_zero(low, i as int);
                }
            }
            return false;
        }
        i += 1;
    }
    proof {
        lemma_value_zeros(low);
    }
    true
}

// ---------------------------------------------------------------------------
// Deciding

/// Where exponents stop being told apart: beyond any literal's length.
const EXPONENT_CAP: i128 = 1_000_000_000_000_000_000_000_000_000_000;

/// The digits of `s` as a number, no larger than the cap.
fn capped(s: &[char]) -> (r: i128)
    requires
        number::all_digits(s@),
    ensures
        r == if number::decimal(s@) < EXPONENT_CAP {
            number::decimal(s@) as int
        } else {
            EXPONENT_CAP as int
        },
{
    let mut v: i128 = 0;
    let mut i: usize = 0;
    while i < s.len()
        invariant
            i <= s@.len(),
            number::all_digits(s@),
            0 <= v <= EXPONENT_CAP,
            v == if number::decimal(s@.take(i as int)) < EXPONENT_CAP {
                number::decimal(s@.take(i as int)) as int
            } else {
                EXPONENT_CAP as int
            },
        decreases s@.len() - i,
    {
        assert(s@.take(i + 1).drop_last() =~= s@.take(i as int));
        assert(chars::digit(s@[i as int]));
        let d: i128 = (s[i] as u32 - '0' as u32) as i128;
        v = v * 10 + d;
        if v > EXPONENT_CAP {
            v = EXPONENT_CAP;
        }
        i += 1;
    }
    assert(s@.take(i as int) =~= s@);
    v
}

/// Zeros in front do not change what digits spell.
proof fn lemma_leading_zeros(s: Seq<char>, k: int)
    requires
        0 <= k <= s.len(),
        forall|i: int| 0 <= i < k ==> s[i] == '0',
    ensures
        number::decimal(s.skip(k)) == number::decimal(s),
    decreases k,
{
    if k > 0 {
        lemma_leading_zeros(s, k - 1);
        let t = s.skip(k - 1);
        lemma_decimal_front(t);
        assert(t[0] == '0');
        lemma_mul_basics(pow(10, (t.len() - 1) as nat));
        assert(t.skip(1) =~= s.skip(k));
    } else {
        assert(s.skip(0) =~= s);
    }
}

/// Whether `10^-y` times the digits is at most `2^-1075`, for digits that do
/// not start with a zero.
fn tiny(ds: &[char], y: i128) -> (r: bool)
    requires
        number::all_digits(ds@),
        ds@.len() > 0,
        ds@[0] != '0',
    ensures
        r == (y > 0 && number::decimal(ds@) * pow(2, 1075) <= pow(10, y as nat)),
{
    let n: i128 = ds.len() as i128;
    let ghost m = number::decimal(ds@);
    let mut d: Vec<u8> = reversed(ds);
    proof {
        assert(chars::digit(ds@[0]));
        lemma_value_bound(d@);
        lemma_value_top(d@);
        lemma_pow_positive(10, (n - 1) as nat);
        lemma_mul_inequality(1, d@.last() as int, pow(10, (n - 1) as nat));
    }
    if y <= n + 267 {
        proof {
            if y > 0 {
                lemma_not_tiny(m, n as nat, y as nat);
            }
        }
        return false;
    }
    if y >= n + 359 {
        proof {
            lemma_tiny(m, n as nat, y as nat);
        }
        return true;
    }
    let mut k: usize = 0;
    proof {
        lemma_pow0(2);
    }
    while k < 1075
        invariant
            k <= 1075,
            each_digit(d@),
            d@.len() > 0,
            d@.last() > 0,
            value(d@) == m * pow(2, k as nat),
        decreases 1075 - k,
    {
        double(&mut d);
        proof {
            lemma_pow_adds(2, k as nat, 1);
            lemma_pow1(2);
            lemma_mul_is_associative(m as int, pow(2, k as nat), 2);
        }
        k += 1;
    }
    at_most_power(&d, y)
}

/// Whether the digits times `10^scale` round to zero, for a scale of
/// `exponent` (negated when `negative`) less `places`.
fn vanishes(ds: &[char], negative: bool, exponent: &[char], places: usize) -> (r: bool)
    requires
        number::all_digits(ds@),
        number::all_digits(exponent@),
    ensures
        r == rounds_to_zero(
            Literal {
                mantissa: number::decimal(ds@),
                scale: if negative {
                    -(number::decimal(exponent@) as int) - places
                } else {
                    number::decimal(exponent@) - places
                },
            },
        ),
{
    let k: usize = find(ds, CharClass::Only('0'), false);
    let significant: &[char] = from(ds, k);
    proof {
        chars::lemma_first_is(ds@, CharClass::Only('0'), false);
        lemma_leading_zeros(ds@, k as int);
    }
    if significant.len() == 0 {
        return true;
    }
    let e: i128 = capped(exponent);
    let scale: i128 = if negative {
        0 - e - places as i128
    } else {
        e - places as i128
    };
    proof {
        let true_scale = if negative {
            -(number::decimal(exponent@) as int) - places
        } else {
            number::decimal(exponent@) - places
        };
        let m = number::decimal(significant@);
        assert(m > 0) by {
            lemma_decimal_front(significant@);
            assert(chars::digit(ds@[k as int]));
            lemma_pow_positive(10, (significant@.len() - 1) as nat);
            lemma_mul_strictly_positive(
                chars::digit_value(significant@[0]) as int,
                pow(10, (significant@.len() - 1) as nat),
            );
        }
        if scale != true_scale {
            let n = significant@.len();
            if negative {
                assert(number::all_digits(significant@));
                assert(m < pow(10, n)) by {
                    lemma_decimal_bound(significant@);
                }
                lemma_tiny(m, n, (-true_scale) as nat);
                lemma_tiny(m, n, (-scale) as nat);
            }
        }
    }
    tiny(significant, 0 - scale)
}

proof fn lemma_decimal_bound(s: Seq<char>)
    requires
        number::all_digits(s),
    ensures
        number::decimal(s) < pow(10, s.len()),
    decreases s.len(),
{
    lemma_pow_positive(10, s.len());
    if s.len() > 0 {
        lemma_decimal_bound(s.drop_last());
        lemma_pow_adds(10, (s.len() - 1) as nat, 1);
        lemma_pow1(10);
    }
}

/// Whether a CSS numeric value - with or without a trailing unit (`px`, `em`,
/// `pt`, `%`) - is zero, or `None` when it is not a plain number at all (a
/// keyword like `inherit`, which leaves the corresponding hiding trigger
/// untouched). A number other than zero is `Some(false)`, so that it can
/// cancel a declaration of the same property that hid via zero.
pub fn numeric_is_zero(value: &[char]) -> (r: Option<bool>)
    ensures
        r == zero(value@),
{
    let s: &[char] = without_end(value, CharClass::Unit);
    let body: &[char] = if s.len() > 0 && (s[0] == '+' || s[0] == '-') {
        from(s, 1)
    } else {
        s
    };
    let n: usize = find(body, CharClass::Digit, false);
    let whole: &[char] = upto(body, n);
    let after: &[char] = from(body, n);
    let empty: Vec<char> = Vec::new();
    let mut fraction: &[char] = &empty;
    let mut rest: &[char] = after;
    proof {
        chars::lemma_first_is(body@, CharClass::Digit, false);
        assert(number::all_digits(empty@));
    }
    if after.len() > 0 && after[0] == '.' {
        let tail: &[char] = from(after, 1);
        let m: usize = find(tail, CharClass::Digit, false);
        fraction = upto(tail, m);
        rest = from(tail, m);
        proof {
            chars::lemma_first_is(tail@, CharClass::Digit, false);
            assert(rest@ =~= after@.skip(1 + m as int));
        }
    }
    let mut ds: Vec<char> = vstd::slice::slice_to_vec(whole);
    let mut more: Vec<char> = vstd::slice::slice_to_vec(fraction);
    ds.append(&mut more);
    proof {
        assert(ds@ =~= whole@ + fraction@);
        assert forall|i: int| 0 <= i < ds@.len() implies chars::digit(#[trigger] ds@[i]) by {
            if i < whole@.len() {
                assert(whole@[i] == body@[i]);
            } else {
                assert(ds@[i] == fraction@[i - whole@.len()]);
            }
        }
        assert(fraction@ =~= if after@.len() > 0 && after@[0] == '.' {
            after@.skip(1).take(chars::first(after@.skip(1), CharClass::Digit, false) as int)
        } else {
            Seq::empty()
        });
    }
    if ds.len() == 0 {
        return None;
    }
    let places: usize = fraction.len();
    if rest.len() == 0 {
        proof {
            assert(number::decimal(empty@) == 0);
        }
        return Some(vanishes(&ds, false, &empty, places));
    }
    if rest[0] != 'e' && rest[0] != 'E' {
        return None;
    }
    let spelled: &[char] = from(rest, 1);
    let negative: bool = spelled.len() > 0 && spelled[0] == '-';
    let exponent_digits: &[char] = if spelled.len() > 0 && (spelled[0] == '+' || spelled[0] == '-') {
        from(spelled, 1)
    } else {
        spelled
    };
    let k: usize = find(exponent_digits, CharClass::Digit, false);
    proof {
        chars::lemma_first_is(exponent_digits@, CharClass::Digit, false);
    }
    if exponent_digits.len() == 0 || k < exponent_digits.len() {
        assert(k < exponent_digits@.len() ==> !chars::digit(exponent_digits@[k as int]));
        return None;
    }
    Some(vanishes(&ds, negative, exponent_digits, places))
}

} // verus!
