//! What numbers promise: reading gives back what was written, and only digits
//! make a number.

use crate::chars;
use crate::chars::CharClass;
use crate::number;
use crate::zero;
use crate::zero::Literal;
use vstd::arithmetic::mul::*;
use vstd::arithmetic::power::*;
use vstd::prelude::*;

verus! {

// ---------------------------------------------------------------------------
// Integers

/// The digits of a number spell it, without a needless zero in front.
pub proof fn law_digits_spell_the_number(n: nat)
    ensures
        number::digits_of(n).len() > 0,
        number::all_digits(number::digits_of(n)),
        number::decimal(number::digits_of(n)) == n,
        n > 0 ==> number::digits_of(n)[0] != '0',
        n == 0 ==> number::digits_of(n) == seq!['0'],
    decreases n,
{
    let last = (('0' as u32 + n % 10) as u32) as char;
    let s = number::digits_of(n);
    assert(chars::digit(last));
    assert(chars::digit_value(last) == n % 10);
    if n < 10 {
        assert(s.drop_last() =~= Seq::empty());
        assert(number::decimal(s.drop_last()) == 0);
        assert(s.last() == last);
    } else {
        law_digits_spell_the_number(n / 10);
        let before = number::digits_of(n / 10);
        assert(s.drop_last() =~= before);
        assert(s[0] == before[0]);
        assert(n == 10 * (n / 10) + n % 10);
    }
}

/// Reading a number that was spelled out gives it back, signed or not.
pub proof fn law_reading_gives_back_the_number(n: int)
    ensures
        i64::MIN <= n <= i64::MAX ==> number::signed(number::spelled(n)) == Some(n),
        n < i64::MIN || i64::MAX < n ==> number::signed(number::spelled(n)) is None,
        n < 0 || u32::MAX < n ==> number::unsigned(number::spelled(n), u32::MAX as nat) is None,
        0 <= n <= u32::MAX ==> number::unsigned(number::spelled(n), u32::MAX as nat) == Some(
            n as nat,
        ),
{
    let m = if n < 0 {
        (-n) as nat
    } else {
        n as nat
    };
    law_digits_spell_the_number(m);
    let ds = number::digits_of(m);
    assert(chars::digit(ds[0]));
    if n < 0 {
        let s = number::spelled(n);
        assert(s[0] == '-');
        assert(s.skip(1) =~= ds);
        assert(!chars::digit(s[0]));
    }
}

/// A number is one or more digits; a `+` may stand before them, and where
/// numbers may be negative a `-`. Anything else is no number.
pub proof fn law_only_digits_make_a_number(s: Seq<char>, max: nat)
    ensures
        s.len() == 0 ==> number::unsigned(s, max) is None && number::signed(s) is None,
        number::unsigned(s, max) is Some ==> (s[0] == '+' || chars::digit(s[0])) && forall|i: int|
            0 < i < s.len() ==> chars::digit(#[trigger] s[i]),
        number::signed(s) is Some ==> (s[0] == '+' || s[0] == '-' || chars::digit(s[0]))
            && forall|i: int| 0 < i < s.len() ==> chars::digit(#[trigger] s[i]),
        s.len() == 1 && (s[0] == '+' || s[0] == '-') ==> number::unsigned(s, max) is None
            && number::signed(s) is None,
{
    if s.len() > 0 {
        let rest = s.skip(1);
        if number::all_digits(rest) {
            assert forall|i: int| 0 < i < s.len() implies chars::digit(#[trigger] s[i]) by {
                assert(s[i] == rest[i - 1]);
            }
        }
    }
}

/// A `+` in front and zeros in front make no difference, and a `-` turns the
/// sign.
pub proof fn law_signs_and_leading_zeros(ds: Seq<char>, max: nat)
    requires
        ds.len() > 0,
        number::all_digits(ds),
    ensures
        number::unsigned(seq!['+'] + ds, max) == number::unsigned(ds, max),
        number::unsigned(seq!['0'] + ds, max) == number::unsigned(ds, max),
        number::decimal(ds) <= i64::MAX ==> number::signed(seq!['-'] + ds) == Some(
            -(number::signed(ds)->Some_0),
        ) && number::signed(ds) is Some && number::signed(seq!['+'] + ds) == number::signed(ds),
        number::decimal(ds) > max ==> number::unsigned(ds, max) is None,
{
    assert((seq!['+'] + ds).skip(1) =~= ds);
    assert((seq!['-'] + ds).skip(1) =~= ds);
    assert(chars::digit(ds[0]));
    lemma_leading_zero(ds);
    let z = seq!['0'] + ds;
    assert(number::all_digits(z)) by {
        assert forall|i: int| 0 <= i < z.len() implies chars::digit(#[trigger] z[i]) by {
            if i > 0 {
                assert(z[i] == ds[i - 1]);
            }
        }
    }
}

proof fn lemma_leading_zero(s: Seq<char>)
    ensures
        number::decimal(seq!['0'] + s) == number::decimal(s),
    decreases s.len(),
{
    let z = seq!['0'] + s;
    if s.len() == 0 {
        assert(z.drop_last() =~= Seq::empty());
        assert(number::decimal(z.drop_last()) == 0);
        assert(z.last() == '0');
    } else {
        lemma_leading_zero(s.drop_last());
        assert(z.drop_last() =~= seq!['0'] + s.drop_last());
        assert(z.last() == s.last());
    }
}

// ---------------------------------------------------------------------------
// Zero

/// A unit behind a value makes no difference, and neither does a sign in front
/// of one without.
pub proof fn law_units_and_signs_do_not_count(value: Seq<char>, unit: char, sign: char)
    requires
        'a' <= unit <= 'z' || 'A' <= unit <= 'Z' || unit == '%',
        sign == '+' || sign == '-',
        value.len() > 0 ==> value[0] != '+' && value[0] != '-',
    ensures
        zero::zero(value.push(unit)) == zero::zero(value),
        zero::zero(seq![sign] + value) == zero::zero(value),
{
    assert(value.push(unit).drop_last() =~= value);
    lemma_trim_behind_sign(value, sign);
    let t = chars::trim_end_of(value, CharClass::Unit);
    lemma_trimmed_start(value);
    assert((seq![sign] + t).skip(1) =~= t);
}

proof fn lemma_trim_behind_sign(value: Seq<char>, sign: char)
    requires
        sign == '+' || sign == '-',
    ensures
        chars::trim_end_of(seq![sign] + value, CharClass::Unit) == seq![sign]
            + chars::trim_end_of(value, CharClass::Unit),
    decreases value.len(),
{
    let s = seq![sign] + value;
    if value.len() > 0 {
        assert(s.last() == value.last());
        assert(s.drop_last() =~= seq![sign] + value.drop_last());
        if CharClass::Unit.has(value.last()) {
            lemma_trim_behind_sign(value.drop_last(), sign);
        }
    } else {
        assert(s =~= seq![sign]);
        assert(s.last() == sign);
        assert(seq![sign] + value =~= seq![sign]);
    }
}

proof fn lemma_trimmed_start(value: Seq<char>)
    ensures
        ({
            let t = chars::trim_end_of(value, CharClass::Unit);
            t.len() > 0 ==> value.len() > 0 && t[0] == value[0]
        }),
    decreases value.len(),
{
    if value.len() > 0 && CharClass::Unit.has(value.last()) {
        lemma_trimmed_start(value.drop_last());
    }
}

proof fn lemma_run_of_digits(ds: Seq<char>, rest: Seq<char>)
    requires
        number::all_digits(ds),
        rest.len() > 0 ==> !chars::digit(rest[0]),
    ensures
        chars::first(ds + rest, CharClass::Digit, false) == ds.len(),
        (ds + rest).take(ds.len() as int) == ds,
        (ds + rest).skip(ds.len() as int) == rest,
{
    let s = ds + rest;
    assert forall|j: int| 0 <= j < ds.len() implies CharClass::Digit.has(#[trigger] s[j])
        != false by {
        assert(s[j] == ds[j]);
    }
    if rest.len() > 0 {
        assert(s[ds.len() as int] == rest[0]);
    }
    chars::lemma_first(s, CharClass::Digit, false, ds.len() as int);
    assert(s.take(ds.len() as int) =~= ds);
    assert(s.skip(ds.len() as int) =~= rest);
}

/// Digits, with a point among them or not, spell the number that they make
/// without it, and the point says how many of them count as a fraction; an
/// exponent shifts that.
pub proof fn law_literals(whole: Seq<char>, fraction: Seq<char>, power: Seq<char>, mark: char)
    requires
        number::all_digits(whole),
        number::all_digits(fraction),
        number::all_digits(power),
        whole.len() + fraction.len() > 0,
        power.len() > 0,
        mark == 'e' || mark == 'E',
    ensures
        ({
            let n = number::decimal(whole + fraction);
            let k = fraction.len() as int;
            let e = number::decimal(power) as int;
            let s = whole + seq!['.'] + fraction;
            &&& zero::literal(s) == Some(Literal { mantissa: n, scale: -k })
            &&& zero::literal(s.push(mark) + power) == Some(Literal { mantissa: n, scale: e - k })
            &&& zero::literal(s.push(mark).push('-') + power) == Some(
                Literal { mantissa: n, scale: -e - k },
            )
            &&& zero::literal(s.push(mark).push('+') + power) == Some(
                Literal { mantissa: n, scale: e - k },
            )
            &&& whole.len() > 0 ==> zero::literal(whole) == Some(
                Literal { mantissa: number::decimal(whole), scale: 0 },
            )
            &&& whole.len() > 0 ==> zero::literal(whole.push(mark) + power) == Some(
                Literal { mantissa: number::decimal(whole), scale: e },
            )
        }),
{
    let none = Seq::<char>::empty();
    let s = whole + seq!['.'] + fraction;
    let up = seq![mark] + power;
    let down = seq![mark, '-'] + power;
    let plus = seq![mark, '+'] + power;
    assert(plus.skip(1) =~= seq!['+'] + power);
    assert((seq!['+'] + power).skip(1) =~= power);
    assert(s.push(mark).push('+') + power =~= whole + seq!['.'] + fraction + plus);
    lemma_literal(whole, fraction, plus);
    assert(up.skip(1) =~= power);
    assert(down.skip(1) =~= seq!['-'] + power);
    assert((seq!['-'] + power).skip(1) =~= power);
    assert(chars::digit(power[0]));
    assert(s.push(mark) + power =~= whole + seq!['.'] + fraction + up);
    assert(s.push(mark).push('-') + power =~= whole + seq!['.'] + fraction + down);
    lemma_literal(whole, fraction, none);
    assert(whole + seq!['.'] + fraction + none =~= s);
    lemma_literal(whole, fraction, up);
    lemma_literal(whole, fraction, down);
    if whole.len() > 0 {
        assert(chars::digit(whole[0]));
        lemma_run_of_digits(whole, none);
        assert(whole + none =~= whole);
        let x = whole.push(mark) + power;
        assert(x =~= whole + up);
        assert(x[0] == whole[0]);
        lemma_run_of_digits(whole, up);
        assert(whole + Seq::<char>::empty() =~= whole);
    }
}

/// The parts of a literal with a point.
proof fn lemma_literal(whole: Seq<char>, fraction: Seq<char>, rest: Seq<char>)
    requires
        number::all_digits(whole),
        number::all_digits(fraction),
        whole.len() + fraction.len() > 0,
        rest.len() > 0 ==> rest[0] == 'e' || rest[0] == 'E',
    ensures
        zero::literal(whole + seq!['.'] + fraction + rest) == if rest.len() == 0 {
            Some(
                Literal {
                    mantissa: number::decimal(whole + fraction),
                    scale: -(fraction.len() as int),
                },
            )
        } else {
            match zero::exponent(rest.skip(1)) {
                Some(e) => Some(
                    Literal {
                        mantissa: number::decimal(whole + fraction),
                        scale: e - fraction.len(),
                    },
                ),
                None => None,
            }
        },
{
    let s = whole + seq!['.'] + fraction + rest;
    let after = seq!['.'] + fraction + rest;
    assert(s =~= whole + after);
    if whole.len() > 0 {
        assert(chars::digit(whole[0]));
        assert(s[0] == whole[0]);
    } else {
        assert(s[0] == '.');
    }
    lemma_run_of_digits(whole, after);
    assert(after.skip(1) =~= fraction + rest);
    lemma_run_of_digits(fraction, rest);
    assert(after.skip(1 + fraction.len() as int) =~= rest);
}

/// Anything else behind the digits makes it no number: another character, a
/// second point, or an exponent without digits.
pub proof fn law_no_number_with_more_behind_it(
    whole: Seq<char>,
    fraction: Seq<char>,
    c: char,
    rest: Seq<char>,
    mark: char,
)
    requires
        number::all_digits(whole),
        number::all_digits(fraction),
        whole.len() > 0,
        !chars::digit(c) && c != 'e' && c != 'E',
        mark == 'e' || mark == 'E',
    ensures
        c != '.' ==> zero::literal(whole.push(c) + rest) is None,
        zero::literal(whole + seq!['.'] + fraction + (seq![c] + rest)) is None,
        zero::literal(whole.push(mark)) is None,
        zero::literal(whole.push(mark).push('-').push(c)) is None,
{
    assert(chars::digit(whole[0]));
    let more = seq![c] + rest;
    let x = whole.push(c) + rest;
    assert(x =~= whole + more);
    assert(x[0] == whole[0]);
    lemma_run_of_digits(whole, more);

    let after = seq!['.'] + fraction + more;
    let s = whole + seq!['.'] + fraction + more;
    assert(s =~= whole + after);
    assert(s[0] == whole[0]);
    lemma_run_of_digits(whole, after);
    assert(after.skip(1) =~= fraction + more);
    lemma_run_of_digits(fraction, more);
    assert(after.skip(1 + fraction.len() as int) =~= more);

    let bare = seq![mark];
    assert(whole.push(mark) =~= whole + bare);
    assert(whole.push(mark)[0] == whole[0]);
    lemma_run_of_digits(whole, bare);
    assert(bare.skip(1) =~= Seq::<char>::empty());

    let bad = seq![mark, '-', c];
    let y = whole.push(mark).push('-').push(c);
    assert(y =~= whole + bad);
    assert(y[0] == whole[0]);
    lemma_run_of_digits(whole, bad);
    assert(bad.skip(1) =~= seq!['-', c]);
    let d = seq!['-', c];
    assert(d.skip(1) =~= seq![c]);
    assert(!number::all_digits(seq![c])) by {
        assert(!chars::digit(seq![c][0]));
    }
}

/// A literal counts as zero exactly if it is, or is at most half of `2^-1074`,
/// the smallest number above zero that there is.
pub proof fn law_what_counts_as_zero(l: Literal)
    ensures
        l.scale >= 0 ==> (zero::rounds_to_zero(l) <==> l.mantissa == 0),
        l.scale < 0 ==> (zero::rounds_to_zero(l) <==> l.mantissa * pow(2, 1074) * 2 <= pow(
            10,
            (-l.scale) as nat,
        )),
{
    lemma_pow_adds(2, 1074, 1);
    lemma_pow1(2);
    lemma_pow_positive(2, 1074);
    lemma_mul_is_associative(l.mantissa as int, pow(2, 1074), 2);
    lemma_mul_basics(pow(2, 1074));
    assert(pow(2, 1075) == pow(2, 1074) * 2);
    assert(l.mantissa * pow(2, 1074) * 2 == l.mantissa * pow(2, 1075));
    if l.scale < 0 {
        lemma_pow_positive(10, (-l.scale) as nat);
    }
}

/// What has no digit is no number.
pub proof fn law_no_number_without_a_digit(value: Seq<char>)
    requires
        forall|i: int| 0 <= i < value.len() ==> !chars::digit(#[trigger] value[i]),
    ensures
        zero::zero(value) is None,
{
    lemma_trim_part(value);
    let s = chars::trim_end_of(value, CharClass::Unit);
    let body = zero::unsigned_part(s);
    assert forall|i: int| 0 <= i < body.len() implies !chars::digit(#[trigger] body[i]) by {
        if s.len() > 0 && (s[0] == '+' || s[0] == '-') {
            assert(body[i] == s[i + 1]);
            assert(s[i + 1] == value[i + 1]);
        } else {
            assert(s[i] == value[i]);
        }
    }
    lemma_no_run(body);
    assert(body.skip(0) =~= body);
    if body.len() > 0 && body[0] == '.' {
        let more = body.skip(1);
        assert forall|i: int| 0 <= i < more.len() implies !chars::digit(#[trigger] more[i]) by {
            assert(more[i] == body[i + 1]);
        }
        lemma_no_run(more);
    }
}

proof fn lemma_no_run(s: Seq<char>)
    requires
        forall|i: int| 0 <= i < s.len() ==> !chars::digit(#[trigger] s[i]),
    ensures
        chars::first(s, CharClass::Digit, false) == 0,
{
    if s.len() > 0 {
        assert(!chars::digit(s[0]));
    }
}

proof fn lemma_trim_part(value: Seq<char>)
    ensures
        ({
            let t = chars::trim_end_of(value, CharClass::Unit);
            t.len() <= value.len() && forall|i: int|
                0 <= i < t.len() ==> #[trigger] t[i] == value[i]
        }),
    decreases value.len(),
{
    if value.len() > 0 && CharClass::Unit.has(value.last()) {
        lemma_trim_part(value.drop_last());
    }
}

/// A literal of zeros alone is zero; any other one is not, unless it is too
/// small to tell from zero.
pub proof fn law_zero_is_zero(l: Literal, k: nat)
    ensures
        l.mantissa == 0 ==> zero::rounds_to_zero(l),
        l.mantissa > 0 && l.scale >= -268 ==> !zero::rounds_to_zero(l),
        l.mantissa <= pow(10, k) && l.scale <= -(1075 + k) ==> zero::rounds_to_zero(l),
{
    lemma_pow_positive(2, 1075);
    if l.mantissa > 0 && -268 <= l.scale < 0 {
        let n = (-l.scale) as nat;
        lemma_sixteens(n);
        lemma_pow_increases(2, 4 * n, 1075);
        assert(pow(10, n) < pow(2, 1075)) by {
            lemma_pow_strictly_increases(2, 4 * n, 1075);
        }
        lemma_mul_inequality(1, l.mantissa as int, pow(2, 1075));
    }
    if l.mantissa <= pow(10, k) && l.scale <= -(1075 + k) {
        let n = (-l.scale) as nat;
        lemma_tens(1075);
        lemma_pow_positive(10, k);
        lemma_pow_adds(10, k, 1075);
        lemma_pow_increases(10, k + 1075, n);
        lemma_mul_inequality(l.mantissa as int, pow(10, k), pow(2, 1075));
        lemma_mul_inequality(pow(2, 1075), pow(10, 1075), pow(10, k));
        lemma_mul_is_commutative(pow(2, 1075), pow(10, k));
        lemma_mul_is_commutative(pow(10, 1075), pow(10, k));
    }
}

proof fn lemma_sixteens(n: nat)
    ensures
        pow(10, n) <= pow(2, 4 * n),
    decreases n,
{
    lemma_pow0(10);
    lemma_pow0(2);
    if n > 0 {
        let m = (n - 1) as nat;
        lemma_sixteens(m);
        lemma_pow_adds(10, 1, m);
        lemma_pow_adds(2, 4, 4 * m);
        lemma_pow1(10);
        reveal_with_fuel(pow, 5);
        assert(pow(2, 4) == 16);
        lemma_pow_positive(2, 4 * m);
        assert(4 * n == 4 + 4 * m);
        lemma_mul_inequality(pow(10, m), pow(2, 4 * m), 10);
        lemma_mul_is_commutative(pow(10, m), 10);
        lemma_mul_is_commutative(pow(2, 4 * m), 10);
        lemma_mul_inequality(10, 16, pow(2, 4 * m));
    }
}

proof fn lemma_tens(n: nat)
    ensures
        0 < pow(2, n) <= pow(10, n),
    decreases n,
{
    lemma_pow0(10);
    lemma_pow0(2);
    if n > 0 {
        let m = (n - 1) as nat;
        lemma_tens(m);
        lemma_pow_adds(10, 1, m);
        lemma_pow_adds(2, 1, m);
        lemma_pow1(10);
        lemma_pow1(2);
        lemma_mul_inequality(2, 10, pow(2, m));
        lemma_mul_inequality(pow(2, m), pow(10, m), 10);
        lemma_mul_is_commutative(pow(2, m), 10);
        lemma_mul_is_commutative(pow(10, m), 10);
    }
}

/// Digits spell zero exactly if they are all zeros.
pub proof fn law_zeros_spell_zero(s: Seq<char>)
    requires
        number::all_digits(s),
    ensures
        number::decimal(s) == 0 <==> forall|i: int| 0 <= i < s.len() ==> #[trigger] s[i] == '0',
    decreases s.len(),
{
    if s.len() > 0 {
        let rest = s.drop_last();
        assert forall|i: int| 0 <= i < rest.len() implies chars::digit(#[trigger] rest[i]) by {
            assert(rest[i] == s[i]);
        }
        law_zeros_spell_zero(rest);
        assert(chars::digit(s[s.len() - 1]));
        if number::decimal(s) == 0 {
            assert(number::decimal(rest) == 0);
            assert forall|i: int| 0 <= i < s.len() implies #[trigger] s[i] == '0' by {
                if i < rest.len() {
                    assert(rest[i] == s[i]);
                }
            }
        } else if forall|i: int| 0 <= i < s.len() ==> #[trigger] s[i] == '0' {
            assert forall|i: int| 0 <= i < rest.len() implies #[trigger] rest[i] == '0' by {
                assert(rest[i] == s[i]);
            }
            assert(s[s.len() - 1] == '0');
        }
    }
}

/// A plain number, with or without a unit, is zero exactly if its digits are.
pub proof fn law_plain_numbers(whole: Seq<char>, fraction: Seq<char>)
    requires
        number::all_digits(whole),
        number::all_digits(fraction),
        whole.len() + fraction.len() > 0,
        fraction.len() <= 268,
    ensures
        zero::zero(whole + seq!['.'] + fraction) == Some(
            forall|i: int|
                0 <= i < (whole + fraction).len() ==> #[trigger] (whole + fraction)[i] == '0',
        ),
        whole.len() > 0 ==> zero::zero(whole) == Some(
            forall|i: int| 0 <= i < whole.len() ==> #[trigger] whole[i] == '0',
        ),
{
    let both = whole + fraction;
    assert(number::all_digits(both)) by {
        assert forall|i: int| 0 <= i < both.len() implies chars::digit(#[trigger] both[i]) by {
            if i < whole.len() {
                assert(both[i] == whole[i]);
            } else {
                assert(both[i] == fraction[i - whole.len()]);
            }
        }
    }
    let one = seq!['1'];
    law_literals(whole, fraction, one, 'e');
    law_zeros_spell_zero(both);
    law_zeros_spell_zero(whole);
    let l = Literal { mantissa: number::decimal(both), scale: -(fraction.len() as int) };
    let w = Literal { mantissa: number::decimal(whole), scale: 0 };
    law_zero_is_zero(l, 0);
    law_zero_is_zero(w, 0);
    let s = whole + seq!['.'] + fraction;
    if fraction.len() > 0 {
        assert(s.last() == fraction[fraction.len() - 1]);
        assert(chars::digit(fraction[fraction.len() - 1]));
    } else {
        assert(s.last() == '.');
    }
    assert(chars::trim_end_of(s, CharClass::Unit) == s);
    if whole.len() > 0 {
        assert(chars::digit(whole[whole.len() - 1]));
        assert(chars::trim_end_of(whole, CharClass::Unit) == whole);
    }
}

} // verus!
