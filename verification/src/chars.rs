//! Character-level text helpers.
//!
//! Text is worked on as slices of characters. Each helper is specified over
//! `Seq<char>`, which is also what a `String` or a `str` looks like in a
//! contract.

use vstd::prelude::*;
use vstd::slice::slice_subrange;

verus! {

/// `String::push` appends the given character to the end of the string.
pub assume_specification[ String::push ](s: &mut String, c: char)
    ensures
        final(s)@ == old(s)@.push(c),
;

/// A set of characters the parsers look for.
#[derive(Clone, Copy)]
pub enum CharClass {
    /// Exactly one character.
    Only(char),
    /// Unicode white space.
    Space,
    /// What starts a selector component: `.`, `#` or `[`.
    Mark,
    /// What takes a selector out of the supported subset: `:`, a
    /// combinator, the universal selector, or white space.
    Unsupported,
    /// `"` or `'`.
    Quote,
    /// What a numeric CSS value may end with: an ASCII letter or `%`.
    Unit,
    /// An ASCII decimal digit.
    Digit,
    /// `{` or `}`.
    Brace,
}

/// The characters with the Unicode `White_Space` property.
pub open spec fn white_space(c: char) -> bool {
    let n = c as u32;
    ||| 9 <= n <= 13
    ||| n == 32
    ||| n == 0x85
    ||| n == 0xa0
    ||| n == 0x1680
    ||| 0x2000 <= n <= 0x200a
    ||| n == 0x2028
    ||| n == 0x2029
    ||| n == 0x202f
    ||| n == 0x205f
    ||| n == 0x3000
}

/// An ASCII decimal digit.
pub open spec fn digit(c: char) -> bool {
    '0' <= c <= '9'
}

/// The value of a decimal digit.
pub open spec fn digit_value(c: char) -> nat {
    (c as u32 - '0' as u32) as nat
}

impl CharClass {
    /// Whether `c` belongs to the class.
    pub open spec fn has(self, c: char) -> bool {
        match self {
            CharClass::Only(d) => c == d,
            CharClass::Space => white_space(c),
            CharClass::Mark => c == '.' || c == '#' || c == '[',
            CharClass::Unsupported => c == ':' || c == '>' || c == '+' || c == '~' || c == '*'
                || white_space(c),
            CharClass::Quote => c == '"' || c == '\'',
            CharClass::Unit => 'a' <= c <= 'z' || 'A' <= c <= 'Z' || c == '%',
            CharClass::Digit => digit(c),
            CharClass::Brace => c == '{' || c == '}',
        }
    }

    /// Whether `c` belongs to the class.
    pub fn matches(self, c: char) -> (r: bool)
        ensures
            r == self.has(c),
    {
        match self {
            CharClass::Only(d) => c == d,
            CharClass::Space => is_white_space(c),
            CharClass::Mark => c == '.' || c == '#' || c == '[',
            CharClass::Unsupported => c == ':' || c == '>' || c == '+' || c == '~' || c == '*'
                || is_white_space(c),
            CharClass::Quote => c == '"' || c == '\'',
            CharClass::Unit => ('a' <= c && c <= 'z') || ('A' <= c && c <= 'Z') || c == '%',
            CharClass::Digit => '0' <= c && c <= '9',
            CharClass::Brace => c == '{' || c == '}',
        }
    }
}

/// Whether `c` is Unicode white space.
pub fn is_white_space(c: char) -> (r: bool)
    ensures
        r == white_space(c),
{
    let n: u32 = c as u32;
    (9 <= n && n <= 13) || n == 32 || n == 0x85 || n == 0xa0 || n == 0x1680 || (0x2000 <= n && n
        <= 0x200a) || n == 0x2028 || n == 0x2029 || n == 0x202f || n == 0x205f || n == 0x3000
}

/// The index of the first character of `s` that is inside `class` (or, with
/// `inside` false, outside it); the length of `s` when there is none.
pub open spec fn first(s: Seq<char>, class: CharClass, inside: bool) -> nat
    decreases s.len(),
{
    if s.len() == 0 {
        0
    } else if class.has(s[0]) == inside {
        0
    } else {
        1 + first(s.skip(1), class, inside)
    }
}

/// `first` is the only index with nothing sought before it that either holds
/// what is sought or is the end.
pub proof fn lemma_first(s: Seq<char>, class: CharClass, inside: bool, k: int)
    requires
        0 <= k <= s.len(),
        forall|j: int| 0 <= j < k ==> class.has(#[trigger] s[j]) != inside,
        k < s.len() ==> class.has(s[k]) == inside,
    ensures
        first(s, class, inside) == k,
    decreases s.len(),
{
    if s.len() > 0 && k > 0 {
        assert(class.has(s[0]) != inside);
        let rest = s.skip(1);
        assert forall|j: int| 0 <= j < k - 1 implies class.has(#[trigger] rest[j]) != inside by {
            assert(rest[j] == s[j + 1]);
        }
        lemma_first(rest, class, inside, k - 1);
    }
}

/// What `first` promises of its result.
pub proof fn lemma_first_is(s: Seq<char>, class: CharClass, inside: bool)
    ensures
        first(s, class, inside) <= s.len(),
        forall|j: int|
            0 <= j < first(s, class, inside) ==> class.has(#[trigger] s[j]) != inside,
        first(s, class, inside) < s.len() ==> class.has(s[first(s, class, inside) as int])
            == inside,
    decreases s.len(),
{
    if s.len() > 0 && class.has(s[0]) != inside {
        let rest = s.skip(1);
        lemma_first_is(rest, class, inside);
        assert forall|j: int| 0 <= j < first(s, class, inside) implies class.has(#[trigger] s[j])
            != inside by {
            if j > 0 {
                assert(s[j] == rest[j - 1]);
            }
        }
    }
}

/// The index of the first character of `s` inside (or outside) `class`.
pub fn find(s: &[char], class: CharClass, inside: bool) -> (r: usize)
    ensures
        r == first(s@, class, inside),
        r <= s@.len(),
        r < s@.len() ==> class.has(s@[r as int]) == inside,
{
    let mut i: usize = 0;
    while i < s.len() && class.matches(s[i]) != inside
        invariant
            i <= s@.len(),
            forall|j: int| 0 <= j < i ==> class.has(#[trigger] s@[j]) != inside,
        decreases s@.len() - i,
    {
        i += 1;
    }
    proof {
        lemma_first(s@, class, inside, i as int);
    }
    i
}

/// Whether some character of `s` is in `class`.
pub open spec fn any_in(s: Seq<char>, class: CharClass) -> bool {
    first(s, class, true) < s.len()
}

/// What is left of `s` without the characters of `class` at its end.
pub open spec fn trim_end_of(s: Seq<char>, class: CharClass) -> Seq<char>
    decreases s.len(),
{
    if s.len() > 0 && class.has(s.last()) {
        trim_end_of(s.drop_last(), class)
    } else {
        s
    }
}

/// What is left of `s` without the characters of `class` at its start.
pub open spec fn trim_start_of(s: Seq<char>, class: CharClass) -> Seq<char> {
    s.skip(first(s, class, false) as int)
}

/// What is left of `s` without the characters of `class` at either end.
pub open spec fn trim_of(s: Seq<char>, class: CharClass) -> Seq<char> {
    trim_end_of(trim_start_of(s, class), class)
}

/// `s` without the white space at either end.
pub open spec fn trim(s: Seq<char>) -> Seq<char> {
    trim_of(s, CharClass::Space)
}

/// `s` without the characters of `class` at its end.
pub fn without_end<'a>(s: &'a [char], class: CharClass) -> (r: &'a [char])
    ensures
        r@ == trim_end_of(s@, class),
        r@.len() <= s@.len(),
{
    let mut n: usize = s.len();
    assert(s@.take(n as int) =~= s@);
    while n > 0 && class.matches(s[n - 1])
        invariant
            n <= s@.len(),
            trim_end_of(s@, class) == trim_end_of(s@.take(n as int), class),
        decreases n,
    {
        assert(s@.take(n as int).drop_last() =~= s@.take(n - 1));
        n -= 1;
    }
    assert(s@.take(n as int) =~= s@.subrange(0, n as int));
    slice_subrange(s, 0, n)
}

/// `s` without the characters of `class` at its start.
pub fn without_start<'a>(s: &'a [char], class: CharClass) -> (r: &'a [char])
    ensures
        r@ == trim_start_of(s@, class),
        r@.len() <= s@.len(),
{
    let k: usize = find(s, class, false);
    from(s, k)
}

/// `s` without the characters of `class` at either end.
pub fn without<'a>(s: &'a [char], class: CharClass) -> (r: &'a [char])
    ensures
        r@ == trim_of(s@, class),
        r@.len() <= s@.len(),
{
    without_end(without_start(s, class), class)
}

/// The characters of `s` from `k` on.
pub fn from<'a>(s: &'a [char], k: usize) -> (r: &'a [char])
    requires
        k <= s@.len(),
    ensures
        r@ == s@.skip(k as int),
{
    assert(s@.skip(k as int) =~= s@.subrange(k as int, s@.len() as int));
    slice_subrange(s, k, s.len())
}

/// The characters of `s` before `k`.
pub fn upto<'a>(s: &'a [char], k: usize) -> (r: &'a [char])
    requires
        k <= s@.len(),
    ensures
        r@ == s@.take(k as int),
{
    assert(s@.take(k as int) =~= s@.subrange(0, k as int));
    slice_subrange(s, 0, k)
}

/// The characters of `s`, in order.
pub fn chars_of(s: &str) -> (r: Vec<char>)
    ensures
        r@ == s@,
{
    let mut out: Vec<char> = Vec::new();
    for c in it: s.chars()
        invariant
            out@ == it.seq().take(it.index() as int),
            it.seq() == s@,
    {
        out.push(c);
    }
    out
}

/// The string that spells `s`.
pub fn string_of(s: &[char]) -> (r: String)
    ensures
        r@ == s@,
{
    let mut out: String = String::new();
    let mut i: usize = 0;
    while i < s.len()
        invariant
            i <= s@.len(),
            out@ == s@.take(i as int),
        decreases s@.len() - i,
    {
        out.push(s[i]);
        i += 1;
    }
    assert(s@.take(i as int) =~= s@);
    out
}

/// Whether `s` spells the literal `lit`.
pub fn is(s: &[char], lit: &str) -> (r: bool)
    ensures
        r == (s@ == lit@),
{
    let mut k: usize = 0;
    for c in it: lit.chars()
        invariant
            it.seq() == lit@,
            k == it.index(),
            k <= s@.len(),
            s@.take(k as int) == lit@.take(k as int),
    {
        if k >= s.len() || s[k] != c {
            proof {
                assert(lit@[k as int] == c);
                if s@ == lit@ {
                    assert(s@[k as int] == c);
                }
            }
            return false;
        }
        k += 1;
    }
    proof {
        assert(lit@.take(k as int) =~= lit@);
        assert(s@.len() == k ==> s@.take(k as int) =~= s@);
    }
    k == s.len()
}

/// The ASCII lower-case form of one character.
pub open spec fn lower_char(c: char) -> char {
    if 'A' <= c <= 'Z' {
        ((c as u32 + 32) as u32) as char
    } else {
        c
    }
}

/// `s` with its ASCII capitals in lower case.
pub open spec fn lower(s: Seq<char>) -> Seq<char> {
    Seq::new(s.len(), |i: int| lower_char(s[i]))
}

/// The ASCII lower-case form of one character.
pub fn to_lower_char(c: char) -> (r: char)
    ensures
        r == lower_char(c),
{
    if 'A' <= c && c <= 'Z' {
        let b: u8 = c as u8;
        (b + 32) as char
    } else {
        c
    }
}

/// `s` with its ASCII capitals in lower case.
pub fn to_lower(s: &[char]) -> (r: Vec<char>)
    ensures
        r@ == lower(s@),
{
    let mut out: Vec<char> = Vec::new();
    let mut i: usize = 0;
    while i < s.len()
        invariant
            i <= s@.len(),
            out@ == lower(s@).take(i as int),
        decreases s@.len() - i,
    {
        out.push(to_lower_char(s[i]));
        i += 1;
        assert(out@ =~= lower(s@).take(i as int));
    }
    assert(lower(s@).take(i as int) =~= lower(s@));
    out
}

/// Whether `s` is `lit` but for the case of ASCII letters.
pub fn is_ignoring_case(s: &[char], lit: &str) -> (r: bool)
    ensures
        r == (lower(s@) == lower(lit@)),
{
    let a: Vec<char> = to_lower(s);
    let lit_chars: Vec<char> = chars_of(lit);
    let b: Vec<char> = to_lower(&lit_chars);
    same(&a, &b)
}

/// Whether two slices hold the same characters.
pub fn same(a: &[char], b: &[char]) -> (r: bool)
    ensures
        r == (a@ == b@),
{
    if a.len() != b.len() {
        return false;
    }
    let mut i: usize = 0;
    while i < a.len()
        invariant
            a@.len() == b@.len(),
            i <= a@.len(),
            forall|j: int| 0 <= j < i ==> a@[j] == b@[j],
        decreases a@.len() - i,
    {
        if a[i] != b[i] {
            return false;
        }
        i += 1;
    }
    assert(a@ =~= b@);
    true
}

/// Whether `pat` occurs in `s` at index `i`.
pub open spec fn occurs_at(s: Seq<char>, pat: Seq<char>, i: int) -> bool {
    0 <= i && i + pat.len() <= s.len() && s.subrange(i, i + pat.len()) == pat
}

/// Whether `pat` occurs in `s`.
pub open spec fn contains(s: Seq<char>, pat: Seq<char>) -> bool {
    exists|i: int| occurs_at(s, pat, i)
}

/// Whether `pat` occurs in `s`.
pub fn has_part(s: &[char], pat: &[char]) -> (r: bool)
    ensures
        r == contains(s@, pat@),
{
    let mut i: usize = 0;
    while i <= s.len() && pat.len() <= s.len() - i
        invariant
            i <= s@.len() + 1,
            forall|j: int| 0 <= j < i ==> !#[trigger] occurs_at(s@, pat@, j),
        decreases s@.len() + 1 - i,
    {
        if same(slice_subrange(s, i, i + pat.len()), pat) {
            assert(occurs_at(s@, pat@, i as int));
            return true;
        }
        if i == s.len() {
            return false;
        }
        i += 1;
    }
    false
}

/// The words of `s`: its maximal runs without white space, in order.
pub open spec fn words(s: Seq<char>) -> Seq<Seq<char>>
    decreases s.len(),
{
    let t = trim_start_of(s, CharClass::Space);
    let k = first(t, CharClass::Space, true);
    if t.len() == 0 {
        Seq::empty()
    } else {
        proof {
            lemma_first_is(s, CharClass::Space, false);
            lemma_first_is(t, CharClass::Space, true);
            assert(!white_space(t[0]));
        }
        seq![t.take(k as int)] + words(t.skip(k as int))
    }
}

/// Runs of white space in `s`, each replaced by one space.
pub open spec fn collapse(s: Seq<char>) -> Seq<char>
    decreases s.len(),
{
    if s.len() == 0 {
        s
    } else {
        let before = collapse(s.drop_last());
        if !white_space(s.last()) {
            before.push(s.last())
        } else if s.len() >= 2 && white_space(s[s.len() - 2]) {
            before
        } else {
            before.push(' ')
        }
    }
}

/// Runs of white space in `s`, each replaced by one space.
pub fn collapse_ws(s: &[char]) -> (r: Vec<char>)
    ensures
        r@ == collapse(s@),
{
    let mut out: Vec<char> = Vec::new();
    let mut i: usize = 0;
    while i < s.len()
        invariant
            i <= s@.len(),
            out@ == collapse(s@.take(i as int)),
        decreases s@.len() - i,
    {
        assert(s@.take(i + 1).drop_last() =~= s@.take(i as int));
        if !is_white_space(s[i]) {
            out.push(s[i]);
        } else if i == 0 || !is_white_space(s[i - 1]) {
            out.push(' ');
        }
        i += 1;
    }
    assert(s@.take(i as int) =~= s@);
    out
}

} // verus!
