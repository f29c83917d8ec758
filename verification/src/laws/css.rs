//! What reading stylesheets promises: which parts take effect, and that the
//! others are passed over whole.

use crate::chars;
use crate::chars::CharClass;
use crate::css;
use crate::css::{DeclProps, Place, RuleText, Selector, IMPORTANT_PRIORITY};
use vstd::prelude::*;

verus! {

/// Whether `s` has no character of `class`.
pub open spec fn free_of(s: Seq<char>, class: CharClass) -> bool {
    forall|i: int| 0 <= i < s.len() ==> !class.has(#[trigger] s[i])
}

/// The first character of a class in a text that starts with one free of it.
proof fn lemma_first_behind(a: Seq<char>, c: char, b: Seq<char>, class: CharClass)
    requires
        free_of(a, class),
        class.has(c),
    ensures
        chars::first(a.push(c) + b, class, true) == a.len(),
        (a.push(c) + b).take(a.len() as int) == a,
        (a.push(c) + b).skip(a.len() as int + 1) == b,
        (a.push(c) + b)[a.len() as int] == c,
{
    let s = a.push(c) + b;
    assert forall|j: int| 0 <= j < a.len() implies class.has(#[trigger] s[j]) != true by {
        assert(s[j] == a[j]);
    }
    chars::lemma_first(s, class, true, a.len() as int);
    assert(s.take(a.len() as int) =~= a);
    assert(s.skip(a.len() as int + 1) =~= b);
}

// ---------------------------------------------------------------------------
// Declarations

/// Declarations take effect one after the other, so that a later one of the
/// same property and tier has the last word.
#[verifier::rlimit(30)]
pub proof fn law_declarations_in_order(a: Seq<char>, b: Seq<char>, out: DeclProps)
    ensures
        css::with_declarations(a.push(';') + b, out) == css::with_declarations(
            b,
            css::with_declarations(a, out),
        ),
    decreases a.len(),
{
    let semi = CharClass::Only(';');
    let k = chars::first(a, semi, true) as int;
    chars::lemma_first_is(a, semi, true);
    if k >= a.len() {
        assert(free_of(a, semi));
        lemma_first_behind(a, ';', b, semi);
        assert(a.take(k) =~= a);
    } else {
        let rest = a.skip(k + 1);
        law_declarations_in_order(rest, b, css::with_declaration(a.take(k), out));
        assert(a =~= a.take(k).push(';') + rest);
        assert(free_of(a.take(k), semi));
        lemma_first_behind(a.take(k), ';', rest.push(';') + b, semi);
        assert(a.push(';') + b =~= a.take(k).push(';') + (rest.push(';') + b));
    }
}

// ---------------------------------------------------------------------------
// Selectors

/// A selector with a combinator, a pseudo-class, the universal selector or
/// white space in it is not supported.
pub proof fn law_out_of_subset(s: Seq<char>, i: int)
    requires
        0 <= i < s.len(),
        CharClass::Unsupported.has(s[i]),
    ensures
        css::selector(s) is None,
{
    chars::lemma_first_is(s, CharClass::Unsupported, true);
    if chars::first(s, CharClass::Unsupported, true) >= s.len() {
        assert(CharClass::Unsupported.has(s[i]) != true);
    }
}

/// How often `c` occurs in `s`.
pub open spec fn occurrences(s: Seq<char>, c: char) -> nat
    decreases s.len(),
{
    if s.len() == 0 {
        0
    } else {
        occurrences(s.drop_last(), c) + if s.last() == c {
            1nat
        } else {
            0
        }
    }
}

proof fn lemma_occurrences_add(a: Seq<char>, b: Seq<char>, c: char)
    ensures
        occurrences(a + b, c) == occurrences(a, c) + occurrences(b, c),
    decreases b.len(),
{
    if b.len() == 0 {
        assert(a + b =~= a);
    } else {
        lemma_occurrences_add(a, b.drop_last(), c);
        assert((a + b).drop_last() =~= a + b.drop_last());
        assert((a + b).last() == b.last());
    }
}

proof fn lemma_no_occurrence(s: Seq<char>, c: char)
    requires
        forall|i: int| 0 <= i < s.len() ==> #[trigger] s[i] != c,
    ensures
        occurrences(s, c) == 0,
    decreases s.len(),
{
    if s.len() > 0 {
        let rest = s.drop_last();
        assert forall|i: int| 0 <= i < rest.len() implies #[trigger] rest[i] != c by {
            assert(rest[i] == s[i]);
        }
        lemma_no_occurrence(rest, c);
        assert(s[s.len() - 1] != c);
    }
}

/// How many components that start with `c` there may still be.
spec fn room(acc: Selector, c: char) -> nat {
    if c == '.' {
        if acc.class is None {
            1
        } else {
            0
        }
    } else if c == '#' {
        if acc.id is None {
            1
        } else {
            0
        }
    } else if acc.attr is None {
        1
    } else {
        0
    }
}

proof fn lemma_components(acc: Selector, rest: Seq<char>, c: char)
    requires
        css::with_components(acc, rest) is Some,
        rest.len() > 0 ==> CharClass::Mark.has(rest[0]),
        CharClass::Mark.has(c),
    ensures
        occurrences(rest, c) <= room(acc, c),
    decreases rest.len(),
{
    if rest.len() > 0 {
        let tail = rest.skip(1);
        let k = chars::first(tail, CharClass::Mark, true) as int;
        chars::lemma_first_is(tail, CharClass::Mark, true);
        let body = tail.take(k);
        let next = css::with_component(acc, rest[0], body)->0;
        lemma_components(next, tail.skip(k), c);
        assert forall|i: int| 0 <= i < body.len() implies #[trigger] body[i] != c by {
            assert(body[i] == tail[i]);
        }
        lemma_no_occurrence(body, c);
        let head = seq![rest[0]];
        assert(rest =~= head + (body + tail.skip(k)));
        lemma_occurrences_add(head, body + tail.skip(k), c);
        lemma_occurrences_add(body, tail.skip(k), c);
        assert(head.drop_last() =~= Seq::<char>::empty());
        assert(occurrences(head.drop_last(), c) == 0);
    }
}

/// A supported selector has at most one class, one id and one attribute
/// selector: one that repeats a kind is passed over.
pub proof fn law_one_component_of_a_kind(s: Seq<char>, c: char)
    requires
        css::selector(s) is Some,
        CharClass::Mark.has(c),
    ensures
        occurrences(s, c) <= 1,
{
    let bare = Selector { tag: None, id: None, class: None, attr: None };
    let end = chars::first(s, CharClass::Mark, true) as int;
    chars::lemma_first_is(s, CharClass::Mark, true);
    if end == 0 {
        lemma_components(bare, s, c);
    } else {
        let tag = s.take(end);
        let rest = s.skip(end);
        lemma_components(Selector { tag: Some(chars::lower(tag)), ..bare }, rest, c);
        assert(s =~= tag + rest);
        lemma_occurrences_add(tag, rest, c);
        assert forall|i: int| 0 <= i < tag.len() implies #[trigger] tag[i] != c by {
            assert(tag[i] == s[i]);
        }
        lemma_no_occurrence(tag, c);
    }
}

/// Each part of a selector list counts by itself: one that is not supported
/// does not drop the others.
#[verifier::rlimit(30)]
pub proof fn law_list_parts_are_independent(a: Seq<char>, b: Seq<char>, decls: DeclProps)
    ensures
        css::rules_of_list(a.push(',') + b, decls) == css::rules_of_list(a, decls)
            + css::rules_of_list(b, decls),
    decreases a.len(),
{
    let comma = CharClass::Only(',');
    let k = chars::first(a, comma, true) as int;
    chars::lemma_first_is(a, comma, true);
    if k >= a.len() {
        assert(free_of(a, comma));
        lemma_first_behind(a, ',', b, comma);
        assert(a.take(k) =~= a);
    } else {
        let rest = a.skip(k + 1);
        law_list_parts_are_independent(rest, b, decls);
        assert(free_of(a.take(k), comma));
        lemma_first_behind(a.take(k), ',', rest.push(',') + b, comma);
        assert(a.push(',') + b =~= a.take(k).push(',') + (rest.push(',') + b));
        assert(css::rules_of_list(a.push(',') + b, decls) =~= css::rules_of_list(a, decls)
            + css::rules_of_list(b, decls));
    }
}

// ---------------------------------------------------------------------------
// Stylesheets

/// Whether every string that `s` opens, starting at `at`, is closed in it.
pub open spec fn shut(s: Seq<char>, at: Place) -> bool
    decreases s.len(),
{
    if s.len() == 0 {
        at == Place::plain()
    } else {
        &&& at == Place::plain() && CharClass::Quote.has(s[0]) ==> css::closes(s.skip(1), s[0])
        &&& shut(s.skip(1), at.past(s))
    }
}

/// Whether `s` closes its strings and has no character of `class` outside
/// them.
pub open spec fn shut_without(s: Seq<char>, class: CharClass) -> bool {
    &&& shut(s, Place::plain())
    &&& css::first_plain(s, class, Place::plain()) == s.len()
}

/// How many round brackets are open behind `s`, with so many open before it.
pub open spec fn brackets_after(s: Seq<char>, brackets: nat, at: Place) -> nat
    decreases s.len(),
{
    if s.len() == 0 {
        brackets
    } else if at == Place::plain() && s[0] == '(' {
        brackets_after(s.skip(1), brackets + 1, at)
    } else if at == Place::plain() && s[0] == ')' && brackets > 0 {
        brackets_after(s.skip(1), (brackets - 1) as nat, at)
    } else {
        brackets_after(s.skip(1), brackets, at.past(s))
    }
}

/// Whether `s` is the head of an at-rule: it closes its strings, and nothing
/// outside them ends it.
pub open spec fn is_head(s: Seq<char>) -> bool {
    &&& shut(s, Place::plain())
    &&& css::head_end(s, 0, Place::plain()) == s.len()
}

/// How deep in blocks the end of `s` is, when its start is `depth` deep at
/// `at`; `None` when `s` closes more than it has opened.
pub open spec fn depth_after(s: Seq<char>, depth: nat, at: Place) -> Option<nat>
    decreases s.len(),
{
    if s.len() == 0 {
        Some(depth)
    } else if at != Place::plain() || !CharClass::Brace.has(s[0]) {
        depth_after(s.skip(1), depth, at.past(s))
    } else if s[0] == '{' {
        depth_after(s.skip(1), depth + 1, at)
    } else if depth == 0 {
        None
    } else {
        depth_after(s.skip(1), (depth - 1) as nat, at)
    }
}

/// Whether `s` closes its strings, and every block that it opens, and no
/// other.
pub open spec fn balanced(s: Seq<char>) -> bool {
    &&& shut(s, Place::plain())
    &&& depth_after(s, 0, Place::plain()) == Some(0nat)
}

/// A string that is closed stays closed whatever follows.
proof fn lemma_closes_more(s: Seq<char>, t: Seq<char>, q: char)
    requires
        css::closes(s, q),
    ensures
        css::closes(s + t, q),
    decreases s.len(),
{
    let all = s + t;
    assert(all[0] == s[0]);
    if s[0] != q {
        if s[0] == '\\' && s.len() > 1 {
            lemma_closes_more(s.skip(2), t, q);
            assert(all.skip(2) =~= s.skip(2) + t);
        } else {
            assert(s.len() > 1) by {
                if s.len() == 1 {
                    assert(!css::closes(s.skip(1), q));
                }
            }
            lemma_closes_more(s.skip(1), t, q);
            assert(all.skip(1) =~= s.skip(1) + t);
        }
    }
}

/// What follows a text that closes its strings does not change how it reads.
proof fn lemma_past_more(s: Seq<char>, t: Seq<char>, at: Place)
    requires
        s.len() > 0,
        shut(s, at),
    ensures
        at.past(s + t) == at.past(s),
        (s + t).skip(1) == s.skip(1) + t,
        (s + t)[0] == s[0],
{
    assert((s + t).skip(1) =~= s.skip(1) + t);
    if at == Place::plain() && CharClass::Quote.has(s[0]) {
        lemma_closes_more(s.skip(1), t, s[0]);
    }
}

proof fn lemma_place_shut(s: Seq<char>, t: Seq<char>, at: Place)
    requires
        shut(s, at),
    ensures
        css::place_at(s + t, s.len() as int, at) == Place::plain(),
    decreases s.len(),
{
    if s.len() > 0 {
        lemma_past_more(s, t, at);
        lemma_place_shut(s.skip(1), t, at.past(s));
    }
}

proof fn lemma_behind(s: Seq<char>, inner: nat, at: Place, tail: Seq<char>)
    requires
        shut(s, at),
        depth_after(s, inner, at) == Some(0nat),
    ensures
        css::behind_blocks(s + (seq!['}'] + tail), inner + 1, at) == tail,
    decreases s.len(),
{
    let rest = seq!['}'] + tail;
    let all = s + rest;
    if s.len() == 0 {
        assert(all.skip(1) =~= tail);
    } else {
        lemma_past_more(s, rest, at);
        if at != Place::plain() || !CharClass::Brace.has(s[0]) {
            lemma_behind(s.skip(1), inner, at.past(s), tail);
        } else if s[0] == '{' {
            lemma_behind(s.skip(1), inner + 1, at, tail);
        } else {
            lemma_behind(s.skip(1), (inner - 1) as nat, at, tail);
        }
    }
}

/// The first plain character of a class behind a text without one.
proof fn lemma_plain_behind(a: Seq<char>, rest: Seq<char>, class: CharClass, at: Place)
    requires
        shut(a, at),
        css::first_plain(a, class, at) == a.len(),
        rest.len() > 0,
        class.has(rest[0]),
    ensures
        css::first_plain(a + rest, class, at) == a.len(),
    decreases a.len(),
{
    if a.len() > 0 {
        lemma_past_more(a, rest, at);
        lemma_plain_behind(a.skip(1), rest, class, at.past(a));
    }
}

/// The end of a head.
proof fn lemma_head_behind(a: Seq<char>, rest: Seq<char>, brackets: nat, at: Place)
    requires
        shut(a, at),
        css::head_end(a, brackets, at) == a.len(),
        rest.len() > 0,
        CharClass::Brace.has(rest[0]) || (rest[0] == ';' && brackets_after(a, brackets, at) == 0),
    ensures
        css::head_end(a + rest, brackets, at) == a.len(),
    decreases a.len(),
{
    if a.len() > 0 {
        lemma_past_more(a, rest, at);
        if at == Place::plain() && a[0] == '(' {
            lemma_head_behind(a.skip(1), rest, brackets + 1, at);
        } else if at == Place::plain() && a[0] == ')' && brackets > 0 {
            lemma_head_behind(a.skip(1), rest, (brackets - 1) as nat, at);
        } else {
            lemma_head_behind(a.skip(1), rest, brackets, at.past(a));
        }
    }
}

/// A text that does not start with white space is not trimmed at its start.
proof fn lemma_starts(s: Seq<char>)
    requires
        s.len() > 0,
        !chars::white_space(s[0]),
    ensures
        chars::first(s, CharClass::Space, false) == 0,
        s.skip(0) == s,
        chars::trim_start_of(s, CharClass::Space) == s,
{
    chars::lemma_first(s, CharClass::Space, false, 0);
    assert(s.skip(0) =~= s);
}

/// An `@` does not change what a head is.
proof fn lemma_at_head(head: Seq<char>)
    requires
        is_head(head),
    ensures
        is_head(seq!['@'] + head),
        brackets_after(seq!['@'] + head, 0, Place::plain()) == brackets_after(
            head,
            0,
            Place::plain(),
        ),
{
    let a = seq!['@'] + head;
    assert(a.skip(1) =~= head);
    assert(Place::plain().past(a) == Place::plain());
}

/// An at-rule with a block is passed over whole: whatever its block holds
/// never takes effect, and what follows it does. Nothing in a string ends its
/// head or its block.
pub proof fn law_at_rule_is_skipped(head: Seq<char>, block: Seq<char>, tail: Seq<char>)
    requires
        is_head(head),
        balanced(block),
    ensures
        css::rules_of(seq!['@'] + head + seq!['{'] + block + seq!['}'] + tail) == css::rules_of(
            tail,
        ),
{
    let s = seq!['@'] + head + seq!['{'] + block + seq!['}'] + tail;
    let a = seq!['@'] + head;
    let rest = block + (seq!['}'] + tail);
    assert(s =~= a + (seq!['{'] + rest));
    lemma_at_head(head);
    lemma_head_behind(a, seq!['{'] + rest, 0, Place::plain());
    assert(s.skip(a.len() as int + 1) =~= rest);
    lemma_starts(s);
    lemma_behind(block, 0, Place::plain(), tail);
    assert(css::rules_of(s) =~= css::rules_of(tail));
}

/// An at-rule without a block ends at its `;`, and what follows takes effect.
/// A `;` in a string or in round brackets does not end it.
pub proof fn law_at_statement_is_skipped(head: Seq<char>, tail: Seq<char>)
    requires
        is_head(head),
        brackets_after(head, 0, Place::plain()) == 0,
    ensures
        css::rules_of(seq!['@'] + head + seq![';'] + tail) == css::rules_of(tail),
{
    let s = seq!['@'] + head + seq![';'] + tail;
    let a = seq!['@'] + head;
    assert(s =~= a + (seq![';'] + tail));
    lemma_at_head(head);
    lemma_head_behind(a, seq![';'] + tail, 0, Place::plain());
    assert(s.skip(a.len() as int + 1) =~= tail);
    lemma_starts(s);
    assert(css::rules_of(s) =~= css::rules_of(tail));
}

/// An at-rule that never ends takes all that follows with it.
pub proof fn law_unfinished_at_rules_reach_to_the_end(head: Seq<char>)
    requires
        is_head(head),
    ensures
        css::rules_of(seq!['@'] + head).len() == 0,
{
    let s = seq!['@'] + head;
    lemma_at_head(head);
    lemma_starts(s);
    assert(css::rules_from(Seq::empty(), Place::plain()).len() == 0);
}

/// Whether what `s` starts with, white space apart, is not an at-rule.
pub open spec fn no_at_rule(s: Seq<char>) -> bool {
    let t = chars::trim_start_of(s, CharClass::Space);
    t.len() > 0 ==> t[0] != '@'
}

/// White space at the start of a text does not count where it is trimmed.
proof fn lemma_led_by_space(s: Seq<char>)
    requires
        s.len() > 0,
        chars::white_space(s[0]),
    ensures
        chars::trim_start_of(s, CharClass::Space) == chars::trim_start_of(
            s.skip(1),
            CharClass::Space,
        ),
{
    let n = chars::first(s.skip(1), CharClass::Space, false) as int;
    chars::lemma_first_is(s.skip(1), CharClass::Space, false);
    assert(s.skip(1).skip(n) =~= s.skip(n + 1));
}

/// White space in front of a stylesheet makes no difference.
proof fn lemma_sheet_led_by_space(css: Seq<char>, at: Place)
    requires
        css.len() > 0,
        chars::white_space(css[0]),
    ensures
        css::rules_from(css, at) == css::rules_from(css.skip(1), at.past(css)),
{
    lemma_led_by_space(css);
    let blank = chars::first(css, CharClass::Space, false) as int;
    assert(css::place_at(css, blank, at) == css::place_at(css.skip(1), blank - 1, at.past(css)));
    if css.len() == 1 {
        assert(css::first_item(css, at).rest =~= css.skip(1));
        assert(css::rules_from(css.skip(1), css::first_item(css, at).at) == Seq::<
            RuleText,
        >::empty());
        assert(css::rules_from(css, at) =~= css::rules_from(css.skip(1), at.past(css)));
    }
}

/// White space in front of a selector list makes no difference.
proof fn lemma_list_led_by_space(list: Seq<char>, decls: DeclProps)
    requires
        list.len() > 0,
        chars::white_space(list[0]),
    ensures
        css::rules_of_list(list, decls) == css::rules_of_list(list.skip(1), decls),
{
    let rest = list.skip(1);
    let comma = CharClass::Only(',');
    let k = chars::first(rest, comma, true) as int;
    chars::lemma_first_is(rest, comma, true);
    let part = list.take(k + 1);
    lemma_led_by_space(part);
    assert(part.skip(1) =~= rest.take(k));
    if k < rest.len() {
        assert(list.skip(k + 2) =~= rest.skip(k + 1));
    }
}

/// A space at the end of a text does not count where the text is trimmed.
proof fn lemma_trailing_space(s: Seq<char>)
    ensures
        chars::trim(s.push(' ')) == chars::trim(s),
{
    let t = s.push(' ');
    let space = CharClass::Space;
    let n = chars::first(s, space, false) as int;
    chars::lemma_first_is(s, space, false);
    if n < s.len() {
        assert forall|j: int| 0 <= j < n implies space.has(#[trigger] t[j]) by {
            assert(t[j] == s[j]);
        }
        chars::lemma_first(t, space, false, n);
        assert(t.skip(n).drop_last() =~= s.skip(n));
        assert(t.skip(n).last() == ' ');
    } else {
        assert forall|j: int| 0 <= j < t.len() implies space.has(#[trigger] t[j]) by {
            if j < s.len() {
                assert(t[j] == s[j]);
            }
        }
        chars::lemma_first(t, space, false, t.len() as int);
        assert(t.skip(t.len() as int) =~= s.skip(n));
    }
}

/// A space behind a selector list makes no difference.
proof fn lemma_list_trailing_space(list: Seq<char>, decls: DeclProps)
    ensures
        css::rules_of_list(list.push(' '), decls) == css::rules_of_list(list, decls),
    decreases list.len(),
{
    let comma = CharClass::Only(',');
    let k = chars::first(list, comma, true) as int;
    chars::lemma_first_is(list, comma, true);
    let t = list.push(' ');
    if k < list.len() {
        assert forall|j: int| 0 <= j < k implies !comma.has(#[trigger] t[j]) by {
            assert(t[j] == list[j]);
        }
        chars::lemma_first(t, comma, true, k);
        assert(t.take(k) =~= list.take(k));
        assert(t.skip(k + 1) =~= list.skip(k + 1).push(' '));
        lemma_list_trailing_space(list.skip(k + 1), decls);
    } else {
        assert forall|j: int| 0 <= j < t.len() implies !comma.has(#[trigger] t[j]) by {
            if j < list.len() {
                assert(t[j] == list[j]);
            }
        }
        chars::lemma_first(t, comma, true, t.len() as int);
        assert(t.take(t.len() as int) =~= t);
        assert(list.take(k) =~= list);
        lemma_trailing_space(list);
    }
}

/// Where a character of a class does not come, none comes first.
proof fn lemma_none_before(s: Seq<char>, class: CharClass, n: int, at: Place)
    requires
        0 <= n <= s.len(),
        forall|i: int| 0 <= i < n ==> !class.has(#[trigger] s[i]),
    ensures
        css::first_plain(s, class, at) >= n,
    decreases n,
{
    if n > 0 {
        assert(!class.has(s[0]));
        let rest = s.skip(1);
        assert forall|i: int| 0 <= i < n - 1 implies !class.has(#[trigger] rest[i]) by {
            assert(rest[i] == s[i + 1]);
        }
        lemma_none_before(rest, class, n - 1, at.past(s));
    }
}

proof fn lemma_place_chain(s: Seq<char>, a: int, b: int, at: Place)
    requires
        0 <= a <= s.len(),
        0 <= b,
    ensures
        css::place_at(s, a + b, at) == css::place_at(s.skip(a), b, css::place_at(s, a, at)),
    decreases a,
{
    if a > 0 {
        lemma_place_chain(s.skip(1), a - 1, b, at.past(s));
        assert(s.skip(1).skip(a - 1) =~= s.skip(a));
    } else {
        assert(s.skip(0) =~= s);
    }
}

/// A rule and what follows it, wherever they start.
#[verifier::spinoff_prover]
#[verifier::rlimit(60)]
proof fn lemma_rule(selectors: Seq<char>, body: Seq<char>, tail: Seq<char>, at: Place)
    requires
        no_at_rule(selectors),
        free_of(selectors, CharClass::Brace),
        free_of(body, CharClass::Brace),
    ensures
        ({
            let s = selectors.push('{') + (body.push('}') + tail);
            css::rules_from(s, at) == css::rules_of_list(selectors, css::declarations(body))
                + css::rules_from(
                tail,
                css::place_at(s, (selectors.len() + body.len() + 2) as int, at),
            )
        }),
    decreases selectors.len(),
{
    let s = selectors.push('{') + (body.push('}') + tail);
    if selectors.len() > 0 && chars::white_space(selectors[0]) {
        let rest = selectors.skip(1);
        lemma_led_by_space(selectors);
        assert forall|i: int| 0 <= i < rest.len() implies !CharClass::Brace.has(
            #[trigger] rest[i],
        ) by {
            assert(rest[i] == selectors[i + 1]);
        }
        lemma_rule(rest, body, tail, at.past(s));
        lemma_list_led_by_space(selectors, css::declarations(body));
        lemma_sheet_led_by_space(s, at);
        assert(s.skip(1) =~= rest.push('{') + (body.push('}') + tail));
    } else {
        if selectors.len() > 0 {
            lemma_starts(selectors);
        }
        let k = selectors.len() as int;
        let end = body.len() as int;
        let block = body.push('}') + tail;
        let inside = css::place_at(s, k + 1, at);
        lemma_first_behind(selectors, '{', block, CharClass::Brace);
        assert(free_of(body, CharClass::Only('}')));
        lemma_first_behind(body, '}', tail, CharClass::Only('}'));
        lemma_starts(s);
        assert forall|i: int| 0 <= i < end implies !CharClass::Only('{').has(
            #[trigger] block[i],
        ) by {
            assert(block[i] == body[i]);
        }
        lemma_none_before(block, CharClass::Only('{'), end, inside);
        lemma_place_chain(s, k + 1, end + 1, at);
        assert(css::place_at(s, 0, at) == at);
    }
}

/// Behind a text that closes its strings, and a brace, stands no string.
proof fn lemma_place_behind(a: Seq<char>, c: char, b: Seq<char>)
    requires
        shut(a, Place::plain()),
        CharClass::Brace.has(c),
    ensures
        css::place_at(a.push(c) + b, a.len() as int + 1, Place::plain()) == Place::plain(),
{
    let rest = seq![c] + b;
    assert(a.push(c) + b =~= a + rest);
    lemma_place_shut(a, rest, Place::plain());
    lemma_place_chain(a + rest, a.len() as int, 1, Place::plain());
    assert((a + rest).skip(a.len() as int) =~= rest);
    assert(css::place_at(rest, 1, Place::plain()) == css::place_at(
        rest.skip(1),
        0,
        Place::plain().past(rest),
    ));
}

/// A rule and what follows it take effect independently: the rule gives its
/// selectors its declarations, whatever white space is around them.
pub proof fn law_rules_in_order(selectors: Seq<char>, body: Seq<char>, tail: Seq<char>)
    requires
        no_at_rule(selectors),
        free_of(selectors, CharClass::Brace),
        free_of(body, CharClass::Brace),
        shut(selectors, Place::plain()),
        shut(body, Place::plain()),
    ensures
        css::rules_of(selectors.push('{') + (body.push('}') + tail)) == css::rules_of_list(
            selectors,
            css::declarations(body),
        ) + css::rules_of(tail),
{
    let s = selectors.push('{') + (body.push('}') + tail);
    let block = body.push('}') + tail;
    lemma_rule(selectors, body, tail, Place::plain());
    lemma_place_behind(selectors, '{', block);
    lemma_place_behind(body, '}', tail);
    let k = selectors.len() as int;
    lemma_place_chain(s, k + 1, body.len() as int + 1, Place::plain());
    assert(s.skip(k + 1) =~= block);
}

/// A block that is never closed reaches to the end, and its declarations count.
pub proof fn law_unclosed_blocks_reach_to_the_end(selectors: Seq<char>, body: Seq<char>)
    requires
        no_at_rule(selectors),
        free_of(selectors, CharClass::Brace),
        free_of(body, CharClass::Brace),
    ensures
        css::rules_of(selectors.push('{') + body) == css::rules_of_list(
            selectors,
            css::declarations(body),
        ),
{
    lemma_unclosed(selectors, body, Place::plain());
}

#[verifier::spinoff_prover]
#[verifier::rlimit(60)]
proof fn lemma_unclosed(selectors: Seq<char>, body: Seq<char>, at: Place)
    requires
        no_at_rule(selectors),
        free_of(selectors, CharClass::Brace),
        free_of(body, CharClass::Brace),
    ensures
        css::rules_from(selectors.push('{') + body, at) == css::rules_of_list(
            selectors,
            css::declarations(body),
        ),
    decreases selectors.len(),
{
    let s = selectors.push('{') + body;
    if selectors.len() > 0 && chars::white_space(selectors[0]) {
        let rest = selectors.skip(1);
        lemma_led_by_space(selectors);
        assert forall|i: int| 0 <= i < rest.len() implies !CharClass::Brace.has(
            #[trigger] rest[i],
        ) by {
            assert(rest[i] == selectors[i + 1]);
        }
        lemma_unclosed(rest, body, at.past(s));
        lemma_list_led_by_space(selectors, css::declarations(body));
        lemma_sheet_led_by_space(s, at);
        assert(s.skip(1) =~= rest.push('{') + body);
    } else {
        if selectors.len() > 0 {
            lemma_starts(selectors);
        }
        let k = selectors.len() as int;
        let end = body.len() as int;
        let inside = css::place_at(s, k + 1, at);
        lemma_first_behind(selectors, '{', body, CharClass::Brace);
        assert(free_of(body, CharClass::Only('}')));
        chars::lemma_first(body, CharClass::Only('}'), true, end);
        assert(body.take(end) =~= body);
        lemma_starts(s);
        lemma_none_before(body, CharClass::Only('{'), end, inside);
        assert(css::place_at(s, 0, at) == at);
        assert(css::rules_from(Seq::empty(), Place::plain()) =~= Seq::<RuleText>::empty());
        assert(css::rules_from(s, at) =~= css::rules_of_list(selectors, css::declarations(body)));
    }
}

/// What has no brace has no rules, and a `}` where no block is open is passed
/// over with what stands before it.
pub proof fn law_braces_make_the_rules(text: Seq<char>, tail: Seq<char>)
    requires
        no_at_rule(text),
        free_of(text, CharClass::Brace),
        shut(text, Place::plain()),
    ensures
        css::rules_of(text).len() == 0,
        css::rules_of(text.push('}') + tail) == css::rules_of(tail),
{
    lemma_no_rules(text, Place::plain());
    lemma_stray(text, tail, Place::plain());
    lemma_place_behind(text, '}', tail);
}

proof fn lemma_no_rules(text: Seq<char>, at: Place)
    requires
        no_at_rule(text),
        free_of(text, CharClass::Brace),
    ensures
        css::rules_from(text, at).len() == 0,
{
    if text.len() > 0 {
        let blank = chars::first(text, CharClass::Space, false) as int;
        chars::lemma_first_is(text, CharClass::Space, false);
        let s = text.skip(blank);
        assert forall|j: int| 0 <= j < s.len() implies CharClass::Brace.has(#[trigger] s[j])
            != true by {
            assert(s[j] == text[j + blank]);
        }
        chars::lemma_first(s, CharClass::Brace, true, s.len() as int);
        let item = css::first_item(text, at);
        assert(item.rules.len() == 0 && item.rest.len() == 0);
        assert(css::rules_from(item.rest, item.at).len() == 0);
    }
}

#[verifier::spinoff_prover]
#[verifier::rlimit(60)]
proof fn lemma_stray(text: Seq<char>, tail: Seq<char>, at: Place)
    requires
        no_at_rule(text),
        free_of(text, CharClass::Brace),
    ensures
        css::rules_from(text.push('}') + tail, at) == css::rules_from(
            tail,
            css::place_at(text.push('}') + tail, text.len() as int + 1, at),
        ),
    decreases text.len(),
{
    let s = text.push('}') + tail;
    if text.len() > 0 && chars::white_space(text[0]) {
        let rest = text.skip(1);
        lemma_led_by_space(text);
        assert forall|i: int| 0 <= i < rest.len() implies !CharClass::Brace.has(
            #[trigger] rest[i],
        ) by {
            assert(rest[i] == text[i + 1]);
        }
        lemma_stray(rest, tail, at.past(s));
        lemma_sheet_led_by_space(s, at);
        assert(s.skip(1) =~= rest.push('}') + tail);
    } else {
        if text.len() > 0 {
            lemma_starts(text);
        }
        lemma_first_behind(text, '}', tail, CharClass::Brace);
        lemma_starts(s);
        assert(css::place_at(s, 0, at) == at);
        assert(css::rules_from(s, at) =~= css::rules_from(
            tail,
            css::place_at(s, text.len() as int + 1, at),
        ));
    }
}

/// Whether no comment starts in `s`.
pub open spec fn uncommented(s: Seq<char>) -> bool {
    forall|j: int|
        0 <= j < s.len() ==> !(#[trigger] s[j] == '/' && j + 1 < s.len() && s[j + 1] == '*')
}

/// A text without comments stays as it is when they are taken out.
proof fn lemma_uncommented(s: Seq<char>)
    requires
        uncommented(s),
    ensures
        css::without_comments(s) == s,
{
    css::lemma_first_pair(s, '/', '*', s.len() as int);
}

/// Two texts in which no comment starts, joined where none starts either.
proof fn lemma_joined(a: Seq<char>, b: Seq<char>)
    requires
        uncommented(a),
        uncommented(b),
        a.len() > 0 && b.len() > 0 ==> a.last() != '/' || b[0] != '*',
    ensures
        uncommented(a + b),
{
    let s = a + b;
    assert forall|j: int| 0 <= j < s.len() implies !(#[trigger] s[j] == '/' && j + 1 < s.len()
        && s[j + 1] == '*') by {
        if j < a.len() {
            assert(s[j] == a[j]);
        } else {
            assert(s[j] == b[j - a.len()]);
        }
    }
}

/// What does not start with an at-rule does not start with one in front of
/// something else either.
proof fn lemma_no_at_rule(s: Seq<char>, t: Seq<char>)
    requires
        no_at_rule(s),
        no_at_rule(t),
    ensures
        no_at_rule(s + t),
    decreases s.len(),
{
    let all = s + t;
    if s.len() == 0 {
        assert(all =~= t);
    } else if chars::white_space(s[0]) {
        lemma_led_by_space(s);
        lemma_led_by_space(all);
        lemma_no_at_rule(s.skip(1), t);
        assert(all.skip(1) =~= s.skip(1) + t);
    } else {
        lemma_starts(s);
        lemma_starts(all);
    }
}

/// The rules of a stylesheet that is one rule.
proof fn lemma_one_rule(selectors: Seq<char>, body: Seq<char>, at: Place)
    requires
        no_at_rule(selectors),
        free_of(selectors, CharClass::Brace),
        free_of(body, CharClass::Brace),
    ensures
        css::rules_from(selectors.push('{') + body.push('}'), at) == css::rules_of_list(
            selectors,
            css::declarations(body),
        ),
{
    let none = Seq::<char>::empty();
    lemma_rule(selectors, body, none, at);
    assert(body.push('}') + none =~= body.push('}'));
    assert(css::rules_from(selectors.push('{') + body.push('}'), at) =~= css::rules_of_list(
        selectors,
        css::declarations(body),
    ));
}

/// The list `s1, s2` as it stands in front of a block, and its two parts.
proof fn lemma_list_of_two(s1: Seq<char>, s2: Seq<char>)
    requires
        no_at_rule(s1),
        no_at_rule(s2),
        free_of(s1, CharClass::Brace),
        free_of(s2, CharClass::Brace),
    ensures
        no_at_rule(s1.push(' ')),
        no_at_rule(seq![' '] + s2.push(' ')),
        no_at_rule(s1.push(',') + (seq![' '] + s2.push(' '))),
        free_of(s1.push(' '), CharClass::Brace),
        free_of(seq![' '] + s2.push(' '), CharClass::Brace),
        free_of(s1.push(',') + (seq![' '] + s2.push(' ')), CharClass::Brace),
{
    let second = seq![' '] + s2.push(' ');
    assert(s1 + seq![','] =~= s1.push(','));
    assert(s1 + seq![' '] =~= s1.push(' '));
    assert(s2 + seq![' '] =~= s2.push(' '));
    lemma_starts(seq![',']);
    lemma_led_by_space(seq![' ']);
    assert(no_at_rule(seq![' ']));
    lemma_no_at_rule(s1, seq![',']);
    lemma_no_at_rule(s1, seq![' ']);
    lemma_no_at_rule(s2, seq![' ']);
    lemma_no_at_rule(seq![' '], s2.push(' '));
    lemma_no_at_rule(s1.push(','), second);
}

/// The same rules come of one rule for a list as of a rule for each part.
proof fn lemma_list_in_parts(s1: Seq<char>, s2: Seq<char>, body: Seq<char>)
    requires
        no_at_rule(s1),
        no_at_rule(s2),
        free_of(s1, CharClass::Brace),
        free_of(s2, CharClass::Brace),
        free_of(body, CharClass::Brace),
    ensures
        css::rules_of((s1.push(',') + (seq![' '] + s2.push(' '))).push('{') + body.push('}'))
            == css::rules_of(
            s1.push(' ').push('{') + (body.push('}') + ((seq![' '] + s2.push(' ')).push('{')
                + body.push('}'))),
        ),
{
    let decls = css::declarations(body);
    let second = seq![' '] + s2.push(' ');
    lemma_list_of_two(s1, s2);
    let last = second.push('{') + body.push('}');
    let apart = s1.push(' ').push('{') + (body.push('}') + last);
    lemma_one_rule(s1.push(',') + second, body, Place::plain());
    law_list_parts_are_independent(s1, second, decls);
    lemma_rule(s1.push(' '), body, last, Place::plain());
    lemma_list_trailing_space(s1, decls);
    lemma_one_rule(
        second,
        body,
        css::place_at(apart, (s1.len() + 1 + body.len() + 2) as int, Place::plain()),
    );
}

/// No comment starts in `s` followed by a block.
proof fn lemma_rule_uncommented(s: Seq<char>, body: Seq<char>, tail: Seq<char>)
    requires
        uncommented(s),
        uncommented(body),
        uncommented(tail),
        tail.len() > 0,
        tail[0] != '*',
    ensures
        uncommented(s + seq![' ', '{'] + body + tail),
{
    lemma_joined(s, seq![' ', '{']);
    lemma_joined(s + seq![' ', '{'], body);
    lemma_joined(s + seq![' ', '{'] + body, tail);
}

/// Adding a rule for a list of selectors adds the same as adding the rule for
/// each of them in turn.
pub proof fn law_selector_list_is_its_parts(s1: Seq<char>, s2: Seq<char>, body: Seq<char>)
    requires
        no_at_rule(s1),
        no_at_rule(s2),
        free_of(s1, CharClass::Brace),
        free_of(s2, CharClass::Brace),
        free_of(body, CharClass::Brace),
        uncommented(s1),
        uncommented(s2),
        uncommented(body),
    ensures
        css::rules_of(
            css::without_comments(s1 + seq![',', ' '] + s2 + seq![' ', '{'] + body + seq!['}']),
        ) == css::rules_of(
            css::without_comments(
                s1 + seq![' ', '{'] + body + seq!['}', ' '] + s2 + seq![' ', '{'] + body + seq![
                    '}',
                ],
            ),
        ),
{
    let both = s1 + seq![',', ' '] + s2;
    let joint = both + seq![' ', '{'] + body + seq!['}'];
    lemma_joined(s1, seq![',', ' ']);
    lemma_joined(s1 + seq![',', ' '], s2);
    lemma_rule_uncommented(both, body, seq!['}']);
    lemma_uncommented(joint);

    let one = s1 + seq![' ', '{'] + body + seq!['}', ' '];
    let apart = one + s2 + seq![' ', '{'] + body + seq!['}'];
    lemma_rule_uncommented(s1, body, seq!['}', ' ']);
    lemma_joined(one, s2);
    lemma_rule_uncommented(one + s2, body, seq!['}']);
    lemma_uncommented(apart);

    let second = seq![' '] + s2.push(' ');
    assert(joint =~= (s1.push(',') + second).push('{') + body.push('}'));
    assert(apart =~= s1.push(' ').push('{') + (body.push('}') + (second.push('{') + body.push(
        '}',
    ))));
    lemma_list_in_parts(s1, s2, body);
}

/// A rule whose block nests another is passed over whole. What stands in a
/// string nests nothing.
pub proof fn law_nested_block_is_skipped(
    selectors: Seq<char>,
    lead: Seq<char>,
    inner: Seq<char>,
    tail: Seq<char>,
)
    requires
        no_at_rule(selectors),
        free_of(selectors, CharClass::Brace),
        shut(selectors, Place::plain()),
        free_of(lead, CharClass::Only('}')),
        shut_without(lead, CharClass::Only('{')),
        shut(inner, Place::plain()),
        depth_after(inner, 1, Place::plain()) == Some(0nat),
    ensures
        css::rules_of(
            selectors.push('{') + (lead + (seq!['{'] + (inner + (seq!['}'] + tail)))),
        ) == css::rules_of(tail),
{
    lemma_nested(selectors, lead, inner, tail, Place::plain());
}

#[verifier::spinoff_prover]
#[verifier::rlimit(60)]
proof fn lemma_nested(
    selectors: Seq<char>,
    lead: Seq<char>,
    inner: Seq<char>,
    tail: Seq<char>,
    at: Place,
)
    requires
        no_at_rule(selectors),
        free_of(selectors, CharClass::Brace),
        shut(selectors, at),
        free_of(lead, CharClass::Only('}')),
        shut_without(lead, CharClass::Only('{')),
        shut(inner, Place::plain()),
        depth_after(inner, 1, Place::plain()) == Some(0nat),
    ensures
        css::rules_from(
            selectors.push('{') + (lead + (seq!['{'] + (inner + (seq!['}'] + tail)))),
            at,
        ) == css::rules_of(tail),
    decreases selectors.len(),
{
    let rest = inner + (seq!['}'] + tail);
    let block = lead + (seq!['{'] + rest);
    let s = selectors.push('{') + block;
    assert(s =~= selectors + (seq!['{'] + block));
    if selectors.len() > 0 && chars::white_space(selectors[0]) {
        let shorter = selectors.skip(1);
        lemma_led_by_space(selectors);
        assert forall|i: int| 0 <= i < shorter.len() implies !CharClass::Brace.has(
            #[trigger] shorter[i],
        ) by {
            assert(shorter[i] == selectors[i + 1]);
        }
        lemma_past_more(selectors, seq!['{'] + block, at);
        lemma_nested(shorter, lead, inner, tail, at.past(selectors));
        lemma_sheet_led_by_space(s, at);
        assert(s.skip(1) =~= shorter.push('{') + block);
    } else {
        if selectors.len() > 0 {
            lemma_starts(selectors);
        }
        let k = selectors.len() as int;
        lemma_first_behind(selectors, '{', block, CharClass::Brace);
        lemma_starts(s);
        lemma_place_shut(selectors, seq!['{'] + block, at);
        lemma_place_chain(s, k, 1, at);
        let open = s.skip(k);
        assert(open[0] == '{');
        assert(css::place_at(open, 1, Place::plain()) == css::place_at(
            open.skip(1),
            0,
            Place::plain().past(open),
        ));
        let end = chars::first(block, CharClass::Only('}'), true) as int;
        chars::lemma_first_is(block, CharClass::Only('}'), true);
        assert(end > lead.len()) by {
            if end < lead.len() {
                assert(block[end] == lead[end]);
            } else if end == lead.len() {
                assert(block[end] == '{');
            }
        }
        lemma_plain_behind(lead, seq!['{'] + rest, CharClass::Only('{'), Place::plain());
        lemma_behind_lead(lead, rest, 1, Place::plain());
        lemma_behind(inner, 1, Place::plain(), tail);
        assert(css::place_at(s, 0, at) == at);
        assert(css::rules_from(s, at) =~= css::rules_of(tail));
    }
}

proof fn lemma_behind_lead(lead: Seq<char>, rest: Seq<char>, depth: nat, at: Place)
    requires
        free_of(lead, CharClass::Only('}')),
        shut(lead, at),
        css::first_plain(lead, CharClass::Only('{'), at) == lead.len(),
    ensures
        css::behind_blocks(lead + (seq!['{'] + rest), depth, at) == css::behind_blocks(
            rest,
            depth + 1,
            Place::plain(),
        ),
    decreases lead.len(),
{
    let more = seq!['{'] + rest;
    if lead.len() == 0 {
        assert((lead + more).skip(1) =~= rest);
    } else {
        assert(!CharClass::Only('}').has(lead[0]));
        let shorter = lead.skip(1);
        assert forall|i: int| 0 <= i < shorter.len() implies !CharClass::Only('}').has(
            #[trigger] shorter[i],
        ) by {
            assert(shorter[i] == lead[i + 1]);
        }
        lemma_past_more(lead, more, at);
        lemma_behind_lead(shorter, rest, depth, at.past(lead));
    }
}

/// Whether a rule stands in one of the two tiers for rules, at the place that
/// its selector's specificity gives it.
pub open spec fn in_a_tier(rule: RuleText) -> bool {
    ||| rule.priority == rule.selector.specificity()
    ||| rule.priority == IMPORTANT_PRIORITY + rule.selector.specificity()
}

proof fn lemma_list_priorities(list: Seq<char>, decls: DeclProps)
    ensures
        forall|k: int|
            0 <= k < css::rules_of_list(list, decls).len() ==> in_a_tier(
                #[trigger] css::rules_of_list(list, decls)[k],
            ),
    decreases list.len(),
{
    let n = chars::first(list, CharClass::Only(','), true) as int;
    chars::lemma_first_is(list, CharClass::Only(','), true);
    let here = match css::selector(chars::trim(list.take(n))) {
        Some(sel) => css::rule_in_tier(sel, decls.normal, 0) + css::rule_in_tier(
            sel,
            decls.important,
            IMPORTANT_PRIORITY,
        ),
        None => Seq::empty(),
    };
    let all = css::rules_of_list(list, decls);
    if n < list.len() {
        lemma_list_priorities(list.skip(n + 1), decls);
    }
    assert forall|k: int| 0 <= k < all.len() implies in_a_tier(#[trigger] all[k]) by {
        if k >= here.len() {
            let rest = css::rules_of_list(list.skip(n + 1), decls);
            assert(all[k] == rest[k - here.len()]);
        }
    }
}

proof fn lemma_rule_priorities(css: Seq<char>, at: Place, k: int)
    requires
        0 <= k < css::rules_from(css, at).len(),
    ensures
        in_a_tier(css::rules_from(css, at)[k]),
    decreases css.len(),
{
    css::lemma_first_item(css, at);
    let item = css::first_item(css, at);
    if k >= item.rules.len() {
        lemma_rule_priorities(item.rest, item.at, k - item.rules.len());
    } else {
        let s = chars::trim_start_of(css, CharClass::Space);
        let b = chars::first(s, CharClass::Brace, true) as int;
        let block = s.skip(b + 1);
        let end = chars::first(block, CharClass::Only('}'), true) as int;
        lemma_list_priorities(s.take(b), css::declarations(block.take(end)));
    }
}

/// Every rule of a stylesheet stands in one of the two tiers for rules, at
/// the place that its selector's specificity gives it.
pub proof fn law_rule_priorities(css: Seq<char>, k: int)
    requires
        0 <= k < css::rules_of(css).len(),
    ensures
        in_a_tier(css::rules_of(css)[k]),
{
    lemma_rule_priorities(css, Place::plain(), k);
}

} // verus!
