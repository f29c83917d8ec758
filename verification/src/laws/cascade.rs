//! What the cascade promises: which declaration wins, and that the hiding
//! properties do not cancel each other.

use crate::cascade;
use crate::cascade::Entry;
use crate::chars;
use crate::css;
use crate::css::{RuleText, Selector, StyleProps, IMPORTANT_PRIORITY, INLINE_PRIORITY};
use crate::style;
use crate::xml::Element;
use vstd::prelude::*;

verus! {

/// The properties that take part in the cascade.
pub enum Property {
    Bold,
    Italic,
    Strike,
    Code,
    Display,
    Visibility,
    Opacity,
    FontSize,
}

impl Property {
    /// What `p` sets the property to, if it does.
    pub open spec fn of(self, p: StyleProps) -> Option<bool> {
        match self {
            Property::Bold => p.delta.bold,
            Property::Italic => p.delta.italic,
            Property::Strike => p.delta.strike,
            Property::Code => p.delta.code,
            Property::Display => p.display_none,
            Property::Visibility => p.visibility_hidden,
            Property::Opacity => p.opacity_zero,
            Property::FontSize => p.font_size_zero,
        }
    }

    /// Whether an entry sets the property.
    pub open spec fn is_set_by(self, e: Entry) -> bool {
        self.of(e.props) is Some
    }
}

/// Whether entry `i` outranks every other one that sets the property: by its
/// priority, or by coming later at the same priority.
pub open spec fn outranks(entries: Seq<Entry>, i: int, p: Property) -> bool {
    &&& 0 <= i < entries.len()
    &&& p.is_set_by(entries[i])
    &&& forall|j: int|
        0 <= j < entries.len() && j != i && p.is_set_by(#[trigger] entries[j])
            ==> entries[j].priority < entries[i].priority || (entries[j].priority
            == entries[i].priority && j < i)
}

spec fn ascending(s: Seq<Entry>) -> bool {
    forall|i: int, j: int| 0 <= i <= j < s.len() ==> s[i].priority <= s[j].priority
}

/// Whether an entry above that priority sets the property.
spec fn set_above(s: Seq<Entry>, priority: u32, p: Property) -> bool {
    exists|k: int|
        0 <= k < s.len() && (#[trigger] s[k]).priority > priority && p.is_set_by(s[k])
}

proof fn lemma_placed(s: Seq<Entry>, e: Entry, p: Property)
    requires
        ascending(s),
    ensures
        ascending(cascade::placed(s, e)),
        forall|x: Entry| #[trigger]
            cascade::placed(s, e).contains(x) <==> (s.contains(x) || x == e),
        p.of(cascade::merged(cascade::placed(s, e))) == if set_above(s, e.priority, p)
            || !p.is_set_by(e) {
            p.of(cascade::merged(s))
        } else {
            p.of(e.props)
        },
    decreases s.len(),
{
    let placed = cascade::placed(s, e);
    if s.len() > 0 && s.last().priority > e.priority {
        let rest = s.drop_last();
        assert(ascending(rest));
        lemma_placed(rest, e, p);
        let inner = cascade::placed(rest, e);
        assert(placed == inner.push(s.last()));
        assert(placed.drop_last() =~= inner);
        assert forall|x: Entry| #[trigger] placed.contains(x) <==> (s.contains(x) || x == e) by {
            assert(inner.contains(x) <==> (rest.contains(x) || x == e));
            if placed.contains(x) {
                let k = choose|k: int| 0 <= k < placed.len() && placed[k] == x;
                if k < inner.len() {
                    assert(inner[k] == x);
                    if rest.contains(x) {
                        let m = choose|m: int| 0 <= m < rest.len() && rest[m] == x;
                        assert(s[m] == x);
                    }
                } else {
                    assert(s[s.len() - 1] == x);
                }
            }
            if s.contains(x) {
                let k = choose|k: int| 0 <= k < s.len() && s[k] == x;
                if k < rest.len() {
                    assert(rest[k] == x);
                    let m = choose|m: int| 0 <= m < inner.len() && inner[m] == x;
                    assert(placed[m] == x);
                } else {
                    assert(placed[inner.len() as int] == x);
                }
            }
            if x == e {
                let m = choose|m: int| 0 <= m < inner.len() && inner[m] == x;
                assert(placed[m] == x);
            }
        }
        assert forall|i: int, j: int| 0 <= i <= j < placed.len() implies placed[i].priority
            <= placed[j].priority by {
            if j == inner.len() && i < j {
                assert(inner.contains(inner[i]));
                if rest.contains(inner[i]) {
                    let m = choose|m: int| 0 <= m < rest.len() && rest[m] == inner[i];
                    assert(s[m].priority <= s[s.len() - 1].priority);
                }
            }
        }
        if p.is_set_by(s.last()) {
            assert(s[s.len() - 1].priority > e.priority);
            assert(set_above(s, e.priority, p));
        } else {
            assert(set_above(s, e.priority, p) <==> set_above(rest, e.priority, p)) by {
                if set_above(rest, e.priority, p) {
                    let k = choose|k: int|
                        0 <= k < rest.len() && (#[trigger] rest[k]).priority > e.priority
                            && p.is_set_by(rest[k]);
                    assert(s[k] == rest[k]);
                }
                if set_above(s, e.priority, p) {
                    let k = choose|k: int|
                        0 <= k < s.len() && (#[trigger] s[k]).priority > e.priority
                            && p.is_set_by(s[k]);
                    assert(k < rest.len());
                    assert(s[k] == rest[k]);
                }
            }
        }
    } else {
        assert(placed.drop_last() =~= s);
        assert forall|x: Entry| #[trigger] placed.contains(x) <==> (s.contains(x) || x == e) by {
            if s.contains(x) {
                let k = choose|k: int| 0 <= k < s.len() && s[k] == x;
                assert(placed[k] == x);
            }
            if x == e {
                assert(placed[s.len() as int] == x);
            }
            if placed.contains(x) {
                let k = choose|k: int| 0 <= k < placed.len() && placed[k] == x;
                if k < s.len() {
                    assert(s[k] == x);
                }
            }
        }
    }
}

proof fn lemma_in_order(entries: Seq<Entry>)
    ensures
        ascending(cascade::in_order(entries)),
        forall|x: Entry| #[trigger]
            cascade::in_order(entries).contains(x) <==> entries.contains(x),
    decreases entries.len(),
{
    if entries.len() > 0 {
        let rest = entries.drop_last();
        lemma_in_order(rest);
        lemma_placed(cascade::in_order(rest), entries.last(), Property::Bold);
        assert forall|x: Entry| #[trigger]
            cascade::in_order(entries).contains(x) <==> entries.contains(x) by {
            assert(cascade::in_order(rest).contains(x) <==> rest.contains(x));
            if rest.contains(x) {
                let k = choose|k: int| 0 <= k < rest.len() && rest[k] == x;
                assert(entries[k] == x);
            }
            if entries.contains(x) {
                let k = choose|k: int| 0 <= k < entries.len() && entries[k] == x;
                if k < rest.len() {
                    assert(rest[k] == x);
                }
            }
            if x == entries.last() {
                assert(entries[entries.len() - 1] == x);
            }
        }
    }
}

proof fn lemma_winner(entries: Seq<Entry>, i: int, p: Property)
    requires
        outranks(entries, i, p),
    ensures
        p.of(cascade::merged(cascade::in_order(entries))) == p.of(entries[i].props),
    decreases entries.len(),
{
    let rest = entries.drop_last();
    let e = entries.last();
    let sorted = cascade::in_order(rest);
    lemma_in_order(rest);
    lemma_placed(sorted, e, p);
    if i == entries.len() - 1 {
        if set_above(sorted, e.priority, p) {
            let k = choose|k: int|
                0 <= k < sorted.len() && (#[trigger] sorted[k]).priority > e.priority
                    && p.is_set_by(sorted[k]);
            assert(sorted.contains(sorted[k]));
            assert(rest.contains(sorted[k]));
            let m = choose|m: int| 0 <= m < rest.len() && rest[m] == sorted[k];
            assert(entries[m] == sorted[k]);
        }
    } else {
        assert(rest[i] == entries[i]);
        assert(outranks(rest, i, p)) by {
            assert forall|j: int|
                0 <= j < rest.len() && j != i && p.is_set_by(
                    #[trigger] rest[j],
                ) implies rest[j].priority < rest[i].priority || (rest[j].priority
                == rest[i].priority && j < i) by {
                assert(entries[j] == rest[j]);
            }
        }
        lemma_winner(rest, i, p);
        if p.is_set_by(e) {
            assert(entries[entries.len() - 1] == e);
            assert(rest.contains(rest[i]));
            assert(sorted.contains(rest[i]));
            let k = choose|k: int| 0 <= k < sorted.len() && sorted[k] == rest[i];
            assert(sorted[k].priority > e.priority);
        }
    }
}

proof fn lemma_unset(entries: Seq<Entry>, p: Property)
    requires
        forall|j: int| 0 <= j < entries.len() ==> !p.is_set_by(#[trigger] entries[j]),
    ensures
        p.of(cascade::merged(cascade::in_order(entries))) is None,
    decreases entries.len(),
{
    if entries.len() > 0 {
        let rest = entries.drop_last();
        assert forall|j: int| 0 <= j < rest.len() implies !p.is_set_by(#[trigger] rest[j]) by {
            assert(entries[j] == rest[j]);
        }
        lemma_unset(rest, p);
        lemma_in_order(rest);
        lemma_placed(cascade::in_order(rest), entries.last(), p);
        assert(!p.is_set_by(entries[entries.len() - 1]));
    }
}

/// The entry that outranks all others decides a property: the one of the
/// highest priority that sets it, the last in source order among equals.
pub proof fn law_highest_priority_wins(
    rules: Seq<RuleText>,
    elem: Element,
    i: int,
    p: Property,
)
    requires
        outranks(cascade::applying(rules, elem), i, p),
    ensures
        p.of(cascade::resolved(rules, elem)) == p.of(cascade::applying(rules, elem)[i].props),
{
    lemma_winner(cascade::applying(rules, elem), i, p);
}

/// A property that nothing sets stays unset.
pub proof fn law_unset_stays_unset(rules: Seq<RuleText>, elem: Element, p: Property)
    requires
        forall|j: int|
            0 <= j < cascade::applying(rules, elem).len() ==> !p.is_set_by(
                #[trigger] cascade::applying(rules, elem)[j],
            ),
    ensures
        p.of(cascade::resolved(rules, elem)) is None,
{
    lemma_unset(cascade::applying(rules, elem), p);
}

/// The tiers are apart: any rule ranks below an inline style, which ranks
/// below any `!important` rule, which ranks below an `!important` inline
/// style.
pub proof fn law_tiers(sel: Selector)
    ensures
        sel.specificity() < INLINE_PRIORITY,
        INLINE_PRIORITY < IMPORTANT_PRIORITY + sel.specificity(),
        IMPORTANT_PRIORITY + sel.specificity() < IMPORTANT_PRIORITY + INLINE_PRIORITY,
{
}

/// Within a tier an id outweighs classes and attributes, which outweigh a
/// tag.
pub proof fn law_specificity(a: Selector, b: Selector)
    ensures
        a.id is Some && b.id is None ==> a.specificity() > b.specificity(),
        a.id is None && b.id is None && (a.class is Some || a.attr is Some) && b.class is None
            && b.attr is None ==> a.specificity() > b.specificity(),
{
}

/// The hiding properties do not cancel each other: an element is hidden as
/// soon as one of the three resolves to hiding, whatever the others say.
pub proof fn law_each_trigger_hides(rules: Seq<RuleText>, elem: Element)
    ensures
        ({
            let p = cascade::resolved(rules, elem);
            style::on(p.display_none) || style::on(p.visibility_hidden) || style::on(
                p.opacity_zero,
            ) ==> p.hidden
        }),
{
}

/// A declaration changes its own property only: what a rule does not set
/// stays as it was merged so far.
pub proof fn law_other_properties_stay(under: StyleProps, over: StyleProps, p: Property)
    ensures
        p.of(over) is None ==> p.of(under.then_over(over)) == p.of(under),
        p.of(over) is Some ==> p.of(under.then_over(over)) == p.of(over),
{
}

/// The `hidden` attribute, whatever its value, and `aria-hidden="true"` hide
/// an element whatever its style says.
pub proof fn law_attributes_hide(rules: Seq<RuleText>, elem: Element)
    ensures
        elem.value_of("hidden"@) is Some ==> cascade::resolved(rules, elem).hidden,
        elem.value_of("aria-hidden"@) matches Some(v) ==> (chars::lower(chars::trim(v))
            == chars::lower("true"@) ==> cascade::resolved(rules, elem).hidden),
{
}

/// Nothing else hides an element outright: without those attributes and with
/// none of the three properties resolving to hiding, it shows. A zero font
/// size alone does not hide it.
pub proof fn law_nothing_else_hides(rules: Seq<RuleText>, elem: Element)
    ensures
        ({
            let p = cascade::resolved(rules, elem);
            let f = cascade::facts(elem);
            p.hidden ==> style::on(p.display_none) || style::on(p.visibility_hidden) || style::on(
                p.opacity_zero,
            ) || f.hidden || f.aria_hidden
        }),
{
}

/// An inline style without `!important` decides a property that no
/// `!important` rule sets.
pub proof fn law_inline_style_beats_rules(
    rules: Seq<RuleText>,
    elem: Element,
    p: Property,
)
    requires
        elem.value_of("style"@) matches Some(text) && p.of(css::declarations(text).normal) is Some
            && p.of(css::declarations(text).important) is None,
        forall|k: int|
            0 <= k < rules.len() && p.of((#[trigger] rules[k]).props) is Some ==> rules[k].priority
                < INLINE_PRIORITY,
    ensures
        p.of(cascade::resolved(rules, elem)) == p.of(
            css::declarations(elem.value_of("style"@)->0).normal,
        ),
{
    let entries = cascade::applying(rules, elem);
    let matched = cascade::matching(rules, cascade::facts(elem));
    let i = matched.len() as int;
    lemma_matching(rules, cascade::facts(elem));
    assert(outranks(entries, i, p)) by {
        assert forall|j: int|
            0 <= j < entries.len() && j != i && p.is_set_by(
                #[trigger] entries[j],
            ) implies entries[j].priority < entries[i].priority || (entries[j].priority
            == entries[i].priority && j < i) by {
            if j < matched.len() {
                assert(entries[j] == matched[j]);
                assert(exists|k: int|
                    0 <= k < rules.len() && (#[trigger] rules[k]).priority == matched[j].priority
                        && rules[k].props == matched[j].props);
            }
        }
    }
    law_highest_priority_wins(rules, elem, i, p);
}

proof fn lemma_matching(rules: Seq<RuleText>, f: cascade::Facts)
    ensures
        forall|j: int|
            0 <= j < cascade::matching(rules, f).len() ==> exists|k: int|
                0 <= k < rules.len() && (#[trigger] rules[k]).priority == (
                #[trigger] cascade::matching(rules, f)[j]).priority && rules[k].props
                    == cascade::matching(rules, f)[j].props,
    decreases rules.len(),
{
    if rules.len() > 0 {
        let rest = rules.drop_last();
        lemma_matching(rest, f);
        let all = cascade::matching(rules, f);
        let before = cascade::matching(rest, f);
        assert forall|j: int| 0 <= j < all.len() implies exists|k: int|
            0 <= k < rules.len() && (#[trigger] rules[k]).priority == (
            #[trigger] all[j]).priority && rules[k].props == all[j].props by {
            if j < before.len() {
                assert(all[j] == before[j]);
                let k = choose|k: int|
                    0 <= k < rest.len() && (#[trigger] rest[k]).priority == before[j].priority
                        && rest[k].props == before[j].props;
                assert(rules[k] == rest[k]);
            } else {
                assert(rules[rules.len() - 1] == rules.last());
            }
        }
    }
}

} // verus!
