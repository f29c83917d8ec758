//! The cascade: which declarations apply to an element, and which win.

use crate::chars;
use crate::chars::{chars_of, find, from, is_ignoring_case, same, upto, without, CharClass};
use crate::css;
use crate::css::{
    parse_declarations, AttrSelector, DeclProps, ParsedSelector, Rule, RuleText, Selector,
    StyleProps, Stylesheet, IMPORTANT_PRIORITY, INLINE_PRIORITY,
};
use crate::style;
use crate::xml;
use crate::xml::{same_text, Element};
use vstd::prelude::*;

verus! {

/// Properties that apply to an element, with their cascade priority.
#[derive(Clone, Copy)]
pub struct Entry {
    pub priority: u32,
    pub props: StyleProps,
}

/// What selectors look at in an element.
pub struct Facts {
    pub tag: Seq<char>,
    pub id: Option<Seq<char>>,
    pub classes: Seq<Seq<char>>,
    /// Whether the element has a `hidden` attribute, of any value.
    pub hidden: bool,
    /// Whether its `aria-hidden` attribute is `true`, in any case.
    pub aria_hidden: bool,
}

/// What selectors look at in an element.
pub open spec fn facts(elem: Element) -> Facts {
    Facts {
        tag: elem.local@,
        id: elem.value_of("id"@),
        classes: match elem.value_of("class"@) {
            Some(c) => chars::words(c),
            None => Seq::empty(),
        },
        hidden: elem.value_of("hidden"@) is Some,
        aria_hidden: elem.value_of("aria-hidden"@) matches Some(v) && chars::lower(chars::trim(v))
            == chars::lower("true"@),
    }
}

impl Selector {
    /// Whether every component of the selector holds of the element.
    pub open spec fn selects(self, f: Facts) -> bool {
        &&& self.tag matches Some(t) ==> t == f.tag
        &&& self.id matches Some(i) ==> f.id == Some(i)
        &&& self.class matches Some(c) ==> f.classes.contains(c)
        &&& self.attr == Some(AttrSelector::Hidden) ==> f.hidden
        &&& self.attr == Some(AttrSelector::AriaHiddenTrue) ==> f.aria_hidden
    }
}

/// The rules that select the element, in document order.
pub open spec fn matching(rules: Seq<RuleText>, f: Facts) -> Seq<Entry>
    decreases rules.len(),
{
    if rules.len() == 0 {
        Seq::empty()
    } else {
        let before = matching(rules.drop_last(), f);
        let rule = rules.last();
        if rule.selector.selects(f) {
            before.push(Entry { priority: rule.priority, props: rule.props })
        } else {
            before
        }
    }
}

/// Everything that applies to the element: matching rules, then the two tiers
/// of its inline `style`.
pub open spec fn applying(rules: Seq<RuleText>, elem: Element) -> Seq<Entry> {
    let from_rules = matching(rules, facts(elem));
    match elem.value_of("style"@) {
        Some(text) => from_rules.push(
            Entry { priority: INLINE_PRIORITY, props: css::declarations(text).normal },
        ).push(
            Entry {
                priority: (IMPORTANT_PRIORITY + INLINE_PRIORITY) as u32,
                props: css::declarations(text).important,
            },
        ),
        None => from_rules,
    }
}

/// `e` added to entries in order of priority, behind those of its own.
pub open spec fn placed(sorted: Seq<Entry>, e: Entry) -> Seq<Entry>
    decreases sorted.len(),
{
    if sorted.len() > 0 && sorted.last().priority > e.priority {
        placed(sorted.drop_last(), e).push(sorted.last())
    } else {
        sorted.push(e)
    }
}

/// The entries in order of priority, equal ones in source order.
pub open spec fn in_order(entries: Seq<Entry>) -> Seq<Entry>
    decreases entries.len(),
{
    if entries.len() == 0 {
        entries
    } else {
        placed(in_order(entries.drop_last()), entries.last())
    }
}

/// The entries merged, each over those before it.
pub open spec fn merged(entries: Seq<Entry>) -> StyleProps
    decreases entries.len(),
{
    if entries.len() == 0 {
        StyleProps::none()
    } else {
        merged(entries.drop_last()).then_over(entries.last().props)
    }
}

/// Whether merged properties and attributes hide the element outright.
/// `font-size: 0` is not among the triggers: it is inherited and can be reset
/// by a descendant.
pub open spec fn hides(p: StyleProps, f: Facts) -> bool {
    ||| style::on(p.display_none)
    ||| style::on(p.visibility_hidden)
    ||| style::on(p.opacity_zero)
    ||| f.hidden
    ||| f.aria_hidden
}

/// Element-level properties: matching rules and the inline `style` attribute
/// merged in one cascade order, and whether they or its attributes hide the
/// element.
pub open spec fn resolved(rules: Seq<RuleText>, elem: Element) -> StyleProps {
    let p = merged(in_order(applying(rules, elem)));
    StyleProps { hidden: hides(p, facts(elem)), ..p }
}

/// Whether `w` is one of the words of `s`.
fn has_word(s: &[char], w: &[char]) -> (r: bool)
    ensures
        r == chars::words(s@).contains(w@),
{
    let mut rest: &[char] = s;
    loop
        invariant
            chars::words(rest@).contains(w@) == chars::words(s@).contains(w@),
        decreases rest@.len(),
    {
        let start: &[char] = chars::without_start(rest, CharClass::Space);
        if start.len() == 0 {
            return false;
        }
        let k: usize = find(start, CharClass::Space, true);
        let word: &[char] = upto(start, k);
        let next: &[char] = from(start, k);
        proof {
            chars::lemma_first_is(rest@, CharClass::Space, false);
            assert(!chars::white_space(start@[0]));
            assert(k > 0);
            let ws = chars::words(rest@);
            let more = chars::words(next@);
            assert(ws =~= seq![word@] + more);
            assert(ws[0] == word@);
            if more.contains(w@) {
                let i = choose|i: int| 0 <= i < more.len() && more[i] == w@;
                assert(ws[i + 1] == w@);
            }
            if ws.contains(w@) && word@ != w@ {
                let i = choose|i: int| 0 <= i < ws.len() && ws[i] == w@;
                assert(more[i - 1] == w@);
            }
        }
        if same(word, w) {
            return true;
        }
        rest = next;
    }
}

/// Whether an `aria-hidden` value is `true`.
fn says_true(v: Option<&str>) -> (r: bool)
    ensures
        r == (xml::opt_text(v) matches Some(t) && chars::lower(chars::trim(t)) == chars::lower(
            "true"@,
        )),
{
    match v {
        Some(t) => {
            let text: Vec<char> = chars_of(t);
            is_ignoring_case(without(&text, CharClass::Space), "true")
        },
        None => false,
    }
}

impl ParsedSelector {
    /// Whether every component of the selector holds of the element.
    fn matches(&self, elem: &Element, hidden: bool, aria_hidden: bool) -> (r: bool)
        requires
            hidden == facts(*elem).hidden,
            aria_hidden == facts(*elem).aria_hidden,
        ensures
            r == self@.selects(facts(*elem)),
    {
        if let Some(t) = &self.tag {
            if !same_text(t.as_str(), elem.local.as_str()) {
                return false;
            }
        }
        if let Some(i) = &self.id {
            match elem.attr_any("id") {
                Some(id) => {
                    if !same_text(i.as_str(), id) {
                        return false;
                    }
                },
                None => {
                    return false;
                },
            }
        }
        if let Some(c) = &self.class {
            match elem.attr_any("class") {
                Some(classes) => {
                    let all: Vec<char> = chars_of(classes);
                    let one: Vec<char> = chars_of(c.as_str());
                    if !has_word(&all, &one) {
                        return false;
                    }
                },
                None => {
                    return false;
                },
            }
        }
        match self.attr {
            None => true,
            Some(AttrSelector::Hidden) => hidden,
            Some(AttrSelector::AriaHiddenTrue) => aria_hidden,
        }
    }
}

fn place(sorted: &mut Vec<Entry>, e: Entry)
    ensures
        final(sorted)@ == placed(old(sorted)@, e),
{
    let ghost was = sorted@;
    let mut k: usize = sorted.len();
    assert(was.take(k as int) =~= was);
    assert(was.skip(k as int) =~= Seq::<Entry>::empty());
    assert(placed(was.take(k as int), e) + was.skip(k as int) =~= placed(was, e));
    while k > 0 && sorted[k - 1].priority > e.priority
        invariant
            sorted@ == was,
            k <= was.len(),
            placed(was.take(k as int), e) + was.skip(k as int) == placed(was, e),
        decreases k,
    {
        proof {
            let shorter = was.take(k - 1);
            assert(was.take(k as int).drop_last() =~= shorter);
            assert(was.take(k as int).last() == was[k - 1]);
            assert(placed(shorter, e) + was.skip(k - 1) =~= placed(was.take(k as int), e)
                + was.skip(k as int));
        }
        k -= 1;
    }
    sorted.insert(k, e);
    proof {
        assert(sorted@ =~= was.take(k as int).push(e) + was.skip(k as int));
        if k > 0 {
            assert(was.take(k as int).last() == was[k - 1]);
        }
    }
}

impl Stylesheet {
    /// Matching rules for one element, in document order.
    pub fn matching_rules(&self, elem: &Element) -> (r: Vec<Entry>)
        ensures
            r@ == matching(self@, facts(*elem)),
    {
        // The two attributes that [`AttrSelector`] can match.
        let hidden: bool = elem.attr_any("hidden").is_some();
        let aria_hidden: bool = says_true(elem.attr_any("aria-hidden"));
        let mut out: Vec<Entry> = Vec::new();
        let n: usize = self.rule_count();
        let mut i: usize = 0;
        while i < n
            invariant
                n == self@.len(),
                i <= n,
                hidden == facts(*elem).hidden,
                aria_hidden == facts(*elem).aria_hidden,
                out@ == matching(self@.take(i as int), facts(*elem)),
            decreases n - i,
        {
            let rule: &Rule = self.rule(i);
            assert(self@.take(i + 1).drop_last() =~= self@.take(i as int));
            if rule.selector.matches(elem, hidden, aria_hidden) {
                out.push(Entry { priority: rule.priority, props: rule.props });
            }
            i += 1;
        }
        assert(self@.take(n as int) =~= self@);
        out
    }

    /// Element-level properties: matching stylesheet rules and the inline
    /// `style` attribute merged in one cascade order — normal rules, inline
    /// style, `!important` rules, `!important` inline style.
    ///
    /// Any of `display`, `visibility` and `opacity` resolving to a hide hides
    /// the whole subtree, and only that same property's own opposite value
    /// can cancel it. The `hidden` attribute (any value) and
    /// `aria-hidden="true"` sit outside the cascade and force hidden
    /// regardless of any declaration.
    pub fn element_props(&self, elem: &Element) -> (r: StyleProps)
        ensures
            r == resolved(self@, *elem),
    {
        let hidden: bool = elem.attr_any("hidden").is_some();
        let aria_hidden: bool = says_true(elem.attr_any("aria-hidden"));
        let mut entries: Vec<Entry> = self.matching_rules(elem);
        if let Some(style) = elem.attr_any("style") {
            let text: Vec<char> = chars_of(style);
            let decls: DeclProps = parse_declarations(&text);
            entries.push(Entry { priority: INLINE_PRIORITY, props: decls.normal });
            entries.push(
                Entry { priority: IMPORTANT_PRIORITY + INLINE_PRIORITY, props: decls.important },
            );
        }
        let mut sorted: Vec<Entry> = Vec::new();
        let mut i: usize = 0;
        while i < entries.len()
            invariant
                i <= entries@.len(),
                sorted@ == in_order(entries@.take(i as int)),
            decreases entries@.len() - i,
        {
            assert(entries@.take(i + 1).drop_last() =~= entries@.take(i as int));
            place(&mut sorted, entries[i]);
            i += 1;
        }
        assert(entries@.take(i as int) =~= entries@);
        let mut props = StyleProps::default();
        let mut k: usize = 0;
        while k < sorted.len()
            invariant
                k <= sorted@.len(),
                props == merged(sorted@.take(k as int)),
            decreases sorted@.len() - k,
        {
            assert(sorted@.take(k + 1).drop_last() =~= sorted@.take(k as int));
            props = props.merge(sorted[k].props);
            k += 1;
        }
        assert(sorted@.take(k as int) =~= sorted@);
        props.hidden = style::is_on(props.display_none) || style::is_on(props.visibility_hidden)
            || style::is_on(props.opacity_zero) || hidden || aria_hidden;
        props
    }
}

} // verus!
