//! The supported subset of CSS: declarations, selectors, stylesheets.

use crate::chars;
use crate::chars::{
    chars_of, find, from, has_part, is, is_ignoring_case, string_of, to_lower, upto, without,
    without_end, without_start, CharClass,
};
use crate::number;
use crate::number::parse_u32;
use crate::style;
use crate::style::StyleDelta;
use crate::zero;
use crate::zero::numeric_is_zero;
use vstd::prelude::*;

verus! {

// ---------------------------------------------------------------------------
// Properties

/// The resolved properties of one element or one rule.
#[derive(Debug, Clone, Copy)]
pub struct StyleProps {
    pub delta: StyleDelta,
    /// The four CSS hiding triggers, each an independent tri-state: `Some`
    /// once a declaration for that specific property has been seen, cleared
    /// only by another declaration of the *same* property. Kept separate -
    /// rather than folded into one `hidden` flag - so `font-size: 0;
    /// display: inline` cannot un-hide itself: each field merges
    /// independently in [`StyleProps::merge`].
    pub display_none: Option<bool>,
    pub visibility_hidden: Option<bool>,
    pub opacity_zero: Option<bool>,
    pub font_size_zero: Option<bool>,
    /// The element's final hidden decision, computed once the cascade is
    /// fully merged; always `false` on the properties of a rule.
    pub hidden: bool,
}

impl StyleProps {
    /// No property set.
    pub open spec fn none() -> StyleProps {
        StyleProps {
            delta: StyleDelta::none(),
            display_none: None,
            visibility_hidden: None,
            opacity_zero: None,
            font_size_zero: None,
            hidden: false,
        }
    }

    /// These properties, each overridden where `over` sets it.
    pub open spec fn then_over(self, over: StyleProps) -> StyleProps {
        StyleProps {
            delta: self.delta.then_over(over.delta),
            display_none: style::set_over(over.display_none, self.display_none),
            visibility_hidden: style::set_over(over.visibility_hidden, self.visibility_hidden),
            opacity_zero: style::set_over(over.opacity_zero, self.opacity_zero),
            font_size_zero: style::set_over(over.font_size_zero, self.font_size_zero),
            hidden: false,
        }
    }

    /// Whether no property is set.
    pub open spec fn sets_nothing(self) -> bool {
        &&& self.delta == StyleDelta::none()
        &&& self.display_none is None
        &&& self.visibility_hidden is None
        &&& self.opacity_zero is None
        &&& self.font_size_zero is None
    }

    /// These properties, each overridden where `over` sets it.
    pub fn merge(self, over: StyleProps) -> (r: StyleProps)
        ensures
            r == self.then_over(over),
    {
        StyleProps {
            delta: self.delta.merge(over.delta),
            display_none: style::override_with(over.display_none, self.display_none),
            visibility_hidden: style::override_with(over.visibility_hidden, self.visibility_hidden),
            opacity_zero: style::override_with(over.opacity_zero, self.opacity_zero),
            font_size_zero: style::override_with(over.font_size_zero, self.font_size_zero),
            hidden: false,
        }
    }

    /// Whether no property is set.
    pub fn is_default(&self) -> (r: bool)
        ensures
            r == self.sets_nothing(),
    {
        self.delta.is_none() && self.display_none.is_none() && self.visibility_hidden.is_none()
            && self.opacity_zero.is_none() && self.font_size_zero.is_none()
    }
}

impl Default for StyleProps {
    fn default() -> (r: StyleProps)
        ensures
            r == StyleProps::none(),
    {
        StyleProps {
            delta: StyleDelta::default(),
            display_none: None,
            visibility_hidden: None,
            opacity_zero: None,
            font_size_zero: None,
            hidden: false,
        }
    }
}

// ---------------------------------------------------------------------------
// Declarations

/// A declaration block's properties, split by cascade tier.
#[derive(Debug, Clone, Copy)]
pub struct DeclProps {
    pub normal: StyleProps,
    pub important: StyleProps,
}

impl DeclProps {
    /// No property set in either tier.
    pub open spec fn none() -> DeclProps {
        DeclProps { normal: StyleProps::none(), important: StyleProps::none() }
    }
}

/// Whether a `font-weight` value is bold.
pub open spec fn bold_weight(value: Seq<char>) -> bool {
    ||| value == "bold"@
    ||| value == "bolder"@
    ||| number::unsigned(value, u32::MAX as nat) matches Some(n) && n >= 600
}

/// What a `text-decoration` value says of struck-through text.
pub open spec fn strike_of(value: Seq<char>, before: Option<bool>) -> Option<bool> {
    if chars::contains(value, "line-through"@) {
        Some(true)
    } else if value == "none"@ {
        Some(false)
    } else {
        before
    }
}

/// What a `visibility` value says of hiding.
pub open spec fn visibility_of(value: Seq<char>, before: Option<bool>) -> Option<bool> {
    if value == "hidden"@ || value == "collapse"@ {
        Some(true)
    } else if value == "visible"@ {
        Some(false)
    } else {
        before
    }
}

/// Whether a numeric value is zero; not a number leaves `before`.
pub open spec fn zero_of(value: Seq<char>, before: Option<bool>) -> Option<bool> {
    style::set_over(zero::zero(value), before)
}

/// What a word of a `font` shorthand says as a size, up to a `/`: whether it
/// is zero; `None` when it is not a number.
pub open spec fn size_of(word: Seq<char>) -> Option<bool> {
    zero::zero(word.take(chars::first(word, CharClass::Only('/'), true) as int))
}

/// Whether a word can be the weight in a `font` shorthand: a whole number from
/// 1 to 1000.
pub open spec fn weighs(word: Seq<char>) -> bool {
    number::unsigned(word, u32::MAX as nat) matches Some(n) && 1 <= n <= 1000
}

/// Whether a word is one of the keywords that stand before the size in a
/// `font` shorthand: a style, variant, weight or width.
pub open spec fn leads(word: Seq<char>) -> bool {
    ||| word == "normal"@
    ||| word == "italic"@
    ||| word == "oblique"@
    ||| word == "small-caps"@
    ||| word == "bold"@
    ||| word == "bolder"@
    ||| word == "lighter"@
    ||| word == "ultra-condensed"@
    ||| word == "extra-condensed"@
    ||| word == "condensed"@
    ||| word == "semi-condensed"@
    ||| word == "semi-expanded"@
    ||| word == "expanded"@
    ||| word == "extra-expanded"@
    ||| word == "ultra-expanded"@
}

/// The first of the words that is a number, none but keywords before it.
pub open spec fn size_behind_keywords(words: Seq<Seq<char>>) -> Option<bool>
    decreases words.len(),
{
    if words.len() == 0 {
        None
    } else if size_of(words[0]) is Some {
        size_of(words[0])
    } else if leads(words[0]) {
        size_behind_keywords(words.skip(1))
    } else {
        None
    }
}

/// Whether the size in a `font` shorthand is zero. The size is the first of
/// the words that is a number; one that can be the weight is the weight where
/// a further number follows before any word of the family.
pub open spec fn font_size_of(words: Seq<Seq<char>>) -> Option<bool>
    decreases words.len(),
{
    if words.len() == 0 {
        None
    } else if size_of(words[0]) is None {
        font_size_of(words.skip(1))
    } else if weighs(words[0]) {
        style::set_over(size_behind_keywords(words.skip(1)), size_of(words[0]))
    } else {
        size_of(words[0])
    }
}

/// `p` with the declaration `name: value` added.
pub open spec fn declared(name: Seq<char>, value: Seq<char>, p: StyleProps) -> StyleProps {
    if name == "font-weight"@ {
        StyleProps { delta: StyleDelta { bold: Some(bold_weight(value)), ..p.delta }, ..p }
    } else if name == "font-style"@ {
        StyleProps {
            delta: StyleDelta {
                italic: Some(value == "italic"@ || value == "oblique"@),
                ..p.delta
            },
            ..p
        }
    } else if name == "text-decoration"@ || name == "text-decoration-line"@ {
        StyleProps {
            delta: StyleDelta { strike: strike_of(value, p.delta.strike), ..p.delta },
            ..p
        }
    } else if name == "display"@ {
        StyleProps { display_none: Some(value == "none"@), ..p }
    } else if name == "visibility"@ {
        StyleProps { visibility_hidden: visibility_of(value, p.visibility_hidden), ..p }
    } else if name == "opacity"@ {
        StyleProps { opacity_zero: zero_of(value, p.opacity_zero), ..p }
    } else if name == "font-size"@ {
        StyleProps { font_size_zero: zero_of(value, p.font_size_zero), ..p }
    } else if name == "font"@ {
        StyleProps {
            font_size_zero: style::set_over(font_size_of(chars::words(value)), p.font_size_zero),
            ..p
        }
    } else {
        p
    }
}

/// `out` with one declaration added: a name and a value around the first
/// `:`, neither case-sensitive. `!important` moves the declaration into the
/// higher cascade tier; anything else after a `!` is dropped with it.
pub open spec fn with_declaration(decl: Seq<char>, out: DeclProps) -> DeclProps {
    let k = chars::first(decl, CharClass::Only(':'), true) as int;
    if k >= decl.len() {
        out
    } else {
        let name = chars::lower(chars::trim(decl.take(k)));
        let text = chars::lower(chars::trim(decl.skip(k + 1)));
        let bang = chars::first(text, CharClass::Only('!'), true) as int;
        if bang >= text.len() {
            DeclProps { normal: declared(name, text, out.normal), ..out }
        } else {
            let value = chars::trim_end_of(text.take(bang), CharClass::Space);
            if chars::trim(text.skip(bang + 1)) == "important"@ {
                DeclProps { important: declared(name, value, out.important), ..out }
            } else {
                DeclProps { normal: declared(name, value, out.normal), ..out }
            }
        }
    }
}

/// `out` with every declaration of `body` added, in order.
pub open spec fn with_declarations(body: Seq<char>, out: DeclProps) -> DeclProps
    decreases body.len(),
{
    let k = chars::first(body, CharClass::Only(';'), true) as int;
    let next = with_declaration(body.take(k), out);
    if k >= body.len() {
        next
    } else {
        with_declarations(body.skip(k + 1), next)
    }
}

/// The semantic subset of a declaration block.
pub open spec fn declarations(body: Seq<char>) -> DeclProps {
    with_declarations(body, DeclProps::none())
}

/// Whether a word is one of the keywords that stand before the size in a
/// `font` shorthand.
fn is_font_keyword(word: &[char]) -> (r: bool)
    ensures
        r == leads(word@),
{
    is(word, "normal") || is(word, "italic") || is(word, "oblique") || is(word, "small-caps")
        || is(word, "bold") || is(word, "bolder") || is(word, "lighter") || is(
        word,
        "ultra-condensed",
    ) || is(word, "extra-condensed") || is(word, "condensed") || is(word, "semi-condensed") || is(
        word,
        "semi-expanded",
    ) || is(word, "expanded") || is(word, "extra-expanded") || is(word, "ultra-expanded")
}

fn font_size_zero(value: &[char]) -> (r: Option<bool>)
    ensures
        r == font_size_of(chars::words(value@)),
{
    let mut rest: &[char] = value;
    // What a number says as the size that may turn out to be the weight.
    let mut held: Option<bool> = None;
    loop
        invariant
            font_size_of(chars::words(value@)) == match held {
                Some(_) => style::set_over(
                    size_behind_keywords(chars::words(rest@)),
                    held,
                ),
                None => font_size_of(chars::words(rest@)),
            },
        decreases rest@.len(),
    {
        let start: &[char] = without_start(rest, CharClass::Space);
        if start.len() == 0 {
            return held;
        }
        let k: usize = find(start, CharClass::Space, true);
        let word: &[char] = upto(start, k);
        let size: Option<bool> = numeric_is_zero(
            upto(word, find(word, CharClass::Only('/'), true)),
        );
        let ghost ws = chars::words(rest@);
        let next: &[char] = from(start, k);
        proof {
            chars::lemma_first_is(rest@, CharClass::Space, false);
            assert(!chars::white_space(start@[0]));
            assert(k > 0);
            assert(ws =~= seq![word@] + chars::words(next@));
            assert(ws.skip(1) =~= chars::words(next@));
            assert(ws[0] == word@);
        }
        if held.is_some() {
            if size.is_some() {
                return size;
            }
            if !is_font_keyword(word) {
                return held;
            }
        } else if size.is_some() {
            let weight: bool = match parse_u32(word) {
                Some(n) => 1 <= n && n <= 1000,
                None => false,
            };
            if !weight {
                return size;
            }
            held = size;
        }
        rest = next;
    }
}

fn declare(name: &[char], value: &[char], p: StyleProps) -> (r: StyleProps)
    ensures
        r == declared(name@, value@, p),
{
    let mut p = p;
    if is(name, "font-weight") {
        let heavy: bool = match parse_u32(value) {
            Some(n) => n >= 600,
            None => false,
        };
        p.delta.bold = Some(is(value, "bold") || is(value, "bolder") || heavy);
    } else if is(name, "font-style") {
        p.delta.italic = Some(is(value, "italic") || is(value, "oblique"));
    } else if is(name, "text-decoration") || is(name, "text-decoration-line") {
        let line_through: Vec<char> = chars_of("line-through");
        if has_part(value, &line_through) {
            p.delta.strike = Some(true);
        } else if is(value, "none") {
            p.delta.strike = Some(false);
        }
    } else if is(name, "display") {
        p.display_none = Some(is(value, "none"));
    } else if is(name, "visibility") {
        if is(value, "hidden") || is(value, "collapse") {
            p.visibility_hidden = Some(true);
        } else if is(value, "visible") {
            p.visibility_hidden = Some(false);
        }
    } else if is(name, "opacity") {
        p.opacity_zero = style::override_with(numeric_is_zero(value), p.opacity_zero);
    } else if is(name, "font-size") {
        p.font_size_zero = style::override_with(numeric_is_zero(value), p.font_size_zero);
    } else if is(name, "font") {
        p.font_size_zero = style::override_with(font_size_zero(value), p.font_size_zero);
    }
    p
}

fn add_declaration(decl: &[char], out: DeclProps) -> (r: DeclProps)
    ensures
        r == with_declaration(decl@, out),
{
    let mut out = out;
    let k: usize = find(decl, CharClass::Only(':'), true);
    if k >= decl.len() {
        return out;
    }
    let name: Vec<char> = to_lower(without(upto(decl, k), CharClass::Space));
    let text: Vec<char> = to_lower(without(from(decl, k + 1), CharClass::Space));
    let bang: usize = find(&text, CharClass::Only('!'), true);
    if bang >= text.len() {
        out.normal = declare(&name, &text, out.normal);
        return out;
    }
    let value: &[char] = without_end(upto(&text, bang), CharClass::Space);
    if is(without(from(&text, bang + 1), CharClass::Space), "important") {
        out.important = declare(&name, value, out.important);
    } else {
        out.normal = declare(&name, value, out.normal);
    }
    out
}

/// The semantic subset of a declaration block.
pub fn parse_declarations(body: &[char]) -> (r: DeclProps)
    ensures
        r == declarations(body@),
{
    let mut out = DeclProps { normal: StyleProps::default(), important: StyleProps::default() };
    let mut rest: &[char] = body;
    loop
        invariant
            with_declarations(rest@, out) == declarations(body@),
        decreases rest@.len(),
    {
        let k: usize = find(rest, CharClass::Only(';'), true);
        out = add_declaration(upto(rest, k), out);
        if k >= rest.len() {
            return out;
        }
        rest = from(rest, k + 1);
    }
}

// ---------------------------------------------------------------------------
// Selectors

/// The two attribute selectors honored. Both name attributes that already
/// force an element hidden outright, so matching them changes nothing by
/// itself; supporting them keeps a stylesheet's own `[hidden] { display: none
/// }` convention rule from being dropped as unsupported.
#[derive(Debug, Clone, Copy, PartialEq, Eq, Structural)]
pub enum AttrSelector {
    /// `[hidden]`.
    Hidden,
    /// `[aria-hidden="true"]` / `[aria-hidden=true]` (quotes optional).
    AriaHiddenTrue,
}

/// One compound selector's supported components.
pub struct ParsedSelector {
    pub tag: Option<String>,
    pub id: Option<String>,
    pub class: Option<String>,
    pub attr: Option<AttrSelector>,
}

/// A [`ParsedSelector`] as its text.
pub struct Selector {
    pub tag: Option<Seq<char>>,
    pub id: Option<Seq<char>>,
    pub class: Option<Seq<char>>,
    pub attr: Option<AttrSelector>,
}

/// An optional string as its text.
pub open spec fn text_of(s: Option<String>) -> Option<Seq<char>> {
    match s {
        Some(t) => Some(t@),
        None => None,
    }
}

impl View for ParsedSelector {
    type V = Selector;

    open spec fn view(&self) -> Selector {
        Selector {
            tag: text_of(self.tag),
            id: text_of(self.id),
            class: text_of(self.class),
            attr: self.attr,
        }
    }
}

/// The attribute selector between a pair of brackets.
pub open spec fn attr_selector(inner: Seq<char>) -> Option<AttrSelector> {
    let k = chars::first(inner, CharClass::Only('='), true) as int;
    if chars::lower(inner) == chars::lower("hidden"@) {
        Some(AttrSelector::Hidden)
    } else if k < inner.len() && chars::lower(inner.take(k)) == chars::lower("aria-hidden"@)
        && chars::lower(chars::trim_of(inner.skip(k + 1), CharClass::Quote)) == chars::lower(
        "true"@,
    ) {
        Some(AttrSelector::AriaHiddenTrue)
    } else {
        None
    }
}

/// `acc` with the component that starts with `mark` and goes on with `body`;
/// `None` for an empty, repeated or unsupported one.
pub open spec fn with_component(acc: Selector, mark: char, body: Seq<char>) -> Option<Selector> {
    if mark == '.' {
        if body.len() == 0 || acc.class is Some {
            None
        } else {
            Some(Selector { class: Some(body), ..acc })
        }
    } else if mark == '#' {
        if body.len() == 0 || acc.id is Some {
            None
        } else {
            Some(Selector { id: Some(body), ..acc })
        }
    } else if body.len() == 0 || body.last() != ']' || acc.attr is Some || attr_selector(
        body.drop_last(),
    ) is None {
        None
    } else {
        Some(Selector { attr: attr_selector(body.drop_last()), ..acc })
    }
}

/// `acc` with every component of `rest`, each from its mark up to the next.
pub open spec fn with_components(acc: Selector, rest: Seq<char>) -> Option<Selector>
    decreases rest.len(),
{
    if rest.len() == 0 {
        Some(acc)
    } else {
        let tail = rest.skip(1);
        let k = chars::first(tail, CharClass::Mark, true) as int;
        proof {
            chars::lemma_first_is(tail, CharClass::Mark, true);
        }
        match with_component(acc, rest[0], tail.take(k)) {
            Some(next) => with_components(next, tail.skip(k)),
            None => None,
        }
    }
}

/// One compound selector's components, or `None` when it uses anything
/// outside the subset.
pub open spec fn selector(s: Seq<char>) -> Option<Selector> {
    let bare = Selector { tag: None, id: None, class: None, attr: None };
    let end = chars::first(s, CharClass::Mark, true) as int;
    if chars::any_in(s, CharClass::Unsupported) || s.len() == 0 {
        None
    } else if end == 0 {
        with_components(bare, s)
    } else {
        with_components(Selector { tag: Some(chars::lower(s.take(end))), ..bare }, s.skip(end))
    }
}

fn parse_attr_selector(inner: &[char]) -> (r: Option<AttrSelector>)
    ensures
        r == attr_selector(inner@),
{
    if is_ignoring_case(inner, "hidden") {
        return Some(AttrSelector::Hidden);
    }
    let k: usize = find(inner, CharClass::Only('='), true);
    if k < inner.len() && is_ignoring_case(upto(inner, k), "aria-hidden") && is_ignoring_case(
        without(from(inner, k + 1), CharClass::Quote),
        "true",
    ) {
        return Some(AttrSelector::AriaHiddenTrue);
    }
    None
}

/// Parse one compound selector's supported components, or `None` when it
/// uses anything outside the subset (a combinator, a pseudo-class, an
/// attribute selector other than the two in [`AttrSelector`], two components
/// of the same kind, white space inside an attribute selector's brackets,
/// ...).
pub fn parse_simple_selector(s: &[char]) -> (r: Option<ParsedSelector>)
    ensures
        match r {
            Some(p) => selector(s@) == Some(p@),
            None => selector(s@) is None,
        },
{
    if find(s, CharClass::Unsupported, true) < s.len() || s.len() == 0 {
        return None;
    }
    let mut out = ParsedSelector { tag: None, id: None, class: None, attr: None };
    let mut rest: &[char] = s;
    let end: usize = find(s, CharClass::Mark, true);
    if end > 0 {
        let tag: Vec<char> = to_lower(upto(s, end));
        out.tag = Some(string_of(&tag));
        rest = from(s, end);
    }
    while rest.len() > 0
        invariant
            with_components(out@, rest@) == selector(s@),
            rest@.len() > 0 ==> CharClass::Mark.has(rest@[0]),
        decreases rest@.len(),
    {
        let mark: char = rest[0];
        let tail: &[char] = from(rest, 1);
        let k: usize = find(tail, CharClass::Mark, true);
        let body: &[char] = upto(tail, k);
        if mark == '.' {
            if body.len() == 0 || out.class.is_some() {
                return None;
            }
            out.class = Some(string_of(body));
        } else if mark == '#' {
            if body.len() == 0 || out.id.is_some() {
                return None;
            }
            out.id = Some(string_of(body));
        } else {
            if body.len() == 0 || body[body.len() - 1] != ']' || out.attr.is_some() {
                return None;
            }
            assert(body@.take(body@.len() - 1) =~= body@.drop_last());
            match parse_attr_selector(upto(body, body.len() - 1)) {
                Some(attr) => {
                    out.attr = Some(attr);
                },
                None => {
                    return None;
                },
            }
        }
        rest = from(tail, k);
    }
    Some(out)
}

// ---------------------------------------------------------------------------
// Stylesheets

/// Cascade priority tiers: rules < inline style < `!important` rules <
/// `!important` inline style, with selector specificity ordering within a
/// tier and source order breaking ties.
pub const INLINE_PRIORITY: u32 = 100_000;

/// What `!important` adds to a priority.
pub const IMPORTANT_PRIORITY: u32 = 1_000_000;

/// One rule: the elements it applies to, and what it sets on them.
pub struct Rule {
    pub selector: ParsedSelector,
    /// Cascade priority: the tier base plus selector specificity within the
    /// supported subset - an id outweighs any number of classes and
    /// attributes, which in turn outweigh any number of tags (`#i` = 100,
    /// `.c` = 10, `[hidden]` = 10, `t.c` = 11, `t` = 1). Source order breaks
    /// ties (rules are stored in document order).
    pub priority: u32,
    pub props: StyleProps,
}

/// A [`Rule`] as its text.
pub struct RuleText {
    pub selector: Selector,
    pub priority: u32,
    pub props: StyleProps,
}

impl View for Rule {
    type V = RuleText;

    open spec fn view(&self) -> RuleText {
        RuleText { selector: self.selector@, priority: self.priority, props: self.props }
    }
}

/// The rules of one or more stylesheets, in document order.
pub struct Stylesheet {
    rules: Vec<Rule>,
}

/// One if set, zero if not.
pub open spec fn count<T>(part: Option<T>) -> u32 {
    if part is Some {
        1u32
    } else {
        0u32
    }
}

impl Selector {
    /// How specific the selector is.
    pub open spec fn specificity(self) -> u32 {
        (count(self.id) * 100 + count(self.class) * 10 + count(self.attr) * 10 + count(
            self.tag,
        )) as u32
    }
}

/// The rule for one selector in one tier, unless nothing is set there.
pub open spec fn rule_in_tier(sel: Selector, props: StyleProps, base: u32) -> Seq<RuleText> {
    if props.sets_nothing() {
        Seq::empty()
    } else {
        seq![RuleText { selector: sel, priority: (base + sel.specificity()) as u32, props }]
    }
}

/// The rules of a selector list, part by part: an unsupported part is skipped
/// without dropping the others.
pub open spec fn rules_of_list(list: Seq<char>, decls: DeclProps) -> Seq<RuleText>
    decreases list.len(),
{
    let k = chars::first(list, CharClass::Only(','), true) as int;
    let here = match selector(chars::trim(list.take(k))) {
        Some(sel) => rule_in_tier(sel, decls.normal, 0) + rule_in_tier(
            sel,
            decls.important,
            IMPORTANT_PRIORITY,
        ),
        None => Seq::empty(),
    };
    if k >= list.len() {
        here
    } else {
        here + rules_of_list(list.skip(k + 1), decls)
    }
}

/// Whether the quote `q` comes in `s` before the line ends, a `\` and what
/// stands behind it apart.
pub open spec fn closes(s: Seq<char>, q: char) -> bool
    decreases s.len(),
{
    if s.len() == 0 || s[0] == '\n' {
        false
    } else if s[0] == q {
        true
    } else if s[0] == '\\' && s.len() > 1 {
        closes(s.skip(2), q)
    } else {
        closes(s.skip(1), q)
    }
}

/// Where a reader of a stylesheet stands: in a quoted string, behind a `\`,
/// or in neither, where a brace is one.
pub struct Place {
    pub quote: Option<char>,
    pub escaped: bool,
}

impl Place {
    /// In no string.
    pub open spec fn plain() -> Place {
        Place { quote: None, escaped: false }
    }

    /// The place behind the first character of `s`. A quote opens a string if
    /// another closes it on the same line.
    pub open spec fn past(self, s: Seq<char>) -> Place {
        if self.escaped {
            Place { escaped: false, ..self }
        } else if s[0] == '\\' {
            Place { escaped: true, ..self }
        } else if self.quote == Some(s[0]) {
            Place { quote: None, ..self }
        } else if self.quote is None && CharClass::Quote.has(s[0]) && closes(s.skip(1), s[0]) {
            Place { quote: Some(s[0]), ..self }
        } else {
            self
        }
    }
}

/// The place behind the first `n` characters of `s`, which starts at `at`.
pub open spec fn place_at(s: Seq<char>, n: int, at: Place) -> Place
    decreases s.len(),
{
    if n <= 0 || s.len() == 0 {
        at
    } else {
        place_at(s.skip(1), n - 1, at.past(s))
    }
}

/// The index of the first character of `class` outside strings, where `s`
/// starts at `at`; the length of `s` when there is none.
pub open spec fn first_plain(s: Seq<char>, class: CharClass, at: Place) -> nat
    decreases s.len(),
{
    if s.len() == 0 || (at == Place::plain() && class.has(s[0])) {
        0
    } else {
        1 + first_plain(s.skip(1), class, at.past(s))
    }
}

/// What follows the `}` that closes `depth` open blocks, where `s` starts at
/// `at`.
pub open spec fn behind_blocks(s: Seq<char>, depth: nat, at: Place) -> Seq<char>
    decreases s.len(),
{
    if s.len() == 0 {
        s
    } else if at != Place::plain() || !CharClass::Brace.has(s[0]) {
        behind_blocks(s.skip(1), depth, at.past(s))
    } else if s[0] == '{' {
        behind_blocks(s.skip(1), depth + 1, at)
    } else if depth <= 1 {
        s.skip(1)
    } else {
        behind_blocks(s.skip(1), (depth - 1) as nat, at)
    }
}

/// The index of what ends the head of an at-rule, of which `s` holds the text
/// from `at` on, behind so many open round brackets: a brace, or a `;` outside
/// the brackets, and neither in a string. The length of `s` when there is
/// none.
pub open spec fn head_end(s: Seq<char>, brackets: nat, at: Place) -> nat
    decreases s.len(),
{
    if s.len() == 0 {
        0
    } else if at != Place::plain() {
        1 + head_end(s.skip(1), brackets, at.past(s))
    } else if CharClass::Brace.has(s[0]) || (s[0] == ';' && brackets == 0) {
        0
    } else if s[0] == '(' {
        1 + head_end(s.skip(1), brackets + 1, at)
    } else if s[0] == ')' && brackets > 0 {
        1 + head_end(s.skip(1), (brackets - 1) as nat, at)
    } else {
        1 + head_end(s.skip(1), brackets, at.past(s))
    }
}

/// The rules that a stylesheet starts with, what comes after them, and where
/// that starts.
pub struct Item {
    pub rules: Seq<RuleText>,
    pub rest: Seq<char>,
    pub at: Place,
}

/// An at-rule, of which `s` holds the text from its `@` on: no rules, whatever
/// it has in its block. One without a block ends at its `;`.
pub open spec fn at_rule(s: Seq<char>) -> Item {
    let k = head_end(s, 0, Place::plain()) as int;
    Item {
        rules: Seq::empty(),
        rest: if k >= s.len() {
            Seq::empty()
        } else if s[k] == '{' {
            behind_blocks(s.skip(k + 1), 1, Place::plain())
        } else {
            s.skip(k + 1)
        },
        at: Place::plain(),
    }
}

/// A selector list and its block: the rules they make, none where the block
/// nests another. A `}` in the place of a block is passed over, and a block
/// that is never closed reaches to the end.
pub open spec fn style_rule(s: Seq<char>, at: Place) -> Item {
    let k = chars::first(s, CharClass::Brace, true) as int;
    if k >= s.len() {
        Item { rules: Seq::empty(), rest: Seq::empty(), at: Place::plain() }
    } else if s[k] == '}' {
        Item { rules: Seq::empty(), rest: s.skip(k + 1), at: place_at(s, k + 1, at) }
    } else {
        let block = s.skip(k + 1);
        let inside = place_at(s, k + 1, at);
        let end = chars::first(block, CharClass::Only('}'), true) as int;
        let body = block.take(end);
        if first_plain(block, CharClass::Only('{'), inside) < end {
            Item {
                rules: Seq::empty(),
                rest: behind_blocks(block, 1, inside),
                at: Place::plain(),
            }
        } else {
            Item {
                rules: rules_of_list(s.take(k), declarations(body)),
                rest: if end < block.len() {
                    block.skip(end + 1)
                } else {
                    Seq::empty()
                },
                at: if end < block.len() {
                    place_at(block, end + 1, inside)
                } else {
                    Place::plain()
                },
            }
        }
    }
}

/// What a stylesheet starts with. What looks like an at-rule in the rest of a
/// string, behind a `}` in it, is none.
pub open spec fn first_item(css: Seq<char>, at: Place) -> Item {
    let blank = chars::first(css, CharClass::Space, false) as int;
    let s = css.skip(blank);
    let start = place_at(css, blank, at);
    if s.len() > 0 && s[0] == '@' && start == Place::plain() {
        at_rule(s)
    } else {
        style_rule(s, start)
    }
}

pub proof fn lemma_behind_blocks(s: Seq<char>, depth: nat, at: Place)
    ensures
        behind_blocks(s, depth, at).len() <= s.len(),
    decreases s.len(),
{
    if s.len() > 0 {
        lemma_behind_blocks(s.skip(1), depth, at.past(s));
        lemma_behind_blocks(s.skip(1), depth + 1, at);
        if depth > 1 {
            lemma_behind_blocks(s.skip(1), (depth - 1) as nat, at);
        }
    }
}

pub proof fn lemma_first_item(css: Seq<char>, at: Place)
    requires
        css.len() > 0,
    ensures
        first_item(css, at).rest.len() < css.len(),
{
    chars::lemma_first_is(css, CharClass::Space, false);
    let blank = chars::first(css, CharClass::Space, false) as int;
    let s = css.skip(blank);
    let start = place_at(css, blank, at);
    chars::lemma_first_is(s, CharClass::Brace, true);
    let h = head_end(s, 0, Place::plain()) as int;
    if h < s.len() {
        lemma_behind_blocks(s.skip(h + 1), 1, Place::plain());
    }
    let k = chars::first(s, CharClass::Brace, true) as int;
    if k < s.len() {
        lemma_behind_blocks(s.skip(k + 1), 1, place_at(s, k + 1, start));
        chars::lemma_first_is(s.skip(k + 1), CharClass::Only('}'), true);
    }
}

/// The rules of a stylesheet without comments, in order, where its text starts
/// at `at`.
pub open spec fn rules_from(css: Seq<char>, at: Place) -> Seq<RuleText>
    decreases css.len(),
{
    if css.len() == 0 {
        Seq::empty()
    } else {
        proof {
            lemma_first_item(css, at);
        }
        let item = first_item(css, at);
        item.rules + rules_from(item.rest, item.at)
    }
}

/// The rules of a stylesheet without comments, in order.
pub open spec fn rules_of(css: Seq<char>) -> Seq<RuleText> {
    rules_from(css, Place::plain())
}

/// The index of the first `a` that `b` follows directly; the length of `s`
/// when there is none.
pub open spec fn first_pair(s: Seq<char>, a: char, b: char) -> nat
    decreases s.len(),
{
    if s.len() < 2 {
        s.len()
    } else if s[0] == a && s[1] == b {
        0
    } else {
        1 + first_pair(s.skip(1), a, b)
    }
}

/// `css` without its comments; one that is never closed reaches to the end.
pub open spec fn without_comments(css: Seq<char>) -> Seq<char>
    decreases css.len(),
{
    let start = first_pair(css, '/', '*') as int;
    if start + 2 > css.len() {
        css
    } else {
        let opened = css.skip(start);
        let end = first_pair(opened, '*', '/') as int;
        if end + 2 > opened.len() {
            css.take(start)
        } else {
            css.take(start) + without_comments(opened.skip(end + 2))
        }
    }
}

/// `first_pair` is the only index with no pair before it that either starts
/// one or is the end.
pub proof fn lemma_first_pair(s: Seq<char>, a: char, b: char, k: int)
    requires
        0 <= k <= s.len(),
        forall|j: int| 0 <= j < k ==> !(#[trigger] s[j] == a && j + 1 < s.len() && s[j + 1] == b),
        k + 1 < s.len() ==> s[k] == a && s[k + 1] == b,
        k + 1 >= s.len() ==> k == s.len(),
    ensures
        first_pair(s, a, b) == k,
    decreases s.len(),
{
    if s.len() >= 2 && k > 0 {
        let t = s.skip(1);
        assert(!(s[0] == a && s[1] == b));
        assert forall|j: int| 0 <= j < k - 1 implies !(#[trigger] t[j] == a && j + 1 < t.len()
            && t[j + 1] == b) by {
            assert(s[j + 1] == t[j]);
        }
        lemma_first_pair(t, a, b, k - 1);
    }
}

fn find_pair(s: &[char], a: char, b: char) -> (r: usize)
    ensures
        r == first_pair(s@, a, b),
        r <= s@.len(),
        r + 1 != s@.len(),
{
    let mut i: usize = 0;
    while i < s.len() && !(s[i] == a && i + 1 < s.len() && s[i + 1] == b)
        invariant
            i <= s@.len(),
            forall|j: int|
                0 <= j < i ==> !(#[trigger] s@[j] == a && j + 1 < s@.len() && s@[j + 1] == b),
        decreases s@.len() - i,
    {
        i += 1;
    }
    proof {
        lemma_first_pair(s@, a, b, i as int);
    }
    i
}

fn strip_css_comments(css: &[char]) -> (r: Vec<char>)
    ensures
        r@ == without_comments(css@),
{
    let mut out: Vec<char> = Vec::new();
    let mut rest: &[char] = css;
    assert(out@ + without_comments(rest@) =~= without_comments(css@));
    loop
        invariant
            out@ + without_comments(rest@) == without_comments(css@),
        decreases rest@.len(),
    {
        let start: usize = find_pair(rest, '/', '*');
        let mut before: Vec<char> = vstd::slice::slice_to_vec(upto(rest, start));
        let ghost so_far = out@;
        out.append(&mut before);
        if start >= rest.len() {
            assert(rest@.take(start as int) =~= rest@);
            return out;
        }
        let opened: &[char] = from(rest, start);
        let end: usize = find_pair(opened, '*', '/');
        if end >= opened.len() {
            return out;
        }
        let next: &[char] = from(opened, end + 2);
        assert(out@ + without_comments(next@) =~= so_far + without_comments(rest@));
        rest = next;
    }
}

/// An owned copy of an optional string.
fn copy_of(s: &Option<String>) -> (r: Option<String>)
    ensures
        text_of(r) == text_of(*s),
{
    match s {
        Some(t) => Some(t.clone()),
        None => None,
    }
}

impl ParsedSelector {
    fn copy(&self) -> (r: ParsedSelector)
        ensures
            r@ == self@,
    {
        ParsedSelector {
            tag: copy_of(&self.tag),
            id: copy_of(&self.id),
            class: copy_of(&self.class),
            attr: self.attr,
        }
    }

    fn specificity(&self) -> (r: u32)
        ensures
            r == self@.specificity(),
            r <= 121,
    {
        let id: u32 = if self.id.is_some() { 100 } else { 0 };
        let class: u32 = if self.class.is_some() { 10 } else { 0 };
        let attr: u32 = if self.attr.is_some() { 10 } else { 0 };
        let tag: u32 = if self.tag.is_some() { 1 } else { 0 };
        id + class + attr + tag
    }
}

/// A declaration block that sets nothing makes no rule.
proof fn lemma_no_rules(list: Seq<char>, decls: DeclProps)
    requires
        decls.normal.sets_nothing(),
        decls.important.sets_nothing(),
    ensures
        rules_of_list(list, decls) == Seq::<RuleText>::empty(),
    decreases list.len(),
{
    let k = chars::first(list, CharClass::Only(','), true) as int;
    if k < list.len() {
        lemma_no_rules(list.skip(k + 1), decls);
    }
    assert(rules_of_list(list, decls) =~= Seq::<RuleText>::empty());
}

impl View for Stylesheet {
    type V = Seq<RuleText>;

    closed spec fn view(&self) -> Seq<RuleText> {
        self.rules@.map_values(|r: Rule| r@)
    }
}

impl Default for Stylesheet {
    fn default() -> (r: Stylesheet)
        ensures
            r@ == Seq::<RuleText>::empty(),
    {
        let r = Stylesheet { rules: Vec::new() };
        assert(r@ =~= Seq::<RuleText>::empty());
        r
    }
}

/// Whether the quote `q` comes in `s` from `i` on before the line ends.
fn is_closed(s: &[char], i: usize, q: char) -> (r: bool)
    requires
        i <= s@.len(),
    ensures
        r == closes(s@.skip(i as int), q),
{
    let mut j: usize = i;
    while j < s.len()
        invariant
            j <= s@.len(),
            i <= s@.len(),
            closes(s@.skip(i as int), q) == closes(s@.skip(j as int), q),
        decreases s@.len() - j,
    {
        let ghost rest = s@.skip(j as int);
        assert(rest.skip(1) =~= s@.skip(j + 1));
        if s[j] == '\n' {
            return false;
        }
        if s[j] == q {
            return true;
        }
        if s[j] == '\\' && s.len() - j > 1 {
            assert(rest.skip(2) =~= s@.skip(j + 2));
            j += 2;
        } else {
            j += 1;
        }
    }
    false
}

/// A reader's [`Place`].
#[derive(Clone, Copy)]
struct Reader {
    quote: Option<char>,
    escaped: bool,
}

impl View for Reader {
    type V = Place;

    closed spec fn view(&self) -> Place {
        Place { quote: self.quote, escaped: self.escaped }
    }
}

impl Reader {
    fn new() -> (r: Reader)
        ensures
            r@ == Place::plain(),
    {
        Reader { quote: None, escaped: false }
    }

    /// Whether the reader stands in no string.
    fn is_plain(&self) -> (r: bool)
        ensures
            r == (self@ == Place::plain()),
    {
        self.quote.is_none() && !self.escaped
    }

    /// Go past the character of `s` at `i`.
    fn pass(&mut self, s: &[char], i: usize)
        requires
            i < s@.len(),
        ensures
            final(self)@ == old(self)@.past(s@.skip(i as int)),
    {
        let c: char = s[i];
        let ghost rest = s@.skip(i as int);
        assert(rest.skip(1) =~= s@.skip(i + 1));
        if self.escaped {
            self.escaped = false;
        } else if c == '\\' {
            self.escaped = true;
        } else if let Some(q) = self.quote {
            if c == q {
                self.quote = None;
            }
        } else if CharClass::Quote.matches(c) && is_closed(s, i + 1, c) {
            self.quote = Some(c);
        }
    }

    /// Go past the first `n` characters of `s`.
    fn advance(&mut self, s: &[char], n: usize)
        requires
            n <= s@.len(),
        ensures
            final(self)@ == place_at(s@, n as int, old(self)@),
    {
        let ghost was = self@;
        let mut i: usize = 0;
        assert(s@.skip(0) =~= s@);
        while i < n
            invariant
                i <= n <= s@.len(),
                was == old(self)@,
                place_at(s@.skip(i as int), n - i, self@) == place_at(s@, n as int, was),
            decreases n - i,
        {
            assert(s@.skip(i as int).skip(1) =~= s@.skip(i + 1));
            self.pass(s, i);
            i += 1;
        }
    }
}

/// The index of the first character of `class` outside strings, where `s`
/// starts at `start`.
fn find_plain(s: &[char], class: CharClass, start: Reader) -> (r: usize)
    ensures
        r == first_plain(s@, class, start@),
        r <= s@.len(),
{
    let mut at: Reader = start;
    let mut i: usize = 0;
    assert(s@.skip(0) =~= s@);
    while i < s.len()
        invariant
            i <= s@.len(),
            i + first_plain(s@.skip(i as int), class, at@) == first_plain(s@, class, start@),
        decreases s@.len() - i,
    {
        assert(s@.skip(i as int).skip(1) =~= s@.skip(i + 1));
        if at.is_plain() && class.matches(s[i]) {
            return i;
        }
        at.pass(s, i);
        i += 1;
    }
    i
}

/// What follows the `}` that closes the open block that `s` starts in, at
/// `start`.
fn skip_blocks<'a>(s: &'a [char], start: Reader) -> (r: &'a [char])
    ensures
        r@ == behind_blocks(s@, 1, start@),
{
    let mut at: Reader = start;
    let mut i: usize = 0;
    let mut inner: usize = 0;
    assert(s@.skip(0) =~= s@);
    while i < s.len()
        invariant
            i <= s@.len(),
            inner <= i,
            behind_blocks(s@.skip(i as int), inner as nat + 1, at@) == behind_blocks(
                s@,
                1,
                start@,
            ),
        decreases s@.len() - i,
    {
        assert(s@.skip(i as int).skip(1) =~= s@.skip(i + 1));
        if !at.is_plain() || !CharClass::Brace.matches(s[i]) {
            at.pass(s, i);
        } else if s[i] == '{' {
            inner += 1;
        } else {
            if inner == 0 {
                return from(s, i + 1);
            }
            inner -= 1;
        }
        i += 1;
    }
    from(s, i)
}

/// The index of what ends the head of the at-rule that `s` starts with.
fn find_head_end(s: &[char]) -> (r: usize)
    ensures
        r == head_end(s@, 0, Place::plain()),
        r <= s@.len(),
{
    let mut at: Reader = Reader::new();
    let mut brackets: usize = 0;
    let mut i: usize = 0;
    assert(s@.skip(0) =~= s@);
    while i < s.len()
        invariant
            i <= s@.len(),
            brackets <= i,
            i + head_end(s@.skip(i as int), brackets as nat, at@) == head_end(
                s@,
                0,
                Place::plain(),
            ),
        decreases s@.len() - i,
    {
        assert(s@.skip(i as int).skip(1) =~= s@.skip(i + 1));
        let c: char = s[i];
        if !at.is_plain() {
            at.pass(s, i);
        } else if CharClass::Brace.matches(c) || (c == ';' && brackets == 0) {
            return i;
        } else if c == '(' {
            brackets += 1;
        } else if c == ')' && brackets > 0 {
            brackets -= 1;
        } else {
            at.pass(s, i);
        }
        i += 1;
    }
    i
}

/// What follows the at-rule that `s` starts with.
fn skip_at_rule<'a>(s: &'a [char]) -> (r: &'a [char])
    ensures
        r@ == at_rule(s@).rest,
{
    let k: usize = find_head_end(s);
    if k >= s.len() {
        from(s, s.len())
    } else if s[k] == '{' {
        skip_blocks(from(s, k + 1), Reader::new())
    } else {
        from(s, k + 1)
    }
}

impl Stylesheet {
    fn push_rule(&mut self, sel: &ParsedSelector, props: StyleProps, base: u32)
        requires
            base <= IMPORTANT_PRIORITY,
        ensures
            final(self)@ == old(self)@ + rule_in_tier(sel@, props, base),
    {
        let ghost was = self@;
        if !props.is_default() {
            let rule = Rule { selector: sel.copy(), priority: base + sel.specificity(), props };
            self.rules.push(rule);
            assert(self@ =~= was + rule_in_tier(sel@, props, base));
        } else {
            assert(self@ =~= was + rule_in_tier(sel@, props, base));
        }
    }

    fn add_list(&mut self, list: &[char], decls: DeclProps)
        ensures
            final(self)@ == old(self)@ + rules_of_list(list@, decls),
    {
        let ghost was = self@;
        let mut rest: &[char] = list;
        loop
            invariant
                self@ + rules_of_list(rest@, decls) == was + rules_of_list(list@, decls),
                was == old(self)@,
            decreases rest@.len(),
        {
            let k: usize = find(rest, CharClass::Only(','), true);
            let ghost before = self@;
            match parse_simple_selector(without(upto(rest, k), CharClass::Space)) {
                Some(sel) => {
                    self.push_rule(&sel, decls.normal, 0);
                    self.push_rule(&sel, decls.important, IMPORTANT_PRIORITY);
                },
                None => {},
            }
            if k >= rest.len() {
                assert(self@ =~= before + rules_of_list(rest@, decls));
                return;
            }
            let next: &[char] = from(rest, k + 1);
            assert(self@ + rules_of_list(next@, decls) =~= before + rules_of_list(rest@, decls));
            rest = next;
        }
    }

    /// Add what a style rule makes; returns what follows it.
    fn add_rule<'a>(&mut self, s: &'a [char], at: &mut Reader) -> (r: &'a [char])
        ensures
            final(self)@ == old(self)@ + style_rule(s@, old(at)@).rules,
            r@ == style_rule(s@, old(at)@).rest,
            final(at)@ == style_rule(s@, old(at)@).at,
    {
        let ghost start = at@;
        let k: usize = find(s, CharClass::Brace, true);
        if k >= s.len() {
            assert(self@ =~= self@ + style_rule(s@, start).rules);
            *at = Reader::new();
            return from(s, s.len());
        }
        at.advance(s, k + 1);
        let rest: &[char] = from(s, k + 1);
        if s[k] == '}' {
            assert(self@ =~= self@ + style_rule(s@, start).rules);
            return rest;
        }
        let end: usize = find(rest, CharClass::Only('}'), true);
        if find_plain(rest, CharClass::Only('{'), *at) < end {
            assert(self@ =~= self@ + style_rule(s@, start).rules);
            let behind: &[char] = skip_blocks(rest, *at);
            *at = Reader::new();
            return behind;
        }
        let decls: DeclProps = parse_declarations(upto(rest, end));
        if decls.normal.is_default() && decls.important.is_default() {
            proof {
                lemma_no_rules(s@.take(k as int), decls);
                assert(self@ =~= self@ + style_rule(s@, start).rules);
            }
        } else {
            self.add_list(upto(s, k), decls);
        }
        if end < rest.len() {
            at.advance(rest, end + 1);
            from(rest, end + 1)
        } else {
            *at = Reader::new();
            from(rest, rest.len())
        }
    }

    /// Add rules from one stylesheet's text. Selectors participate when they
    /// are, or combine, a `tag`, `.class`, `#id`, and/or one of the two
    /// attribute selectors in [`AttrSelector`] - so `tag`, `.class`, `#id`,
    /// `tag.class`, `tag#id`, `[hidden]`, and `[aria-hidden="true"]` all
    /// match, as does mixing them (`tag#id.class`). Not honored, and simply
    /// skipped: descendant/child/sibling combinators (`div p`, `div > p`,
    /// `p ~ span`), pseudo-classes/elements (`p:first-child`), the universal
    /// selector (`*`), any attribute selector other than the two above
    /// (`[data-x]`), a compound selector repeating the same kind of
    /// component (`.a.b`, `#a#b`), and any at-rule (`@media`, `@supports`,
    /// `@import`, or any other nested block) - it is passed over as a whole,
    /// so its inner declarations never take effect.
    /// `!important` declarations enter the higher cascade tier. A selector
    /// list (`a, b`) is split on `,` and each part is parsed and skipped
    /// independently, so one unsupported part does not drop the others.
    pub fn add(&mut self, css: &str)
        ensures
            final(self)@ == old(self)@ + rules_of(without_comments(css@)),
    {
        let source: Vec<char> = chars_of(css);
        let text: Vec<char> = strip_css_comments(&source);
        let ghost was = self@;
        let mut rest: &[char] = &text;
        let mut at: Reader = Reader::new();
        while rest.len() > 0
            invariant
                self@ + rules_from(rest@, at@) == was + rules_of(text@),
                was == old(self)@,
                text@ == without_comments(css@),
            decreases rest@.len(),
        {
            let ghost before = self@;
            let ghost start = at@;
            let blank: usize = find(rest, CharClass::Space, false);
            at.advance(rest, blank);
            let s: &[char] = from(rest, blank);
            let next: &[char] = if s.len() > 0 && s[0] == '@' && at.is_plain() {
                assert(self@ =~= before + at_rule(s@).rules);
                skip_at_rule(s)
            } else {
                self.add_rule(s, &mut at)
            };
            proof {
                lemma_first_item(rest@, start);
                assert(self@ + rules_from(next@, at@) =~= before + rules_from(rest@, start));
            }
            rest = next;
        }
        assert(self@ =~= self@ + rules_from(rest@, at@));
    }

    /// Number of rules parsed so far: whether a given selector text produces
    /// a rule at all, independent of whether the element it would match
    /// happens to be hidden some other way too.
    pub fn rule_count(&self) -> (r: usize)
        ensures
            r == self@.len(),
    {
        self.rules.len()
    }

    /// The rule at `i`, in document order.
    pub fn rule(&self, i: usize) -> (r: &Rule)
        requires
            i < self@.len(),
        ensures
            r@ == self@[i as int],
    {
        &self.rules[i]
    }
}

} // verus!
