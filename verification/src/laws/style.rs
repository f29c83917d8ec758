//! What declarations and tags promise: each changes what it names and leaves
//! the rest as it was.

use crate::chars;
use crate::chars::CharClass;
use crate::css;
use crate::css::{DeclProps, StyleProps};
use crate::laws;
use crate::laws::cascade::Property;
use crate::number;
use crate::style;
use crate::style::StyleDelta;
use crate::tags;
use crate::tags::Inherited;
use crate::xml::Element;
use crate::zero;
use vstd::prelude::*;

verus! {

// ---------------------------------------------------------------------------
// One declaration

/// Whether a declaration of that name is about the property.
pub open spec fn names(name: Seq<char>, p: Property) -> bool {
    match p {
        Property::Bold => name == "font-weight"@,
        Property::Italic => name == "font-style"@,
        Property::Strike => name == "text-decoration"@ || name == "text-decoration-line"@,
        Property::Code => false,
        Property::Display => name == "display"@,
        Property::Visibility => name == "visibility"@,
        Property::Opacity => name == "opacity"@,
        Property::FontSize => name == "font-size"@ || name == "font"@,
    }
}

/// The names are all different.
proof fn lemma_names()
    ensures
        forall|name: Seq<char>, p: Property, q: Property|
            #![trigger names(name, p), names(name, q)]
            names(name, p) && names(name, q) ==> p == q,
        "font-size"@ != "font"@,
{
    reveal_strlit("font-weight");
    reveal_strlit("font-style");
    reveal_strlit("text-decoration");
    reveal_strlit("text-decoration-line");
    reveal_strlit("display");
    reveal_strlit("visibility");
    reveal_strlit("opacity");
    reveal_strlit("font-size");
    reveal_strlit("font");
    assert("font-weight"@.len() == 11);
    assert("font-style"@.len() == 10);
    assert("text-decoration"@.len() == 15);
    assert("text-decoration-line"@.len() == 20);
    assert("display"@.len() == 7);
    assert("visibility"@.len() == 10);
    assert("opacity"@.len() == 7);
    assert("font-size"@.len() == 9);
    assert("font"@.len() == 4);
    assert("font-style"@[0] != "visibility"@[0]);
    assert("display"@[0] != "opacity"@[0]);
}

/// A declaration changes at most the property it names: every other one, and
/// everything else there is, stays as it was.
pub proof fn law_a_declaration_changes_its_own_property(
    name: Seq<char>,
    value: Seq<char>,
    before: StyleProps,
    p: Property,
)
    requires
        !names(name, p),
    ensures
        p.of(css::declared(name, value, before)) == p.of(before),
        css::declared(name, value, before).hidden == before.hidden,
{
}

/// A declaration of none of the known properties changes nothing.
pub proof fn law_other_declarations_change_nothing(
    name: Seq<char>,
    value: Seq<char>,
    before: StyleProps,
)
    requires
        forall|p: Property| !#[trigger] names(name, p),
    ensures
        css::declared(name, value, before) == before,
{
    assert(!names(name, Property::Bold));
    assert(!names(name, Property::Italic));
    assert(!names(name, Property::Strike));
    assert(!names(name, Property::Display));
    assert(!names(name, Property::Visibility));
    assert(!names(name, Property::Opacity));
    assert(!names(name, Property::FontSize));
}

/// `display` hides exactly as `none`, and shows as anything else.
pub proof fn law_display(value: Seq<char>, before: StyleProps)
    ensures
        css::declared("display"@, value, before).display_none == Some(value == "none"@),
{
    lemma_names();
    assert(names("display"@, Property::Display));
    assert(!names("display"@, Property::Bold));
    assert(!names("display"@, Property::Italic));
    assert(!names("display"@, Property::Strike));
}

/// `visibility` hides as `hidden` or `collapse`, shows as `visible`, and says
/// nothing as anything else.
pub proof fn law_visibility(value: Seq<char>, before: StyleProps)
    ensures
        ({
            let after = css::declared("visibility"@, value, before).visibility_hidden;
            &&& after == Some(true) <== value == "hidden"@ || value == "collapse"@
            &&& after == Some(false) <== value == "visible"@
            &&& after == before.visibility_hidden <== value != "hidden"@ && value != "collapse"@
                && value != "visible"@
        }),
{
    lemma_names();
    reveal_strlit("hidden");
    reveal_strlit("visible");
    reveal_strlit("collapse");
    assert("hidden"@.len() == 6 && "visible"@.len() == 7 && "collapse"@.len() == 8);
    assert(names("visibility"@, Property::Visibility));
    assert(!names("visibility"@, Property::Bold));
    assert(!names("visibility"@, Property::Italic));
    assert(!names("visibility"@, Property::Strike));
    assert(!names("visibility"@, Property::Display));
}

/// `opacity` and `font-size` hide as a zero and show as any other number; what
/// is no number says nothing.
pub proof fn law_zero_hides(value: Seq<char>, before: StyleProps)
    ensures
        ({
            let opacity = css::declared("opacity"@, value, before).opacity_zero;
            let size = css::declared("font-size"@, value, before).font_size_zero;
            match zero::zero(value) {
                Some(z) => opacity == Some(z) && size == Some(z),
                None => opacity == before.opacity_zero && size == before.font_size_zero,
            }
        }),
{
    lemma_names();
    assert(names("opacity"@, Property::Opacity));
    assert(!names("opacity"@, Property::Bold));
    assert(!names("opacity"@, Property::Italic));
    assert(!names("opacity"@, Property::Strike));
    assert(!names("opacity"@, Property::Display));
    assert(!names("opacity"@, Property::Visibility));
    assert(names("font-size"@, Property::FontSize));
    assert(!names("font-size"@, Property::Bold));
    assert(!names("font-size"@, Property::Italic));
    assert(!names("font-size"@, Property::Strike));
    assert(!names("font-size"@, Property::Display));
    assert(!names("font-size"@, Property::Visibility));
    assert(!names("font-size"@, Property::Opacity));
}

/// `font-weight` is bold as `bold`, `bolder` or a number of 600 or more, and
/// not as anything else.
pub proof fn law_font_weight(value: Seq<char>, before: StyleProps)
    ensures
        ({
            let bold = css::declared("font-weight"@, value, before).delta.bold;
            &&& bold is Some
            &&& value == "bold"@ || value == "bolder"@ ==> bold == Some(true)
            &&& number::unsigned(value, u32::MAX as nat) matches Some(n) ==> value != "bold"@
                && value != "bolder"@ ==> bold == Some(n >= 600)
            &&& number::unsigned(value, u32::MAX as nat) is None && value != "bold"@ && value
                != "bolder"@ ==> bold == Some(false)
        }),
{
}

/// `font-style` slants as `italic` or `oblique`, and not as anything else.
pub proof fn law_font_style(value: Seq<char>, before: StyleProps)
    ensures
        css::declared("font-style"@, value, before).delta.italic == Some(
            value == "italic"@ || value == "oblique"@,
        ),
{
    lemma_names();
    assert(names("font-style"@, Property::Italic));
    assert(!names("font-style"@, Property::Bold));
}

/// `text-decoration` strikes through wherever it has `line-through`, clears
/// as `none`, and says nothing as anything else.
pub proof fn law_text_decoration(
    name: Seq<char>,
    before_it: Seq<char>,
    behind_it: Seq<char>,
    other: Seq<char>,
    before: StyleProps,
)
    requires
        name == "text-decoration"@ || name == "text-decoration-line"@,
        forall|i: int| !#[trigger] chars::occurs_at(other, "line-through"@, i),
    ensures
        css::declared(name, before_it + "line-through"@ + behind_it, before).delta.strike == Some(
            true,
        ),
        other == "none"@ ==> css::declared(name, other, before).delta.strike == Some(false),
        other != "none"@ ==> css::declared(name, other, before).delta.strike
            == before.delta.strike,
{
    lemma_names();
    assert(names(name, Property::Strike));
    assert(!names(name, Property::Bold));
    assert(!names(name, Property::Italic));
    let value = before_it + "line-through"@ + behind_it;
    let n = before_it.len() as int;
    assert(value.subrange(n, n + "line-through"@.len()) =~= "line-through"@);
    assert(chars::occurs_at(value, "line-through"@, n));
}

/// A `font` shorthand without a number says nothing; one whose first number
/// has a unit, or is zero, says whether that is zero.
pub proof fn law_font_shorthand(value: Seq<char>, before: StyleProps, k: int)
    requires
        0 <= k <= chars::words(value).len(),
        forall|j: int| 0 <= j < k ==> (#[trigger] css::size_of(chars::words(value)[j])) is None,
    ensures
        k == chars::words(value).len() ==> css::declared("font"@, value, before).font_size_zero
            == before.font_size_zero,
        k < chars::words(value).len() ==> ({
            let word = chars::words(value)[k];
            css::size_of(word) is Some && (number::unsigned(word, u32::MAX as nat) is None
                || number::unsigned(word, u32::MAX as nat) == Some(0nat)) ==> css::declared(
                "font"@,
                value,
                before,
            ).font_size_zero == css::size_of(word)
        }),
{
    lemma_font_name();
    lemma_first_number(chars::words(value), k);
}

proof fn lemma_font_name()
    ensures
        forall|value: Seq<char>, before: StyleProps|
            (#[trigger] css::declared("font"@, value, before)).font_size_zero == style::set_over(
                css::font_size_of(chars::words(value)),
                before.font_size_zero,
            ),
{
    lemma_names();
    assert(names("font"@, Property::FontSize));
    assert(!names("font"@, Property::Bold));
    assert(!names("font"@, Property::Italic));
    assert(!names("font"@, Property::Strike));
    assert(!names("font"@, Property::Display));
    assert(!names("font"@, Property::Visibility));
    assert(!names("font"@, Property::Opacity));
}

proof fn lemma_first_number(words: Seq<Seq<char>>, k: int)
    requires
        0 <= k <= words.len(),
        forall|j: int| 0 <= j < k ==> (#[trigger] css::size_of(words[j])) is None,
    ensures
        css::font_size_of(words) == css::font_size_of(words.skip(k)),
    decreases k,
{
    if k > 0 {
        assert(css::size_of(words[0]) is None);
        let rest = words.skip(1);
        assert forall|j: int| 0 <= j < k - 1 implies (#[trigger] css::size_of(rest[j])) is None by {
            assert(rest[j] == words[j + 1]);
        }
        lemma_first_number(rest, k - 1);
        assert(rest.skip(k - 1) =~= words.skip(k));
    } else {
        assert(words.skip(0) =~= words);
    }
}

/// The keywords that may stand before the size in a `font` shorthand.
pub open spec fn before_the_size(word: Seq<char>) -> bool {
    ||| word == "normal"@ || word == "italic"@ || word == "oblique"@ || word == "small-caps"@
    ||| word == "bold"@ || word == "bolder"@ || word == "lighter"@
    ||| word == "ultra-condensed"@ || word == "extra-condensed"@ || word == "condensed"@
    ||| word == "semi-condensed"@ || word == "semi-expanded"@ || word == "expanded"@
    ||| word == "extra-expanded"@ || word == "ultra-expanded"@
}

/// A whole number in a `font` shorthand is the size after all where a word of
/// the family follows, whatever comes behind it, and where nothing follows.
pub proof fn law_a_number_before_the_family_is_the_size(
    lead: Seq<Seq<char>>,
    size: Seq<char>,
    family: Seq<char>,
    rest: Seq<Seq<char>>,
)
    requires
        forall|j: int| 0 <= j < lead.len() ==> (#[trigger] css::size_of(lead[j])) is None,
        css::size_of(size) is Some,
        css::size_of(family) is None,
        !before_the_size(family),
    ensures
        css::font_size_of(lead + seq![size] + seq![family] + rest) == css::size_of(size),
        css::font_size_of(lead + seq![size]) == css::size_of(size),
{
    let words = lead + seq![size] + seq![family] + rest;
    let k = lead.len() as int;
    assert forall|j: int| 0 <= j < k implies (#[trigger] css::size_of(words[j])) is None by {
        assert(words[j] == lead[j]);
    }
    lemma_first_number(words, k);
    let tail = words.skip(k);
    assert(tail[0] == size);
    assert(tail.skip(1)[0] == family);
    let short = lead + seq![size];
    assert forall|j: int| 0 <= j < k implies (#[trigger] css::size_of(short[j])) is None by {
        assert(short[j] == lead[j]);
    }
    lemma_first_number(short, k);
    assert(short.skip(k)[0] == size);
    assert(short.skip(k).skip(1).len() == 0);
}

/// A weight in front of the size of a `font` shorthand is not the size: with
/// only keywords between the two, the size decides.
pub proof fn law_a_weight_is_not_the_size(
    lead: Seq<Seq<char>>,
    weight: Seq<char>,
    between: Seq<Seq<char>>,
    size: Seq<char>,
    family: Seq<Seq<char>>,
)
    requires
        forall|j: int| 0 <= j < lead.len() ==> (#[trigger] css::size_of(lead[j])) is None,
        css::size_of(weight) is Some,
        number::unsigned(weight, u32::MAX as nat) matches Some(n) && 1 <= n <= 1000,
        forall|j: int|
            0 <= j < between.len() ==> css::size_of(#[trigger] between[j]) is None
                && before_the_size(between[j]),
        css::size_of(size) is Some,
    ensures
        css::font_size_of(lead + seq![weight] + between + seq![size] + family) == css::size_of(
            size,
        ),
{
    let words = lead + seq![weight] + between + seq![size] + family;
    let k = lead.len() as int;
    assert forall|j: int| 0 <= j < k implies (#[trigger] css::size_of(words[j])) is None by {
        assert(words[j] == lead[j]);
    }
    lemma_first_number(words, k);
    let rest = words.skip(k);
    assert(rest[0] == weight);
    assert(rest.skip(1) =~= between + (seq![size] + family));
    lemma_behind(between, size, family);
}

proof fn lemma_behind(between: Seq<Seq<char>>, size: Seq<char>, family: Seq<Seq<char>>)
    requires
        forall|j: int|
            0 <= j < between.len() ==> css::size_of(#[trigger] between[j]) is None
                && before_the_size(between[j]),
        css::size_of(size) is Some,
    ensures
        css::size_behind_keywords(between + (seq![size] + family)) == css::size_of(size),
    decreases between.len(),
{
    let all = between + (seq![size] + family);
    if between.len() == 0 {
        assert(all[0] == size);
    } else {
        let rest = between.skip(1);
        assert(css::size_of(between[0]) is None);
        assert(all[0] == between[0]);
        assert forall|j: int| 0 <= j < rest.len() implies css::size_of(#[trigger] rest[j]) is None
            && before_the_size(rest[j]) by {
            assert(rest[j] == between[j + 1]);
        }
        lemma_behind(rest, size, family);
        assert(all.skip(1) =~= rest + (seq![size] + family));
    }
}

// ---------------------------------------------------------------------------
// Declaration blocks

/// What one tier of a block says about a property.
pub open spec fn tier_of(d: DeclProps, important: bool, p: Property) -> Option<bool> {
    if important {
        p.of(d.important)
    } else {
        p.of(d.normal)
    }
}

proof fn lemma_declared_over(
    name: Seq<char>,
    value: Seq<char>,
    before: StyleProps,
    p: Property,
)
    ensures
        p.of(css::declared(name, value, before)) == style::set_over(
            p.of(css::declared(name, value, StyleProps::none())),
            p.of(before),
        ),
{
}

proof fn lemma_declaration_over(decl: Seq<char>, out: DeclProps, important: bool, p: Property)
    ensures
        tier_of(css::with_declaration(decl, out), important, p) == style::set_over(
            tier_of(css::with_declaration(decl, DeclProps::none()), important, p),
            tier_of(out, important, p),
        ),
{
    let k = chars::first(decl, CharClass::Only(':'), true) as int;
    let name = chars::lower(chars::trim(decl.take(k)));
    let text = chars::lower(chars::trim(decl.skip(k + 1)));
    let bang = chars::first(text, CharClass::Only('!'), true) as int;
    let value = chars::trim_end_of(text.take(bang), CharClass::Space);
    lemma_declared_over(name, text, out.normal, p);
    lemma_declared_over(name, value, out.normal, p);
    lemma_declared_over(name, value, out.important, p);
}

proof fn lemma_declarations_over(body: Seq<char>, out: DeclProps, important: bool, p: Property)
    ensures
        tier_of(css::with_declarations(body, out), important, p) == style::set_over(
            tier_of(css::declarations(body), important, p),
            tier_of(out, important, p),
        ),
    decreases body.len(),
{
    let k = chars::first(body, CharClass::Only(';'), true) as int;
    let first = body.take(k);
    lemma_declaration_over(first, out, important, p);
    if k < body.len() {
        let rest = body.skip(k + 1);
        lemma_declarations_over(rest, css::with_declaration(first, out), important, p);
        lemma_declarations_over(
            rest,
            css::with_declaration(first, DeclProps::none()),
            important,
            p,
        );
    }
}

/// In a block, the last declaration that says something of a property in a
/// tier decides it there, whatever is declared of other properties or in the
/// other tier.
pub proof fn law_last_declaration_decides(
    a: Seq<char>,
    b: Seq<char>,
    important: bool,
    p: Property,
)
    ensures
        ({
            let whole = tier_of(css::declarations(a.push(';') + b), important, p);
            let first = tier_of(css::declarations(a), important, p);
            let second = tier_of(css::declarations(b), important, p);
            &&& second is Some ==> whole == second
            &&& second is None ==> whole == first
        }),
{
    laws::css::law_declarations_in_order(a, b, DeclProps::none());
    lemma_declarations_over(b, css::declarations(a), important, p);
}

// ---------------------------------------------------------------------------
// Tags

/// Whether a tag of that name stands for bold, italic, struck-through or code
/// text.
pub open spec fn stands_for(name: Seq<char>, p: Property) -> bool {
    match p {
        Property::Bold => name == "b"@ || name == "strong"@,
        Property::Italic => name == "i"@ || name == "em"@ || name == "cite"@ || name == "dfn"@
            || name == "var"@,
        Property::Strike => name == "s"@ || name == "del"@ || name == "strike"@,
        Property::Code => name == "code"@ || name == "kbd"@ || name == "samp"@ || name == "tt"@,
        _ => false,
    }
}

proof fn lemma_tags()
    ensures
        forall|name: Seq<char>, p: Property, q: Property|
            #![trigger stands_for(name, p), stands_for(name, q)]
            stands_for(name, p) && stands_for(name, q) ==> p == q,
{
    reveal_strlit("b");
    reveal_strlit("strong");
    reveal_strlit("i");
    reveal_strlit("em");
    reveal_strlit("cite");
    reveal_strlit("dfn");
    reveal_strlit("var");
    reveal_strlit("s");
    reveal_strlit("del");
    reveal_strlit("strike");
    reveal_strlit("code");
    reveal_strlit("kbd");
    reveal_strlit("samp");
    reveal_strlit("tt");
    assert("b"@.len() == 1 && "i"@.len() == 1 && "s"@.len() == 1);
    assert("em"@.len() == 2 && "tt"@.len() == 2);
    assert("dfn"@.len() == 3 && "var"@.len() == 3 && "del"@.len() == 3 && "kbd"@.len() == 3);
    assert("cite"@.len() == 4 && "code"@.len() == 4 && "samp"@.len() == 4);
    assert("strong"@.len() == 6 && "strike"@.len() == 6);
    assert("b"@[0] == 'b' && "i"@[0] == 'i' && "s"@[0] == 's');
    assert("em"@[0] == 'e' && "tt"@[0] == 't');
    assert("dfn"@[0] == 'd' && "var"@[0] == 'v' && "del"@[0] == 'd' && "kbd"@[0] == 'k');
    assert("dfn"@[1] == 'f' && "del"@[1] == 'e');
    assert("cite"@[0] == 'c' && "code"@[0] == 'c' && "samp"@[0] == 's');
    assert("cite"@[1] == 'i' && "code"@[1] == 'o');
    assert("strong"@[3] == 'o' && "strike"@[3] == 'i');
}

/// What a change of styling says of a property.
pub open spec fn delta_of(d: StyleDelta, p: Property) -> Option<bool> {
    match p {
        Property::Bold => d.bold,
        Property::Italic => d.italic,
        Property::Strike => d.strike,
        Property::Code => d.code,
        _ => None,
    }
}

/// A presentational tag adds the styling it stands for and leaves the rest as
/// inherited, so that nested tags add up; any other tag adds nothing.
pub proof fn law_tags_add_their_styling(name: Seq<char>, inherited: StyleDelta, p: Property)
    ensures
        stands_for(name, p) ==> delta_of(tags::tag_styled(name, inherited), p) == Some(true),
        !stands_for(name, p) ==> delta_of(tags::tag_styled(name, inherited), p) == delta_of(
            inherited,
            p,
        ),
{
    lemma_tags();
    if stands_for(name, p) {
        assert(p is Bold || !stands_for(name, Property::Bold));
        assert(p is Italic || !stands_for(name, Property::Italic));
        assert(p is Strike || !stands_for(name, Property::Strike));
        assert(p is Code || !stands_for(name, Property::Code));
    }
}

/// The styling inside elements of those names, each within the one before it.
pub open spec fn nested_tags(names: Seq<Seq<char>>, inherited: StyleDelta) -> StyleDelta
    decreases names.len(),
{
    if names.len() == 0 {
        inherited
    } else {
        tags::tag_styled(names.last(), nested_tags(names.drop_last(), inherited))
    }
}

/// Nested tags add up, at any depth and in any order: a property is set if one
/// of them stands for it, and stays as inherited if none does.
pub proof fn law_nested_tags_add_up(names: Seq<Seq<char>>, inherited: StyleDelta, p: Property)
    ensures
        (exists|i: int| 0 <= i < names.len() && stands_for(#[trigger] names[i], p)) ==> delta_of(
            nested_tags(names, inherited),
            p,
        ) == Some(true),
        (forall|i: int| 0 <= i < names.len() ==> !stands_for(#[trigger] names[i], p)) ==> delta_of(
            nested_tags(names, inherited),
            p,
        ) == delta_of(inherited, p),
    decreases names.len(),
{
    if names.len() > 0 {
        let rest = names.drop_last();
        law_nested_tags_add_up(rest, inherited, p);
        law_tags_add_their_styling(names.last(), nested_tags(rest, inherited), p);
        if exists|i: int| 0 <= i < names.len() && stands_for(#[trigger] names[i], p) {
            let i = choose|i: int| 0 <= i < names.len() && stands_for(#[trigger] names[i], p);
            if i < rest.len() {
                assert(rest[i] == names[i]);
            }
        }
        if forall|i: int| 0 <= i < names.len() ==> !stands_for(#[trigger] names[i], p) {
            assert forall|i: int| 0 <= i < rest.len() implies !stands_for(
                #[trigger] rest[i],
                p,
            ) by {
                assert(rest[i] == names[i]);
            }
            assert(!stands_for(names[names.len() - 1], p));
        }
    }
}

/// Whether text shows a property.
pub open spec fn shows(s: style::Style, p: Property) -> bool {
    match p {
        Property::Bold => s.bold,
        Property::Italic => s.italic,
        Property::Strike => s.strike,
        Property::Code => s.code,
        _ => false,
    }
}

/// What text in an element shows: what the element's own style sets; where it
/// sets nothing, what its tag stands for or what is inherited. Its own font
/// size, where it sets one, replaces the inherited one.
pub proof fn law_styling_of_an_element(
    inherited: Inherited,
    elem: Element,
    props: StyleProps,
    p: Property,
)
    requires
        p is Bold || p is Italic || p is Strike || p is Code,
    ensures
        ({
            let inside = inherited.within(elem, props);
            &&& p.of(props) matches Some(set) ==> shows(inside.delta.resolved(), p) == set
            &&& p.of(props) is None ==> shows(inside.delta.resolved(), p) == (stands_for(
                elem.local@,
                p,
            ) || shows(inherited.delta.resolved(), p))
            &&& props.font_size_zero matches Some(z) ==> inside.font_size_zero == z
            &&& props.font_size_zero is None ==> inside.font_size_zero == inherited.font_size_zero
        }),
{
    law_tags_add_their_styling(elem.local@, inherited.delta, p);
}

/// The same of a body, whose tag stands for nothing.
pub proof fn law_styling_of_a_body(props: StyleProps, p: Property)
    requires
        p is Bold || p is Italic || p is Strike || p is Code,
    ensures
        ({
            let inside = Inherited::none().with(props);
            &&& shows(inside.delta.resolved(), p) == (p.of(props) == Some(true))
            &&& inside.font_size_zero == (props.font_size_zero == Some(true))
        }),
{
}

} // verus!
