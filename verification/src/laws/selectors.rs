//! What selectors and rules promise: a selector asks of an element what it
//! spells out, and the rules that hold of an element decide its properties.

use crate::cascade;
use crate::cascade::Entry;
use crate::chars;
use crate::chars::CharClass;
use crate::css;
use crate::css::{
    AttrSelector, DeclProps, RuleText, Selector, StyleProps, IMPORTANT_PRIORITY, INLINE_PRIORITY,
};
use crate::laws;
use crate::laws::cascade::Property;
use crate::xml::Element;
use vstd::prelude::*;

verus! {

// ---------------------------------------------------------------------------
// Spelling

/// A component of a selector.
pub enum Piece {
    Class(Seq<char>),
    Id(Seq<char>),
    Attr(Seq<char>),
}

impl Piece {
    /// How it is spelled.
    pub open spec fn text(self) -> Seq<char> {
        match self {
            Piece::Class(name) => seq!['.'] + name,
            Piece::Id(name) => seq!['#'] + name,
            Piece::Attr(inner) => seq!['['] + inner + seq![']'],
        }
    }

    /// Whether it is one of those that are supported.
    pub open spec fn supported(self) -> bool {
        match self {
            Piece::Class(name) => name.len() > 0 && plain(name),
            Piece::Id(name) => name.len() > 0 && plain(name),
            Piece::Attr(inner) => plain(inner) && css::attr_selector(inner) is Some,
        }
    }

    /// Whether both are of one kind.
    pub open spec fn like(self, other: Piece) -> bool {
        ||| self is Class && other is Class
        ||| self is Id && other is Id
        ||| self is Attr && other is Attr
    }

    /// Whether a selector asks for it.
    pub open spec fn asked_by(self, sel: Selector) -> bool {
        match self {
            Piece::Class(name) => sel.class == Some(name),
            Piece::Id(name) => sel.id == Some(name),
            Piece::Attr(inner) => sel.attr == css::attr_selector(inner),
        }
    }
}

/// Whether nothing in `s` starts a component or takes a selector out of the
/// supported subset.
pub open spec fn plain(s: Seq<char>) -> bool {
    laws::css::free_of(s, CharClass::Mark) && laws::css::free_of(s, CharClass::Unsupported)
}

/// The components, one behind the other.
pub open spec fn spelled(pieces: Seq<Piece>) -> Seq<char>
    decreases pieces.len(),
{
    if pieces.len() == 0 {
        Seq::empty()
    } else {
        pieces[0].text() + spelled(pieces.skip(1))
    }
}

/// Whether no two components are of one kind.
pub open spec fn distinct(pieces: Seq<Piece>) -> bool {
    forall|i: int, j: int|
        0 <= i < j < pieces.len() ==> !(#[trigger] pieces[i]).like(#[trigger] pieces[j])
}

proof fn lemma_spelled(pieces: Seq<Piece>)
    requires
        forall|i: int| 0 <= i < pieces.len() ==> (#[trigger] pieces[i]).supported(),
    ensures
        spelled(pieces).len() > 0 ==> CharClass::Mark.has(spelled(pieces)[0]),
        pieces.len() > 0 ==> spelled(pieces).len() > 0,
        laws::css::free_of(spelled(pieces), CharClass::Unsupported),
    decreases pieces.len(),
{
    if pieces.len() > 0 {
        let rest = pieces.skip(1);
        assert forall|i: int| 0 <= i < rest.len() implies (#[trigger] rest[i]).supported() by {
            assert(rest[i] == pieces[i + 1]);
        }
        lemma_spelled(rest);
        assert(pieces[0].supported());
        let t = pieces[0].text();
        let all = t + spelled(rest);
        assert(all[0] == t[0]);
        assert forall|i: int| 0 <= i < all.len() implies !CharClass::Unsupported.has(
            #[trigger] all[i],
        ) by {
            if i < t.len() {
                assert(all[i] == t[i]);
                match pieces[0] {
                    Piece::Class(name) => {
                        if i > 0 {
                            assert(t[i] == name[i - 1]);
                        }
                    },
                    Piece::Id(name) => {
                        if i > 0 {
                            assert(t[i] == name[i - 1]);
                        }
                    },
                    Piece::Attr(inner) => {
                        if 0 < i <= inner.len() {
                            assert(t[i] == inner[i - 1]);
                        }
                    },
                }
            } else {
                assert(all[i] == spelled(rest)[i - t.len()]);
            }
        }
    }
}

/// Whether a selector has room for a component of that kind.
spec fn room(acc: Selector, piece: Piece) -> bool {
    match piece {
        Piece::Class(_) => acc.class is None,
        Piece::Id(_) => acc.id is None,
        Piece::Attr(_) => acc.attr is None,
    }
}

#[verifier::rlimit(40)]
proof fn lemma_pieces(acc: Selector, pieces: Seq<Piece>)
    requires
        forall|i: int| 0 <= i < pieces.len() ==> (#[trigger] pieces[i]).supported(),
        distinct(pieces),
        forall|i: int| 0 <= i < pieces.len() ==> room(acc, #[trigger] pieces[i]),
    ensures
        ({
            let sel = css::with_components(acc, spelled(pieces))->Some_0;
            &&& css::with_components(acc, spelled(pieces)) is Some
            &&& sel.tag == acc.tag
            &&& forall|i: int| 0 <= i < pieces.len() ==> (#[trigger] pieces[i]).asked_by(sel)
            &&& (forall|i: int| 0 <= i < pieces.len() ==> !(#[trigger] pieces[i] is Class))
                ==> sel.class == acc.class
            &&& (forall|i: int| 0 <= i < pieces.len() ==> !(#[trigger] pieces[i] is Id)) ==> sel.id
                == acc.id
            &&& (forall|i: int| 0 <= i < pieces.len() ==> !(#[trigger] pieces[i] is Attr))
                ==> sel.attr == acc.attr
        }),
    decreases pieces.len(),
{
    if pieces.len() > 0 {
        let piece = pieces[0];
        let rest = pieces.skip(1);
        assert(piece.supported());
        assert(room(acc, piece));
        assert forall|i: int| 0 <= i < rest.len() implies (#[trigger] rest[i]).supported() by {
            assert(rest[i] == pieces[i + 1]);
        }
        lemma_spelled(rest);
        let t = piece.text();
        let more = spelled(rest);
        let all = t + more;
        let tail = all.skip(1);
        let body = t.skip(1);
        assert(tail =~= body + more);
        assert forall|j: int| 0 <= j < body.len() implies CharClass::Mark.has(#[trigger] tail[j])
            != true by {
            assert(tail[j] == t[j + 1]);
            match piece {
                Piece::Class(name) => {
                    assert(t[j + 1] == name[j]);
                },
                Piece::Id(name) => {
                    assert(t[j + 1] == name[j]);
                },
                Piece::Attr(inner) => {
                    if j < inner.len() {
                        assert(t[j + 1] == inner[j]);
                    }
                },
            }
        }
        if more.len() > 0 {
            assert(tail[body.len() as int] == more[0]);
        }
        chars::lemma_first(tail, CharClass::Mark, true, body.len() as int);
        assert(tail.take(body.len() as int) =~= body);
        assert(tail.skip(body.len() as int) =~= more);
        assert(all[0] == t[0]);
        match piece {
            Piece::Class(name) => {
                assert(body =~= name);
            },
            Piece::Id(name) => {
                assert(body =~= name);
            },
            Piece::Attr(inner) => {
                assert(body =~= inner.push(']'));
                assert(body.drop_last() =~= inner);
            },
        }
        let next = css::with_component(acc, all[0], body)->Some_0;
        assert(css::with_component(acc, all[0], body) is Some);
        assert forall|i: int| 0 <= i < rest.len() implies room(next, #[trigger] rest[i]) by {
            assert(rest[i] == pieces[i + 1]);
            assert(room(acc, pieces[i + 1]));
            assert(!pieces[0].like(pieces[i + 1]));
        }
        assert(distinct(rest)) by {
            assert forall|i: int, j: int| 0 <= i < j < rest.len() implies !(
            #[trigger] rest[i]).like(#[trigger] rest[j]) by {
                assert(rest[i] == pieces[i + 1] && rest[j] == pieces[j + 1]);
                assert(!pieces[i + 1].like(pieces[j + 1]));
            }
        }
        lemma_pieces(next, rest);
        let sel = css::with_components(next, more)->Some_0;
        assert(css::with_components(acc, all) == css::with_components(next, more));
        assert forall|i: int| 0 <= i < rest.len() implies !piece.like(#[trigger] rest[i]) by {
            assert(rest[i] == pieces[i + 1]);
            assert(!pieces[0].like(pieces[i + 1]));
        }
        assert(piece.asked_by(sel)) by {
            match piece {
                Piece::Class(_) => {
                    assert forall|i: int| 0 <= i < rest.len() implies !(
                    #[trigger] rest[i] is Class) by {
                        assert(!piece.like(rest[i]));
                    }
                },
                Piece::Id(_) => {
                    assert forall|i: int| 0 <= i < rest.len() implies !(
                    #[trigger] rest[i] is Id) by {
                        assert(!piece.like(rest[i]));
                    }
                },
                Piece::Attr(_) => {
                    assert forall|i: int| 0 <= i < rest.len() implies !(
                    #[trigger] rest[i] is Attr) by {
                        assert(!piece.like(rest[i]));
                    }
                },
            }
        }
        assert forall|i: int| 0 <= i < pieces.len() implies (#[trigger] pieces[i]).asked_by(
            sel,
        ) by {
            if i > 0 {
                assert(rest[i - 1] == pieces[i]);
            }
        }
        if forall|i: int| 0 <= i < pieces.len() ==> !(#[trigger] pieces[i] is Class) {
            assert forall|i: int| 0 <= i < rest.len() implies !(#[trigger] rest[i] is Class) by {
                assert(rest[i] == pieces[i + 1]);
            }
            assert(!(pieces[0] is Class));
        }
        if forall|i: int| 0 <= i < pieces.len() ==> !(#[trigger] pieces[i] is Id) {
            assert forall|i: int| 0 <= i < rest.len() implies !(#[trigger] rest[i] is Id) by {
                assert(rest[i] == pieces[i + 1]);
            }
            assert(!(pieces[0] is Id));
        }
        if forall|i: int| 0 <= i < pieces.len() ==> !(#[trigger] pieces[i] is Attr) {
            assert forall|i: int| 0 <= i < rest.len() implies !(#[trigger] rest[i] is Attr) by {
                assert(rest[i] == pieces[i + 1]);
            }
            assert(!(pieces[0] is Attr));
        }
    }
}

/// A tag, or none, and components behind it, in any order and at most one of a
/// kind, make a selector that asks for exactly these: the tag in lower case,
/// names as they are written.
pub proof fn law_selectors_ask_for_what_they_spell(tag: Seq<char>, pieces: Seq<Piece>)
    requires
        plain(tag),
        tag.len() > 0 || pieces.len() > 0,
        forall|i: int| 0 <= i < pieces.len() ==> (#[trigger] pieces[i]).supported(),
        distinct(pieces),
    ensures
        ({
            let sel = css::selector(tag + spelled(pieces))->Some_0;
            &&& css::selector(tag + spelled(pieces)) is Some
            &&& sel.tag == if tag.len() == 0 {
                None
            } else {
                Some(chars::lower(tag))
            }
            &&& forall|i: int| 0 <= i < pieces.len() ==> (#[trigger] pieces[i]).asked_by(sel)
            &&& (forall|i: int| 0 <= i < pieces.len() ==> !(#[trigger] pieces[i] is Class))
                ==> sel.class is None
            &&& (forall|i: int| 0 <= i < pieces.len() ==> !(#[trigger] pieces[i] is Id))
                ==> sel.id is None
            &&& (forall|i: int| 0 <= i < pieces.len() ==> !(#[trigger] pieces[i] is Attr))
                ==> sel.attr is None
        }),
{
    let s = tag + spelled(pieces);
    lemma_spelled(pieces);
    assert forall|j: int| 0 <= j < s.len() implies CharClass::Unsupported.has(#[trigger] s[j])
        != true by {
        if j < tag.len() {
            assert(s[j] == tag[j]);
        } else {
            assert(s[j] == spelled(pieces)[j - tag.len()]);
        }
    }
    chars::lemma_first(s, CharClass::Unsupported, true, s.len() as int);
    assert forall|j: int| 0 <= j < tag.len() implies CharClass::Mark.has(#[trigger] s[j])
        != true by {
        assert(s[j] == tag[j]);
    }
    if pieces.len() > 0 {
        assert(s[tag.len() as int] == spelled(pieces)[0]);
    }
    chars::lemma_first(s, CharClass::Mark, true, tag.len() as int);
    assert(s.take(tag.len() as int) =~= tag);
    assert(s.skip(tag.len() as int) =~= spelled(pieces));
    let bare = Selector { tag: None, id: None, class: None, attr: None };
    if tag.len() == 0 {
        assert(s =~= spelled(pieces));
        lemma_pieces(bare, pieces);
    } else {
        lemma_pieces(Selector { tag: Some(chars::lower(tag)), ..bare }, pieces);
    }
}

/// The attribute selectors that are supported: `hidden`, and `aria-hidden` with
/// the value `true`, in quotes or not, each in any case.
pub proof fn law_attribute_selectors(
    inner: Seq<char>,
    name: Seq<char>,
    open: Seq<char>,
    value: Seq<char>,
    close: Seq<char>,
)
    requires
        chars::lower(name) == "aria-hidden"@,
        chars::lower(value) == "true"@,
        forall|i: int| 0 <= i < open.len() ==> CharClass::Quote.has(#[trigger] open[i]),
        forall|i: int| 0 <= i < close.len() ==> CharClass::Quote.has(#[trigger] close[i]),
    ensures
        chars::lower(inner) == "hidden"@ <==> css::attr_selector(inner) == Some(
            AttrSelector::Hidden,
        ),
        css::attr_selector(name.push('=') + (open + value + close)) == Some(
            AttrSelector::AriaHiddenTrue,
        ),
{
    lemma_low();
    let s = name.push('=') + (open + value + close);
    reveal_strlit("aria-hidden");
    reveal_strlit("true");
    reveal_strlit("hidden");
    let a = "aria-hidden"@;
    let t = "true"@;
    assert(a.len() == 11 && t.len() == 4 && "hidden"@.len() == 6);
    assert(name.len() == 11 && value.len() == 4);
    assert(a[0] == 'a' && a[1] == 'r' && a[2] == 'i' && a[3] == 'a' && a[4] == '-' && a[5] == 'h'
        && a[6] == 'i' && a[7] == 'd' && a[8] == 'd' && a[9] == 'e' && a[10] == 'n');
    assert(t[0] == 't' && t[3] == 'e');
    assert forall|j: int| 0 <= j < name.len() implies CharClass::Only('=').has(#[trigger] s[j])
        != true by {
        assert(s[j] == name[j]);
        assert(chars::lower(name)[j] == chars::lower_char(name[j]));
    }
    chars::lemma_first(s, CharClass::Only('='), true, name.len() as int);
    assert(s.take(name.len() as int) =~= name);
    assert(s.skip(name.len() as int + 1) =~= open + value + close);
    assert(chars::lower(s).len() == s.len());
    assert(chars::lower(value)[0] == chars::lower_char(value[0]));
    assert(chars::lower(value)[3] == chars::lower_char(value[3]));
    lemma_unquoted(open, value, close);
}

/// An attribute selector that is supported is one of the two: what asks for
/// `aria-hidden` spells that name and the value `true` around its first `=`.
pub proof fn law_no_other_attribute_selectors(inner: Seq<char>)
    requires
        css::attr_selector(inner) == Some(AttrSelector::AriaHiddenTrue),
    ensures
        exists|k: int|
            0 <= k < inner.len() && inner[k] == '=' && chars::lower(#[trigger] inner.take(k))
                == "aria-hidden"@ && chars::lower(
                chars::trim_of(inner.skip(k + 1), CharClass::Quote),
            ) == "true"@,
{
    lemma_low();
    let k = chars::first(inner, CharClass::Only('='), true) as int;
    chars::lemma_first_is(inner, CharClass::Only('='), true);
    assert(chars::lower(inner.take(k)) == "aria-hidden"@);
}

/// A component without a name, and an attribute selector that is not closed or
/// not one of the two, make a selector that is not supported; so is an empty
/// one.
pub proof fn law_incomplete_selectors(tag: Seq<char>, inner: Seq<char>)
    requires
        plain(tag),
        plain(inner),
    ensures
        css::selector(Seq::empty()) is None,
        css::selector(tag.push('.')) is None,
        css::selector(tag.push('#')) is None,
        inner.len() > 0 && inner.last() == ']' && css::attr_selector(inner.drop_last()) is None
            ==> css::selector(tag.push('[') + inner) is None,
        inner.len() == 0 || inner.last() != ']' ==> css::selector(tag.push('[') + inner) is None,
{
    let none = Seq::<char>::empty();
    lemma_one_piece(tag, '.', none);
    lemma_one_piece(tag, '#', none);
    lemma_one_piece(tag, '[', inner);
    assert(tag.push('.') + none =~= tag.push('.'));
    assert(tag.push('#') + none =~= tag.push('#'));
}

proof fn lemma_one_piece(tag: Seq<char>, mark: char, body: Seq<char>)
    requires
        plain(tag),
        plain(body),
        CharClass::Mark.has(mark),
    ensures
        ({
            let bare = Selector { tag: None, id: None, class: None, attr: None };
            let acc = if tag.len() == 0 {
                bare
            } else {
                Selector { tag: Some(chars::lower(tag)), ..bare }
            };
            css::with_component(acc, mark, body) is None ==> css::selector(tag.push(mark) + body)
                is None
        }),
{
    let s = tag.push(mark) + body;
    assert forall|j: int| 0 <= j < tag.len() implies CharClass::Mark.has(#[trigger] s[j])
        != true by {
        assert(s[j] == tag[j]);
    }
    assert(s[tag.len() as int] == mark);
    chars::lemma_first(s, CharClass::Mark, true, tag.len() as int);
    assert(s.take(tag.len() as int) =~= tag);
    let rest = s.skip(tag.len() as int);
    let tail = rest.skip(1);
    assert(rest[0] == mark);
    assert(tail =~= body);
    assert forall|j: int| 0 <= j < body.len() implies CharClass::Mark.has(#[trigger] body[j])
        != true by {}
    chars::lemma_first(body, CharClass::Mark, true, body.len() as int);
    assert(body.take(body.len() as int) =~= body);
    if tag.len() == 0 {
        assert(rest =~= s);
    }
}

proof fn lemma_low()
    ensures
        chars::lower("hidden"@) == "hidden"@,
        chars::lower("aria-hidden"@) == "aria-hidden"@,
        chars::lower("true"@) == "true"@,
{
    reveal_strlit("hidden");
    reveal_strlit("aria-hidden");
    reveal_strlit("true");
    assert(chars::lower("hidden"@) =~= "hidden"@);
    assert(chars::lower("aria-hidden"@) =~= "aria-hidden"@);
    assert(chars::lower("true"@) =~= "true"@);
}

proof fn lemma_unquoted(open: Seq<char>, value: Seq<char>, close: Seq<char>)
    requires
        value.len() > 0,
        !CharClass::Quote.has(value[0]),
        !CharClass::Quote.has(value.last()),
        forall|i: int| 0 <= i < open.len() ==> CharClass::Quote.has(#[trigger] open[i]),
        forall|i: int| 0 <= i < close.len() ==> CharClass::Quote.has(#[trigger] close[i]),
    ensures
        chars::trim_of(open + value + close, CharClass::Quote) == value,
{
    let s = open + value + close;
    assert forall|j: int| 0 <= j < open.len() implies CharClass::Quote.has(#[trigger] s[j])
        != false by {
        assert(s[j] == open[j]);
    }
    assert(s[open.len() as int] == value[0]);
    chars::lemma_first(s, CharClass::Quote, false, open.len() as int);
    assert(s.skip(open.len() as int) =~= value + close);
    lemma_end_unquoted(value, close);
}

proof fn lemma_end_unquoted(value: Seq<char>, close: Seq<char>)
    requires
        value.len() > 0,
        !CharClass::Quote.has(value.last()),
        forall|i: int| 0 <= i < close.len() ==> CharClass::Quote.has(#[trigger] close[i]),
    ensures
        chars::trim_end_of(value + close, CharClass::Quote) == value,
    decreases close.len(),
{
    if close.len() > 0 {
        let less = close.drop_last();
        assert forall|i: int| 0 <= i < less.len() implies CharClass::Quote.has(
            #[trigger] less[i],
        ) by {
            assert(less[i] == close[i]);
        }
        lemma_end_unquoted(value, less);
        assert((value + close).drop_last() =~= value + less);
        assert(CharClass::Quote.has(close[close.len() - 1]));
    } else {
        assert(value + close =~= value);
    }
}

// ---------------------------------------------------------------------------
// What a selector asks for

/// A selector selects an element exactly if the element has all it asks for: is
/// called by its tag, has its id, has its class among the words of its class
/// attribute, and has the attribute.
pub proof fn law_selectors_select(sel: Selector, elem: Element)
    ensures
        sel.selects(cascade::facts(elem)) <==> {
            &&& sel.tag matches Some(t) ==> elem.local@ == t
            &&& sel.id matches Some(i) ==> elem.value_of("id"@) == Some(i)
            &&& sel.class matches Some(c) ==> (elem.value_of("class"@) matches Some(all)
                && chars::words(all).contains(c))
            &&& sel.attr == Some(AttrSelector::Hidden) ==> elem.value_of("hidden"@) is Some
            &&& sel.attr == Some(AttrSelector::AriaHiddenTrue) ==> (elem.value_of(
                "aria-hidden"@,
            ) matches Some(v) && chars::lower(chars::trim(v)) == "true"@)
        },
{
    lemma_low();
}

// ---------------------------------------------------------------------------
// Rules

/// How specific a selector is: an id counts a hundred, a class and an attribute
/// ten each, and a tag one.
pub proof fn law_specificity_adds_up(sel: Selector)
    ensures
        sel.specificity() == (if sel.id is Some {
            100int
        } else {
            0
        }) + (if sel.class is Some {
            10int
        } else {
            0
        }) + (if sel.attr is Some {
            10int
        } else {
            0
        }) + (if sel.tag is Some {
            1int
        } else {
            0
        }),
{
}

/// A single selector makes a rule in each tier in which something is declared,
/// first the lower and then the higher, with just what is declared there; one
/// that is not supported makes none.
pub proof fn law_rules_declare_for_their_selector(list: Seq<char>, decls: DeclProps)
    requires
        laws::css::free_of(list, CharClass::Only(',')),
    ensures
        ({
            let made = css::rules_of_list(list, decls);
            let low = exists|p: Property| (#[trigger] p.of(decls.normal)) is Some;
            let high = exists|p: Property| (#[trigger] p.of(decls.important)) is Some;
            match css::selector(chars::trim(list)) {
                None => made.len() == 0,
                Some(sel) => {
                    &&& forall|k: int|
                        0 <= k < made.len() ==> (#[trigger] made[k]).selector == sel
                    &&& made.len() == (if low {
                        1int
                    } else {
                        0
                    }) + (if high {
                        1int
                    } else {
                        0
                    })
                    &&& low ==> made[0].props == decls.normal && made[0].priority
                        == sel.specificity()
                    &&& high ==> made.last().props == decls.important && made.last().priority
                        == IMPORTANT_PRIORITY + sel.specificity()
                },
            }
        }),
{
    chars::lemma_first(list, CharClass::Only(','), true, list.len() as int);
    assert(list.take(list.len() as int) =~= list);
    lemma_sets(decls.normal);
    lemma_sets(decls.important);
}

proof fn lemma_sets(props: StyleProps)
    ensures
        props.sets_nothing() <==> !(exists|p: Property| (#[trigger] p.of(props)) is Some),
{
    if exists|p: Property| (#[trigger] p.of(props)) is Some {
        let p = choose|p: Property| (#[trigger] p.of(props)) is Some;
        assert(p.of(props) is Some);
    } else {
        assert(Property::Bold.of(props) is None);
        assert(Property::Italic.of(props) is None);
        assert(Property::Strike.of(props) is None);
        assert(Property::Code.of(props) is None);
        assert(Property::Display.of(props) is None);
        assert(Property::Visibility.of(props) is None);
        assert(Property::Opacity.of(props) is None);
        assert(Property::FontSize.of(props) is None);
    }
}

/// Where a rule stands among those that select an element.
spec fn place_of(rules: Seq<RuleText>, f: cascade::Facts, k: int) -> int {
    cascade::matching(rules.take(k), f).len() as int
}

proof fn lemma_places(rules: Seq<RuleText>, f: cascade::Facts)
    ensures
        forall|k: int|
            0 <= k < rules.len() && (#[trigger] rules[k]).selector.selects(f) ==> {
                let i = place_of(rules, f, k);
                &&& 0 <= i < cascade::matching(rules, f).len()
                &&& cascade::matching(rules, f)[i] == (Entry {
                    priority: rules[k].priority,
                    props: rules[k].props,
                })
            },
        forall|i: int|
            0 <= i < cascade::matching(rules, f).len() ==> exists|k: int|
                0 <= k < rules.len() && (#[trigger] rules[k]).selector.selects(f) && place_of(
                    rules,
                    f,
                    k,
                ) == i && #[trigger] cascade::matching(rules, f)[i] == (Entry {
                    priority: rules[k].priority,
                    props: rules[k].props,
                }),
    decreases rules.len(),
{
    if rules.len() > 0 {
        let rest = rules.drop_last();
        let n = rest.len() as int;
        lemma_places(rest, f);
        let before = cascade::matching(rest, f);
        let all = cascade::matching(rules, f);
        assert(rules.take(n) =~= rest);
        assert forall|k: int| 0 <= k < rules.len() && (#[trigger] rules[k]).selector.selects(
            f,
        ) implies {
            let i = place_of(rules, f, k);
            &&& 0 <= i < all.len()
            &&& all[i] == (Entry { priority: rules[k].priority, props: rules[k].props })
        } by {
            if k < n {
                assert(rest[k] == rules[k]);
                assert(rest.take(k) =~= rules.take(k));
                assert(all[place_of(rules, f, k)] == before[place_of(rest, f, k)]);
            }
        }
        assert forall|i: int| 0 <= i < all.len() implies exists|k: int|
            0 <= k < rules.len() && (#[trigger] rules[k]).selector.selects(f) && place_of(
                rules,
                f,
                k,
            ) == i && #[trigger] all[i] == (Entry {
                priority: rules[k].priority,
                props: rules[k].props,
            }) by {
            if i < before.len() {
                assert(before[i] == all[i]);
                let k = choose|k: int|
                    0 <= k < rest.len() && (#[trigger] rest[k]).selector.selects(f) && place_of(
                        rest,
                        f,
                        k,
                    ) == i && before[i] == (Entry {
                        priority: rest[k].priority,
                        props: rest[k].props,
                    });
                assert(rules[k] == rest[k]);
                assert(rest.take(k) =~= rules.take(k));
            } else {
                assert(rules[n] == rules.last());
                assert(place_of(rules, f, n) == i);
            }
        }
    }
}

proof fn lemma_places_in_order(rules: Seq<RuleText>, f: cascade::Facts, j: int, k: int)
    requires
        0 <= j < k <= rules.len(),
    ensures
        place_of(rules, f, j) <= place_of(rules, f, k),
        rules[j].selector.selects(f) ==> place_of(rules, f, j) < place_of(rules, f, k),
    decreases k - j,
{
    assert(rules.take(k).drop_last() =~= rules.take(k - 1));
    assert(rules.take(k).last() == rules[k - 1]);
    if j < k - 1 {
        lemma_places_in_order(rules, f, j, k - 1);
    }
}

/// What the element's own style says of a property, in a tier.
pub open spec fn own_style(elem: Element, important: bool, p: Property) -> Option<bool> {
    match elem.value_of("style"@) {
        None => None,
        Some(text) => if important {
            p.of(css::declarations(text).important)
        } else {
            p.of(css::declarations(text).normal)
        },
    }
}

/// Whether a rule holds of an element and sets a property.
pub open spec fn rule_sets(rule: RuleText, elem: Element, p: Property) -> bool {
    rule.selector.selects(cascade::facts(elem)) && p.of(rule.props) is Some
}

/// Of the rules that hold of an element and set a property, the one of the
/// highest priority decides it, the last among equals; but the element's own
/// style stands above rules that are not important, and its own important
/// style above all.
pub proof fn law_the_highest_rule_decides(
    rules: Seq<RuleText>,
    elem: Element,
    k: int,
    p: Property,
)
    requires
        0 <= k < rules.len(),
        rule_sets(rules[k], elem, p),
        forall|j: int|
            0 <= j < rules.len() && j != k && rule_sets(#[trigger] rules[j], elem, p)
                ==> rules[j].priority < rules[k].priority || (rules[j].priority
                == rules[k].priority && j < k),
        own_style(elem, true, p) is None,
        own_style(elem, false, p) is None || rules[k].priority > INLINE_PRIORITY,
    ensures
        p.of(cascade::resolved(rules, elem)) == p.of(rules[k].props),
{
    let f = cascade::facts(elem);
    let matched = cascade::matching(rules, f);
    let entries = cascade::applying(rules, elem);
    lemma_places(rules, f);
    let i = place_of(rules, f, k);
    assert(rules[k].selector.selects(f));
    assert(matched[i].props == rules[k].props);
    assert(entries[i] == matched[i]);
    assert(laws::cascade::outranks(entries, i, p)) by {
        assert forall|j: int|
            0 <= j < entries.len() && j != i && p.is_set_by(
                #[trigger] entries[j],
            ) implies entries[j].priority < entries[i].priority || (entries[j].priority
            == entries[i].priority && j < i) by {
            if j < matched.len() {
                assert(entries[j] == matched[j]);
                let m = choose|m: int|
                    0 <= m < rules.len() && (#[trigger] rules[m]).selector.selects(f) && place_of(
                        rules,
                        f,
                        m,
                    ) == j && matched[j] == (Entry {
                        priority: rules[m].priority,
                        props: rules[m].props,
                    });
                assert(rule_sets(rules[m], elem, p));
                if m < k {
                    lemma_places_in_order(rules, f, m, k);
                } else if k < m {
                    lemma_places_in_order(rules, f, k, m);
                }
            }
        }
    }
    laws::cascade::law_highest_priority_wins(rules, elem, i, p);
}

/// The element's own important style decides whatever it sets.
pub proof fn law_own_important_style_decides(rules: Seq<RuleText>, elem: Element, p: Property)
    requires
        own_style(elem, true, p) is Some,
        forall|k: int|
            0 <= k < rules.len() ==> (#[trigger] rules[k]).priority < IMPORTANT_PRIORITY
                + INLINE_PRIORITY,
    ensures
        p.of(cascade::resolved(rules, elem)) == own_style(elem, true, p),
{
    let f = cascade::facts(elem);
    let matched = cascade::matching(rules, f);
    let entries = cascade::applying(rules, elem);
    lemma_places(rules, f);
    let i = entries.len() as int - 1;
    assert(laws::cascade::outranks(entries, i, p)) by {
        assert forall|j: int|
            0 <= j < entries.len() && j != i && p.is_set_by(
                #[trigger] entries[j],
            ) implies entries[j].priority < entries[i].priority || (entries[j].priority
            == entries[i].priority && j < i) by {
            if j < matched.len() {
                assert(entries[j] == matched[j]);
                let m = choose|m: int|
                    0 <= m < rules.len() && (#[trigger] rules[m]).selector.selects(f) && place_of(
                        rules,
                        f,
                        m,
                    ) == j && matched[j] == (Entry {
                        priority: rules[m].priority,
                        props: rules[m].props,
                    });
                assert(rules[m].priority < IMPORTANT_PRIORITY + INLINE_PRIORITY);
            }
        }
    }
    laws::cascade::law_highest_priority_wins(rules, elem, i, p);
}

/// A property that neither a rule that holds of the element nor its own style
/// sets is not set.
pub proof fn law_nothing_is_set_from_nowhere(rules: Seq<RuleText>, elem: Element, p: Property)
    requires
        forall|k: int| 0 <= k < rules.len() ==> !rule_sets(#[trigger] rules[k], elem, p),
        own_style(elem, true, p) is None,
        own_style(elem, false, p) is None,
    ensures
        p.of(cascade::resolved(rules, elem)) is None,
{
    let f = cascade::facts(elem);
    let matched = cascade::matching(rules, f);
    let entries = cascade::applying(rules, elem);
    lemma_places(rules, f);
    assert forall|j: int| 0 <= j < entries.len() implies !p.is_set_by(#[trigger] entries[j]) by {
        if j < matched.len() {
            assert(entries[j] == matched[j]);
            let m = choose|m: int|
                0 <= m < rules.len() && (#[trigger] rules[m]).selector.selects(f) && place_of(
                    rules,
                    f,
                    m,
                ) == j && matched[j] == (Entry {
                    priority: rules[m].priority,
                    props: rules[m].props,
                });
            assert(!rule_sets(rules[m], elem, p));
        }
    }
    laws::cascade::law_unset_stays_unset(rules, elem, p);
}

/// An element is hidden exactly if it is not displayed, not visible or wholly
/// transparent by what applies to it, or has one of the two attributes that
/// hide.
pub proof fn law_hidden_elements(rules: Seq<RuleText>, elem: Element)
    ensures
        ({
            let p = cascade::resolved(rules, elem);
            p.hidden <==> p.display_none == Some(true) || p.visibility_hidden == Some(true)
                || p.opacity_zero == Some(true) || elem.value_of("hidden"@) is Some || (
            elem.value_of("aria-hidden"@) matches Some(v) && chars::lower(chars::trim(v))
                == "true"@)
        }),
{
    lemma_low();
}

// ---------------------------------------------------------------------------
// Comments

/// A comment is as if it were not there, and one that is never closed takes all
/// that follows with it.
pub proof fn law_comments_are_left_out(a: Seq<char>, c: Seq<char>, b: Seq<char>)
    requires
        laws::css::uncommented(a),
        c.len() > 0 ==> c[0] != '/',
        forall|j: int|
            0 <= j < c.len() ==> !(#[trigger] c[j] == '*' && j + 1 < c.len() && c[j + 1] == '/'),
    ensures
        css::without_comments(a + seq!['/', '*'] + c + seq!['*', '/'] + b) == a
            + css::without_comments(b),
        css::without_comments(a + seq!['/', '*'] + c) == a,
        css::without_comments(a) == a,
{
    let opened = seq!['/', '*'] + c + seq!['*', '/'] + b;
    let s = a + seq!['/', '*'] + c + seq!['*', '/'] + b;
    assert(s =~= a + opened);
    lemma_comment_starts(a, opened);
    assert(s.skip(a.len() as int) =~= opened);
    assert(s.take(a.len() as int) =~= a);
    let n = c.len() as int + 2;
    assert forall|j: int| 0 <= j < n implies !(#[trigger] opened[j] == '*' && j + 1 < opened.len()
        && opened[j + 1] == '/') by {
        if j >= 2 {
            assert(opened[j] == c[j - 2]);
            if j + 1 < n {
                assert(opened[j + 1] == c[j - 1]);
            } else {
                assert(opened[j + 1] == '*');
            }
        } else if j == 1 {
            if c.len() > 0 {
                assert(opened[2] == c[0]);
            } else {
                assert(opened[2] == '*');
            }
        }
    }
    assert(opened[n] == '*' && opened[n + 1] == '/');
    css::lemma_first_pair(opened, '*', '/', n);
    assert(opened.skip(n + 2) =~= b);

    let unclosed = seq!['/', '*'] + c;
    let u = a + seq!['/', '*'] + c;
    assert(u =~= a + unclosed);
    lemma_comment_starts(a, unclosed);
    assert(u.skip(a.len() as int) =~= unclosed);
    assert(u.take(a.len() as int) =~= a);
    assert forall|j: int| 0 <= j < unclosed.len() implies !(#[trigger] unclosed[j] == '*' && j + 1
        < unclosed.len() && unclosed[j + 1] == '/') by {
        if j >= 2 {
            assert(unclosed[j] == c[j - 2]);
            if j + 1 < unclosed.len() {
                assert(unclosed[j + 1] == c[j - 1]);
            }
        } else if j == 1 && c.len() > 0 {
            assert(unclosed[2] == c[0]);
        }
    }
    css::lemma_first_pair(unclosed, '*', '/', unclosed.len() as int);
    css::lemma_first_pair(a, '/', '*', a.len() as int);
}

proof fn lemma_comment_starts(a: Seq<char>, opened: Seq<char>)
    requires
        laws::css::uncommented(a),
        opened.len() >= 2,
        opened[0] == '/',
        opened[1] == '*',
    ensures
        css::first_pair(a + opened, '/', '*') == a.len(),
{
    let s = a + opened;
    assert forall|j: int| 0 <= j < a.len() implies !(#[trigger] s[j] == '/' && j + 1 < s.len()
        && s[j + 1] == '*') by {
        assert(s[j] == a[j]);
        if j + 1 < a.len() {
            assert(s[j + 1] == a[j + 1]);
        } else {
            assert(s[j + 1] == opened[0]);
        }
    }
    assert(s[a.len() as int] == opened[0]);
    assert(s[a.len() as int + 1] == opened[1]);
    css::lemma_first_pair(s, '/', '*', a.len() as int);
}

} // verus!
