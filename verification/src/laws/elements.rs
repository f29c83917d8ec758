//! What each element comes to: which block or inline it makes, what the hooks
//! are asked for it, and where their answers go.

use crate::cascade;
use crate::css::RuleText;
use crate::hooks::Call;
use crate::inlines;
use crate::laws;
use crate::lists;
use crate::lists::{KeptView, ListStyle};
use crate::model::{
    BlockView, ImageSource, InlineView, ItemView, MarkerKind, TableKind, TableView,
};
use crate::number;
use crate::rows;
use crate::rows::Part;
use crate::tags;
use crate::tags::{ElemKind, Inherited};
use crate::walk;
use crate::walk::{Cells, Run, Stopped};
use crate::xml;
use crate::xml::{Attr, Element, Node};
use vstd::prelude::*;

verus! {

// ---------------------------------------------------------------------------
// Attributes and children

/// The value of an attribute is that of the first of its name, whatever
/// namespace it is in.
pub proof fn law_the_first_attribute_counts(attrs: Seq<Attr>, name: Seq<char>, k: int)
    requires
        0 <= k <= attrs.len(),
        forall|j: int| 0 <= j < k ==> (#[trigger] attrs[j]).local@ != name,
        k < attrs.len() ==> attrs[k].local@ == name,
    ensures
        xml::value_any(attrs, name) == if k < attrs.len() {
            Some(attrs[k].value@)
        } else {
            None
        },
    decreases attrs.len(),
{
    if k > 0 {
        assert(attrs[0].local@ != name);
        let rest = attrs.skip(1);
        assert forall|j: int| 0 <= j < k - 1 implies (#[trigger] rest[j]).local@ != name by {
            assert(rest[j] == attrs[j + 1]);
        }
        law_the_first_attribute_counts(rest, name, k - 1);
    }
}

/// The same within a namespace.
pub proof fn law_the_first_attribute_in_a_namespace_counts(
    attrs: Seq<Attr>,
    ns: Seq<char>,
    name: Seq<char>,
    k: int,
)
    requires
        0 <= k <= attrs.len(),
        forall|j: int|
            0 <= j < k ==> (#[trigger] attrs[j]).local@ != name || attrs[j].ns@ != ns,
        k < attrs.len() ==> attrs[k].local@ == name && attrs[k].ns@ == ns,
    ensures
        xml::value_in(attrs, ns, name) == if k < attrs.len() {
            Some(attrs[k].value@)
        } else {
            None
        },
    decreases attrs.len(),
{
    if k > 0 {
        assert(attrs[0].local@ != name || attrs[0].ns@ != ns);
        let rest = attrs.skip(1);
        assert forall|j: int| 0 <= j < k - 1 implies (#[trigger] rest[j]).local@ != name
            || rest[j].ns@ != ns by {
            assert(rest[j] == attrs[j + 1]);
        }
        law_the_first_attribute_in_a_namespace_counts(rest, ns, name, k - 1);
    }
}

/// The child of a name is the first child element of it.
pub proof fn law_the_first_child_counts(elem: Element, ns: Seq<char>, name: Seq<char>, k: int)
    requires
        0 <= k <= elem.children@.len(),
        forall|j: int|
            0 <= j < k ==> (#[trigger] elem.children@[j] matches Node::Elem(e) ==> e.local@ != name
                || e.ns@ != ns),
        k < elem.children@.len() ==> (elem.children@[k] matches Node::Elem(e) && e.local@ == name
            && e.ns@ == ns),
    ensures
        elem.child(ns, name) == if k < elem.children@.len() {
            Some(elem.children@[k]->Elem_0)
        } else {
            None
        },
{
    lemma_child_from(elem.children@, ns, name, 0, k);
}

proof fn lemma_child_from(nodes: Seq<Node>, ns: Seq<char>, name: Seq<char>, i: int, k: int)
    requires
        0 <= i <= k <= nodes.len(),
        forall|j: int|
            0 <= j < k ==> (#[trigger] nodes[j] matches Node::Elem(e) ==> e.local@ != name || e.ns@
                != ns),
        k < nodes.len() ==> (nodes[k] matches Node::Elem(e) && e.local@ == name && e.ns@ == ns),
    ensures
        xml::child_from(nodes, ns, name, i) == if k < nodes.len() {
            Some(k)
        } else {
            None
        },
    decreases k - i,
{
    if i < k {
        assert(!nodes[i].is_named(ns, name));
        lemma_child_from(nodes, ns, name, i + 1, k);
    }
}

/// A caption is the first child element that is called so.
pub proof fn law_the_first_caption_counts(table: Element, name: Seq<char>, k: int)
    requires
        0 <= k <= table.children@.len(),
        forall|j: int|
            0 <= j < k ==> (#[trigger] table.children@[j] matches Node::Elem(e) ==> e.local@
                != name),
        k < table.children@.len() ==> (table.children@[k] matches Node::Elem(e) && e.local@
            == name),
    ensures
        rows::named_child(table, name) == if k < table.children@.len() {
            Some(table.children@[k]->Elem_0)
        } else {
            None
        },
{
    lemma_first_named(table.children@, name, 0, k);
}

proof fn lemma_first_named(nodes: Seq<Node>, name: Seq<char>, i: int, k: int)
    requires
        0 <= i <= k <= nodes.len(),
        forall|j: int|
            0 <= j < k ==> (#[trigger] nodes[j] matches Node::Elem(e) ==> e.local@ != name),
        k < nodes.len() ==> (nodes[k] matches Node::Elem(e) && e.local@ == name),
    ensures
        rows::first_named(nodes, name, i) == if k < nodes.len() {
            Some(k)
        } else {
            None
        },
    decreases k - i,
{
    if i < k {
        assert(!(nodes[i] matches Node::Elem(e) && e.local@ == name));
        lemma_first_named(nodes, name, i + 1, k);
    }
}

// ---------------------------------------------------------------------------
// Blocks

/// Whether an element is shown.
pub open spec fn is_shown(rules: Seq<RuleText>, elem: Element) -> bool {
    !cascade::resolved(rules, elem).hidden
}

/// What an element's content inherits.
pub open spec fn own(rules: Seq<RuleText>, elem: Element, inh: Inherited) -> Inherited {
    inh.within(elem, cascade::resolved(rules, elem))
}

/// A rule ends the line and stands for itself; a line break goes into the line;
/// what is never shown leaves no trace.
pub proof fn law_elements_without_content(
    script: Seq<Call>,
    rules: Seq<RuleText>,
    elem: Element,
    inh: Inherited,
    r: Run,
)
    requires
        is_shown(rules, elem),
    ensures
        elem.local@ == "hr"@ ==> walk::walk_elem(script, rules, elem, inh, r) == Ok::<Run, Stopped>(
            r.flushed().block(BlockView::Rule),
        ),
        elem.local@ == "br"@ && elem.value_of("id"@) is None ==> walk::walk_elem(
            script,
            rules,
            elem,
            inh,
            r,
        ) == Ok::<Run, Stopped>(r.inline(InlineView::LineBreak)),
        laws::tags::never_shown(elem.local@) ==> walk::walk_elem(script, rules, elem, inh, r)
            == Ok::<Run, Stopped>(r),
{
    laws::tags::law_elements_are_walked_by_name(elem.local@);
    reveal_strlit("br");
    reveal_strlit("a");
    assert("br"@.len() == 2 && "a"@.len() == 1);
}

/// A line that ends becomes a paragraph if it is worth keeping; the next one
/// starts empty, at a boundary.
pub proof fn law_lines_end_as_paragraphs(r: Run)
    ensures
        ({
            let p = r.flushed();
            &&& p.inlines.len() == 0
            &&& p.start
            &&& p.calls == r.calls && p.dropped == r.dropped
            &&& inlines::worth_keeping(r.inlines) ==> p.blocks == r.blocks.push(
                BlockView::Paragraph(r.inlines),
            )
            &&& !inlines::worth_keeping(r.inlines) ==> p.blocks == r.blocks
        }),
{
}

/// A paragraph element ends the line before it and becomes a paragraph of all
/// it holds, its anchors first.
pub proof fn law_paragraphs(
    script: Seq<Call>,
    rules: Seq<RuleText>,
    elem: Element,
    inh: Inherited,
    r: Run,
    inner: Run,
)
    requires
        elem.local@ == "p"@,
        is_shown(rules, elem),
        ({
            let opened = walk::anchored(script, elem, r.flushed());
            walk::walk_inside(script, rules, elem, own(rules, elem, inh), true, opened) == Ok::<
                Run,
                Stopped,
            >(inner)
        }),
    ensures
        ({
            let opened = walk::anchored(script, elem, r.flushed());
            let line = opened.inlines + inlines::flattened(inner.blocks);
            walk::walk_elem(script, rules, elem, inh, r) matches Ok(p) && {
                &&& p.inlines.len() == 0
                &&& p.start
                &&& p.calls == inner.calls
                &&& inlines::worth_keeping(line) ==> p.blocks == r.flushed().blocks.push(
                    BlockView::Paragraph(line),
                )
                &&& !inlines::worth_keeping(line) ==> p.blocks == r.flushed().blocks
            }
        }),
{
    laws::tags::law_elements_are_walked_by_name(elem.local@);
}

/// A heading element that shows something becomes a heading of its level. Its
/// anchor is what the hooks make of its id, and there is none without one.
pub proof fn law_headings(
    script: Seq<Call>,
    rules: Seq<RuleText>,
    elem: Element,
    level: u8,
    inh: Inherited,
    r: Run,
    inner: Run,
)
    requires
        tags::kind_of(elem.local@) == ElemKind::Heading(level),
        is_shown(rules, elem),
        walk::walk_inside(script, rules, elem, own(rules, elem, inh), true, r.flushed()) == Ok::<
            Run,
            Stopped,
        >(inner),
    ensures
        ({
            let content = inlines::rebased(
                inlines::flattened(inner.blocks),
                own(rules, elem, inh).delta.resolved(),
            );
            walk::walk_elem(script, rules, elem, inh, r) matches Ok(p) && {
                &&& p.inlines.len() == 0
                &&& p.start
                &&& elem.value_of("id"@) matches Some(id) ==> {
                    &&& p.calls.len() == inner.calls.len() + 1
                    &&& p.calls.drop_last() == inner.calls
                    &&& p.calls.last() matches Call::Anchor { raw, id: anchor } && raw == id && (
                    !inlines::all_empty(content) ==> p.blocks == r.flushed().blocks.push(
                        BlockView::Heading { level, anchor: Some(anchor@), content },
                    )) && (inlines::all_empty(content) ==> p.blocks == r.flushed().blocks.push(
                        BlockView::Paragraph(
                            seq![InlineView::Anchor(anchor@)] + walk::anchors_in(content),
                        ),
                    ))
                }
                &&& elem.value_of("id"@) is None ==> {
                    &&& p.calls == inner.calls
                    &&& !inlines::all_empty(content) ==> p.blocks == r.flushed().blocks.push(
                        BlockView::Heading { level, anchor: None, content },
                    )
                    &&& inlines::all_empty(content) && !inlines::has_anchor(content) ==> p.blocks
                        == r.flushed().blocks
                    &&& inlines::all_empty(content) && inlines::has_anchor(content) ==> p.blocks
                        == r.flushed().blocks.push(
                        BlockView::Paragraph(walk::anchors_in(content)),
                    )
                }
            }
        }),
{
    let after = r.flushed().after(inner);
    let content = inlines::rebased(
        inlines::flattened(inner.blocks),
        own(rules, elem, inh).delta.resolved(),
    );
    if let Some(id) = elem.value_of("id"@) {
        let asked = walk::asked_anchor(script, id, after);
        assert(asked.calls.drop_last() =~= inner.calls);
    } else if !inlines::has_anchor(content) {
        lemma_no_anchors(content);
    } else {
        lemma_some_anchors(content);
    }
}

proof fn lemma_some_anchors(s: Seq<InlineView>)
    requires
        inlines::has_anchor(s),
    ensures
        walk::anchors_in(s).len() > 0,
    decreases s.len(),
{
    reveal_with_fuel(Seq::filter, 2);
    let rest = s.drop_last();
    if !(s.last() is Anchor) {
        let i = choose|i: int| 0 <= i < s.len() && (#[trigger] s[i]) is Anchor;
        assert(rest[i] == s[i]);
        lemma_some_anchors(rest);
    }
}

proof fn lemma_no_anchors(s: Seq<InlineView>)
    requires
        !inlines::has_anchor(s),
    ensures
        walk::anchors_in(s).len() == 0,
    decreases s.len(),
{
    reveal_with_fuel(Seq::filter, 2);
    if s.len() > 0 {
        let rest = s.drop_last();
        assert(!inlines::has_anchor(rest)) by {
            if inlines::has_anchor(rest) {
                let i = choose|i: int| 0 <= i < rest.len() && (#[trigger] rest[i]) is Anchor;
                assert(s[i] is Anchor);
            }
        }
        lemma_no_anchors(rest);
        assert(!(s[s.len() - 1] is Anchor));
    }
}

/// The anchors among inlines are all of them, in order, and nothing else.
pub proof fn law_anchors_are_kept(s: Seq<InlineView>, i: InlineView)
    ensures
        walk::anchors_in(Seq::empty()).len() == 0,
        i is Anchor ==> walk::anchors_in(s.push(i)) == walk::anchors_in(s).push(i),
        !(i is Anchor) ==> walk::anchors_in(s.push(i)) == walk::anchors_in(s),
{
    reveal_with_fuel(Seq::filter, 2);
    assert(s.push(i).drop_last() =~= s);
}

/// A quotation becomes one of all the blocks it holds; an empty one is left
/// out.
pub proof fn law_quotations(
    script: Seq<Call>,
    rules: Seq<RuleText>,
    elem: Element,
    inh: Inherited,
    r: Run,
    inner: Run,
)
    requires
        elem.local@ == "blockquote"@,
        is_shown(rules, elem),
        walk::walk_inside(script, rules, elem, own(rules, elem, inh), true, r.flushed()) == Ok::<
            Run,
            Stopped,
        >(inner),
    ensures
        walk::walk_elem(script, rules, elem, inh, r) matches Ok(p) && {
            &&& p.calls == inner.calls
            &&& p.inlines.len() == 0
            &&& p.start
            &&& inner.blocks.len() > 0 ==> p.blocks == r.flushed().blocks.push(
                BlockView::BlockQuote(inner.blocks),
            )
            &&& inner.blocks.len() == 0 ==> p.blocks == r.flushed().blocks
        },
{
    laws::tags::law_elements_are_walked_by_name(elem.local@);
}

/// Preformatted text becomes a code block of all text in it that is not hidden,
/// white space included, and no hook is asked; blank text is left out.
pub proof fn law_preformatted_text(
    script: Seq<Call>,
    rules: Seq<RuleText>,
    elem: Element,
    inh: Inherited,
    r: Run,
)
    requires
        elem.local@ == "pre"@,
        is_shown(rules, elem),
    ensures
        ({
            let text = walk::visible_text(rules, elem, elem.children@.len() as int);
            walk::walk_elem(script, rules, elem, inh, r) matches Ok(p) && {
                &&& p.calls == r.calls
                &&& p.inlines.len() == 0
                &&& p.start
                &&& laws::lines::has_ink(text) ==> p.blocks == r.flushed().blocks.push(
                    BlockView::CodeBlock { lang: None, text },
                )
                &&& !laws::lines::has_ink(text) ==> p.blocks == r.flushed().blocks
            }
        }),
{
    laws::tags::law_elements_are_walked_by_name(elem.local@);
    let text = walk::visible_text(rules, elem, elem.children@.len() as int);
    if laws::lines::has_ink(text) {
        let i = choose|i: int|
            0 <= i < text.len() && !crate::chars::white_space(#[trigger] text[i]);
        assert(!crate::chars::white_space(text[i]));
    }
}

/// The text of an element as it stands grows child by child: by a text as it
/// is, by an element's own text, and by nothing where the element is hidden.
pub proof fn law_visible_text(rules: Seq<RuleText>, elem: Element, n: int)
    requires
        0 < n <= elem.children@.len(),
    ensures
        walk::visible_text(rules, elem, 0).len() == 0,
        !walk::hides_text(rules, elem, 0),
        walk::hides_text(rules, elem, n) == (walk::hides_text(rules, elem, n - 1) || (
        elem.children@[n - 1] matches Node::Elem(e) && (cascade::resolved(rules, e).hidden
            || walk::hides_text(rules, e, e.children@.len() as int)))),
        match elem.children@[n - 1] {
            Node::Text(t) => walk::visible_text(rules, elem, n) == walk::visible_text(
                rules,
                elem,
                n - 1,
            ) + t@,
            Node::Elem(e) => if cascade::resolved(rules, e).hidden {
                walk::visible_text(rules, elem, n) == walk::visible_text(rules, elem, n - 1)
            } else {
                walk::visible_text(rules, elem, n) == walk::visible_text(rules, elem, n - 1)
                    + walk::visible_text(rules, e, e.children@.len() as int)
            },
        },
{
    if let Node::Elem(e) = elem.children@[n - 1] {
        if cascade::resolved(rules, e).hidden {
            assert(walk::visible_text(rules, elem, n - 1) + Seq::<char>::empty()
                =~= walk::visible_text(rules, elem, n - 1));
        }
    }
}

// ---------------------------------------------------------------------------
// Inlines

/// A formula is asked for as TeX. An empty answer leaves no trace; otherwise
/// the hooks say whether it stands on its own, as a block behind the line so
/// far, or in the line.
pub proof fn law_formulas(
    script: Seq<Call>,
    rules: Seq<RuleText>,
    elem: Element,
    inh: Inherited,
    r: Run,
)
    requires
        elem.local@ == "math"@,
        is_shown(rules, elem),
    ensures
        walk::walk_elem(script, rules, elem, inh, r) matches Ok(p) && {
            let n = r.calls.len() as int;
            &&& p.calls.len() > n
            &&& p.calls.take(n) == r.calls
            &&& p.calls[n] matches Call::Tex { math, tex } && math == elem && {
                &&& tex@.len() == 0 ==> p.calls.len() == n + 1 && p.blocks == r.blocks && p.inlines
                    == r.inlines
                &&& tex@.len() > 0 ==> p.calls.len() == n + 2 && (
                p.calls[n + 1] matches Call::Display { math, display } && math == elem && (display
                    ==> p.blocks == r.flushed().blocks.push(BlockView::Math(tex@))
                    && p.inlines.len() == 0 && p.start) && (!display ==> p.blocks == r.blocks
                    && p.start == r.start && p.inlines == r.inlines.push(InlineView::Math(tex@))))
            }
        },
{
    laws::tags::law_elements_are_walked_by_name(elem.local@);
    let p = walk::walk_elem(script, rules, elem, inh, r)->Ok_0;
    assert(p.calls.take(r.calls.len() as int) =~= r.calls);
}

/// An image is asked for by its `src`, or its `href` where there is none, after
/// its alternative text has been cleaned. It goes into the line with that text
/// and the answer; one without an answer stays only for its text.
pub proof fn law_images(
    script: Seq<Call>,
    rules: Seq<RuleText>,
    elem: Element,
    inh: Inherited,
    r: Run,
)
    requires
        elem.local@ == "img"@ || elem.local@ == "image"@,
        is_shown(rules, elem),
        elem.value_of("id"@) is None,
    ensures
        ({
            let n = r.calls.len() as int;
            let alt_raw = match elem.value_of("alt"@) {
                Some(alt) => alt,
                None => Seq::empty(),
            };
            let src_raw = match elem.value_of("src"@) {
                Some(src) => src,
                None => match elem.value_of("href"@) {
                    Some(href) => href,
                    None => Seq::empty(),
                },
            };
            match walk::walk_elem(script, rules, elem, inh, r) {
                Ok(p) => {
                    &&& p.calls.len() == n + 2
                    &&& p.calls.take(n) == r.calls
                    &&& p.blocks == r.blocks
                    &&& p.start == r.start
                    &&& p.calls[n] matches Call::Clean { raw, text } && raw == alt_raw && (
                    p.calls[n + 1] matches Call::Image { src, source: Ok(source) } && src == src_raw
                        && match source {
                        Some(s) => p.inlines == r.inlines.push(
                            InlineView::Image { alt: text@, source: s },
                        ),
                        None => if laws::lines::has_ink(text@) {
                            p.inlines == r.inlines.push(
                                InlineView::Image { alt: text@, source: ImageSource::Unavailable },
                            )
                        } else {
                            p.inlines == r.inlines
                        },
                    })
                },
                Err(s) => {
                    &&& s.calls.len() == n + 2
                    &&& s.calls[n + 1] matches Call::Image { src, source: Err(e) } && src == src_raw
                        && e == s.error
                },
            }
        }),
{
    laws::tags::law_elements_are_walked_by_name(elem.local@);
    reveal_strlit("img");
    reveal_strlit("image");
    reveal_strlit("a");
    assert("img"@.len() == 3 && "image"@.len() == 5 && "a"@.len() == 1);
    let alt = walk::clean_reply(script, r)@;
    if laws::lines::has_ink(alt) {
        let i = choose|i: int| 0 <= i < alt.len() && !crate::chars::white_space(#[trigger] alt[i]);
        assert(!crate::chars::white_space(alt[i]));
    }
    if let Ok(p) = walk::walk_elem(script, rules, elem, inh, r) {
        assert(p.calls.take(r.calls.len() as int) =~= r.calls);
    }
}

/// An element's id is an anchor in the line, as the hooks make it of the id; so
/// is the name of a link. Neither is, where it is empty or absent.
pub proof fn law_anchors(script: Seq<Call>, elem: Element, r: Run)
    ensures
        ({
            let p = walk::anchored(script, elem, r);
            let n = r.calls.len() as int;
            let id = match elem.value_of("id"@) {
                Some(id) => if id.len() > 0 {
                    1int
                } else {
                    0
                },
                None => 0,
            };
            let name = match elem.value_of("name"@) {
                Some(name) => if name.len() > 0 && elem.local@ == "a"@ {
                    1int
                } else {
                    0
                },
                None => 0,
            };
            &&& p.blocks == r.blocks
            &&& p.start == r.start
            &&& p.calls.len() == n + id + name
            &&& p.inlines.len() == r.inlines.len() + id + name
            &&& p.calls.take(n) == r.calls
            &&& p.inlines.take(r.inlines.len() as int) == r.inlines
            &&& id == 1 ==> (p.calls[n] matches Call::Anchor { raw, id: made } && raw
                == elem.value_of("id"@)->0 && p.inlines[r.inlines.len() as int]
                == InlineView::Anchor(made@))
            &&& name == 1 ==> (p.calls.last() matches Call::Anchor { raw, id: made } && raw
                == elem.value_of("name"@)->0 && p.inlines.last() == InlineView::Anchor(made@))
        }),
{
    let p = walk::anchored(script, elem, r);
    assert(p.calls.take(r.calls.len() as int) =~= r.calls);
    assert(p.inlines.take(r.inlines.len() as int) =~= r.inlines);
}

/// A link asks where its `href` leads. Where that is somewhere, its content
/// becomes a link there; where it is nowhere, and where there is no `href`, the
/// content goes into the line as it is.
pub proof fn law_links(
    script: Seq<Call>,
    rules: Seq<RuleText>,
    elem: Element,
    inh: Inherited,
    r: Run,
    inner: Run,
)
    requires
        elem.local@ == "a"@,
        is_shown(rules, elem),
        ({
            let a = walk::anchored(script, elem, r);
            let asked = match elem.value_of("href"@) {
                Some(href) => a.calling(Call::Link { href, target: walk::link_reply(script, a) }),
                None => a,
            };
            walk::walk_inside(
                script,
                rules,
                elem,
                own(rules, elem, inh),
                inlines::at_boundary(a.inlines, a.start),
                (Run { dropped: false, ..asked }),
            ) == Ok::<Run, Stopped>(inner)
        }),
        !inner.dropped,
    ensures
        ({
            let a = walk::anchored(script, elem, r);
            let label = inlines::flattened(inner.blocks);
            walk::walk_elem(script, rules, elem, inh, r) matches Ok(p) && {
                &&& p.blocks == r.blocks
                &&& p.start == r.start
                &&& p.calls == inner.calls
                &&& elem.value_of("href"@) is Some ==> match walk::link_reply(script, a) {
                    Some(target) => p.inlines == a.inlines.push(
                        InlineView::Link { content: label, target },
                    ),
                    None => p.inlines == a.inlines + label,
                }
                &&& elem.value_of("href"@) is None ==> p.inlines == a.inlines + label
            }
        }),
{
    laws::tags::law_elements_are_walked_by_name(elem.local@);
}

/// An element that stands for nothing of its own is as if its content stood in
/// its place, with its anchor before it; one that groups blocks ends the line
/// before and behind them.
pub proof fn law_transparent_elements(
    script: Seq<Call>,
    rules: Seq<RuleText>,
    elem: Element,
    inh: Inherited,
    r: Run,
)
    requires
        is_shown(rules, elem),
        tags::kind_of(elem.local@) is Inline || tags::kind_of(elem.local@) is Container,
    ensures
        ({
            let a = walk::anchored(script, elem, r);
            let mine = own(rules, elem, inh);
            let out = walk::walk_elem(script, rules, elem, inh, r);
            if tags::kind_of(elem.local@) is Container && tags::blocks_among(elem) {
                match walk::walk_children(script, rules, elem, mine, a.flushed()) {
                    Ok(p) => out == Ok::<Run, Stopped>(p.flushed()),
                    Err(s) => out == Err::<Run, Stopped>(s),
                }
            } else {
                out == walk::walk_children(script, rules, elem, mine, a)
            }
        }),
{
}

/// Children are walked one after the other, each from where the one before it
/// has left off, and an error ends the walk.
pub proof fn law_children_are_walked_in_order(
    script: Seq<Call>,
    rules: Seq<RuleText>,
    elem: Element,
    n: int,
    inh: Inherited,
    r: Run,
)
    requires
        0 < n <= elem.children@.len(),
    ensures
        walk::walk_nodes(script, rules, elem, 0, inh, r) == Ok::<Run, Stopped>(r),
        match walk::walk_nodes(script, rules, elem, n - 1, inh, r) {
            Err(s) => walk::walk_nodes(script, rules, elem, n, inh, r) == Err::<Run, Stopped>(s),
            Ok(p) => match elem.children@[n - 1] {
                Node::Elem(e) => walk::walk_nodes(script, rules, elem, n, inh, r)
                    == walk::walk_elem(script, rules, e, inh, p),
                Node::Text(t) => walk::walk_nodes(script, rules, elem, n, inh, r) == Ok::<
                    Run,
                    Stopped,
                >(walk::texted(script, t@, inh, p)),
            },
        },
{
}

/// Text is cleaned and then goes into the line in the styling that it inherits,
/// unless nothing of it is left; under a font size of zero it is dropped, and
/// nothing is asked.
pub proof fn law_text(script: Seq<Call>, text: Seq<char>, inh: Inherited, r: Run)
    ensures
        ({
            let p = walk::texted(script, text, inh, r);
            let n = r.calls.len() as int;
            &&& p.blocks == r.blocks
            &&& p.start == r.start
            &&& inh.font_size_zero ==> p.inlines == r.inlines && p.calls == r.calls && p.dropped
            &&& !inh.font_size_zero ==> {
                &&& p.dropped == r.dropped
                &&& p.calls.len() == n + 1
                &&& p.calls.take(n) == r.calls
                &&& p.calls[n] matches Call::Clean { raw, text: clean } && raw == text && (
                !laws::lines::has_ink(clean@) ==> p.inlines == if clean@.len() == 0
                    || inlines::at_boundary(r.inlines, r.start) {
                    r.inlines
                } else {
                    r.inlines.push(
                        InlineView::Text { text: seq![' '], style: inh.delta.resolved() },
                    )
                }) && (laws::lines::has_ink(clean@) ==> p.inlines.len() == r.inlines.len() + 1
                    && p.inlines.take(r.inlines.len() as int) == r.inlines && (
                p.inlines.last() matches InlineView::Text { text: shown, style } && style
                    == inh.delta.resolved() && crate::chars::words(shown) == crate::chars::words(
                    clean@,
                ) && shown.len() > 0 && crate::chars::white_space(shown[0]) == (
                crate::chars::white_space(clean@[0]) && !inlines::at_boundary(r.inlines, r.start))
                    && crate::chars::white_space(shown.last()) == crate::chars::white_space(
                    clean@.last(),
                )))
            }
        }),
{
    let p = walk::texted(script, text, inh, r);
    if !inh.font_size_zero {
        assert(p.calls.take(r.calls.len() as int) =~= r.calls);
        let clean = walk::clean_reply(script, r)@;
        let collapsed = crate::chars::collapse(clean);
        laws::words::law_collapsing_keeps_the_words(clean);
        let k = crate::chars::first(
            collapsed,
            crate::chars::CharClass::Only(' '),
            false,
        ) as int;
        crate::chars::lemma_first_is(collapsed, crate::chars::CharClass::Only(' '), false);
        let lead = collapsed.take(k);
        let rest = collapsed.skip(k);
        assert(laws::words::blank(lead)) by {
            assert forall|i: int| 0 <= i < lead.len() implies crate::chars::white_space(
                #[trigger] lead[i],
            ) by {
                assert(lead[i] == collapsed[i]);
                assert(crate::chars::CharClass::Only(' ').has(collapsed[i]));
            }
        }
        lemma_lead(lead, rest);
        assert(lead + rest =~= collapsed);
        if !laws::lines::has_ink(clean) && clean.len() > 0 {
            let none = Seq::<char>::empty();
            assert forall|i: int| 0 <= i < clean.len() implies crate::chars::white_space(
                #[trigger] clean[i],
            ) by {}
            laws::words::law_one_space_between(none, clean, none);
            assert(none + clean + none =~= clean);
            assert(crate::chars::collapse(none) =~= none);
            assert(collapsed =~= seq![' ']);
            crate::chars::lemma_first(
                collapsed,
                crate::chars::CharClass::Only(' '),
                false,
                1,
            );
        }
        if laws::lines::has_ink(clean) {
            lemma_inked(clean);
            if rest.len() == 0 {
                laws::words::law_solid_text_is_one_word(rest);
            }
            if collapsed.len() == 0 {
                laws::words::law_solid_text_is_one_word(collapsed);
            }
            assert(p.inlines.take(r.inlines.len() as int) =~= r.inlines);
            laws::words::law_collapsing_keeps_the_ends(clean);
            laws::text::law_collapsing_leaves_single_spaces(clean);
            assert(rest.last() == collapsed.last());
            assert(rest[0] == collapsed[k]);
        }
    }
}

proof fn lemma_lead(lead: Seq<char>, rest: Seq<char>)
    requires
        laws::words::blank(lead),
    ensures
        crate::chars::words(lead + rest) == crate::chars::words(rest),
{
    if lead.len() == 0 {
        assert(lead + rest =~= rest);
    } else {
        let w = lead.last();
        let before = lead.drop_last();
        assert(crate::chars::white_space(lead[lead.len() - 1]));
        assert(laws::words::blank(before)) by {
            assert forall|i: int| 0 <= i < before.len() implies crate::chars::white_space(
                #[trigger] before[i],
            ) by {
                assert(before[i] == lead[i]);
            }
        }
        laws::words::law_white_space_separates_words(before, w, rest);
        laws::words::law_solid_text_is_one_word(before);
        assert(before.push(w) + rest =~= lead + rest);
        assert(Seq::<Seq<char>>::empty() + crate::chars::words(rest) =~= crate::chars::words(
            rest,
        ));
    }
}

/// Text with ink has a word.
proof fn lemma_inked(s: Seq<char>)
    requires
        laws::lines::has_ink(s),
    ensures
        crate::chars::words(s).len() > 0,
    decreases s.len(),
{
    let rest = s.drop_last();
    let c = s.last();
    assert(s =~= rest.push(c));
    laws::words::law_words_grow_at_the_end(rest, c);
    if crate::chars::white_space(c) {
        let i = choose|i: int| 0 <= i < s.len() && !crate::chars::white_space(#[trigger] s[i]);
        assert(rest[i] == s[i]);
        lemma_inked(rest);
    }
}

// ---------------------------------------------------------------------------
// Lists and tables

/// The marker of an ordered list goes by its `type`, letter for letter.
pub proof fn law_markers(elem: Element)
    ensures
        lists::marker_of(elem) == match elem.value_of("type"@) {
            None => MarkerKind::Decimal,
            Some(t) => if t == seq!['a'] {
                MarkerKind::LowerAlpha
            } else if t == seq!['A'] {
                MarkerKind::UpperAlpha
            } else if t == seq!['i'] {
                MarkerKind::LowerRoman
            } else if t == seq!['I'] {
                MarkerKind::UpperRoman
            } else {
                MarkerKind::Decimal
            },
        },
{
    reveal_strlit("a");
    reveal_strlit("A");
    reveal_strlit("i");
    reveal_strlit("I");
    assert("a"@ =~= seq!['a']);
    assert("A"@ =~= seq!['A']);
    assert("i"@ =~= seq!['i']);
    assert("I"@ =~= seq!['I']);
}

/// A list starts with its `start`; without one at 1, or at the number of its
/// items where it is reversed.
pub proof fn law_starts(elem: Element, count: usize)
    requires
        count <= i64::MAX,
    ensures
        match elem.value_of("start"@) {
            Some(v) => match number::signed(v) {
                Some(n) => i64::MIN <= n <= i64::MAX && lists::start_of(elem, count) == n,
                None => lists::start_of(elem, count) == if elem.value_of("reversed"@) is Some {
                    count as int
                } else {
                    1
                },
            },
            None => lists::start_of(elem, count) == if elem.value_of("reversed"@) is Some {
                count as int
            } else {
                1
            },
        },
{
}

/// The numbers of a list's items come from its start, its `reversed` and the
/// items' own `value`.
pub proof fn law_item_numbers(elem: Element, items: Seq<usize>, k: int)
    requires
        0 <= k < items.len() <= i64::MAX,
        items[k] < elem.children@.len(),
        elem.children@[items[k] as int] is Elem,
    ensures
        ({
            let numbers = walk::item_numbers(elem, items);
            let li = elem.children@[items[k] as int]->Elem_0;
            let value = match li.value_of("value"@) {
                Some(v) => number::signed(v),
                None => None,
            };
            &&& numbers.len() == items.len()
            &&& value matches Some(v) ==> numbers[k] == v
            &&& value is None && k == 0 ==> numbers[k] == lists::start_of(
                elem,
                items.len() as usize,
            )
            &&& value is None && k > 0 ==> {
                let before = numbers[k - 1];
                if elem.value_of("reversed"@) is Some {
                    numbers[k] == if before == i64::MIN {
                        before as int
                    } else {
                        before - 1
                    }
                } else {
                    numbers[k] == if before == i64::MAX {
                        before as int
                    } else {
                        before + 1
                    }
                }
            }
        }),
{
}

/// How a list is put into blocks: an unordered one with bullets, an ordered one
/// with its marker, counted or, where a number cannot be counted up to,
/// labelled.
pub proof fn law_list_styles(elem: Element, numbers: Seq<i64>)
    ensures
        elem.local@ != "ol"@ ==> walk::style_of(elem, numbers) == ListStyle::Bulleted,
        elem.local@ == "ol"@ && (forall|k: int|
            0 <= k < numbers.len() ==> (#[trigger] numbers[k]) >= 1) ==> walk::style_of(
            elem,
            numbers,
        ) == ListStyle::Counted(lists::marker_of(elem)),
        elem.local@ == "ol"@ && (exists|k: int|
            0 <= k < numbers.len() && (#[trigger] numbers[k]) < 1) ==> walk::style_of(
            elem,
            numbers,
        ) == ListStyle::Labelled(lists::marker_of(elem)),
{
}

/// Bulleted items make one list, with all of them in order and without labels;
/// no items make none.
pub proof fn law_bulleted_lists(kept: Seq<KeptView>)
    ensures
        kept.len() == 0 ==> lists::blocks_of(ListStyle::Bulleted, kept).len() == 0,
        kept.len() > 0 ==> lists::blocks_of(ListStyle::Bulleted, kept).len() == 1 && (
        lists::blocks_of(ListStyle::Bulleted, kept)[0] matches BlockView::List {
            marker,
            start,
            items,
        } && marker == MarkerKind::Bullet && start == 1 && items.len() == kept.len() && forall|
            k: int,
        |
            0 <= k < kept.len() ==> #[trigger] items[k] == (ItemView {
                blocks: kept[k].blocks,
                label: None,
            })),
{
}

/// Labelled items make one list with the marker of its kind.
pub proof fn law_labelled_lists(marker: MarkerKind, kept: Seq<KeptView>)
    ensures
        kept.len() == 0 ==> lists::blocks_of(ListStyle::Labelled(marker), kept).len() == 0,
        kept.len() > 0 ==> lists::blocks_of(ListStyle::Labelled(marker), kept).len() == 1 && (
        lists::blocks_of(ListStyle::Labelled(marker), kept)[0] matches BlockView::List {
            marker: m,
            start,
            ..
        } && m == marker && start == 1),
{
}

/// A label spells its number, with a point behind it.
pub proof fn law_labels(n: i64)
    ensures
        lists::label_of(n).len() > 1,
        lists::label_of(n).last() == '.',
        number::signed(lists::label_of(n).drop_last()) == Some(n as int),
{
    let s = number::spelled(n as int);
    laws::numbers::law_reading_gives_back_the_number(n as int);
    assert(s.push('.').drop_last() =~= s);
    assert(s.len() > 0) by {
        laws::numbers::law_only_digits_make_a_number(s, 0);
    }
}

/// Counted items make a list for each run of consecutive numbers: each carries
/// the marker, and none goes on where the one before it ends.
pub proof fn law_counted_lists(marker: MarkerKind, kept: Seq<KeptView>)
    requires
        forall|k: int| 0 <= k < kept.len() ==> (#[trigger] kept[k]).number >= 1,
    ensures
        ({
            let runs = lists::runs_of(kept);
            let blocks = lists::blocks_of(ListStyle::Counted(marker), kept);
            &&& blocks.len() == runs.len()
            &&& forall|j: int|
                0 <= j < runs.len() ==> #[trigger] blocks[j] == (BlockView::List {
                    marker,
                    start: runs[j].start,
                    items: runs[j].items,
                })
            &&& forall|j: int|
                0 <= j < runs.len() - 1 ==> (#[trigger] runs[j]).start + runs[j].items.len()
                    != runs[j + 1].start
            &&& runs.len() > 0 ==> kept.len() > 0 && runs.last().start + runs.last().items.len()
                == kept.last().number + 1
        }),
    decreases kept.len(),
{
    let runs = lists::runs_of(kept);
    if kept.len() > 0 {
        let rest = kept.drop_last();
        assert forall|k: int| 0 <= k < rest.len() implies (#[trigger] rest[k]).number >= 1 by {
            assert(rest[k] == kept[k]);
        }
        law_counted_lists(marker, rest);
        let before = lists::runs_of(rest);
        assert(kept[kept.len() - 1].number >= 1);
        let joins = before.len() > 0 && kept[kept.len() - 2].number + 1 == kept.last().number;
        if before.len() > 0 {
            assert(rest.last() == kept[kept.len() - 2]);
        }
        assert forall|j: int| 0 <= j < runs.len() - 1 implies (#[trigger] runs[j]).start
            + runs[j].items.len() != runs[j + 1].start by {
            if joins {
                assert(runs[j] == before[j]);
                if j + 1 < before.len() - 1 {
                    assert(runs[j + 1] == before[j + 1]);
                }
                assert(runs[j + 1].start == before[j + 1].start);
            } else {
                assert(runs[j] == before[j]);
                if j + 1 < before.len() {
                    assert(runs[j + 1] == before[j + 1]);
                }
            }
        }
    }
}

/// A list ends the line before it and becomes the blocks that its visible items
/// make, each item walked by itself.
pub proof fn law_lists(
    script: Seq<Call>,
    rules: Seq<RuleText>,
    elem: Element,
    inh: Inherited,
    r: Run,
    all: walk::Items,
)
    requires
        elem.local@ == "ul"@ || elem.local@ == "ol"@,
        is_shown(rules, elem),
        ({
            let items = rows::visible(
                rules,
                elem.children@,
                Part::Item,
                elem.children@.len() as int,
            );
            let seen = r.flushed().dropping(
                rows::any_concealed(rules, elem.children@, Part::Item, elem.children@.len() as int),
            );
            walk::walk_items(
                script,
                rules,
                elem,
                items,
                walk::item_numbers(elem, items),
                items.len() as int,
                own(rules, elem, inh),
                seen,
            ) == Ok::<walk::Items, Stopped>(all)
        }),
    ensures
        ({
            let items = rows::visible(
                rules,
                elem.children@,
                Part::Item,
                elem.children@.len() as int,
            );
            let style = walk::style_of(elem, walk::item_numbers(elem, items));
            walk::walk_elem(script, rules, elem, inh, r) matches Ok(p) && p.blocks
                == all.run.blocks + lists::blocks_of(style, all.kept) && p.calls == all.run.calls
                && p.inlines == all.run.inlines && p.start == all.run.start
        }),
{
    laws::tags::law_elements_are_walked_by_name(elem.local@);
}

/// Each item is kept with its number and the blocks it holds; one that comes to
/// no blocks is left out if it has something in it, and kept if it is empty.
pub proof fn law_items_are_kept(
    script: Seq<Call>,
    rules: Seq<RuleText>,
    elem: Element,
    items: Seq<usize>,
    numbers: Seq<i64>,
    n: int,
    inh: Inherited,
    r: Run,
)
    requires
        0 < n <= items.len(),
        items[n - 1] < elem.children@.len(),
        elem.children@[items[n - 1] as int] is Elem,
        walk::walk_items(script, rules, elem, items, numbers, n, inh, r) is Ok,
    ensures
        ({
            let li = elem.children@[items[n - 1] as int]->Elem_0;
            let before = walk::walk_items(script, rules, elem, items, numbers, n - 1, inh, r)->Ok_0;
            let after = walk::walk_items(script, rules, elem, items, numbers, n, inh, r)->Ok_0;
            let inner = walk::walk_inside(
                script,
                rules,
                li,
                own(rules, li, inh),
                true,
                before.run,
            )->Ok_0;
            &&& walk::walk_items(script, rules, elem, items, numbers, n - 1, inh, r) is Ok
            &&& walk::walk_inside(script, rules, li, own(rules, li, inh), true, before.run) is Ok
            &&& inner.blocks.len() > 0 ==> after.kept == before.kept.push(
                KeptView { number: numbers[n - 1], blocks: inner.blocks },
            )
            &&& inner.blocks.len() == 0 && li.children@.len() == 0 ==> after.kept
                == before.kept.push(KeptView { number: numbers[n - 1], blocks: inner.blocks })
            &&& inner.blocks.len() == 0 && (exists|i: int|
                0 <= i < li.children@.len() && (#[trigger] li.children@[i]) is Elem)
                ==> after.kept == before.kept
            &&& inner.blocks.len() == 0 && (exists|i: int|
                0 <= i < li.children@.len() && (#[trigger] li.children@[i] matches Node::Text(t)
                    && laws::lines::has_ink(t@))) ==> after.kept == before.kept
            &&& (forall|i: int|
                0 <= i < li.children@.len() ==> (#[trigger] li.children@[i] matches Node::Text(t)
                    && !laws::lines::has_ink(t@))) ==> after.kept == before.kept.push(
                KeptView { number: numbers[n - 1], blocks: inner.blocks },
            )
            &&& after.run.calls == inner.calls && after.run.blocks == before.run.blocks
        }),
{
    let li = elem.children@[items[n - 1] as int]->Elem_0;
    if forall|i: int|
        0 <= i < li.children@.len() ==> (#[trigger] li.children@[i] matches Node::Text(t)
            && !laws::lines::has_ink(t@)) {
        assert(!tags::had_content(li)) by {
            if tags::had_content(li) {
                let i = choose|i: int|
                    0 <= i < li.children@.len() && match #[trigger] li.children@[i] {
                        Node::Text(t) => !inlines::blank(t@),
                        Node::Elem(_) => true,
                    };
                let t = li.children@[i]->Text_0@;
                assert(!inlines::blank(t));
                let m = choose|m: int|
                    0 <= m < t.len() && !crate::chars::white_space(#[trigger] t[m]);
                assert(!crate::chars::white_space(t[m]));
                assert(laws::lines::has_ink(t));
            }
        }
    }
    if exists|i: int| 0 <= i < li.children@.len() && (#[trigger] li.children@[i]) is Elem {
        let i = choose|i: int| 0 <= i < li.children@.len() && (#[trigger] li.children@[i]) is Elem;
        assert(li.children@[i] is Elem);
        assert(tags::had_content(li));
    }
    if exists|i: int|
        0 <= i < li.children@.len() && (#[trigger] li.children@[i] matches Node::Text(t)
            && laws::lines::has_ink(t@)) {
        let i = choose|i: int|
            0 <= i < li.children@.len() && (#[trigger] li.children@[i] matches Node::Text(t)
                && laws::lines::has_ink(t@));
        let t = li.children@[i]->Text_0@;
        let m = choose|m: int| 0 <= m < t.len() && !crate::chars::white_space(#[trigger] t[m]);
        assert(!crate::chars::white_space(t[m]));
        assert(!inlines::blank(t));
        assert(tags::had_content(li));
    }
}

/// A table becomes one with the grid its rows fill. How many of its rows are
/// headers is what the hooks say of that grid and of how many it declares; an
/// empty grid makes no table, and nothing is asked.
pub proof fn law_tables(
    script: Seq<Call>,
    rules: Seq<RuleText>,
    table: Element,
    inh: Inherited,
    r: Run,
    captioned: Run,
    c: Cells,
)
    requires
        table.local@ == "table"@,
        is_shown(rules, table),
        ({
            let mine = own(rules, table, inh);
            let found = rows::rows_of(rules, table);
            &&& walk::walk_caption(script, rules, table, mine, r.flushed()) == Ok::<Run, Stopped>(
                captioned,
            )
            &&& walk::walk_rows(
                script,
                rules,
                table,
                found.rows,
                found.rows.len() as int,
                mine,
                (Cells {
                    grid: crate::grid::Grid::empty(),
                    run: captioned.dropping(found.dropped),
                }),
            ) == Ok::<Cells, Stopped>(c)
        }),
    ensures
        ({
            let found = rows::rows_of(rules, table).rows;
            let declared = rows::declared_headers(rules, table, found, found.len() as int) as usize;
            let n = c.run.calls.len() as int;
            walk::walk_elem(script, rules, table, inh, r) matches Ok(p) && {
                &&& c.grid.rows().len() == 0 ==> p == c.run
                &&& c.grid.rows().len() > 0 ==> {
                    &&& p.calls.len() == n + 1
                    &&& p.calls.take(n) == c.run.calls
                    &&& p.calls[n] matches Call::Headers { table: t, declared: d, rows: headers }
                        && d == declared && t == (TableView {
                        kind: TableKind::Data,
                        grid: c.grid.rows(),
                        header_rows: 0,
                    }) && p.blocks == c.run.blocks.push(
                        BlockView::Table(
                            TableView {
                                kind: TableKind::Data,
                                grid: c.grid.rows(),
                                header_rows: headers,
                            },
                        ),
                    )
                }
            }
        }),
{
    laws::tags::law_elements_are_walked_by_name(table.local@);
    let p = walk::walk_elem(script, rules, table, inh, r)->Ok_0;
    if c.grid.rows().len() > 0 {
        assert(p.calls.take(c.run.calls.len() as int) =~= c.run.calls);
    }
}

/// A caption that shows something becomes a paragraph before its table; a
/// hidden one is left out.
pub proof fn law_captions(
    script: Seq<Call>,
    rules: Seq<RuleText>,
    table: Element,
    caption: Element,
    inh: Inherited,
    r: Run,
)
    requires
        rows::named_child(table, "caption"@) == Some(caption),
    ensures
        ({
            let out = walk::walk_caption(script, rules, table, inh, r);
            if !is_shown(rules, caption) {
                out matches Ok(p) && p.blocks == r.blocks && p.calls == r.calls && p.dropped
            } else {
                match walk::walk_inside(
                    script,
                    rules,
                    caption,
                    own(rules, caption, inh),
                    true,
                    r,
                ) {
                    Err(s) => out == Err::<Run, Stopped>(s),
                    Ok(inner) => {
                        let line = inlines::flattened(inner.blocks);
                        out matches Ok(p) && p.calls == inner.calls && (
                        inlines::worth_keeping(line) ==> p.blocks == r.blocks.push(
                            BlockView::Paragraph(line),
                        )) && (!inlines::worth_keeping(line) ==> p.blocks == r.blocks)
                    },
                }
            }
        }),
{
}

/// What a row's cells inherit goes through the row, and first through its
/// section where it stands in one.
pub proof fn law_cells_inherit_through_their_row(
    rules: Seq<RuleText>,
    table: Element,
    at: crate::rows::RowAt,
    inh: Inherited,
)
    requires
        at.child < table.children@.len(),
        table.children@[at.child as int] is Elem,
    ensures
        ({
            let outer = table.children@[at.child as int]->Elem_0;
            &&& at.inner is None ==> rows::row_inherits(rules, table, at, inh) == own(
                rules,
                outer,
                inh,
            )
            &&& at.inner matches Some(j) ==> j < outer.children@.len() && outer.children@[j as int]
                is Elem ==> rows::row_inherits(rules, table, at, inh) == own(
                rules,
                outer.children@[j as int]->Elem_0,
                own(rules, outer, inh),
            )
        }),
{
}

/// Content is walked by itself, with nothing before it, and what it comes to is
/// all in blocks.
pub proof fn law_nested_walks(
    script: Seq<Call>,
    rules: Seq<RuleText>,
    elem: Element,
    inh: Inherited,
    start: bool,
    r: Run,
)
    ensures
        ({
            let begun = Run {
                blocks: Seq::empty(),
                inlines: Seq::empty(),
                start,
                dropped: r.dropped,
                calls: r.calls,
            };
            match walk::walk_nodes(script, rules, elem, elem.children@.len() as int, inh, begun) {
                Ok(p) => walk::walk_inside(script, rules, elem, inh, start, r) == Ok::<
                    Run,
                    Stopped,
                >(p.flushed()),
                Err(s) => walk::walk_inside(script, rules, elem, inh, start, r) == Err::<
                    Run,
                    Stopped,
                >(s),
            }
        }),
{
    assert(walk::walk_children(script, rules, elem, inh, r.nested(start)) == walk::walk_nodes(
        script,
        rules,
        elem,
        elem.children@.len() as int,
        inh,
        r.nested(start),
    ));
}

/// Rows are walked one after the other, each in a row of its own behind those
/// before it: its visible cells, with what is left of its section for those
/// that reach to the end of it.
pub proof fn law_rows_are_walked_in_order(
    script: Seq<Call>,
    rules: Seq<RuleText>,
    table: Element,
    all: Seq<crate::rows::RowAt>,
    n: int,
    inh: Inherited,
    c: Cells,
)
    requires
        0 < n <= all.len(),
        rows::row_elem(table, all[n - 1]) is Some,
    ensures
        walk::walk_rows(script, rules, table, all, 0, inh, c) == Ok::<Cells, Stopped>(c),
        ({
            let tr = rows::row_elem(table, all[n - 1])->Some_0;
            let cells = rows::visible(
                rules,
                tr.children@,
                Part::Cell,
                tr.children@.len() as int,
            );
            let hidden = rows::any_concealed(
                rules,
                tr.children@,
                Part::Cell,
                tr.children@.len() as int,
            );
            match walk::walk_rows(script, rules, table, all, n - 1, inh, c) {
                Err(s) => walk::walk_rows(script, rules, table, all, n, inh, c) == Err::<
                    Cells,
                    Stopped,
                >(s),
                Ok(p) => walk::walk_rows(script, rules, table, all, n, inh, c)
                    == walk::walk_cells(
                    script,
                    rules,
                    tr,
                    cells,
                    cells.len() as int,
                    rows::rows_left(all, n - 1),
                    rows::row_inherits(rules, table, all[n - 1], inh),
                    Cells { grid: p.grid.next(), run: p.run.dropping(hidden) },
                ),
            }
        }),
{
}

/// A cell that would make its row too wide ends the walk, once its content has
/// been walked; so does an error in a cell or in one before it.
pub proof fn law_wide_rows_end_the_walk(
    script: Seq<Call>,
    rules: Seq<RuleText>,
    tr: Element,
    cells: Seq<usize>,
    n: int,
    left: u32,
    inh: Inherited,
    c: Cells,
)
    requires
        0 < n <= cells.len(),
        cells[n - 1] < tr.children@.len(),
        tr.children@[cells[n - 1] as int] is Elem,
    ensures
        ({
            let cell = tr.children@[cells[n - 1] as int]->Elem_0;
            let out = walk::walk_cells(script, rules, tr, cells, n, left, inh, c);
            match walk::walk_cells(script, rules, tr, cells, n - 1, left, inh, c) {
                Err(s) => out == Err::<Cells, Stopped>(s),
                Ok(p) => match walk::walk_inside(
                    script,
                    rules,
                    cell,
                    own(rules, cell, inh),
                    true,
                    p.run,
                ) {
                    Err(s) => out == Err::<Cells, Stopped>(s),
                    Ok(inner) => {
                        let placed = crate::grid::spanning(
                            inner.blocks,
                            rows::columns_of(cell),
                            rows::lines_of(cell, left),
                        );
                        (out is Ok <==> p.grid.fits(placed)) && (out matches Err(s) ==> s.error
                            == crate::error::ConvertError::LimitExceeded && s.calls == inner.calls)
                    },
                },
            }
        }),
{
}

/// An error in what an element holds ends the walk with that error.
pub proof fn law_errors_inside_end_the_walk(
    script: Seq<Call>,
    rules: Seq<RuleText>,
    elem: Element,
    inh: Inherited,
    r: Run,
    s: Stopped,
)
    requires
        is_shown(rules, elem),
        match tags::kind_of(elem.local@) {
            ElemKind::Heading(_) | ElemKind::Quote => walk::walk_inside(
                script,
                rules,
                elem,
                own(rules, elem, inh),
                true,
                r.flushed(),
            ) == Err::<Run, Stopped>(s),
            ElemKind::Para => walk::walk_inside(
                script,
                rules,
                elem,
                own(rules, elem, inh),
                true,
                walk::anchored(script, elem, r.flushed()),
            ) == Err::<Run, Stopped>(s),
            ElemKind::Table => walk::walk_caption(
                script,
                rules,
                elem,
                own(rules, elem, inh),
                r.flushed(),
            ) == Err::<Run, Stopped>(s),
            _ => false,
        },
    ensures
        walk::walk_elem(script, rules, elem, inh, r) == Err::<Run, Stopped>(s),
{
}

/// Items are walked one after the other, and an error in one ends the walk.
pub proof fn law_errors_in_items_end_the_walk(
    script: Seq<Call>,
    rules: Seq<RuleText>,
    elem: Element,
    items: Seq<usize>,
    numbers: Seq<i64>,
    n: int,
    inh: Inherited,
    r: Run,
)
    requires
        0 < n <= items.len(),
        items[n - 1] < elem.children@.len(),
        elem.children@[items[n - 1] as int] is Elem,
    ensures
        ({
            let li = elem.children@[items[n - 1] as int]->Elem_0;
            let out = walk::walk_items(script, rules, elem, items, numbers, n, inh, r);
            match walk::walk_items(script, rules, elem, items, numbers, n - 1, inh, r) {
                Err(s) => out == Err::<walk::Items, Stopped>(s),
                Ok(p) => match walk::walk_inside(
                    script,
                    rules,
                    li,
                    own(rules, li, inh),
                    true,
                    p.run,
                ) {
                    Err(s) => out == Err::<walk::Items, Stopped>(s),
                    Ok(_) => out is Ok,
                },
            }
        }),
{
}

/// A hidden element leaves no trace but that something was dropped; a hidden
/// body comes to nothing.
pub proof fn law_hidden_elements_are_left_out(
    script: Seq<Call>,
    rules: Seq<RuleText>,
    elem: Element,
    inh: Inherited,
    r: Run,
)
    requires
        !is_shown(rules, elem),
    ensures
        walk::walk_elem(script, rules, elem, inh, r) matches Ok(p) && p.blocks == r.blocks
            && p.inlines == r.inlines && p.calls == r.calls && p.dropped,
        walk::walk_body(script, rules, elem) matches Ok(p) && p.blocks.len() == 0 && p.calls.len()
            == 0,
{
}

/// A body that is shown comes to the blocks its content does.
pub proof fn law_bodies(script: Seq<Call>, rules: Seq<RuleText>, body: Element)
    requires
        is_shown(rules, body),
    ensures
        match walk::walk_children(
            script,
            rules,
            body,
            Inherited::none().with(cascade::resolved(rules, body)),
            Run::new(),
        ) {
            Ok(p) => walk::walk_body(script, rules, body) == Ok::<Run, Stopped>(p.flushed()),
            Err(s) => walk::walk_body(script, rules, body) == Err::<Run, Stopped>(s),
        },
{
    assert(Run::new().nested(true) == Run::new());
}

} // verus!
