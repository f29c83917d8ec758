//! What an element's tag says: how it is walked, which styling it brings,
//! and what its children are.

use crate::css::StyleProps;
use crate::inlines;
use crate::inlines::is_blank_str;
use crate::style::StyleDelta;
use crate::xml::{same_text, Element, Node};
use vstd::prelude::*;

verus! {

/// How an element is walked.
#[derive(Debug, Clone, Copy)]
pub enum ElemKind {
    Heading(u8),
    Para,
    List,
    Table,
    Quote,
    Pre,
    Rule,
    Math,
    /// Groups other content and is walked through.
    Container,
    /// Never shown.
    Ignored,
    Break,
    Image,
    Link,
    /// Anything else: its content joins the surrounding line.
    Inline,
}

/// Elements that only group other content, walked through transparently.
pub open spec fn container(name: Seq<char>) -> bool {
    ||| name == "div"@
    ||| name == "section"@
    ||| name == "article"@
    ||| name == "aside"@
    ||| name == "main"@
    ||| name == "nav"@
    ||| name == "header"@
    ||| name == "footer"@
    ||| name == "figure"@
    ||| name == "figcaption"@
    ||| name == "center"@
    ||| name == "details"@
    ||| name == "summary"@
    ||| name == "li"@
    ||| name == "dl"@
    ||| name == "dt"@
    ||| name == "dd"@
    ||| name == "body"@
}

/// The level of a heading tag.
pub open spec fn heading_level(name: Seq<char>) -> Option<u8> {
    if name == "h1"@ {
        Some(1)
    } else if name == "h2"@ {
        Some(2)
    } else if name == "h3"@ {
        Some(3)
    } else if name == "h4"@ {
        Some(4)
    } else if name == "h5"@ {
        Some(5)
    } else if name == "h6"@ {
        Some(6)
    } else {
        None
    }
}

/// Elements that end the line they stand in.
pub open spec fn block_level(name: Seq<char>) -> bool {
    ||| container(name)
    ||| heading_level(name) is Some
    ||| name == "p"@
    ||| name == "ul"@
    ||| name == "ol"@
    ||| name == "table"@
    ||| name == "blockquote"@
    ||| name == "pre"@
    ||| name == "hr"@
}

/// Elements whose content is never shown.
pub open spec fn ignored(name: Seq<char>) -> bool {
    ||| name == "script"@
    ||| name == "style"@
    ||| name == "head"@
    ||| name == "template"@
    ||| name == "noscript"@
}

/// How an element of that name is walked.
pub open spec fn kind_of(name: Seq<char>) -> ElemKind {
    if heading_level(name) is Some {
        ElemKind::Heading(heading_level(name)->0)
    } else if name == "p"@ {
        ElemKind::Para
    } else if name == "ul"@ || name == "ol"@ {
        ElemKind::List
    } else if name == "table"@ {
        ElemKind::Table
    } else if name == "blockquote"@ {
        ElemKind::Quote
    } else if name == "pre"@ {
        ElemKind::Pre
    } else if name == "hr"@ {
        ElemKind::Rule
    } else if name == "math"@ {
        ElemKind::Math
    } else if container(name) {
        ElemKind::Container
    } else if ignored(name) {
        ElemKind::Ignored
    } else if name == "br"@ {
        ElemKind::Break
    } else if name == "img"@ || name == "image"@ {
        ElemKind::Image
    } else if name == "a"@ {
        ElemKind::Link
    } else {
        ElemKind::Inline
    }
}

/// Whether elements of that name only group other content.
pub fn is_container_tag(name: &str) -> (r: bool)
    ensures
        r == container(name@),
{
    same_text(name, "div") || same_text(name, "section") || same_text(name, "article")
        || same_text(name, "aside") || same_text(name, "main") || same_text(name, "nav")
        || same_text(name, "header") || same_text(name, "footer") || same_text(name, "figure")
        || same_text(name, "figcaption") || same_text(name, "center") || same_text(name, "details")
        || same_text(name, "summary") || same_text(name, "li") || same_text(name, "dl")
        || same_text(name, "dt") || same_text(name, "dd") || same_text(name, "body")
}

/// The level of a heading tag.
pub fn heading_tag(name: &str) -> (r: Option<u8>)
    ensures
        r == heading_level(name@),
{
    if same_text(name, "h1") {
        Some(1)
    } else if same_text(name, "h2") {
        Some(2)
    } else if same_text(name, "h3") {
        Some(3)
    } else if same_text(name, "h4") {
        Some(4)
    } else if same_text(name, "h5") {
        Some(5)
    } else if same_text(name, "h6") {
        Some(6)
    } else {
        None
    }
}

/// Whether elements of that name end the line they stand in.
pub fn is_block_tag(name: &str) -> (r: bool)
    ensures
        r == block_level(name@),
{
    is_container_tag(name) || heading_tag(name).is_some() || same_text(name, "p") || same_text(
        name,
        "ul",
    ) || same_text(name, "ol") || same_text(name, "table") || same_text(name, "blockquote")
        || same_text(name, "pre") || same_text(name, "hr")
}

/// How an element of that name is walked.
pub fn elem_kind(name: &str) -> (r: ElemKind)
    ensures
        r == kind_of(name@),
{
    if let Some(level) = heading_tag(name) {
        ElemKind::Heading(level)
    } else if same_text(name, "p") {
        ElemKind::Para
    } else if same_text(name, "ul") || same_text(name, "ol") {
        ElemKind::List
    } else if same_text(name, "table") {
        ElemKind::Table
    } else if same_text(name, "blockquote") {
        ElemKind::Quote
    } else if same_text(name, "pre") {
        ElemKind::Pre
    } else if same_text(name, "hr") {
        ElemKind::Rule
    } else if same_text(name, "math") {
        ElemKind::Math
    } else if is_container_tag(name) {
        ElemKind::Container
    } else if same_text(name, "script") || same_text(name, "style") || same_text(name, "head")
        || same_text(name, "template") || same_text(name, "noscript") {
        ElemKind::Ignored
    } else if same_text(name, "br") {
        ElemKind::Break
    } else if same_text(name, "img") || same_text(name, "image") {
        ElemKind::Image
    } else if same_text(name, "a") {
        ElemKind::Link
    } else {
        ElemKind::Inline
    }
}

/// The styling that a presentational tag adds to `delta`.
pub open spec fn tag_styled(name: Seq<char>, delta: StyleDelta) -> StyleDelta {
    if name == "b"@ || name == "strong"@ {
        StyleDelta { bold: Some(true), ..delta }
    } else if name == "i"@ || name == "em"@ || name == "cite"@ || name == "dfn"@ || name
        == "var"@ {
        StyleDelta { italic: Some(true), ..delta }
    } else if name == "s"@ || name == "del"@ || name == "strike"@ {
        StyleDelta { strike: Some(true), ..delta }
    } else if name == "code"@ || name == "kbd"@ || name == "samp"@ || name == "tt"@ {
        StyleDelta { code: Some(true), ..delta }
    } else {
        delta
    }
}

/// The styling that an element's tag adds to `delta`.
pub fn merge_inline_tag(elem: &Element, delta: StyleDelta) -> (r: StyleDelta)
    ensures
        r == tag_styled(elem.local@, delta),
{
    let name: &str = elem.local.as_str();
    if same_text(name, "b") || same_text(name, "strong") {
        StyleDelta { bold: Some(true), ..delta }
    } else if same_text(name, "i") || same_text(name, "em") || same_text(name, "cite")
        || same_text(name, "dfn") || same_text(name, "var") {
        StyleDelta { italic: Some(true), ..delta }
    } else if same_text(name, "s") || same_text(name, "del") || same_text(name, "strike") {
        StyleDelta { strike: Some(true), ..delta }
    } else if same_text(name, "code") || same_text(name, "kbd") || same_text(name, "samp")
        || same_text(name, "tt") {
        StyleDelta { code: Some(true), ..delta }
    } else {
        delta
    }
}

/// What an element inherits: the styling of its ancestors, and whether the
/// font size in effect is zero.
///
/// A zero font size is resettable, so a descendant's own `font-size` cancels
/// it; it drops text only, where the other hiding properties drop whole
/// subtrees.
#[derive(Debug, Clone, Copy)]
pub struct Inherited {
    pub delta: StyleDelta,
    pub font_size_zero: bool,
}

impl Inherited {
    /// What the root inherits.
    pub open spec fn none() -> Inherited {
        Inherited { delta: StyleDelta::none(), font_size_zero: false }
    }

    /// With one element's own properties on top.
    pub open spec fn with(self, props: StyleProps) -> Inherited {
        Inherited {
            delta: self.delta.then_over(props.delta),
            font_size_zero: match props.font_size_zero {
                Some(z) => z,
                None => self.font_size_zero,
            },
        }
    }

    /// With an element's tag and its own properties on top, in that order.
    pub open spec fn within(self, elem: Element, props: StyleProps) -> Inherited {
        Inherited { delta: tag_styled(elem.local@, self.delta), ..self }.with(props)
    }

    /// What the root inherits.
    pub fn root() -> (r: Inherited)
        ensures
            r == Inherited::none(),
    {
        Inherited { delta: StyleDelta::default(), font_size_zero: false }
    }

    /// Merge one element's own properties into what it inherits: the font
    /// size is inherited unless the element declares its own.
    pub fn merge(self, props: StyleProps) -> (r: Inherited)
        ensures
            r == self.with(props),
    {
        Inherited {
            delta: self.delta.merge(props.delta),
            font_size_zero: match props.font_size_zero {
                Some(z) => z,
                None => self.font_size_zero,
            },
        }
    }

    /// Merge an element's tag, then its own properties, so that
    /// `font-weight: normal` can undo a `<b>`.
    pub fn merge_props(self, elem: &Element, props: StyleProps) -> (r: Inherited)
        ensures
            r == self.within(*elem, props),
    {
        Inherited {
            delta: merge_inline_tag(elem, self.delta),
            font_size_zero: self.font_size_zero,
        }.merge(props)
    }
}

/// Whether some child element ends the line it stands in.
pub open spec fn blocks_among(elem: Element) -> bool {
    exists|i: int|
        0 <= i < elem.children@.len() && ((#[trigger] elem.children@[i]) matches Node::Elem(e)
            && block_level(e.local@))
}

/// Whether some child element ends the line it stands in.
pub fn has_block_children(elem: &Element) -> (r: bool)
    ensures
        r == blocks_among(*elem),
{
    let mut i: usize = 0;
    while i < elem.children.len()
        invariant
            i <= elem.children@.len(),
            forall|j: int|
                0 <= j < i ==> !((#[trigger] elem.children@[j]) matches Node::Elem(e)
                    && block_level(e.local@)),
        decreases elem.children@.len() - i,
    {
        if let Node::Elem(e) = &elem.children[i] {
            if is_block_tag(e.local.as_str()) {
                assert(elem.children@[i as int] matches Node::Elem(e) && block_level(e.local@));
                return true;
            }
        }
        i += 1;
    }
    false
}

/// Whether an element has any content in the source: a child element, or
/// text that is not all white space.
pub open spec fn had_content(elem: Element) -> bool {
    exists|i: int|
        0 <= i < elem.children@.len() && match #[trigger] elem.children@[i] {
            Node::Text(t) => !inlines::blank(t@),
            Node::Elem(_) => true,
        }
}

/// Whether an `<li>` has any content in the source. One that ends up empty
/// although it had content lost it to hiding.
pub fn li_had_content(li: &Element) -> (r: bool)
    ensures
        r == had_content(*li),
{
    let mut i: usize = 0;
    while i < li.children.len()
        invariant
            i <= li.children@.len(),
            forall|j: int|
                0 <= j < i ==> match #[trigger] li.children@[j] {
                    Node::Text(t) => inlines::blank(t@),
                    Node::Elem(_) => false,
                },
        decreases li.children@.len() - i,
    {
        let content: bool = match &li.children[i] {
            Node::Text(t) => !is_blank_str(t.as_str()),
            Node::Elem(_) => true,
        };
        if content {
            assert(match li.children@[i as int] {
                Node::Text(t) => !inlines::blank(t@),
                Node::Elem(_) => true,
            });
            return true;
        }
        i += 1;
    }
    false
}

} // verus!
