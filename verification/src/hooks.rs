//! What a frontend decides, and the record of what it was asked.

use crate::error::ConvertError;
use crate::model::{AnchorId, ImageSource, LinkTarget, Table, TableView};
use crate::xml::Element;
use vstd::prelude::*;

verus! {

/// Frontend hooks: how hrefs, image sources, and anchor ids resolve in the
/// containing document (EPUB scopes them per chapter), and how text,
/// formulas and table headers are read.
///
/// Nothing is demanded of the answers: they may depend on more than the
/// question, and the same question may be answered differently later.
pub trait HtmlCtx {
    fn link_target(&self, href: &str) -> Option<LinkTarget>;

    /// A failed load degrades to `Ok(None)`; resource-limit errors propagate.
    fn image_source(&self, src: &str) -> Result<Option<ImageSource>, ConvertError>;

    fn anchor_id(&self, raw: &str) -> AnchorId;

    /// Text without what no reader sees, such as control characters.
    fn clean_text(&self, raw: &str) -> String;

    /// A MathML formula as TeX; empty when there is nothing to show.
    fn math_to_tex(&self, math: &Element) -> String;

    /// Whether a MathML formula stands on its own.
    fn math_is_display(&self, math: &Element) -> bool;

    /// How many rows at the top of a table are headers, given how many its
    /// markup declares.
    fn header_rows(&self, table: &Table, declared: usize) -> usize;
}

/// One question put to the hooks, with the answer that came back.
pub enum Call {
    Link { href: Seq<char>, target: Option<LinkTarget> },
    Image { src: Seq<char>, source: Result<Option<ImageSource>, ConvertError> },
    Anchor { raw: Seq<char>, id: AnchorId },
    Clean { raw: Seq<char>, text: String },
    Tex { math: Element, tex: String },
    Display { math: Element, display: bool },
    Headers { table: TableView, declared: usize, rows: usize },
}

/// Whether `ctx` can have found that many header rows in that table.
pub open spec fn headed<C: HtmlCtx + ?Sized>(
    ctx: &C,
    table: Table,
    declared: usize,
    rows: usize,
) -> bool {
    call_ensures(C::header_rows, (ctx, &table, declared), rows)
}

/// Whether `ctx` can have given that answer to that question.
pub open spec fn said<C: HtmlCtx + ?Sized>(ctx: &C, call: Call) -> bool {
    match call {
        Call::Link { href, target } => exists|h: &str|
            h@ == href && #[trigger] call_ensures(C::link_target, (ctx, h), target),
        Call::Image { src, source } => exists|s: &str|
            s@ == src && #[trigger] call_ensures(C::image_source, (ctx, s), source),
        Call::Anchor { raw, id } => exists|s: &str|
            s@ == raw && #[trigger] call_ensures(C::anchor_id, (ctx, s), id),
        Call::Clean { raw, text } => exists|s: &str|
            s@ == raw && #[trigger] call_ensures(C::clean_text, (ctx, s), text),
        Call::Tex { math, tex } => call_ensures(C::math_to_tex, (ctx, &math), tex),
        Call::Display { math, display } => call_ensures(
            C::math_is_display,
            (ctx, &math),
            display,
        ),
        Call::Headers { table, declared, rows } => exists|t: Table|
            t@ == table && #[trigger] headed(ctx, t, declared, rows),
    }
}

/// Whether `ctx` can have given all those answers.
pub open spec fn all_said<C: HtmlCtx + ?Sized>(ctx: &C, calls: Seq<Call>) -> bool {
    forall|i: int| 0 <= i < calls.len() ==> said(ctx, #[trigger] calls[i])
}

/// One more answer.
pub proof fn lemma_said_more<C: HtmlCtx + ?Sized>(ctx: &C, calls: Seq<Call>, call: Call)
    requires
        all_said(ctx, calls),
        said(ctx, call),
    ensures
        all_said(ctx, calls.push(call)),
{
    let more = calls.push(call);
    assert forall|i: int| 0 <= i < more.len() implies said(ctx, #[trigger] more[i]) by {
        if i < calls.len() {
            assert(more[i] == calls[i]);
        }
    }
}

} // verus!
