//! What views promise: nothing of a value is lost in its view, so that what is
//! said of a view is said of the value.

use crate::css::{ParsedSelector, Rule};
use crate::docx::Document;
use crate::lists;
use crate::lists::Kept;
use crate::model;
use crate::model::{
    Block, BlockView, Cell, CellSlot, Inline, InlineView, ListItem, SlotView, Table,
};
use crate::notes::Note;
use crate::package::{Seen, SeenView};
use crate::xml;
use vstd::prelude::*;

verus! {

/// The view of an inline has all that it has.
pub proof fn law_inlines_are_seen_whole(i: Inline)
    ensures
        i@ == model::inline_view(i),
        match i {
            Inline::Text { text, style } => i@ == (InlineView::Text { text: text@, style }),
            Inline::LineBreak => i@ == InlineView::LineBreak,
            Inline::Link { content, target } => i@ == (InlineView::Link {
                content: model::inline_views(content@),
                target,
            }),
            Inline::Image { alt, source } => i@ == (InlineView::Image { alt: alt@, source }),
            Inline::Anchor(id) => i@ == InlineView::Anchor(id@),
            Inline::NoteRef(id) => i@ == InlineView::NoteRef(id@),
            Inline::Math(tex) => i@ == InlineView::Math(tex@),
            Inline::Checkbox(b) => i@ == InlineView::Checkbox(b),
        },
{
}

/// The view of a block has all that it has.
pub proof fn law_blocks_are_seen_whole(b: Block)
    ensures
        b@ == model::block_view(b),
        match b {
            Block::Paragraph(content) => b@ == BlockView::Paragraph(
                model::inline_views(content@),
            ),
            Block::Heading { level, anchor, content } => b@ matches BlockView::Heading {
                level: l,
                anchor: a,
                content: c,
            } && l == level && c == model::inline_views(content@) && (a is Some) == (anchor is Some)
                && (anchor matches Some(t) ==> a == Some(t@)),
            Block::List(list) => b@ == (BlockView::List {
                marker: list.marker,
                start: list.start,
                items: model::item_views(list.items@),
            }),
            Block::BlockQuote(blocks) => b@ == BlockView::BlockQuote(model::block_views(blocks@)),
            Block::CodeBlock { lang, text } => b@ matches BlockView::CodeBlock {
                lang: l,
                text: t,
            } && t == text@ && (l is Some) == (lang is Some) && (lang matches Some(x) ==> l == Some(
                x@,
            )),
            Block::Math(tex) => b@ == BlockView::Math(tex@),
            Block::Table(table) => b@ == BlockView::Table(table@),
            Block::Rule => b@ == BlockView::Rule,
        },
{
}

/// The views of a row of values are those of each, in order.
pub proof fn law_each_is_seen(
    inlines: Seq<Inline>,
    blocks: Seq<Block>,
    items: Seq<ListItem>,
    row: Seq<CellSlot>,
    grid: Seq<Vec<CellSlot>>,
    k: int,
)
    requires
        0 <= k,
    ensures
        model::inline_views(inlines).len() == inlines.len(),
        k < inlines.len() ==> model::inline_views(inlines)[k] == inlines[k]@,
        model::block_views(blocks).len() == blocks.len(),
        k < blocks.len() ==> model::block_views(blocks)[k] == blocks[k]@,
        model::item_views(items).len() == items.len(),
        k < items.len() ==> model::item_views(items)[k].blocks == model::block_views(
            items[k].blocks@,
        ) && (model::item_views(items)[k].label is Some) == (items[k].marker_label is Some) && (
        items[k].marker_label matches Some(t) ==> model::item_views(items)[k].label == Some(t@)),
        model::row_view(row).len() == row.len(),
        k < row.len() ==> (model::row_view(row)[k] == match row[k] {
            CellSlot::Origin(cell) => SlotView::Origin(model::cell_view(cell)),
            CellSlot::Covered { origin_row, origin_col } => SlotView::Covered {
                origin_row,
                origin_col,
            },
        }),
        model::grid_view(grid).len() == grid.len(),
        k < grid.len() ==> model::grid_view(grid)[k] == model::row_view(grid[k]@),
{
}

/// The view of a cell has its blocks and its spans, that of a table its kind,
/// its grid and its header rows.
pub proof fn law_tables_are_seen_whole(cell: Cell, table: Table)
    ensures
        model::cell_view(cell).blocks == model::block_views(cell.blocks@),
        model::cell_view(cell).col_span == cell.col_span,
        model::cell_view(cell).row_span == cell.row_span,
        table@.kind == table.kind,
        table@.grid == model::grid_view(table.grid@),
        table@.header_rows == table.header_rows,
{
}

/// The views of notes and documents have all that they have.
pub proof fn law_documents_are_seen_whole(note: Note, document: Document, k: int)
    ensures
        note@.id == note.id@,
        note@.kind == note.kind,
        note@.blocks == model::block_views(note.blocks@),
        document@.blocks == model::block_views(document.blocks@),
        document@.assets == document.assets@,
        document@.notes.len() == document.notes@.len(),
        0 <= k < document.notes@.len() ==> document@.notes[k] == document.notes@[k]@,
{
}

/// The view of a selector has each of its components, that of a rule its
/// selector, its priority and what it declares, and that of a kept item its
/// number and its blocks.
pub proof fn law_rules_are_seen_whole(sel: ParsedSelector, rule: Rule, kept: Kept)
    ensures
        (sel@.tag is Some) == (sel.tag is Some),
        sel.tag matches Some(t) ==> sel@.tag == Some(t@),
        (sel@.id is Some) == (sel.id is Some),
        sel.id matches Some(t) ==> sel@.id == Some(t@),
        (sel@.class is Some) == (sel.class is Some),
        sel.class matches Some(t) ==> sel@.class == Some(t@),
        sel@.attr == sel.attr,
        rule@.selector == rule.selector@,
        rule@.priority == rule.priority,
        rule@.props == rule.props,
        kept@.number == kept.number,
        kept@.blocks == model::block_views(kept.blocks@),
{
}

/// An optional text is seen as that text, and none as none; kept items are seen
/// one by one, in order.
pub proof fn law_texts_and_items_are_seen_whole(text: &str, kept: Seq<Kept>, k: int)
    requires
        0 <= k < kept.len(),
    ensures
        xml::opt_text(None) is None,
        xml::opt_text(Some(text)) == Some(text@),
        lists::kept_views(kept).len() == kept.len(),
        lists::kept_views(kept)[k] == kept[k]@,
{
}

/// The view of what was come across has all of it; at first there is nothing
/// but the counters.
pub proof fn law_what_was_seen_is_seen_whole<C>(seen: Seen<C>, counters: C)
    ensures
        seen@.counters == seen.counters,
        seen@.assets == seen.assets@,
        seen@.dropped == seen.dropped@,
        seen@.visible == seen.visible@,
        SeenView::none(counters).counters == counters,
        SeenView::none(counters).assets.len() == 0,
        forall|id: String| !SeenView::none(counters).dropped.contains(id),
        forall|id: String| !SeenView::none(counters).visible.contains(id),
{
}

} // verus!
