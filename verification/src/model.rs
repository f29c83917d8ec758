//! The document model: blocks of inlines, lists, tables and notes.
//!
//! Every type has a view in which text is a `Seq<char>` and content is a
//! `Seq` of views; contracts speak of those.

use crate::style::Style;
use vstd::prelude::*;

verus! {

/// The id of a place that links can target.
pub type AnchorId = String;

/// Where a link leads.
#[derive(Debug, PartialEq, Eq)]
pub enum LinkTarget {
    External(String),
    Anchor(AnchorId),
}

/// Where an image's data is.
#[derive(Debug, PartialEq, Eq)]
pub enum ImageSource {
    /// An index into the document's assets.
    Asset(usize),
    External(String),
    Unavailable,
}

/// Content of a line.
#[derive(Debug)]
pub enum Inline {
    Text { text: String, style: Style },
    LineBreak,
    Link { content: Vec<Inline>, target: LinkTarget },
    Image { alt: String, source: ImageSource },
    /// A zero-width place that links can target.
    Anchor(AnchorId),
    /// A reference to the note of that id.
    NoteRef(String),
    Math(String),
    Checkbox(bool),
}

/// How list items are marked.
#[derive(Debug, Clone, Copy, PartialEq, Eq, Structural)]
pub enum MarkerKind {
    Bullet,
    Decimal,
    LowerAlpha,
    UpperAlpha,
    LowerRoman,
    UpperRoman,
}

/// A list whose items are numbered from `start` on.
#[derive(Debug)]
pub struct List {
    pub marker: MarkerKind,
    pub start: u64,
    pub items: Vec<ListItem>,
}

/// One item; a literal label stands in for the list's marker.
#[derive(Debug)]
pub struct ListItem {
    pub blocks: Vec<Block>,
    pub marker_label: Option<String>,
}

/// What a table is for.
#[derive(Debug, Clone, Copy, PartialEq, Eq, Structural)]
pub enum TableKind {
    Data,
    Layout,
}

/// A table as a grid of slots.
#[derive(Debug)]
pub struct Table {
    pub kind: TableKind,
    pub grid: Vec<Vec<CellSlot>>,
    /// How many rows at the top are headers.
    pub header_rows: usize,
}

/// One slot: where a cell starts, or where one started elsewhere reaches.
#[derive(Debug)]
pub enum CellSlot {
    Origin(Cell),
    Covered { origin_row: usize, origin_col: usize },
}

/// A cell and how far it reaches.
#[derive(Debug)]
pub struct Cell {
    pub blocks: Vec<Block>,
    pub col_span: u32,
    pub row_span: u32,
}

/// Content that stands on its own.
#[derive(Debug)]
pub enum Block {
    Paragraph(Vec<Inline>),
    Heading { level: u8, anchor: Option<AnchorId>, content: Vec<Inline> },
    List(List),
    BlockQuote(Vec<Block>),
    CodeBlock { lang: Option<String>, text: String },
    Math(String),
    Table(Table),
    Rule,
}

// ---------------------------------------------------------------------------
// Views

/// An [`Inline`] with its text spelled out.
pub enum InlineView {
    Text { text: Seq<char>, style: Style },
    LineBreak,
    Link { content: Seq<InlineView>, target: LinkTarget },
    Image { alt: Seq<char>, source: ImageSource },
    Anchor(Seq<char>),
    NoteRef(Seq<char>),
    Math(Seq<char>),
    Checkbox(bool),
}

/// A [`ListItem`] with its text spelled out.
pub struct ItemView {
    pub blocks: Seq<BlockView>,
    pub label: Option<Seq<char>>,
}

/// A [`Cell`] with its text spelled out.
pub struct CellView {
    pub blocks: Seq<BlockView>,
    pub col_span: u32,
    pub row_span: u32,
}

/// A [`CellSlot`] with its text spelled out.
pub enum SlotView {
    Origin(CellView),
    Covered { origin_row: usize, origin_col: usize },
}

/// A [`Table`] with its text spelled out.
pub struct TableView {
    pub kind: TableKind,
    pub grid: Seq<Seq<SlotView>>,
    pub header_rows: usize,
}

/// A [`Block`] with its text spelled out.
pub enum BlockView {
    Paragraph(Seq<InlineView>),
    Heading { level: u8, anchor: Option<Seq<char>>, content: Seq<InlineView> },
    List { marker: MarkerKind, start: u64, items: Seq<ItemView> },
    BlockQuote(Seq<BlockView>),
    CodeBlock { lang: Option<Seq<char>>, text: Seq<char> },
    Math(Seq<char>),
    Table(TableView),
    Rule,
}

/// An optional string as its text.
pub open spec fn text_of(s: Option<String>) -> Option<Seq<char>> {
    match s {
        Some(t) => Some(t@),
        None => None,
    }
}

pub open spec fn inline_view(i: Inline) -> InlineView
    decreases i,
{
    match i {
        Inline::Text { text, style } => InlineView::Text { text: text@, style },
        Inline::LineBreak => InlineView::LineBreak,
        Inline::Link { content, target } => InlineView::Link {
            content: inline_views(content@),
            target,
        },
        Inline::Image { alt, source } => InlineView::Image { alt: alt@, source },
        Inline::Anchor(id) => InlineView::Anchor(id@),
        Inline::NoteRef(id) => InlineView::NoteRef(id@),
        Inline::Math(tex) => InlineView::Math(tex@),
        Inline::Checkbox(b) => InlineView::Checkbox(b),
    }
}

pub open spec fn inline_views(s: Seq<Inline>) -> Seq<InlineView>
    decreases s,
{
    Seq::new(
        s.len(),
        |i: int|
            if 0 <= i < s.len() {
                inline_view(s[i])
            } else {
                arbitrary()
            },
    )
}

pub open spec fn block_view(b: Block) -> BlockView
    decreases b,
{
    match b {
        Block::Paragraph(content) => BlockView::Paragraph(inline_views(content@)),
        Block::Heading { level, anchor, content } => BlockView::Heading {
            level,
            anchor: text_of(anchor),
            content: inline_views(content@),
        },
        Block::List(list) => BlockView::List {
            marker: list.marker,
            start: list.start,
            items: item_views(list.items@),
        },
        Block::BlockQuote(blocks) => BlockView::BlockQuote(block_views(blocks@)),
        Block::CodeBlock { lang, text } => BlockView::CodeBlock {
            lang: text_of(lang),
            text: text@,
        },
        Block::Math(tex) => BlockView::Math(tex@),
        Block::Table(table) => BlockView::Table(
            TableView {
                kind: table.kind,
                grid: grid_view(table.grid@),
                header_rows: table.header_rows,
            },
        ),
        Block::Rule => BlockView::Rule,
    }
}

pub open spec fn block_views(s: Seq<Block>) -> Seq<BlockView>
    decreases s,
{
    Seq::new(
        s.len(),
        |i: int|
            if 0 <= i < s.len() {
                block_view(s[i])
            } else {
                arbitrary()
            },
    )
}

pub open spec fn item_view(item: ListItem) -> ItemView
    decreases item,
{
    ItemView { blocks: block_views(item.blocks@), label: text_of(item.marker_label) }
}

pub open spec fn item_views(s: Seq<ListItem>) -> Seq<ItemView>
    decreases s,
{
    Seq::new(
        s.len(),
        |i: int|
            if 0 <= i < s.len() {
                item_view(s[i])
            } else {
                arbitrary()
            },
    )
}

pub open spec fn cell_view(cell: Cell) -> CellView
    decreases cell,
{
    CellView {
        blocks: block_views(cell.blocks@),
        col_span: cell.col_span,
        row_span: cell.row_span,
    }
}

pub open spec fn slot_view(slot: CellSlot) -> SlotView
    decreases slot,
{
    match slot {
        CellSlot::Origin(cell) => SlotView::Origin(cell_view(cell)),
        CellSlot::Covered { origin_row, origin_col } => SlotView::Covered {
            origin_row,
            origin_col,
        },
    }
}

pub open spec fn row_view(s: Seq<CellSlot>) -> Seq<SlotView>
    decreases s,
{
    Seq::new(
        s.len(),
        |i: int|
            if 0 <= i < s.len() {
                slot_view(s[i])
            } else {
                arbitrary()
            },
    )
}

pub open spec fn grid_view(s: Seq<Vec<CellSlot>>) -> Seq<Seq<SlotView>>
    decreases s,
{
    Seq::new(
        s.len(),
        |i: int|
            if 0 <= i < s.len() {
                row_view(s[i]@)
            } else {
                arbitrary()
            },
    )
}

impl View for Inline {
    type V = InlineView;

    open spec fn view(&self) -> InlineView {
        inline_view(*self)
    }
}

impl View for Block {
    type V = BlockView;

    open spec fn view(&self) -> BlockView {
        block_view(*self)
    }
}

impl View for Table {
    type V = TableView;

    open spec fn view(&self) -> TableView {
        TableView { kind: self.kind, grid: grid_view(self.grid@), header_rows: self.header_rows }
    }
}

/// Views of a longer sequence are those of its parts.
pub proof fn lemma_inline_views_push(s: Seq<Inline>, i: Inline)
    ensures
        inline_views(s.push(i)) == inline_views(s).push(inline_view(i)),
{
    assert(inline_views(s.push(i)) =~= inline_views(s).push(inline_view(i)));
}

pub proof fn lemma_inline_views_add(s: Seq<Inline>, t: Seq<Inline>)
    ensures
        inline_views(s + t) == inline_views(s) + inline_views(t),
{
    assert(inline_views(s + t) =~= inline_views(s) + inline_views(t));
}

pub proof fn lemma_block_views_push(s: Seq<Block>, b: Block)
    ensures
        block_views(s.push(b)) == block_views(s).push(block_view(b)),
{
    assert(block_views(s.push(b)) =~= block_views(s).push(block_view(b)));
}

pub proof fn lemma_block_views_add(s: Seq<Block>, t: Seq<Block>)
    ensures
        block_views(s + t) == block_views(s) + block_views(t),
{
    assert(block_views(s + t) =~= block_views(s) + block_views(t));
}

} // verus!
