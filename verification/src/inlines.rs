//! What runs of inlines amount to: whether anything shows, the text they
//! spell, where white space collapses, and the emphasis they carry.

use crate::chars;
use crate::chars::{chars_of, collapse_ws, is_white_space, string_of};
use crate::model;
use crate::model::{
    Block, BlockView, CellSlot, Inline, InlineView, ItemView, ListItem, SlotView,
};
use crate::style::Style;
use vstd::prelude::*;

verus! {

// ---------------------------------------------------------------------------
// Emptiness

/// Whether text is white space only.
pub open spec fn blank(text: Seq<char>) -> bool {
    forall|i: int| 0 <= i < text.len() ==> chars::white_space(#[trigger] text[i])
}

/// Whether an inline shows nothing by itself. A link always shows: with an
/// empty label its target does.
pub open spec fn shows_nothing(i: InlineView) -> bool {
    match i {
        InlineView::Text { text, .. } => blank(text),
        InlineView::LineBreak => true,
        InlineView::Anchor(_) => true,
        _ => false,
    }
}

/// Whether inlines show nothing.
pub open spec fn all_empty(s: Seq<InlineView>) -> bool {
    forall|i: int| 0 <= i < s.len() ==> shows_nothing(#[trigger] s[i])
}

/// Whether some inline is an anchor.
pub open spec fn has_anchor(s: Seq<InlineView>) -> bool {
    exists|i: int| 0 <= i < s.len() && (#[trigger] s[i]) is Anchor
}

/// Content worth keeping: something that shows, or an anchor some link may
/// target.
pub open spec fn worth_keeping(s: Seq<InlineView>) -> bool {
    !all_empty(s) || has_anchor(s)
}

/// Whether text is white space only.
pub fn is_blank(text: &[char]) -> (r: bool)
    ensures
        r == blank(text@),
{
    let mut i: usize = 0;
    while i < text.len()
        invariant
            i <= text@.len(),
            forall|j: int| 0 <= j < i ==> chars::white_space(#[trigger] text@[j]),
        decreases text@.len() - i,
    {
        if !is_white_space(text[i]) {
            assert(!chars::white_space(text@[i as int]));
            return false;
        }
        i += 1;
    }
    true
}

/// Whether a string is white space only.
pub fn is_blank_str(text: &str) -> (r: bool)
    ensures
        r == blank(text@),
{
    let t: Vec<char> = chars_of(text);
    is_blank(&t)
}

/// Whether inlines show nothing.
pub fn inlines_are_empty(inlines: &Vec<Inline>) -> (r: bool)
    ensures
        r == all_empty(model::inline_views(inlines@)),
{
    let ghost v = model::inline_views(inlines@);
    let mut i: usize = 0;
    while i < inlines.len()
        invariant
            v == model::inline_views(inlines@),
            i <= inlines@.len(),
            forall|j: int| 0 <= j < i ==> shows_nothing(#[trigger] v[j]),
        decreases inlines@.len() - i,
    {
        assert(v[i as int] == model::inline_view(inlines@[i as int]));
        let nothing: bool = match &inlines[i] {
            Inline::Text { text, .. } => is_blank_str(text.as_str()),
            Inline::LineBreak => true,
            Inline::Anchor(_) => true,
            _ => false,
        };
        if !nothing {
            return false;
        }
        i += 1;
    }
    true
}

/// Content worth keeping: something that shows, or an anchor some link may
/// target (unreferenced anchors are dropped when rendering).
pub fn keeps_paragraph(inlines: &Vec<Inline>) -> (r: bool)
    ensures
        r == worth_keeping(model::inline_views(inlines@)),
{
    if !inlines_are_empty(inlines) {
        return true;
    }
    let ghost v = model::inline_views(inlines@);
    let mut i: usize = 0;
    while i < inlines.len()
        invariant
            v == model::inline_views(inlines@),
            all_empty(v),
            i <= inlines@.len(),
            forall|j: int| 0 <= j < i ==> !((#[trigger] v[j]) is Anchor),
        decreases inlines@.len() - i,
    {
        assert(v[i as int] == model::inline_view(inlines@[i as int]));
        if let Inline::Anchor(_) = &inlines[i] {
            assert(v[i as int] is Anchor);
            return true;
        }
        i += 1;
    }
    false
}

// ---------------------------------------------------------------------------
// White space

/// Whether text appended after `s` sits at a white-space boundary (its
/// leading spaces collapse away): at a block start, after emitted white space
/// or a line break, looking through zero-width anchors and empty labels.
pub open spec fn at_boundary(s: Seq<InlineView>, start: bool) -> bool
    decreases s,
{
    if s.len() == 0 {
        start
    } else {
        match s.last() {
            InlineView::Anchor(_) => at_boundary(s.drop_last(), start),
            InlineView::Text { text, .. } => if text.len() == 0 {
                at_boundary(s.drop_last(), start)
            } else {
                chars::white_space(text.last())
            },
            InlineView::LineBreak => true,
            InlineView::Link { content, .. } => if all_empty(content) {
                at_boundary(s.drop_last(), start)
            } else {
                at_boundary(content, false)
            },
            _ => false,
        }
    }
}

/// Whether text appended after `inlines` sits at a white-space boundary.
pub fn at_space_boundary(inlines: &Vec<Inline>, start: bool) -> (r: bool)
    ensures
        r == at_boundary(model::inline_views(inlines@), start),
    decreases inlines,
{
    let ghost v = model::inline_views(inlines@);
    let mut n: usize = inlines.len();
    assert(v.take(n as int) =~= v);
    while n > 0
        invariant
            v == model::inline_views(inlines@),
            n <= inlines@.len(),
            at_boundary(v.take(n as int), start) == at_boundary(v, start),
        decreases n,
    {
        proof {
            assert(v.take(n as int).drop_last() =~= v.take(n - 1));
            assert(v.take(n as int).last() == model::inline_view(inlines@[n - 1]));
            assert(decreases_to!(*inlines => inlines@[n - 1]));
        }
        match &inlines[n - 1] {
            Inline::Anchor(_) => {},
            Inline::Text { text, .. } => {
                let t: Vec<char> = chars_of(text.as_str());
                if t.len() > 0 {
                    return is_white_space(t[t.len() - 1]);
                }
            },
            Inline::LineBreak => {
                return true;
            },
            Inline::Link { content, .. } => {
                if !inlines_are_empty(content) {
                    return at_space_boundary(content, false);
                }
            },
            _ => {
                return false;
            },
        }
        n -= 1;
    }
    start
}

// ---------------------------------------------------------------------------
// Text

/// The text that inlines spell: a line break as a space, an image as its
/// alternative text, mathematics as its source.
pub open spec fn plain(s: Seq<InlineView>) -> Seq<char>
    decreases s,
{
    if s.len() == 0 {
        Seq::empty()
    } else {
        plain(s.drop_last()) + match s.last() {
            InlineView::Text { text, .. } => text,
            InlineView::LineBreak => seq![' '],
            InlineView::Link { content, .. } => plain(content),
            InlineView::Image { alt, .. } => alt,
            InlineView::Math(tex) => tex,
            _ => Seq::empty(),
        }
    }
}

/// Parts with one space between each and the next.
pub open spec fn joined(parts: Seq<Seq<char>>) -> Seq<char>
    decreases parts.len(),
{
    if parts.len() == 0 {
        Seq::empty()
    } else if parts.len() == 1 {
        parts[0]
    } else {
        joined(parts.drop_last()) + seq![' '] + parts.last()
    }
}

/// The text of each block.
pub open spec fn texts(blocks: Seq<BlockView>) -> Seq<Seq<char>>
    decreases blocks,
{
    if blocks.len() == 0 {
        Seq::empty()
    } else {
        texts(blocks.drop_last()).push(text(blocks.last()))
    }
}

/// The text of each block of each item.
pub open spec fn item_texts(items: Seq<ItemView>) -> Seq<Seq<char>>
    decreases items,
{
    if items.len() == 0 {
        Seq::empty()
    } else {
        item_texts(items.drop_last()) + texts(items.last().blocks)
    }
}

/// The text of each cell of a row.
pub open spec fn row_texts(row: Seq<SlotView>) -> Seq<Seq<char>>
    decreases row,
{
    if row.len() == 0 {
        Seq::empty()
    } else {
        match row.last() {
            SlotView::Origin(cell) => row_texts(row.drop_last()).push(joined(texts(cell.blocks))),
            SlotView::Covered { .. } => row_texts(row.drop_last()),
        }
    }
}

/// The text of each cell, row by row.
pub open spec fn grid_texts(grid: Seq<Seq<SlotView>>) -> Seq<Seq<char>>
    decreases grid,
{
    if grid.len() == 0 {
        Seq::empty()
    } else {
        grid_texts(grid.drop_last()) + row_texts(grid.last())
    }
}

/// The text of a block, that of its parts with a space between them.
pub open spec fn text(block: BlockView) -> Seq<char>
    decreases block,
{
    match block {
        BlockView::Paragraph(content) => plain(content),
        BlockView::Heading { content, .. } => plain(content),
        BlockView::List { items, .. } => joined(item_texts(items)),
        BlockView::BlockQuote(blocks) => joined(texts(blocks)),
        BlockView::CodeBlock { text, .. } => text,
        BlockView::Math(tex) => tex,
        BlockView::Table(table) => joined(grid_texts(table.grid)),
        BlockView::Rule => Seq::empty(),
    }
}

/// Parts of text, as their characters.
spec fn parts_view(parts: Seq<Vec<char>>) -> Seq<Seq<char>> {
    Seq::new(parts.len(), |i: int| parts[i]@)
}

fn collect_plain(inlines: &Vec<Inline>, out: &mut Vec<char>)
    ensures
        final(out)@ == old(out)@ + plain(model::inline_views(inlines@)),
    decreases inlines,
{
    let ghost v = model::inline_views(inlines@);
    let ghost was = out@;
    let mut i: usize = 0;
    assert(out@ =~= was + plain(v.take(0)));
    while i < inlines.len()
        invariant
            v == model::inline_views(inlines@),
            i <= inlines@.len(),
            out@ == was + plain(v.take(i as int)),
        decreases inlines@.len() - i,
    {
        proof {
            assert(v.take(i + 1).drop_last() =~= v.take(i as int));
            assert(v.take(i + 1).last() == model::inline_view(inlines@[i as int]));
            assert(decreases_to!(*inlines => inlines@[i as int]));
        }
        match &inlines[i] {
            Inline::Text { text, .. } => {
                let mut t: Vec<char> = chars_of(text.as_str());
                out.append(&mut t);
            },
            Inline::LineBreak => {
                out.push(' ');
            },
            Inline::Link { content, .. } => {
                collect_plain(content, out);
            },
            Inline::Image { alt, .. } => {
                let mut t: Vec<char> = chars_of(alt.as_str());
                out.append(&mut t);
            },
            Inline::Math(tex) => {
                let mut t: Vec<char> = chars_of(tex.as_str());
                out.append(&mut t);
            },
            _ => {},
        }
        i += 1;
        assert(out@ =~= was + plain(v.take(i as int)));
    }
    assert(v.take(i as int) =~= v);
}

/// The text that inlines spell.
pub fn inlines_to_plain_text(inlines: &Vec<Inline>) -> (r: String)
    ensures
        r@ == plain(model::inline_views(inlines@)),
{
    let mut out: Vec<char> = Vec::new();
    collect_plain(inlines, &mut out);
    assert(out@ =~= plain(model::inline_views(inlines@)));
    string_of(&out)
}

fn join(parts: &Vec<Vec<char>>) -> (r: Vec<char>)
    ensures
        r@ == joined(parts_view(parts@)),
{
    let ghost v = parts_view(parts@);
    let mut out: Vec<char> = Vec::new();
    let mut i: usize = 0;
    while i < parts.len()
        invariant
            v == parts_view(parts@),
            i <= parts@.len(),
            out@ == joined(v.take(i as int)),
        decreases parts@.len() - i,
    {
        assert(v.take(i + 1).drop_last() =~= v.take(i as int));
        if i > 0 {
            out.push(' ');
        }
        let mut part: Vec<char> = vstd::slice::slice_to_vec(parts[i].as_slice());
        out.append(&mut part);
        i += 1;
        assert(out@ =~= joined(v.take(i as int)));
    }
    assert(v.take(i as int) =~= v);
    out
}

fn collect_texts(blocks: &Vec<Block>, out: &mut Vec<Vec<char>>)
    ensures
        parts_view(final(out)@) == parts_view(old(out)@) + texts(model::block_views(blocks@)),
    decreases blocks,
{
    let ghost v = model::block_views(blocks@);
    let ghost was = parts_view(out@);
    let mut i: usize = 0;
    assert(parts_view(out@) =~= was + texts(v.take(0)));
    while i < blocks.len()
        invariant
            v == model::block_views(blocks@),
            i <= blocks@.len(),
            parts_view(out@) == was + texts(v.take(i as int)),
        decreases blocks@.len() - i,
    {
        proof {
            assert(v.take(i + 1).drop_last() =~= v.take(i as int));
            assert(v.take(i + 1).last() == model::block_view(blocks@[i as int]));
            assert(decreases_to!(*blocks => blocks@[i as int]));
        }
        let ghost before = out@;
        out.push(block_chars(&blocks[i]));
        assert(parts_view(out@) =~= parts_view(before).push(out@.last()@));
        i += 1;
        assert(parts_view(out@) =~= was + texts(v.take(i as int)));
    }
    assert(v.take(i as int) =~= v);
}

fn collect_item_texts(items: &Vec<ListItem>) -> (r: Vec<Vec<char>>)
    ensures
        parts_view(r@) == item_texts(model::item_views(items@)),
    decreases items,
{
    let ghost v = model::item_views(items@);
    let mut out: Vec<Vec<char>> = Vec::new();
    let mut i: usize = 0;
    assert(parts_view(out@) =~= item_texts(v.take(0)));
    while i < items.len()
        invariant
            v == model::item_views(items@),
            i <= items@.len(),
            parts_view(out@) == item_texts(v.take(i as int)),
        decreases items@.len() - i,
    {
        proof {
            assert(v.take(i + 1).drop_last() =~= v.take(i as int));
            assert(v.take(i + 1).last() == model::item_view(items@[i as int]));
            assert(decreases_to!(*items => items@[i as int]));
        }
        collect_texts(&items[i].blocks, &mut out);
        i += 1;
    }
    assert(v.take(i as int) =~= v);
    out
}

fn collect_row_texts(row: &Vec<CellSlot>, out: &mut Vec<Vec<char>>)
    ensures
        parts_view(final(out)@) == parts_view(old(out)@) + row_texts(model::row_view(row@)),
    decreases row,
{
    let ghost v = model::row_view(row@);
    let ghost was = parts_view(out@);
    let mut i: usize = 0;
    assert(parts_view(out@) =~= was + row_texts(v.take(0)));
    while i < row.len()
        invariant
            v == model::row_view(row@),
            i <= row@.len(),
            parts_view(out@) == was + row_texts(v.take(i as int)),
        decreases row@.len() - i,
    {
        proof {
            assert(v.take(i + 1).drop_last() =~= v.take(i as int));
            assert(v.take(i + 1).last() == model::slot_view(row@[i as int]));
            assert(decreases_to!(*row => row@[i as int]));
        }
        if let CellSlot::Origin(cell) = &row[i] {
            let mut parts: Vec<Vec<char>> = Vec::new();
            collect_texts(&cell.blocks, &mut parts);
            assert(parts_view(parts@) =~= texts(model::block_views(cell.blocks@)));
            let ghost before = out@;
            out.push(join(&parts));
            assert(parts_view(out@) =~= parts_view(before).push(out@.last()@));
        }
        i += 1;
        assert(parts_view(out@) =~= was + row_texts(v.take(i as int)));
    }
    assert(v.take(i as int) =~= v);
}

fn collect_grid_texts(grid: &Vec<Vec<CellSlot>>) -> (r: Vec<Vec<char>>)
    ensures
        parts_view(r@) == grid_texts(model::grid_view(grid@)),
    decreases grid,
{
    let ghost v = model::grid_view(grid@);
    let mut out: Vec<Vec<char>> = Vec::new();
    let mut i: usize = 0;
    assert(parts_view(out@) =~= grid_texts(v.take(0)));
    while i < grid.len()
        invariant
            v == model::grid_view(grid@),
            i <= grid@.len(),
            parts_view(out@) == grid_texts(v.take(i as int)),
        decreases grid@.len() - i,
    {
        proof {
            assert(v.take(i + 1).drop_last() =~= v.take(i as int));
            assert(v.take(i + 1).last() == model::row_view(grid@[i as int]@));
            assert(decreases_to!(*grid => grid@[i as int]));
        }
        collect_row_texts(&grid[i], &mut out);
        i += 1;
    }
    assert(v.take(i as int) =~= v);
    out
}

/// The text of a block, that of its parts with a space between them.
pub fn block_text(block: &Block) -> (r: String)
    ensures
        r@ == text(block@),
{
    string_of(&block_chars(block))
}

fn block_chars(block: &Block) -> (r: Vec<char>)
    ensures
        r@ == text(block@),
    decreases block,
{
    match block {
        Block::Paragraph(content) => {
            let mut out: Vec<char> = Vec::new();
            collect_plain(content, &mut out);
            assert(out@ =~= plain(model::inline_views(content@)));
            out
        },
        Block::Heading { content, .. } => {
            let mut out: Vec<char> = Vec::new();
            collect_plain(content, &mut out);
            assert(out@ =~= plain(model::inline_views(content@)));
            out
        },
        Block::List(list) => join(&collect_item_texts(&list.items)),
        Block::BlockQuote(blocks) => {
            let mut parts: Vec<Vec<char>> = Vec::new();
            collect_texts(blocks, &mut parts);
            assert(parts_view(parts@) =~= texts(model::block_views(blocks@)));
            join(&parts)
        },
        Block::CodeBlock { text, .. } => chars_of(text.as_str()),
        Block::Math(tex) => chars_of(tex.as_str()),
        Block::Table(table) => join(&collect_grid_texts(&table.grid)),
        Block::Rule => Vec::new(),
    }
}

// ---------------------------------------------------------------------------
// Emphasis

/// Inlines without the styling that `base` already has.
pub open spec fn rebased(s: Seq<InlineView>, base: Style) -> Seq<InlineView>
    decreases s,
{
    if s.len() == 0 {
        s
    } else {
        rebased(s.drop_last(), base).push(
            match s.last() {
                InlineView::Text { text, style } => InlineView::Text {
                    text,
                    style: style.beyond(base),
                },
                InlineView::Link { content, target } => InlineView::Link {
                    content: rebased(content, base),
                    target,
                },
                other => other,
            },
        )
    }
}

/// Inlines without the styling that `base` already has: what a run adds
/// beyond it stays.
pub fn rebase_emphasis(inlines: Vec<Inline>, base: Style) -> (r: Vec<Inline>)
    ensures
        model::inline_views(r@) == rebased(model::inline_views(inlines@), base),
    decreases inlines,
{
    let ghost v = model::inline_views(inlines@);
    let ghost all = inlines;
    let mut out: Vec<Inline> = Vec::new();
    assert(model::inline_views(out@) =~= rebased(v.take(0), base));
    for inline in it: inlines
        invariant
            it.seq() == all@,
            v == model::inline_views(all@),
            model::inline_views(out@) == rebased(v.take(it.index() as int), base),
    {
        let ghost i = it.index() as int;
        proof {
            assert(v.take(i + 1).drop_last() =~= v.take(i));
            assert(v.take(i + 1).last() == model::inline_view(inline));
            assert(decreases_to!(all => all@[i]));
        }
        let next: Inline = match inline {
            Inline::Text { text, style } => Inline::Text { text, style: style.without(base) },
            Inline::Link { content, target } => Inline::Link {
                content: rebase_emphasis(content, base),
                target,
            },
            other => other,
        };
        proof {
            model::lemma_inline_views_push(out@, next);
        }
        out.push(next);
    }
    assert(v.take(v.len() as int) =~= v);
    out
}

// ---------------------------------------------------------------------------
// Blocks as one line

/// What a block contributes to a line.
pub open spec fn line_of(block: BlockView) -> Seq<InlineView> {
    match block {
        BlockView::Paragraph(content) => content,
        BlockView::Heading { content, .. } => content,
        _ => seq![InlineView::Text { text: chars::collapse(text(block)), style: Style::none() }],
    }
}

/// Blocks as one line, with a line break between any two.
pub open spec fn flattened(blocks: Seq<BlockView>) -> Seq<InlineView>
    decreases blocks.len(),
{
    if blocks.len() == 0 {
        Seq::empty()
    } else if blocks.len() == 1 {
        line_of(blocks.last())
    } else {
        flattened(blocks.drop_last()).push(InlineView::LineBreak) + line_of(blocks.last())
    }
}

/// Blocks as one line, with a line break between any two.
pub fn flatten(blocks: Vec<Block>) -> (r: Vec<Inline>)
    ensures
        model::inline_views(r@) == flattened(model::block_views(blocks@)),
{
    let ghost given = blocks@;
    let ghost all = model::block_views(given);
    let mut out: Vec<Inline> = Vec::new();
    assert(model::inline_views(out@) =~= flattened(all.take(0)));
    let mut first: bool = true;
    for block in it: blocks
        invariant
            it.seq() == given,
            all == model::block_views(given),
            first == (it.index() == 0),
            model::inline_views(out@) == flattened(all.take(it.index() as int)),
    {
        let ghost i = it.index() as int;
        let ghost before = flattened(all.take(i));
        proof {
            assert(all[i] == model::block_view(block));
            assert(all.take(i + 1).drop_last() =~= all.take(i));
            assert(all.take(i + 1).last() == all[i]);
        }
        let ghost bv = model::block_view(block);
        if !first {
            proof {
                model::lemma_inline_views_push(out@, Inline::LineBreak);
            }
            out.push(Inline::LineBreak);
        }
        first = false;
        let ghost joint = model::inline_views(out@);
        assert(joint == if i == 0 {
            before
        } else {
            before.push(InlineView::LineBreak)
        });
        let mut line: Vec<Inline> = match block {
            Block::Paragraph(content) => content,
            Block::Heading { content, .. } => content,
            other => {
                let t: Vec<char> = block_chars(&other);
                let text = Inline::Text {
                    text: string_of(&collapse_ws(&t)),
                    style: Style::plain(),
                };
                let mut one: Vec<Inline> = Vec::new();
                one.push(text);
                assert(model::inline_views(one@) =~= line_of(bv));
                one
            },
        };
        proof {
            model::lemma_inline_views_add(out@, line@);
        }
        out.append(&mut line);
        assert(model::inline_views(out@) =~= flattened(all.take(i + 1)));
    }
    assert(all.take(given.len() as int) =~= all);
    out
}

} // verus!
