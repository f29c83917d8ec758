//! What lines promise: what shows, where white space ends, which text inlines
//! and blocks spell, and how blocks become one line.

use crate::chars;
use crate::inlines;
use crate::laws;
use crate::laws::cascade::Property;
use crate::model::{BlockView, InlineView, SlotView};
use crate::style::Style;
use vstd::prelude::*;

verus! {

// ---------------------------------------------------------------------------
// What shows

/// Whether text has a character other than white space.
pub open spec fn has_ink(s: Seq<char>) -> bool {
    exists|i: int| 0 <= i < s.len() && !chars::white_space(#[trigger] s[i])
}

/// Whether an inline is worth a line: text with something to see in it, a
/// target of links, or anything that shows by itself. A line break is not.
pub open spec fn worth_a_line(i: InlineView) -> bool {
    match i {
        InlineView::Text { text, .. } => has_ink(text),
        InlineView::LineBreak => false,
        InlineView::Link { .. } => true,
        InlineView::Image { .. } => true,
        InlineView::Anchor(_) => true,
        InlineView::NoteRef(_) => true,
        InlineView::Math(_) => true,
        InlineView::Checkbox(_) => true,
    }
}

/// A line is kept exactly if one of its inlines is worth it.
pub proof fn law_lines_worth_keeping(s: Seq<InlineView>)
    ensures
        inlines::worth_keeping(s) <==> exists|i: int|
            0 <= i < s.len() && worth_a_line(#[trigger] s[i]),
{
    if inlines::worth_keeping(s) {
        if inlines::has_anchor(s) {
            let i = choose|i: int| 0 <= i < s.len() && (#[trigger] s[i]) is Anchor;
            assert(worth_a_line(s[i]));
        } else {
            let i = choose|i: int| 0 <= i < s.len() && !inlines::shows_nothing(#[trigger] s[i]);
            assert(worth_a_line(s[i]));
        }
    }
    if exists|i: int| 0 <= i < s.len() && worth_a_line(#[trigger] s[i]) {
        let i = choose|i: int| 0 <= i < s.len() && worth_a_line(#[trigger] s[i]);
        if s[i] is Anchor {
            assert(inlines::has_anchor(s));
        } else {
            assert(!inlines::shows_nothing(s[i]));
        }
    }
}

/// A line shows nothing exactly if none of its inlines shows anything: anchors,
/// line breaks and white space do not.
pub proof fn law_empty_lines(s: Seq<InlineView>)
    ensures
        inlines::all_empty(s) <==> forall|i: int|
            0 <= i < s.len() ==> (#[trigger] s[i] is Anchor || !worth_a_line(s[i])),
{
    if inlines::all_empty(s) {
        assert forall|i: int| 0 <= i < s.len() implies (#[trigger] s[i] is Anchor
            || !worth_a_line(s[i])) by {
            assert(inlines::shows_nothing(s[i]));
        }
    }
    if forall|i: int| 0 <= i < s.len() ==> (#[trigger] s[i] is Anchor || !worth_a_line(s[i])) {
        assert forall|i: int| 0 <= i < s.len() implies inlines::shows_nothing(#[trigger] s[i]) by {
            assert(s[i] is Anchor || !worth_a_line(s[i]));
        }
    }
}

// ---------------------------------------------------------------------------
// Where white space ends

/// Whether further text sits at a boundary is decided by what stands last: text
/// by its last character, a line break always, a link by what its label ends
/// with. Anchors and whatever is empty are looked through, back to the start.
pub proof fn law_boundaries(s: Seq<InlineView>, i: InlineView, start: bool)
    ensures
        inlines::at_boundary(Seq::empty(), start) == start,
        match i {
            InlineView::Anchor(_) => inlines::at_boundary(s.push(i), start)
                == inlines::at_boundary(s, start),
            InlineView::Text { text, .. } => if text.len() == 0 {
                inlines::at_boundary(s.push(i), start) == inlines::at_boundary(s, start)
            } else {
                inlines::at_boundary(s.push(i), start) == chars::white_space(text.last())
            },
            InlineView::LineBreak => inlines::at_boundary(s.push(i), start),
            InlineView::Link { content, .. } => if inlines::all_empty(content) {
                inlines::at_boundary(s.push(i), start) == inlines::at_boundary(s, start)
            } else {
                inlines::at_boundary(s.push(i), start) == inlines::at_boundary(content, false)
            },
            InlineView::Image { .. }
            | InlineView::NoteRef(_)
            | InlineView::Math(_)
            | InlineView::Checkbox(_) => !inlines::at_boundary(s.push(i), start),
        },
{
    assert(s.push(i).drop_last() =~= s);
}

// ---------------------------------------------------------------------------
// Text

/// The text of inlines is that of each, one after the other: of text itself, of
/// a link its label, of an image what stands in for it, of a formula its
/// source, of a line break a space, and of anything else none.
pub proof fn law_text_of_inlines(s: Seq<InlineView>, i: InlineView)
    ensures
        inlines::plain(Seq::empty()) == Seq::<char>::empty(),
        inlines::plain(s.push(i)) == inlines::plain(s) + inlines::plain(seq![i]),
        inlines::plain(seq![i]) == match i {
            InlineView::Text { text, .. } => text,
            InlineView::LineBreak => seq![' '],
            InlineView::Link { content, .. } => inlines::plain(content),
            InlineView::Image { alt, .. } => alt,
            InlineView::Math(tex) => tex,
            InlineView::Anchor(_)
            | InlineView::NoteRef(_)
            | InlineView::Checkbox(_) => Seq::empty(),
        },
{
    assert(s.push(i).drop_last() =~= s);
    assert(seq![i].drop_last() =~= Seq::<InlineView>::empty());
    assert(inlines::plain(Seq::empty()) =~= Seq::<char>::empty());
    let own = match i {
        InlineView::Text { text, .. } => text,
        InlineView::LineBreak => seq![' '],
        InlineView::Link { content, .. } => inlines::plain(content),
        InlineView::Image { alt, .. } => alt,
        InlineView::Math(tex) => tex,
        InlineView::Anchor(_) | InlineView::NoteRef(_) | InlineView::Checkbox(_) => Seq::empty(),
    };
    assert(inlines::plain(seq![i].drop_last()) + own =~= own);
    assert(seq![i].last() == i);
}

/// Joined parts have one space between each and the next, and nothing else
/// added.
pub proof fn law_joined_parts(parts: Seq<Seq<char>>, p: Seq<char>)
    ensures
        inlines::joined(Seq::empty()) == Seq::<char>::empty(),
        inlines::joined(seq![p]) == p,
        parts.len() > 0 ==> inlines::joined(parts.push(p)) == inlines::joined(parts).push(' ') + p,
{
    let more = parts.push(p);
    assert(more.drop_last() =~= parts);
    assert(more.last() == p);
    assert(inlines::joined(parts) + seq![' '] =~= inlines::joined(parts).push(' '));
}

/// The words of joined parts are the words of the parts.
pub proof fn law_words_of_joined_parts(parts: Seq<Seq<char>>, p: Seq<char>)
    requires
        parts.len() > 0,
    ensures
        chars::words(inlines::joined(parts.push(p))) == chars::words(inlines::joined(parts))
            + chars::words(p),
{
    law_joined_parts(parts, p);
    laws::words::law_white_space_separates_words(inlines::joined(parts), ' ', p);
}

/// The text of a block: of a paragraph or a heading its line, of code and
/// formulas themselves, and otherwise that of all it holds, joined.
pub proof fn law_text_of_blocks(b: BlockView)
    ensures
        match b {
            BlockView::Paragraph(content) => inlines::text(b) == inlines::plain(content),
            BlockView::Heading { content, .. } => inlines::text(b) == inlines::plain(content),
            BlockView::List { items, .. } => inlines::text(b) == inlines::joined(
                inlines::item_texts(items),
            ),
            BlockView::BlockQuote(blocks) => inlines::text(b) == inlines::joined(
                inlines::texts(blocks),
            ),
            BlockView::CodeBlock { text, .. } => inlines::text(b) == text,
            BlockView::Math(tex) => inlines::text(b) == tex,
            BlockView::Table(table) => inlines::text(b) == inlines::joined(
                inlines::grid_texts(table.grid),
            ),
            BlockView::Rule => inlines::text(b).len() == 0,
        },
{
}

/// The texts that are joined: one for each block; those of each item's blocks;
/// one for each cell, its blocks joined, and none for a slot that a cell only
/// reaches over.
pub proof fn law_texts_of_parts(
    blocks: Seq<BlockView>,
    b: BlockView,
    items: Seq<crate::model::ItemView>,
    i: crate::model::ItemView,
    row: Seq<SlotView>,
    s: SlotView,
    grid: Seq<Seq<SlotView>>,
    r: Seq<SlotView>,
)
    ensures
        inlines::texts(Seq::empty()).len() == 0,
        inlines::texts(blocks.push(b)) == inlines::texts(blocks).push(inlines::text(b)),
        inlines::item_texts(Seq::empty()).len() == 0,
        inlines::item_texts(items.push(i)) == inlines::item_texts(items) + inlines::texts(
            i.blocks,
        ),
        inlines::row_texts(Seq::empty()).len() == 0,
        inlines::row_texts(row.push(s)) == match s {
            SlotView::Origin(cell) => inlines::row_texts(row).push(
                inlines::joined(inlines::texts(cell.blocks)),
            ),
            SlotView::Covered { .. } => inlines::row_texts(row),
        },
        inlines::grid_texts(Seq::empty()).len() == 0,
        inlines::grid_texts(grid.push(r)) == inlines::grid_texts(grid) + inlines::row_texts(r),
{
    assert(blocks.push(b).drop_last() =~= blocks);
    assert(items.push(i).drop_last() =~= items);
    assert(row.push(s).drop_last() =~= row);
    assert(grid.push(r).drop_last() =~= grid);
}

// ---------------------------------------------------------------------------
// Blocks as one line

/// Blocks become one line with a line break between each and the next. A
/// paragraph or a heading gives its own line, anything else its text, in single
/// spaces and without styling.
pub proof fn law_blocks_become_one_line(blocks: Seq<BlockView>, b: BlockView)
    ensures
        inlines::flattened(Seq::empty()).len() == 0,
        blocks.len() > 0 ==> inlines::flattened(blocks.push(b)) == inlines::flattened(blocks).push(
            InlineView::LineBreak,
        ) + inlines::flattened(seq![b]),
        inlines::flattened(seq![b]) == match b {
            BlockView::Paragraph(content) => content,
            BlockView::Heading { content, .. } => content,
            _ => seq![
                InlineView::Text {
                    text: chars::collapse(inlines::text(b)),
                    style: Style { bold: false, italic: false, strike: false, code: false },
                },
            ],
        },
{
    assert(blocks.push(b).drop_last() =~= blocks);
    assert(blocks.push(b).last() == b);
    assert(seq![b].last() == b);
}

// ---------------------------------------------------------------------------
// Styling

/// What styling has beyond another is what it shows and the other does not.
pub proof fn law_styling_beyond(s: Style, base: Style, p: Property)
    requires
        p is Bold || p is Italic || p is Strike || p is Code,
    ensures
        laws::style::shows(s.beyond(base), p) == (laws::style::shows(s, p) && !laws::style::shows(
            base,
            p,
        )),
{
}

/// Taking styling away changes text in its styling alone, and a link in its
/// label alone; everything else stays, each in its place.
pub proof fn law_rebasing_changes_styling_alone(s: Seq<InlineView>, base: Style, k: int)
    requires
        0 <= k < s.len(),
    ensures
        inlines::rebased(s, base).len() == s.len(),
        match s[k] {
            InlineView::Text { text, style } => inlines::rebased(s, base)[k] == (InlineView::Text {
                text,
                style: style.beyond(base),
            }),
            InlineView::Link { content, target } => inlines::rebased(s, base)[k] == (
            InlineView::Link { content: inlines::rebased(content, base), target }),
            _ => inlines::rebased(s, base)[k] == s[k],
        },
    decreases s.len(),
{
    let rest = s.drop_last();
    lemma_rebased_len(s, base);
    lemma_rebased_len(rest, base);
    if k < rest.len() {
        law_rebasing_changes_styling_alone(rest, base, k);
        assert(inlines::rebased(s, base)[k] == inlines::rebased(rest, base)[k]);
    }
}

proof fn lemma_rebased_len(s: Seq<InlineView>, base: Style)
    ensures
        inlines::rebased(s, base).len() == s.len(),
    decreases s.len(),
{
    if s.len() > 0 {
        lemma_rebased_len(s.drop_last(), base);
    }
}

} // verus!
