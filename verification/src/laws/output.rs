//! What comes out of a conversion: blocks that hold something, at any depth,
//! and block elements that do not depend on what stands before them.

use crate::cascade;
use crate::css::RuleText;
use crate::grid;
use crate::grid::Grid;
use crate::hooks::Call;
use crate::html;
use crate::inlines;
use crate::laws;
use crate::lists;
use crate::lists::{KeptView, ListStyle};
use crate::model;
use crate::model::{Block, BlockView, CellView, InlineView, ItemView, SlotView};
use crate::rows;
use crate::rows::{Part, RowAt};
use crate::tags;
use crate::tags::{ElemKind, Inherited};
use crate::walk;
use crate::walk::{Cells, Run, Stopped};
use crate::xml::Element;
use vstd::prelude::*;

verus! {

// ---------------------------------------------------------------------------
// Nothing empty

/// Whether a block, and every block in it, holds something: a paragraph shows
/// something or has an anchor, a heading shows something at a level from one
/// to six, a quotation has blocks, a list items, a table rows, and code and
/// formulas have text.
pub open spec fn sound(b: BlockView) -> bool
    decreases b,
{
    match b {
        BlockView::Paragraph(content) => inlines::worth_keeping(content),
        BlockView::Heading { level, content, .. } => 1 <= level <= 6 && !inlines::all_empty(
            content,
        ),
        BlockView::List { items, .. } => items.len() > 0 && sound_items(items),
        BlockView::BlockQuote(blocks) => blocks.len() > 0 && sound_all(blocks),
        BlockView::CodeBlock { text, .. } => !inlines::blank(text),
        BlockView::Math(tex) => tex.len() > 0,
        BlockView::Table(table) => table.grid.len() > 0 && sound_grid(table.grid),
        BlockView::Rule => true,
    }
}

/// The same of all of several blocks, ...
pub open spec fn sound_all(s: Seq<BlockView>) -> bool
    decreases s,
{
    s.len() == 0 || (sound_all(s.drop_last()) && sound(s.last()))
}

/// ... of the blocks in list items, ...
pub open spec fn sound_items(s: Seq<ItemView>) -> bool
    decreases s,
{
    s.len() == 0 || (sound_items(s.drop_last()) && sound_all(s.last().blocks))
}

/// ... of those in a cell, ...
pub open spec fn sound_slot(slot: SlotView) -> bool
    decreases slot,
{
    match slot {
        SlotView::Origin(cell) => sound_all(cell.blocks),
        SlotView::Covered { .. } => true,
    }
}

/// ... in the cells of a row, ...
pub open spec fn sound_row(s: Seq<SlotView>) -> bool
    decreases s,
{
    s.len() == 0 || (sound_row(s.drop_last()) && sound_slot(s.last()))
}

/// ... and in those of a table.
pub open spec fn sound_grid(s: Seq<Seq<SlotView>>) -> bool
    decreases s,
{
    s.len() == 0 || (sound_grid(s.drop_last()) && sound_row(s.last()))
}

proof fn lemma_all(s: Seq<BlockView>)
    requires
        forall|i: int| 0 <= i < s.len() ==> sound(#[trigger] s[i]),
    ensures
        sound_all(s),
    decreases s.len(),
{
    if s.len() > 0 {
        let before = s.drop_last();
        assert forall|i: int| 0 <= i < before.len() implies sound(#[trigger] before[i]) by {
            assert(before[i] == s[i]);
        }
        lemma_all(before);
        assert(s.last() == s[s.len() - 1]);
    }
}

proof fn lemma_all_at(s: Seq<BlockView>, i: int)
    requires
        sound_all(s),
        0 <= i < s.len(),
    ensures
        sound(s[i]),
    decreases s.len(),
{
    if i < s.len() - 1 {
        lemma_all_at(s.drop_last(), i);
    }
}

proof fn lemma_push(s: Seq<BlockView>, b: BlockView)
    requires
        sound_all(s),
        sound(b),
    ensures
        sound_all(s.push(b)),
{
    assert(s.push(b).drop_last() =~= s);
}

proof fn lemma_add(a: Seq<BlockView>, b: Seq<BlockView>)
    requires
        sound_all(a),
        sound_all(b),
    ensures
        sound_all(a + b),
{
    let s = a + b;
    assert forall|i: int| 0 <= i < s.len() implies sound(#[trigger] s[i]) by {
        if i < a.len() {
            lemma_all_at(a, i);
        } else {
            lemma_all_at(b, i - a.len());
        }
    }
    lemma_all(s);
}

proof fn lemma_sound_items(s: Seq<ItemView>)
    requires
        forall|i: int| 0 <= i < s.len() ==> sound_all((#[trigger] s[i]).blocks),
    ensures
        sound_items(s),
    decreases s.len(),
{
    if s.len() > 0 {
        let before = s.drop_last();
        assert forall|i: int| 0 <= i < before.len() implies sound_all(
            (#[trigger] before[i]).blocks,
        ) by {
            assert(before[i] == s[i]);
        }
        lemma_sound_items(before);
        assert(s.last() == s[s.len() - 1]);
    }
}

proof fn lemma_row(s: Seq<SlotView>)
    requires
        forall|i: int| 0 <= i < s.len() ==> sound_slot(#[trigger] s[i]),
    ensures
        sound_row(s),
    decreases s.len(),
{
    if s.len() > 0 {
        let before = s.drop_last();
        assert forall|i: int| 0 <= i < before.len() implies sound_slot(#[trigger] before[i]) by {
            assert(before[i] == s[i]);
        }
        lemma_row(before);
        assert(s.last() == s[s.len() - 1]);
    }
}

/// Whether the cells of a grid in progress hold sound blocks.
spec fn sound_so_far(g: Grid) -> bool {
    &&& sound_grid(g.done)
    &&& forall|j: int| 0 <= j < g.row.len() ==> sound_slot(#[trigger] g.row[j])
}

/// What is carried into a row holds nothing of its own.
proof fn lemma_filled(g: Grid, n: int)
    requires
        sound_so_far(g),
    ensures
        sound_so_far(g.filled(n)),
{
    let out = g.filled(n);
    assert forall|j: int| 0 <= j < out.row.len() implies sound_slot(#[trigger] out.row[j]) by {
        if j < g.row.len() {
            assert(out.row[j] == g.row[j]);
        } else {
            assert(out.row[j] == grid::carried_slot(g.carry[j]));
        }
    }
}

proof fn lemma_closed(g: Grid)
    requires
        sound_so_far(g),
    ensures
        sound_so_far(g.closed()),
        sound_so_far(g.next()),
{
    if g.open {
        let n = grid::reach_from(g.carry, g.row.len() as int, g.carry.len() as int);
        lemma_filled(g, n);
        let all = g.filled(n);
        lemma_row(all.row);
        assert(all.done.push(all.row).drop_last() =~= all.done);
    }
}

proof fn lemma_placed(g: Grid, cell: CellView)
    requires
        sound_so_far(g),
        sound_all(cell.blocks),
    ensures
        sound_so_far(g.with_cell(cell)),
{
    lemma_filled(g, grid::free_from(g.carry, g.row.len() as int));
    let ready = g.ready();
    let out = g.with_cell(cell);
    assert forall|j: int| 0 <= j < out.row.len() implies sound_slot(#[trigger] out.row[j]) by {
        if j < ready.row.len() {
            assert(out.row[j] == ready.row[j]);
        }
    }
}

/// Whether kept list items hold sound blocks.
spec fn sound_kept(s: Seq<KeptView>) -> bool {
    forall|i: int| 0 <= i < s.len() ==> sound_all((#[trigger] s[i]).blocks)
}

/// Whether a run of items has one, and all are sound.
spec fn sound_run(run: lists::RunView) -> bool {
    &&& run.items.len() > 0
    &&& forall|i: int| 0 <= i < run.items.len() ==> sound_all((#[trigger] run.items[i]).blocks)
}

proof fn lemma_runs(kept: Seq<KeptView>)
    requires
        sound_kept(kept),
    ensures
        forall|k: int|
            0 <= k < lists::runs_of(kept).len() ==> sound_run(#[trigger] lists::runs_of(kept)[k]),
    decreases kept.len(),
{
    if kept.len() > 0 {
        let shorter = kept.drop_last();
        assert forall|i: int| 0 <= i < shorter.len() implies sound_all(
            (#[trigger] shorter[i]).blocks,
        ) by {
            assert(shorter[i] == kept[i]);
        }
        lemma_runs(shorter);
        let before = lists::runs_of(shorter);
        let all = lists::runs_of(kept);
        let item = ItemView { blocks: kept.last().blocks, label: None };
        assert(sound_all(kept[kept.len() - 1].blocks));
        assert forall|k: int| 0 <= k < all.len() implies sound_run(#[trigger] all[k]) by {
            if k < before.len() {
                assert(sound_run(before[k]));
            }
        }
    }
}

proof fn lemma_lists(style: ListStyle, kept: Seq<KeptView>)
    requires
        sound_kept(kept),
    ensures
        sound_all(lists::blocks_of(style, kept)),
{
    let out = lists::blocks_of(style, kept);
    match style {
        ListStyle::Bulleted => {
            lemma_sound_items(lists::unlabelled(kept));
        },
        ListStyle::Labelled(_) => {
            lemma_sound_items(lists::labelled(kept));
        },
        ListStyle::Counted(_) => {
            lemma_runs(kept);
        },
    }
    assert forall|i: int| 0 <= i < out.len() implies sound(#[trigger] out[i]) by {
        if style is Counted {
            let run = lists::runs_of(kept)[i];
            assert(sound_run(run));
            lemma_sound_items(run.items);
        }
    }
    lemma_all(out);
}

/// Whether all blocks of an outcome are sound.
spec fn sound_out(out: Result<Run, Stopped>) -> bool {
    out matches Ok(p) ==> sound_all(p.blocks)
}

proof fn lemma_flushed(r: Run)
    requires
        sound_all(r.blocks),
    ensures
        sound_all(r.flushed().blocks),
        forall|content: Seq<InlineView>| sound_all(#[trigger] r.paragraph(content).blocks),
{
    assert forall|content: Seq<InlineView>| sound_all(#[trigger] r.paragraph(content).blocks) by {
        if inlines::worth_keeping(content) {
            lemma_push(r.blocks, BlockView::Paragraph(content));
        }
    }
    assert(r.flushed().blocks == r.paragraph(r.inlines).blocks);
}

proof fn lemma_nodes(
    script: Seq<Call>,
    rules: Seq<RuleText>,
    elem: Element,
    n: int,
    inh: Inherited,
    r: Run,
)
    requires
        sound_all(r.blocks),
    ensures
        sound_out(walk::walk_nodes(script, rules, elem, n, inh, r)),
    decreases elem, 0int, n,
{
    if 0 < n <= elem.children@.len() {
        lemma_nodes(script, rules, elem, n - 1, inh, r);
        if let Ok(p) = walk::walk_nodes(script, rules, elem, n - 1, inh, r) {
            rows::lemma_elem_at(elem, n - 1);
            if let Some(e) = rows::elem_at(elem.children@, n - 1) {
                lemma_elem(script, rules, e, inh, p);
            }
        }
    }
}

proof fn lemma_inside(
    script: Seq<Call>,
    rules: Seq<RuleText>,
    elem: Element,
    inh: Inherited,
    start: bool,
    r: Run,
)
    ensures
        sound_out(walk::walk_inside(script, rules, elem, inh, start, r)),
    decreases elem, 2int, 0int,
{
    lemma_nodes(script, rules, elem, elem.children@.len() as int, inh, r.nested(start));
    if let Ok(inner) = walk::walk_children(script, rules, elem, inh, r.nested(start)) {
        lemma_flushed(inner);
    }
}

proof fn lemma_items(
    script: Seq<Call>,
    rules: Seq<RuleText>,
    elem: Element,
    items: Seq<usize>,
    numbers: Seq<i64>,
    n: int,
    inh: Inherited,
    r: Run,
)
    ensures
        walk::walk_items(script, rules, elem, items, numbers, n, inh, r) matches Ok(p)
            ==> p.run.blocks == r.blocks && sound_kept(p.kept),
    decreases elem, 3int, n,
{
    if n > 0 {
        lemma_items(script, rules, elem, items, numbers, n - 1, inh, r);
        if let Ok(p) = walk::walk_items(script, rules, elem, items, numbers, n - 1, inh, r) {
            rows::lemma_elem_at(elem, items[n - 1] as int);
            if let Some(li) = rows::elem_at(elem.children@, items[n - 1] as int) {
                let own = inh.within(li, cascade::resolved(rules, li));
                lemma_inside(script, rules, li, own, true, p.run);
            }
        }
    }
}

proof fn lemma_cells(
    script: Seq<Call>,
    rules: Seq<RuleText>,
    tr: Element,
    cells: Seq<usize>,
    n: int,
    left: u32,
    inh: Inherited,
    c: Cells,
)
    requires
        sound_so_far(c.grid),
    ensures
        walk::walk_cells(script, rules, tr, cells, n, left, inh, c) matches Ok(p) ==> p.run.blocks
            == c.run.blocks && sound_so_far(p.grid),
    decreases tr, 3int, n,
{
    if n > 0 {
        lemma_cells(script, rules, tr, cells, n - 1, left, inh, c);
        if let Ok(p) = walk::walk_cells(script, rules, tr, cells, n - 1, left, inh, c) {
            rows::lemma_elem_at(tr, cells[n - 1] as int);
            if let Some(cell) = rows::elem_at(tr.children@, cells[n - 1] as int) {
                let own = inh.within(cell, cascade::resolved(rules, cell));
                lemma_inside(script, rules, cell, own, true, p.run);
                if let Ok(inner) = walk::walk_inside(script, rules, cell, own, true, p.run) {
                    lemma_placed(
                        p.grid,
                        grid::spanning(
                            inner.blocks,
                            rows::columns_of(cell),
                            rows::lines_of(cell, left),
                        ),
                    );
                }
            }
        }
    }
}

proof fn lemma_rows(
    script: Seq<Call>,
    rules: Seq<RuleText>,
    table: Element,
    all: Seq<RowAt>,
    n: int,
    inh: Inherited,
    c: Cells,
)
    requires
        sound_so_far(c.grid),
    ensures
        walk::walk_rows(script, rules, table, all, n, inh, c) matches Ok(p) ==> p.run.blocks
            == c.run.blocks && sound_so_far(p.grid),
    decreases table, 4int, n,
{
    if n > 0 {
        lemma_rows(script, rules, table, all, n - 1, inh, c);
        if let Ok(p) = walk::walk_rows(script, rules, table, all, n - 1, inh, c) {
            rows::lemma_row_elem(table, all[n - 1]);
            if let Some(tr) = rows::row_elem(table, all[n - 1]) {
                let cells = rows::cells_of(rules, tr);
                let concealed = rows::any_concealed(
                    rules,
                    tr.children@,
                    Part::Cell,
                    tr.children@.len() as int,
                );
                lemma_closed(p.grid);
                lemma_cells(
                    script,
                    rules,
                    tr,
                    cells,
                    cells.len() as int,
                    rows::rows_left(all, n - 1),
                    rows::row_inherits(rules, table, all[n - 1], inh),
                    Cells { grid: p.grid.next(), run: p.run.dropping(concealed) },
                );
            }
        }
    }
}

proof fn lemma_list(
    script: Seq<Call>,
    rules: Seq<RuleText>,
    elem: Element,
    inh: Inherited,
    r: Run,
)
    requires
        sound_all(r.blocks),
    ensures
        sound_out(walk::walk_list(script, rules, elem, inh, r)),
    decreases elem, 4int, 0int,
{
    let items = walk::items_of(rules, elem);
    let numbers = walk::item_numbers(elem, items);
    let n = items.len() as int;
    let seen = r.dropping(
        rows::any_concealed(rules, elem.children@, Part::Item, elem.children@.len() as int),
    );
    lemma_items(script, rules, elem, items, numbers, n, inh, seen);
    if let Ok(all) = walk::walk_items(script, rules, elem, items, numbers, n, inh, seen) {
        let style = walk::style_of(elem, numbers);
        lemma_lists(style, all.kept);
        lemma_add(r.blocks, lists::blocks_of(style, all.kept));
    }
}

proof fn lemma_table(
    script: Seq<Call>,
    rules: Seq<RuleText>,
    table: Element,
    inh: Inherited,
    r: Run,
)
    requires
        sound_all(r.blocks),
    ensures
        sound_out(walk::walk_table(script, rules, table, inh, r)),
    decreases table, 5int, 0int,
{
    if let Ok(captioned) = walk::walk_caption(script, rules, table, inh, r) {
        assert(sound_all(captioned.blocks)) by {
            if let Some(caption) = rows::named_child(table, "caption"@) {
                let props = cascade::resolved(rules, caption);
                if let Ok(inner) = walk::walk_inside(
                    script,
                    rules,
                    caption,
                    inh.within(caption, props),
                    true,
                    r,
                ) {
                    lemma_flushed(r.after(inner));
                }
            }
        }
        let found = rows::rows_of(rules, table);
        let n = found.rows.len() as int;
        let begun = Cells { grid: Grid::empty(), run: captioned.dropping(found.dropped) };
        lemma_rows(script, rules, table, found.rows, n, inh, begun);
        if let Ok(c) = walk::walk_rows(script, rules, table, found.rows, n, inh, begun) {
            lemma_closed(c.grid);
            let declared = rows::declared_headers(rules, table, found.rows, n) as usize;
            let out = walk::with_table(script, c.grid.rows(), declared, c.run);
            if c.grid.rows().len() > 0 {
                lemma_push(c.run.blocks, out.blocks.last());
            }
        }
    }
}

/// What is kept of inlines for their anchors is one.
proof fn lemma_anchors(s: Seq<InlineView>)
    ensures
        walk::anchors_in(s).len() > 0 ==> walk::anchors_in(s)[0] is Anchor,
{
    let keep = |i: InlineView| i is Anchor;
    if walk::anchors_in(s).len() > 0 {
        s.lemma_filter_pred(keep, 0);
    }
}

proof fn lemma_elem(
    script: Seq<Call>,
    rules: Seq<RuleText>,
    elem: Element,
    inherited: Inherited,
    r: Run,
)
    requires
        sound_all(r.blocks),
    ensures
        sound_out(walk::walk_elem(script, rules, elem, inherited, r)),
    decreases elem, 6int, 0int,
{
    let props = cascade::resolved(rules, elem);
    let inh = inherited.within(elem, props);
    let n = elem.children@.len() as int;
    let f = r.flushed();
    let a = walk::anchored(script, elem, r);
    lemma_flushed(r);
    assert(a.blocks == r.blocks);
    if !props.hidden {
        match tags::kind_of(elem.local@) {
            ElemKind::Heading(level) => {
                lemma_heading(script, rules, elem, level, inh, f);
            },
            ElemKind::Para => {
                let opened = walk::anchored(script, elem, f);
                if let Ok(inner) = walk::walk_inside(script, rules, elem, inh, true, opened) {
                    lemma_flushed(Run { inlines: Seq::empty(), ..opened.after(inner) });
                }
            },
            ElemKind::List => {
                lemma_list(script, rules, elem, inh, f);
            },
            ElemKind::Table => {
                lemma_table(script, rules, elem, inh, f);
            },
            ElemKind::Quote => {
                lemma_inside(script, rules, elem, inh, true, f);
                if let Ok(inner) = walk::walk_inside(script, rules, elem, inh, true, f) {
                    if inner.blocks.len() > 0 {
                        lemma_push(f.blocks, BlockView::BlockQuote(inner.blocks));
                    }
                }
            },
            ElemKind::Pre => {
                let text = walk::visible_text(rules, elem, n);
                if !inlines::blank(text) {
                    lemma_push(f.blocks, BlockView::CodeBlock { lang: None, text });
                }
            },
            ElemKind::Rule => {
                lemma_push(f.blocks, BlockView::Rule);
            },
            ElemKind::Math => {
                let tex = walk::tex_reply(script, r)@;
                let r1 = r.calling(Call::Tex { math: elem, tex: walk::tex_reply(script, r) });
                let display = walk::display_reply(script, r1);
                let r2 = r1.calling(Call::Display { math: elem, display });
                lemma_flushed(r2);
                if tex.len() > 0 {
                    lemma_push(r2.flushed().blocks, BlockView::Math(tex));
                }
            },
            ElemKind::Container => {
                lemma_flushed(a);
                lemma_nodes(script, rules, elem, n, inh, a.flushed());
                lemma_nodes(script, rules, elem, n, inh, a);
                if let Ok(p) = walk::walk_children(script, rules, elem, inh, a.flushed()) {
                    lemma_flushed(p);
                }
            },
            ElemKind::Inline => {
                lemma_nodes(script, rules, elem, n, inh, a);
            },
            ElemKind::Link | ElemKind::Ignored | ElemKind::Break | ElemKind::Image => {},
        }
    }
}

/// A heading makes a heading that shows something, or a paragraph of anchors.
proof fn lemma_heading(
    script: Seq<Call>,
    rules: Seq<RuleText>,
    elem: Element,
    level: u8,
    inh: Inherited,
    r: Run,
)
    requires
        sound_all(r.blocks),
        tags::kind_of(elem.local@) == ElemKind::Heading(level),
    ensures
        sound_out(walk::walk_heading(script, rules, elem, level, inh, r)),
{
    if let Ok(inner) = walk::walk_inside(script, rules, elem, inh, true, r) {
        let at = r.after(inner);
        let content = inlines::rebased(inlines::flattened(inner.blocks), inh.delta.resolved());
        let out = walk::with_heading(script, elem, level, inh, inner.blocks, at);
        lemma_anchors(content);
        if out.blocks != r.blocks {
            let b = out.blocks.last();
            assert(out.blocks =~= r.blocks.push(b));
            assert(sound(b)) by {
                if let BlockView::Paragraph(kept) = b {
                    assert(kept[0] is Anchor);
                }
            }
            lemma_push(r.blocks, b);
        }
    }
}

/// Nothing empty comes out of a body: every block holds something, at any
/// depth.
pub proof fn law_blocks_hold_something(
    calls: Seq<Call>,
    rules: Seq<RuleText>,
    body: Element,
    blocks: Vec<Block>,
)
    requires
        html::converts(calls, rules, body, Ok(blocks)),
    ensures
        sound_all(model::block_views(blocks@)),
{
    let inh = Inherited::none().with(cascade::resolved(rules, body));
    lemma_inside(calls, rules, body, inh, true, Run::new());
}

// ---------------------------------------------------------------------------
// Blocks by themselves

/// Elements that make blocks of their own, whatever they hold.
pub open spec fn stands_alone(kind: ElemKind) -> bool {
    match kind {
        ElemKind::Heading(_)
        | ElemKind::Para
        | ElemKind::List
        | ElemKind::Table
        | ElemKind::Quote
        | ElemKind::Pre
        | ElemKind::Rule => true,
        _ => false,
    }
}

/// The same walk with other finished blocks.
spec fn over(r: Run, blocks: Seq<BlockView>) -> Run {
    Run { blocks, ..r }
}

/// Whether `out` adds to the blocks of `r` what `other` adds to none.
spec fn adds_same(r: Run, out: Result<Run, Stopped>, other: Result<Run, Stopped>) -> bool {
    match other {
        Ok(q) => out == Ok::<Run, Stopped>(over(q, r.blocks + q.blocks)),
        Err(s) => out == Err::<Run, Stopped>(s),
    }
}

/// Whether the line in progress is the same.
spec fn same_line(p: Run, r: Run) -> bool {
    p.inlines == r.inlines && p.start == r.start
}

/// A nested walk takes no notice of the blocks before it.
proof fn lemma_inside_over(
    script: Seq<Call>,
    rules: Seq<RuleText>,
    elem: Element,
    inh: Inherited,
    start: bool,
    r: Run,
    blocks: Seq<BlockView>,
)
    ensures
        walk::walk_inside(script, rules, elem, inh, start, over(r, blocks)) == walk::walk_inside(
            script,
            rules,
            elem,
            inh,
            start,
            r,
        ),
{
    assert(over(r, blocks).nested(start) == r.nested(start));
}

/// List items take no notice of the blocks before the list.
proof fn lemma_items_over(
    script: Seq<Call>,
    rules: Seq<RuleText>,
    elem: Element,
    items: Seq<usize>,
    numbers: Seq<i64>,
    n: int,
    inh: Inherited,
    r: Run,
    blocks: Seq<BlockView>,
)
    ensures
        match walk::walk_items(script, rules, elem, items, numbers, n, inh, over(r, blocks)) {
            Ok(q) => q.run.blocks == blocks && same_line(q.run, r) && walk::walk_items(
                script,
                rules,
                elem,
                items,
                numbers,
                n,
                inh,
                r,
            ) == Ok::<walk::Items, Stopped>(
                walk::Items { kept: q.kept, run: over(q.run, r.blocks) },
            ),
            Err(s) => walk::walk_items(script, rules, elem, items, numbers, n, inh, r) == Err::<
                walk::Items,
                Stopped,
            >(s),
        },
    decreases n,
{
    if n > 0 {
        lemma_items_over(script, rules, elem, items, numbers, n - 1, inh, r, blocks);
        if let Ok(q) = walk::walk_items(
            script,
            rules,
            elem,
            items,
            numbers,
            n - 1,
            inh,
            over(r, blocks),
        ) {
            if let Some(li) = rows::elem_at(elem.children@, items[n - 1] as int) {
                let own = inh.within(li, cascade::resolved(rules, li));
                lemma_inside_over(script, rules, li, own, true, q.run, r.blocks);
            }
        }
    }
}

/// Neither do the cells of a row, ...
proof fn lemma_cells_over(
    script: Seq<Call>,
    rules: Seq<RuleText>,
    tr: Element,
    cells: Seq<usize>,
    n: int,
    left: u32,
    inh: Inherited,
    c: Cells,
    blocks: Seq<BlockView>,
)
    ensures
        match walk::walk_cells(
            script,
            rules,
            tr,
            cells,
            n,
            left,
            inh,
            Cells { run: over(c.run, blocks), ..c },
        ) {
            Ok(q) => q.run.blocks == blocks && same_line(q.run, c.run) && walk::walk_cells(
                script,
                rules,
                tr,
                cells,
                n,
                left,
                inh,
                c,
            ) == Ok::<Cells, Stopped>(Cells { grid: q.grid, run: over(q.run, c.run.blocks) }),
            Err(s) => walk::walk_cells(script, rules, tr, cells, n, left, inh, c) == Err::<
                Cells,
                Stopped,
            >(s),
        },
    decreases n,
{
    let other = Cells { run: over(c.run, blocks), ..c };
    if n > 0 {
        lemma_cells_over(script, rules, tr, cells, n - 1, left, inh, c, blocks);
        if let Ok(q) = walk::walk_cells(script, rules, tr, cells, n - 1, left, inh, other) {
            if let Some(cell) = rows::elem_at(tr.children@, cells[n - 1] as int) {
                let own = inh.within(cell, cascade::resolved(rules, cell));
                lemma_inside_over(script, rules, cell, own, true, q.run, c.run.blocks);
            }
        }
    }
}

/// ... nor the rows of a table.
proof fn lemma_rows_over(
    script: Seq<Call>,
    rules: Seq<RuleText>,
    table: Element,
    all: Seq<RowAt>,
    n: int,
    inh: Inherited,
    c: Cells,
    blocks: Seq<BlockView>,
)
    ensures
        match walk::walk_rows(
            script,
            rules,
            table,
            all,
            n,
            inh,
            Cells { run: over(c.run, blocks), ..c },
        ) {
            Ok(q) => q.run.blocks == blocks && same_line(q.run, c.run) && walk::walk_rows(
                script,
                rules,
                table,
                all,
                n,
                inh,
                c,
            ) == Ok::<Cells, Stopped>(Cells { grid: q.grid, run: over(q.run, c.run.blocks) }),
            Err(s) => walk::walk_rows(script, rules, table, all, n, inh, c) == Err::<
                Cells,
                Stopped,
            >(s),
        },
    decreases n,
{
    let other = Cells { run: over(c.run, blocks), ..c };
    if n > 0 {
        lemma_rows_over(script, rules, table, all, n - 1, inh, c, blocks);
        if let Ok(q) = walk::walk_rows(script, rules, table, all, n - 1, inh, other) {
            if let Some(tr) = rows::row_elem(table, all[n - 1]) {
                let cells = rows::cells_of(rules, tr);
                let concealed = rows::any_concealed(
                    rules,
                    tr.children@,
                    Part::Cell,
                    tr.children@.len() as int,
                );
                let run = over(q.run, c.run.blocks).dropping(concealed);
                assert(over(run, blocks) == q.run.dropping(concealed));
                lemma_cells_over(
                    script,
                    rules,
                    tr,
                    cells,
                    cells.len() as int,
                    rows::rows_left(all, n - 1),
                    rows::row_inherits(rules, table, all[n - 1], inh),
                    Cells { grid: q.grid.next(), run },
                    blocks,
                );
            }
        }
    }
}

proof fn lemma_list_alone(
    script: Seq<Call>,
    rules: Seq<RuleText>,
    elem: Element,
    inh: Inherited,
    r: Run,
)
    ensures
        adds_same(
            r,
            walk::walk_list(script, rules, elem, inh, r),
            walk::walk_list(script, rules, elem, inh, over(r, Seq::empty())),
        ),
        walk::walk_list(script, rules, elem, inh, r) matches Ok(p) ==> same_line(p, r),
{
    let none = Seq::<BlockView>::empty();
    let items = walk::items_of(rules, elem);
    let numbers = walk::item_numbers(elem, items);
    let n = items.len() as int;
    let concealed = rows::any_concealed(
        rules,
        elem.children@,
        Part::Item,
        elem.children@.len() as int,
    );
    let seen = r.dropping(concealed);
    assert(over(seen, none) == over(r, none).dropping(concealed));
    lemma_items_over(script, rules, elem, items, numbers, n, inh, seen, none);
    if let Ok(q) = walk::walk_list(script, rules, elem, inh, over(r, none)) {
        let all = walk::walk_items(
            script,
            rules,
            elem,
            items,
            numbers,
            n,
            inh,
            over(seen, none),
        )->Ok_0;
        assert(q.blocks =~= lists::blocks_of(walk::style_of(elem, numbers), all.kept));
    }
}

proof fn lemma_table_alone(
    script: Seq<Call>,
    rules: Seq<RuleText>,
    table: Element,
    inh: Inherited,
    r: Run,
)
    ensures
        adds_same(
            r,
            walk::walk_table(script, rules, table, inh, r),
            walk::walk_table(script, rules, table, inh, over(r, Seq::empty())),
        ),
        walk::walk_table(script, rules, table, inh, r) matches Ok(p) ==> same_line(p, r),
{
    let none = Seq::<BlockView>::empty();
    let bare = over(r, none);
    let captioned = walk::walk_caption(script, rules, table, inh, bare);
    assert(adds_same(r, walk::walk_caption(script, rules, table, inh, r), captioned)) by {
        if let Some(caption) = rows::named_child(table, "caption"@) {
            let own = inh.within(caption, cascade::resolved(rules, caption));
            lemma_inside_over(script, rules, caption, own, true, r, none);
            if let Ok(inner) = walk::walk_inside(script, rules, caption, own, true, bare) {
                lemma_paragraph_alone(r.after(inner), inlines::flattened(inner.blocks));
            }
        }
        assert(r.blocks + none =~= r.blocks);
    }
    if let Ok(q) = captioned {
        let found = rows::rows_of(rules, table);
        let n = found.rows.len() as int;
        let seen = over(q, r.blocks + q.blocks).dropping(found.dropped);
        assert(over(seen, q.blocks) == q.dropping(found.dropped));
        lemma_rows_over(
            script,
            rules,
            table,
            found.rows,
            n,
            inh,
            Cells { grid: Grid::empty(), run: seen },
            q.blocks,
        );
        if let Ok(end) = walk::walk_table(script, rules, table, inh, bare) {
            let out = walk::walk_table(script, rules, table, inh, r)->Ok_0;
            assert(out.blocks =~= r.blocks + end.blocks);
        }
    }
}

proof fn lemma_paragraph_alone(r: Run, content: Seq<InlineView>)
    ensures
        r.paragraph(content) == over(
            r.paragraph(content),
            r.blocks + over(r, Seq::empty()).paragraph(content).blocks,
        ),
{
    assert(r.paragraph(content).blocks =~= r.blocks + over(r, Seq::empty()).paragraph(
        content,
    ).blocks);
}

proof fn lemma_heading_alone(
    script: Seq<Call>,
    rules: Seq<RuleText>,
    elem: Element,
    level: u8,
    inh: Inherited,
    r: Run,
)
    ensures
        adds_same(
            r,
            walk::walk_heading(script, rules, elem, level, inh, r),
            walk::walk_heading(script, rules, elem, level, inh, over(r, Seq::empty())),
        ),
{
    let bare = over(r, Seq::empty());
    lemma_inside_over(script, rules, elem, inh, true, r, Seq::empty());
    if let Ok(inner) = walk::walk_inside(script, rules, elem, inh, true, r) {
        let out = walk::with_heading(script, elem, level, inh, inner.blocks, r.after(inner));
        let other = walk::with_heading(script, elem, level, inh, inner.blocks, bare.after(inner));
        assert(out.blocks =~= r.blocks + other.blocks);
    }
}

proof fn lemma_para_alone(
    script: Seq<Call>,
    rules: Seq<RuleText>,
    elem: Element,
    inh: Inherited,
    r: Run,
)
    ensures
        adds_same(
            r,
            walk::walk_para(script, rules, elem, inh, r),
            walk::walk_para(script, rules, elem, inh, over(r, Seq::empty())),
        ),
{
    let none = Seq::<BlockView>::empty();
    let opened = walk::anchored(script, elem, r);
    assert(walk::anchored(script, elem, over(r, none)) == over(opened, none));
    lemma_inside_over(script, rules, elem, inh, true, opened, none);
    if let Ok(inner) = walk::walk_inside(script, rules, elem, inh, true, opened) {
        lemma_paragraph_alone(
            Run { inlines: Seq::empty(), ..opened.after(inner) },
            opened.inlines + inlines::flattened(inner.blocks),
        );
    }
}

proof fn lemma_quote_alone(
    script: Seq<Call>,
    rules: Seq<RuleText>,
    elem: Element,
    inh: Inherited,
    r: Run,
)
    ensures
        adds_same(
            r,
            walk::walk_quote(script, rules, elem, inh, r),
            walk::walk_quote(script, rules, elem, inh, over(r, Seq::empty())),
        ),
{
    let bare = over(r, Seq::empty());
    lemma_inside_over(script, rules, elem, inh, true, r, Seq::empty());
    if let Ok(p) = walk::walk_quote(script, rules, elem, inh, r) {
        let q = walk::walk_quote(script, rules, elem, inh, bare)->Ok_0;
        assert(p.blocks =~= r.blocks + q.blocks);
    }
}

/// What a block element makes of a walk that has just ended a line.
proof fn lemma_alone(
    script: Seq<Call>,
    rules: Seq<RuleText>,
    elem: Element,
    inherited: Inherited,
    r: Run,
)
    requires
        !cascade::resolved(rules, elem).hidden,
        stands_alone(tags::kind_of(elem.local@)),
    ensures
        adds_same(
            r.flushed(),
            walk::walk_elem(script, rules, elem, inherited, r),
            walk::walk_elem(script, rules, elem, inherited, over(r.flushed(), Seq::empty())),
        ),
        walk::walk_elem(script, rules, elem, inherited, r) matches Ok(p) ==> p.inlines == Seq::<
            InlineView,
        >::empty() && p.start,
{
    let f = r.flushed();
    let bare = over(f, Seq::empty());
    let inh = inherited.within(elem, cascade::resolved(rules, elem));
    assert(bare.flushed() == bare);
    match tags::kind_of(elem.local@) {
        ElemKind::Heading(level) => {
            lemma_heading_alone(script, rules, elem, level, inh, f);
        },
        ElemKind::Para => {
            lemma_para_alone(script, rules, elem, inh, f);
        },
        ElemKind::List => {
            lemma_list_alone(script, rules, elem, inh, f);
        },
        ElemKind::Table => {
            lemma_table_alone(script, rules, elem, inh, f);
        },
        ElemKind::Quote => {
            lemma_quote_alone(script, rules, elem, inh, f);
        },
        ElemKind::Pre => {
            assert(walk::with_pre(rules, elem, f).blocks =~= f.blocks + walk::with_pre(
                rules,
                elem,
                bare,
            ).blocks);
        },
        _ => {
            assert(f.block(BlockView::Rule).blocks =~= f.blocks + bare.block(
                BlockView::Rule,
            ).blocks);
        },
    }
}

/// A heading, paragraph, list, table, quotation, preformatted text or rule
/// ends the line in progress and then adds blocks of its own. These follow
/// from the element, what it inherits, the stylesheet and the answers it
/// gets: the blocks and the line before it, and what was dropped there, make
/// no difference to them.
pub proof fn law_block_elements_stand_alone(
    script: Seq<Call>,
    rules: Seq<RuleText>,
    elem: Element,
    inh: Inherited,
    r: Run,
)
    requires
        !cascade::resolved(rules, elem).hidden,
        stands_alone(tags::kind_of(elem.local@)),
    ensures
        match walk::walk_elem(script, rules, elem, inh, Run { calls: r.calls, ..Run::new() }) {
            Ok(alone) => walk::walk_elem(script, rules, elem, inh, r) == Ok::<Run, Stopped>(
                Run {
                    blocks: r.flushed().blocks + alone.blocks,
                    inlines: Seq::empty(),
                    start: true,
                    dropped: r.dropped || alone.dropped,
                    calls: alone.calls,
                },
            ),
            Err(s) => walk::walk_elem(script, rules, elem, inh, r) == Err::<Run, Stopped>(s),
        },
{
    let start = Run { calls: r.calls, ..Run::new() };
    let bare = over(r.flushed(), Seq::empty());
    laws::drops::law_drops_are_noted_exactly(script, rules, elem, inh, bare, false);
    assert(laws::drops::noting(bare, false) == start);
    lemma_alone(script, rules, elem, inh, r);
}

} // verus!
