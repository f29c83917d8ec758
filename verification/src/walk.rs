//! What walking an element tree yields.
//!
//! The walk asks its hooks as it goes, and their answers are not known
//! beforehand. So each function here takes a script: the sequence of calls,
//! from which it reads the answer at the position it has reached. What it
//! asks it records itself.

use crate::cascade;
use crate::chars;
use crate::chars::CharClass;
use crate::css::RuleText;
use crate::error::ConvertError;
use crate::grid;
use crate::grid::Grid;
use crate::hooks::Call;
use crate::inlines;
use crate::lists;
use crate::lists::{KeptView, ListStyle};
use crate::model::{BlockView, ImageSource, InlineView, LinkTarget, TableKind, TableView};
use crate::rows;
use crate::rows::{Part, RowAt};
use crate::tags;
use crate::tags::{ElemKind, Inherited};
use crate::xml::Element;
use vstd::prelude::*;

verus! {

/// The state of a walk.
pub struct Run {
    /// The blocks that are done.
    pub blocks: Seq<BlockView>,
    /// The line in progress.
    pub inlines: Seq<InlineView>,
    /// Whether text at the start of that line sits at a white-space boundary.
    pub start: bool,
    /// Whether something hidden was left out.
    pub dropped: bool,
    /// What the hooks were asked, and what they answered.
    pub calls: Seq<Call>,
}

/// A walk that ended with an error.
pub struct Stopped {
    pub error: ConvertError,
    pub calls: Seq<Call>,
}

/// Whether `script` starts with `calls`.
pub open spec fn covers(script: Seq<Call>, calls: Seq<Call>) -> bool {
    calls.len() <= script.len() && forall|i: int|
        0 <= i < calls.len() ==> #[trigger] script[i] == calls[i]
}

impl Run {
    /// A walk that has not begun.
    pub open spec fn new() -> Run {
        Run {
            blocks: Seq::empty(),
            inlines: Seq::empty(),
            start: true,
            dropped: false,
            calls: Seq::empty(),
        }
    }

    /// One more block.
    pub open spec fn block(self, b: BlockView) -> Run {
        Run { blocks: self.blocks.push(b), ..self }
    }

    /// One more inline in the line in progress.
    pub open spec fn inline(self, i: InlineView) -> Run {
        Run { inlines: self.inlines.push(i), ..self }
    }

    /// A paragraph, if there is anything in it worth keeping.
    pub open spec fn paragraph(self, content: Seq<InlineView>) -> Run {
        if inlines::worth_keeping(content) {
            self.block(BlockView::Paragraph(content))
        } else {
            self
        }
    }

    /// The line in progress ended.
    pub open spec fn flushed(self) -> Run {
        Run { inlines: Seq::empty(), start: true, ..self.paragraph(self.inlines) }
    }

    /// Something hidden left out, if `hidden`.
    pub open spec fn dropping(self, hidden: bool) -> Run {
        Run { dropped: self.dropped || hidden, ..self }
    }

    /// A walk of its own for nested content.
    pub open spec fn nested(self, start: bool) -> Run {
        Run { blocks: Seq::empty(), inlines: Seq::empty(), start, ..self }
    }

    /// This walk, after a nested one.
    pub open spec fn after(self, inner: Run) -> Run {
        Run { dropped: inner.dropped, calls: inner.calls, ..self }
    }

    /// The position reached in the script.
    pub open spec fn at(self) -> int {
        self.calls.len() as int
    }

    /// One more call.
    pub open spec fn calling(self, call: Call) -> Run {
        Run { calls: self.calls.push(call), ..self }
    }
}

// ---------------------------------------------------------------------------
// Questions

/// What the answer at the reached position says, for each kind of question:
/// where a link leads, ...
pub open spec fn link_reply(script: Seq<Call>, r: Run) -> Option<LinkTarget> {
    script[r.at()]->Link_target
}

/// ... what an image is, ...
pub open spec fn image_reply(script: Seq<Call>, r: Run) -> Result<
    Option<ImageSource>,
    ConvertError,
> {
    script[r.at()]->Image_source
}

/// ... the id of an anchor, ...
pub open spec fn anchor_reply(script: Seq<Call>, r: Run) -> String {
    script[r.at()]->Anchor_id
}

/// ... the cleaned text, ...
pub open spec fn clean_reply(script: Seq<Call>, r: Run) -> String {
    script[r.at()]->Clean_text
}

/// ... a formula as TeX, ...
pub open spec fn tex_reply(script: Seq<Call>, r: Run) -> String {
    script[r.at()]->Tex_tex
}

/// ... whether a formula stands on its own, ...
pub open spec fn display_reply(script: Seq<Call>, r: Run) -> bool {
    script[r.at()]->Display_display
}

/// ... and how many rows of a table are headers.
pub open spec fn headers_reply(script: Seq<Call>, r: Run) -> usize {
    script[r.at()]->Headers_rows
}

/// Asked for an anchor id.
pub open spec fn asked_anchor(script: Seq<Call>, raw: Seq<char>, r: Run) -> Run {
    r.calling(Call::Anchor { raw, id: anchor_reply(script, r) })
}

/// Asked to clean text.
pub open spec fn asked_clean(script: Seq<Call>, raw: Seq<char>, r: Run) -> Run {
    r.calling(Call::Clean { raw, text: clean_reply(script, r) })
}

/// The anchor that an attribute names, unless it is absent or empty.
pub open spec fn anchor_from(script: Seq<Call>, raw: Option<Seq<char>>, r: Run) -> Run {
    match raw {
        Some(id) => if id.len() > 0 {
            asked_anchor(script, id, r).inline(InlineView::Anchor(anchor_reply(script, r)@))
        } else {
            r
        },
        None => r,
    }
}

/// The anchors that an element stands for: its id, and the name of an `<a>`.
pub open spec fn anchored(script: Seq<Call>, elem: Element, r: Run) -> Run {
    let by_id = anchor_from(script, elem.value_of("id"@), r);
    if elem.local@ == "a"@ {
        anchor_from(script, elem.value_of("name"@), by_id)
    } else {
        by_id
    }
}

/// Text in the line in progress. A font size of zero drops it. White space
/// collapses, across node boundaries too: leading white space vanishes at a
/// block start and after white space.
pub open spec fn texted(script: Seq<Call>, text: Seq<char>, inh: Inherited, r: Run) -> Run {
    if inh.font_size_zero {
        r.dropping(true)
    } else {
        let asked = asked_clean(script, text, r);
        let collapsed = chars::collapse(clean_reply(script, r)@);
        let shown = if inlines::at_boundary(r.inlines, r.start) {
            chars::trim_start_of(collapsed, CharClass::Only(' '))
        } else {
            collapsed
        };
        if shown.len() == 0 {
            asked
        } else {
            asked.inline(InlineView::Text { text: shown, style: inh.delta.resolved() })
        }
    }
}

/// A formula, as a block of its own or in the line in progress.
pub open spec fn with_math(script: Seq<Call>, elem: Element, r: Run) -> Run {
    let tex = tex_reply(script, r);
    let r1 = r.calling(Call::Tex { math: elem, tex });
    if tex@.len() == 0 {
        r1
    } else {
        let display = display_reply(script, r1);
        let r2 = r1.calling(Call::Display { math: elem, display });
        if display {
            r2.flushed().block(BlockView::Math(tex@))
        } else {
            r2.inline(InlineView::Math(tex@))
        }
    }
}

/// The first of two texts that is there; empty when neither is.
pub open spec fn either(a: Option<Seq<char>>, b: Option<Seq<char>>) -> Seq<char> {
    match a {
        Some(x) => x,
        None => match b {
            Some(y) => y,
            None => Seq::empty(),
        },
    }
}

/// An image, unless it has neither a source nor a text to stand in for it.
pub open spec fn with_image(script: Seq<Call>, elem: Element, r: Run) -> Result<Run, Stopped> {
    let alt = clean_reply(script, r)@;
    let r1 = asked_clean(script, either(elem.value_of("alt"@), None), r);
    let source = image_reply(script, r1);
    let r2 = r1.calling(
        Call::Image { src: either(elem.value_of("src"@), elem.value_of("href"@)), source },
    );
    match source {
        Err(error) => Err(Stopped { error, calls: r2.calls }),
        Ok(Some(source)) => Ok(r2.inline(InlineView::Image { alt, source })),
        Ok(None) => if inlines::blank(alt) {
            Ok(r2)
        } else {
            Ok(r2.inline(InlineView::Image { alt, source: ImageSource::Unavailable }))
        },
    }
}

/// The text of an element's first `n` children and all they hold, hidden
/// elements left out.
pub open spec fn visible_text(rules: Seq<RuleText>, elem: Element, n: int) -> Seq<char>
    decreases elem, n,
{
    if n <= 0 || n > elem.children@.len() {
        Seq::empty()
    } else {
        proof {
            rows::lemma_elem_at(elem, n - 1);
        }
        visible_text(rules, elem, n - 1) + match rows::elem_at(elem.children@, n - 1) {
            Some(e) => if cascade::resolved(rules, e).hidden {
                Seq::empty()
            } else {
                visible_text(rules, e, e.children@.len() as int)
            },
            None => elem.children@[n - 1]->Text_0@,
        }
    }
}

/// Whether one of those elements is hidden.
pub open spec fn hides_text(rules: Seq<RuleText>, elem: Element, n: int) -> bool
    decreases elem, n,
{
    if n <= 0 || n > elem.children@.len() {
        false
    } else {
        proof {
            rows::lemma_elem_at(elem, n - 1);
        }
        hides_text(rules, elem, n - 1) || match rows::elem_at(elem.children@, n - 1) {
            Some(e) => cascade::resolved(rules, e).hidden || hides_text(
                rules,
                e,
                e.children@.len() as int,
            ),
            None => false,
        }
    }
}

/// Preformatted text, verbatim.
pub open spec fn with_pre(rules: Seq<RuleText>, elem: Element, r: Run) -> Run {
    let n = elem.children@.len() as int;
    let text = visible_text(rules, elem, n);
    let seen = r.dropping(hides_text(rules, elem, n));
    if inlines::blank(text) {
        seen
    } else {
        seen.block(BlockView::CodeBlock { lang: None, text })
    }
}

/// The anchors among inlines.
pub open spec fn anchors_in(s: Seq<InlineView>) -> Seq<InlineView> {
    s.filter(|i: InlineView| i is Anchor)
}

/// A heading with that content. The heading's own styling is how it looks,
/// not markup applied to the words. One that shows nothing still carries
/// link targets: its own id and the anchors inside.
pub open spec fn with_heading(
    script: Seq<Call>,
    elem: Element,
    level: u8,
    inh: Inherited,
    blocks: Seq<BlockView>,
    r: Run,
) -> Run {
    let content = inlines::rebased(inlines::flattened(blocks), inh.delta.resolved());
    let raw = elem.value_of("id"@);
    let anchor = match raw {
        Some(_) => Some(anchor_reply(script, r)@),
        None => None,
    };
    let asked = match raw {
        Some(id) => asked_anchor(script, id, r),
        None => r,
    };
    if !inlines::all_empty(content) {
        asked.block(BlockView::Heading { level, anchor, content })
    } else {
        let kept = match anchor {
            Some(id) => seq![InlineView::Anchor(id)] + anchors_in(content),
            None => anchors_in(content),
        };
        if kept.len() > 0 {
            asked.block(BlockView::Paragraph(kept))
        } else {
            asked
        }
    }
}

/// A link with that label, where `lost` says that hidden content was dropped
/// from the label. A label left empty by that takes the link with it; one
/// that was never there does not. Without a target the label alone stays.
pub open spec fn with_link(
    target: Option<LinkTarget>,
    label: Seq<InlineView>,
    lost: bool,
    r: Run,
) -> Run {
    match target {
        Some(target) => if lost && inlines::all_empty(label) {
            r
        } else {
            r.inline(InlineView::Link { content: label, target })
        },
        None => Run { inlines: r.inlines + label, ..r },
    }
}

// ---------------------------------------------------------------------------
// Elements

/// The first `n` children of an element.
pub open spec fn walk_nodes(
    script: Seq<Call>,
    rules: Seq<RuleText>,
    elem: Element,
    n: int,
    inh: Inherited,
    r: Run,
) -> Result<Run, Stopped>
    decreases elem, 0int, n,
{
    if n <= 0 || n > elem.children@.len() {
        Ok(r)
    } else {
        proof {
            rows::lemma_elem_at(elem, n - 1);
        }
        match walk_nodes(script, rules, elem, n - 1, inh, r) {
            Err(s) => Err(s),
            Ok(p) => match rows::elem_at(elem.children@, n - 1) {
                Some(e) => walk_elem(script, rules, e, inh, p),
                None => Ok(texted(script, elem.children@[n - 1]->Text_0@, inh, p)),
            },
        }
    }
}

/// All children of an element.
pub open spec fn walk_children(
    script: Seq<Call>,
    rules: Seq<RuleText>,
    elem: Element,
    inh: Inherited,
    r: Run,
) -> Result<Run, Stopped>
    decreases elem, 1int, 0int,
{
    walk_nodes(script, rules, elem, elem.children@.len() as int, inh, r)
}

/// The content of an element in a walk of its own.
pub open spec fn walk_inside(
    script: Seq<Call>,
    rules: Seq<RuleText>,
    elem: Element,
    inh: Inherited,
    start: bool,
    r: Run,
) -> Result<Run, Stopped>
    decreases elem, 2int, 0int,
{
    match walk_children(script, rules, elem, inh, r.nested(start)) {
        Err(s) => Err(s),
        Ok(inner) => Ok(inner.flushed()),
    }
}

/// The list items that are kept, and the walk after them.
pub struct Items {
    pub kept: Seq<KeptView>,
    pub run: Run,
}

/// The first `n` of the given items. One that ends up without blocks although
/// it has content in the source is left out.
pub open spec fn walk_items(
    script: Seq<Call>,
    rules: Seq<RuleText>,
    elem: Element,
    items: Seq<usize>,
    numbers: Seq<i64>,
    n: int,
    inh: Inherited,
    r: Run,
) -> Result<Items, Stopped>
    decreases elem, 3int, n,
{
    if n <= 0 {
        Ok(Items { kept: Seq::empty(), run: r })
    } else {
        proof {
            rows::lemma_elem_at(elem, items[n - 1] as int);
        }
        match walk_items(script, rules, elem, items, numbers, n - 1, inh, r) {
            Err(s) => Err(s),
            Ok(p) => match rows::elem_at(elem.children@, items[n - 1] as int) {
                None => Ok(p),
                Some(li) => {
                    let own = inh.within(li, cascade::resolved(rules, li));
                    match walk_inside(script, rules, li, own, true, p.run) {
                        Err(s) => Err(s),
                        Ok(inner) => Ok(
                            Items {
                                kept: if inner.blocks.len() == 0 && tags::had_content(li) {
                                    p.kept
                                } else {
                                    p.kept.push(
                                        KeptView { number: numbers[n - 1], blocks: inner.blocks },
                                    )
                                },
                                run: p.run.after(inner),
                            },
                        ),
                    }
                },
            },
        }
    }
}

/// The visible items of a list.
pub open spec fn items_of(rules: Seq<RuleText>, elem: Element) -> Seq<usize> {
    rows::visible(rules, elem.children@, Part::Item, elem.children@.len() as int)
}

/// The explicit numbers of items.
pub open spec fn values_of(elem: Element, items: Seq<usize>) -> Seq<Option<i64>> {
    items.map_values(
        |i: usize|
            match rows::elem_at(elem.children@, i as int) {
                Some(li) => match lists::integer_of(li, "value"@) {
                    Some(v) => Some(v as i64),
                    None => None,
                },
                None => None,
            },
    )
}

/// The numbers of a list's items; those of a bullet list do not matter.
pub open spec fn item_numbers(elem: Element, items: Seq<usize>) -> Seq<i64> {
    lists::numbers(
        values_of(elem, items),
        lists::start_of(elem, items.len() as usize),
        elem.value_of("reversed"@) is Some,
    )
}

/// How a list's items are put into list blocks. Zero and negative numbers
/// are valid but cannot be counted up to from a start, so a list with one
/// carries every number as a literal label.
pub open spec fn style_of(elem: Element, numbers: Seq<i64>) -> ListStyle {
    if elem.local@ != "ol"@ {
        ListStyle::Bulleted
    } else if exists|k: int| 0 <= k < numbers.len() && (#[trigger] numbers[k]) < 1 {
        ListStyle::Labelled(lists::marker_of(elem))
    } else {
        ListStyle::Counted(lists::marker_of(elem))
    }
}

/// A list.
pub open spec fn walk_list(
    script: Seq<Call>,
    rules: Seq<RuleText>,
    elem: Element,
    inh: Inherited,
    r: Run,
) -> Result<Run, Stopped>
    decreases elem, 4int, 0int,
{
    let items = items_of(rules, elem);
    let numbers = item_numbers(elem, items);
    let seen = r.dropping(
        rows::any_concealed(rules, elem.children@, Part::Item, elem.children@.len() as int),
    );
    match walk_items(script, rules, elem, items, numbers, items.len() as int, inh, seen) {
        Err(s) => Err(s),
        Ok(all) => Ok(
            Run {
                blocks: all.run.blocks + lists::blocks_of(style_of(elem, numbers), all.kept),
                ..all.run
            },
        ),
    }
}

/// A grid, and the walk that filled it.
pub struct Cells {
    pub grid: Grid,
    pub run: Run,
}

/// The first `n` of the given cells of a row, placed into a grid.
pub open spec fn walk_cells(
    script: Seq<Call>,
    rules: Seq<RuleText>,
    tr: Element,
    cells: Seq<usize>,
    n: int,
    left: u32,
    inh: Inherited,
    c: Cells,
) -> Result<Cells, Stopped>
    decreases tr, 3int, n,
{
    if n <= 0 {
        Ok(c)
    } else {
        proof {
            rows::lemma_elem_at(tr, cells[n - 1] as int);
        }
        match walk_cells(script, rules, tr, cells, n - 1, left, inh, c) {
            Err(s) => Err(s),
            Ok(p) => match rows::elem_at(tr.children@, cells[n - 1] as int) {
                None => Ok(p),
                Some(cell) => {
                    let own = inh.within(cell, cascade::resolved(rules, cell));
                    match walk_inside(script, rules, cell, own, true, p.run) {
                        Err(s) => Err(s),
                        Ok(inner) => {
                            let run = p.run.after(inner);
                            let placed = grid::spanning(
                                inner.blocks,
                                rows::columns_of(cell),
                                rows::lines_of(cell, left),
                            );
                            if p.grid.fits(placed) {
                                Ok(Cells { grid: p.grid.with_cell(placed), run })
                            } else {
                                Err(
                                    Stopped {
                                        error: ConvertError::LimitExceeded,
                                        calls: run.calls,
                                    },
                                )
                            }
                        },
                    }
                },
            },
        }
    }
}

/// The first `n` of the given rows of a table.
pub open spec fn walk_rows(
    script: Seq<Call>,
    rules: Seq<RuleText>,
    table: Element,
    all: Seq<RowAt>,
    n: int,
    inh: Inherited,
    c: Cells,
) -> Result<Cells, Stopped>
    decreases table, 4int, n,
{
    if n <= 0 {
        Ok(c)
    } else {
        proof {
            rows::lemma_row_elem(table, all[n - 1]);
        }
        match walk_rows(script, rules, table, all, n - 1, inh, c) {
            Err(s) => Err(s),
            Ok(p) => match rows::row_elem(table, all[n - 1]) {
                None => Ok(p),
                Some(tr) => {
                    let cells = rows::cells_of(rules, tr);
                    walk_cells(
                        script,
                        rules,
                        tr,
                        cells,
                        cells.len() as int,
                        rows::rows_left(all, n - 1),
                        rows::row_inherits(rules, table, all[n - 1], inh),
                        Cells {
                            grid: p.grid.next(),
                            run: p.run.dropping(
                                rows::any_concealed(
                                    rules,
                                    tr.children@,
                                    Part::Cell,
                                    tr.children@.len() as int,
                                ),
                            ),
                        },
                    )
                },
            },
        }
    }
}

/// A table's caption, as a paragraph before the table.
pub open spec fn walk_caption(
    script: Seq<Call>,
    rules: Seq<RuleText>,
    table: Element,
    inh: Inherited,
    r: Run,
) -> Result<Run, Stopped>
    decreases table, 3int, 0int,
{
    match rows::named_child(table, "caption"@) {
        None => Ok(r),
        Some(caption) => {
            proof {
                if let Some(i) = rows::first_named(table.children@, "caption"@, 0) {
                    rows::lemma_elem_at(table, i);
                }
            }
            let props = cascade::resolved(rules, caption);
            if props.hidden {
                Ok(r.dropping(true))
            } else {
                match walk_inside(script, rules, caption, inh.within(caption, props), true, r) {
                    Err(s) => Err(s),
                    Ok(inner) => Ok(r.after(inner).paragraph(inlines::flattened(inner.blocks))),
                }
            }
        },
    }
}

/// The table that a filled grid makes; none when the grid is empty.
pub open spec fn with_table(
    script: Seq<Call>,
    cells: Seq<Seq<crate::model::SlotView>>,
    declared: usize,
    r: Run,
) -> Run {
    if cells.len() == 0 {
        r
    } else {
        let table = TableView { kind: TableKind::Data, grid: cells, header_rows: 0 };
        let headers = headers_reply(script, r);
        r.calling(Call::Headers { table, declared, rows: headers }).block(
            BlockView::Table(TableView { header_rows: headers, ..table }),
        )
    }
}

/// A table, after its caption.
pub open spec fn walk_table(
    script: Seq<Call>,
    rules: Seq<RuleText>,
    table: Element,
    inh: Inherited,
    r: Run,
) -> Result<Run, Stopped>
    decreases table, 5int, 0int,
{
    match walk_caption(script, rules, table, inh, r) {
        Err(s) => Err(s),
        Ok(captioned) => {
            let found = rows::rows_of(rules, table);
            let n = found.rows.len() as int;
            let seen = captioned.dropping(found.dropped);
            match walk_rows(
                script,
                rules,
                table,
                found.rows,
                n,
                inh,
                Cells { grid: Grid::empty(), run: seen },
            ) {
                Err(s) => Err(s),
                Ok(c) => Ok(
                    with_table(
                        script,
                        c.grid.rows(),
                        rows::declared_headers(rules, table, found.rows, n) as usize,
                        c.run,
                    ),
                ),
            }
        },
    }
}

/// A heading.
pub open spec fn walk_heading(
    script: Seq<Call>,
    rules: Seq<RuleText>,
    elem: Element,
    level: u8,
    inh: Inherited,
    r: Run,
) -> Result<Run, Stopped>
    decreases elem, 3int, 0int,
{
    match walk_inside(script, rules, elem, inh, true, r) {
        Err(s) => Err(s),
        Ok(inner) => Ok(with_heading(script, elem, level, inh, inner.blocks, r.after(inner))),
    }
}

/// A paragraph, with the anchors that its element stands for.
pub open spec fn walk_para(
    script: Seq<Call>,
    rules: Seq<RuleText>,
    elem: Element,
    inh: Inherited,
    r: Run,
) -> Result<Run, Stopped>
    decreases elem, 3int, 0int,
{
    let opened = anchored(script, elem, r);
    match walk_inside(script, rules, elem, inh, true, opened) {
        Err(s) => Err(s),
        Ok(inner) => Ok(
            Run { inlines: Seq::empty(), ..opened.after(inner) }.paragraph(
                opened.inlines + inlines::flattened(inner.blocks),
            ),
        ),
    }
}

/// A quotation, unless it is empty.
pub open spec fn walk_quote(
    script: Seq<Call>,
    rules: Seq<RuleText>,
    elem: Element,
    inh: Inherited,
    r: Run,
) -> Result<Run, Stopped>
    decreases elem, 3int, 0int,
{
    match walk_inside(script, rules, elem, inh, true, r) {
        Err(s) => Err(s),
        Ok(inner) => if inner.blocks.len() > 0 {
            Ok(r.after(inner).block(BlockView::BlockQuote(inner.blocks)))
        } else {
            Ok(r.after(inner))
        },
    }
}

/// An element that only groups content. With block-level children it stands
/// on lines of its own.
pub open spec fn walk_container(
    script: Seq<Call>,
    rules: Seq<RuleText>,
    elem: Element,
    inh: Inherited,
    r: Run,
) -> Result<Run, Stopped>
    decreases elem, 3int, 0int,
{
    let opened = anchored(script, elem, r);
    if tags::blocks_among(elem) {
        match walk_children(script, rules, elem, inh, opened.flushed()) {
            Err(s) => Err(s),
            Ok(p) => Ok(p.flushed()),
        }
    } else {
        walk_children(script, rules, elem, inh, opened)
    }
}

/// A link. What was dropped before it does not count for its label; what the
/// label drops counts for what stands around the link too.
pub open spec fn walk_link(
    script: Seq<Call>,
    rules: Seq<RuleText>,
    elem: Element,
    inh: Inherited,
    r: Run,
) -> Result<Run, Stopped>
    decreases elem, 3int, 0int,
{
    let href = elem.value_of("href"@);
    let target = match href {
        Some(_) => link_reply(script, r),
        None => None,
    };
    let asked = match href {
        Some(href) => r.calling(Call::Link { href, target }),
        None => r,
    };
    let start = inlines::at_boundary(r.inlines, r.start);
    match walk_inside(script, rules, elem, inh, start, Run { dropped: false, ..asked }) {
        Err(s) => Err(s),
        Ok(inner) => Ok(
            with_link(
                target,
                inlines::flattened(inner.blocks),
                inner.dropped,
                Run { dropped: asked.dropped || inner.dropped, calls: inner.calls, ..asked },
            ),
        ),
    }
}

/// An element. A hidden one drops out with all it holds.
pub open spec fn walk_elem(
    script: Seq<Call>,
    rules: Seq<RuleText>,
    elem: Element,
    inherited: Inherited,
    r: Run,
) -> Result<Run, Stopped>
    decreases elem, 6int, 0int,
{
    let props = cascade::resolved(rules, elem);
    let inh = inherited.within(elem, props);
    if props.hidden {
        Ok(r.dropping(true))
    } else {
        match tags::kind_of(elem.local@) {
            ElemKind::Heading(level) => walk_heading(
                script,
                rules,
                elem,
                level,
                inh,
                r.flushed(),
            ),
            ElemKind::Para => walk_para(script, rules, elem, inh, r.flushed()),
            ElemKind::List => walk_list(script, rules, elem, inh, r.flushed()),
            ElemKind::Table => walk_table(script, rules, elem, inh, r.flushed()),
            ElemKind::Quote => walk_quote(script, rules, elem, inh, r.flushed()),
            ElemKind::Pre => Ok(with_pre(rules, elem, r.flushed())),
            ElemKind::Rule => Ok(r.flushed().block(BlockView::Rule)),
            ElemKind::Math => Ok(with_math(script, elem, r)),
            ElemKind::Container => walk_container(script, rules, elem, inh, r),
            ElemKind::Ignored => Ok(r),
            ElemKind::Break => Ok(anchored(script, elem, r).inline(InlineView::LineBreak)),
            ElemKind::Image => with_image(script, elem, anchored(script, elem, r)),
            ElemKind::Link => walk_link(script, rules, elem, inh, anchored(script, elem, r)),
            ElemKind::Inline => walk_children(
                script,
                rules,
                elem,
                inh,
                anchored(script, elem, r),
            ),
        }
    }
}

/// A whole body.
pub open spec fn walk_body(script: Seq<Call>, rules: Seq<RuleText>, body: Element) -> Result<
    Run,
    Stopped,
> {
    let props = cascade::resolved(rules, body);
    if props.hidden {
        Ok(Run::new())
    } else {
        walk_inside(script, rules, body, Inherited::none().with(props), true, Run::new())
    }
}

} // verus!
