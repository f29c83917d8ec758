//! What is noted as dropped: exactly that something hidden was left out, at
//! whatever depth, and nothing but a link's label takes notice of it.

use crate::cascade;
use crate::css::RuleText;
use crate::grid::Grid;
use crate::hooks::Call;
use crate::inlines;
use crate::model::InlineView;
use crate::rows;
use crate::rows::{Part, RowAt};
use crate::tags;
use crate::tags::{ElemKind, Inherited};
use crate::walk;
use crate::walk::{Cells, Run, Stopped};
use crate::xml::Element;
use vstd::prelude::*;

verus! {

// ---------------------------------------------------------------------------
// Where something is hidden

/// Whether something among an element's first `n` children is hidden, at any
/// depth: an element, or text under a font size of zero.
pub open spec fn hides_nodes(rules: Seq<RuleText>, elem: Element, n: int, inh: Inherited) -> bool
    decreases elem, 0int, n,
{
    if n <= 0 || n > elem.children@.len() {
        false
    } else {
        proof {
            rows::lemma_elem_at(elem, n - 1);
        }
        hides_nodes(rules, elem, n - 1, inh) || match rows::elem_at(elem.children@, n - 1) {
            Some(e) => hides(rules, e, inh),
            None => inh.font_size_zero,
        }
    }
}

/// The same of all that an element holds.
pub open spec fn hides_inside(rules: Seq<RuleText>, elem: Element, inh: Inherited) -> bool
    decreases elem, 1int, 0int,
{
    hides_nodes(rules, elem, elem.children@.len() as int, inh)
}

/// The same of the first `n` of the given items or cells.
pub open spec fn hides_parts(
    rules: Seq<RuleText>,
    elem: Element,
    parts: Seq<usize>,
    n: int,
    inh: Inherited,
) -> bool
    decreases elem, 2int, n,
{
    if n <= 0 {
        false
    } else {
        proof {
            rows::lemma_elem_at(elem, parts[n - 1] as int);
        }
        hides_parts(rules, elem, parts, n - 1, inh) || match rows::elem_at(
            elem.children@,
            parts[n - 1] as int,
        ) {
            Some(e) => hides_inside(rules, e, inh.within(e, cascade::resolved(rules, e))),
            None => false,
        }
    }
}

/// The same of the first `n` of the given rows.
pub open spec fn hides_rows(
    rules: Seq<RuleText>,
    table: Element,
    all: Seq<RowAt>,
    n: int,
    inh: Inherited,
) -> bool
    decreases table, 3int, n,
{
    if n <= 0 {
        false
    } else {
        proof {
            rows::lemma_row_elem(table, all[n - 1]);
        }
        hides_rows(rules, table, all, n - 1, inh) || match rows::row_elem(table, all[n - 1]) {
            Some(tr) => {
                let cells = rows::cells_of(rules, tr);
                rows::any_concealed(rules, tr.children@, Part::Cell, tr.children@.len() as int)
                    || hides_parts(
                    rules,
                    tr,
                    cells,
                    cells.len() as int,
                    rows::row_inherits(rules, table, all[n - 1], inh),
                )
            },
            None => false,
        }
    }
}

/// The same of a table's caption.
pub open spec fn hides_caption(rules: Seq<RuleText>, table: Element, inh: Inherited) -> bool
    decreases table, 2int, 0int,
{
    match rows::named_child(table, "caption"@) {
        None => false,
        Some(caption) => {
            proof {
                if let Some(i) = rows::first_named(table.children@, "caption"@, 0) {
                    rows::lemma_elem_at(table, i);
                }
            }
            let props = cascade::resolved(rules, caption);
            props.hidden || hides_inside(rules, caption, inh.within(caption, props))
        },
    }
}

/// Whether an element is hidden, or something that it shows holds something
/// hidden.
pub open spec fn hides(rules: Seq<RuleText>, elem: Element, inherited: Inherited) -> bool
    decreases elem, 4int, 0int,
{
    let props = cascade::resolved(rules, elem);
    let inh = inherited.within(elem, props);
    props.hidden || match tags::kind_of(elem.local@) {
        ElemKind::Heading(_)
        | ElemKind::Para
        | ElemKind::Quote
        | ElemKind::Container
        | ElemKind::Link
        | ElemKind::Inline => hides_inside(rules, elem, inh),
        ElemKind::List => {
            let items = walk::items_of(rules, elem);
            rows::any_concealed(rules, elem.children@, Part::Item, elem.children@.len() as int)
                || hides_parts(rules, elem, items, items.len() as int, inh)
        },
        ElemKind::Table => {
            let found = rows::rows_of(rules, elem);
            hides_caption(rules, elem, inh) || found.dropped || hides_rows(
                rules,
                elem,
                found.rows,
                found.rows.len() as int,
                inh,
            )
        },
        ElemKind::Pre => walk::hides_text(rules, elem, elem.children@.len() as int),
        ElemKind::Rule
        | ElemKind::Math
        | ElemKind::Ignored
        | ElemKind::Break
        | ElemKind::Image => false,
    }
}

// ---------------------------------------------------------------------------
// What is noted

/// The same walk, but for what is noted.
pub open spec fn noting(r: Run, dropped: bool) -> Run {
    Run { dropped, ..r }
}

/// Whether `out` notes a drop in addition if `hid`, and `other` is the same
/// outcome for a walk that began with `dropped` noted.
pub open spec fn notes(
    out: Result<Run, Stopped>,
    other: Result<Run, Stopped>,
    hid: bool,
    r: Run,
    dropped: bool,
) -> bool {
    match out {
        Ok(p) => p.dropped == (r.dropped || hid) && other == Ok::<Run, Stopped>(
            noting(p, dropped || hid),
        ),
        Err(s) => other == Err::<Run, Stopped>(s),
    }
}

proof fn lemma_nodes(
    script: Seq<Call>,
    rules: Seq<RuleText>,
    elem: Element,
    n: int,
    inh: Inherited,
    r: Run,
    dropped: bool,
)
    ensures
        notes(
            walk::walk_nodes(script, rules, elem, n, inh, r),
            walk::walk_nodes(script, rules, elem, n, inh, noting(r, dropped)),
            hides_nodes(rules, elem, n, inh),
            r,
            dropped,
        ),
    decreases elem, 0int, n,
{
    if 0 < n <= elem.children@.len() {
        lemma_nodes(script, rules, elem, n - 1, inh, r, dropped);
        if let Ok(p) = walk::walk_nodes(script, rules, elem, n - 1, inh, r) {
            rows::lemma_elem_at(elem, n - 1);
            if let Some(e) = rows::elem_at(elem.children@, n - 1) {
                lemma_elem(
                    script,
                    rules,
                    e,
                    inh,
                    p,
                    dropped || hides_nodes(rules, elem, n - 1, inh),
                );
            }
        }
    }
}

proof fn lemma_inside(
    script: Seq<Call>,
    rules: Seq<RuleText>,
    elem: Element,
    inh: Inherited,
    start: bool,
    r: Run,
    dropped: bool,
)
    ensures
        notes(
            walk::walk_inside(script, rules, elem, inh, start, r),
            walk::walk_inside(script, rules, elem, inh, start, noting(r, dropped)),
            hides_inside(rules, elem, inh),
            r,
            dropped,
        ),
    decreases elem, 2int, 0int,
{
    let n = elem.children@.len() as int;
    lemma_nodes(script, rules, elem, n, inh, r.nested(start), dropped);
    assert(noting(r, dropped).nested(start) == noting(r.nested(start), dropped));
    assert(walk::walk_children(script, rules, elem, inh, r.nested(start)) == walk::walk_nodes(
        script,
        rules,
        elem,
        n,
        inh,
        r.nested(start),
    ));
}

proof fn lemma_items(
    script: Seq<Call>,
    rules: Seq<RuleText>,
    elem: Element,
    items: Seq<usize>,
    numbers: Seq<i64>,
    n: int,
    inh: Inherited,
    r: Run,
    dropped: bool,
)
    ensures
        ({
            let hid = hides_parts(rules, elem, items, n, inh);
            let other = walk::walk_items(
                script,
                rules,
                elem,
                items,
                numbers,
                n,
                inh,
                noting(r, dropped),
            );
            match walk::walk_items(script, rules, elem, items, numbers, n, inh, r) {
                Ok(p) => other matches Ok(q) && q.kept == p.kept && notes(
                    Ok(p.run),
                    Ok(q.run),
                    hid,
                    r,
                    dropped,
                ),
                Err(s) => other matches Err(t) && t == s,
            }
        }),
    decreases elem, 3int, n,
{
    if n > 0 {
        lemma_items(script, rules, elem, items, numbers, n - 1, inh, r, dropped);
        if let Ok(p) = walk::walk_items(script, rules, elem, items, numbers, n - 1, inh, r) {
            rows::lemma_elem_at(elem, items[n - 1] as int);
            if let Some(li) = rows::elem_at(elem.children@, items[n - 1] as int) {
                lemma_inside(
                    script,
                    rules,
                    li,
                    inh.within(li, cascade::resolved(rules, li)),
                    true,
                    p.run,
                    dropped || hides_parts(rules, elem, items, n - 1, inh),
                );
            }
        }
    }
}

proof fn lemma_cells(
    script: Seq<Call>,
    rules: Seq<RuleText>,
    tr: Element,
    cells: Seq<usize>,
    n: int,
    left: u32,
    inh: Inherited,
    c: Cells,
    dropped: bool,
)
    ensures
        ({
            let hid = hides_parts(rules, tr, cells, n, inh);
            let other = walk::walk_cells(
                script,
                rules,
                tr,
                cells,
                n,
                left,
                inh,
                Cells { run: noting(c.run, dropped), ..c },
            );
            match walk::walk_cells(script, rules, tr, cells, n, left, inh, c) {
                Ok(p) => other matches Ok(q) && q.grid == p.grid && notes(
                    Ok(p.run),
                    Ok(q.run),
                    hid,
                    c.run,
                    dropped,
                ),
                Err(s) => other matches Err(t) && t == s,
            }
        }),
    decreases tr, 3int, n,
{
    if n > 0 {
        lemma_cells(script, rules, tr, cells, n - 1, left, inh, c, dropped);
        if let Ok(p) = walk::walk_cells(script, rules, tr, cells, n - 1, left, inh, c) {
            rows::lemma_elem_at(tr, cells[n - 1] as int);
            if let Some(cell) = rows::elem_at(tr.children@, cells[n - 1] as int) {
                lemma_inside(
                    script,
                    rules,
                    cell,
                    inh.within(cell, cascade::resolved(rules, cell)),
                    true,
                    p.run,
                    dropped || hides_parts(rules, tr, cells, n - 1, inh),
                );
            }
        }
    }
}

proof fn lemma_rows(
    script: Seq<Call>,
    rules: Seq<RuleText>,
    table: Element,
    all: Seq<RowAt>,
    n: int,
    inh: Inherited,
    c: Cells,
    dropped: bool,
)
    ensures
        ({
            let hid = hides_rows(rules, table, all, n, inh);
            let other = walk::walk_rows(
                script,
                rules,
                table,
                all,
                n,
                inh,
                Cells { run: noting(c.run, dropped), ..c },
            );
            match walk::walk_rows(script, rules, table, all, n, inh, c) {
                Ok(p) => other matches Ok(q) && q.grid == p.grid && notes(
                    Ok(p.run),
                    Ok(q.run),
                    hid,
                    c.run,
                    dropped,
                ),
                Err(s) => other matches Err(t) && t == s,
            }
        }),
    decreases table, 4int, n,
{
    if n > 0 {
        lemma_rows(script, rules, table, all, n - 1, inh, c, dropped);
        if let Ok(p) = walk::walk_rows(script, rules, table, all, n - 1, inh, c) {
            rows::lemma_row_elem(table, all[n - 1]);
            if let Some(tr) = rows::row_elem(table, all[n - 1]) {
                let cells = rows::cells_of(rules, tr);
                let concealed = rows::any_concealed(
                    rules,
                    tr.children@,
                    Part::Cell,
                    tr.children@.len() as int,
                );
                let begun = Cells { grid: p.grid.next(), run: p.run.dropping(concealed) };
                let before = dropped || hides_rows(rules, table, all, n - 1, inh) || concealed;
                lemma_cells(
                    script,
                    rules,
                    tr,
                    cells,
                    cells.len() as int,
                    rows::rows_left(all, n - 1),
                    rows::row_inherits(rules, table, all[n - 1], inh),
                    begun,
                    before,
                );
            }
        }
    }
}

proof fn lemma_list(
    script: Seq<Call>,
    rules: Seq<RuleText>,
    elem: Element,
    inh: Inherited,
    r: Run,
    dropped: bool,
)
    ensures
        ({
            let items = walk::items_of(rules, elem);
            notes(
                walk::walk_list(script, rules, elem, inh, r),
                walk::walk_list(script, rules, elem, inh, noting(r, dropped)),
                rows::any_concealed(rules, elem.children@, Part::Item, elem.children@.len() as int)
                    || hides_parts(rules, elem, items, items.len() as int, inh),
                r,
                dropped,
            )
        }),
    decreases elem, 4int, 0int,
{
    let items = walk::items_of(rules, elem);
    let numbers = walk::item_numbers(elem, items);
    let concealed = rows::any_concealed(
        rules,
        elem.children@,
        Part::Item,
        elem.children@.len() as int,
    );
    let seen = r.dropping(concealed);
    lemma_items(
        script,
        rules,
        elem,
        items,
        numbers,
        items.len() as int,
        inh,
        seen,
        dropped || concealed,
    );
    assert(noting(r, dropped).dropping(concealed) == noting(seen, dropped || concealed));
}

proof fn lemma_caption(
    script: Seq<Call>,
    rules: Seq<RuleText>,
    table: Element,
    inh: Inherited,
    r: Run,
    dropped: bool,
)
    ensures
        notes(
            walk::walk_caption(script, rules, table, inh, r),
            walk::walk_caption(script, rules, table, inh, noting(r, dropped)),
            hides_caption(rules, table, inh),
            r,
            dropped,
        ),
    decreases table, 3int, 0int,
{
    if let Some(caption) = rows::named_child(table, "caption"@) {
        if let Some(i) = rows::first_named(table.children@, "caption"@, 0) {
            rows::lemma_elem_at(table, i);
        }
        let own = inh.within(caption, cascade::resolved(rules, caption));
        lemma_inside(script, rules, caption, own, true, r, dropped);
    }
}

proof fn lemma_table(
    script: Seq<Call>,
    rules: Seq<RuleText>,
    table: Element,
    inh: Inherited,
    r: Run,
    dropped: bool,
)
    ensures
        ({
            let found = rows::rows_of(rules, table);
            notes(
                walk::walk_table(script, rules, table, inh, r),
                walk::walk_table(script, rules, table, inh, noting(r, dropped)),
                hides_caption(rules, table, inh) || found.dropped || hides_rows(
                    rules,
                    table,
                    found.rows,
                    found.rows.len() as int,
                    inh,
                ),
                r,
                dropped,
            )
        }),
    decreases table, 5int, 0int,
{
    lemma_caption(script, rules, table, inh, r, dropped);
    if let Ok(captioned) = walk::walk_caption(script, rules, table, inh, r) {
        let found = rows::rows_of(rules, table);
        let seen = captioned.dropping(found.dropped);
        let before = dropped || hides_caption(rules, table, inh) || found.dropped;
        lemma_rows(
            script,
            rules,
            table,
            found.rows,
            found.rows.len() as int,
            inh,
            Cells { grid: Grid::empty(), run: seen },
            before,
        );
    }
}

proof fn lemma_link(
    script: Seq<Call>,
    rules: Seq<RuleText>,
    elem: Element,
    inh: Inherited,
    r: Run,
    dropped: bool,
)
    ensures
        notes(
            walk::walk_link(script, rules, elem, inh, r),
            walk::walk_link(script, rules, elem, inh, noting(r, dropped)),
            hides_inside(rules, elem, inh),
            r,
            dropped,
        ),
    decreases elem, 3int, 0int,
{
    let other = noting(r, dropped);
    assert(walk::link_reply(script, r) == walk::link_reply(script, other));
    let target = walk::link_reply(script, r);
    let asked = match elem.value_of("href"@) {
        Some(href) => r.calling(Call::Link { href, target }),
        None => r,
    };
    let start = inlines::at_boundary(r.inlines, r.start);
    lemma_inside(script, rules, elem, inh, start, noting(asked, false), false);
}

proof fn lemma_elem(
    script: Seq<Call>,
    rules: Seq<RuleText>,
    elem: Element,
    inherited: Inherited,
    r: Run,
    dropped: bool,
)
    ensures
        notes(
            walk::walk_elem(script, rules, elem, inherited, r),
            walk::walk_elem(script, rules, elem, inherited, noting(r, dropped)),
            hides(rules, elem, inherited),
            r,
            dropped,
        ),
    decreases elem, 6int, 0int,
{
    let props = cascade::resolved(rules, elem);
    let inh = inherited.within(elem, props);
    let other = noting(r, dropped);
    let n = elem.children@.len() as int;
    let f = r.flushed();
    let a = walk::anchored(script, elem, r);
    assert(other.flushed() == noting(f, dropped));
    assert(walk::anchored(script, elem, other) == noting(a, dropped));
    if !props.hidden {
        match tags::kind_of(elem.local@) {
            ElemKind::Heading(level) => {
                lemma_inside(script, rules, elem, inh, true, f, dropped);
            },
            ElemKind::Para => {
                let opened = walk::anchored(script, elem, f);
                assert(walk::anchored(script, elem, noting(f, dropped)) == noting(opened, dropped));
                lemma_inside(script, rules, elem, inh, true, opened, dropped);
            },
            ElemKind::List => {
                lemma_list(script, rules, elem, inh, f, dropped);
            },
            ElemKind::Table => {
                lemma_table(script, rules, elem, inh, f, dropped);
            },
            ElemKind::Quote => {
                lemma_inside(script, rules, elem, inh, true, f, dropped);
            },
            ElemKind::Container => {
                let g = a.flushed();
                assert(noting(a, dropped).flushed() == noting(g, dropped));
                lemma_nodes(script, rules, elem, n, inh, g, dropped);
                lemma_nodes(script, rules, elem, n, inh, a, dropped);
            },
            ElemKind::Link => {
                lemma_link(script, rules, elem, inh, a, dropped);
            },
            ElemKind::Inline => {
                lemma_nodes(script, rules, elem, n, inh, a, dropped);
            },
            ElemKind::Pre
            | ElemKind::Rule
            | ElemKind::Math
            | ElemKind::Ignored
            | ElemKind::Break
            | ElemKind::Image => {},
        }
    }
}

/// A drop is noted for exactly the elements that are hidden or that hold
/// something hidden among what they show, at any depth; and what was noted
/// before an element makes no difference to anything else that comes of it.
pub proof fn law_drops_are_noted_exactly(
    script: Seq<Call>,
    rules: Seq<RuleText>,
    elem: Element,
    inh: Inherited,
    r: Run,
    dropped: bool,
)
    ensures
        notes(
            walk::walk_elem(script, rules, elem, inh, r),
            walk::walk_elem(script, rules, elem, inh, noting(r, dropped)),
            hides(rules, elem, inh),
            r,
            dropped,
        ),
{
    lemma_elem(script, rules, elem, inh, r, dropped);
}

/// A link that leads somewhere, and whose label shows nothing, is dropped
/// whole if something in the label was hidden, at any depth and also inside
/// another link, and is kept if nothing was. What was dropped before the link
/// makes no difference.
pub proof fn law_hidden_label_drops_the_link(
    script: Seq<Call>,
    rules: Seq<RuleText>,
    elem: Element,
    inh: Inherited,
    r: Run,
)
    requires
        elem.value_of("href"@) is Some,
        walk::link_reply(script, r) is Some,
    ensures
        ({
            let href = elem.value_of("href"@)->0;
            let target = walk::link_reply(script, r);
            let asked = r.calling(Call::Link { href, target });
            let start = inlines::at_boundary(r.inlines, r.start);
            let hid = hides_inside(rules, elem, inh);
            match walk::walk_inside(script, rules, elem, inh, start, noting(asked, false)) {
                Ok(inner) => {
                    let label = inlines::flattened(inner.blocks);
                    let passed = Run { calls: inner.calls, ..r }.dropping(hid);
                    walk::walk_link(script, rules, elem, inh, r) == Ok::<Run, Stopped>(
                        if hid && inlines::all_empty(label) {
                            passed
                        } else {
                            passed.inline(InlineView::Link { content: label, target: target->0 })
                        },
                    )
                },
                Err(s) => walk::walk_link(script, rules, elem, inh, r) == Err::<Run, Stopped>(s),
            }
        }),
{
    let href = elem.value_of("href"@)->0;
    let target = walk::link_reply(script, r);
    let asked = r.calling(Call::Link { href, target });
    let start = inlines::at_boundary(r.inlines, r.start);
    lemma_inside(script, rules, elem, inh, start, noting(asked, false), false);
}

} // verus!
