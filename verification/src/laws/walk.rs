//! What every walk promises: where its errors come from, and that nothing it
//! has done is undone.

use crate::cascade;
use crate::css::RuleText;
use crate::error::ConvertError;
use crate::grid;
use crate::grid::Grid;
use crate::hooks::Call;
use crate::inlines;
use crate::rows;
use crate::rows::{Part, RowAt};
use crate::tags;
use crate::tags::{ElemKind, Inherited};
use crate::walk;
use crate::walk::{Cells, Run, Stopped};
use crate::xml::Element;
use vstd::prelude::*;

verus! {

/// Whether an error is the answer to the last question, about an image, or
/// says that a table got too wide.
pub open spec fn explained(s: Stopped) -> bool {
    ||| s.error == ConvertError::LimitExceeded
    ||| s.calls.len() > 0 && (s.calls.last() matches Call::Image { source: Err(e), .. } && e
        == s.error)
}

/// Whether a step from `r` has undone nothing: every call stays recorded,
/// every finished block stays, and a drop stays noted.
pub open spec fn onward(r: Run, out: Result<Run, Stopped>) -> bool {
    match out {
        Ok(p) => {
            &&& walk::covers(p.calls, r.calls)
            &&& r.blocks.is_prefix_of(p.blocks)
            &&& r.dropped ==> p.dropped
        },
        Err(s) => walk::covers(s.calls, r.calls) && explained(s),
    }
}

/// The same of a nested walk, whose blocks are its own.
pub open spec fn inward(r: Run, out: Result<Run, Stopped>) -> bool {
    match out {
        Ok(p) => {
            &&& walk::covers(p.calls, r.calls)
            &&& r.dropped ==> p.dropped
        },
        Err(s) => walk::covers(s.calls, r.calls) && explained(s),
    }
}

proof fn lemma_prefix(r: Run, p: Run)
    requires
        r.blocks.is_prefix_of(p.blocks),
    ensures
        r.blocks.is_prefix_of(p.flushed().blocks),
        forall|b: crate::model::BlockView| #[trigger]
            r.blocks.is_prefix_of(p.block(b).blocks),
{
    assert forall|b: crate::model::BlockView| #[trigger] r.blocks.is_prefix_of(p.block(b).blocks) by {
        assert(r.blocks =~= p.block(b).blocks.take(r.blocks.len() as int));
    }
    assert(r.blocks =~= p.flushed().blocks.take(r.blocks.len() as int));
}

proof fn lemma_self(r: Run)
    ensures
        r.blocks.is_prefix_of(r.blocks),
        walk::covers(r.calls, r.calls),
{
    assert(r.blocks =~= r.blocks.take(r.blocks.len() as int));
}

proof fn lemma_chain(r: Run, p: Run, out: Result<Run, Stopped>)
    requires
        onward(r, Ok(p)),
        onward(p, out),
    ensures
        onward(r, out),
{
    if let Ok(q) = out {
        assert(r.blocks =~= q.blocks.take(r.blocks.len() as int));
    }
}

proof fn lemma_anchored(script: Seq<Call>, elem: Element, r: Run)
    ensures
        onward(r, Ok(walk::anchored(script, elem, r))),
{
    lemma_self(r);
}

proof fn lemma_flushed(r: Run)
    ensures
        onward(r, Ok(r.flushed())),
{
    lemma_self(r);
    lemma_prefix(r, r);
}

proof fn lemma_nodes(
    script: Seq<Call>,
    rules: Seq<RuleText>,
    elem: Element,
    n: int,
    inh: Inherited,
    r: Run,
)
    ensures
        onward(r, walk::walk_nodes(script, rules, elem, n, inh, r)),
    decreases elem, 0int, n,
{
    lemma_self(r);
    if 0 < n <= elem.children@.len() {
        lemma_nodes(script, rules, elem, n - 1, inh, r);
        if let Ok(p) = walk::walk_nodes(script, rules, elem, n - 1, inh, r) {
            lemma_self(p);
            rows::lemma_elem_at(elem, n - 1);
            if let Some(e) = rows::elem_at(elem.children@, n - 1) {
                lemma_elem(script, rules, e, inh, p);
                lemma_chain(r, p, walk::walk_elem(script, rules, e, inh, p));
            } else {
                lemma_chain(
                    r,
                    p,
                    Ok(walk::texted(script, elem.children@[n - 1]->Text_0@, inh, p)),
                );
            }
        }
    }
}

proof fn lemma_inside(
    script: Seq<Call>,
    rules: Seq<RuleText>,
    elem: Element,
    inh: Inherited,
    start: bool,
    r: Run,
)
    ensures
        inward(r, walk::walk_inside(script, rules, elem, inh, start, r)),
    decreases elem, 2int, 0int,
{
    lemma_nodes(script, rules, elem, elem.children@.len() as int, inh, r.nested(start));
}

proof fn lemma_items(
    script: Seq<Call>,
    rules: Seq<RuleText>,
    elem: Element,
    items: Seq<usize>,
    numbers: Seq<i64>,
    n: int,
    inh: Inherited,
    r: Run,
)
    ensures
        match walk::walk_items(script, rules, elem, items, numbers, n, inh, r) {
            Ok(all) => onward(r, Ok(all.run)),
            Err(s) => onward(r, Err(s)),
        },
    decreases elem, 3int, n,
{
    lemma_self(r);
    if n > 0 {
        lemma_items(script, rules, elem, items, numbers, n - 1, inh, r);
        if let Ok(p) = walk::walk_items(script, rules, elem, items, numbers, n - 1, inh, r) {
            rows::lemma_elem_at(elem, items[n - 1] as int);
            if let Some(li) = rows::elem_at(elem.children@, items[n - 1] as int) {
                let own = inh.within(li, cascade::resolved(rules, li));
                lemma_inside(script, rules, li, own, true, p.run);
            }
        }
    }
}

proof fn lemma_cells(
    script: Seq<Call>,
    rules: Seq<RuleText>,
    tr: Element,
    cells: Seq<usize>,
    n: int,
    left: u32,
    inh: Inherited,
    c: Cells,
)
    ensures
        match walk::walk_cells(script, rules, tr, cells, n, left, inh, c) {
            Ok(p) => onward(c.run, Ok(p.run)),
            Err(s) => onward(c.run, Err(s)),
        },
    decreases tr, 3int, n,
{
    lemma_self(c.run);
    if n > 0 {
        lemma_cells(script, rules, tr, cells, n - 1, left, inh, c);
        if let Ok(p) = walk::walk_cells(script, rules, tr, cells, n - 1, left, inh, c) {
            rows::lemma_elem_at(tr, cells[n - 1] as int);
            if let Some(cell) = rows::elem_at(tr.children@, cells[n - 1] as int) {
                let own = inh.within(cell, cascade::resolved(rules, cell));
                lemma_inside(script, rules, cell, own, true, p.run);
            }
        }
    }
}

proof fn lemma_rows(
    script: Seq<Call>,
    rules: Seq<RuleText>,
    table: Element,
    all: Seq<RowAt>,
    n: int,
    inh: Inherited,
    c: Cells,
)
    ensures
        match walk::walk_rows(script, rules, table, all, n, inh, c) {
            Ok(p) => onward(c.run, Ok(p.run)),
            Err(s) => onward(c.run, Err(s)),
        },
    decreases table, 4int, n,
{
    lemma_self(c.run);
    if n > 0 {
        lemma_rows(script, rules, table, all, n - 1, inh, c);
        if let Ok(p) = walk::walk_rows(script, rules, table, all, n - 1, inh, c) {
            rows::lemma_row_elem(table, all[n - 1]);
            if let Some(tr) = rows::row_elem(table, all[n - 1]) {
                let cells = rows::cells_of(rules, tr);
                let begun = Cells {
                    grid: p.grid.next(),
                    run: p.run.dropping(
                        rows::any_concealed(
                            rules,
                            tr.children@,
                            Part::Cell,
                            tr.children@.len() as int,
                        ),
                    ),
                };
                lemma_cells(
                    script,
                    rules,
                    tr,
                    cells,
                    cells.len() as int,
                    rows::rows_left(all, n - 1),
                    rows::row_inherits(rules, table, all[n - 1], inh),
                    begun,
                );
                lemma_self(p.run);
                lemma_chain(c.run, p.run, Ok(begun.run));
                match walk::walk_cells(
                    script,
                    rules,
                    tr,
                    cells,
                    cells.len() as int,
                    rows::rows_left(all, n - 1),
                    rows::row_inherits(rules, table, all[n - 1], inh),
                    begun,
                ) {
                    Ok(q) => {
                        lemma_chain(c.run, begun.run, Ok(q.run));
                    },
                    Err(s) => {
                        lemma_chain(c.run, begun.run, Err(s));
                    },
                }
            }
        }
    }
}

proof fn lemma_table(
    script: Seq<Call>,
    rules: Seq<RuleText>,
    table: Element,
    inh: Inherited,
    r: Run,
)
    ensures
        onward(r, walk::walk_table(script, rules, table, inh, r)),
    decreases table, 5int, 0int,
{
    lemma_self(r);
    if let Some(caption) = rows::named_child(table, "caption"@) {
        if let Some(i) = rows::first_named(table.children@, "caption"@, 0) {
            rows::lemma_elem_at(table, i);
        }
        let props = cascade::resolved(rules, caption);
        lemma_inside(script, rules, caption, inh.within(caption, props), true, r);
        if let Ok(inner) = walk::walk_inside(
            script,
            rules,
            caption,
            inh.within(caption, props),
            true,
            r,
        ) {
            lemma_prefix(r, r.after(inner));
        }
    }
    if let Ok(captioned) = walk::walk_caption(script, rules, table, inh, r) {
        assert(onward(r, Ok(captioned)));
        let found = rows::rows_of(rules, table);
        let n = found.rows.len() as int;
        let seen = captioned.dropping(found.dropped);
        lemma_self(captioned);
        lemma_chain(r, captioned, Ok(seen));
        let c = Cells { grid: Grid::empty(), run: seen };
        lemma_rows(script, rules, table, found.rows, n, inh, c);
        match walk::walk_rows(script, rules, table, found.rows, n, inh, c) {
            Ok(p) => {
                lemma_chain(r, seen, Ok(p.run));
                lemma_self(p.run);
                lemma_prefix(p.run, p.run);
                let declared = rows::declared_headers(rules, table, found.rows, n) as usize;
                let end = walk::with_table(script, p.grid.rows(), declared, p.run);
                assert(onward(p.run, Ok(end)));
                lemma_chain(r, p.run, Ok(end));
            },
            Err(s) => {
                lemma_chain(r, seen, Err(s));
            },
        }
    }
}

proof fn lemma_list(
    script: Seq<Call>,
    rules: Seq<RuleText>,
    elem: Element,
    inh: Inherited,
    r: Run,
)
    ensures
        onward(r, walk::walk_list(script, rules, elem, inh, r)),
    decreases elem, 4int, 0int,
{
    let items = walk::items_of(rules, elem);
    let numbers = walk::item_numbers(elem, items);
    let seen = r.dropping(
        rows::any_concealed(rules, elem.children@, Part::Item, elem.children@.len() as int),
    );
    lemma_self(r);
    lemma_items(script, rules, elem, items, numbers, items.len() as int, inh, seen);
    if let Ok(end) = walk::walk_list(script, rules, elem, inh, r) {
        assert(r.blocks =~= end.blocks.take(r.blocks.len() as int));
    }
}

proof fn lemma_elem(
    script: Seq<Call>,
    rules: Seq<RuleText>,
    elem: Element,
    inherited: Inherited,
    r: Run,
)
    ensures
        onward(r, walk::walk_elem(script, rules, elem, inherited, r)),
    decreases elem, 6int, 0int,
{
    let props = cascade::resolved(rules, elem);
    let inh = inherited.within(elem, props);
    let out = walk::walk_elem(script, rules, elem, inherited, r);
    let f = r.flushed();
    let a = walk::anchored(script, elem, r);
    lemma_self(r);
    lemma_self(f);
    lemma_flushed(r);
    lemma_anchored(script, elem, r);
    if !props.hidden {
        match tags::kind_of(elem.local@) {
            ElemKind::Heading(level) => {
                lemma_inside(script, rules, elem, inh, true, f);
                if let Ok(inner) = walk::walk_inside(script, rules, elem, inh, true, f) {
                    lemma_prefix(f, f.after(inner));
                }
                assert(onward(f, out));
                lemma_chain(r, f, out);
            },
            ElemKind::Para => {
                let opened = walk::anchored(script, elem, f);
                lemma_anchored(script, elem, f);
                lemma_inside(script, rules, elem, inh, true, opened);
                if let Ok(inner) = walk::walk_inside(script, rules, elem, inh, true, opened) {
                    lemma_prefix(f, Run { inlines: Seq::empty(), ..opened.after(inner) });
                }
                assert(onward(f, out));
                lemma_chain(r, f, out);
            },
            ElemKind::List => {
                lemma_list(script, rules, elem, inh, f);
                lemma_chain(r, f, out);
            },
            ElemKind::Table => {
                lemma_table(script, rules, elem, inh, f);
                lemma_chain(r, f, out);
            },
            ElemKind::Quote => {
                lemma_inside(script, rules, elem, inh, true, f);
                if let Ok(inner) = walk::walk_inside(script, rules, elem, inh, true, f) {
                    lemma_prefix(f, f.after(inner));
                }
                assert(onward(f, out));
                lemma_chain(r, f, out);
            },
            ElemKind::Pre => {
                lemma_prefix(
                    f,
                    f.dropping(walk::hides_text(rules, elem, elem.children@.len() as int)),
                );
                assert(onward(f, out));
                lemma_chain(r, f, out);
            },
            ElemKind::Rule => {
                lemma_prefix(f, f);
                lemma_chain(r, f, out);
            },
            ElemKind::Math => {
                let tex = walk::tex_reply(script, r);
                let r1 = r.calling(Call::Tex { math: elem, tex });
                let r2 = r1.calling(
                    Call::Display { math: elem, display: walk::display_reply(script, r1) },
                );
                lemma_prefix(r, r2);
                lemma_prefix(r, r2.flushed());
            },
            ElemKind::Container => {
                let g = a.flushed();
                lemma_flushed(a);
                lemma_chain(r, a, Ok(g));
                lemma_nodes(script, rules, elem, elem.children@.len() as int, inh, g);
                lemma_nodes(script, rules, elem, elem.children@.len() as int, inh, a);
                if tags::blocks_among(elem) {
                    let walked = walk::walk_children(script, rules, elem, inh, g);
                    lemma_chain(r, g, walked);
                    if let Ok(p) = walked {
                        lemma_flushed(p);
                        lemma_chain(r, p, Ok(p.flushed()));
                    }
                } else {
                    lemma_chain(r, a, out);
                }
            },
            ElemKind::Ignored => {},
            ElemKind::Break => {},
            ElemKind::Image => {
                lemma_self(a);
                assert(onward(a, walk::with_image(script, elem, a)));
                lemma_chain(r, a, out);
            },
            ElemKind::Link => {
                let href = elem.value_of("href"@);
                let asked = match href {
                    Some(href) => a.calling(
                        Call::Link { href, target: walk::link_reply(script, a) },
                    ),
                    None => a,
                };
                let began = Run { dropped: false, ..asked };
                let start = inlines::at_boundary(a.inlines, a.start);
                lemma_self(a);
                lemma_inside(script, rules, elem, inh, start, began);
                assert(onward(a, out));
                lemma_chain(r, a, out);
            },
            ElemKind::Inline => {
                lemma_nodes(script, rules, elem, elem.children@.len() as int, inh, a);
                lemma_chain(r, a, out);
            },
        }
    }
}

/// Walking an element undoes nothing: what was asked, what was finished and
/// what was noted as dropped stays. It fails only when a table gets too wide
/// or the source of an image is refused, and then with that error.
pub proof fn law_walk_goes_on(
    script: Seq<Call>,
    rules: Seq<RuleText>,
    elem: Element,
    inh: Inherited,
    r: Run,
)
    ensures
        onward(r, walk::walk_elem(script, rules, elem, inh, r)),
{
    lemma_elem(script, rules, elem, inh, r);
}

/// A conversion fails only when a table gets too wide or the source of an
/// image is refused, and then with that error.
pub proof fn law_errors_are_explained(script: Seq<Call>, rules: Seq<RuleText>, body: Element)
    ensures
        walk::walk_body(script, rules, body) matches Err(s) ==> explained(s),
{
    let props = cascade::resolved(rules, body);
    lemma_inside(script, rules, body, Inherited::none().with(props), true, Run::new());
}

} // verus!
