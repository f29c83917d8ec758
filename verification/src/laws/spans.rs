//! What the spans of cells promise: a cell reaches over as many columns and
//! rows as its attributes say, whatever it is called and whatever stands
//! beside it.

use crate::cascade;
use crate::css::RuleText;
use crate::grid;
use crate::grid::{Carry, Grid};
use crate::hooks::Call;
use crate::model::{CellView, SlotView};
use crate::number;
use crate::rows;
use crate::rows::{Part, RowAt};
use crate::tags::Inherited;
use crate::walk;
use crate::walk::Cells;
use crate::xml::{Element, Node};
use vstd::prelude::*;

verus! {

/// A cell reaches over as many columns as its `colspan` reads, at least one
/// and at most a thousand; over one where there is no such number.
pub proof fn law_columns(cell: Element)
    ensures
        match cell.value_of("colspan"@) {
            None => rows::columns_of(cell) == 1,
            Some(v) => match number::unsigned(v, u32::MAX as nat) {
                None => rows::columns_of(cell) == 1,
                Some(n) => {
                    &&& 1 <= n <= 1000 ==> rows::columns_of(cell) == n
                    &&& n == 0 ==> rows::columns_of(cell) == 1
                    &&& n > 1000 ==> rows::columns_of(cell) == 1000
                },
            },
        },
{
    if let Some(v) = cell.value_of("colspan"@) {
        lemma_fits(v);
    }
}

/// A cell reaches over as many rows as its `rowspan` reads, at most 65534; zero
/// stands for the rows that are left. Without such a number it reaches over
/// its own.
pub proof fn law_lines(cell: Element, left: u32)
    ensures
        match cell.value_of("rowspan"@) {
            None => rows::lines_of(cell, left) == 1,
            Some(v) => match number::unsigned(v, u32::MAX as nat) {
                None => rows::lines_of(cell, left) == 1,
                Some(n) => {
                    &&& n == 0 ==> rows::lines_of(cell, left) == left
                    &&& 1 <= n <= 65534 ==> rows::lines_of(cell, left) == n
                    &&& n > 65534 ==> rows::lines_of(cell, left) == 65534
                },
            },
        },
{
    if let Some(v) = cell.value_of("rowspan"@) {
        lemma_fits(v);
    }
}

proof fn lemma_fits(v: Seq<char>)
    ensures
        number::unsigned(v, u32::MAX as nat) matches Some(n) ==> n <= u32::MAX,
{
}

/// What a cell reaches over depends on its attributes alone: two cells, of
/// whatever name and content, that agree on them agree on it.
pub proof fn law_spans_are_in_the_attributes(a: Element, b: Element, left: u32)
    ensures
        a.value_of("colspan"@) == b.value_of("colspan"@) ==> rows::columns_of(a)
            == rows::columns_of(b),
        a.value_of("rowspan"@) == b.value_of("rowspan"@) ==> rows::lines_of(a, left)
            == rows::lines_of(b, left),
{
}

// ---------------------------------------------------------------------------
// Placing

proof fn lemma_free(carry: Seq<Carry>, c: int)
    requires
        0 <= c,
    ensures
        c <= grid::free_from(carry, c),
        c <= carry.len() ==> grid::free_from(carry, c) <= carry.len(),
        forall|j: int| c <= j < grid::free_from(carry, c) ==> j < carry.len() && (
        #[trigger] carry[j]).rows > 0,
        grid::free_from(carry, c) < carry.len() ==> carry[grid::free_from(carry, c)].rows == 0,
    decreases carry.len() - c,
{
    if c < carry.len() && carry[c].rows > 0 {
        lemma_free(carry, c + 1);
    }
}

/// Where a cell is placed: at the first column of its row that nothing stands
/// in and nothing from above reaches into.
pub open spec fn next_column(g: Grid, c: int) -> bool {
    &&& g.row.len() <= c
    &&& forall|j: int| g.row.len() <= j < c ==> j < g.carry.len() && (#[trigger] g.carry[j]).rows
        > 0
    &&& c < g.carry.len() ==> g.carry[c].rows == 0
}

/// A cell is placed at the next free column and reaches over exactly its
/// columns: it starts in the first, and the others name it. What stands before
/// it stays; in between stands what reaches down from above. Its columns are
/// taken in as many further rows as it reaches over, and those of other cells
/// stay taken as they were.
pub proof fn law_cells_reach_over_their_columns(g: Grid, cell: CellView, c: int)
    requires
        g.row.len() <= g.carry.len(),
        g.fits(cell),
        g.done.len() <= usize::MAX,
        cell.col_span >= 1,
        cell.row_span >= 1,
        next_column(g, c),
    ensures
        ({
            let after = g.with_cell(cell);
            &&& after.done == g.done
            &&& after.open == g.open
            &&& after.row.len() == c + cell.col_span
            &&& after.row[c] == SlotView::Origin(cell)
            &&& forall|j: int|
                c < j < c + cell.col_span ==> #[trigger] after.row[j] == (SlotView::Covered {
                    origin_row: g.done.len() as usize,
                    origin_col: c as usize,
                })
            &&& forall|j: int| 0 <= j < g.row.len() ==> #[trigger] after.row[j] == g.row[j]
            &&& forall|j: int|
                g.row.len() <= j < c ==> #[trigger] after.row[j] == (SlotView::Covered {
                    origin_row: g.carry[j].origin_row,
                    origin_col: g.carry[j].origin_col,
                })
            &&& after.carry.len() >= g.carry.len()
            &&& after.carry.len() >= c + cell.col_span
            &&& forall|j: int|
                c <= j < c + cell.col_span ==> #[trigger] after.carry[j] == (Carry {
                    origin_row: g.done.len() as usize,
                    origin_col: c as usize,
                    rows: (cell.row_span - 1) as u32,
                })
            &&& forall|j: int|
                0 <= j < g.carry.len() && !(c <= j < c + cell.col_span) ==> (
                #[trigger] after.carry[j]).rows == g.carry[j].rows - if g.row.len() <= j < c {
                    1int
                } else {
                    0
                } && after.carry[j].origin_row == g.carry[j].origin_row
                    && after.carry[j].origin_col == g.carry[j].origin_col
        }),
{
    let from = g.row.len() as int;
    lemma_free(g.carry, from);
    let free = grid::free_from(g.carry, from);
    assert(free == c) by {
        if free < c {
            assert(g.carry[free].rows > 0);
        }
        if c < free {
            assert(g.carry[c].rows > 0);
        }
    }
    let ready = g.ready();
    assert(ready.row.len() == c);
    let after = g.with_cell(cell);
    assert forall|j: int| from <= j < c implies #[trigger] after.row[j] == (SlotView::Covered {
        origin_row: g.carry[j].origin_row,
        origin_col: g.carry[j].origin_col,
    }) by {
        assert(after.row[j] == ready.row[j]);
        assert(ready.row[j] == grid::carried_slot(g.carry[from + (j - from)]));
    }
}

/// A cell keeps its blocks and reaches over its own column and row at least.
pub proof fn law_cells_reach_over_their_own(
    blocks: Seq<crate::model::BlockView>,
    columns: u32,
    lines: u32,
)
    ensures
        grid::spanning(blocks, columns, lines).blocks == blocks,
        columns >= 1 ==> grid::spanning(blocks, columns, lines).col_span == columns,
        columns == 0 ==> grid::spanning(blocks, columns, lines).col_span == 1,
        lines >= 1 ==> grid::spanning(blocks, columns, lines).row_span == lines,
        lines == 0 ==> grid::spanning(blocks, columns, lines).row_span == 1,
{
}

/// A cell fits as long as the row stays within ten thousand columns.
pub proof fn law_rows_have_a_limit(g: Grid, cell: CellView, c: int)
    requires
        g.row.len() <= g.carry.len(),
        next_column(g, c),
    ensures
        g.fits(cell) <==> c + cell.col_span <= 10_000,
{
    let from = g.row.len() as int;
    lemma_free(g.carry, from);
    let free = grid::free_from(g.carry, from);
    assert(free == c) by {
        if free < c {
            assert(g.carry[free].rows > 0);
        }
        if c < free {
            assert(g.carry[c].rows > 0);
        }
    }
    assert(g.ready().row.len() == c);
}

/// A finished row goes on as far as anything from above reaches, and no
/// further: in each further column stands what reaches into it, or an empty
/// cell. Then nothing that reached into the row is forgotten or counted twice.
pub proof fn law_rows_end_where_nothing_reaches(g: Grid)
    requires
        g.open,
        g.row.len() <= g.carry.len(),
    ensures
        ({
            let after = g.closed();
            let row = after.done.last();
            let n = g.row.len() as int;
            &&& !after.open && after.row.len() == 0
            &&& after.done.len() == g.done.len() + 1
            &&& after.done.drop_last() == g.done
            &&& n <= row.len() <= g.carry.len()
            &&& row.take(n) == g.row
            &&& row.len() > n ==> g.carry[row.len() - 1].rows > 0
            &&& forall|j: int|
                row.len() <= j < g.carry.len() ==> (#[trigger] g.carry[j]).rows == 0
            &&& forall|j: int|
                n <= j < row.len() && g.carry[j].rows > 0 ==> #[trigger] row[j] == (
                SlotView::Covered {
                    origin_row: g.carry[j].origin_row,
                    origin_col: g.carry[j].origin_col,
                })
            &&& forall|j: int|
                n <= j < row.len() && g.carry[j].rows == 0 ==> (
                #[trigger] row[j] matches SlotView::Origin(e) && e.blocks.len() == 0 && e.col_span
                    == 1 && e.row_span == 1)
            &&& after.carry.len() == g.carry.len()
            &&& forall|j: int|
                0 <= j < g.carry.len() ==> (#[trigger] after.carry[j]).rows == if j >= n
                    && g.carry[j].rows > 0 {
                    g.carry[j].rows - 1
                } else {
                    g.carry[j].rows as int
                }
            &&& forall|j: int|
                0 <= j < g.carry.len() ==> (#[trigger] after.carry[j]).origin_row
                    == g.carry[j].origin_row && after.carry[j].origin_col
                    == g.carry[j].origin_col
        }),
{
    let n = g.row.len() as int;
    lemma_reach(g.carry, n, g.carry.len() as int);
    let end = grid::reach_from(g.carry, n, g.carry.len() as int);
    let all = g.filled(end);
    let after = g.closed();
    let row = after.done.last();
    assert(row == all.row);
    assert(after.done.drop_last() =~= g.done);
    assert(row.take(n) =~= g.row);
    assert forall|j: int| n <= j < row.len() implies #[trigger] row[j] == grid::carried_slot(
        g.carry[j],
    ) by {
        assert(row[j] == grid::carried_slot(g.carry[n + (j - n)]));
    }
    assert forall|j: int| 0 <= j < g.carry.len() implies (#[trigger] after.carry[j]) == if n <= j
        < end {
        grid::spent(g.carry[j])
    } else {
        g.carry[j]
    } by {}
    assert forall|j: int| end <= j < g.carry.len() implies (#[trigger] g.carry[j]).rows == 0 by {}
}

proof fn lemma_reach(carry: Seq<Carry>, c: int, n: int)
    requires
        0 <= c <= n <= carry.len(),
    ensures
        c <= grid::reach_from(carry, c, n) <= n,
        grid::reach_from(carry, c, n) > c ==> carry[grid::reach_from(carry, c, n) - 1].rows > 0,
        forall|j: int|
            grid::reach_from(carry, c, n) <= j < n ==> (#[trigger] carry[j]).rows == 0,
    decreases n,
{
    if n > c && carry[n - 1].rows == 0 {
        lemma_reach(carry, c, n - 1);
    }
}

/// A grid starts with nothing in it and nothing reaching down.
pub proof fn law_grids_start_empty()
    ensures
        Grid::empty().done.len() == 0,
        Grid::empty().row.len() == 0,
        Grid::empty().carry.len() == 0,
        !Grid::empty().open,
        Grid::empty().rows().len() == 0,
{
}

/// A new row starts empty, behind the rows that are done; a row in progress is
/// done first.
pub proof fn law_a_new_row_starts_empty(g: Grid)
    ensures
        g.next().open,
        g.next().row.len() == 0 || !g.open,
        g.open ==> g.next().done.len() == g.done.len() + 1,
        !g.open ==> g.next().done == g.done && g.next().row == g.row && g.next().carry == g.carry,
{
}

/// A table has all of its rows, empty ones too, unless they all are.
pub proof fn law_tables_have_all_rows(g: Grid, i: int)
    requires
        0 <= i < g.closed().done.len(),
        g.closed().done[i].len() > 0,
    ensures
        g.rows() == g.closed().done,
{
}

/// A table whose rows are all empty has none.
pub proof fn law_empty_tables_have_no_rows(g: Grid)
    requires
        forall|i: int|
            0 <= i < g.closed().done.len() ==> (#[trigger] g.closed().done[i]).len() == 0,
    ensures
        g.rows().len() == 0,
{
}

/// Each cell of a row, `td` or `th`, is placed with what it holds and over the
/// columns and rows that its attributes read.
pub proof fn law_cells_are_placed(
    script: Seq<Call>,
    rules: Seq<RuleText>,
    tr: Element,
    cells: Seq<usize>,
    n: int,
    left: u32,
    inh: Inherited,
    c: Cells,
    column: int,
)
    requires
        0 < n <= cells.len(),
        rows::elem_at(tr.children@, cells[n - 1] as int) is Some,
        walk::walk_cells(script, rules, tr, cells, n, left, inh, c) is Ok,
        ({
            let before = walk::walk_cells(script, rules, tr, cells, n - 1, left, inh, c);
            before is Ok ==> {
                let g = before->Ok_0.grid;
                g.row.len() <= g.carry.len() && next_column(g, column) && g.done.len()
                    <= usize::MAX
            }
        }),
    ensures
        ({
            let cell = rows::elem_at(tr.children@, cells[n - 1] as int)->Some_0;
            let before = walk::walk_cells(script, rules, tr, cells, n - 1, left, inh, c)->Ok_0;
            let after = walk::walk_cells(script, rules, tr, cells, n, left, inh, c)->Ok_0;
            let own = inh.within(cell, cascade::resolved(rules, cell));
            let inner = walk::walk_inside(script, rules, cell, own, true, before.run)->Ok_0;
            &&& walk::walk_cells(script, rules, tr, cells, n - 1, left, inh, c) is Ok
            &&& walk::walk_inside(script, rules, cell, own, true, before.run) is Ok
            &&& after.grid.row.len() > column
            &&& after.grid.row[column] matches SlotView::Origin(placed) && {
                &&& placed.blocks == inner.blocks
                &&& after.grid.row.len() == column + placed.col_span
                &&& cell.value_of("colspan"@) matches Some(v) ==> number::unsigned(
                    v,
                    u32::MAX as nat,
                ) matches Some(k) ==> 1 <= k <= 1000 ==> placed.col_span == k
                &&& cell.value_of("colspan"@) is None ==> placed.col_span == 1
                &&& cell.value_of("rowspan"@) matches Some(v) ==> number::unsigned(
                    v,
                    u32::MAX as nat,
                ) matches Some(k) ==> 1 <= k <= 65534 ==> placed.row_span == k
                &&& cell.value_of("rowspan"@) is None ==> placed.row_span == 1
            }
            &&& after.run.blocks == before.run.blocks && after.run.inlines == before.run.inlines
        }),
{
    let cell = rows::elem_at(tr.children@, cells[n - 1] as int)->Some_0;
    let before = walk::walk_cells(script, rules, tr, cells, n - 1, left, inh, c)->Ok_0;
    let own = inh.within(cell, cascade::resolved(rules, cell));
    let inner = walk::walk_inside(script, rules, cell, own, true, before.run)->Ok_0;
    let placed = grid::spanning(
        inner.blocks,
        rows::columns_of(cell),
        rows::lines_of(cell, left),
    );
    law_columns(cell);
    law_lines(cell, left);
    law_cells_reach_over_their_columns(before.grid, placed, column);
}

// ---------------------------------------------------------------------------
// Rows, cells and headers

/// The parts of an element that are shown: every child of that sort that is not
/// hidden, in order, and nothing else.
pub proof fn law_visible_parts(rules: Seq<RuleText>, nodes: Seq<Node>, part: Part, n: int)
    requires
        0 <= n <= nodes.len() <= usize::MAX,
    ensures
        ({
            let found = rows::visible(rules, nodes, part, n);
            &&& forall|i: int, j: int|
                0 <= i < j < found.len() ==> #[trigger] found[i] < #[trigger] found[j]
            &&& forall|i: int|
                0 <= i < found.len() ==> (#[trigger] found[i]) < n && (
                nodes[found[i] as int] matches Node::Elem(e) && is_part(part, e.local@)
                    && !cascade::resolved(rules, e).hidden)
            &&& forall|k: int|
                0 <= k < n && (#[trigger] nodes[k] matches Node::Elem(e) && is_part(part, e.local@)
                    && !cascade::resolved(rules, e).hidden) ==> found.contains(k as usize)
        }),
    decreases n,
{
    if n > 0 {
        law_visible_parts(rules, nodes, part, n - 1);
        let before = rows::visible(rules, nodes, part, n - 1);
        let found = rows::visible(rules, nodes, part, n);
        assert forall|k: int|
            0 <= k < n && (#[trigger] nodes[k] matches Node::Elem(e) && is_part(part, e.local@)
                && !cascade::resolved(rules, e).hidden) implies found.contains(k as usize) by {
            if k < n - 1 {
                assert(before.contains(k as usize));
                let i = choose|i: int| 0 <= i < before.len() && before[i] == k as usize;
                assert(found[i] == k as usize);
            } else {
                assert(found[found.len() - 1] == k as usize);
            }
        }
    }
}

/// Whether one of the parts is hidden.
pub proof fn law_hidden_parts(rules: Seq<RuleText>, nodes: Seq<Node>, part: Part, n: int)
    ensures
        rows::any_concealed(rules, nodes, part, n) <==> exists|i: int|
            0 <= i < n && (#[trigger] nodes[i] matches Node::Elem(e) && is_part(part, e.local@)
                && cascade::resolved(rules, e).hidden),
{
    if rows::any_concealed(rules, nodes, part, n) {
        let i = choose|i: int| 0 <= i < n && rows::concealed(rules, #[trigger] nodes[i], part);
        assert(nodes[i] matches Node::Elem(e) && is_part(part, e.local@)
            && cascade::resolved(rules, e).hidden);
    }
    if exists|i: int|
        0 <= i < n && (#[trigger] nodes[i] matches Node::Elem(e) && is_part(part, e.local@)
            && cascade::resolved(rules, e).hidden) {
        let i = choose|i: int|
            0 <= i < n && (#[trigger] nodes[i] matches Node::Elem(e) && is_part(part, e.local@)
                && cascade::resolved(rules, e).hidden);
        assert(rows::concealed(rules, nodes[i], part));
    }
}

/// What the parts of lists and tables are called.
pub open spec fn is_part(part: Part, name: Seq<char>) -> bool {
    match part {
        Part::Item => name == "li"@,
        Part::Row => name == "tr"@,
        Part::Cell => name == "td"@ || name == "th"@,
    }
}

/// Whether a row is declared a header: it stands in a `thead`, or it has cells
/// and every one of them is a `th`.
pub open spec fn is_header(rules: Seq<RuleText>, tr: Element, head: bool) -> bool {
    let cells = rows::visible(rules, tr.children@, Part::Cell, tr.children@.len() as int);
    head || (cells.len() > 0 && forall|k: int|
        0 <= k < cells.len() ==> (tr.children@[#[trigger] cells[k] as int] matches Node::Elem(e)
            && e.local@ == "th"@))
}

/// The declared headers of a table are the rows from its top up to the first
/// that is not declared one.
pub proof fn law_headers_are_counted_from_the_top(
    rules: Seq<RuleText>,
    table: Element,
    all: Seq<RowAt>,
    n: int,
)
    requires
        0 <= n <= all.len(),
        forall|k: int|
            0 <= k < n ==> (rows::row_elem(table, #[trigger] all[k]) matches Some(tr)
                && tr.children@.len() <= usize::MAX),
    ensures
        ({
            let h = rows::declared_headers(rules, table, all, n);
            &&& 0 <= h <= n
            &&& forall|k: int|
                0 <= k < h ==> is_header(
                    rules,
                    rows::row_elem(table, #[trigger] all[k])->Some_0,
                    all[k].head,
                )
            &&& h < n ==> !is_header(rules, rows::row_elem(table, all[h])->Some_0, all[h].head)
        }),
    decreases n,
{
    if n > 0 {
        law_headers_are_counted_from_the_top(rules, table, all, n - 1);
        let tr = rows::row_elem(table, all[n - 1])->Some_0;
        let cells = rows::cells_of(rules, tr);
        law_visible_parts(rules, tr.children@, Part::Cell, tr.children@.len() as int);
        assert(is_header(rules, tr, all[n - 1].head) == rows::heads(tr, cells, all[n - 1].head))
            by {
            if rows::heads(tr, cells, all[n - 1].head) && !all[n - 1].head {
                assert forall|k: int| 0 <= k < cells.len() implies (tr.children@[
                    #[trigger] cells[k] as int
                ] matches Node::Elem(e) && e.local@ == "th"@) by {
                    assert(rows::elem_at(tr.children@, cells[k] as int) is Some);
                }
            }
        }
    }
}

} // verus!
