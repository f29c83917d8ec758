//! What grids promise: a covered slot belongs to the cell that covers it.

use crate::cascade;
use crate::css::RuleText;
use crate::grid;
use crate::grid::{Carry, Grid};
use crate::hooks::Call;
use crate::model::{CellView, SlotView};
use crate::rows;
use crate::rows::{Part, RowAt};
use crate::tags::Inherited;
use crate::walk;
use crate::walk::Cells;
use crate::xml::Element;
use vstd::prelude::*;

verus! {

/// Whether the slot at row `r0`, column `c0` is where a cell starts that
/// reaches over row `r`, column `c`.
pub open spec fn covers_slot(
    all: Seq<Seq<SlotView>>,
    r0: int,
    c0: int,
    r: int,
    c: int,
) -> bool {
    &&& 0 <= r0 <= r
    &&& 0 <= c0 <= c
    &&& r0 < all.len()
    &&& c0 < all[r0].len()
    &&& all[r0][c0] matches SlotView::Origin(cell) && r < r0 + cell.row_span && c < c0
        + cell.col_span
}

/// Whether a slot, if it is covered, names the cell that covers it.
pub open spec fn slot_ok(all: Seq<Seq<SlotView>>, r: int, c: int) -> bool {
    all[r][c] matches SlotView::Covered { origin_row, origin_col } ==> covers_slot(
        all,
        origin_row as int,
        origin_col as int,
        r,
        c,
    )
}

/// Whether every covered slot names the cell that covers it.
pub open spec fn tiled(all: Seq<Seq<SlotView>>) -> bool {
    forall|r: int, c: int|
        #![trigger all[r][c]]
        0 <= r < all.len() && 0 <= c < all[r].len() ==> slot_ok(all, r, c)
}

/// All rows, the one in progress too.
pub open spec fn all_rows(g: Grid) -> Seq<Seq<SlotView>> {
    if g.open {
        g.done.push(g.row)
    } else {
        g.done
    }
}

/// The first row that does not have the column yet.
pub open spec fn next_row_at(g: Grid, c: int) -> int {
    if g.open && c < g.row.len() {
        g.done.len() as int + 1
    } else {
        g.done.len() as int
    }
}

/// Whether what is carried belongs to a cell that still reaches that far.
pub open spec fn carry_ok(g: Grid, c: int) -> bool {
    g.carry[c].rows > 0 ==> {
        let from = next_row_at(g, c);
        let k = g.carry[c];
        &&& covers_slot(all_rows(g), k.origin_row as int, k.origin_col as int, from - 1 + k.rows, c)
        &&& k.origin_row < from
    }
}

/// Whether a grid under construction is as it should be.
pub open spec fn sound(g: Grid) -> bool {
    &&& tiled(all_rows(g))
    &&& forall|c: int| 0 <= c < g.carry.len() ==> #[trigger] carry_ok(g, c)
    &&& g.row.len() <= g.carry.len()
    &&& !g.open ==> g.row.len() == 0
}

/// Rows that grow keep the cells they have.
proof fn lemma_grown(
    a: Seq<Seq<SlotView>>,
    b: Seq<Seq<SlotView>>,
    r0: int,
    c0: int,
    r: int,
    c: int,
)
    requires
        a.len() <= b.len(),
        forall|i: int| 0 <= i < a.len() ==> (#[trigger] a[i]).is_prefix_of(b[i]),
        covers_slot(a, r0, c0, r, c),
    ensures
        covers_slot(b, r0, c0, r, c),
{
    assert(a[r0].is_prefix_of(b[r0]));
    assert(b[r0][c0] == a[r0][c0]);
}

proof fn lemma_filled(g: Grid, n: int)
    requires
        sound(g),
        g.open,
        g.row.len() <= n <= g.carry.len(),
    ensures
        sound(g.filled(n)),
{
    let f = g.filled(n);
    let a = all_rows(g);
    let b = all_rows(f);
    let last = g.done.len() as int;
    assert forall|i: int| 0 <= i < a.len() implies (#[trigger] a[i]).is_prefix_of(b[i]) by {
        if i == last {
            assert(a[i] =~= b[i].take(a[i].len() as int));
        }
    }
    assert forall|r: int, c: int|
        #![trigger b[r][c]]
        0 <= r < b.len() && 0 <= c < b[r].len() implies slot_ok(b, r, c) by {
        if r < last || c < g.row.len() {
            assert(b[r][c] == a[r][c]);
            assert(slot_ok(a, r, c));
            if let SlotView::Covered { origin_row, origin_col } = a[r][c] {
                lemma_grown(a, b, origin_row as int, origin_col as int, r, c);
            }
        } else {
            assert(carry_ok(g, c));
            let k = g.carry[c];
            if k.rows > 0 {
                lemma_grown(
                    a,
                    b,
                    k.origin_row as int,
                    k.origin_col as int,
                    last - 1 + k.rows,
                    c,
                );
            }
        }
    }
    assert forall|c: int| 0 <= c < f.carry.len() implies #[trigger] carry_ok(f, c) by {
        assert(carry_ok(g, c));
        let k = g.carry[c];
        if k.rows > 0 {
            let from = next_row_at(g, c);
            lemma_grown(a, b, k.origin_row as int, k.origin_col as int, from - 1 + k.rows, c);
        }
    }
}

proof fn lemma_free_within(carry: Seq<Carry>, c: int)
    requires
        0 <= c <= carry.len(),
    ensures
        c <= grid::free_from(carry, c) <= carry.len(),
        grid::free_from(carry, c) < carry.len() ==> carry[grid::free_from(carry, c)].rows == 0,
    decreases carry.len() - c,
{
    if c < carry.len() && carry[c].rows > 0 {
        lemma_free_within(carry, c + 1);
    }
}

proof fn lemma_reach_within(carry: Seq<Carry>, c: int, n: int)
    requires
        0 <= c <= carry.len(),
        c <= n <= carry.len(),
    ensures
        c <= grid::reach_from(carry, c, n) <= n,
    decreases n,
{
    if n > c && carry[n - 1].rows == 0 {
        lemma_reach_within(carry, c, n - 1);
    }
}

/// Beginning a row keeps a grid sound.
pub proof fn law_next_row_keeps_sound(g: Grid)
    requires
        sound(g),
    ensures
        sound(g.next()),
        sound(g.closed()),
{
    if g.open {
        let n = grid::reach_from(g.carry, g.row.len() as int, g.carry.len() as int);
        lemma_reach_within(g.carry, g.row.len() as int, g.carry.len() as int);
        lemma_filled(g, n);
        let f = g.filled(n);
        let closed = g.closed();
        assert(all_rows(closed) =~= all_rows(f));
        assert forall|c: int| 0 <= c < closed.carry.len() implies #[trigger] carry_ok(
            closed,
            c,
        ) by {
            assert(carry_ok(f, c));
            if c >= n {
                lemma_reach_covers(g.carry, g.row.len() as int, g.carry.len() as int, c);
                assert(closed.carry[c].rows == 0);
            }
        }
    }
    let closed = g.closed();
    let next = g.next();
    let a = all_rows(closed);
    let b = all_rows(next);
    assert(closed.row =~= Seq::empty());
    assert(b =~= a.push(Seq::empty()));
    assert forall|i: int| 0 <= i < a.len() implies (#[trigger] a[i]).is_prefix_of(b[i]) by {
        assert(a[i] =~= b[i].take(a[i].len() as int));
    }
    assert forall|r: int, c: int|
        #![trigger b[r][c]]
        0 <= r < b.len() && 0 <= c < b[r].len() implies slot_ok(b, r, c) by {
        assert(b[r][c] == a[r][c]);
        assert(slot_ok(a, r, c));
        if let SlotView::Covered { origin_row, origin_col } = a[r][c] {
            lemma_grown(a, b, origin_row as int, origin_col as int, r, c);
        }
    }
    assert forall|c: int| 0 <= c < next.carry.len() implies #[trigger] carry_ok(next, c) by {
        assert(carry_ok(closed, c));
        let k = closed.carry[c];
        if k.rows > 0 {
            lemma_grown(
                a,
                b,
                k.origin_row as int,
                k.origin_col as int,
                next_row_at(closed, c) - 1 + k.rows,
                c,
            );
        }
    }
}

proof fn lemma_reach_covers(carry: Seq<Carry>, c: int, n: int, j: int)
    requires
        0 <= c <= n <= carry.len(),
        grid::reach_from(carry, c, n) <= j < n,
    ensures
        carry[j].rows == 0,
    decreases n,
{
    if n > c && carry[n - 1].rows == 0 && j < n - 1 {
        lemma_reach_covers(carry, c, n - 1, j);
    }
}

/// Placing a cell keeps a grid sound.
pub proof fn law_placing_keeps_sound(g: Grid, cell: CellView)
    requires
        sound(g),
        g.open,
        g.done.len() <= usize::MAX,
        g.fits(cell),
        cell.col_span >= 1,
        cell.row_span >= 1,
    ensures
        sound(g.with_cell(cell)),
        g.with_cell(cell).open,
{
    let n = grid::free_from(g.carry, g.row.len() as int);
    lemma_free_within(g.carry, g.row.len() as int);
    lemma_filled(g, n);
    let f = g.ready();
    let w = g.with_cell(cell);
    let a = all_rows(f);
    let b = all_rows(w);
    let last = g.done.len() as int;
    let c0 = f.row.len() as int;
    assert forall|i: int| 0 <= i < a.len() implies (#[trigger] a[i]).is_prefix_of(b[i]) by {
        assert(a[i] =~= b[i].take(a[i].len() as int));
    }
    assert(b[last][c0] == SlotView::Origin(cell));
    assert forall|r: int, c: int|
        #![trigger b[r][c]]
        0 <= r < b.len() && 0 <= c < b[r].len() implies slot_ok(b, r, c) by {
        if r < last || c < c0 {
            assert(b[r][c] == a[r][c]);
            assert(slot_ok(a, r, c));
            if let SlotView::Covered { origin_row, origin_col } = a[r][c] {
                lemma_grown(a, b, origin_row as int, origin_col as int, r, c);
            }
        } else if c > c0 {
            assert(b[r][c] == SlotView::Covered {
                origin_row: last as usize,
                origin_col: c0 as usize,
            });
        }
    }
    assert forall|c: int| 0 <= c < w.carry.len() implies #[trigger] carry_ok(w, c) by {
        if c0 <= c < c0 + cell.col_span {
        } else {
            assert(carry_ok(f, c));
            let k = f.carry[c];
            if k.rows > 0 {
                lemma_grown(
                    a,
                    b,
                    k.origin_row as int,
                    k.origin_col as int,
                    next_row_at(f, c) - 1 + k.rows,
                    c,
                );
            }
        }
    }
}

/// A sound grid comes to rows in which every covered slot names the cell that
/// covers it.
pub proof fn law_finished_rows_are_tiled(g: Grid)
    requires
        sound(g),
    ensures
        tiled(g.rows()),
{
    law_next_row_keeps_sound(g);
}

// ---------------------------------------------------------------------------
// Tables

proof fn lemma_cells_sound(
    script: Seq<Call>,
    rules: Seq<RuleText>,
    tr: Element,
    cells: Seq<usize>,
    n: int,
    left: u32,
    inh: Inherited,
    c: Cells,
)
    requires
        sound(c.grid),
        c.grid.open,
        c.grid.done.len() <= usize::MAX,
    ensures
        walk::walk_cells(script, rules, tr, cells, n, left, inh, c) matches Ok(p) ==> sound(p.grid)
            && p.grid.open && p.grid.done.len() == c.grid.done.len(),
    decreases n,
{
    if n > 0 {
        lemma_cells_sound(script, rules, tr, cells, n - 1, left, inh, c);
        if let Ok(p) = walk::walk_cells(script, rules, tr, cells, n - 1, left, inh, c) {
            if let Some(cell) = rows::elem_at(tr.children@, cells[n - 1] as int) {
                let own = inh.within(cell, cascade::resolved(rules, cell));
                if let Ok(inner) = walk::walk_inside(script, rules, cell, own, true, p.run) {
                    let placed = grid::spanning(
                        inner.blocks,
                        rows::columns_of(cell),
                        rows::lines_of(cell, left),
                    );
                    if p.grid.fits(placed) {
                        law_placing_keeps_sound(p.grid, placed);
                    }
                }
            }
        }
    }
}

proof fn lemma_rows_sound(
    script: Seq<Call>,
    rules: Seq<RuleText>,
    table: Element,
    all: Seq<RowAt>,
    n: int,
    inh: Inherited,
    c: Cells,
)
    requires
        sound(c.grid),
        0 <= n <= all.len() <= usize::MAX,
        c.grid.done.len() == 0,
        !c.grid.open,
    ensures
        walk::walk_rows(script, rules, table, all, n, inh, c) matches Ok(p) ==> sound(p.grid)
            && p.grid.done.len() + (if p.grid.open {
            1int
        } else {
            0
        }) <= n,
    decreases n,
{
    if n > 0 {
        lemma_rows_sound(script, rules, table, all, n - 1, inh, c);
        if let Ok(p) = walk::walk_rows(script, rules, table, all, n - 1, inh, c) {
            if let Some(tr) = rows::row_elem(table, all[n - 1]) {
                law_next_row_keeps_sound(p.grid);
                let cells = rows::cells_of(rules, tr);
                let run = p.run.dropping(
                    rows::any_concealed(
                        rules,
                        tr.children@,
                        Part::Cell,
                        tr.children@.len() as int,
                    ),
                );
                lemma_cells_sound(
                    script,
                    rules,
                    tr,
                    cells,
                    cells.len() as int,
                    rows::rows_left(all, n - 1),
                    rows::row_inherits(rules, table, all[n - 1], inh),
                    Cells { grid: p.grid.next(), run },
                );
            }
        }
    }
}

/// In every table that a walk builds, each covered slot names the cell that
/// covers it.
pub proof fn law_tables_are_tiled(
    script: Seq<Call>,
    rules: Seq<RuleText>,
    table: Element,
    inh: Inherited,
    run: walk::Run,
)
    requires
        rows::rows_of(rules, table).rows.len() <= usize::MAX,
    ensures
        ({
            let all = rows::rows_of(rules, table).rows;
            walk::walk_rows(
                script,
                rules,
                table,
                all,
                all.len() as int,
                inh,
                Cells { grid: Grid::empty(), run },
            ) matches Ok(c) ==> tiled(c.grid.rows())
        }),
{
    let all = rows::rows_of(rules, table).rows;
    let c = Cells { grid: Grid::empty(), run };
    assert(sound(c.grid));
    lemma_rows_sound(script, rules, table, all, all.len() as int, inh, c);
    if let Ok(p) = walk::walk_rows(script, rules, table, all, all.len() as int, inh, c) {
        law_finished_rows_are_tiled(p.grid);
    }
}

proof fn lemma_last_in(all: Seq<RowAt>, group: usize, n: int, i: int)
    requires
        0 <= i < n <= all.len(),
        all[i].group == group,
    ensures
        i <= rows::last_in(all, group, n) < n,
        all[rows::last_in(all, group, n)].group == group,
        forall|j: int|
            rows::last_in(all, group, n) < j < n ==> (#[trigger] all[j]).group != group,
    decreases n,
{
    if all[n - 1].group != group {
        lemma_last_in(all, group, n - 1, i);
    }
}

/// `rowspan="0"` reaches exactly to the last row of the row's group.
pub proof fn law_zero_rowspan_reaches_the_group_end(all: Seq<RowAt>, i: int)
    requires
        0 <= i < all.len() <= u32::MAX,
    ensures
        i + rows::rows_left(all, i) <= all.len(),
        all[i + rows::rows_left(all, i) - 1].group == all[i].group,
        forall|j: int|
            i + rows::rows_left(all, i) <= j < all.len() ==> (#[trigger] all[j]).group
                != all[i].group,
{
    lemma_last_in(all, all[i].group, all.len() as int, i);
}

} // verus!
