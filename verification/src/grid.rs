//! Tables as grids: cells with spans, placed row by row.

use crate::error::ConvertError;
use crate::model;
use crate::model::{Block, Cell, CellSlot, CellView, SlotView, Table, TableKind, TableView};
use vstd::prelude::*;

verus! {

/// The widest a row may get.
pub const MAX_COLUMNS: usize = 10_000;

impl Cell {
    /// A cell that reaches over that many columns and rows, its own at least.
    pub fn spanning(blocks: Vec<Block>, col_span: u32, row_span: u32) -> (r: Cell)
        ensures
            model::cell_view(r) == spanning(model::block_views(blocks@), col_span, row_span),
    {
        Cell {
            blocks,
            col_span: if col_span == 0 { 1 } else { col_span },
            row_span: if row_span == 0 { 1 } else { row_span },
        }
    }
}

/// A cell that reaches over that many columns and rows, its own at least.
pub open spec fn spanning(
    blocks: Seq<model::BlockView>,
    col_span: u32,
    row_span: u32,
) -> CellView {
    CellView {
        blocks,
        col_span: if col_span == 0 {
            1
        } else {
            col_span
        },
        row_span: if row_span == 0 {
            1
        } else {
            row_span
        },
    }
}

/// A column that a cell from an earlier row still reaches into.
#[derive(Clone, Copy)]
pub struct Carry {
    pub origin_row: usize,
    pub origin_col: usize,
    /// How many rows it still covers, from the first that does not have this
    /// column yet.
    pub rows: u32,
}

/// A grid under construction: the rows that are done, the row in progress,
/// and what cells above it still cover.
pub struct Grid {
    pub done: Seq<Seq<SlotView>>,
    pub row: Seq<SlotView>,
    pub open: bool,
    pub carry: Seq<Carry>,
}

/// The slot that a carried column gets; an empty cell where nothing is
/// carried.
pub open spec fn carried_slot(c: Carry) -> SlotView {
    if c.rows > 0 {
        SlotView::Covered { origin_row: c.origin_row, origin_col: c.origin_col }
    } else {
        SlotView::Origin(spanning(Seq::empty(), 1, 1))
    }
}

/// What is still carried once a row has the column.
pub open spec fn spent(c: Carry) -> Carry {
    if c.rows > 0 {
        Carry { rows: (c.rows - 1) as u32, ..c }
    } else {
        c
    }
}

/// The first column from `c` on that nothing above reaches into.
pub open spec fn free_from(carry: Seq<Carry>, c: int) -> int
    decreases carry.len() - c,
{
    if c < 0 || c >= carry.len() || carry[c].rows == 0 {
        c
    } else {
        free_from(carry, c + 1)
    }
}

/// Just behind the last column from `c` on, before `n`, that something above
/// reaches into; `c` when there is none.
pub open spec fn reach_from(carry: Seq<Carry>, c: int, n: int) -> int
    decreases n,
{
    if n <= c || n <= 0 || n > carry.len() {
        c
    } else if carry[n - 1].rows > 0 {
        n
    } else {
        reach_from(carry, c, n - 1)
    }
}

impl Grid {
    /// Nothing yet.
    pub open spec fn empty() -> Grid {
        Grid { done: Seq::empty(), row: Seq::empty(), open: false, carry: Seq::empty() }
    }

    /// The row in progress extended to `n` columns by what is carried.
    pub open spec fn filled(self, n: int) -> Grid {
        Grid {
            row: self.row + Seq::new(
                (n - self.row.len()) as nat,
                |i: int| carried_slot(self.carry[self.row.len() + i]),
            ),
            carry: Seq::new(
                self.carry.len(),
                |c: int|
                    if self.row.len() <= c < n {
                        spent(self.carry[c])
                    } else {
                        self.carry[c]
                    },
            ),
            ..self
        }
    }

    /// The row in progress closed, with every column that is carried.
    pub open spec fn closed(self) -> Grid {
        if self.open {
            let all = self.filled(
                reach_from(self.carry, self.row.len() as int, self.carry.len() as int),
            );
            Grid { done: all.done.push(all.row), row: Seq::empty(), open: false, ..all }
        } else {
            self
        }
    }

    /// A new row begun.
    pub open spec fn next(self) -> Grid {
        Grid { open: true, ..self.closed() }
    }

    /// The row in progress up to where its next cell starts.
    pub open spec fn ready(self) -> Grid {
        self.filled(free_from(self.carry, self.row.len() as int))
    }

    /// A cell placed at the first free column of the row in progress.
    pub open spec fn with_cell(self, cell: CellView) -> Grid {
        let g = self.ready();
        let r = g.done.len() as usize;
        let c0 = g.row.len() as usize;
        let end = c0 + cell.col_span;
        Grid {
            row: g.row.push(SlotView::Origin(cell)) + Seq::new(
                (cell.col_span - 1) as nat,
                |i: int| SlotView::Covered { origin_row: r, origin_col: c0 },
            ),
            carry: Seq::new(
                if g.carry.len() > end {
                    g.carry.len()
                } else {
                    end as nat
                },
                |c: int|
                    if c0 <= c < end {
                        Carry { origin_row: r, origin_col: c0, rows: (cell.row_span - 1) as u32 }
                    } else {
                        g.carry[c]
                    },
            ),
            ..g
        }
    }

    /// Whether a cell fits into the row in progress.
    pub open spec fn fits(self, cell: CellView) -> bool {
        self.ready().row.len() + cell.col_span <= MAX_COLUMNS
    }

    /// Whether the widths are within bounds.
    pub open spec fn bounded(self) -> bool {
        &&& self.row.len() <= self.carry.len() <= MAX_COLUMNS
        &&& !self.open ==> self.row.len() == 0
    }

    /// The finished rows; none at all when no row has a slot.
    pub open spec fn rows(self) -> Seq<Seq<SlotView>> {
        let g = self.closed();
        if exists|i: int| 0 <= i < g.done.len() && (#[trigger] g.done[i]).len() > 0 {
            g.done
        } else {
            Seq::empty()
        }
    }
}

/// Builds a grid row by row.
pub struct GridBuilder {
    done: Vec<Vec<CellSlot>>,
    row: Vec<CellSlot>,
    open: bool,
    carry: Vec<Carry>,
}

impl View for GridBuilder {
    type V = Grid;

    closed spec fn view(&self) -> Grid {
        Grid {
            done: model::grid_view(self.done@),
            row: model::row_view(self.row@),
            open: self.open,
            carry: self.carry@,
        }
    }
}

proof fn lemma_free(carry: Seq<Carry>, c: int, k: int)
    requires
        0 <= c <= k <= carry.len(),
        forall|j: int| c <= j < k ==> (#[trigger] carry[j]).rows > 0,
        k < carry.len() ==> carry[k].rows == 0,
    ensures
        free_from(carry, c) == k,
    decreases k - c,
{
    if c < k {
        lemma_free(carry, c + 1, k);
    }
}

proof fn lemma_reach(carry: Seq<Carry>, c: int, n: int, k: int)
    requires
        0 <= c <= k <= n <= carry.len(),
        forall|j: int| k <= j < n ==> (#[trigger] carry[j]).rows == 0,
        k > c ==> carry[k - 1].rows > 0,
    ensures
        reach_from(carry, c, n) == k,
    decreases n - k,
{
    if k < n {
        assert(carry[n - 1].rows == 0);
        lemma_reach(carry, c, n - 1, k);
    }
}

proof fn lemma_row_view_push(s: Seq<CellSlot>, x: CellSlot)
    ensures
        model::row_view(s.push(x)) == model::row_view(s).push(model::slot_view(x)),
{
    assert(model::row_view(s.push(x)) =~= model::row_view(s).push(model::slot_view(x)));
}

impl GridBuilder {
    /// An empty grid.
    pub fn new() -> (r: GridBuilder)
        ensures
            r@ == Grid::empty(),
            r@.bounded(),
    {
        let r = GridBuilder {
            done: Vec::new(),
            row: Vec::new(),
            open: false,
            carry: Vec::new(),
        };
        assert(r@.done =~= Grid::empty().done);
        assert(r@.row =~= Grid::empty().row);
        assert(r@.carry =~= Grid::empty().carry);
        r
    }

    /// Extend the row in progress to `n` columns by what is carried.
    fn fill(&mut self, n: usize)
        requires
            old(self)@.bounded(),
            old(self)@.open,
            old(self)@.row.len() <= n <= old(self)@.carry.len(),
        ensures
            final(self)@ == old(self)@.filled(n as int),
            final(self)@.bounded(),
            final(self)@.row.len() == n,
    {
        let ghost was = self@;
        assert(was.filled(was.row.len() as int).row =~= was.row);
        assert(was.filled(was.row.len() as int).carry =~= was.carry);
        while self.row.len() < n
            invariant
                was.bounded(),
                was.open,
                was.row.len() <= self.row@.len() <= n <= was.carry.len(),
                self@ == was.filled(self.row@.len() as int),
            decreases n - self.row@.len(),
        {
            let c: usize = self.row.len();
            let k: Carry = self.carry[c];
            let ghost before = self@;
            proof {
                assert(before.carry[c as int] == was.carry[c as int]);
            }
            if k.rows > 0 {
                let slot = CellSlot::Covered { origin_row: k.origin_row, origin_col: k.origin_col };
                proof {
                    lemma_row_view_push(self.row@, slot);
                }
                self.row.push(slot);
                self.carry[c] = Carry {
                    origin_row: k.origin_row,
                    origin_col: k.origin_col,
                    rows: k.rows - 1,
                };
            } else {
                let slot = CellSlot::Origin(Cell::spanning(Vec::new(), 1, 1));
                proof {
                    lemma_row_view_push(self.row@, slot);
                    assert(slot matches CellSlot::Origin(cell) && model::cell_view(cell)
                        == spanning(Seq::empty(), 1, 1)) by {
                        assert(model::block_views(Seq::empty()) =~= Seq::empty());
                    }
                }
                self.row.push(slot);
            }
            proof {
                let next = was.filled(c + 1);
                assert(self@.row =~= next.row);
                assert(self@.carry =~= next.carry);
            }
        }
    }

    /// Close the row in progress, with every column that is carried.
    fn close(&mut self)
        requires
            old(self)@.bounded(),
        ensures
            final(self)@ == old(self)@.closed(),
            final(self)@.bounded(),
    {
        if !self.open {
            return;
        }
        let ghost was = self@;
        let start: usize = self.row.len();
        let mut n: usize = self.carry.len();
        while n > start && self.carry[n - 1].rows == 0
            invariant
                self@ == was,
                was.bounded(),
                start == was.row.len(),
                start <= n <= was.carry.len(),
                forall|j: int| n <= j < was.carry.len() ==> (#[trigger] was.carry[j]).rows == 0,
            decreases n,
        {
            n -= 1;
        }
        proof {
            lemma_reach(was.carry, start as int, was.carry.len() as int, n as int);
        }
        self.fill(n);
        let ghost rows = self.done@;
        let mut row: Vec<CellSlot> = Vec::new();
        row.append(&mut self.row);
        self.done.push(row);
        self.open = false;
        proof {
            assert(model::grid_view(self.done@) =~= model::grid_view(rows).push(
                model::row_view(row@),
            ));
            assert(self@.row =~= Seq::empty());
            assert(self@ == was.closed());
        }
    }

    /// Begin a new row.
    pub fn next_row(&mut self)
        requires
            old(self)@.bounded(),
        ensures
            final(self)@ == old(self)@.next(),
            final(self)@.bounded(),
    {
        self.close();
        self.open = true;
    }

    /// Place a cell at the first free column of the row in progress. A row
    /// that would get too wide is a resource-limit error.
    pub fn place(&mut self, cell: Cell) -> (r: Result<(), ConvertError>)
        requires
            old(self)@.bounded(),
            old(self)@.open,
            cell.col_span >= 1,
            cell.row_span >= 1,
        ensures
            match r {
                Ok(_) => old(self)@.fits(model::cell_view(cell)) && final(self)@
                    == old(self)@.with_cell(model::cell_view(cell)) && final(self)@.bounded(),
                Err(e) => !old(self)@.fits(model::cell_view(cell)) && e
                    == ConvertError::LimitExceeded && final(self)@ == old(self)@.ready()
                    && final(self)@.bounded(),
            },
    {
        let ghost was = self@;
        let ghost view = model::cell_view(cell);
        let mut n: usize = self.row.len();
        while n < self.carry.len() && self.carry[n].rows > 0
            invariant
                self@ == was,
                was.bounded(),
                was.row.len() <= n <= was.carry.len(),
                forall|j: int|
                    was.row.len() <= j < n ==> (#[trigger] was.carry[j]).rows > 0,
            decreases was.carry.len() - n,
        {
            n += 1;
        }
        proof {
            lemma_free(was.carry, was.row.len() as int, n as int);
        }
        self.fill(n);
        let ghost g = self@;
        assert(g == was.ready());
        let span: usize = cell.col_span as usize;
        if span > MAX_COLUMNS - n {
            return Err(ConvertError::LimitExceeded);
        }
        let r: usize = self.done.len();
        let carried = Carry { origin_row: r, origin_col: n, rows: cell.row_span - 1 };
        let slot = CellSlot::Origin(cell);
        proof {
            lemma_row_view_push(self.row@, slot);
            assert(model::slot_view(slot) == SlotView::Origin(view));
        }
        self.row.push(slot);
        let mut k: usize = 1;
        assert(self@.row =~= g.row.push(SlotView::Origin(view)) + Seq::new(
            0,
            |i: int| SlotView::Covered { origin_row: r, origin_col: n },
        ));
        while k < span
            invariant
                1 <= k <= span,
                self.open,
                self.carry@ == g.carry,
                model::grid_view(self.done@) == g.done,
                model::row_view(self.row@) == g.row.push(SlotView::Origin(view)) + Seq::new(
                    (k - 1) as nat,
                    |i: int| SlotView::Covered { origin_row: r, origin_col: n },
                ),
            decreases span - k,
        {
            let covered = CellSlot::Covered { origin_row: r, origin_col: n };
            proof {
                lemma_row_view_push(self.row@, covered);
            }
            self.row.push(covered);
            k += 1;
            assert(model::row_view(self.row@) =~= g.row.push(SlotView::Origin(view)) + Seq::new(
                (k - 1) as nat,
                |i: int| SlotView::Covered { origin_row: r, origin_col: n },
            ));
        }
        let ghost full = self.row@;
        let end: usize = n + span;
        let mut c: usize = n;
        while c < end
            invariant
                n <= c <= end,
                end <= MAX_COLUMNS,
                n <= g.carry.len() <= MAX_COLUMNS,
                self.open,
                self.row@ == full,
                model::grid_view(self.done@) == g.done,
                self.carry@.len() == if g.carry.len() > c {
                    g.carry.len()
                } else {
                    c as nat
                },
                forall|j: int| n <= j < c ==> self.carry@[j] == carried,
                forall|j: int|
                    0 <= j < g.carry.len() && !(n <= j < c) ==> self.carry@[j] == g.carry[j],
            decreases end - c,
        {
            if c < self.carry.len() {
                self.carry[c] = carried;
            } else {
                self.carry.push(carried);
            }
            c += 1;
        }
        proof {
            let next = was.with_cell(view);
            assert(self@.carry =~= next.carry);
            assert(self@.row =~= next.row);
        }
        Ok(())
    }

    /// The finished table; a grid without a single slot is empty.
    pub fn finish(self, kind: TableKind) -> (r: Table)
        requires
            self@.bounded(),
        ensures
            r@ == (TableView { kind, grid: self@.rows(), header_rows: 0 }),
    {
        let mut b = self;
        b.close();
        let ghost done = b@.done;
        let rows: Vec<Vec<CellSlot>> = b.done;
        let mut i: usize = 0;
        let mut any: bool = false;
        while i < rows.len()
            invariant
                i <= rows@.len(),
                done == model::grid_view(rows@),
                any == (exists|j: int| 0 <= j < i && (#[trigger] done[j]).len() > 0),
            decreases rows@.len() - i,
        {
            assert(done[i as int] == model::row_view(rows@[i as int]@));
            if rows[i].len() > 0 {
                assert(done[i as int].len() > 0);
                any = true;
            }
            i += 1;
        }
        if any {
            Table { kind, grid: rows, header_rows: 0 }
        } else {
            let t = Table { kind, grid: Vec::new(), header_rows: 0 };
            assert(t@.grid =~= Seq::empty());
            t
        }
    }
}

} // verus!
