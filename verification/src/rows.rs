//! Which children of a list or a table count: visible items, rows and cells,
//! the row groups they belong to, and how far cells reach.

use crate::cascade;
use crate::chars::chars_of;
use crate::css::{RuleText, Stylesheet};
use crate::number;
use crate::number::parse_u32;
use crate::tags::Inherited;
use crate::xml::{same_text, Element, Node};
use vstd::prelude::*;

verus! {

/// The children a structure is made of.
#[derive(Debug, Clone, Copy)]
pub enum Part {
    /// `<li>` of a list.
    Item,
    /// `<tr>` of a table or of a row group.
    Row,
    /// `<td>` or `<th>` of a row.
    Cell,
}

impl Part {
    /// Whether elements of that name are such a part.
    pub open spec fn has(self, name: Seq<char>) -> bool {
        match self {
            Part::Item => name == "li"@,
            Part::Row => name == "tr"@,
            Part::Cell => name == "td"@ || name == "th"@,
        }
    }

    /// Whether elements of that name are such a part.
    pub fn matches(self, name: &str) -> (r: bool)
        ensures
            r == self.has(name@),
    {
        match self {
            Part::Item => same_text(name, "li"),
            Part::Row => same_text(name, "tr"),
            Part::Cell => same_text(name, "td") || same_text(name, "th"),
        }
    }
}

/// Whether a child is such a part and not hidden.
pub open spec fn shown(rules: Seq<RuleText>, node: Node, part: Part) -> bool {
    node matches Node::Elem(e) && part.has(e.local@) && !cascade::resolved(rules, e).hidden
}

/// Whether a child is such a part and hidden.
pub open spec fn concealed(rules: Seq<RuleText>, node: Node, part: Part) -> bool {
    node matches Node::Elem(e) && part.has(e.local@) && cascade::resolved(rules, e).hidden
}

/// The indices of the visible parts among the first `n` children.
pub open spec fn visible(rules: Seq<RuleText>, nodes: Seq<Node>, part: Part, n: int) -> Seq<usize>
    decreases n,
{
    if n <= 0 {
        Seq::empty()
    } else if shown(rules, nodes[n - 1], part) {
        visible(rules, nodes, part, n - 1).push((n - 1) as usize)
    } else {
        visible(rules, nodes, part, n - 1)
    }
}

/// Whether one of the first `n` children is a hidden part.
pub open spec fn any_concealed(rules: Seq<RuleText>, nodes: Seq<Node>, part: Part, n: int) -> bool {
    exists|i: int| 0 <= i < n && concealed(rules, #[trigger] nodes[i], part)
}

/// The child element at `i`.
pub open spec fn elem_at(nodes: Seq<Node>, i: int) -> Option<Element> {
    if 0 <= i < nodes.len() {
        match nodes[i] {
            Node::Elem(e) => Some(e),
            Node::Text(_) => None,
        }
    } else {
        None
    }
}

/// Children are smaller than the element they belong to.
pub proof fn lemma_elem_at(elem: Element, i: int)
    ensures
        elem_at(elem.children@, i) matches Some(e) ==> decreases_to!(elem => e),
{
    if 0 <= i < elem.children@.len() {
        assert(decreases_to!(elem.children@ => elem.children@[i]));
        if let Node::Elem(e) = elem.children@[i] {
            assert(decreases_to!(elem => elem.children));
            assert(decreases_to!(elem.children => elem.children@));
            assert(decreases_to!(elem.children@[i] => e));
        }
    }
}

proof fn lemma_visible_upto(rules: Seq<RuleText>, nodes: Seq<Node>, part: Part, n: int)
    requires
        0 <= n <= nodes.len() <= usize::MAX,
    ensures
        forall|k: int|
            0 <= k < visible(rules, nodes, part, n).len() ==> (#[trigger] visible(
                rules,
                nodes,
                part,
                n,
            )[k]) < n && shown(rules, nodes[visible(rules, nodes, part, n)[k] as int], part),
    decreases n,
{
    if n > 0 {
        lemma_visible_upto(rules, nodes, part, n - 1);
        let before = visible(rules, nodes, part, n - 1);
        let all = visible(rules, nodes, part, n);
        assert forall|k: int| 0 <= k < all.len() implies (#[trigger] all[k]) < n && shown(
            rules,
            nodes[all[k] as int],
            part,
        ) by {
            if k < before.len() {
                assert(all[k] == before[k]);
            }
        }
    }
}

/// Visible parts are children, and visible.
pub proof fn lemma_visible(rules: Seq<RuleText>, elem: Element, part: Part)
    ensures
        forall|k: int|
            #![trigger visible(rules, elem.children@, part, elem.children@.len() as int)[k]]
            0 <= k < visible(rules, elem.children@, part, elem.children@.len() as int).len()
                ==> elem_at(
                elem.children@,
                visible(rules, elem.children@, part, elem.children@.len() as int)[k] as int,
            ) is Some && shown(
                rules,
                elem.children@[visible(
                    rules,
                    elem.children@,
                    part,
                    elem.children@.len() as int,
                )[k] as int],
                part,
            ),
{
    let n: usize = elem.children.len();
    assert(elem.children@.len() == n);
    lemma_visible_upto(rules, elem.children@, part, elem.children@.len() as int);
}

/// The indices of the visible parts among an element's children, and whether
/// there is a hidden one.
pub fn visible_parts(css: &Stylesheet, elem: &Element, part: Part) -> (r: (Vec<usize>, bool))
    ensures
        r.0@ == visible(css@, elem.children@, part, elem.children@.len() as int),
        r.1 == any_concealed(css@, elem.children@, part, elem.children@.len() as int),
{
    let mut out: Vec<usize> = Vec::new();
    let mut hidden: bool = false;
    let mut i: usize = 0;
    while i < elem.children.len()
        invariant
            i <= elem.children@.len(),
            out@ == visible(css@, elem.children@, part, i as int),
            hidden == any_concealed(css@, elem.children@, part, i as int),
        decreases elem.children@.len() - i,
    {
        if let Node::Elem(e) = &elem.children[i] {
            if part.matches(e.local.as_str()) {
                if css.element_props(e).hidden {
                    assert(concealed(css@, elem.children@[i as int], part));
                    hidden = true;
                } else {
                    out.push(i);
                }
            }
        }
        i += 1;
    }
    (out, hidden)
}

/// The index of the first child element of that name, from `i` on.
pub open spec fn first_named(nodes: Seq<Node>, name: Seq<char>, i: int) -> Option<int>
    decreases nodes.len() - i,
{
    if i < 0 || i >= nodes.len() {
        None
    } else if nodes[i] matches Node::Elem(e) && e.local@ == name {
        Some(i)
    } else {
        first_named(nodes, name, i + 1)
    }
}

/// The first child element of that name.
pub open spec fn named_child(elem: Element, name: Seq<char>) -> Option<Element> {
    match first_named(elem.children@, name, 0) {
        Some(i) => elem_at(elem.children@, i),
        None => None,
    }
}

/// The first child element of that name.
pub fn first_child<'a>(elem: &'a Element, name: &str) -> (r: Option<&'a Element>)
    ensures
        match r {
            Some(e) => named_child(*elem, name@) == Some(*e),
            None => named_child(*elem, name@) is None,
        },
{
    let mut i: usize = 0;
    while i < elem.children.len()
        invariant
            i <= elem.children@.len(),
            first_named(elem.children@, name@, i as int) == first_named(elem.children@, name@, 0),
        decreases elem.children@.len() - i,
    {
        if let Node::Elem(e) = &elem.children[i] {
            if same_text(e.local.as_str(), name) {
                return Some(e);
            }
        }
        i += 1;
    }
    None
}

// ---------------------------------------------------------------------------
// Row groups

/// Where a row of a table stands.
#[derive(Debug, Clone, Copy)]
pub struct RowAt {
    /// Which child of the table: the row, or the row group it is in.
    pub child: usize,
    /// Which child of the row group.
    pub inner: Option<usize>,
    /// Whether the row group is the table's head.
    pub head: bool,
    /// Each row group has a number of its own; consecutive rows outside one
    /// share theirs.
    pub group: usize,
}

/// The visible rows of a table as far as collected.
pub struct RowsView {
    pub rows: Seq<RowAt>,
    /// The number that the next row group gets.
    pub group: usize,
    /// Whether rows outside a row group have taken that number.
    pub implicit: bool,
    /// Whether something hidden was left out.
    pub dropped: bool,
}

/// Whether elements of that name group rows.
pub open spec fn groups_rows(name: Seq<char>) -> bool {
    name == "thead"@ || name == "tbody"@ || name == "tfoot"@
}

/// The visible rows of one row group, which is child `i` of its table.
pub open spec fn group_rows(rules: Seq<RuleText>, e: Element, i: int, group: usize) -> Seq<RowAt> {
    visible(rules, e.children@, Part::Row, e.children@.len() as int).map_values(
        |j: usize|
            RowAt { child: i as usize, inner: Some(j), head: e.local@ == "thead"@, group },
    )
}

/// One more child of a table.
pub open spec fn with_child(rules: Seq<RuleText>, node: Node, i: int, acc: RowsView) -> RowsView {
    match node {
        Node::Text(_) => acc,
        Node::Elem(e) => if groups_rows(e.local@) {
            let group = if acc.implicit {
                (acc.group + 1) as usize
            } else {
                acc.group
            };
            let hidden = cascade::resolved(rules, e).hidden;
            RowsView {
                rows: if hidden {
                    acc.rows
                } else {
                    acc.rows + group_rows(rules, e, i, group)
                },
                group: (group + 1) as usize,
                implicit: false,
                dropped: acc.dropped || hidden || any_concealed(
                    rules,
                    e.children@,
                    Part::Row,
                    e.children@.len() as int,
                ),
            }
        } else if e.local@ == "tr"@ {
            let hidden = cascade::resolved(rules, e).hidden;
            RowsView {
                rows: if hidden {
                    acc.rows
                } else {
                    acc.rows.push(
                        RowAt { child: i as usize, inner: None, head: false, group: acc.group },
                    )
                },
                implicit: true,
                dropped: acc.dropped || hidden,
                ..acc
            }
        } else {
            acc
        },
    }
}

/// The visible rows among the first `n` children of a table.
pub open spec fn rows_upto(rules: Seq<RuleText>, nodes: Seq<Node>, n: int) -> RowsView
    decreases n,
{
    if n <= 0 {
        RowsView { rows: Seq::empty(), group: 0, implicit: false, dropped: false }
    } else {
        with_child(rules, nodes[n - 1], n - 1, rows_upto(rules, nodes, n - 1))
    }
}

/// The visible rows of a table.
pub open spec fn rows_of(rules: Seq<RuleText>, table: Element) -> RowsView {
    rows_upto(rules, table.children@, table.children@.len() as int)
}

/// The row that stands there.
pub open spec fn row_elem(table: Element, at: RowAt) -> Option<Element> {
    match elem_at(table.children@, at.child as int) {
        Some(e) => match at.inner {
            Some(j) => elem_at(e.children@, j as int),
            None => Some(e),
        },
        None => None,
    }
}

/// Rows are smaller than the table they belong to.
pub proof fn lemma_row_elem(table: Element, at: RowAt)
    ensures
        row_elem(table, at) matches Some(e) ==> decreases_to!(table => e),
{
    lemma_elem_at(table, at.child as int);
    if let Some(e) = elem_at(table.children@, at.child as int) {
        if let Some(j) = at.inner {
            lemma_elem_at(e, j as int);
        }
    }
}

/// What the cells of a row inherit: the row group's own properties and the
/// row's go on top of the table's.
pub open spec fn row_inherits(
    rules: Seq<RuleText>,
    table: Element,
    at: RowAt,
    inh: Inherited,
) -> Inherited {
    match elem_at(table.children@, at.child as int) {
        Some(e) => {
            let outer = inh.within(e, cascade::resolved(rules, e));
            match at.inner {
                Some(j) => match elem_at(e.children@, j as int) {
                    Some(tr) => outer.within(tr, cascade::resolved(rules, tr)),
                    None => outer,
                },
                None => outer,
            }
        },
        None => inh,
    }
}

/// The collected rows stand where they say.
pub open spec fn all_rows(table: Element, rows: Seq<RowAt>) -> bool {
    forall|k: int| 0 <= k < rows.len() ==> row_elem(table, #[trigger] rows[k]) is Some
}

/// The visible rows of a table. A hidden row group drops every row in it; its
/// number is used up all the same.
pub fn collect_rows(css: &Stylesheet, table: &Element) -> (r: (Vec<RowAt>, bool))
    ensures
        r.0@ == rows_of(css@, *table).rows,
        r.1 == rows_of(css@, *table).dropped,
        all_rows(*table, r.0@),
{
    let mut rows: Vec<RowAt> = Vec::new();
    let mut group: usize = 0;
    let mut implicit: bool = false;
    let mut dropped: bool = false;
    let mut i: usize = 0;
    while i < table.children.len()
        invariant
            i <= table.children@.len(),
            rows_upto(css@, table.children@, i as int) == (RowsView {
                rows: rows@,
                group,
                implicit,
                dropped,
            }),
            group + (if implicit {
                1int
            } else {
                0
            }) <= i,
            all_rows(*table, rows@),
        decreases table.children@.len() - i,
    {
        let ghost before = rows@;
        if let Node::Elem(e) = &table.children[i] {
            let name: &str = e.local.as_str();
            if same_text(name, "thead") || same_text(name, "tbody") || same_text(name, "tfoot") {
                if implicit {
                    implicit = false;
                    group += 1;
                }
                if css.element_props(e).hidden {
                    dropped = true;
                } else {
                    let (inner, hidden_rows) = visible_parts(css, e, Part::Row);
                    if hidden_rows {
                        dropped = true;
                    }
                    let head: bool = same_text(name, "thead");
                    let ghost more = group_rows(css@, *e, i as int, group);
                    let mut j: usize = 0;
                    assert(before =~= before + more.take(0));
                    while j < inner.len()
                        invariant
                            j <= inner@.len(),
                            i < table.children@.len(),
                            table.children@[i as int] == Node::Elem(*e),
                            head == (e.local@ == "thead"@),
                            inner@ == visible(
                                css@,
                                e.children@,
                                Part::Row,
                                e.children@.len() as int,
                            ),
                            more == group_rows(css@, *e, i as int, group),
                            rows@ == before + more.take(j as int),
                            all_rows(*table, rows@),
                        decreases inner@.len() - j,
                    {
                        proof {
                            lemma_visible(css@, *e, Part::Row);
                        }
                        let at = RowAt { child: i, inner: Some(inner[j]), head, group };
                        assert(more[j as int] == at);
                        assert(row_elem(*table, at) is Some);
                        rows.push(at);
                        j += 1;
                        assert(rows@ =~= before + more.take(j as int));
                    }
                    assert(more.take(j as int) =~= more);
                }
                group += 1;
            } else if same_text(name, "tr") {
                implicit = true;
                if css.element_props(e).hidden {
                    dropped = true;
                } else {
                    let at = RowAt { child: i, inner: None, head: false, group };
                    assert(row_elem(*table, at) is Some);
                    rows.push(at);
                }
            }
        }
        i += 1;
    }
    (rows, dropped)
}

/// The row that stands there.
pub fn row_at<'a>(table: &'a Element, at: RowAt) -> (r: Option<&'a Element>)
    ensures
        match r {
            Some(e) => row_elem(*table, at) == Some(*e),
            None => row_elem(*table, at) is None,
        },
{
    if at.child >= table.children.len() {
        return None;
    }
    match &table.children[at.child] {
        Node::Text(_) => None,
        Node::Elem(e) => match at.inner {
            None => Some(e),
            Some(j) => {
                if j >= e.children.len() {
                    return None;
                }
                match &e.children[j] {
                    Node::Text(_) => None,
                    Node::Elem(tr) => Some(tr),
                }
            },
        },
    }
}

/// What the cells of a row inherit.
pub fn row_inherited(css: &Stylesheet, table: &Element, at: RowAt, inh: Inherited) -> (r: Inherited)
    ensures
        r == row_inherits(css@, *table, at, inh),
{
    if at.child >= table.children.len() {
        return inh;
    }
    match &table.children[at.child] {
        Node::Text(_) => inh,
        Node::Elem(e) => {
            let outer: Inherited = inh.merge_props(e, css.element_props(e));
            match at.inner {
                None => outer,
                Some(j) => {
                    if j >= e.children.len() {
                        return outer;
                    }
                    match &e.children[j] {
                        Node::Text(_) => outer,
                        Node::Elem(tr) => outer.merge_props(tr, css.element_props(tr)),
                    }
                },
            }
        },
    }
}

// ---------------------------------------------------------------------------
// Spans and headers

/// The last of the first `n` rows that is in that group, `0` when there is
/// none.
pub open spec fn last_in(rows: Seq<RowAt>, group: usize, n: int) -> int
    decreases n,
{
    if n <= 0 {
        0
    } else if rows[n - 1].group == group {
        n - 1
    } else {
        last_in(rows, group, n - 1)
    }
}

/// How many rows there are from row `i` to the end of its group, itself
/// counted.
pub open spec fn rows_left(rows: Seq<RowAt>, i: int) -> u32 {
    (last_in(rows, rows[i].group, rows.len() as int) - i + 1) as usize as u32
}

/// How many rows there are from row `i` to the end of its group, itself
/// counted.
pub fn rows_to_group_end(rows: &Vec<RowAt>, i: usize) -> (r: u32)
    requires
        i < rows@.len(),
    ensures
        r == rows_left(rows@, i as int),
{
    let group: usize = rows[i].group;
    let mut n: usize = rows.len();
    while rows[n - 1].group != group
        invariant
            i < n <= rows@.len(),
            group == rows@[i as int].group,
            last_in(rows@, group, n as int) == last_in(rows@, group, rows@.len() as int),
        decreases n,
    {
        n -= 1;
    }
    (n - 1 - i + 1) as u32
}

/// An attribute as an unsigned 32-bit integer.
pub open spec fn count_of(elem: Element, name: Seq<char>) -> Option<u32> {
    match elem.value_of(name) {
        Some(v) => match number::unsigned(v, u32::MAX as nat) {
            Some(n) => Some(n as u32),
            None => None,
        },
        None => None,
    }
}

/// An attribute as an unsigned 32-bit integer.
pub fn count_attr(elem: &Element, name: &str) -> (r: Option<u32>)
    ensures
        r == count_of(*elem, name@),
{
    match elem.attr_any(name) {
        Some(v) => {
            let s: Vec<char> = chars_of(v);
            parse_u32(&s)
        },
        None => None,
    }
}

/// `n`, at least one and at most `max`.
pub open spec fn clamped(n: u32, max: u32) -> u32 {
    if n < 1 {
        1
    } else if n > max {
        max
    } else {
        n
    }
}

/// How many columns a cell reaches over: one to a thousand.
pub open spec fn columns_of(cell: Element) -> u32 {
    match count_of(cell, "colspan"@) {
        Some(n) => clamped(n, 1000),
        None => 1,
    }
}

/// How many rows a cell reaches over: `rowspan="0"` means all that are `left`
/// in its row group, and any other number counts up to 65534.
pub open spec fn lines_of(cell: Element, left: u32) -> u32 {
    match count_of(cell, "rowspan"@) {
        Some(n) => if n == 0 {
            left
        } else {
            clamped(n, 65534)
        },
        None => 1,
    }
}

/// How many columns a cell reaches over.
pub fn col_span(cell: &Element) -> (r: u32)
    ensures
        r == columns_of(*cell),
{
    match count_attr(cell, "colspan") {
        Some(n) => if n < 1 {
            1
        } else if n > 1000 {
            1000
        } else {
            n
        },
        None => 1,
    }
}

/// How many rows a cell reaches over.
pub fn row_span(cell: &Element, left: u32) -> (r: u32)
    ensures
        r == lines_of(*cell, left),
{
    match count_attr(cell, "rowspan") {
        Some(n) => if n == 0 {
            left
        } else if n > 65534 {
            65534
        } else {
            n
        },
        None => 1,
    }
}

/// Whether a row is declared a header: it is in the head, or it has cells and
/// all of them are `<th>`.
pub open spec fn heads(tr: Element, cells: Seq<usize>, head: bool) -> bool {
    head || (cells.len() > 0 && forall|k: int|
        0 <= k < cells.len() ==> (elem_at(tr.children@, #[trigger] cells[k] as int) matches Some(e)
            && e.local@ == "th"@))
}

/// Whether a row is declared a header.
pub fn is_header(tr: &Element, cells: &Vec<usize>, head: bool) -> (r: bool)
    ensures
        r == heads(*tr, cells@, head),
{
    if head {
        return true;
    }
    if cells.len() == 0 {
        return false;
    }
    let mut k: usize = 0;
    while k < cells.len()
        invariant
            !head,
            k <= cells@.len(),
            forall|j: int|
                0 <= j < k ==> (elem_at(tr.children@, #[trigger] cells@[j] as int) matches Some(e)
                    && e.local@ == "th"@),
        decreases cells@.len() - k,
    {
        let c: usize = cells[k];
        if c >= tr.children.len() {
            assert(elem_at(tr.children@, cells@[k as int] as int) is None);
            return false;
        }
        let th: bool = match &tr.children[c] {
            Node::Text(_) => false,
            Node::Elem(e) => same_text(e.local.as_str(), "th"),
        };
        if !th {
            assert(!(elem_at(tr.children@, cells@[k as int] as int) matches Some(e) && e.local@
                == "th"@));
            return false;
        }
        k += 1;
    }
    true
}

/// The visible cells of a row.
pub open spec fn cells_of(rules: Seq<RuleText>, tr: Element) -> Seq<usize> {
    visible(rules, tr.children@, Part::Cell, tr.children@.len() as int)
}

/// How many of the first `n` rows are declared headers, counted from the top
/// up to the first that is not.
pub open spec fn declared_headers(
    rules: Seq<RuleText>,
    table: Element,
    rows: Seq<RowAt>,
    n: int,
) -> int
    decreases n,
{
    if n <= 0 {
        0
    } else {
        let before = declared_headers(rules, table, rows, n - 1);
        match row_elem(table, rows[n - 1]) {
            Some(tr) => if before == n - 1 && heads(tr, cells_of(rules, tr), rows[n - 1].head) {
                before + 1
            } else {
                before
            },
            None => before,
        }
    }
}

} // verus!
