//! What the rows of a table promise: all visible rows are found, in order, and
//! each belongs to the section it stands in.

use crate::cascade;
use crate::css::RuleText;
use crate::laws;
use crate::rows;
use crate::rows::{Part, RowAt, RowsView};
use crate::xml::{Element, Node};
use vstd::prelude::*;

verus! {

/// Whether a node is a section of a table.
pub open spec fn is_section(node: Node) -> bool {
    node matches Node::Elem(e) && (e.local@ == "thead"@ || e.local@ == "tbody"@ || e.local@
        == "tfoot"@)
}

/// Whether a node is a row that is not hidden.
pub open spec fn is_row(rules: Seq<RuleText>, node: Node) -> bool {
    node matches Node::Elem(e) && e.local@ == "tr"@ && !cascade::resolved(rules, e).hidden
}

/// Whether a node is a section that is not hidden.
pub open spec fn is_shown_section(rules: Seq<RuleText>, node: Node) -> bool {
    is_section(node) && !cascade::resolved(rules, node->Elem_0).hidden
}

/// Whether a visible row stands there: in the table itself, or in a section of
/// it that is not hidden either. It counts as one of the head if the section
/// does.
pub open spec fn stands_there(rules: Seq<RuleText>, nodes: Seq<Node>, at: RowAt) -> bool {
    &&& at.child < nodes.len()
    &&& match at.inner {
        None => is_row(rules, nodes[at.child as int]) && !at.head,
        Some(j) => {
            let node = nodes[at.child as int];
            &&& is_shown_section(rules, node)
            &&& j < (node->Elem_0).children@.len()
            &&& is_row(rules, (node->Elem_0).children@[j as int])
            &&& at.head == ((node->Elem_0).local@ == "thead"@)
        },
    }
}

/// Whether one row comes before another in the source.
pub open spec fn precedes(a: RowAt, b: RowAt) -> bool {
    ||| a.child < b.child
    ||| a.child == b.child && (a.inner matches Some(i) && b.inner matches Some(j) && i < j)
}

/// Whether two rows stand in one section; those outside all sections stand
/// together as long as no section comes between them.
pub open spec fn together(nodes: Seq<Node>, a: RowAt, b: RowAt) -> bool {
    ||| a.inner is Some && b.inner is Some && a.child == b.child
    ||| a.inner is None && b.inner is None && no_section(nodes, a.child as int, b.child as int)
}

/// Whether no section stands between two children of a table.
pub open spec fn no_section(nodes: Seq<Node>, a: int, b: int) -> bool {
    forall|m: int| a < m < b ==> !is_section(#[trigger] nodes[m])
}

/// Whether a row outside all sections was found at child `i`.
pub open spec fn found_outside(found: Seq<RowAt>, i: int) -> bool {
    exists|k: int|
        0 <= k < found.len() && (#[trigger] found[k]).child == i && found[k].inner is None
}

/// Whether row `j` of the section at child `i` was found.
pub open spec fn found_inside(found: Seq<RowAt>, i: int, j: int) -> bool {
    exists|k: int|
        0 <= k < found.len() && (#[trigger] found[k]).child == i && (
        found[k].inner matches Some(m) && m == j)
}

/// What holds of the rows among the first `n` children.
spec fn collected(rules: Seq<RuleText>, nodes: Seq<Node>, n: int, acc: RowsView) -> bool {
    &&& forall|k: int|
        0 <= k < acc.rows.len() ==> stands_there(rules, nodes, #[trigger] acc.rows[k])
            && acc.rows[k].child < n
    &&& forall|i: int, j: int|
        0 <= i < j < acc.rows.len() ==> precedes(#[trigger] acc.rows[i], #[trigger] acc.rows[j])
    &&& forall|i: int|
        0 <= i < n && is_row(rules, #[trigger] nodes[i]) ==> found_outside(acc.rows, i)
    &&& forall|i: int, j: int|
        0 <= i < n && is_shown_section(rules, #[trigger] nodes[i]) && 0 <= j < (
        nodes[i]->Elem_0).children@.len() && is_row(
            rules,
            #[trigger] (nodes[i]->Elem_0).children@[j],
        ) ==> found_inside(acc.rows, i, j)
    &&& acc.group + (if acc.implicit {
        1int
    } else {
        0
    }) <= n
    &&& forall|k: int|
        0 <= k < acc.rows.len() && (#[trigger] acc.rows[k]).inner is Some ==> acc.rows[k].group
            < acc.group
    &&& forall|k: int|
        0 <= k < acc.rows.len() && (#[trigger] acc.rows[k]).inner is None ==> {
            &&& acc.rows[k].group <= acc.group
            &&& (acc.rows[k].group == acc.group) == no_section(
                nodes,
                acc.rows[k].child as int,
                n,
            )
            &&& acc.rows[k].group == acc.group ==> acc.implicit
        }
    &&& forall|i: int, j: int|
        0 <= i < j < acc.rows.len() ==> ((#[trigger] acc.rows[i]).group == (
        #[trigger] acc.rows[j]).group) == together(nodes, acc.rows[i], acc.rows[j])
}

proof fn lemma_found_more(a: Seq<RowAt>, b: Seq<RowAt>)
    ensures
        forall|i: int| found_outside(a, i) ==> #[trigger] found_outside(a + b, i),
        forall|i: int, j: int| found_inside(a, i, j) ==> #[trigger] found_inside(a + b, i, j),
{
    assert forall|i: int| found_outside(a, i) implies #[trigger] found_outside(a + b, i) by {
        let k = choose|k: int|
            0 <= k < a.len() && (#[trigger] a[k]).child == i && a[k].inner is None;
        assert((a + b)[k] == a[k]);
    }
    assert forall|i: int, j: int| found_inside(a, i, j) implies #[trigger] found_inside(
        a + b,
        i,
        j,
    ) by {
        let k = choose|k: int|
            0 <= k < a.len() && (#[trigger] a[k]).child == i && (a[k].inner matches Some(m) && m
                == j);
        assert((a + b)[k] == a[k]);
    }
}

/// A child that has no rows.
proof fn lemma_other_child(rules: Seq<RuleText>, nodes: Seq<Node>, n: int, acc: RowsView)
    requires
        0 < n <= nodes.len(),
        collected(rules, nodes, n - 1, acc),
        !is_section(nodes[n - 1]),
        !is_row(rules, nodes[n - 1]),
    ensures
        collected(rules, nodes, n, acc),
        collected(rules, nodes, n, (RowsView { implicit: true, ..acc })) || acc.group + 1 > n,
{
    assert forall|k: int| 0 <= k < acc.rows.len() && (#[trigger] acc.rows[k]).inner is None implies
        no_section(nodes, acc.rows[k].child as int, n) == no_section(
        nodes,
        acc.rows[k].child as int,
        n - 1,
    ) by {
        if no_section(nodes, acc.rows[k].child as int, n - 1) {
            assert forall|m: int| acc.rows[k].child < m < n implies !is_section(
                #[trigger] nodes[m],
            ) by {}
        }
    }
}

/// A row outside all sections.
#[verifier::rlimit(40)]
proof fn lemma_outside(rules: Seq<RuleText>, nodes: Seq<Node>, n: int, acc: RowsView)
    requires
        0 < n <= nodes.len() <= usize::MAX,
        collected(rules, nodes, n - 1, acc),
        is_row(rules, nodes[n - 1]),
        !is_section(nodes[n - 1]),
    ensures
        collected(
            rules,
            nodes,
            n,
            (RowsView {
                rows: acc.rows.push(
                    RowAt {
                        child: (n - 1) as usize,
                        inner: None,
                        head: false,
                        group: acc.group,
                    },
                ),
                implicit: true,
                ..acc
            }),
        ),
{
    let row = RowAt { child: (n - 1) as usize, inner: None, head: false, group: acc.group };
    let after = acc.rows.push(row);
    let last = acc.rows.len() as int;
    assert(after =~= acc.rows + seq![row]);
    lemma_found_more(acc.rows, seq![row]);
    assert(after[last] == row);
    assert forall|k: int| 0 <= k < last && (#[trigger] acc.rows[k]).inner is None implies
        no_section(nodes, acc.rows[k].child as int, n) == no_section(
        nodes,
        acc.rows[k].child as int,
        n - 1,
    ) by {
        if no_section(nodes, acc.rows[k].child as int, n - 1) {
            assert forall|m: int| acc.rows[k].child < m < n implies !is_section(
                #[trigger] nodes[m],
            ) by {}
        }
    }
    assert forall|i: int, j: int| 0 <= i < j < after.len() implies ((#[trigger] after[i]).group == (
    #[trigger] after[j]).group) == together(nodes, after[i], after[j]) by {
        assert(after[i] == acc.rows[i]);
        if j < last {
            assert(after[j] == acc.rows[j]);
        }
    }
    assert forall|i: int, j: int| 0 <= i < j < after.len() implies precedes(
        #[trigger] after[i],
        #[trigger] after[j],
    ) by {
        assert(after[i] == acc.rows[i]);
        if j < last {
            assert(after[j] == acc.rows[j]);
        }
    }
    assert forall|k: int| 0 <= k < after.len() implies stands_there(
        rules,
        nodes,
        #[trigger] after[k],
    ) && after[k].child < n by {
        if k < last {
            assert(after[k] == acc.rows[k]);
        }
    }
    assert forall|k: int| 0 <= k < after.len() && (#[trigger] after[k]).inner is Some implies after[
        k
    ].group < acc.group by {
        assert(after[k] == acc.rows[k]);
    }
    assert forall|k: int| 0 <= k < after.len() && (#[trigger] after[k]).inner is None implies {
        &&& after[k].group <= acc.group
        &&& (after[k].group == acc.group) == no_section(nodes, after[k].child as int, n)
    } by {
        if k < last {
            assert(after[k] == acc.rows[k]);
        }
    }
    assert forall|i: int| 0 <= i < n && is_row(rules, #[trigger] nodes[i]) implies found_outside(
        after,
        i,
    ) by {
        if i < n - 1 {
            assert(found_outside(acc.rows, i));
        } else {
            assert(after[last].child == i);
        }
    }
}

/// The rows of a section.
#[verifier::rlimit(60)]
proof fn lemma_section(
    rules: Seq<RuleText>,
    nodes: Seq<Node>,
    n: int,
    acc: RowsView,
    group: usize,
)
    requires
        0 < n <= nodes.len() <= usize::MAX,
        collected(rules, nodes, n - 1, acc),
        is_section(nodes[n - 1]),
        !is_row(rules, nodes[n - 1]),
        (nodes[n - 1]->Elem_0).children@.len() <= usize::MAX,
        group == acc.group + (if acc.implicit {
            1int
        } else {
            0
        }),
    ensures
        ({
            let e = nodes[n - 1]->Elem_0;
            let hidden = cascade::resolved(rules, e).hidden;
            collected(
                rules,
                nodes,
                n,
                (RowsView {
                    rows: if hidden {
                        acc.rows
                    } else {
                        acc.rows + rows::group_rows(rules, e, n - 1, group)
                    },
                    group: (group + 1) as usize,
                    implicit: false,
                    dropped: acc.dropped,
                }),
            )
        }),
{
    let e = nodes[n - 1]->Elem_0;
    let hidden = cascade::resolved(rules, e).hidden;
    let seen = rows::visible(rules, e.children@, Part::Row, e.children@.len() as int);
    laws::spans::law_visible_parts(rules, e.children@, Part::Row, e.children@.len() as int);
    let more = if hidden {
        Seq::empty()
    } else {
        rows::group_rows(rules, e, n - 1, group)
    };
    let after = acc.rows + more;
    let old_len = acc.rows.len() as int;
    if hidden {
        assert(after =~= acc.rows);
    } else {
        assert(more.len() == seen.len());
        assert forall|k: int| 0 <= k < more.len() implies #[trigger] more[k] == (RowAt {
            child: (n - 1) as usize,
            inner: Some(seen[k]),
            head: e.local@ == "thead"@,
            group,
        }) by {}
    }
    lemma_found_more(acc.rows, more);
    assert forall|k: int| 0 <= k < acc.rows.len() && (#[trigger] acc.rows[k]).inner is None implies
        !no_section(nodes, acc.rows[k].child as int, n) by {
        assert(acc.rows[k].child < n - 1);
        assert(is_section(nodes[n - 1]));
    }
    assert forall|k: int| 0 <= k < after.len() implies stands_there(
        rules,
        nodes,
        #[trigger] after[k],
    ) && after[k].child < n by {
        if k < old_len {
            assert(after[k] == acc.rows[k]);
        } else {
            assert(after[k] == more[k - old_len]);
            let m = seen[k - old_len];
            assert(e.children@[m as int] is Elem);
        }
    }
    assert forall|i: int, j: int| 0 <= i < j < after.len() implies precedes(
        #[trigger] after[i],
        #[trigger] after[j],
    ) && ((after[i].group == after[j].group) == together(nodes, after[i], after[j])) by {
        if j < old_len {
            assert(after[i] == acc.rows[i]);
            assert(after[j] == acc.rows[j]);
        } else {
            assert(after[j] == more[j - old_len]);
            if i < old_len {
                assert(after[i] == acc.rows[i]);
            } else {
                assert(after[i] == more[i - old_len]);
                assert(seen[i - old_len] < seen[j - old_len]);
            }
        }
    }
    assert forall|k: int| 0 <= k < after.len() && (#[trigger] after[k]).inner is Some implies after[
        k
    ].group < group + 1 by {
        if k < old_len {
            assert(after[k] == acc.rows[k]);
        } else {
            assert(after[k] == more[k - old_len]);
        }
    }
    assert forall|k: int| 0 <= k < after.len() && (#[trigger] after[k]).inner is None implies {
        &&& after[k].group < group + 1
        &&& !no_section(nodes, after[k].child as int, n)
    } by {
        if k < old_len {
            assert(after[k] == acc.rows[k]);
        } else {
            assert(after[k] == more[k - old_len]);
        }
    }
    assert forall|i: int| 0 <= i < n && is_row(rules, #[trigger] nodes[i]) implies found_outside(
        after,
        i,
    ) by {
        assert(found_outside(acc.rows, i));
    }
    assert forall|i: int, j: int|
        0 <= i < n && is_shown_section(rules, #[trigger] nodes[i]) && 0 <= j < (
        nodes[i]->Elem_0).children@.len() && is_row(
            rules,
            #[trigger] (nodes[i]->Elem_0).children@[j],
        ) implies found_inside(after, i, j) by {
        if i < n - 1 {
            assert(found_inside(acc.rows, i, j));
        } else {
            assert(seen.contains(j as usize));
            let k = choose|k: int| 0 <= k < seen.len() && seen[k] == j as usize;
            assert(after[old_len + k] == more[k]);
            assert(after[old_len + k].child == i);
        }
    }
}

proof fn lemma_names()
    ensures
        "tr"@ != "thead"@,
        "tr"@ != "tbody"@,
        "tr"@ != "tfoot"@,
{
    reveal_strlit("tr");
    reveal_strlit("thead");
    reveal_strlit("tbody");
    reveal_strlit("tfoot");
    assert("tr"@.len() == 2 && "thead"@.len() == 5 && "tbody"@.len() == 5 && "tfoot"@.len() == 5);
}

proof fn lemma_rows(rules: Seq<RuleText>, nodes: Seq<Node>, n: int)
    requires
        0 <= n <= nodes.len() <= usize::MAX,
        forall|i: int|
            0 <= i < nodes.len() && is_section(#[trigger] nodes[i]) ==> (
            nodes[i]->Elem_0).children@.len() <= usize::MAX,
    ensures
        collected(rules, nodes, n, rows::rows_upto(rules, nodes, n)),
    decreases n,
{
    if n > 0 {
        lemma_rows(rules, nodes, n - 1);
        lemma_names();
        let acc = rows::rows_upto(rules, nodes, n - 1);
        let node = nodes[n - 1];
        if is_section(node) {
            let group = if acc.implicit {
                (acc.group + 1) as usize
            } else {
                acc.group
            };
            lemma_section(rules, nodes, n, acc, group);
        } else if is_row(rules, node) {
            lemma_outside(rules, nodes, n, acc);
        } else {
            lemma_other_child(rules, nodes, n, acc);
        }
    }
}

/// The rows of a table are all rows that are not hidden, in the table itself or
/// in a section of it that is not hidden, in the order of the source, each once.
/// Those of a head are marked. Rows belong together exactly if they stand in
/// one section, or outside all of them with none in between.
pub proof fn law_rows_are_found_in_order(rules: Seq<RuleText>, table: Element)
    requires
        table.children@.len() <= usize::MAX,
        forall|i: int|
            0 <= i < table.children@.len() && is_section(#[trigger] table.children@[i]) ==> (
            table.children@[i]->Elem_0).children@.len() <= usize::MAX,
    ensures
        ({
            let nodes = table.children@;
            let found = rows::rows_of(rules, table).rows;
            &&& forall|k: int|
                0 <= k < found.len() ==> stands_there(rules, nodes, #[trigger] found[k])
            &&& forall|i: int, j: int|
                0 <= i < j < found.len() ==> precedes(#[trigger] found[i], #[trigger] found[j])
            &&& forall|i: int|
                0 <= i < nodes.len() && is_row(rules, #[trigger] nodes[i]) ==> found_outside(
                    found,
                    i,
                )
            &&& forall|i: int, j: int|
                0 <= i < nodes.len() && is_shown_section(rules, #[trigger] nodes[i]) && 0 <= j < (
                nodes[i]->Elem_0).children@.len() && is_row(
                    rules,
                    #[trigger] (nodes[i]->Elem_0).children@[j],
                ) ==> found_inside(found, i, j)
            &&& forall|i: int, j: int|
                0 <= i < j < found.len() ==> ((#[trigger] found[i]).group == (
                #[trigger] found[j]).group) == together(nodes, found[i], found[j])
        }),
{
    lemma_rows(rules, table.children@, table.children@.len() as int);
}

/// Whether something about the rows at a child of a table is hidden: a section,
/// a row of a section, or a row outside all sections.
pub open spec fn hides_rows(rules: Seq<RuleText>, node: Node) -> bool {
    node matches Node::Elem(e) && {
        ||| (is_section(node) || e.local@ == "tr"@) && cascade::resolved(rules, e).hidden
        ||| is_section(node) && exists|j: int|
            0 <= j < e.children@.len() && (#[trigger] e.children@[j] matches Node::Elem(tr)
                && tr.local@ == "tr"@ && cascade::resolved(rules, tr).hidden)
    }
}

/// That something was left out is noted exactly if a section or a row is
/// hidden.
pub proof fn law_hidden_rows_are_noted(rules: Seq<RuleText>, nodes: Seq<Node>, n: int)
    requires
        0 <= n <= nodes.len(),
    ensures
        rows::rows_upto(rules, nodes, n).dropped <==> exists|i: int|
            0 <= i < n && hides_rows(rules, #[trigger] nodes[i]),
    decreases n,
{
    if n > 0 {
        law_hidden_rows_are_noted(rules, nodes, n - 1);
        let before = rows::rows_upto(rules, nodes, n - 1);
        let after = rows::rows_upto(rules, nodes, n);
        let node = nodes[n - 1];
        lemma_names();
        if let Node::Elem(e) = node {
            laws::spans::law_hidden_parts(
                rules,
                e.children@,
                Part::Row,
                e.children@.len() as int,
            );
        }
        assert(after.dropped == (before.dropped || hides_rows(rules, node)));
        if before.dropped {
            let i = choose|i: int| 0 <= i < n - 1 && hides_rows(rules, #[trigger] nodes[i]);
            assert(hides_rows(rules, nodes[i]));
        }
    }
}

/// A row stands where it says it does.
pub proof fn law_rows_stand_where_they_say(table: Element, at: RowAt)
    ensures
        at.child < table.children@.len() && at.inner is None ==> (rows::row_elem(
            table,
            at,
        ) == match table.children@[at.child as int] {
            Node::Elem(e) => Some(e),
            Node::Text(_) => None,
        }),
        at.child < table.children@.len() ==> (at.inner matches Some(j) ==> (
        table.children@[at.child as int] matches Node::Elem(section) ==> j
            < section.children@.len() ==> rows::row_elem(table, at)
            == match section.children@[j as int] {
            Node::Elem(e) => Some(e),
            Node::Text(_) => None,
        })),
{
}

} // verus!
