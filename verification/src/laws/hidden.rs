//! What hiding promises: hidden content leaves no trace.

use crate::cascade;
use crate::css::RuleText;
use crate::grid::Grid;
use crate::hooks::Call;
use crate::inlines;
use crate::lists;
use crate::model::{InlineView, LinkTarget};
use crate::rows;
use crate::rows::{Part, RowAt};
use crate::tags;
use crate::tags::{ElemKind, Inherited};
use crate::walk;
use crate::walk::{Cells, Run, Stopped};
use crate::xml::{Element, Node};
use vstd::prelude::*;

verus! {

// ---------------------------------------------------------------------------
// Single elements

/// A hidden element adds nothing, whatever it holds: only the drop is noted.
pub proof fn law_hidden_element_adds_nothing(
    script: Seq<Call>,
    rules: Seq<RuleText>,
    elem: Element,
    inh: Inherited,
    r: Run,
)
    requires
        cascade::resolved(rules, elem).hidden,
    ensures
        walk::walk_elem(script, rules, elem, inh, r) == Ok::<Run, Stopped>(r.dropping(true)),
{
}

/// A hidden body gives no blocks, and nothing is asked.
pub proof fn law_hidden_body_gives_nothing(script: Seq<Call>, rules: Seq<RuleText>, body: Element)
    requires
        cascade::resolved(rules, body).hidden,
    ensures
        walk::walk_body(script, rules, body) == Ok::<Run, Stopped>(Run::new()),
{
}

/// Hidden list items, rows and cells are not among those that count.
pub proof fn law_hidden_parts_do_not_count(
    rules: Seq<RuleText>,
    elem: Element,
    part: Part,
    k: int,
)
    requires
        0 <= k < rows::visible(rules, elem.children@, part, elem.children@.len() as int).len(),
    ensures
        ({
            let i = rows::visible(rules, elem.children@, part, elem.children@.len() as int)[k];
            rows::elem_at(elem.children@, i as int) matches Some(e) && part.has(e.local@)
                && !cascade::resolved(rules, e).hidden
        }),
{
    rows::lemma_visible(rules, elem, part);
    let i = rows::visible(rules, elem.children@, part, elem.children@.len() as int)[k];
    assert(rows::elem_at(elem.children@, i as int) is Some);
}

/// A zero font size drops the text it is in effect on, and that only.
pub proof fn law_zero_font_size_drops_text(
    script: Seq<Call>,
    text: Seq<char>,
    inh: Inherited,
    r: Run,
)
    requires
        inh.font_size_zero,
    ensures
        walk::texted(script, text, inh, r) == r.dropping(true),
{
}

/// A zero font size can be reset: an element's own declaration is what is in
/// effect inside it, whatever its ancestors declare; without one it inherits.
pub proof fn law_font_size_can_be_reset(rules: Seq<RuleText>, elem: Element, inh: Inherited)
    ensures
        ({
            let p = cascade::resolved(rules, elem);
            inh.within(elem, p).font_size_zero == match p.font_size_zero {
                Some(z) => z,
                None => inh.font_size_zero,
            }
        }),
{
}

/// Whatever is inherited, an image comes to the same.
pub proof fn law_font_size_spares_images(
    script: Seq<Call>,
    rules: Seq<RuleText>,
    elem: Element,
    a: Inherited,
    b: Inherited,
    r: Run,
)
    requires
        tags::kind_of(elem.local@) is Image,
    ensures
        walk::walk_elem(script, rules, elem, a, r) == walk::walk_elem(script, rules, elem, b, r),
{
}

/// A link whose label shows nothing after hidden content was dropped from it
/// goes with it: its target does not show.
pub proof fn law_emptied_label_drops_the_link(
    target: LinkTarget,
    label: Seq<InlineView>,
    r: Run,
)
    requires
        inlines::all_empty(label),
    ensures
        walk::with_link(Some(target), label, true, r) == r,
{
}

/// A link whose label was empty to begin with is kept.
pub proof fn law_empty_label_keeps_the_link(target: LinkTarget, label: Seq<InlineView>, r: Run)
    ensures
        walk::with_link(Some(target), label, false, r) == r.inline(
            InlineView::Link { content: label, target },
        ),
{
}

/// An item that lost all its content to hiding is left out of its list; one
/// without content in the source stays.
pub proof fn law_emptied_items_are_left_out(
    script: Seq<Call>,
    rules: Seq<RuleText>,
    elem: Element,
    items: Seq<usize>,
    numbers: Seq<i64>,
    n: int,
    inh: Inherited,
    r: Run,
)
    requires
        n > 0,
        walk::walk_items(script, rules, elem, items, numbers, n, inh, r) is Ok,
        rows::elem_at(elem.children@, items[n - 1] as int) is Some,
    ensures
        ({
            let p = walk::walk_items(script, rules, elem, items, numbers, n - 1, inh, r)->Ok_0;
            let q = walk::walk_items(script, rules, elem, items, numbers, n, inh, r)->Ok_0;
            let li = rows::elem_at(elem.children@, items[n - 1] as int)->0;
            let inner = walk::walk_inside(
                script,
                rules,
                li,
                inh.within(li, cascade::resolved(rules, li)),
                true,
                p.run,
            );
            inner matches Ok(i) && (if i.blocks.len() == 0 && tags::had_content(li) {
                q.kept == p.kept
            } else {
                q.kept == p.kept.push(
                    lists::KeptView { number: numbers[n - 1], blocks: i.blocks },
                )
            })
        }),
{
}

// ---------------------------------------------------------------------------
// No trace

/// Whether two elements of one name have the same attributes; whether a
/// `<details>` is open may differ.
pub open spec fn same_attrs(a: Element, b: Element) -> bool {
    ||| a.attrs@ == b.attrs@
    ||| a.local@ == "details"@ && forall|name: Seq<char>|
        name != "open"@ ==> #[trigger] a.value_of(name) == b.value_of(name)
}

/// Whether the first `n` children of two elements differ at most in what
/// hidden elements hold and in which `<details>` are open.
pub open spec fn alike_upto(rules: Seq<RuleText>, a: Element, b: Element, n: int) -> bool
    decreases a, 0int, n,
{
    if n <= 0 {
        true
    } else {
        proof {
            rows::lemma_elem_at(a, n - 1);
        }
        alike_upto(rules, a, b, n - 1) && match rows::elem_at(a.children@, n - 1) {
            Some(x) => rows::elem_at(b.children@, n - 1) matches Some(y) && alike(rules, x, y),
            None => rows::elem_at(b.children@, n - 1) is None && a.children@[n - 1]->Text_0@
                == b.children@[n - 1]->Text_0@,
        }
    }
}

/// Whether two elements differ at most in what hidden elements hold, they
/// themselves among them, and in which `<details>` are open. What is in a
/// formula is up to its reader, so formulas that show are the same.
pub open spec fn alike(rules: Seq<RuleText>, a: Element, b: Element) -> bool
    decreases a, 1int, 0int,
{
    &&& a.local@ == b.local@
    &&& same_attrs(a, b)
    &&& cascade::resolved(rules, a).hidden || a == b || (a.local@ != "math"@ && a.children@.len()
        == b.children@.len() && alike_upto(rules, a, b, a.children@.len() as int))
}

/// Two elements that are alike and show.
spec fn peers(rules: Seq<RuleText>, a: Element, b: Element) -> bool {
    &&& a.local@ == b.local@
    &&& same_attrs(a, b)
    &&& a == b || (a.local@ != "math"@ && a.children@.len() == b.children@.len() && alike_upto(
        rules,
        a,
        b,
        a.children@.len() as int,
    ))
}

/// What is known of one of the children that are alike.
proof fn lemma_alike_at(rules: Seq<RuleText>, a: Element, b: Element, n: int, i: int)
    requires
        alike_upto(rules, a, b, n),
        0 <= i < n,
    ensures
        match rows::elem_at(a.children@, i) {
            Some(x) => rows::elem_at(b.children@, i) matches Some(y) && alike(rules, x, y),
            None => rows::elem_at(b.children@, i) is None && a.children@[i]->Text_0@
                == b.children@[i]->Text_0@,
        },
    decreases n,
{
    if i < n - 1 {
        lemma_alike_at(rules, a, b, n - 1, i);
    }
}

/// What is read of two elements with the same attributes is the same.
proof fn lemma_props(rules: Seq<RuleText>, a: Element, b: Element)
    requires
        a.local@ == b.local@,
        same_attrs(a, b),
    ensures
        cascade::resolved(rules, a) == cascade::resolved(rules, b),
        a.value_of("id"@) == b.value_of("id"@),
        a.value_of("name"@) == b.value_of("name"@),
        a.value_of("href"@) == b.value_of("href"@),
        a.value_of("src"@) == b.value_of("src"@),
        a.value_of("alt"@) == b.value_of("alt"@),
        a.value_of("value"@) == b.value_of("value"@),
        a.value_of("start"@) == b.value_of("start"@),
        a.value_of("reversed"@) == b.value_of("reversed"@),
        a.value_of("type"@) == b.value_of("type"@),
        a.value_of("colspan"@) == b.value_of("colspan"@),
        a.value_of("rowspan"@) == b.value_of("rowspan"@),
{
    reveal_strlit("open");
    reveal_strlit("id");
    reveal_strlit("name");
    reveal_strlit("href");
    reveal_strlit("src");
    reveal_strlit("alt");
    reveal_strlit("value");
    reveal_strlit("start");
    reveal_strlit("reversed");
    reveal_strlit("type");
    reveal_strlit("colspan");
    reveal_strlit("rowspan");
    reveal_strlit("class");
    reveal_strlit("hidden");
    reveal_strlit("aria-hidden");
    reveal_strlit("style");
    let open = "open"@;
    assert(open.len() == 4);
    assert("id"@.len() == 2);
    assert("class"@.len() == 5);
    assert("hidden"@.len() == 6);
    assert("aria-hidden"@.len() == 11);
    assert("style"@.len() == 5);
    assert("src"@.len() == 3);
    assert("alt"@.len() == 3);
    assert("value"@.len() == 5);
    assert("start"@.len() == 5);
    assert("reversed"@.len() == 8);
    assert("colspan"@.len() == 7);
    assert("rowspan"@.len() == 7);
    assert("name"@[0] != open[0]);
    assert("href"@[0] != open[0]);
    assert("type"@[0] != open[0]);
    assert(cascade::facts(a) == cascade::facts(b));
    assert(a.value_of("style"@) == b.value_of("style"@));
    assert(cascade::applying(rules, a) == cascade::applying(rules, b));
}

/// What is known of the children at `i` of two peers.
proof fn lemma_child(rules: Seq<RuleText>, a: Element, b: Element, i: int)
    requires
        peers(rules, a, b),
        0 <= i < a.children@.len(),
    ensures
        a.children@.len() == b.children@.len(),
        match rows::elem_at(a.children@, i) {
            Some(x) => rows::elem_at(b.children@, i) matches Some(y) && x.local@ == y.local@
                && same_attrs(x, y) && cascade::resolved(rules, x) == cascade::resolved(
                rules,
                y,
            ) && (!cascade::resolved(rules, x).hidden ==> peers(rules, x, y)),
            None => rows::elem_at(b.children@, i) is None && a.children@[i]->Text_0@
                == b.children@[i]->Text_0@,
        },
{
    if a != b {
        lemma_alike_at(rules, a, b, a.children@.len() as int, i);
    }
    if let Some(x) = rows::elem_at(a.children@, i) {
        let y = rows::elem_at(b.children@, i)->0;
        lemma_props(rules, x, y);
    }
}

proof fn lemma_visible_same(rules: Seq<RuleText>, a: Element, b: Element, part: Part, n: int)
    requires
        peers(rules, a, b),
        0 <= n <= a.children@.len(),
    ensures
        a.children@.len() == b.children@.len(),
        rows::visible(rules, a.children@, part, n) == rows::visible(rules, b.children@, part, n),
        rows::any_concealed(rules, a.children@, part, n) == rows::any_concealed(
            rules,
            b.children@,
            part,
            n,
        ),
    decreases n,
{
    if n > 0 {
        lemma_visible_same(rules, a, b, part, n - 1);
        lemma_child(rules, a, b, n - 1);
        lemma_any_concealed_step(rules, a.children@, part, n);
        lemma_any_concealed_step(rules, b.children@, part, n);
        assert(rows::shown(rules, a.children@[n - 1], part) == rows::shown(
            rules,
            b.children@[n - 1],
            part,
        ));
        assert(rows::concealed(rules, a.children@[n - 1], part) == rows::concealed(
            rules,
            b.children@[n - 1],
            part,
        ));
    }
}

proof fn lemma_any_concealed_step(rules: Seq<RuleText>, nodes: Seq<Node>, part: Part, n: int)
    requires
        0 < n <= nodes.len(),
    ensures
        rows::any_concealed(rules, nodes, part, n) == (rows::any_concealed(
            rules,
            nodes,
            part,
            n - 1,
        ) || rows::concealed(rules, nodes[n - 1], part)),
{
    if rows::any_concealed(rules, nodes, part, n) {
        let i = choose|i: int| 0 <= i < n && rows::concealed(rules, #[trigger] nodes[i], part);
        if i < n - 1 {
            assert(rows::concealed(rules, nodes[i], part));
        }
    }
}

proof fn lemma_shape_same(rules: Seq<RuleText>, a: Element, b: Element)
    requires
        peers(rules, a, b),
    ensures
        tags::blocks_among(a) == tags::blocks_among(b),
        tags::had_content(a) == tags::had_content(b),
{
    if a != b {
        assert(a.children@.len() == b.children@.len());
        if tags::blocks_among(a) {
            let i = choose|i: int|
                0 <= i < a.children@.len() && ((#[trigger] a.children@[i]) matches Node::Elem(e)
                    && tags::block_level(e.local@));
            lemma_child(rules, a, b, i);
            assert(b.children@[i] matches Node::Elem(e) && tags::block_level(e.local@));
        }
        if tags::blocks_among(b) {
            let i = choose|i: int|
                0 <= i < b.children@.len() && ((#[trigger] b.children@[i]) matches Node::Elem(e)
                    && tags::block_level(e.local@));
            lemma_child(rules, a, b, i);
            assert(a.children@[i] matches Node::Elem(e) && tags::block_level(e.local@));
        }
        if tags::had_content(a) {
            let i = choose|i: int|
                0 <= i < a.children@.len() && match #[trigger] a.children@[i] {
                    Node::Text(t) => !inlines::blank(t@),
                    Node::Elem(_) => true,
                };
            lemma_child(rules, a, b, i);
            assert(match b.children@[i] {
                Node::Text(t) => !inlines::blank(t@),
                Node::Elem(_) => true,
            });
        }
        if tags::had_content(b) {
            let i = choose|i: int|
                0 <= i < b.children@.len() && match #[trigger] b.children@[i] {
                    Node::Text(t) => !inlines::blank(t@),
                    Node::Elem(_) => true,
                };
            lemma_child(rules, a, b, i);
            assert(match a.children@[i] {
                Node::Text(t) => !inlines::blank(t@),
                Node::Elem(_) => true,
            });
        }
    }
}

proof fn lemma_first_named_same(
    rules: Seq<RuleText>,
    a: Element,
    b: Element,
    name: Seq<char>,
    i: int,
)
    requires
        peers(rules, a, b),
        0 <= i <= a.children@.len(),
    ensures
        rows::first_named(a.children@, name, i) == rows::first_named(b.children@, name, i),
        rows::first_named(a.children@, name, i) matches Some(k) ==> i <= k < a.children@.len()
            && rows::elem_at(a.children@, k) is Some,
    decreases a.children@.len() - i,
{
    if i < a.children@.len() {
        lemma_child(rules, a, b, i);
        lemma_first_named_same(rules, a, b, name, i + 1);
    } else if a != b {
        assert(a.children@.len() == b.children@.len());
    }
}

proof fn lemma_text_same(rules: Seq<RuleText>, a: Element, b: Element, n: int)
    requires
        peers(rules, a, b),
        0 <= n <= a.children@.len(),
    ensures
        walk::visible_text(rules, a, n) == walk::visible_text(rules, b, n),
        walk::hides_text(rules, a, n) == walk::hides_text(rules, b, n),
    decreases a, n,
{
    if n > 0 {
        lemma_text_same(rules, a, b, n - 1);
        lemma_child(rules, a, b, n - 1);
        rows::lemma_elem_at(a, n - 1);
        if let Some(x) = rows::elem_at(a.children@, n - 1) {
            let y = rows::elem_at(b.children@, n - 1)->0;
            if !cascade::resolved(rules, x).hidden {
                if x != y {
                    assert(x.children@.len() == y.children@.len());
                }
                lemma_text_same(rules, x, y, x.children@.len() as int);
            }
        }
    }
}

proof fn lemma_values_same(rules: Seq<RuleText>, a: Element, b: Element, items: Seq<usize>)
    requires
        peers(rules, a, b),
        forall|k: int|
            0 <= k < items.len() ==> rows::elem_at(
                a.children@,
                #[trigger] items[k] as int,
            ) is Some,
    ensures
        walk::item_numbers(a, items) == walk::item_numbers(b, items),
        forall|numbers: Seq<i64>| #[trigger]
            walk::style_of(a, numbers) == walk::style_of(b, numbers),
{
    lemma_props(rules, a, b);
    let va = walk::values_of(a, items);
    let vb = walk::values_of(b, items);
    assert forall|k: int| 0 <= k < items.len() implies va[k] == vb[k] by {
        assert(rows::elem_at(a.children@, items[k] as int) is Some);
        lemma_child(rules, a, b, items[k] as int);
        let x = rows::elem_at(a.children@, items[k] as int)->0;
        let y = rows::elem_at(b.children@, items[k] as int)->0;
        lemma_props(rules, x, y);
    }
    assert(va =~= vb);
    assert(lists::marker_of(a) == lists::marker_of(b));
}

/// Whether a row stands in a row group that shows, and shows itself.
spec fn row_shows(rules: Seq<RuleText>, table: Element, at: RowAt) -> bool {
    &&& rows::elem_at(table.children@, at.child as int) matches Some(e) && !cascade::resolved(
        rules,
        e,
    ).hidden && (at.inner matches Some(j) ==> (rows::elem_at(e.children@, j as int) matches Some(
        tr,
    ) && !cascade::resolved(rules, tr).hidden))
}

proof fn lemma_rows_show(rules: Seq<RuleText>, table: Element, n: int)
    requires
        0 <= n <= table.children@.len(),
    ensures
        forall|k: int|
            0 <= k < rows::rows_upto(rules, table.children@, n).rows.len() ==> row_shows(
                rules,
                table,
                #[trigger] rows::rows_upto(rules, table.children@, n).rows[k],
            ),
    decreases n,
{
    if n > 0 {
        lemma_rows_show(rules, table, n - 1);
        let before = rows::rows_upto(rules, table.children@, n - 1);
        let after = rows::rows_upto(rules, table.children@, n);
        let len: usize = table.children.len();
        assert(table.children@.len() == len);
        assert forall|k: int| 0 <= k < after.rows.len() implies row_shows(
            rules,
            table,
            #[trigger] after.rows[k],
        ) by {
            if k < before.rows.len() {
                assert(after.rows[k] == before.rows[k]);
            } else if let Node::Elem(e) = table.children@[n - 1] {
                rows::lemma_visible(rules, e, Part::Row);
                if rows::groups_rows(e.local@) {
                    let group = if before.implicit {
                        (before.group + 1) as usize
                    } else {
                        before.group
                    };
                    let more = rows::group_rows(rules, e, n - 1, group);
                    let j = k - before.rows.len();
                    assert(after.rows[k] == more[j]);
                    let v = rows::visible(
                        rules,
                        e.children@,
                        Part::Row,
                        e.children@.len() as int,
                    );
                    assert(rows::elem_at(e.children@, v[j] as int) is Some);
                }
            }
        }
    }
}

proof fn lemma_rows_same(rules: Seq<RuleText>, a: Element, b: Element, n: int)
    requires
        peers(rules, a, b),
        0 <= n <= a.children@.len(),
    ensures
        rows::rows_upto(rules, a.children@, n) == rows::rows_upto(rules, b.children@, n),
    decreases n,
{
    if n > 0 {
        lemma_rows_same(rules, a, b, n - 1);
        lemma_child(rules, a, b, n - 1);
        if let Some(x) = rows::elem_at(a.children@, n - 1) {
            let y = rows::elem_at(b.children@, n - 1)->0;
            if !cascade::resolved(rules, x).hidden {
                lemma_visible_same(rules, x, y, Part::Row, x.children@.len() as int);
                let before = rows::rows_upto(rules, a.children@, n - 1);
                let group = if before.implicit {
                    (before.group + 1) as usize
                } else {
                    before.group
                };
                assert(rows::group_rows(rules, x, n - 1, group) =~= rows::group_rows(
                    rules,
                    y,
                    n - 1,
                    group,
                ));
            }
        }
    }
}

/// The rows of two peers, and what their cells inherit.
proof fn lemma_row_same(
    rules: Seq<RuleText>,
    a: Element,
    b: Element,
    at: RowAt,
    inh: Inherited,
)
    requires
        peers(rules, a, b),
        row_shows(rules, a, at),
    ensures
        rows::row_elem(a, at) matches Some(x) && rows::row_elem(b, at) matches Some(y) && peers(
            rules,
            x,
            y,
        ),
        rows::row_inherits(rules, a, at, inh) == rows::row_inherits(rules, b, at, inh),
{
    lemma_child(rules, a, b, at.child as int);
    let e = rows::elem_at(a.children@, at.child as int)->0;
    let f = rows::elem_at(b.children@, at.child as int)->0;
    if let Some(j) = at.inner {
        lemma_child(rules, e, f, j as int);
    }
}

proof fn lemma_headers_same(
    rules: Seq<RuleText>,
    a: Element,
    b: Element,
    all: Seq<RowAt>,
    n: int,
)
    requires
        peers(rules, a, b),
        0 <= n <= all.len(),
        forall|k: int| 0 <= k < all.len() ==> row_shows(rules, a, #[trigger] all[k]),
    ensures
        rows::declared_headers(rules, a, all, n) == rows::declared_headers(rules, b, all, n),
    decreases n,
{
    if n > 0 {
        lemma_headers_same(rules, a, b, all, n - 1);
        lemma_row_same(rules, a, b, all[n - 1], Inherited::none());
        let x = rows::row_elem(a, all[n - 1])->0;
        let y = rows::row_elem(b, all[n - 1])->0;
        lemma_visible_same(rules, x, y, Part::Cell, x.children@.len() as int);
        let cells = rows::cells_of(rules, x);
        rows::lemma_visible(rules, x, Part::Cell);
        assert forall|k: int| 0 <= k < cells.len() implies (rows::elem_at(
            x.children@,
            #[trigger] cells[k] as int,
        ) matches Some(e) && e.local@ == "th"@) == (rows::elem_at(
            y.children@,
            cells[k] as int,
        ) matches Some(e) && e.local@ == "th"@) by {
            assert(rows::elem_at(x.children@, cells[k] as int) is Some);
            lemma_child(rules, x, y, cells[k] as int);
        }
        assert(rows::heads(x, cells, all[n - 1].head) == rows::heads(
            y,
            cells,
            all[n - 1].head,
        ));
    }
}

proof fn lemma_nodes_same(
    script: Seq<Call>,
    rules: Seq<RuleText>,
    a: Element,
    b: Element,
    n: int,
    inh: Inherited,
    r: Run,
)
    requires
        peers(rules, a, b),
        0 <= n <= a.children@.len(),
    ensures
        walk::walk_nodes(script, rules, a, n, inh, r) == walk::walk_nodes(
            script,
            rules,
            b,
            n,
            inh,
            r,
        ),
    decreases a, 0int, n,
{
    if n > 0 {
        lemma_nodes_same(script, rules, a, b, n - 1, inh, r);
        lemma_child(rules, a, b, n - 1);
        rows::lemma_elem_at(a, n - 1);
        if let Ok(p) = walk::walk_nodes(script, rules, a, n - 1, inh, r) {
            if let Some(x) = rows::elem_at(a.children@, n - 1) {
                let y = rows::elem_at(b.children@, n - 1)->0;
                if !cascade::resolved(rules, x).hidden {
                    lemma_elem_same(script, rules, x, y, inh, p);
                }
            }
        }
    }
}

proof fn lemma_inside_same(
    script: Seq<Call>,
    rules: Seq<RuleText>,
    a: Element,
    b: Element,
    inh: Inherited,
    start: bool,
    r: Run,
)
    requires
        peers(rules, a, b),
    ensures
        walk::walk_inside(script, rules, a, inh, start, r) == walk::walk_inside(
            script,
            rules,
            b,
            inh,
            start,
            r,
        ),
    decreases a, 2int, 0int,
{
    lemma_nodes_same(script, rules, a, b, a.children@.len() as int, inh, r.nested(start));
    assert(walk::walk_children(script, rules, a, inh, r.nested(start)) == walk::walk_children(
        script,
        rules,
        b,
        inh,
        r.nested(start),
    ));
}

proof fn lemma_items_same(
    script: Seq<Call>,
    rules: Seq<RuleText>,
    a: Element,
    b: Element,
    items: Seq<usize>,
    numbers: Seq<i64>,
    n: int,
    inh: Inherited,
    r: Run,
)
    requires
        peers(rules, a, b),
        items == walk::items_of(rules, a),
        0 <= n <= items.len(),
    ensures
        walk::walk_items(script, rules, a, items, numbers, n, inh, r) == walk::walk_items(
            script,
            rules,
            b,
            items,
            numbers,
            n,
            inh,
            r,
        ),
    decreases a, 3int, n,
{
    if n > 0 {
        lemma_items_same(script, rules, a, b, items, numbers, n - 1, inh, r);
        rows::lemma_visible(rules, a, Part::Item);
        assert(rows::elem_at(a.children@, items[n - 1] as int) is Some);
        lemma_child(rules, a, b, items[n - 1] as int);
        rows::lemma_elem_at(a, items[n - 1] as int);
        let x = rows::elem_at(a.children@, items[n - 1] as int)->0;
        let y = rows::elem_at(b.children@, items[n - 1] as int)->0;
        let own = inh.within(x, cascade::resolved(rules, x));
        lemma_shape_same(rules, x, y);
        if let Ok(p) = walk::walk_items(script, rules, a, items, numbers, n - 1, inh, r) {
            lemma_inside_same(script, rules, x, y, own, true, p.run);
        }
    }
}

proof fn lemma_cells_same(
    script: Seq<Call>,
    rules: Seq<RuleText>,
    a: Element,
    b: Element,
    cells: Seq<usize>,
    n: int,
    left: u32,
    inh: Inherited,
    c: Cells,
)
    requires
        peers(rules, a, b),
        cells == rows::cells_of(rules, a),
        0 <= n <= cells.len(),
    ensures
        walk::walk_cells(script, rules, a, cells, n, left, inh, c) == walk::walk_cells(
            script,
            rules,
            b,
            cells,
            n,
            left,
            inh,
            c,
        ),
    decreases a, 3int, n,
{
    if n > 0 {
        lemma_cells_same(script, rules, a, b, cells, n - 1, left, inh, c);
        rows::lemma_visible(rules, a, Part::Cell);
        assert(rows::elem_at(a.children@, cells[n - 1] as int) is Some);
        lemma_child(rules, a, b, cells[n - 1] as int);
        rows::lemma_elem_at(a, cells[n - 1] as int);
        let x = rows::elem_at(a.children@, cells[n - 1] as int)->0;
        let y = rows::elem_at(b.children@, cells[n - 1] as int)->0;
        let own = inh.within(x, cascade::resolved(rules, x));
        if let Ok(p) = walk::walk_cells(script, rules, a, cells, n - 1, left, inh, c) {
            lemma_inside_same(script, rules, x, y, own, true, p.run);
        }
        lemma_props(rules, x, y);
    }
}

proof fn lemma_table_rows_same(
    script: Seq<Call>,
    rules: Seq<RuleText>,
    a: Element,
    b: Element,
    all: Seq<RowAt>,
    n: int,
    inh: Inherited,
    c: Cells,
)
    requires
        peers(rules, a, b),
        forall|k: int| 0 <= k < all.len() ==> row_shows(rules, a, #[trigger] all[k]),
        0 <= n <= all.len(),
    ensures
        walk::walk_rows(script, rules, a, all, n, inh, c) == walk::walk_rows(
            script,
            rules,
            b,
            all,
            n,
            inh,
            c,
        ),
    decreases a, 4int, n,
{
    if n > 0 {
        lemma_table_rows_same(script, rules, a, b, all, n - 1, inh, c);
        lemma_row_same(rules, a, b, all[n - 1], inh);
        rows::lemma_row_elem(a, all[n - 1]);
        if let Ok(p) = walk::walk_rows(script, rules, a, all, n - 1, inh, c) {
            let x = rows::row_elem(a, all[n - 1])->0;
            let y = rows::row_elem(b, all[n - 1])->0;
            lemma_visible_same(rules, x, y, Part::Cell, x.children@.len() as int);
            let cells = rows::cells_of(rules, x);
            lemma_cells_same(
                script,
                rules,
                x,
                y,
                cells,
                cells.len() as int,
                rows::rows_left(all, n - 1),
                rows::row_inherits(rules, a, all[n - 1], inh),
                Cells {
                    grid: p.grid.next(),
                    run: p.run.dropping(
                        rows::any_concealed(
                            rules,
                            x.children@,
                            Part::Cell,
                            x.children@.len() as int,
                        ),
                    ),
                },
            );
        }
    }
}

proof fn lemma_list_same(
    script: Seq<Call>,
    rules: Seq<RuleText>,
    a: Element,
    b: Element,
    inh: Inherited,
    r: Run,
)
    requires
        peers(rules, a, b),
    ensures
        walk::walk_list(script, rules, a, inh, r) == walk::walk_list(script, rules, b, inh, r),
    decreases a, 4int, 0int,
{
    lemma_visible_same(rules, a, b, Part::Item, a.children@.len() as int);
    let items = walk::items_of(rules, a);
    rows::lemma_visible(rules, a, Part::Item);
    lemma_values_same(rules, a, b, items);
    let numbers = walk::item_numbers(a, items);
    let seen = r.dropping(
        rows::any_concealed(rules, a.children@, Part::Item, a.children@.len() as int),
    );
    lemma_items_same(script, rules, a, b, items, numbers, items.len() as int, inh, seen);
}

proof fn lemma_caption_same(
    script: Seq<Call>,
    rules: Seq<RuleText>,
    a: Element,
    b: Element,
    inh: Inherited,
    r: Run,
)
    requires
        peers(rules, a, b),
    ensures
        walk::walk_caption(script, rules, a, inh, r) == walk::walk_caption(
            script,
            rules,
            b,
            inh,
            r,
        ),
    decreases a, 3int, 0int,
{
    lemma_first_named_same(rules, a, b, "caption"@, 0);
    if let Some(i) = rows::first_named(a.children@, "caption"@, 0) {
        lemma_child(rules, a, b, i);
        rows::lemma_elem_at(a, i);
        let x = rows::elem_at(a.children@, i)->0;
        let y = rows::elem_at(b.children@, i)->0;
        let props = cascade::resolved(rules, x);
        if !props.hidden {
            lemma_inside_same(script, rules, x, y, inh.within(x, props), true, r);
        }
    }
}

proof fn lemma_table_same(
    script: Seq<Call>,
    rules: Seq<RuleText>,
    a: Element,
    b: Element,
    inh: Inherited,
    r: Run,
)
    requires
        peers(rules, a, b),
    ensures
        walk::walk_table(script, rules, a, inh, r) == walk::walk_table(script, rules, b, inh, r),
    decreases a, 5int, 0int,
{
    lemma_caption_same(script, rules, a, b, inh, r);
    if let Ok(captioned) = walk::walk_caption(script, rules, a, inh, r) {
        lemma_rows_same(rules, a, b, a.children@.len() as int);
        lemma_rows_show(rules, a, a.children@.len() as int);
        let found = rows::rows_of(rules, a);
        let n = found.rows.len() as int;
        assert(found == rows::rows_of(rules, b));
        lemma_headers_same(rules, a, b, found.rows, n);
        lemma_table_rows_same(
            script,
            rules,
            a,
            b,
            found.rows,
            n,
            inh,
            Cells { grid: Grid::empty(), run: captioned.dropping(found.dropped) },
        );
    }
}

/// Elements whose content is walked in their own way.
proof fn lemma_block_same(
    script: Seq<Call>,
    rules: Seq<RuleText>,
    a: Element,
    b: Element,
    inh: Inherited,
    r: Run,
)
    requires
        peers(rules, a, b),
    ensures
        forall|level: u8| #[trigger]
            walk::walk_heading(script, rules, a, level, inh, r) == walk::walk_heading(
                script,
                rules,
                b,
                level,
                inh,
                r,
            ),
        walk::walk_para(script, rules, a, inh, r) == walk::walk_para(script, rules, b, inh, r),
        walk::walk_quote(script, rules, a, inh, r) == walk::walk_quote(script, rules, b, inh, r),
        walk::with_pre(rules, a, r) == walk::with_pre(rules, b, r),
        walk::walk_link(script, rules, a, inh, r) == walk::walk_link(script, rules, b, inh, r),
        walk::walk_container(script, rules, a, inh, r) == walk::walk_container(
            script,
            rules,
            b,
            inh,
            r,
        ),
        walk::walk_children(script, rules, a, inh, r) == walk::walk_children(
            script,
            rules,
            b,
            inh,
            r,
        ),
        walk::anchored(script, a, r) == walk::anchored(script, b, r),
        walk::with_image(script, a, r) == walk::with_image(script, b, r),
    decreases a, 5int, 0int,
{
    lemma_props(rules, a, b);
    lemma_shape_same(rules, a, b);
    lemma_text_same(rules, a, b, a.children@.len() as int);
    let opened = walk::anchored(script, a, r);
    assert(opened == walk::anchored(script, b, r));
    lemma_inside_same(script, rules, a, b, inh, true, r);
    lemma_inside_same(script, rules, a, b, inh, true, opened);
    let n = a.children@.len() as int;
    lemma_nodes_same(script, rules, a, b, n, inh, r);
    lemma_nodes_same(script, rules, a, b, n, inh, opened);
    lemma_nodes_same(script, rules, a, b, n, inh, opened.flushed());
    assert(walk::walk_children(script, rules, a, inh, opened) == walk::walk_children(
        script,
        rules,
        b,
        inh,
        opened,
    ));
    assert(walk::walk_children(script, rules, a, inh, opened.flushed()) == walk::walk_children(
        script,
        rules,
        b,
        inh,
        opened.flushed(),
    ));
    let href = a.value_of("href"@);
    let asked = match href {
        Some(href) => r.calling(Call::Link { href, target: walk::link_reply(script, r) }),
        None => r,
    };
    let began = Run { dropped: false, ..asked };
    let start = inlines::at_boundary(r.inlines, r.start);
    lemma_inside_same(script, rules, a, b, inh, start, began);
}

proof fn lemma_elem_same(
    script: Seq<Call>,
    rules: Seq<RuleText>,
    a: Element,
    b: Element,
    inherited: Inherited,
    r: Run,
)
    requires
        peers(rules, a, b),
    ensures
        walk::walk_elem(script, rules, a, inherited, r) == walk::walk_elem(
            script,
            rules,
            b,
            inherited,
            r,
        ),
    decreases a, 6int, 0int,
{
    lemma_props(rules, a, b);
    let props = cascade::resolved(rules, a);
    let inh = inherited.within(a, props);
    if !props.hidden && a != b {
        let opened = walk::anchored(script, a, r);
        lemma_block_same(script, rules, a, b, inh, r);
        match tags::kind_of(a.local@) {
            ElemKind::List => {
                lemma_list_same(script, rules, a, b, inh, r.flushed());
            },
            ElemKind::Table => {
                lemma_table_same(script, rules, a, b, inh, r.flushed());
            },
            ElemKind::Heading(level) => {
                lemma_block_same(script, rules, a, b, inh, r.flushed());
                assert(walk::walk_heading(script, rules, a, level, inh, r.flushed())
                    == walk::walk_heading(script, rules, b, level, inh, r.flushed()));
            },
            ElemKind::Para | ElemKind::Quote | ElemKind::Pre => {
                lemma_block_same(script, rules, a, b, inh, r.flushed());
            },
            ElemKind::Image | ElemKind::Link | ElemKind::Inline => {
                lemma_block_same(script, rules, a, b, inh, opened);
            },
            _ => {},
        }
    }
}

/// Hidden content leaves no trace: what hidden elements hold makes no
/// difference to what a walk yields, to what it asks, or to how it fails. Nor
/// does it make one whether a `<details>` is open.
pub proof fn law_hidden_content_leaves_no_trace(
    script: Seq<Call>,
    rules: Seq<RuleText>,
    a: Element,
    b: Element,
    inh: Inherited,
    r: Run,
)
    requires
        alike(rules, a, b),
    ensures
        walk::walk_elem(script, rules, a, inh, r) == walk::walk_elem(script, rules, b, inh, r),
{
    lemma_props(rules, a, b);
    if !cascade::resolved(rules, a).hidden {
        lemma_elem_same(script, rules, a, b, inh, r);
    }
}

/// The same of whole bodies.
pub proof fn law_hidden_content_leaves_no_trace_in_a_body(
    script: Seq<Call>,
    rules: Seq<RuleText>,
    a: Element,
    b: Element,
)
    requires
        alike(rules, a, b),
    ensures
        walk::walk_body(script, rules, a) == walk::walk_body(script, rules, b),
{
    lemma_props(rules, a, b);
    if !cascade::resolved(rules, a).hidden {
        let inh = Inherited::none().with(cascade::resolved(rules, a));
        lemma_inside_same(script, rules, a, b, inh, true, Run::new());
    }
}

/// Whether the first `n` children of two elements differ at most in which
/// `<details>` are open.
pub open spec fn open_apart_upto(a: Element, b: Element, n: int) -> bool
    decreases a, 0int, n,
{
    if n <= 0 {
        true
    } else {
        proof {
            rows::lemma_elem_at(a, n - 1);
        }
        open_apart_upto(a, b, n - 1) && match rows::elem_at(a.children@, n - 1) {
            Some(x) => rows::elem_at(b.children@, n - 1) matches Some(y) && open_apart(x, y),
            None => rows::elem_at(b.children@, n - 1) is None && a.children@[n - 1]->Text_0@
                == b.children@[n - 1]->Text_0@,
        }
    }
}

/// Whether two elements differ at most in which `<details>` are open, they
/// themselves among them, formulas apart.
pub open spec fn open_apart(a: Element, b: Element) -> bool
    decreases a, 1int, 0int,
{
    &&& a.local@ == b.local@
    &&& same_attrs(a, b)
    &&& a == b || (a.local@ != "math"@ && a.children@.len() == b.children@.len()
        && open_apart_upto(a, b, a.children@.len() as int))
}

proof fn lemma_open_apart_upto(rules: Seq<RuleText>, a: Element, b: Element, n: int)
    requires
        open_apart_upto(a, b, n),
    ensures
        alike_upto(rules, a, b, n),
    decreases a, 0int, n,
{
    if n > 0 {
        lemma_open_apart_upto(rules, a, b, n - 1);
        rows::lemma_elem_at(a, n - 1);
        if let Some(x) = rows::elem_at(a.children@, n - 1) {
            lemma_open_apart(rules, x, rows::elem_at(b.children@, n - 1)->0);
        }
    }
}

proof fn lemma_open_apart(rules: Seq<RuleText>, a: Element, b: Element)
    requires
        open_apart(a, b),
    ensures
        alike(rules, a, b),
    decreases a, 1int, 0int,
{
    if a != b {
        lemma_open_apart_upto(rules, a, b, a.children@.len() as int);
    }
}

/// A closed `<details>` gives the same as an open one: two bodies that differ
/// only in the `open` attributes of such elements come to the same blocks.
pub proof fn law_open_makes_no_difference(
    script: Seq<Call>,
    rules: Seq<RuleText>,
    a: Element,
    b: Element,
)
    requires
        open_apart(a, b),
    ensures
        walk::walk_body(script, rules, a) == walk::walk_body(script, rules, b),
{
    lemma_open_apart(rules, a, b);
    law_hidden_content_leaves_no_trace_in_a_body(script, rules, a, b);
}

} // verus!
