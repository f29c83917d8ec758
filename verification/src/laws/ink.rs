//! What a conversion promises of the text: every visible character of the
//! source comes out, once and in order, and nothing else does. White space
//! may be added, collapsed or dropped; the ink stays.

use crate::cascade;
use crate::chars;
use crate::chars::CharClass;
use crate::css::RuleText;
use crate::grid;
use crate::grid::Grid;
use crate::hooks::Call;
use crate::html;
use crate::inlines;
use crate::lists;
use crate::lists::{KeptView, ListStyle, RunView};
use crate::model;
use crate::model::{Block, BlockView, CellView, InlineView, ItemView, SlotView};
use crate::rows;
use crate::rows::{Part, RowAt};
use crate::style::Style;
use crate::tags;
use crate::tags::{ElemKind, Inherited};
use crate::walk;
use crate::walk::{Cells, Run, Stopped};
use crate::xml::Element;
use vstd::prelude::*;

verus! {

// ---------------------------------------------------------------------------
// Ink

/// The characters of `s` that are not white space, in order.
pub open spec fn ink(s: Seq<char>) -> Seq<char>
    decreases s.len(),
{
    if s.len() == 0 {
        s
    } else if chars::white_space(s.last()) {
        ink(s.drop_last())
    } else {
        ink(s.drop_last()).push(s.last())
    }
}

proof fn lemma_ink_push(s: Seq<char>, c: char)
    ensures
        ink(s.push(c)) == if chars::white_space(c) {
            ink(s)
        } else {
            ink(s).push(c)
        },
{
    assert(s.push(c).drop_last() =~= s);
}

proof fn lemma_ink_joins(a: Seq<char>, b: Seq<char>)
    ensures
        ink(a + b) == ink(a) + ink(b),
    decreases b.len(),
{
    if b.len() == 0 {
        assert(a + b =~= a);
        assert(ink(a) + ink(b) =~= ink(a));
    } else {
        lemma_ink_joins(a, b.drop_last());
        assert(a + b =~= (a + b.drop_last()).push(b.last()));
        lemma_ink_push(a + b.drop_last(), b.last());
        assert(ink(a + b) =~= ink(a) + ink(b));
    }
}

proof fn lemma_no_ink(s: Seq<char>)
    requires
        inlines::blank(s),
    ensures
        ink(s) == Seq::<char>::empty(),
    decreases s.len(),
{
    if s.len() > 0 {
        let rest = s.drop_last();
        assert forall|i: int| 0 <= i < rest.len() implies chars::white_space(
            #[trigger] rest[i],
        ) by {
            assert(rest[i] == s[i]);
        }
        lemma_no_ink(rest);
        assert(chars::white_space(s[s.len() - 1]));
    }
}

proof fn lemma_ink_collapsed(s: Seq<char>)
    ensures
        ink(chars::collapse(s)) == ink(s),
    decreases s.len(),
{
    if s.len() > 0 {
        lemma_ink_collapsed(s.drop_last());
        let before = chars::collapse(s.drop_last());
        lemma_ink_push(before, s.last());
        lemma_ink_push(before, ' ');
    }
}

proof fn lemma_ink_trimmed(s: Seq<char>)
    ensures
        ink(chars::trim_start_of(s, CharClass::Only(' '))) == ink(s),
{
    let k = chars::first(s, CharClass::Only(' '), false) as int;
    chars::lemma_first_is(s, CharClass::Only(' '), false);
    let lead = s.take(k);
    assert forall|i: int| 0 <= i < lead.len() implies chars::white_space(#[trigger] lead[i]) by {
        assert(lead[i] == s[i]);
        assert(CharClass::Only(' ').has(s[i]));
    }
    lemma_no_ink(lead);
    lemma_ink_joins(lead, s.skip(k));
    assert(s =~= lead + s.skip(k));
    assert(ink(lead) + ink(s.skip(k)) =~= ink(s.skip(k)));
}

/// The ink of texts, one after the other.
pub open spec fn all_ink(parts: Seq<Seq<char>>) -> Seq<char>
    decreases parts.len(),
{
    if parts.len() == 0 {
        Seq::empty()
    } else {
        all_ink(parts.drop_last()) + ink(parts.last())
    }
}

proof fn lemma_all_push(parts: Seq<Seq<char>>, p: Seq<char>)
    ensures
        all_ink(parts.push(p)) == all_ink(parts) + ink(p),
{
    assert(parts.push(p).drop_last() =~= parts);
}

proof fn lemma_all_joins(a: Seq<Seq<char>>, b: Seq<Seq<char>>)
    ensures
        all_ink(a + b) == all_ink(a) + all_ink(b),
    decreases b.len(),
{
    if b.len() == 0 {
        assert(a + b =~= a);
        assert(all_ink(a) + all_ink(b) =~= all_ink(a));
    } else {
        lemma_all_joins(a, b.drop_last());
        assert((a + b).drop_last() =~= a + b.drop_last());
        assert((a + b).last() == b.last());
        assert(all_ink(a + b) =~= all_ink(a) + all_ink(b));
    }
}

/// Joining texts adds no ink.
proof fn lemma_joined(parts: Seq<Seq<char>>)
    ensures
        ink(inlines::joined(parts)) == all_ink(parts),
    decreases parts.len(),
{
    if parts.len() == 1 {
        assert(parts.drop_last() =~= Seq::<Seq<char>>::empty());
        assert(all_ink(parts.drop_last()) =~= Seq::<char>::empty());
        assert(all_ink(parts) =~= ink(parts[0]));
    } else if parts.len() > 1 {
        let rest = parts.drop_last();
        lemma_joined(rest);
        let before = inlines::joined(rest);
        lemma_ink_push(before, ' ');
        assert(before + seq![' '] =~= before.push(' '));
        lemma_ink_joins(before + seq![' '], parts.last());
    }
}

// ---------------------------------------------------------------------------
// The ink of what comes out

/// The ink of blocks.
pub open spec fn blocks_ink(blocks: Seq<BlockView>) -> Seq<char> {
    all_ink(inlines::texts(blocks))
}

proof fn lemma_blocks_push(blocks: Seq<BlockView>, b: BlockView)
    ensures
        blocks_ink(blocks.push(b)) == blocks_ink(blocks) + ink(inlines::text(b)),
{
    assert(blocks.push(b).drop_last() =~= blocks);
    lemma_all_push(inlines::texts(blocks), inlines::text(b));
}

proof fn lemma_blocks_join(a: Seq<BlockView>, b: Seq<BlockView>)
    ensures
        blocks_ink(a + b) == blocks_ink(a) + blocks_ink(b),
    decreases b.len(),
{
    if b.len() == 0 {
        assert(a + b =~= a);
        assert(blocks_ink(a) + blocks_ink(b) =~= blocks_ink(a));
    } else {
        lemma_blocks_join(a, b.drop_last());
        assert(a + b =~= (a + b.drop_last()).push(b.last()));
        lemma_blocks_push(a + b.drop_last(), b.last());
        lemma_blocks_push(b.drop_last(), b.last());
        assert(b.drop_last().push(b.last()) =~= b);
        assert(blocks_ink(a + b) =~= blocks_ink(a) + blocks_ink(b));
    }
}

proof fn lemma_no_blocks()
    ensures
        blocks_ink(Seq::empty()) == Seq::<char>::empty(),
        inlines::plain(Seq::empty()) == Seq::<char>::empty(),
        ink(Seq::empty()) == Seq::<char>::empty(),
{
}

proof fn lemma_plain_push(s: Seq<InlineView>, i: InlineView)
    ensures
        inlines::plain(s.push(i)) == inlines::plain(s) + match i {
            InlineView::Text { text, .. } => text,
            InlineView::LineBreak => seq![' '],
            InlineView::Link { content, .. } => inlines::plain(content),
            InlineView::Image { alt, .. } => alt,
            InlineView::Math(tex) => tex,
            _ => Seq::empty(),
        },
{
    assert(s.push(i).drop_last() =~= s);
}

proof fn lemma_plain_joins(a: Seq<InlineView>, b: Seq<InlineView>)
    ensures
        inlines::plain(a + b) == inlines::plain(a) + inlines::plain(b),
    decreases b.len(),
{
    if b.len() == 0 {
        assert(a + b =~= a);
        assert(inlines::plain(a) + inlines::plain(b) =~= inlines::plain(a));
    } else {
        lemma_plain_joins(a, b.drop_last());
        assert(a + b =~= (a + b.drop_last()).push(b.last()));
        assert(b =~= b.drop_last().push(b.last()));
        lemma_plain_push(a + b.drop_last(), b.last());
        lemma_plain_push(b.drop_last(), b.last());
        assert(inlines::plain(a + b) =~= inlines::plain(a) + inlines::plain(b));
    }
}

/// What shows nothing has no ink.
proof fn lemma_nothing_shown(s: Seq<InlineView>)
    requires
        inlines::all_empty(s),
    ensures
        ink(inlines::plain(s)) == Seq::<char>::empty(),
    decreases s.len(),
{
    if s.len() > 0 {
        let rest = s.drop_last();
        assert forall|i: int| 0 <= i < rest.len() implies inlines::shows_nothing(
            #[trigger] rest[i],
        ) by {
            assert(rest[i] == s[i]);
        }
        lemma_nothing_shown(rest);
        assert(inlines::shows_nothing(s[s.len() - 1]));
        assert(s =~= rest.push(s.last()));
        lemma_plain_push(rest, s.last());
        match s.last() {
            InlineView::Text { text, .. } => {
                lemma_no_ink(text);
                lemma_ink_joins(inlines::plain(rest), text);
            },
            InlineView::LineBreak => {
                lemma_no_ink(seq![' ']);
                lemma_ink_joins(inlines::plain(rest), seq![' ']);
            },
            _ => {
                assert(inlines::plain(rest) + Seq::<char>::empty() =~= inlines::plain(rest));
            },
        }
    }
}

proof fn lemma_line_of(b: BlockView)
    ensures
        ink(inlines::plain(inlines::line_of(b))) == ink(inlines::text(b)),
{
    match b {
        BlockView::Paragraph(_) => {},
        BlockView::Heading { .. } => {},
        _ => {
            let t = chars::collapse(inlines::text(b));
            lemma_ink_collapsed(inlines::text(b));
            let i = InlineView::Text { text: t, style: Style::none() };
            let none = Seq::<InlineView>::empty();
            lemma_plain_push(none, i);
            assert(none.push(i) =~= seq![i]);
            assert(inlines::plain(none) + t =~= t);
        },
    }
}

/// Blocks as one line keep their ink.
proof fn lemma_flattened(blocks: Seq<BlockView>)
    ensures
        ink(inlines::plain(inlines::flattened(blocks))) == blocks_ink(blocks),
    decreases blocks.len(),
{
    if blocks.len() == 0 {
    } else {
        let rest = blocks.drop_last();
        let b = blocks.last();
        assert(blocks =~= rest.push(b));
        lemma_blocks_push(rest, b);
        lemma_line_of(b);
        if blocks.len() == 1 {
            assert(rest =~= Seq::<BlockView>::empty());
            assert(blocks_ink(rest) =~= Seq::<char>::empty());
            assert(blocks_ink(blocks) =~= ink(inlines::text(b)));
        } else {
            lemma_flattened(rest);
            let before = inlines::flattened(rest);
            lemma_plain_push(before, InlineView::LineBreak);
            lemma_no_ink(seq![' ']);
            lemma_ink_joins(inlines::plain(before), seq![' ']);
            assert(ink(inlines::plain(before)) + Seq::<char>::empty() =~= ink(
                inlines::plain(before),
            ));
            let line = inlines::line_of(b);
            lemma_plain_joins(before.push(InlineView::LineBreak), line);
            lemma_ink_joins(
                inlines::plain(before.push(InlineView::LineBreak)),
                inlines::plain(line),
            );
        }
    }
}

/// Emphasis does not change the text.
pub proof fn law_emphasis_keeps_the_text(s: Seq<InlineView>, base: Style)
    ensures
        inlines::plain(inlines::rebased(s, base)) == inlines::plain(s),
        inlines::rebased(s, base).len() == s.len(),
    decreases s,
{
    if s.len() > 0 {
        law_emphasis_keeps_the_text(s.drop_last(), base);
        let before = inlines::rebased(s.drop_last(), base);
        let last = inlines::rebased(s, base).last();
        if let InlineView::Link { content, .. } = s.last() {
            law_emphasis_keeps_the_text(content, base);
        }
        lemma_plain_push(before, last);
        lemma_plain_push(s.drop_last(), s.last());
        assert(s =~= s.drop_last().push(s.last()));
        assert(inlines::rebased(s, base) =~= before.push(last));
    }
}

/// The ink of a walk: of its blocks, then of the line in progress.
pub open spec fn run_ink(r: Run) -> Seq<char> {
    blocks_ink(r.blocks) + ink(inlines::plain(r.inlines))
}

proof fn lemma_paragraph(r: Run, content: Seq<InlineView>)
    ensures
        blocks_ink(r.paragraph(content).blocks) == blocks_ink(r.blocks) + ink(
            inlines::plain(content),
        ),
        r.paragraph(content).calls == r.calls,
        r.paragraph(content).inlines == r.inlines,
{
    if inlines::worth_keeping(content) {
        lemma_blocks_push(r.blocks, BlockView::Paragraph(content));
    } else {
        lemma_nothing_shown(content);
        assert(blocks_ink(r.blocks) + Seq::<char>::empty() =~= blocks_ink(r.blocks));
    }
}

proof fn lemma_flushed(r: Run)
    ensures
        run_ink(r.flushed()) == run_ink(r),
        blocks_ink(r.flushed().blocks) == run_ink(r),
        r.flushed().calls == r.calls,
        r.flushed().inlines.len() == 0,
{
    lemma_no_blocks();
    lemma_paragraph(r, r.inlines);
    assert(blocks_ink(r.flushed().blocks) + Seq::<char>::empty() =~= blocks_ink(
        r.flushed().blocks,
    ));
}

proof fn lemma_inline(r: Run, i: InlineView)
    ensures
        run_ink(r.inline(i)) == run_ink(r) + match i {
            InlineView::Text { text, .. } => ink(text),
            InlineView::Link { content, .. } => ink(inlines::plain(content)),
            InlineView::Image { alt, .. } => ink(alt),
            InlineView::Math(tex) => ink(tex),
            _ => Seq::empty(),
        },
{
    lemma_no_blocks();
    lemma_plain_push(r.inlines, i);
    let more = match i {
        InlineView::Text { text, .. } => text,
        InlineView::LineBreak => seq![' '],
        InlineView::Link { content, .. } => inlines::plain(content),
        InlineView::Image { alt, .. } => alt,
        InlineView::Math(tex) => tex,
        _ => Seq::empty(),
    };
    lemma_ink_joins(inlines::plain(r.inlines), more);
    lemma_no_ink(seq![' ']);
    assert(run_ink(r.inline(i)) =~= run_ink(r) + ink(more));
}

proof fn lemma_block(r: Run, b: BlockView)
    requires
        r.inlines.len() == 0,
    ensures
        run_ink(r.block(b)) == run_ink(r) + ink(inlines::text(b)),
        run_ink(r) == blocks_ink(r.blocks),
        run_ink(r.block(b)) == blocks_ink(r.blocks) + ink(inlines::text(b)),
{
    lemma_no_blocks();
    lemma_blocks_push(r.blocks, b);
    assert(r.inlines =~= Seq::empty());
    assert(run_ink(r) =~= blocks_ink(r.blocks));
    assert(run_ink(r.block(b)) =~= blocks_ink(r.block(b).blocks));
}

// ---------------------------------------------------------------------------
// The ink of the source

/// How text is cleaned and formulas are put into TeX, where both go by what
/// they are given alone.
pub struct Replies {
    pub clean: spec_fn(Seq<char>) -> Seq<char>,
    pub tex: spec_fn(Element) -> Seq<char>,
}

/// Whether all answers were given so.
pub open spec fn faithful(calls: Seq<Call>, by: Replies) -> bool {
    forall|i: int|
        0 <= i < calls.len() ==> match #[trigger] calls[i] {
            Call::Clean { raw, text } => text@ == (by.clean)(raw),
            Call::Tex { math, tex } => tex@ == (by.tex)(math),
            _ => true,
        }
}

/// The ink of an element's first `n` children.
pub open spec fn ink_of_nodes(
    rules: Seq<RuleText>,
    elem: Element,
    n: int,
    inh: Inherited,
    by: Replies,
) -> Seq<char>
    decreases elem, 0int, n,
{
    if n <= 0 || n > elem.children@.len() {
        Seq::empty()
    } else {
        proof {
            rows::lemma_elem_at(elem, n - 1);
        }
        ink_of_nodes(rules, elem, n - 1, inh, by) + match rows::elem_at(elem.children@, n - 1) {
            Some(e) => ink_of(rules, e, inh, by),
            None => if inh.font_size_zero {
                Seq::empty()
            } else {
                ink((by.clean)(elem.children@[n - 1]->Text_0@))
            },
        }
    }
}

/// The ink of all that an element holds.
pub open spec fn ink_inside(
    rules: Seq<RuleText>,
    elem: Element,
    inh: Inherited,
    by: Replies,
) -> Seq<char>
    decreases elem, 1int, 0int,
{
    ink_of_nodes(rules, elem, elem.children@.len() as int, inh, by)
}

/// The ink of the first `n` of the given items or cells.
pub open spec fn ink_of_parts(
    rules: Seq<RuleText>,
    elem: Element,
    parts: Seq<usize>,
    n: int,
    inh: Inherited,
    by: Replies,
) -> Seq<char>
    decreases elem, 2int, n,
{
    if n <= 0 {
        Seq::empty()
    } else {
        proof {
            rows::lemma_elem_at(elem, parts[n - 1] as int);
        }
        ink_of_parts(rules, elem, parts, n - 1, inh, by) + match rows::elem_at(
            elem.children@,
            parts[n - 1] as int,
        ) {
            Some(e) => ink_inside(rules, e, inh.within(e, cascade::resolved(rules, e)), by),
            None => Seq::empty(),
        }
    }
}

/// The ink of the first `n` of the given rows.
pub open spec fn ink_of_rows(
    rules: Seq<RuleText>,
    table: Element,
    all: Seq<RowAt>,
    n: int,
    inh: Inherited,
    by: Replies,
) -> Seq<char>
    decreases table, 3int, n,
{
    if n <= 0 {
        Seq::empty()
    } else {
        proof {
            rows::lemma_row_elem(table, all[n - 1]);
        }
        ink_of_rows(rules, table, all, n - 1, inh, by) + match rows::row_elem(table, all[n - 1]) {
            Some(tr) => {
                let cells = rows::cells_of(rules, tr);
                ink_of_parts(
                    rules,
                    tr,
                    cells,
                    cells.len() as int,
                    rows::row_inherits(rules, table, all[n - 1], inh),
                    by,
                )
            },
            None => Seq::empty(),
        }
    }
}

/// The ink of a table's caption.
pub open spec fn ink_of_caption(
    rules: Seq<RuleText>,
    table: Element,
    inh: Inherited,
    by: Replies,
) -> Seq<char>
    decreases table, 2int, 0int,
{
    match rows::named_child(table, "caption"@) {
        None => Seq::empty(),
        Some(caption) => {
            proof {
                if let Some(i) = rows::first_named(table.children@, "caption"@, 0) {
                    rows::lemma_elem_at(table, i);
                }
            }
            let props = cascade::resolved(rules, caption);
            if props.hidden {
                Seq::empty()
            } else {
                ink_inside(rules, caption, inh.within(caption, props), by)
            }
        },
    }
}

/// The ink of an element's first `n` children as they stand, hidden elements
/// left out.
pub open spec fn raw_ink(rules: Seq<RuleText>, elem: Element, n: int) -> Seq<char>
    decreases elem, n,
{
    if n <= 0 || n > elem.children@.len() {
        Seq::empty()
    } else {
        proof {
            rows::lemma_elem_at(elem, n - 1);
        }
        raw_ink(rules, elem, n - 1) + match rows::elem_at(elem.children@, n - 1) {
            Some(e) => if cascade::resolved(rules, e).hidden {
                Seq::empty()
            } else {
                raw_ink(rules, e, e.children@.len() as int)
            },
            None => ink(elem.children@[n - 1]->Text_0@),
        }
    }
}

/// The ink of an element: nothing where it is hidden, its alternative text
/// where it is an image, its TeX where it is a formula, and otherwise the ink
/// of what it holds and shows.
pub open spec fn ink_of(
    rules: Seq<RuleText>,
    elem: Element,
    inherited: Inherited,
    by: Replies,
) -> Seq<char>
    decreases elem, 4int, 0int,
{
    let props = cascade::resolved(rules, elem);
    let inh = inherited.within(elem, props);
    if props.hidden {
        Seq::empty()
    } else {
        match tags::kind_of(elem.local@) {
            ElemKind::Heading(_)
            | ElemKind::Para
            | ElemKind::Quote
            | ElemKind::Container
            | ElemKind::Link
            | ElemKind::Inline => ink_inside(rules, elem, inh, by),
            ElemKind::List => {
                let items = walk::items_of(rules, elem);
                ink_of_parts(rules, elem, items, items.len() as int, inh, by)
            },
            ElemKind::Table => {
                let found = rows::rows_of(rules, elem).rows;
                ink_of_caption(rules, elem, inh, by) + ink_of_rows(
                    rules,
                    elem,
                    found,
                    found.len() as int,
                    inh,
                    by,
                )
            },
            ElemKind::Pre => raw_ink(rules, elem, elem.children@.len() as int),
            ElemKind::Math => ink((by.tex)(elem)),
            ElemKind::Image => ink(
                (by.clean)(
                    match elem.value_of("alt"@) {
                        Some(alt) => alt,
                        None => Seq::empty(),
                    },
                ),
            ),
            ElemKind::Rule | ElemKind::Ignored | ElemKind::Break => Seq::empty(),
        }
    }
}

// ---------------------------------------------------------------------------
// What a walk adds

/// Whether a step from `r` adds that ink, and nothing else.
pub open spec fn adds(out: Result<Run, Stopped>, r: Run, more: Seq<char>, by: Replies) -> bool {
    out matches Ok(p) ==> {
        &&& walk::covers(p.calls, r.calls)
        &&& faithful(p.calls, by) ==> run_ink(p) == run_ink(r) + more
    }
}

/// Whether a nested walk comes to that ink, all of it in blocks.
pub open spec fn fills(out: Result<Run, Stopped>, r: Run, more: Seq<char>, by: Replies) -> bool {
    out matches Ok(p) ==> {
        &&& walk::covers(p.calls, r.calls)
        &&& p.inlines.len() == 0
        &&& faithful(p.calls, by) ==> blocks_ink(p.blocks) == more
    }
}

proof fn lemma_faithful(calls: Seq<Call>, more: Seq<Call>, by: Replies)
    requires
        faithful(more, by),
        walk::covers(more, calls),
    ensures
        faithful(calls, by),
{
    assert forall|i: int| 0 <= i < calls.len() implies match #[trigger] calls[i] {
        Call::Clean { raw, text } => text@ == (by.clean)(raw),
        Call::Tex { math, tex } => tex@ == (by.tex)(math),
        _ => true,
    } by {
        assert(more[i] == calls[i]);
    }
}

proof fn lemma_chain(
    r: Run,
    p: Run,
    out: Result<Run, Stopped>,
    a: Seq<char>,
    b: Seq<char>,
    by: Replies,
)
    requires
        adds(Ok(p), r, a, by),
        adds(out, p, b, by),
    ensures
        adds(out, r, a + b, by),
{
    if let Ok(q) = out {
        if faithful(q.calls, by) {
            lemma_faithful(p.calls, q.calls, by);
            assert(run_ink(q) =~= run_ink(r) + (a + b));
        }
    }
}

proof fn lemma_same(r: Run, p: Run, by: Replies)
    requires
        run_ink(p) == run_ink(r),
        walk::covers(p.calls, r.calls),
    ensures
        adds(Ok(p), r, Seq::empty(), by),
{
    assert(run_ink(r) + Seq::<char>::empty() =~= run_ink(r));
}

proof fn lemma_anchor(script: Seq<Call>, raw: Option<Seq<char>>, r: Run, by: Replies)
    ensures
        adds(Ok(walk::anchor_from(script, raw, r)), r, Seq::empty(), by),
{
    let p = walk::anchor_from(script, raw, r);
    if let Some(id) = raw {
        if id.len() > 0 {
            let asked = walk::asked_anchor(script, id, r);
            lemma_inline(asked, InlineView::Anchor(walk::anchor_reply(script, r)@));
            assert(run_ink(asked) == run_ink(r));
            assert(run_ink(r) + Seq::<char>::empty() =~= run_ink(r));
        }
    }
    lemma_same(r, p, by);
}

proof fn lemma_anchored(script: Seq<Call>, elem: Element, r: Run, by: Replies)
    ensures
        adds(Ok(walk::anchored(script, elem, r)), r, Seq::empty(), by),
        run_ink(walk::anchored(script, elem, r)) == run_ink(r),
        walk::anchored(script, elem, r).blocks == r.blocks,
{
    let none = Seq::<char>::empty();
    lemma_anchor(script, elem.value_of("id"@), r, by);
    let p = walk::anchor_from(script, elem.value_of("id"@), r);
    lemma_anchor(script, elem.value_of("name"@), p, by);
    let q = walk::anchor_from(script, elem.value_of("name"@), p);
    lemma_chain(r, p, Ok(q), none, none, by);
    assert(none + none =~= none);
    lemma_anchor_ink(script, elem.value_of("id"@), r);
    lemma_anchor_ink(script, elem.value_of("name"@), p);
}

proof fn lemma_anchor_ink(script: Seq<Call>, raw: Option<Seq<char>>, r: Run)
    ensures
        run_ink(walk::anchor_from(script, raw, r)) == run_ink(r),
{
    if let Some(id) = raw {
        if id.len() > 0 {
            let asked = walk::asked_anchor(script, id, r);
            lemma_inline(asked, InlineView::Anchor(walk::anchor_reply(script, r)@));
            assert(run_ink(asked) + Seq::<char>::empty() =~= run_ink(asked));
        }
    }
}

proof fn lemma_texted(script: Seq<Call>, text: Seq<char>, inh: Inherited, r: Run, by: Replies)
    ensures
        adds(
            Ok(walk::texted(script, text, inh, r)),
            r,
            if inh.font_size_zero {
                Seq::empty()
            } else {
                ink((by.clean)(text))
            },
            by,
        ),
{
    if inh.font_size_zero {
        lemma_same(r, r.dropping(true), by);
    } else {
        let asked = walk::asked_clean(script, text, r);
        let clean = walk::clean_reply(script, r)@;
        let collapsed = chars::collapse(clean);
        lemma_ink_collapsed(clean);
        lemma_ink_trimmed(collapsed);
        let shown = if inlines::at_boundary(r.inlines, r.start) {
            chars::trim_start_of(collapsed, CharClass::Only(' '))
        } else {
            collapsed
        };
        assert(ink(shown) == ink(clean));
        let i = InlineView::Text { text: shown, style: inh.delta.resolved() };
        lemma_inline(asked, i);
        assert(run_ink(asked) == run_ink(r));
        let p = walk::texted(script, text, inh, r);
        if shown.len() == 0 {
            assert(ink(shown) =~= Seq::<char>::empty());
            assert(run_ink(r) + ink(shown) =~= run_ink(r));
        }
        assert(run_ink(p) == run_ink(r) + ink(clean));
        if faithful(p.calls, by) {
            assert(p.calls[r.calls.len() as int] == (Call::Clean {
                raw: text,
                text: walk::clean_reply(script, r),
            }));
        }
    }
}

proof fn lemma_math(script: Seq<Call>, elem: Element, r: Run, by: Replies)
    ensures
        adds(Ok(walk::with_math(script, elem, r)), r, ink((by.tex)(elem)), by),
{
    let tex = walk::tex_reply(script, r);
    let r1 = r.calling(Call::Tex { math: elem, tex });
    let p = walk::with_math(script, elem, r);
    let display = walk::display_reply(script, r1);
    let r2 = r1.calling(Call::Display { math: elem, display });
    lemma_inline(r2, InlineView::Math(tex@));
    lemma_flushed(r2);
    lemma_block(r2.flushed(), BlockView::Math(tex@));
    assert(run_ink(r2) == run_ink(r));
    assert(run_ink(r1) == run_ink(r));
    if tex@.len() == 0 {
        assert(ink(tex@) =~= Seq::<char>::empty());
        assert(run_ink(r) + ink(tex@) =~= run_ink(r));
    }
    assert(run_ink(p) == run_ink(r) + ink(tex@));
    if faithful(p.calls, by) {
        assert(p.calls[r.calls.len() as int] == (Call::Tex { math: elem, tex }));
    }
}

proof fn lemma_image(script: Seq<Call>, elem: Element, r: Run, by: Replies)
    ensures
        adds(
            walk::with_image(script, elem, r),
            r,
            ink(
                (by.clean)(
                    match elem.value_of("alt"@) {
                        Some(alt) => alt,
                        None => Seq::empty(),
                    },
                ),
            ),
            by,
        ),
{
    if let Ok(p) = walk::with_image(script, elem, r) {
        let raw = match elem.value_of("alt"@) {
            Some(alt) => alt,
            None => Seq::empty(),
        };
        let text = walk::clean_reply(script, r);
        let alt = text@;
        let r1 = walk::asked_clean(script, raw, r);
        let source = walk::image_reply(script, r1);
        let src = walk::either(elem.value_of("src"@), elem.value_of("href"@));
        let r2 = r1.calling(Call::Image { src, source });
        assert(run_ink(r2) == run_ink(r));
        if let Ok(Some(s)) = source {
            lemma_inline(r2, InlineView::Image { alt, source: s });
        } else if inlines::blank(alt) {
            lemma_no_ink(alt);
            assert(run_ink(r) + Seq::<char>::empty() =~= run_ink(r));
        } else {
            lemma_inline(
                r2,
                InlineView::Image { alt, source: crate::model::ImageSource::Unavailable },
            );
        }
        assert(run_ink(p) == run_ink(r) + ink(alt));
        if faithful(p.calls, by) {
            assert(p.calls[r.calls.len() as int] == (Call::Clean { raw, text }));
        }
    }
}

proof fn lemma_raw(rules: Seq<RuleText>, elem: Element, n: int)
    ensures
        ink(walk::visible_text(rules, elem, n)) == raw_ink(rules, elem, n),
    decreases elem, n,
{
    if 0 < n <= elem.children@.len() {
        rows::lemma_elem_at(elem, n - 1);
        lemma_raw(rules, elem, n - 1);
        let before = walk::visible_text(rules, elem, n - 1);
        match rows::elem_at(elem.children@, n - 1) {
            Some(e) => {
                if cascade::resolved(rules, e).hidden {
                    lemma_ink_joins(before, Seq::empty());
                } else {
                    let m = e.children@.len() as int;
                    lemma_raw(rules, e, m);
                    lemma_ink_joins(before, walk::visible_text(rules, e, m));
                }
            },
            None => {
                lemma_ink_joins(before, elem.children@[n - 1]->Text_0@);
            },
        }
    }
}

proof fn lemma_pre(rules: Seq<RuleText>, elem: Element, r: Run, by: Replies)
    requires
        r.inlines.len() == 0,
    ensures
        adds(
            Ok(walk::with_pre(rules, elem, r)),
            r,
            raw_ink(rules, elem, elem.children@.len() as int),
            by,
        ),
{
    let n = elem.children@.len() as int;
    lemma_raw(rules, elem, n);
    let text = walk::visible_text(rules, elem, n);
    let seen = r.dropping(walk::hides_text(rules, elem, n));
    lemma_block(seen, BlockView::CodeBlock { lang: None, text });
    if inlines::blank(text) {
        lemma_no_ink(text);
        assert(run_ink(r) + Seq::<char>::empty() =~= run_ink(r));
    }
    assert(run_ink(seen) == run_ink(r));
}

proof fn lemma_nodes(
    script: Seq<Call>,
    rules: Seq<RuleText>,
    elem: Element,
    n: int,
    inh: Inherited,
    r: Run,
    by: Replies,
)
    ensures
        adds(
            walk::walk_nodes(script, rules, elem, n, inh, r),
            r,
            ink_of_nodes(rules, elem, n, inh, by),
            by,
        ),
    decreases elem, 0int, n,
{
    lemma_same(r, r, by);
    if 0 < n <= elem.children@.len() {
        lemma_nodes(script, rules, elem, n - 1, inh, r, by);
        if let Ok(p) = walk::walk_nodes(script, rules, elem, n - 1, inh, r) {
            rows::lemma_elem_at(elem, n - 1);
            let before = ink_of_nodes(rules, elem, n - 1, inh, by);
            match rows::elem_at(elem.children@, n - 1) {
                Some(e) => {
                    lemma_elem(script, rules, e, inh, p, by);
                    lemma_chain(
                        r,
                        p,
                        walk::walk_elem(script, rules, e, inh, p),
                        before,
                        ink_of(rules, e, inh, by),
                        by,
                    );
                },
                None => {
                    let text = elem.children@[n - 1]->Text_0@;
                    lemma_texted(script, text, inh, p, by);
                    lemma_chain(
                        r,
                        p,
                        Ok(walk::texted(script, text, inh, p)),
                        before,
                        if inh.font_size_zero {
                            Seq::empty()
                        } else {
                            ink((by.clean)(text))
                        },
                        by,
                    );
                },
            }
        }
    }
}

proof fn lemma_inside(
    script: Seq<Call>,
    rules: Seq<RuleText>,
    elem: Element,
    inh: Inherited,
    start: bool,
    r: Run,
    by: Replies,
)
    ensures
        fills(
            walk::walk_inside(script, rules, elem, inh, start, r),
            r,
            ink_inside(rules, elem, inh, by),
            by,
        ),
    decreases elem, 2int, 0int,
{
    let n = elem.children@.len() as int;
    let begun = r.nested(start);
    lemma_nodes(script, rules, elem, n, inh, begun, by);
    assert(walk::walk_children(script, rules, elem, inh, begun) == walk::walk_nodes(
        script,
        rules,
        elem,
        n,
        inh,
        begun,
    ));
    if let Ok(p) = walk::walk_nodes(script, rules, elem, n, inh, begun) {
        lemma_flushed(p);
        lemma_no_blocks();
        assert(run_ink(begun) =~= Seq::<char>::empty());
        let more = ink_of_nodes(rules, elem, n, inh, by);
        assert(Seq::<char>::empty() + more =~= more);
    }
}

// ---------------------------------------------------------------------------
// Lists

/// The ink of kept items.
spec fn kept_ink(kept: Seq<KeptView>) -> Seq<char>
    decreases kept.len(),
{
    if kept.len() == 0 {
        Seq::empty()
    } else {
        kept_ink(kept.drop_last()) + blocks_ink(kept.last().blocks)
    }
}

/// The ink of items.
spec fn items_ink(items: Seq<ItemView>) -> Seq<char> {
    all_ink(inlines::item_texts(items))
}

proof fn lemma_items_push(items: Seq<ItemView>, i: ItemView)
    ensures
        items_ink(items.push(i)) == items_ink(items) + blocks_ink(i.blocks),
{
    assert(items.push(i).drop_last() =~= items);
    lemma_all_joins(inlines::item_texts(items), inlines::texts(i.blocks));
}

proof fn lemma_single(kept: Seq<KeptView>)
    ensures
        items_ink(lists::unlabelled(kept)) == kept_ink(kept),
        items_ink(lists::labelled(kept)) == kept_ink(kept),
    decreases kept.len(),
{
    if kept.len() > 0 {
        let rest = kept.drop_last();
        let k = kept.last();
        lemma_single(rest);
        let plain = ItemView { blocks: k.blocks, label: None };
        let marked = ItemView { blocks: k.blocks, label: Some(lists::label_of(k.number)) };
        assert(lists::unlabelled(kept) =~= lists::unlabelled(rest).push(plain));
        assert(lists::labelled(kept) =~= lists::labelled(rest).push(marked));
        lemma_items_push(lists::unlabelled(rest), plain);
        lemma_items_push(lists::labelled(rest), marked);
    }
}

/// The ink of runs.
spec fn runs_ink(runs: Seq<RunView>) -> Seq<char>
    decreases runs.len(),
{
    if runs.len() == 0 {
        Seq::empty()
    } else {
        runs_ink(runs.drop_last()) + items_ink(runs.last().items)
    }
}

proof fn lemma_runs(kept: Seq<KeptView>)
    ensures
        runs_ink(lists::runs_of(kept)) == kept_ink(kept),
    decreases kept.len(),
{
    if kept.len() > 0 {
        let rest = kept.drop_last();
        lemma_runs(rest);
        let before = lists::runs_of(rest);
        let runs = lists::runs_of(kept);
        let item = ItemView { blocks: kept.last().blocks, label: None };
        if before.len() > 0 && kept[kept.len() - 2].number + 1 == kept.last().number {
            lemma_items_push(before.last().items, item);
            assert(runs.drop_last() =~= before.drop_last());
            assert(runs.last().items == before.last().items.push(item));
            assert(runs_ink(runs) =~= runs_ink(before) + blocks_ink(item.blocks));
        } else {
            let none = Seq::<ItemView>::empty();
            lemma_items_push(none, item);
            assert(none.push(item) =~= seq![item]);
            assert(items_ink(none) =~= Seq::<char>::empty());
            assert(runs.drop_last() =~= before);
            assert(runs_ink(runs) =~= runs_ink(before) + blocks_ink(item.blocks));
        }
    }
}

proof fn lemma_list_blocks(style: ListStyle, kept: Seq<KeptView>)
    ensures
        blocks_ink(lists::blocks_of(style, kept)) == kept_ink(kept),
{
    lemma_no_blocks();
    match style {
        ListStyle::Bulleted => {
            lemma_single(kept);
            lemma_one_list(crate::model::MarkerKind::Bullet, lists::unlabelled(kept));
        },
        ListStyle::Labelled(marker) => {
            lemma_single(kept);
            lemma_one_list(marker, lists::labelled(kept));
        },
        ListStyle::Counted(marker) => {
            lemma_runs(kept);
            lemma_run_blocks(marker, lists::runs_of(kept));
        },
    }
}

proof fn lemma_one_list(marker: crate::model::MarkerKind, items: Seq<ItemView>)
    ensures
        blocks_ink(lists::one_list(marker, items)) == items_ink(items),
{
    lemma_no_blocks();
    if items.len() == 0 {
        assert(items =~= Seq::empty());
        assert(items_ink(items) =~= Seq::<char>::empty());
    } else {
        let b = BlockView::List { marker, start: 1, items };
        let none = Seq::<BlockView>::empty();
        lemma_blocks_push(none, b);
        assert(none.push(b) =~= seq![b]);
        lemma_joined(inlines::item_texts(items));
        assert(blocks_ink(none) + items_ink(items) =~= items_ink(items));
    }
}

proof fn lemma_run_blocks(marker: crate::model::MarkerKind, runs: Seq<RunView>)
    ensures
        blocks_ink(
            runs.map_values(
                |r: RunView| BlockView::List { marker, start: r.start, items: r.items },
            ),
        ) == runs_ink(runs),
    decreases runs.len(),
{
    let f = |r: RunView| BlockView::List { marker, start: r.start, items: r.items };
    lemma_no_blocks();
    if runs.len() == 0 {
        assert(runs.map_values(f) =~= Seq::empty());
    } else {
        let rest = runs.drop_last();
        lemma_run_blocks(marker, rest);
        let b = f(runs.last());
        assert(runs.map_values(f) =~= rest.map_values(f).push(b));
        lemma_blocks_push(rest.map_values(f), b);
        lemma_joined(inlines::item_texts(runs.last().items));
    }
}

proof fn lemma_items(
    script: Seq<Call>,
    rules: Seq<RuleText>,
    elem: Element,
    items: Seq<usize>,
    numbers: Seq<i64>,
    n: int,
    inh: Inherited,
    r: Run,
    by: Replies,
)
    ensures
        walk::walk_items(script, rules, elem, items, numbers, n, inh, r) matches Ok(p) ==> {
            &&& walk::covers(p.run.calls, r.calls)
            &&& p.run.blocks == r.blocks
            &&& p.run.inlines == r.inlines
            &&& faithful(p.run.calls, by) ==> kept_ink(p.kept) == ink_of_parts(
                rules,
                elem,
                items,
                n,
                inh,
                by,
            )
        },
    decreases elem, 3int, n,
{
    if n > 0 {
        lemma_items(script, rules, elem, items, numbers, n - 1, inh, r, by);
        if let Ok(p) = walk::walk_items(script, rules, elem, items, numbers, n - 1, inh, r) {
            let before = ink_of_parts(rules, elem, items, n - 1, inh, by);
            rows::lemma_elem_at(elem, items[n - 1] as int);
            match rows::elem_at(elem.children@, items[n - 1] as int) {
                Some(li) => {
                    let own = inh.within(li, cascade::resolved(rules, li));
                    lemma_inside(script, rules, li, own, true, p.run, by);
                    if let Ok(inner) = walk::walk_inside(script, rules, li, own, true, p.run) {
                        let q = walk::walk_items(
                            script,
                            rules,
                            elem,
                            items,
                            numbers,
                            n,
                            inh,
                            r,
                        )->Ok_0;
                        if faithful(q.run.calls, by) {
                            lemma_faithful(p.run.calls, inner.calls, by);
                            let k = KeptView { number: numbers[n - 1], blocks: inner.blocks };
                            assert(p.kept.push(k).drop_last() =~= p.kept);
                            lemma_no_blocks();
                            if inner.blocks.len() == 0 {
                                assert(inner.blocks =~= Seq::empty());
                                assert(before + Seq::<char>::empty() =~= before);
                            }
                        }
                    }
                },
                None => {
                    assert(before + Seq::<char>::empty() =~= before);
                },
            }
        }
    }
}

proof fn lemma_list(
    script: Seq<Call>,
    rules: Seq<RuleText>,
    elem: Element,
    inh: Inherited,
    r: Run,
    by: Replies,
)
    requires
        r.inlines.len() == 0,
    ensures
        ({
            let items = walk::items_of(rules, elem);
            adds(
                walk::walk_list(script, rules, elem, inh, r),
                r,
                ink_of_parts(rules, elem, items, items.len() as int, inh, by),
                by,
            )
        }),
    decreases elem, 4int, 0int,
{
    let items = walk::items_of(rules, elem);
    let numbers = walk::item_numbers(elem, items);
    let seen = r.dropping(
        rows::any_concealed(rules, elem.children@, Part::Item, elem.children@.len() as int),
    );
    let n = items.len() as int;
    lemma_items(script, rules, elem, items, numbers, n, inh, seen, by);
    if let Ok(all) = walk::walk_items(script, rules, elem, items, numbers, n, inh, seen) {
        let style = walk::style_of(elem, numbers);
        lemma_list_blocks(style, all.kept);
        lemma_blocks_join(r.blocks, lists::blocks_of(style, all.kept));
        let q = walk::walk_list(script, rules, elem, inh, r)->Ok_0;
        assert(r.inlines =~= Seq::empty());
        lemma_no_blocks();
        assert(run_ink(q) =~= blocks_ink(q.blocks));
        assert(run_ink(r) =~= blocks_ink(r.blocks));
    }
}

// ---------------------------------------------------------------------------
// Tables

/// The ink of a row.
spec fn row_ink(row: Seq<SlotView>) -> Seq<char> {
    all_ink(inlines::row_texts(row))
}

/// The ink of rows.
spec fn rows_ink(all: Seq<Seq<SlotView>>) -> Seq<char> {
    all_ink(inlines::grid_texts(all))
}

/// The ink of a grid: of its rows, then of the row in progress.
spec fn grid_ink(g: Grid) -> Seq<char> {
    rows_ink(g.done) + row_ink(g.row)
}

/// Whether a slot has no ink of its own.
spec fn bare(s: SlotView) -> bool {
    match s {
        SlotView::Covered { .. } => true,
        SlotView::Origin(cell) => cell.blocks.len() == 0,
    }
}

proof fn lemma_row_push(row: Seq<SlotView>, s: SlotView)
    ensures
        row_ink(row.push(s)) == row_ink(row) + match s {
            SlotView::Covered { .. } => Seq::empty(),
            SlotView::Origin(cell) => blocks_ink(cell.blocks),
        },
{
    assert(row.push(s).drop_last() =~= row);
    match s {
        SlotView::Covered { .. } => {
            assert(row_ink(row) + Seq::<char>::empty() =~= row_ink(row));
        },
        SlotView::Origin(cell) => {
            let t = inlines::joined(inlines::texts(cell.blocks));
            lemma_all_push(inlines::row_texts(row), t);
            lemma_joined(inlines::texts(cell.blocks));
        },
    }
}

proof fn lemma_row_bare(row: Seq<SlotView>, more: Seq<SlotView>)
    requires
        forall|i: int| 0 <= i < more.len() ==> bare(#[trigger] more[i]),
    ensures
        row_ink(row + more) == row_ink(row),
    decreases more.len(),
{
    if more.len() == 0 {
        assert(row + more =~= row);
    } else {
        let rest = more.drop_last();
        assert forall|i: int| 0 <= i < rest.len() implies bare(#[trigger] rest[i]) by {
            assert(rest[i] == more[i]);
        }
        lemma_row_bare(row, rest);
        assert(row + more =~= (row + rest).push(more.last()));
        lemma_row_push(row + rest, more.last());
        assert(bare(more[more.len() - 1]));
        lemma_no_blocks();
        if let SlotView::Origin(cell) = more.last() {
            assert(cell.blocks =~= Seq::empty());
        }
        assert(row_ink(row) + Seq::<char>::empty() =~= row_ink(row));
    }
}

proof fn lemma_rows_push(all: Seq<Seq<SlotView>>, row: Seq<SlotView>)
    ensures
        rows_ink(all.push(row)) == rows_ink(all) + row_ink(row),
{
    assert(all.push(row).drop_last() =~= all);
    lemma_all_joins(inlines::grid_texts(all), inlines::row_texts(row));
}

proof fn lemma_filled(g: Grid, n: int)
    ensures
        row_ink(g.filled(n).row) == row_ink(g.row),
        g.filled(n).done == g.done,
{
    let more = Seq::new(
        (n - g.row.len()) as nat,
        |i: int| grid::carried_slot(g.carry[g.row.len() + i]),
    );
    assert forall|i: int| 0 <= i < more.len() implies bare(#[trigger] more[i]) by {}
    lemma_row_bare(g.row, more);
}

proof fn lemma_with_cell(g: Grid, cell: CellView)
    ensures
        grid_ink(g.with_cell(cell)) == grid_ink(g) + blocks_ink(cell.blocks),
{
    let ready = g.ready();
    lemma_filled(g, grid::free_from(g.carry, g.row.len() as int));
    lemma_row_push(ready.row, SlotView::Origin(cell));
    let r = ready.done.len() as usize;
    let c0 = ready.row.len() as usize;
    let more = Seq::new(
        (cell.col_span - 1) as nat,
        |i: int| SlotView::Covered { origin_row: r, origin_col: c0 },
    );
    lemma_row_bare(ready.row.push(SlotView::Origin(cell)), more);
    assert(g.with_cell(cell).row == ready.row.push(SlotView::Origin(cell)) + more);
    assert(grid_ink(g.with_cell(cell)) =~= grid_ink(g) + blocks_ink(cell.blocks));
}

proof fn lemma_closed(g: Grid)
    requires
        !g.open ==> g.row.len() == 0,
    ensures
        rows_ink(g.closed().done) == grid_ink(g),
        g.closed().row.len() == 0,
        grid_ink(g.closed()) == grid_ink(g),
        grid_ink(g.next()) == grid_ink(g),
        g.next().row.len() == 0,
        g.next().open,
{
    let none = Seq::<SlotView>::empty();
    assert(row_ink(none) =~= Seq::<char>::empty());
    if g.open {
        let end = grid::reach_from(g.carry, g.row.len() as int, g.carry.len() as int);
        lemma_filled(g, end);
        lemma_rows_push(g.done, g.filled(end).row);
    } else {
        assert(g.row =~= none);
        assert(rows_ink(g.done) + Seq::<char>::empty() =~= rows_ink(g.done));
    }
    assert(g.closed().row =~= none);
    assert(rows_ink(g.closed().done) + Seq::<char>::empty() =~= rows_ink(g.closed().done));
}

proof fn lemma_empty_rows(all: Seq<Seq<SlotView>>)
    requires
        forall|i: int| 0 <= i < all.len() ==> (#[trigger] all[i]).len() == 0,
    ensures
        rows_ink(all) == Seq::<char>::empty(),
    decreases all.len(),
{
    if all.len() > 0 {
        let rest = all.drop_last();
        assert forall|i: int| 0 <= i < rest.len() implies (#[trigger] rest[i]).len() == 0 by {
            assert(rest[i] == all[i]);
        }
        lemma_empty_rows(rest);
        assert(all[all.len() - 1].len() == 0);
        let none = Seq::<SlotView>::empty();
        assert(all.last() =~= none);
        lemma_rows_push(rest, none);
        assert(rest.push(none) =~= all);
        assert(row_ink(none) =~= Seq::<char>::empty());
    }
}

proof fn lemma_finished(g: Grid)
    requires
        !g.open ==> g.row.len() == 0,
    ensures
        rows_ink(g.rows()) == grid_ink(g),
{
    lemma_closed(g);
    let all = g.closed().done;
    if !(exists|i: int| 0 <= i < all.len() && (#[trigger] all[i]).len() > 0) {
        lemma_empty_rows(all);
    }
}

proof fn lemma_cells(
    script: Seq<Call>,
    rules: Seq<RuleText>,
    tr: Element,
    cells: Seq<usize>,
    n: int,
    left: u32,
    inh: Inherited,
    c: Cells,
    by: Replies,
)
    requires
        c.grid.open,
    ensures
        walk::walk_cells(script, rules, tr, cells, n, left, inh, c) matches Ok(p) ==> {
            &&& walk::covers(p.run.calls, c.run.calls)
            &&& p.run.blocks == c.run.blocks
            &&& p.run.inlines == c.run.inlines
            &&& p.grid.open
            &&& faithful(p.run.calls, by) ==> grid_ink(p.grid) == grid_ink(c.grid) + ink_of_parts(
                rules,
                tr,
                cells,
                n,
                inh,
                by,
            )
        },
    decreases tr, 3int, n,
{
    if n <= 0 {
        assert(grid_ink(c.grid) + Seq::<char>::empty() =~= grid_ink(c.grid));
    } else {
        lemma_cells(script, rules, tr, cells, n - 1, left, inh, c, by);
        if let Ok(p) = walk::walk_cells(script, rules, tr, cells, n - 1, left, inh, c) {
            let before = ink_of_parts(rules, tr, cells, n - 1, inh, by);
            rows::lemma_elem_at(tr, cells[n - 1] as int);
            match rows::elem_at(tr.children@, cells[n - 1] as int) {
                Some(cell) => {
                    let own = inh.within(cell, cascade::resolved(rules, cell));
                    lemma_inside(script, rules, cell, own, true, p.run, by);
                    if let Ok(inner) = walk::walk_inside(script, rules, cell, own, true, p.run) {
                        let placed = grid::spanning(
                            inner.blocks,
                            rows::columns_of(cell),
                            rows::lines_of(cell, left),
                        );
                        if p.grid.fits(placed) {
                            lemma_with_cell(p.grid, placed);
                            let q = p.grid.with_cell(placed);
                            if faithful(inner.calls, by) {
                                lemma_faithful(p.run.calls, inner.calls, by);
                                assert(grid_ink(q) =~= grid_ink(c.grid) + (before + blocks_ink(
                                    inner.blocks,
                                )));
                            }
                        }
                    }
                },
                None => {
                    assert(before + Seq::<char>::empty() =~= before);
                },
            }
        }
    }
}

proof fn lemma_rows(
    script: Seq<Call>,
    rules: Seq<RuleText>,
    table: Element,
    all: Seq<RowAt>,
    n: int,
    inh: Inherited,
    c: Cells,
    by: Replies,
)
    requires
        !c.grid.open ==> c.grid.row.len() == 0,
    ensures
        walk::walk_rows(script, rules, table, all, n, inh, c) matches Ok(p) ==> {
            &&& walk::covers(p.run.calls, c.run.calls)
            &&& p.run.blocks == c.run.blocks
            &&& p.run.inlines == c.run.inlines
            &&& !p.grid.open ==> p.grid.row.len() == 0
            &&& faithful(p.run.calls, by) ==> grid_ink(p.grid) == grid_ink(c.grid) + ink_of_rows(
                rules,
                table,
                all,
                n,
                inh,
                by,
            )
        },
    decreases table, 4int, n,
{
    if n <= 0 {
        assert(grid_ink(c.grid) + Seq::<char>::empty() =~= grid_ink(c.grid));
    } else {
        lemma_rows(script, rules, table, all, n - 1, inh, c, by);
        if let Ok(p) = walk::walk_rows(script, rules, table, all, n - 1, inh, c) {
            let before = ink_of_rows(rules, table, all, n - 1, inh, by);
            rows::lemma_row_elem(table, all[n - 1]);
            match rows::row_elem(table, all[n - 1]) {
                Some(tr) => {
                    let cells = rows::cells_of(rules, tr);
                    let run = p.run.dropping(
                        rows::any_concealed(
                            rules,
                            tr.children@,
                            Part::Cell,
                            tr.children@.len() as int,
                        ),
                    );
                    lemma_closed(p.grid);
                    let begun = Cells { grid: p.grid.next(), run };
                    let left = rows::rows_left(all, n - 1);
                    let own = rows::row_inherits(rules, table, all[n - 1], inh);
                    let count = cells.len() as int;
                    lemma_cells(script, rules, tr, cells, count, left, own, begun, by);
                    if let Ok(q) = walk::walk_cells(
                        script,
                        rules,
                        tr,
                        cells,
                        count,
                        left,
                        own,
                        begun,
                    ) {
                        if faithful(q.run.calls, by) {
                            lemma_faithful(p.run.calls, q.run.calls, by);
                            let row = ink_of_parts(rules, tr, cells, count, own, by);
                            assert(grid_ink(q.grid) =~= grid_ink(c.grid) + (before + row));
                        }
                    }
                },
                None => {
                    assert(before + Seq::<char>::empty() =~= before);
                },
            }
        }
    }
}

proof fn lemma_caption(
    script: Seq<Call>,
    rules: Seq<RuleText>,
    table: Element,
    inh: Inherited,
    r: Run,
    by: Replies,
)
    requires
        r.inlines.len() == 0,
    ensures
        adds(
            walk::walk_caption(script, rules, table, inh, r),
            r,
            ink_of_caption(rules, table, inh, by),
            by,
        ),
        walk::walk_caption(script, rules, table, inh, r) matches Ok(p) ==> p.inlines == r.inlines,
    decreases table, 3int, 0int,
{
    lemma_same(r, r, by);
    lemma_same(r, r.dropping(true), by);
    if let Some(caption) = rows::named_child(table, "caption"@) {
        if let Some(i) = rows::first_named(table.children@, "caption"@, 0) {
            rows::lemma_elem_at(table, i);
        }
        let props = cascade::resolved(rules, caption);
        let own = inh.within(caption, props);
        lemma_inside(script, rules, caption, own, true, r, by);
        if let Ok(inner) = walk::walk_inside(script, rules, caption, own, true, r) {
            let line = inlines::flattened(inner.blocks);
            lemma_flattened(inner.blocks);
            lemma_paragraph(r.after(inner), line);
            lemma_no_blocks();
            let p = r.after(inner).paragraph(line);
            assert(r.inlines =~= Seq::empty());
            assert(run_ink(p) =~= blocks_ink(p.blocks));
            assert(run_ink(r) =~= blocks_ink(r.blocks));
        }
    }
}

proof fn lemma_table(
    script: Seq<Call>,
    rules: Seq<RuleText>,
    table: Element,
    inh: Inherited,
    r: Run,
    by: Replies,
)
    requires
        r.inlines.len() == 0,
    ensures
        ({
            let found = rows::rows_of(rules, table).rows;
            adds(
                walk::walk_table(script, rules, table, inh, r),
                r,
                ink_of_caption(rules, table, inh, by) + ink_of_rows(
                    rules,
                    table,
                    found,
                    found.len() as int,
                    inh,
                    by,
                ),
                by,
            )
        }),
    decreases table, 5int, 0int,
{
    lemma_caption(script, rules, table, inh, r, by);
    if let Ok(captioned) = walk::walk_caption(script, rules, table, inh, r) {
        let found = rows::rows_of(rules, table);
        let n = found.rows.len() as int;
        let seen = captioned.dropping(found.dropped);
        let empty = Cells { grid: Grid::empty(), run: seen };
        lemma_rows(script, rules, table, found.rows, n, inh, empty, by);
        if let Ok(c) = walk::walk_rows(script, rules, table, found.rows, n, inh, empty) {
            let declared = rows::declared_headers(rules, table, found.rows, n) as usize;
            let cells = c.grid.rows();
            let p = walk::with_table(script, cells, declared, c.run);
            let caption = ink_of_caption(rules, table, inh, by);
            let body = ink_of_rows(rules, table, found.rows, n, inh, by);
            lemma_finished(c.grid);
            let none = Seq::<char>::empty();
            assert(rows_ink(Seq::empty()) =~= none);
            assert(row_ink(Seq::empty()) =~= none);
            assert(grid_ink(Grid::empty()) =~= none);
            assert(none + body =~= body);
            if cells.len() == 0 {
                assert(cells =~= Seq::empty());
                assert(p == c.run);
                assert(run_ink(p) == run_ink(captioned));
            } else {
                let t = crate::model::TableView {
                    kind: crate::model::TableKind::Data,
                    grid: cells,
                    header_rows: 0,
                };
                let headers = walk::headers_reply(script, c.run);
                let asked = c.run.calling(Call::Headers { table: t, declared, rows: headers });
                let b = BlockView::Table(
                    crate::model::TableView { header_rows: headers, ..t },
                );
                lemma_block(asked, b);
                lemma_joined(inlines::grid_texts(cells));
                assert(run_ink(asked) == run_ink(captioned));
                assert(run_ink(p) == run_ink(captioned) + rows_ink(cells));
            }
            if faithful(p.calls, by) {
                lemma_faithful(c.run.calls, p.calls, by);
                lemma_faithful(captioned.calls, c.run.calls, by);
                assert(run_ink(captioned) + none =~= run_ink(captioned));
                assert(run_ink(p) =~= run_ink(r) + (caption + body));
            }
        }
    }
}

// ---------------------------------------------------------------------------
// Elements

proof fn lemma_anchors_only(content: Seq<InlineView>)
    ensures
        ink(inlines::plain(walk::anchors_in(content))) == Seq::<char>::empty(),
        inlines::all_empty(walk::anchors_in(content)),
    decreases content.len(),
{
    reveal_with_fuel(Seq::filter, 2);
    if content.len() > 0 {
        lemma_anchors_only(content.drop_last());
        let before = walk::anchors_in(content.drop_last());
        let after = walk::anchors_in(content);
        assert forall|i: int| 0 <= i < after.len() implies inlines::shows_nothing(
            #[trigger] after[i],
        ) by {
            if i < before.len() {
                assert(after[i] == before[i]);
            }
        }
    }
    lemma_nothing_shown(walk::anchors_in(content));
}

proof fn lemma_heading(
    script: Seq<Call>,
    rules: Seq<RuleText>,
    elem: Element,
    level: u8,
    inh: Inherited,
    r: Run,
    by: Replies,
)
    requires
        r.inlines.len() == 0,
    ensures
        adds(
            walk::walk_heading(script, rules, elem, level, inh, r),
            r,
            ink_inside(rules, elem, inh, by),
            by,
        ),
    decreases elem, 3int, 0int,
{
    lemma_inside(script, rules, elem, inh, true, r, by);
    if let Ok(inner) = walk::walk_inside(script, rules, elem, inh, true, r) {
        let line = inlines::flattened(inner.blocks);
        let base = inh.delta.resolved();
        let content = inlines::rebased(line, base);
        lemma_flattened(inner.blocks);
        law_emphasis_keeps_the_text(line, base);
        let after = r.after(inner);
        let raw = elem.value_of("id"@);
        let asked = match raw {
            Some(id) => walk::asked_anchor(script, id, after),
            None => after,
        };
        let anchor = match raw {
            Some(_) => Some(walk::anchor_reply(script, after)@),
            None => None,
        };
        let p = walk::with_heading(script, elem, level, inh, inner.blocks, after);
        lemma_block(asked, BlockView::Heading { level, anchor, content });
        assert(run_ink(asked) == run_ink(r));
        assert(walk::covers(p.calls, inner.calls));
        if faithful(p.calls, by) {
            lemma_faithful(inner.calls, p.calls, by);
        }
        if inlines::all_empty(content) {
            lemma_nothing_shown(content);
            lemma_anchors_only(content);
            let kept = match anchor {
                Some(id) => seq![InlineView::Anchor(id)] + walk::anchors_in(content),
                None => walk::anchors_in(content),
            };
            assert(inlines::all_empty(kept)) by {
                assert forall|i: int| 0 <= i < kept.len() implies inlines::shows_nothing(
                    #[trigger] kept[i],
                ) by {
                    if let Some(id) = anchor {
                        if i > 0 {
                            assert(kept[i] == walk::anchors_in(content)[i - 1]);
                        }
                    }
                }
            }
            lemma_nothing_shown(kept);
            lemma_block(asked, BlockView::Paragraph(kept));
            assert(run_ink(r) + Seq::<char>::empty() =~= run_ink(r));
        }
    }
}

proof fn lemma_para(
    script: Seq<Call>,
    rules: Seq<RuleText>,
    elem: Element,
    inh: Inherited,
    r: Run,
    by: Replies,
)
    requires
        r.inlines.len() == 0,
    ensures
        adds(
            walk::walk_para(script, rules, elem, inh, r),
            r,
            ink_inside(rules, elem, inh, by),
            by,
        ),
    decreases elem, 3int, 0int,
{
    let opened = walk::anchored(script, elem, r);
    lemma_anchored(script, elem, r, by);
    lemma_inside(script, rules, elem, inh, true, opened, by);
    if let Ok(inner) = walk::walk_inside(script, rules, elem, inh, true, opened) {
        let line = inlines::flattened(inner.blocks);
        lemma_flattened(inner.blocks);
        lemma_plain_joins(opened.inlines, line);
        lemma_ink_joins(inlines::plain(opened.inlines), inlines::plain(line));
        let bare = Run { inlines: Seq::empty(), ..opened.after(inner) };
        lemma_paragraph(bare, opened.inlines + line);
        lemma_no_blocks();
        let p = bare.paragraph(opened.inlines + line);
        if faithful(p.calls, by) {
            assert(run_ink(p) =~= run_ink(opened) + blocks_ink(inner.blocks));
        }
    }
}

proof fn lemma_quote(
    script: Seq<Call>,
    rules: Seq<RuleText>,
    elem: Element,
    inh: Inherited,
    r: Run,
    by: Replies,
)
    requires
        r.inlines.len() == 0,
    ensures
        adds(
            walk::walk_quote(script, rules, elem, inh, r),
            r,
            ink_inside(rules, elem, inh, by),
            by,
        ),
    decreases elem, 3int, 0int,
{
    lemma_inside(script, rules, elem, inh, true, r, by);
    if let Ok(inner) = walk::walk_inside(script, rules, elem, inh, true, r) {
        let after = r.after(inner);
        lemma_block(after, BlockView::BlockQuote(inner.blocks));
        lemma_joined(inlines::texts(inner.blocks));
        lemma_no_blocks();
        assert(run_ink(after) == run_ink(r));
        if inner.blocks.len() == 0 {
            assert(inner.blocks =~= Seq::empty());
            assert(run_ink(r) + Seq::<char>::empty() =~= run_ink(r));
        }
    }
}

proof fn lemma_link(
    script: Seq<Call>,
    rules: Seq<RuleText>,
    elem: Element,
    inh: Inherited,
    r: Run,
    by: Replies,
)
    ensures
        adds(
            walk::walk_link(script, rules, elem, inh, r),
            r,
            ink_inside(rules, elem, inh, by),
            by,
        ),
    decreases elem, 3int, 0int,
{
    let href = elem.value_of("href"@);
    let target = match href {
        Some(_) => walk::link_reply(script, r),
        None => None,
    };
    let asked = match href {
        Some(href) => r.calling(Call::Link { href, target }),
        None => r,
    };
    let start = inlines::at_boundary(r.inlines, r.start);
    let begun = Run { dropped: false, ..asked };
    lemma_inside(script, rules, elem, inh, start, begun, by);
    if let Ok(inner) = walk::walk_inside(script, rules, elem, inh, start, begun) {
        let label = inlines::flattened(inner.blocks);
        lemma_flattened(inner.blocks);
        let after = Run {
            dropped: asked.dropped || inner.dropped,
            calls: inner.calls,
            ..asked
        };
        assert(run_ink(after) == run_ink(r));
        match target {
            Some(target) => {
                lemma_inline(after, InlineView::Link { content: label, target });
                if inlines::all_empty(label) {
                    lemma_nothing_shown(label);
                    assert(run_ink(r) + Seq::<char>::empty() =~= run_ink(r));
                }
            },
            None => {
                lemma_plain_joins(r.inlines, label);
                lemma_ink_joins(inlines::plain(r.inlines), inlines::plain(label));
                let p = Run { inlines: after.inlines + label, ..after };
                assert(run_ink(p) =~= run_ink(r) + ink(inlines::plain(label)));
            },
        }
    }
}

proof fn lemma_container(
    script: Seq<Call>,
    rules: Seq<RuleText>,
    elem: Element,
    inh: Inherited,
    r: Run,
    by: Replies,
)
    ensures
        adds(
            walk::walk_container(script, rules, elem, inh, r),
            r,
            ink_inside(rules, elem, inh, by),
            by,
        ),
    decreases elem, 3int, 0int,
{
    let n = elem.children@.len() as int;
    let opened = walk::anchored(script, elem, r);
    lemma_anchored(script, elem, r, by);
    lemma_flushed(opened);
    lemma_nodes(script, rules, elem, n, inh, opened.flushed(), by);
    lemma_nodes(script, rules, elem, n, inh, opened, by);
    if tags::blocks_among(elem) {
        if let Ok(p) = walk::walk_nodes(script, rules, elem, n, inh, opened.flushed()) {
            lemma_flushed(p);
        }
    }
}

proof fn lemma_elem(
    script: Seq<Call>,
    rules: Seq<RuleText>,
    elem: Element,
    inherited: Inherited,
    r: Run,
    by: Replies,
)
    ensures
        adds(
            walk::walk_elem(script, rules, elem, inherited, r),
            r,
            ink_of(rules, elem, inherited, by),
            by,
        ),
    decreases elem, 6int, 0int,
{
    let props = cascade::resolved(rules, elem);
    let inh = inherited.within(elem, props);
    let n = elem.children@.len() as int;
    let f = r.flushed();
    let a = walk::anchored(script, elem, r);
    lemma_flushed(r);
    lemma_anchored(script, elem, r, by);
    lemma_same(r, r, by);
    lemma_same(r, r.dropping(true), by);
    if !props.hidden {
        match tags::kind_of(elem.local@) {
            ElemKind::Heading(level) => {
                lemma_heading(script, rules, elem, level, inh, f, by);
            },
            ElemKind::Para => {
                lemma_para(script, rules, elem, inh, f, by);
            },
            ElemKind::List => {
                lemma_list(script, rules, elem, inh, f, by);
            },
            ElemKind::Table => {
                lemma_table(script, rules, elem, inh, f, by);
            },
            ElemKind::Quote => {
                lemma_quote(script, rules, elem, inh, f, by);
            },
            ElemKind::Pre => {
                lemma_pre(rules, elem, f, by);
            },
            ElemKind::Rule => {
                lemma_block(f, BlockView::Rule);
                lemma_no_blocks();
                assert(run_ink(f) + Seq::<char>::empty() =~= run_ink(f));
                lemma_same(r, f.block(BlockView::Rule), by);
            },
            ElemKind::Math => {
                lemma_math(script, elem, r, by);
            },
            ElemKind::Container => {
                lemma_container(script, rules, elem, inh, r, by);
            },
            ElemKind::Ignored => {},
            ElemKind::Break => {
                lemma_inline(a, InlineView::LineBreak);
                assert(run_ink(a) + Seq::<char>::empty() =~= run_ink(a));
                lemma_same(r, a.inline(InlineView::LineBreak), by);
            },
            ElemKind::Image => {
                lemma_image(script, elem, a, by);
            },
            ElemKind::Link => {
                lemma_link(script, rules, elem, inh, a, by);
            },
            ElemKind::Inline => {
                lemma_nodes(script, rules, elem, n, inh, a, by);
            },
        }
    }
}

/// A walk through an element adds exactly the element's ink to what it has: all
/// visible characters of its text, once and in order, and no others.
pub proof fn law_elements_keep_their_ink(
    script: Seq<Call>,
    rules: Seq<RuleText>,
    elem: Element,
    inh: Inherited,
    r: Run,
    by: Replies,
)
    ensures
        adds(
            walk::walk_elem(script, rules, elem, inh, r),
            r,
            ink_of(rules, elem, inh, by),
            by,
        ),
{
    lemma_elem(script, rules, elem, inh, r, by);
}

/// The blocks that a body comes to have exactly its ink: every visible
/// character of it, once and in order, whatever elements it stands in.
pub proof fn law_bodies_keep_their_ink(
    script: Seq<Call>,
    rules: Seq<RuleText>,
    body: Element,
    by: Replies,
)
    ensures
        walk::walk_body(script, rules, body) matches Ok(p) ==> faithful(p.calls, by)
            ==> blocks_ink(p.blocks) == if cascade::resolved(rules, body).hidden {
            Seq::empty()
        } else {
            ink_inside(
                rules,
                body,
                Inherited::none().with(cascade::resolved(rules, body)),
                by,
            )
        },
{
    let props = cascade::resolved(rules, body);
    let inh = Inherited::none().with(props);
    lemma_no_blocks();
    lemma_inside(script, rules, body, inh, true, Run::new(), by);
}

/// So has what a conversion returns: whatever was asked and answered on the
/// way, the blocks have the ink of the body.
pub proof fn law_conversions_keep_the_ink(
    calls: Seq<Call>,
    rules: Seq<RuleText>,
    body: Element,
    blocks: Vec<Block>,
    by: Replies,
)
    requires
        html::converts(calls, rules, body, Ok(blocks)),
        faithful(calls, by),
        !cascade::resolved(rules, body).hidden,
    ensures
        blocks_ink(model::block_views(blocks@)) == ink_inside(
            rules,
            body,
            Inherited::none().with(cascade::resolved(rules, body)),
            by,
        ),
{
    law_bodies_keep_their_ink(calls, rules, body, by);
}

} // verus!
