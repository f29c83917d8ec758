//! Lists: which number each item gets, and how numbered items become list
//! blocks.

use crate::chars::{chars_of, is, string_of};
use crate::model;
use crate::model::{Block, BlockView, ItemView, List, ListItem, MarkerKind};
use crate::number;
use crate::number::{parse_i64, spell};
use crate::xml::Element;
use vstd::prelude::*;

verus! {

// ---------------------------------------------------------------------------
// Numbers

/// An attribute as a 64-bit integer.
pub open spec fn integer_of(elem: Element, name: Seq<char>) -> Option<int> {
    match elem.value_of(name) {
        Some(v) => number::signed(v),
        None => None,
    }
}

/// An attribute as a 64-bit integer.
pub fn integer_attr(elem: &Element, name: &str) -> (r: Option<i64>)
    ensures
        match r {
            Some(n) => integer_of(*elem, name@) == Some(n as int),
            None => integer_of(*elem, name@) is None,
        },
{
    match elem.attr_any(name) {
        Some(v) => {
            let s: Vec<char> = chars_of(v);
            parse_i64(&s)
        },
        None => None,
    }
}

/// The number after `n`, one down in a reversed list; it stays within 64 bits.
pub open spec fn next_number(n: i64, reversed: bool) -> i64 {
    if reversed {
        if n == i64::MIN {
            n
        } else {
            (n - 1) as i64
        }
    } else if n == i64::MAX {
        n
    } else {
        (n + 1) as i64
    }
}

/// The number of item `k`: its own `value`, or the one after the item before
/// it; the first item's is `start`.
pub open spec fn number_at(values: Seq<Option<i64>>, start: i64, reversed: bool, k: int) -> i64
    decreases k,
{
    match values[k] {
        Some(v) => v,
        None => if k <= 0 {
            start
        } else {
            next_number(number_at(values, start, reversed, k - 1), reversed)
        },
    }
}

/// The numbers of all items.
pub open spec fn numbers(values: Seq<Option<i64>>, start: i64, reversed: bool) -> Seq<i64> {
    Seq::new(values.len(), |k: int| number_at(values, start, reversed, k))
}

/// The numbers of all items. They come from the document and sit anywhere in
/// the range, so a step beyond it stays where it is.
pub fn number_items(values: &Vec<Option<i64>>, start: i64, reversed: bool) -> (r: Vec<i64>)
    ensures
        r@ == numbers(values@, start, reversed),
{
    let mut out: Vec<i64> = Vec::new();
    let mut next: i64 = start;
    let mut k: usize = 0;
    while k < values.len()
        invariant
            k <= values@.len(),
            out@ == numbers(values@, start, reversed).take(k as int),
            next == if k == 0 {
                start
            } else {
                next_number(number_at(values@, start, reversed, k - 1), reversed)
            },
        decreases values@.len() - k,
    {
        let n: i64 = match values[k] {
            Some(v) => v,
            None => next,
        };
        out.push(n);
        next = if reversed {
            if n == i64::MIN {
                n
            } else {
                n - 1
            }
        } else if n == i64::MAX {
            n
        } else {
            n + 1
        };
        k += 1;
        assert(out@ =~= numbers(values@, start, reversed).take(k as int));
    }
    assert(numbers(values@, start, reversed).take(k as int) =~= numbers(
        values@,
        start,
        reversed,
    ));
    out
}

/// How the items of an ordered list are marked.
pub open spec fn marker_of(elem: Element) -> MarkerKind {
    match elem.value_of("type"@) {
        Some(t) => if t == "a"@ {
            MarkerKind::LowerAlpha
        } else if t == "A"@ {
            MarkerKind::UpperAlpha
        } else if t == "i"@ {
            MarkerKind::LowerRoman
        } else if t == "I"@ {
            MarkerKind::UpperRoman
        } else {
            MarkerKind::Decimal
        },
        None => MarkerKind::Decimal,
    }
}

/// How the items of an ordered list are marked.
pub fn marker(elem: &Element) -> (r: MarkerKind)
    ensures
        r == marker_of(*elem),
{
    match elem.attr_any("type") {
        Some(v) => {
            let t: Vec<char> = chars_of(v);
            if is(&t, "a") {
                MarkerKind::LowerAlpha
            } else if is(&t, "A") {
                MarkerKind::UpperAlpha
            } else if is(&t, "i") {
                MarkerKind::LowerRoman
            } else if is(&t, "I") {
                MarkerKind::UpperRoman
            } else {
                MarkerKind::Decimal
            }
        },
        None => MarkerKind::Decimal,
    }
}

/// The number an ordered list of `count` items starts with.
pub open spec fn start_of(elem: Element, count: usize) -> i64 {
    match integer_of(elem, "start"@) {
        Some(n) => n as i64,
        None => if elem.value_of("reversed"@) is Some {
            count as i64
        } else {
            1
        },
    }
}

// ---------------------------------------------------------------------------
// Blocks

/// How items are put into list blocks.
#[derive(Debug, Clone, Copy)]
pub enum ListStyle {
    /// One bullet list.
    Bulleted,
    /// One list in which every item carries its number as a literal label.
    Labelled(MarkerKind),
    /// One list for each run of consecutive numbers.
    Counted(MarkerKind),
}

/// An item that is kept, and its number.
pub struct Kept {
    pub number: i64,
    pub blocks: Vec<Block>,
}

/// A [`Kept`] with its text spelled out.
pub struct KeptView {
    pub number: i64,
    pub blocks: Seq<BlockView>,
}

impl View for Kept {
    type V = KeptView;

    open spec fn view(&self) -> KeptView {
        KeptView { number: self.number, blocks: model::block_views(self.blocks@) }
    }
}

/// The views of kept items.
pub open spec fn kept_views(kept: Seq<Kept>) -> Seq<KeptView> {
    kept.map_values(|k: Kept| k@)
}

/// A list block.
pub struct RunView {
    pub start: u64,
    pub items: Seq<ItemView>,
}

/// The literal label of a number.
pub open spec fn label_of(n: i64) -> Seq<char> {
    number::spelled(n as int).push('.')
}

/// Items without labels.
pub open spec fn unlabelled(kept: Seq<KeptView>) -> Seq<ItemView> {
    kept.map_values(|k: KeptView| ItemView { blocks: k.blocks, label: None })
}

/// Items that carry their numbers as labels.
pub open spec fn labelled(kept: Seq<KeptView>) -> Seq<ItemView> {
    kept.map_values(|k: KeptView| ItemView { blocks: k.blocks, label: Some(label_of(k.number)) })
}

/// The runs of consecutive numbers, in order. Each starts at the number of
/// its first item.
pub open spec fn runs_of(kept: Seq<KeptView>) -> Seq<RunView>
    decreases kept.len(),
{
    if kept.len() == 0 {
        Seq::empty()
    } else {
        let before = runs_of(kept.drop_last());
        let item = ItemView { blocks: kept.last().blocks, label: None };
        if before.len() > 0 && kept[kept.len() - 2].number + 1 == kept.last().number {
            let run = before.last();
            before.drop_last().push(RunView { items: run.items.push(item), ..run })
        } else {
            before.push(RunView { start: kept.last().number as u64, items: seq![item] })
        }
    }
}

/// One list block, none when it would have no item.
pub open spec fn one_list(marker: MarkerKind, items: Seq<ItemView>) -> Seq<BlockView> {
    if items.len() == 0 {
        Seq::empty()
    } else {
        seq![BlockView::List { marker, start: 1, items }]
    }
}

/// The list blocks that kept items make.
pub open spec fn blocks_of(style: ListStyle, kept: Seq<KeptView>) -> Seq<BlockView> {
    match style {
        ListStyle::Bulleted => one_list(MarkerKind::Bullet, unlabelled(kept)),
        ListStyle::Labelled(marker) => one_list(marker, labelled(kept)),
        ListStyle::Counted(marker) => runs_of(kept).map_values(
            |r: RunView| BlockView::List { marker, start: r.start, items: r.items },
        ),
    }
}

/// The views of items, one longer.
proof fn lemma_item_views_push(s: Seq<ListItem>, i: ListItem)
    ensures
        model::item_views(s.push(i)) == model::item_views(s).push(model::item_view(i)),
{
    assert(model::item_views(s.push(i)) =~= model::item_views(s).push(model::item_view(i)));
}

/// One list of all kept items, with their numbers as labels or without.
fn single_list(marker: MarkerKind, kept: Vec<Kept>, with_labels: bool) -> (r: Vec<Block>)
    ensures
        model::block_views(r@) == one_list(
            marker,
            if with_labels {
                labelled(kept_views(kept@))
            } else {
                unlabelled(kept_views(kept@))
            },
        ),
{
    let ghost all = kept_views(kept@);
    let ghost goal = if with_labels {
        labelled(all)
    } else {
        unlabelled(all)
    };
    let ghost given = kept@;
    let mut items: Vec<ListItem> = Vec::new();
    assert(model::item_views(items@) =~= goal.take(0));
    for k in it: kept
        invariant
            it.seq() == given,
            all == kept_views(given),
            goal == if with_labels {
                labelled(all)
            } else {
                unlabelled(all)
            },
            model::item_views(items@) == goal.take(it.index() as int),
    {
        let ghost i = it.index();
        let ghost kv = k@;
        assert(all[i as int] == kv);
        let marker_label: Option<String> = if with_labels {
            let mut label: Vec<char> = spell(k.number);
            label.push('.');
            Some(string_of(&label))
        } else {
            None
        };
        let item = ListItem { blocks: k.blocks, marker_label };
        proof {
            lemma_item_views_push(items@, item);
        }
        items.push(item);
        assert(model::item_views(items@) =~= goal.take(i + 1));
    }
    assert(goal.take(given.len() as int) =~= goal);
    let mut out: Vec<Block> = Vec::new();
    if items.len() > 0 {
        let block = Block::List(List { marker, start: 1, items });
        out.push(block);
        assert(model::block_view(block) == BlockView::List { marker, start: 1, items: goal });
    }
    assert(model::block_views(out@) =~= one_list(marker, goal));
    out
}

/// The runs of consecutive numbers as list blocks.
fn run_lists(marker: MarkerKind, kept: Vec<Kept>) -> (r: Vec<Block>)
    ensures
        model::block_views(r@) == blocks_of(ListStyle::Counted(marker), kept_views(kept@)),
{
    let ghost all = kept_views(kept@);
    let ghost given = kept@;
    let mut lists: Vec<List> = Vec::new();
    let mut last: i64 = 0;
    for k in it: kept
        invariant
            it.seq() == given,
            all == kept_views(given),
            lists@.len() == runs_of(all.take(it.index() as int)).len(),
            it.index() > 0 ==> last == all[it.index() - 1].number && lists@.len() > 0,
            forall|j: int|
                0 <= j < lists@.len() ==> {
                    let run = runs_of(all.take(it.index() as int))[j];
                    &&& (#[trigger] lists@[j]).marker == marker
                    &&& lists@[j].start == run.start
                    &&& model::item_views(lists@[j].items@) == run.items
                },
    {
        let ghost i = it.index() as int;
        let ghost before = runs_of(all.take(i));
        let ghost after = runs_of(all.take(i + 1));
        let ghost kv = k@;
        proof {
            assert(all[i] == kv);
            assert(all.take(i + 1).drop_last() =~= all.take(i));
            assert(all.take(i + 1).last() == kv);
            if i > 0 {
                assert(all.take(i + 1)[i - 1] == all[i - 1]);
            }
        }
        let number: i64 = k.number;
        let item = ListItem { blocks: k.blocks, marker_label: None };
        let ghost iv = model::item_view(item);
        assert(iv == ItemView { blocks: kv.blocks, label: None });
        let n: usize = lists.len();
        if n > 0 && last < i64::MAX && last + 1 == number {
            let mut list: List = List { marker, start: 0, items: Vec::new() };
            if let Some(l) = lists.pop() {
                list = l;
            }
            let ghost items = list.items@;
            list.items.push(item);
            proof {
                lemma_item_views_push(items, item);
                assert(after == before.drop_last().push(
                    RunView { items: before.last().items.push(iv), ..before.last() },
                ));
            }
            lists.push(list);
        } else {
            let mut items: Vec<ListItem> = Vec::new();
            items.push(item);
            assert(model::item_views(items@) =~= seq![iv]);
            lists.push(List { marker, start: number as u64, items });
            assert(after == before.push(RunView { start: number as u64, items: seq![iv] }));
        }
        last = number;
    }
    assert(all.take(given.len() as int) =~= all);
    let ghost runs = runs_of(all);
    let ghost built = lists@;
    let ghost goal = blocks_of(ListStyle::Counted(marker), all);
    let mut out: Vec<Block> = Vec::new();
    assert(model::block_views(out@) =~= goal.take(0));
    for list in jt: lists
        invariant
            jt.seq() == built,
            built.len() == runs.len() == goal.len(),
            goal == runs.map_values(
                |r: RunView| BlockView::List { marker, start: r.start, items: r.items },
            ),
            forall|j: int|
                0 <= j < built.len() ==> {
                    &&& (#[trigger] built[j]).marker == marker
                    &&& built[j].start == runs[j].start
                    &&& model::item_views(built[j].items@) == runs[j].items
                },
            model::block_views(out@) == goal.take(jt.index() as int),
    {
        let ghost j = jt.index() as int;
        let block = Block::List(list);
        proof {
            assert(built[j] == list);
            assert(model::block_view(block) == goal[j]);
            model::lemma_block_views_push(out@, block);
        }
        out.push(block);
        assert(model::block_views(out@) =~= goal.take(j + 1));
    }
    assert(goal.take(built.len() as int) =~= goal);
    out
}

/// The list blocks that kept items make. Numbering that is not contiguous
/// splits into consecutive list blocks, so that the rendered numbers match
/// the source.
pub fn list_blocks(style: ListStyle, kept: Vec<Kept>) -> (r: Vec<Block>)
    ensures
        model::block_views(r@) == blocks_of(style, kept_views(kept@)),
{
    match style {
        ListStyle::Bulleted => single_list(MarkerKind::Bullet, kept, false),
        ListStyle::Labelled(marker) => single_list(marker, kept, true),
        ListStyle::Counted(marker) => run_lists(marker, kept),
    }
}

} // verus!
