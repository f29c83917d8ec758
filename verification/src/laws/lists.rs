//! What lists promise: that the rendered numbers are the source's.

use crate::lists;
use crate::lists::{KeptView, ListStyle, RunView};
use crate::model::{BlockView, ItemView, MarkerKind};
use crate::walk;
use crate::xml::Element;
use vstd::prelude::*;

verus! {

/// The numbers that a list block shows: counted up from its start.
pub open spec fn shown_by(run: RunView) -> Seq<int> {
    Seq::new(run.items.len(), |k: int| run.start + k)
}

/// The numbers that list blocks show, one after the other.
pub open spec fn shown(runs: Seq<RunView>) -> Seq<int>
    decreases runs.len(),
{
    if runs.len() == 0 {
        Seq::empty()
    } else {
        shown(runs.drop_last()) + shown_by(runs.last())
    }
}

/// The items of list blocks, one after the other.
pub open spec fn items_in(runs: Seq<RunView>) -> Seq<ItemView>
    decreases runs.len(),
{
    if runs.len() == 0 {
        Seq::empty()
    } else {
        items_in(runs.drop_last()) + runs.last().items
    }
}

/// The numbers of kept items.
pub open spec fn numbers_of(kept: Seq<KeptView>) -> Seq<int> {
    kept.map_values(|k: KeptView| k.number as int)
}

/// The list blocks of counted items show exactly the items' own numbers, in
/// order: an item left out does not shift those after it, and a gap starts a
/// new block.
pub proof fn law_shown_numbers_are_the_source_numbers(kept: Seq<KeptView>)
    requires
        forall|k: int| 0 <= k < kept.len() ==> (#[trigger] kept[k]).number >= 1,
    ensures
        shown(lists::runs_of(kept)) == numbers_of(kept),
        items_in(lists::runs_of(kept)) == lists::unlabelled(kept),
        forall|j: int|
            0 <= j < lists::runs_of(kept).len() ==> (#[trigger] lists::runs_of(
                kept,
            )[j]).items.len() > 0,
    decreases kept.len(),
{
    let runs = lists::runs_of(kept);
    if kept.len() == 0 {
        assert(shown(runs) =~= numbers_of(kept));
        assert(items_in(runs) =~= lists::unlabelled(kept));
    } else {
        let rest = kept.drop_last();
        let last = kept.last();
        let item = ItemView { blocks: last.blocks, label: None };
        assert forall|k: int| 0 <= k < rest.len() implies (#[trigger] rest[k]).number >= 1 by {
            assert(rest[k] == kept[k]);
        }
        law_shown_numbers_are_the_source_numbers(rest);
        let before = lists::runs_of(rest);
        assert(numbers_of(kept) =~= numbers_of(rest).push(last.number as int));
        assert(lists::unlabelled(kept) =~= lists::unlabelled(rest).push(item));
        assert(kept[kept.len() - 1].number >= 1);
        if before.len() > 0 && kept[kept.len() - 2].number + 1 == last.number {
            let run = before.last();
            let longer = RunView { items: run.items.push(item), ..run };
            assert(before[before.len() - 1].items.len() > 0);
            assert(runs.drop_last() =~= before.drop_last());
            assert(runs.last() == longer);
            let seen = shown(before);
            assert(seen == numbers_of(rest));
            assert(seen.last() == run.start + run.items.len() - 1);
            assert(rest.len() > 0);
            assert(numbers_of(rest).last() == kept[kept.len() - 2].number);
            assert(shown_by(longer) =~= shown_by(run).push(run.start + run.items.len() as int));
            assert(shown(runs) =~= shown(before).push(last.number as int));
            assert(items_in(runs) =~= items_in(before).push(item));
            assert forall|j: int| 0 <= j < runs.len() implies (#[trigger] runs[j]).items.len()
                > 0 by {
                if j < before.len() - 1 {
                    assert(runs[j] == before[j]);
                }
            }
        } else {
            let run = RunView { start: last.number as u64, items: seq![item] };
            assert(runs.drop_last() =~= before);
            assert(runs.last() == run);
            assert(shown_by(run) =~= seq![last.number as int]);
            assert(shown(runs) =~= shown(before).push(last.number as int));
            assert(items_in(runs) =~= items_in(before).push(item));
            assert forall|j: int| 0 <= j < runs.len() implies (#[trigger] runs[j]).items.len()
                > 0 by {
                if j < before.len() {
                    assert(runs[j] == before[j]);
                }
            }
        }
    }
}

/// Items are counted only where every number can be counted up to; otherwise
/// each carries its number as a label.
pub proof fn law_zero_and_negative_numbers_are_labelled(elem: Element, numbers: Seq<i64>)
    ensures
        walk::style_of(elem, numbers) is Counted ==> forall|k: int|
            0 <= k < numbers.len() ==> (#[trigger] numbers[k]) >= 1,
        elem.local@ == "ol"@ && (exists|k: int|
            0 <= k < numbers.len() && (#[trigger] numbers[k]) < 1) ==> walk::style_of(
            elem,
            numbers,
        ) is Labelled,
{
}

/// A labelled list carries, item by item, the number it has in the source.
pub proof fn law_labels_spell_the_numbers(marker: MarkerKind, kept: Seq<KeptView>, k: int)
    requires
        0 <= k < kept.len(),
    ensures
        lists::blocks_of(ListStyle::Labelled(marker), kept).len() == 1,
        lists::blocks_of(ListStyle::Labelled(marker), kept)[0] matches BlockView::List {
            items,
            ..
        } && items.len() == kept.len() && items[k].label == Some(
            lists::label_of(kept[k].number),
        ) && items[k].blocks == kept[k].blocks,
{
}

/// Without explicit values, numbers go up by one from the start, or down in a
/// reversed list.
pub proof fn law_numbers_step_by_one(
    values: Seq<Option<i64>>,
    start: i64,
    reversed: bool,
    k: int,
)
    requires
        0 <= k < values.len(),
        forall|j: int| 0 <= j <= k ==> (#[trigger] values[j]) is None,
        i64::MIN <= start - k,
        start + k <= i64::MAX,
    ensures
        lists::numbers(values, start, reversed)[k] == if reversed {
            start - k
        } else {
            start + k
        },
    decreases k,
{
    assert(values[k] is None);
    if k > 0 {
        law_numbers_step_by_one(values, start, reversed, k - 1);
    }
}

/// An explicit value is an item's number, whatever came before it.
pub proof fn law_values_restart_the_numbers(
    values: Seq<Option<i64>>,
    start: i64,
    reversed: bool,
    k: int,
)
    requires
        0 <= k < values.len(),
        values[k] is Some,
    ensures
        lists::numbers(values, start, reversed)[k] == values[k]->0,
{
}

} // verus!
