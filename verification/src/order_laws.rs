//! What merging, sorting and the removal of repeats give.
use crate::arrange::first;
use crate::order::{
    elements_of, first_distinct, id_le, id_order, is_read_page, item_order, lemma_flatten_elements,
    merge_items, merge_ordered, merge_point_ids, page_of_ids, page_of_items, precedes,
    without_repeats, Direction, Item, Key,
};
use crate::page_laws::{law_page_of_ids, law_page_of_items};
use crate::point::{ExtendedPointId, OrderValue};
use crate::terms::{comes_before, id_before, in_turn, lemma_picks_one_more, picks, was_read};
use crate::views::seq_view;
use vstd::prelude::*;
use vstd::relations::sorted_by;

verus! {

/// Keys are compared by their first numbers, then by their second, then by
/// their third; in descending order the other way round.
pub proof fn law_keys_are_compared_number_by_number(
    ascending: bool,
    a: &Key,
    b: &Key,
    precedes_or_equal: bool,
)
    requires
        call_ensures(precedes, (ascending, a, b), precedes_or_equal),
    ensures
        *a == *b ==> precedes_or_equal,
        a.0 != b.0 ==> precedes_or_equal == (ascending == (a.0 < b.0)),
        a.0 == b.0 && a.1 != b.1 ==> precedes_or_equal == (ascending == (a.1 < b.1)),
        a.0 == b.0 && a.1 == b.1 && a.2 != b.2 ==> precedes_or_equal == (ascending == (a.2
            < b.2)),
{
}

/// Merged ids were read; they are at most `limit`, in ascending order, none
/// twice. An id that was read and is not among them comes after them all, and
/// there is none such unless they are `limit`.
pub proof fn law_merged_ids_come_first(
    reads: &Vec<Vec<ExtendedPointId>>,
    limit: usize,
    ids: Vec<ExtendedPointId>,
)
    requires
        call_ensures(merge_point_ids, (reads, limit), ids),
    ensures
        ids@.len() <= limit,
        forall|i: int, j: int|
            0 <= i < j < ids@.len() ==> id_before(#[trigger] ids@[i], #[trigger] ids@[j]),
        forall|i: int| 0 <= i < ids@.len() ==> was_read(reads@, #[trigger] ids@[i]),
        forall|id: ExtendedPointId| #[trigger]
            was_read(reads@, id) && !ids@.contains(id) ==> ids@.len() == limit && forall|i: int|
                0 <= i < ids@.len() ==> id_before(#[trigger] ids@[i], id),
{
    let views = seq_view(reads@);
    law_page_of_ids(views, limit as nat);
    assert(ids@ == page_of_ids(views, limit as nat));
    assert forall|i: int, j: int| 0 <= i < j < ids@.len() implies id_before(
        #[trigger] ids@[i],
        #[trigger] ids@[j],
    ) by {
        assert(id_order()(ids@[i], ids@[j]));
    }
    assert forall|i: int| 0 <= i < ids@.len() implies was_read(reads@, #[trigger] ids@[i]) by {
        assert(elements_of(views).contains(ids@[i]));
        let r = choose|r: int| 0 <= r < views.len() && (#[trigger] views[r]).contains(ids@[i]);
        assert(reads@[r]@.contains(ids@[i]));
    }
    assert forall|id: ExtendedPointId| #[trigger]
        was_read(reads@, id) && !ids@.contains(id) implies ids@.len() == limit && forall|i: int|
        0 <= i < ids@.len() ==> id_before(#[trigger] ids@[i], id) by {
        let r = choose|r: int| 0 <= r < reads@.len() && (#[trigger] reads@[r])@.contains(id);
        assert(views[r].contains(id));
        assert(elements_of(views).contains(id));
        assert forall|i: int| 0 <= i < ids@.len() implies id_before(#[trigger] ids@[i], id) by {
            assert(id_le(ids@[i], id));
            assert(ids@.contains(ids@[i]));
        }
    }
}

/// Reads whose items are in turn are sorted.
proof fn lemma_in_turn_is_sorted(direction: Direction, items: Seq<Item>)
    ensures
        in_turn(direction, items) == sorted_by(items, item_order(direction)),
{
    if in_turn(direction, items) {
        assert forall|a: int, b: int| 0 <= a < b < items.len() implies #[trigger] item_order(
            direction,
        )(items[a], items[b]) by {
            assert(!comes_before(direction, items[b], items[a]));
        }
    }
    if sorted_by(items, item_order(direction)) {
        assert forall|a: int, b: int| 0 <= a < b < items.len() implies !comes_before(
            direction,
            #[trigger] items[b],
            #[trigger] items[a],
        ) by {
            assert(item_order(direction)(items[a], items[b]));
        }
    }
}

/// Merged items are those that were read, and are as many. If each read is in
/// the order of the direction, so are they.
pub proof fn law_merged_items_are_those_read(
    reads: &Vec<Vec<Item>>,
    direction: Direction,
    merged: Vec<Item>,
)
    requires
        call_ensures(merge_items, (reads, direction), merged),
    ensures
        forall|item: Item| #[trigger] merged@.contains(item) <==> was_read(reads@, item),
        merged@.len() == seq_view(reads@).flatten().len(),
        (forall|r: int| 0 <= r < reads@.len() ==> in_turn(direction, (#[trigger] reads@[r])@))
            ==> in_turn(direction, merged@),
{
    broadcast use vstd::seq_lib::group_to_multiset_ensures;

    let views = seq_view(reads@);
    let flat = views.flatten();
    lemma_flatten_elements(views);
    assert(merged@.len() == merged@.to_multiset().len());
    assert(flat.len() == flat.to_multiset().len());
    assert forall|item: Item| #[trigger] merged@.contains(item) <==> was_read(reads@, item) by {
        assert(merged@.to_multiset().count(item) == flat.to_multiset().count(item));
        assert(flat.contains(item) <==> flat.to_set().contains(item));
        if was_read(reads@, item) {
            let r = choose|r: int| 0 <= r < reads@.len() && (#[trigger] reads@[r])@.contains(item);
            assert(views[r].contains(item));
            assert(elements_of(views).contains(item));
        }
        if elements_of(views).contains(item) {
            let r = choose|r: int| 0 <= r < views.len() && (#[trigger] views[r]).contains(item);
            assert(reads@[r]@.contains(item));
        }
    }
    if forall|r: int| 0 <= r < reads@.len() ==> in_turn(direction, (#[trigger] reads@[r])@) {
        assert forall|r: int| 0 <= r < reads@.len() implies sorted_by(
            (#[trigger] reads@[r])@,
            item_order(direction),
        ) by {
            lemma_in_turn_is_sorted(direction, reads@[r]@);
        }
        lemma_in_turn_is_sorted(direction, merged@);
    }
}

/// The places of items that differ from the item before them.
pub open spec fn differ_from_neighbour(items: Seq<Item>) -> spec_fn(int) -> bool {
    |i: int| i == 0 || items[i] != items[i - 1]
}

/// The places of what is left without repeats.
proof fn lemma_places_without_repeats(items: Seq<Item>) -> (at: Seq<int>)
    ensures
        picks(at, items.len(), differ_from_neighbour(items)),
        without_repeats(items).len() == at.len(),
        forall|j: int|
            0 <= j < at.len() ==> #[trigger] without_repeats(items)[j] == items[at[j]],
    decreases items.len(),
{
    if items.len() == 0 {
        Seq::empty()
    } else if items.len() == 1 {
        let at = seq![0int];
        assert forall|i: int|
            0 <= i < 1 && #[trigger] differ_from_neighbour(items)(i) implies at.contains(i) by {
            assert(at[0] == i);
        }
        at
    } else {
        let rest = items.drop_last();
        let n = rest.len();
        let at = lemma_places_without_repeats(rest);
        lemma_picks_one_more(at, n, differ_from_neighbour(rest), differ_from_neighbour(items));
        if items[n as int] != items[n - 1] {
            at.push(n as int)
        } else {
            at
        }
    }
}

/// Of items, those that differ from the item before them are kept, in their
/// order, the first `limit` of them; each value stands where its id does.
pub proof fn law_neighbouring_repeats_are_left_out(
    merged: &Vec<Item>,
    limit: usize,
    page: (Vec<OrderValue>, Vec<ExtendedPointId>),
)
    requires
        call_ensures(first_distinct, (merged, limit), page),
    ensures
        page.0@.len() == page.1@.len(),
        page.0@.len() <= limit,
        exists|at: Seq<int>|
            #[trigger] picks(at, merged@.len(), differ_from_neighbour(merged@)) && page.0@.len()
                <= at.len() && (page.0@.len() == at.len() || page.0@.len() == limit) && forall|
                j: int,
            |
                0 <= j < page.0@.len() ==> #[trigger] page.0@[j] == merged@[at[j]].0
                    && page.1@[j] == merged@[at[j]].1,
{
    let at = lemma_places_without_repeats(merged@);
    let kept = first(without_repeats(merged@), limit as nat);
    assert forall|j: int| 0 <= j < page.0@.len() implies #[trigger] page.0@[j] == merged@[at[j]].0
        && page.1@[j] == merged@[at[j]].1 by {
        assert(kept[j] == without_repeats(merged@)[j]);
    }
    assert(picks(at, merged@.len(), differ_from_neighbour(merged@)));
}

/// A merged page holds items that were read, at most `limit`, each value where
/// its id stands. All that were read are on it unless it holds `limit`. If each
/// read is in the order of the direction, so is the page, no item comes twice,
/// and an item that was read and is not on it comes after all that are.
pub proof fn law_merged_page_comes_first(
    reads: &Vec<Vec<Item>>,
    direction: Direction,
    limit: usize,
    page: (Vec<OrderValue>, Vec<ExtendedPointId>),
)
    requires
        call_ensures(merge_ordered, (reads, direction, limit), page),
    ensures
        page.0@.len() == page.1@.len(),
        page.0@.len() <= limit,
        forall|i: int|
            0 <= i < page.0@.len() ==> was_read(reads@, (#[trigger] page.0@[i], page.1@[i])),
        forall|item: Item| #[trigger]
            was_read(reads@, item) ==> page.0@.len() == limit || exists|i: int|
                0 <= i < page.0@.len() && #[trigger] page.0@[i] == item.0 && page.1@[i] == item.1,
        (forall|r: int| 0 <= r < reads@.len() ==> in_turn(direction, (#[trigger] reads@[r])@))
            ==> {
            &&& forall|i: int, j: int|
                0 <= i < j < page.0@.len() ==> comes_before(
                    direction,
                    (#[trigger] page.0@[i], page.1@[i]),
                    (#[trigger] page.0@[j], page.1@[j]),
                )
            &&& forall|item: Item| #[trigger]
                was_read(reads@, item) ==> (exists|i: int|
                    0 <= i < page.0@.len() && #[trigger] page.0@[i] == item.0 && page.1@[i]
                        == item.1) || forall|i: int|
                    0 <= i < page.0@.len() ==> comes_before(
                        direction,
                        (#[trigger] page.0@[i], page.1@[i]),
                        item,
                    )
        },
{
    let views = seq_view(reads@);
    let items = first(
        without_repeats(crate::order::merged_items(views, direction)),
        limit as nat,
    );
    assert forall|i: int| 0 <= i < items.len() implies #[trigger] items[i] == (
        page.0@[i],
        page.1@[i],
    ) by {}
    assert(is_read_page(items, views, limit as nat));
    assert forall|i: int| 0 <= i < page.0@.len() implies was_read(
        reads@,
        (#[trigger] page.0@[i], page.1@[i]),
    ) by {
        assert(elements_of(views).contains(items[i]));
        let r = choose|r: int| 0 <= r < views.len() && (#[trigger] views[r]).contains(items[i]);
        assert(reads@[r]@.contains(items[i]));
    }
    assert forall|item: Item| #[trigger] was_read(reads@, item) implies elements_of(views).contains(
        item,
    ) by {
        let r = choose|r: int| 0 <= r < reads@.len() && (#[trigger] reads@[r])@.contains(item);
        assert(views[r].contains(item));
    }
    assert forall|item: Item| #[trigger] was_read(reads@, item) implies page.0@.len() == limit
        || exists|i: int|
        0 <= i < page.0@.len() && #[trigger] page.0@[i] == item.0 && page.1@[i] == item.1 by {
        assert(elements_of(views).contains(item));
        if items.contains(item) {
            let i = choose|i: int| 0 <= i < items.len() && items[i] == item;
            assert(page.0@[i] == item.0);
        }
    }
    if forall|r: int| 0 <= r < reads@.len() ==> in_turn(direction, (#[trigger] reads@[r])@) {
        assert forall|r: int| 0 <= r < reads@.len() implies sorted_by(
            (#[trigger] reads@[r])@,
            item_order(direction),
        ) by {
            lemma_in_turn_is_sorted(direction, reads@[r]@);
        }
        law_page_of_items(views, direction, limit as nat);
        assert(items == page_of_items(views, direction, limit as nat));
        assert forall|i: int, j: int| 0 <= i < j < page.0@.len() implies comes_before(
            direction,
            (#[trigger] page.0@[i], page.1@[i]),
            (#[trigger] page.0@[j], page.1@[j]),
        ) by {
            assert(item_order(direction)(items[i], items[j]));
        }
        assert forall|item: Item| #[trigger] was_read(reads@, item) implies (exists|i: int|
            0 <= i < page.0@.len() && #[trigger] page.0@[i] == item.0 && page.1@[i] == item.1)
            || forall|i: int|
            0 <= i < page.0@.len() ==> comes_before(
                direction,
                (#[trigger] page.0@[i], page.1@[i]),
                item,
            ) by {
            assert(elements_of(views).contains(item));
            if items.contains(item) {
                let i = choose|i: int| 0 <= i < items.len() && items[i] == item;
                assert(page.0@[i] == item.0);
            } else {
                assert forall|i: int| 0 <= i < page.0@.len() implies comes_before(
                    direction,
                    (#[trigger] page.0@[i], page.1@[i]),
                    item,
                ) by {
                    assert(items.contains(items[i]));
                    assert(item_order(direction)(items[i], item));
                }
            }
        }
    }
}

/// A merged page is what is left of the merged items when neighbouring repeats
/// are left out, in whatever order the reads are.
pub proof fn law_merged_page_is_of_merged_items(
    reads: &Vec<Vec<Item>>,
    direction: Direction,
    limit: usize,
    merged: Vec<Item>,
    kept: (Vec<OrderValue>, Vec<ExtendedPointId>),
    page: (Vec<OrderValue>, Vec<ExtendedPointId>),
)
    requires
        call_ensures(merge_items, (reads, direction), merged),
        call_ensures(first_distinct, (&merged, limit), kept),
        call_ensures(merge_ordered, (reads, direction, limit), page),
    ensures
        page.0@ == kept.0@,
        page.1@ == kept.1@,
{
}

} // verus!
