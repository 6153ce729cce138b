//! What holds of pages, whatever was read from the segments.
use crate::arrange::{
    arranged, first, is_arranged, lemma_arranged, lemma_arranged_unique, strictly_in_order,
};
use crate::order::{
    elements_of, id_le, id_order, item_order, lemma_flatten_elements, lemma_total_orders,
    page_of_ids, page_of_items, Direction, Item,
};
use crate::point::ExtendedPointId;
use vstd::prelude::*;
use vstd::relations::total_ordering;

verus! {

/// The elements of several sequences can be arranged.
proof fn lemma_arranged_elements<A>(le: spec_fn(A, A) -> bool, sequences: Seq<Seq<A>>)
    requires
        total_ordering(le),
    ensures
        is_arranged(le, elements_of(sequences), arranged(le, elements_of(sequences))),
{
    lemma_flatten_elements(sequences);
    lemma_arranged(le, sequences.flatten());
}

/// At most `j` elements of an arranged sequence come before the one at `j`.
proof fn lemma_rank<A>(le: spec_fn(A, A) -> bool, elements: Seq<A>, j: int, before: Seq<A>)
    requires
        total_ordering(le),
        strictly_in_order(le, elements),
        0 <= j < elements.len(),
        before.no_duplicates(),
        forall|k: int|
            0 <= k < before.len() ==> elements.contains(#[trigger] before[k]) && le(
                before[k],
                elements[j],
            ) && before[k] != elements[j],
    ensures
        before.len() <= j,
{
    let low = elements.take(j);
    assert(low.no_duplicates()) by {
        assert forall|a: int, b: int| 0 <= a < b < low.len() implies low[a] != low[b] by {
            assert(le(elements[a], elements[b]));
        }
    }
    assert(before.to_set().subset_of(low.to_set())) by {
        assert forall|e: A| before.to_set().contains(e) implies low.to_set().contains(e) by {
            let k = choose|k: int| 0 <= k < before.len() && before[k] == e;
            assert(elements.contains(before[k]));
            let m = choose|m: int| 0 <= m < elements.len() && elements[m] == e;
            if m > j {
                assert(le(elements[j], elements[m]));
            }
            assert(low[m] == e);
        }
    }
    before.unique_seq_to_set();
    low.unique_seq_to_set();
    vstd::seq_lib::seq_to_set_is_finite(low);
    vstd::set_lib::lemma_len_subset(before.to_set(), low.to_set());
}

/// A strictly ordered sequence has no duplicates, and neither has a beginning
/// of it.
proof fn lemma_no_duplicates<A>(le: spec_fn(A, A) -> bool, elements: Seq<A>, n: int)
    requires
        strictly_in_order(le, elements),
        0 <= n <= elements.len(),
    ensures
        elements.no_duplicates(),
        elements.take(n).no_duplicates(),
        strictly_in_order(le, elements.take(n)),
{
    assert forall|a: int, b: int| 0 <= a < b < elements.len() implies elements[a] != elements[b] by {
        assert(le(elements[a], elements[b]));
    }
    assert forall|a: int, b: int| 0 <= a < b < n implies #[trigger] le(
        elements.take(n)[a],
        elements.take(n)[b],
    ) && elements.take(n)[a] != elements.take(n)[b] by {
        assert(le(elements[a], elements[b]));
    }
}

/// The first elements of all sequences are found among the first elements of
/// each.
proof fn lemma_first_of_firsts<A>(
    le: spec_fn(A, A) -> bool,
    contents: Seq<Seq<A>>,
    reads: Seq<Seq<A>>,
    limit: nat,
)
    requires
        total_ordering(le),
        reads.len() == contents.len(),
        forall|i: int|
            0 <= i < contents.len() ==> #[trigger] reads[i] == first(
                arranged(le, contents[i].to_set()),
                limit,
            ),
    ensures
        first(arranged(le, elements_of(reads)), limit) == first(
            arranged(le, elements_of(contents)),
            limit,
        ),
{
    let all = arranged(le, elements_of(contents));
    let some = arranged(le, elements_of(reads));
    lemma_arranged_elements(le, contents);
    lemma_arranged_elements(le, reads);
    assert forall|e: A| #[trigger] some.contains(e) <==> elements_of(reads).contains(e) by {
        assert(some.contains(e) <==> some.to_set().contains(e));
    }
    assert forall|e: A| #[trigger] all.contains(e) <==> elements_of(contents).contains(e) by {
        assert(all.contains(e) <==> all.to_set().contains(e));
    }
    // What was read is there.
    assert forall|e: A| some.contains(e) implies all.contains(e) by {
        assert(elements_of(reads).contains(e));
        let i = choose|i: int| 0 <= i < reads.len() && (#[trigger] reads[i]).contains(e);
        let own = arranged(le, contents[i].to_set());
        lemma_arranged(le, contents[i]);
        let k = choose|k: int| 0 <= k < reads[i].len() && reads[i][k] == e;
        assert(own[k] == e);
        assert(own.to_set().contains(e));
        assert(contents[i].contains(e));
        assert(elements_of(contents).contains(e));
    }
    // The first of all were read.
    assert forall|j: int| 0 <= j < all.len() && j < limit implies some.contains(
        #[trigger] all[j],
    ) by {
        let e = all[j];
        assert(all.contains(e));
        assert(elements_of(contents).contains(e));
        let i = choose|i: int| 0 <= i < contents.len() && (#[trigger] contents[i]).contains(e);
        let own = arranged(le, contents[i].to_set());
        lemma_arranged(le, contents[i]);
        assert(own.to_set().contains(e));
        let p = choose|p: int| 0 <= p < own.len() && own[p] == e;
        lemma_no_duplicates(le, own, p);
        assert forall|k: int| 0 <= k < own.take(p).len() implies all.contains(
            #[trigger] own.take(p)[k],
        ) && le(own.take(p)[k], all[j]) && own.take(p)[k] != all[j] by {
            assert(le(own[k], own[p]));
            assert(own.to_set().contains(own[k]));
            assert(contents[i].contains(own[k]));
            assert(elements_of(contents).contains(own[k]));
        }
        lemma_rank(le, all, j, own.take(p));
        assert(reads[i] == first(own, limit));
        assert(reads[i][p] == e);
        assert(reads[i].contains(e));
        assert(elements_of(reads).contains(e));
    }
    if all.len() <= limit {
        assert(some.to_set() =~= all.to_set()) by {
            assert forall|e: A| all.contains(e) implies some.contains(e) by {
                let j = choose|j: int| 0 <= j < all.len() && all[j] == e;
                assert(some.contains(all[j]));
            }
        }
        lemma_arranged_unique(le, some, all);
    } else {
        let page = all.take(limit as int);
        lemma_no_duplicates(le, all, limit as int);
        // Each of the first of all stands among the first that were read.
        assert forall|j: int| 0 <= j < limit implies some.take(
            if some.len() <= limit {
                some.len() as int
            } else {
                limit as int
            },
        ).contains(#[trigger] page[j]) by {
            let e = all[j];
            assert(some.contains(all[j]));
            let m = choose|m: int| 0 <= m < some.len() && some[m] == e;
            if m >= limit {
                let n = limit as int;
                lemma_no_duplicates(le, some, n);
                assert forall|k: int| 0 <= k < n implies all.contains(#[trigger] some.take(n)[k])
                    && le(some.take(n)[k], all[j]) && some.take(n)[k] != all[j] by {
                    assert(le(some[k], some[m]));
                    assert(some.contains(some[k]));
                }
                lemma_rank(le, all, j, some.take(n));
                assert(false);
            }
            let read = some.take(
                if some.len() <= limit {
                    some.len() as int
                } else {
                    limit as int
                },
            );
            assert(read[m] == e);
        }
        let n = if some.len() <= limit {
            some.len() as int
        } else {
            limit as int
        };
        let read = some.take(n);
        lemma_no_duplicates(le, some, n);
        page.unique_seq_to_set();
        read.unique_seq_to_set();
        vstd::seq_lib::seq_to_set_is_finite(read);
        vstd::seq_lib::seq_to_set_is_finite(page);
        assert(page.to_set().subset_of(read.to_set())) by {
            assert forall|e: A| page.to_set().contains(e) implies read.to_set().contains(e) by {
                let j = choose|j: int| 0 <= j < page.len() && page[j] == e;
                assert(read.contains(page[j]));
            }
        }
        vstd::set_lib::lemma_len_subset(page.to_set(), read.to_set());
        vstd::set_lib::lemma_subset_equality(page.to_set(), read.to_set());
        lemma_arranged_unique(le, page, read);
        assert(some.take(some.len() as int) =~= some);
    }
}

/// A page of ids holds every id at most once, in ascending order, and at most
/// `limit` ids, all of which were read. Every id that was read and is not on
/// the page comes after all that are, and there is none such unless the page is
/// full.
pub proof fn law_page_of_ids(reads: Seq<Seq<ExtendedPointId>>, limit: nat)
    ensures
        ({
            let page = page_of_ids(reads, limit);
            &&& strictly_in_order(id_order(), page)
            &&& page.no_duplicates()
            &&& page.len() <= limit
            &&& forall|i: int|
                0 <= i < page.len() ==> elements_of(reads).contains(#[trigger] page[i])
            &&& forall|id: ExtendedPointId, i: int|
                elements_of(reads).contains(id) && !page.contains(id) && 0 <= i < page.len()
                    ==> #[trigger] id_le(page[i], id)
            &&& forall|id: ExtendedPointId| #[trigger]
                elements_of(reads).contains(id) && !page.contains(id) ==> page.len() == limit
        }),
{
    lemma_total_orders();
    lemma_arranged_elements(id_order(), reads);
    lemma_page(id_order(), elements_of(reads), limit);
    let page = page_of_ids(reads, limit);
    assert forall|id: ExtendedPointId, i: int|
        elements_of(reads).contains(id) && !page.contains(id) && 0 <= i
            < page.len() implies #[trigger] id_le(page[i], id) by {
        assert(id_order()(page[i], id));
    }
}

/// The first elements of a set in order.
proof fn lemma_page<A>(le: spec_fn(A, A) -> bool, elements: Set<A>, limit: nat)
    requires
        is_arranged(le, elements, arranged(le, elements)),
    ensures
        ({
            let page = first(arranged(le, elements), limit);
            &&& strictly_in_order(le, page)
            &&& page.no_duplicates()
            &&& page.len() <= limit
            &&& forall|i: int| 0 <= i < page.len() ==> elements.contains(#[trigger] page[i])
            &&& forall|e: A, i: int|
                elements.contains(e) && !page.contains(e) && 0 <= i < page.len() ==> #[trigger] le(
                    page[i],
                    e,
                )
            &&& forall|e: A| #[trigger]
                elements.contains(e) && !page.contains(e) ==> page.len() == limit
        }),
{
    let all = arranged(le, elements);
    let page = first(all, limit);
    lemma_no_duplicates(le, all, page.len() as int);
    assert(all.take(page.len() as int) =~= page);
    assert forall|i: int| 0 <= i < page.len() implies elements.contains(#[trigger] page[i]) by {
        assert(all.to_set().contains(all[i]));
    }
    assert forall|e: A| #[trigger] elements.contains(e) && !page.contains(e) implies page.len()
        == limit by {
        assert(all.to_set().contains(e));
    }
    assert forall|e: A, i: int|
        elements.contains(e) && !page.contains(e) && 0 <= i < page.len() implies #[trigger] le(
        page[i],
        e,
    ) by {
        assert(all.to_set().contains(e));
        let m = choose|m: int| 0 <= m < all.len() && all[m] == e;
        if m < page.len() {
            assert(page[m] == e);
        }
        assert(le(all[i], all[m]));
    }
}

/// A list of all ids that were read, each once and in ascending order, begins
/// with the page.
pub proof fn law_page_of_ids_is_the_beginning(
    reads: Seq<Seq<ExtendedPointId>>,
    limit: nat,
    all: Seq<ExtendedPointId>,
)
    requires
        strictly_in_order(id_order(), all),
        forall|id: ExtendedPointId| #[trigger]
            all.contains(id) <==> elements_of(reads).contains(id),
    ensures
        page_of_ids(reads, limit) == first(all, limit),
{
    lemma_total_orders();
    lemma_arranged_elements(id_order(), reads);
    assert(all.to_set() =~= elements_of(reads));
    lemma_arranged_unique(id_order(), all, arranged(id_order(), elements_of(reads)));
}

/// A page of ids does not depend on the segments from which the ids were read,
/// or on their order.
pub proof fn law_page_of_ids_depends_on_elements(
    a: Seq<Seq<ExtendedPointId>>,
    b: Seq<Seq<ExtendedPointId>>,
    limit: nat,
)
    requires
        forall|id: ExtendedPointId| #[trigger]
            elements_of(a).contains(id) <==> elements_of(b).contains(id),
    ensures
        page_of_ids(a, limit) == page_of_ids(b, limit),
{
    assert(elements_of(a) =~= elements_of(b));
}

/// The first `limit` ids of each segment suffice for the first `limit` ids of
/// the shard.
pub proof fn law_first_ids_suffice(
    contents: Seq<Seq<ExtendedPointId>>,
    reads: Seq<Seq<ExtendedPointId>>,
    limit: nat,
)
    requires
        reads.len() == contents.len(),
        forall|i: int|
            0 <= i < contents.len() ==> #[trigger] reads[i] == first(
                arranged(id_order(), contents[i].to_set()),
                limit,
            ),
    ensures
        page_of_ids(reads, limit) == page_of_ids(contents, limit),
{
    lemma_total_orders();
    lemma_first_of_firsts(id_order(), contents, reads, limit);
}

/// Two pages of ids, the second of which is made from the ids that were read
/// and are not on the first, are together one longer page.
pub proof fn law_pages_of_ids_follow_each_other(
    reads: Seq<Seq<ExtendedPointId>>,
    limit: nat,
    later: Seq<Seq<ExtendedPointId>>,
    later_limit: nat,
)
    requires
        forall|id: ExtendedPointId| #[trigger]
            elements_of(later).contains(id) <==> elements_of(reads).contains(id) && !page_of_ids(
                reads,
                limit,
            ).contains(id),
    ensures
        page_of_ids(reads, limit) + page_of_ids(later, later_limit) == page_of_ids(
            reads,
            limit + later_limit,
        ),
{
    let all = arranged(id_order(), elements_of(reads));
    let page = page_of_ids(reads, limit);
    lemma_total_orders();
    lemma_arranged_elements(id_order(), reads);
    let rest = all.skip(page.len() as int);
    assert(page =~= all.take(page.len() as int));
    lemma_no_duplicates(id_order(), all, page.len() as int);
    assert forall|i: int, j: int| 0 <= i < j < rest.len() implies #[trigger] id_order()(
        rest[i],
        rest[j],
    ) && rest[i] != rest[j] by {
        assert(id_order()(all[page.len() + i], all[page.len() + j]));
    }
    assert forall|id: ExtendedPointId| #[trigger]
        rest.contains(id) <==> elements_of(later).contains(id) by {
        assert(elements_of(reads).contains(id) <==> all.to_set().contains(id));
        if rest.contains(id) {
            let i = choose|i: int| 0 <= i < rest.len() && rest[i] == id;
            assert(all[page.len() + i] == id);
            assert(all.to_set().contains(id));
            assert(!page.contains(id));
        }
        if elements_of(later).contains(id) {
            let m = choose|m: int| 0 <= m < all.len() && all[m] == id;
            if m < page.len() {
                assert(page[m] == id);
            }
            assert(rest[m - page.len()] == id);
        }
    }
    law_page_of_ids_is_the_beginning(later, later_limit, rest);
    assert(page + first(rest, later_limit) =~= first(all, limit + later_limit));
}

/// Pages of ids can be chained by an offset. The id after a page of `limit` ids
/// is the last of a page of one more; a page from that id on follows the first
/// page without a gap and without a repeat.
pub proof fn law_pages_of_ids_chain_by_offset(
    reads: Seq<Seq<ExtendedPointId>>,
    limit: nat,
    offset: ExtendedPointId,
    later: Seq<Seq<ExtendedPointId>>,
    later_limit: nat,
)
    requires
        page_of_ids(reads, limit + 1).len() == limit + 1,
        page_of_ids(reads, limit + 1).last() == offset,
        forall|id: ExtendedPointId| #[trigger]
            elements_of(later).contains(id) <==> elements_of(reads).contains(id) && id_le(
                offset,
                id,
            ),
    ensures
        page_of_ids(reads, limit) + page_of_ids(later, later_limit) == page_of_ids(
            reads,
            limit + later_limit,
        ),
{
    let all = arranged(id_order(), elements_of(reads));
    let page = page_of_ids(reads, limit);
    lemma_total_orders();
    lemma_arranged_elements(id_order(), reads);
    assert(page =~= all.take(limit as int));
    assert(all[limit as int] == offset);
    assert forall|id: ExtendedPointId| elements_of(reads).contains(id) implies id_le(offset, id)
        == !page.contains(id) by {
        assert(all.to_set().contains(id));
        let m = choose|m: int| 0 <= m < all.len() && all[m] == id;
        if m < limit {
            assert(page[m] == id);
            assert(id_order()(all[m], all[limit as int]));
        } else {
            if m > limit {
                assert(id_order()(all[limit as int], all[m]));
            }
            if page.contains(id) {
                let i = choose|i: int| 0 <= i < page.len() && page[i] == id;
                assert(id_order()(all[i], all[m]));
            }
        }
    }
    law_pages_of_ids_follow_each_other(reads, limit, later, later_limit);
}

/// A page of items holds every item at most once, in the order of the given
/// direction, and at most `limit` items, all of which were read. Every item
/// that was read and is not on the page comes after all that are, and there is
/// none such unless the page is full.
pub proof fn law_page_of_items(reads: Seq<Seq<Item>>, direction: Direction, limit: nat)
    ensures
        ({
            let page = page_of_items(reads, direction, limit);
            &&& strictly_in_order(item_order(direction), page)
            &&& page.no_duplicates()
            &&& page.len() <= limit
            &&& forall|i: int|
                0 <= i < page.len() ==> elements_of(reads).contains(#[trigger] page[i])
            &&& forall|item: Item, i: int|
                #![trigger elements_of(reads).contains(item), page[i]]
                elements_of(reads).contains(item) && !page.contains(item) && 0 <= i < page.len()
                    ==> item_order(direction)(page[i], item)
            &&& forall|item: Item| #[trigger]
                elements_of(reads).contains(item) && !page.contains(item) ==> page.len() == limit
        }),
{
    lemma_total_orders();
    lemma_arranged_elements(item_order(direction), reads);
    lemma_page(item_order(direction), elements_of(reads), limit);
}

/// A list of all items that were read, each once and in order, begins with the
/// page.
pub proof fn law_page_of_items_is_the_beginning(
    reads: Seq<Seq<Item>>,
    direction: Direction,
    limit: nat,
    all: Seq<Item>,
)
    requires
        strictly_in_order(item_order(direction), all),
        forall|item: Item| #[trigger]
            all.contains(item) <==> elements_of(reads).contains(item),
    ensures
        page_of_items(reads, direction, limit) == first(all, limit),
{
    lemma_total_orders();
    lemma_arranged_elements(item_order(direction), reads);
    assert(all.to_set() =~= elements_of(reads));
    lemma_arranged_unique(
        item_order(direction),
        all,
        arranged(item_order(direction), elements_of(reads)),
    );
}

/// When all items fit on a page, the descending page is the ascending page
/// reversed.
pub proof fn law_descending_reverses_ascending(reads: Seq<Seq<Item>>, limit: nat)
    requires
        elements_of(reads).len() <= limit,
    ensures
        page_of_items(reads, Direction::Desc, limit) == page_of_items(
            reads,
            Direction::Asc,
            limit,
        ).reverse(),
{
    let up = arranged(item_order(Direction::Asc), elements_of(reads));
    let down = up.reverse();
    lemma_total_orders();
    lemma_arranged_elements(item_order(Direction::Asc), reads);
    lemma_no_duplicates(item_order(Direction::Asc), up, 0);
    up.unique_seq_to_set();
    assert forall|i: int, j: int| 0 <= i < j < down.len() implies #[trigger] item_order(
        Direction::Desc,
    )(down[i], down[j]) && down[i] != down[j] by {
        assert(item_order(Direction::Asc)(up[up.len() - 1 - j], up[up.len() - 1 - i]));
    }
    assert forall|item: Item| #[trigger]
        down.contains(item) <==> elements_of(reads).contains(item) by {
        assert(elements_of(reads).contains(item) <==> up.to_set().contains(item));
        if up.contains(item) {
            let i = choose|i: int| 0 <= i < up.len() && up[i] == item;
            assert(down[up.len() - 1 - i] == item);
        }
        if down.contains(item) {
            let i = choose|i: int| 0 <= i < down.len() && down[i] == item;
            assert(up[up.len() - 1 - i] == item);
        }
    }
    law_page_of_items_is_the_beginning(reads, Direction::Desc, limit, down);
}

/// The values of a page of items ascend, or descend, with the direction.
pub proof fn law_values_in_order(
    reads: Seq<Seq<Item>>,
    direction: Direction,
    limit: nat,
    i: int,
    j: int,
)
    requires
        0 <= i <= j < page_of_items(reads, direction, limit).len(),
    ensures
        match direction {
            Direction::Asc => page_of_items(reads, direction, limit)[i].0.rank <= page_of_items(
                reads,
                direction,
                limit,
            )[j].0.rank,
            Direction::Desc => page_of_items(reads, direction, limit)[i].0.rank >= page_of_items(
                reads,
                direction,
                limit,
            )[j].0.rank,
        },
{
    law_page_of_items(reads, direction, limit);
    let page = page_of_items(reads, direction, limit);
    if i < j {
        assert(item_order(direction)(page[i], page[j]));
    }
}

/// The first `limit` items of each segment suffice for the first `limit` items
/// of the shard.
pub proof fn law_first_items_suffice(
    contents: Seq<Seq<Item>>,
    reads: Seq<Seq<Item>>,
    direction: Direction,
    limit: nat,
)
    requires
        reads.len() == contents.len(),
        forall|i: int|
            0 <= i < contents.len() ==> #[trigger] reads[i] == first(
                arranged(item_order(direction), contents[i].to_set()),
                limit,
            ),
    ensures
        page_of_items(reads, direction, limit) == page_of_items(contents, direction, limit),
{
    lemma_total_orders();
    lemma_first_of_firsts(item_order(direction), contents, reads, limit);
}

} // verus!
