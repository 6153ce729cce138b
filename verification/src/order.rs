//! Sorting, merging and removal of repeated items.
use crate::arrange::{
    arranged, first, is_arranged, lemma_arranged_unique, lemma_without_repeats,
    lemma_without_repeats_mapped,
};
use crate::point::{ExtendedPointId, OrderValue};
use crate::views::seq_view;
use itertools::Itertools;
use vstd::prelude::*;
use vstd::relations::{sorted_by, total_ordering};

verus! {

/// A point id and the value that the point is ordered by.
pub type Item = (OrderValue, ExtendedPointId);

/// An item as integers: the rank of its value, the kind of its id (0 for a
/// number, 1 for a UUID) and the bits of its id. Items are ordered as these
/// triples are.
pub type Key = (i128, u8, u128);

/// The direction of an order.
#[derive(Clone, Copy, Debug, PartialEq, Eq, Structural)]
pub enum Direction {
    Asc,
    Desc,
}

/// The integers of an item.
pub open spec fn key_of_item(item: Item) -> Key {
    match item.1 {
        ExtendedPointId::NumId(number) => (item.0.rank, 0u8, number as u128),
        ExtendedPointId::Uuid(bits) => (item.0.rank, 1u8, bits),
    }
}

/// The item of the integers `key`.
pub open spec fn item_of_key(key: Key) -> Item {
    (
        OrderValue { rank: key.0 },
        if key.1 == 0 {
            ExtendedPointId::NumId(key.2 as u64)
        } else {
            ExtendedPointId::Uuid(key.2)
        },
    )
}

/// Whether `a` comes before `b` in the lexicographic order of triples, or is
/// `b`.
pub open spec fn key_le(a: Key, b: Key) -> bool {
    a.0 < b.0 || (a.0 == b.0 && (a.1 < b.1 || (a.1 == b.1 && a.2 <= b.2)))
}

/// Whether `a` comes before `b` in the given direction, or is `b`.
pub open spec fn key_precedes(ascending: bool, a: Key, b: Key) -> bool {
    if ascending {
        key_le(a, b)
    } else {
        key_le(b, a)
    }
}

/// Whether the keys are in the order of the given direction.
pub open spec fn keys_in_order(ascending: bool, keys: Seq<Key>) -> bool {
    forall|i: int, j: int|
        0 <= i < j < keys.len() ==> key_precedes(ascending, #[trigger] keys[i], #[trigger] keys[j])
}

/// A sequence without the elements that are equal to the element before them.
pub open spec fn without_repeats<A>(elements: Seq<A>) -> Seq<A>
    decreases elements.len(),
{
    if elements.len() <= 1 {
        elements
    } else if elements[elements.len() - 1] == elements[elements.len() - 2] {
        without_repeats(elements.drop_last())
    } else {
        without_repeats(elements.drop_last()).push(elements.last())
    }
}

/// The order in which `itertools::Itertools::kmerge_by` yields the elements of
/// several sequences of keys, when it takes an element to come before another
/// according to [`key_precedes`].
pub uninterp spec fn kmerged(reads: Seq<Seq<(i128, u8, u128)>>, ascending: bool) -> Seq<
    (i128, u8, u128),
>;

/// Calls `itertools::Itertools::sorted`: the keys in ascending order. Sorting
/// keeps every key as often as it was given.
#[verifier::external_body]
fn sorted(keys: Vec<Key>) -> (sorted: Vec<Key>)
    ensures
        sorted@.to_multiset() == keys@.to_multiset(),
        keys_in_order(true, sorted@),
{
    keys.into_iter().sorted().collect_vec()
}

/// Calls `itertools::Itertools::dedup`: of each run of equal keys one is left.
#[verifier::external_body]
fn dedup(keys: Vec<Key>) -> (distinct: Vec<Key>)
    ensures
        distinct@ == without_repeats(keys@),
{
    keys.into_iter().dedup().collect_vec()
}

/// Calls `itertools::Itertools::kmerge_by` with [`precedes`] as the order. The
/// result is a function of the sequences and of the direction; it holds every
/// key as often as the sequences do; and it is in order if each sequence is.
#[verifier::external_body]
fn kmerge(reads: Vec<Vec<Key>>, ascending: bool) -> (merged: Vec<Key>)
    ensures
        merged@ == kmerged(seq_view(reads@), ascending),
        merged@.to_multiset() == seq_view(reads@).flatten().to_multiset(),
        (forall|i: int|
            0 <= i < reads@.len() ==> keys_in_order(ascending, (#[trigger] reads@[i])@))
            ==> keys_in_order(ascending, merged@),
{
    reads.into_iter().kmerge_by(|a, b| precedes(ascending, a, b)).collect_vec()
}

/// Whether `a` comes before `b` in the given direction, or is `b`.
pub fn precedes(ascending: bool, a: &Key, b: &Key) -> (first: bool)
    ensures
        first == key_precedes(ascending, *a, *b),
{
    let (low, high) = if ascending {
        (a, b)
    } else {
        (b, a)
    };
    low.0 < high.0 || (low.0 == high.0 && (low.1 < high.1 || (low.1 == high.1 && low.2 <= high.2)))
}

/// The integers of an item.
fn item_key(item: &Item) -> (key: Key)
    ensures
        key == key_of_item(*item),
{
    match item.1 {
        ExtendedPointId::NumId(number) => (item.0.rank, 0u8, number as u128),
        ExtendedPointId::Uuid(bits) => (item.0.rank, 1u8, bits),
    }
}

/// The item of the integers `key`.
fn key_item(key: &Key) -> (item: Item)
    ensures
        item == item_of_key(*key),
{
    let id = if key.1 == 0 {
        ExtendedPointId::NumId(key.2 as u64)
    } else {
        ExtendedPointId::Uuid(key.2)
    };
    (OrderValue { rank: key.0 }, id)
}

/// The integers of items.
fn item_keys(items: &Vec<Item>) -> (keys: Vec<Key>)
    ensures
        keys@ == items@.map_values(|item: Item| key_of_item(item)),
{
    let mut keys: Vec<Key> = Vec::new();
    let mut i: usize = 0;
    while i < items.len()
        invariant
            i <= items@.len(),
            keys@.len() == i,
            forall|j: int| 0 <= j < i ==> keys@[j] == key_of_item(#[trigger] items@[j]),
        decreases items@.len() - i,
    {
        keys.push(item_key(&items[i]));
        i += 1;
    }
    assert(keys@ =~= items@.map_values(|item: Item| key_of_item(item)));
    keys
}

/// The items of integers.
fn key_items(keys: &Vec<Key>) -> (items: Vec<Item>)
    ensures
        items@ == keys@.map_values(|key: Key| item_of_key(key)),
{
    let mut items: Vec<Item> = Vec::new();
    let mut i: usize = 0;
    while i < keys.len()
        invariant
            i <= keys@.len(),
            items@.len() == i,
            forall|j: int| 0 <= j < i ==> items@[j] == item_of_key(#[trigger] keys@[j]),
        decreases keys@.len() - i,
    {
        items.push(key_item(&keys[i]));
        i += 1;
    }
    assert(items@ =~= keys@.map_values(|key: Key| item_of_key(key)));
    items
}

/// Whether the id `a` comes before the id `b`, or is `b`: numbers come before
/// UUIDs.
pub open spec fn id_le(a: ExtendedPointId, b: ExtendedPointId) -> bool {
    match (a, b) {
        (ExtendedPointId::NumId(a), ExtendedPointId::NumId(b)) => a <= b,
        (ExtendedPointId::NumId(_), ExtendedPointId::Uuid(_)) => true,
        (ExtendedPointId::Uuid(_), ExtendedPointId::NumId(_)) => false,
        (ExtendedPointId::Uuid(a), ExtendedPointId::Uuid(b)) => a <= b,
    }
}

/// The order of ids.
pub open spec fn id_order() -> spec_fn(ExtendedPointId, ExtendedPointId) -> bool {
    |a: ExtendedPointId, b: ExtendedPointId| id_le(a, b)
}

/// Whether the item `a` comes before the item `b`, or is `b`: items are ordered
/// by their values, and by their ids where the values are equal.
pub open spec fn item_le(a: Item, b: Item) -> bool {
    a.0.rank < b.0.rank || (a.0.rank == b.0.rank && id_le(a.1, b.1))
}

/// The order of items in the given direction.
pub open spec fn item_order(direction: Direction) -> spec_fn(Item, Item) -> bool {
    match direction {
        Direction::Asc => |a: Item, b: Item| item_le(a, b),
        Direction::Desc => |a: Item, b: Item| item_le(b, a),
    }
}

/// The elements that occur in some of the sequences.
pub open spec fn elements_of<A>(sequences: Seq<Seq<A>>) -> Set<A> {
    Set::new(
        |element: A|
            exists|i: int| 0 <= i < sequences.len() && (#[trigger] sequences[i]).contains(element),
    )
}

/// The first `limit` distinct ids among `reads`, in ascending order.
pub open spec fn page_of_ids(reads: Seq<Seq<ExtendedPointId>>, limit: nat) -> Seq<
    ExtendedPointId,
> {
    first(arranged(id_order(), elements_of(reads)), limit)
}

/// The order of ids, and that of items, is total.
pub proof fn lemma_total_orders()
    ensures
        total_ordering(id_order()),
        total_ordering(item_order(Direction::Asc)),
        total_ordering(item_order(Direction::Desc)),
{
}

/// Turning items into integers and back gives the items.
proof fn lemma_round_trip(item: Item)
    ensures
        item_of_key(key_of_item(item)) == item,
{
}

/// Merges the ids that were read from segments into a page: the first `limit`
/// distinct ids, in ascending order.
pub fn merge_point_ids(reads: &Vec<Vec<ExtendedPointId>>, limit: usize) -> (ids: Vec<
    ExtendedPointId,
>)
    ensures
        ids@ == page_of_ids(seq_view(reads@), limit as nat),
{
    let ghost wanted = elements_of(seq_view(reads@));
    let ghost zero = OrderValue { rank: 0 };
    let mut keys: Vec<Key> = Vec::new();
    let mut i: usize = 0;
    while i < reads.len()
        invariant
            i <= reads@.len(),
            zero.rank == 0,
            forall|k: Key| #[trigger]
                keys@.contains(k) <==> exists|r: int, j: int|
                    0 <= r < i && 0 <= j < reads@[r]@.len() && k == key_of_item(
                        (zero, #[trigger] reads@[r]@[j]),
                    ),
        decreases reads@.len() - i,
    {
        let read = &reads[i];
        let mut j: usize = 0;
        while j < read.len()
            invariant
                i < reads@.len(),
                *read == reads@[i as int],
                j <= read@.len(),
                zero.rank == 0,
                forall|k: Key| #[trigger]
                    keys@.contains(k) <==> exists|r: int, t: int|
                        (0 <= r < i || (r == i && t < j)) && 0 <= t < reads@[r]@.len() && k
                            == key_of_item((zero, #[trigger] reads@[r]@[t])),
            decreases read@.len() - j,
        {
            let ghost before = keys@;
            let key = item_key(&(OrderValue { rank: 0 }, read[j]));
            keys.push(key);
            assert forall|k: Key| #[trigger] keys@.contains(k) <==> exists|r: int, t: int|
                (0 <= r < i || (r == i && t < j + 1)) && 0 <= t < reads@[r]@.len() && k
                    == key_of_item((zero, #[trigger] reads@[r]@[t])) by {
                assert(keys@ =~= before.push(key));
                assert(keys@[before.len() as int] == key);
                if before.contains(k) {
                    let t = choose|t: int| 0 <= t < before.len() && before[t] == k;
                    assert(keys@[t] == k);
                }
                if keys@.contains(k) && k != key {
                    let t = choose|t: int| 0 <= t < keys@.len() && keys@[t] == k;
                    assert(before[t] == k);
                }
                if k == key {
                    assert(k == key_of_item((zero, reads@[i as int]@[j as int])));
                }
            }
            j += 1;
        }
        i += 1;
    }
    let ghost all = keys@;
    let keys = sorted(keys);
    let ghost in_order = keys@;
    let keys = dedup(keys);
    let ghost distinct = keys@;
    proof {
        lemma_total_orders();
        let le = |a: Key, b: Key| key_le(a, b);
        assert(total_ordering(le));
        assert(sorted_by(in_order, le));
        lemma_without_repeats(le, in_order);
        let ids = distinct.map_values(|key: Key| item_of_key(key).1);
        assert forall|k: Key| distinct.contains(k) <==> all.contains(k) by {
            broadcast use vstd::seq_lib::group_to_multiset_ensures;

            assert(all.to_multiset().count(k) == in_order.to_multiset().count(k));
            assert(distinct.to_set().contains(k) <==> in_order.to_set().contains(k));
        }
        assert forall|t: int| 0 <= t < distinct.len() implies #[trigger] distinct[t] == key_of_item(
            (zero, ids[t]),
        ) by {
            assert(distinct.contains(distinct[t]));
            assert(all.contains(distinct[t]));
            let (r, j) = choose|r: int, j: int|
                0 <= r < i && 0 <= j < reads@[r]@.len() && distinct[t] == key_of_item(
                    (zero, #[trigger] reads@[r]@[j]),
                );
            lemma_round_trip((zero, reads@[r]@[j]));
        }
        assert forall|a: int, b: int| 0 <= a < b < ids.len() implies #[trigger] id_order()(
            ids[a],
            ids[b],
        ) && ids[a] != ids[b] by {
            assert(le(distinct[a], distinct[b]));
        }
        assert(ids.to_set() =~= wanted) by {
            assert forall|id: ExtendedPointId| ids.contains(id) implies wanted.contains(id) by {
                let t = choose|t: int| 0 <= t < ids.len() && ids[t] == id;
                assert(distinct.contains(distinct[t]));
                assert(all.contains(distinct[t]));
                let (r, j) = choose|r: int, j: int|
                    0 <= r < i && 0 <= j < reads@[r]@.len() && distinct[t] == key_of_item(
                        (zero, #[trigger] reads@[r]@[j]),
                    );
                lemma_round_trip((zero, reads@[r]@[j]));
                assert(seq_view(reads@)[r].contains(id));
            }
            assert forall|id: ExtendedPointId| wanted.contains(id) implies ids.contains(id) by {
                let r = choose|r: int|
                    0 <= r < seq_view(reads@).len() && (#[trigger] seq_view(reads@)[r]).contains(
                        id,
                    );
                let j = choose|j: int| 0 <= j < reads@[r]@.len() && reads@[r]@[j] == id;
                let k = key_of_item((zero, reads@[r]@[j]));
                assert(all.contains(k));
                assert(distinct.contains(k));
                let t = choose|t: int| 0 <= t < distinct.len() && distinct[t] == k;
                lemma_round_trip((zero, id));
                assert(ids[t] == id);
            }
        }
        assert(is_arranged(id_order(), wanted, ids));
        lemma_arranged_unique(id_order(), ids, arranged(id_order(), wanted));
    }
    let mut ids: Vec<ExtendedPointId> = Vec::new();
    let mut n: usize = 0;
    while n < keys.len() && n < limit
        invariant
            n <= keys@.len(),
            n <= limit,
            ids@.len() == n,
            forall|t: int| 0 <= t < n ==> ids@[t] == item_of_key(#[trigger] keys@[t]).1,
        decreases keys@.len() - n,
    {
        ids.push(key_item(&keys[n]).1);
        n += 1;
    }
    assert(ids@ =~= first(arranged(id_order(), wanted), limit as nat));
    ids
}

/// The items of several reads in the order in which they are merged.
pub open spec fn merged_items(reads: Seq<Seq<Item>>, direction: Direction) -> Seq<Item> {
    kmerged(
        reads.map_values(|read: Seq<Item>| read.map_values(|item: Item| key_of_item(item))),
        direction == Direction::Asc,
    ).map_values(|key: Key| item_of_key(key))
}

/// The values of items.
pub open spec fn values_of_items(items: Seq<Item>) -> Seq<OrderValue> {
    items.map_values(|item: Item| item.0)
}

/// The ids of items.
pub open spec fn ids_of_items(items: Seq<Item>) -> Seq<ExtendedPointId> {
    items.map_values(|item: Item| item.1)
}

/// The first `limit` distinct items among `reads`, in the order of the given
/// direction.
pub open spec fn page_of_items(reads: Seq<Seq<Item>>, direction: Direction, limit: nat) -> Seq<
    Item,
> {
    first(arranged(item_order(direction), elements_of(reads)), limit)
}

/// A function applied to sequences with the same elements gives sequences with
/// the same elements.
proof fn lemma_multiset_mapped<A, B>(s: Seq<A>, t: Seq<A>, f: spec_fn(A) -> B)
    requires
        s.to_multiset() == t.to_multiset(),
    ensures
        s.map_values(f).to_multiset() == t.map_values(f).to_multiset(),
    decreases s.len(),
{
    broadcast use vstd::seq_lib::group_to_multiset_ensures;

    assert(s.len() == s.to_multiset().len());
    assert(t.len() == t.to_multiset().len());
    if s.len() == 0 {
        assert(s.map_values(f) =~= t.map_values(f));
    } else {
        let x = s.last();
        assert(s.contains(x));
        assert(t.to_multiset().count(x) > 0);
        let j = choose|j: int| 0 <= j < t.len() && t[j] == x;
        let last = s.len() - 1;
        let rest = t.remove(j);
        assert(s.drop_last() =~= s.remove(last));
        assert(s.remove(last).to_multiset() =~= rest.to_multiset());
        lemma_multiset_mapped(s.drop_last(), rest, f);
        assert(s.map_values(f).remove(last) =~= s.drop_last().map_values(f));
        assert(t.map_values(f).remove(j) =~= rest.map_values(f));
        assert(s.map_values(f)[last] == t.map_values(f)[j]);
        assert(s.map_values(f) =~= s.map_values(f).remove(last).push(f(x)));
        assert(s.map_values(f).to_multiset() =~= s.map_values(f).remove(last).to_multiset().insert(
            f(x),
        ));
        assert(t.map_values(f).contains(f(x)));
        assert(t.map_values(f).to_multiset() =~= t.map_values(f).remove(j).to_multiset().insert(
            f(x),
        ));
    }
}

/// A function applied to each element before or after the sequences are joined
/// gives the same.
proof fn lemma_flatten_mapped<A, B>(sequences: Seq<Seq<A>>, f: spec_fn(A) -> B)
    ensures
        sequences.map_values(|s: Seq<A>| s.map_values(f)).flatten()
            == sequences.flatten().map_values(f),
    decreases sequences.len(),
{
    let mapped = sequences.map_values(|s: Seq<A>| s.map_values(f));
    if sequences.len() > 0 {
        lemma_flatten_mapped(sequences.drop_first(), f);
        assert(mapped.drop_first() =~= sequences.drop_first().map_values(
            |s: Seq<A>| s.map_values(f),
        ));
        assert(mapped.flatten() =~= sequences.flatten().map_values(f));
    } else {
        assert(mapped.flatten() =~= sequences.flatten().map_values(f));
    }
}

/// The joined sequences hold the elements that occur in some of them.
pub proof fn lemma_flatten_elements<A>(sequences: Seq<Seq<A>>)
    ensures
        sequences.flatten().to_set() == elements_of(sequences),
    decreases sequences.len(),
{
    if sequences.len() > 0 {
        let head = sequences.first();
        let rest = sequences.drop_first();
        lemma_flatten_elements(rest);
        assert forall|e: A| #[trigger] sequences.flatten().contains(e) <==> elements_of(
            sequences,
        ).contains(e) by {
            let flat = head + rest.flatten();
            if flat.contains(e) {
                let i = choose|i: int| 0 <= i < flat.len() && flat[i] == e;
                if i < head.len() {
                    assert(sequences[0].contains(e));
                } else {
                    assert(rest.flatten()[i - head.len()] == e);
                    assert(rest.flatten().to_set().contains(e));
                    let r = choose|r: int| 0 <= r < rest.len() && (#[trigger] rest[r]).contains(e);
                    assert(sequences[r + 1].contains(e));
                }
            }
            if elements_of(sequences).contains(e) {
                let r = choose|r: int|
                    0 <= r < sequences.len() && (#[trigger] sequences[r]).contains(e);
                if r == 0 {
                    let i = choose|i: int| 0 <= i < head.len() && head[i] == e;
                    assert(flat[i] == e);
                } else {
                    assert(rest[r - 1].contains(e));
                    assert(rest.flatten().to_set().contains(e));
                    let i = choose|i: int| 0 <= i < rest.flatten().len() && rest.flatten()[i] == e;
                    assert(flat[head.len() + i] == e);
                }
            }
        }
    }
    assert(sequences.flatten().to_set() =~= elements_of(sequences));
}

/// Merges the items that were read from segments. The result holds every item
/// as often as the reads do, and is in order if each read is.
pub fn merge_items(reads: &Vec<Vec<Item>>, direction: Direction) -> (merged: Vec<Item>)
    ensures
        merged@ == merged_items(seq_view(reads@), direction),
        merged@.to_multiset() == seq_view(reads@).flatten().to_multiset(),
        (forall|i: int|
            0 <= i < reads@.len() ==> sorted_by((#[trigger] reads@[i])@, item_order(direction)))
            ==> sorted_by(merged@, item_order(direction)),
{
    let ghost to_key = |item: Item| key_of_item(item);
    let ghost to_item = |key: Key| item_of_key(key);
    let ghost views = seq_view(reads@);
    let mut keyed: Vec<Vec<Key>> = Vec::new();
    let mut i: usize = 0;
    while i < reads.len()
        invariant
            i <= reads@.len(),
            keyed@.len() == i,
            to_key == (|item: Item| key_of_item(item)),
            forall|r: int|
                0 <= r < i ==> (#[trigger] keyed@[r])@ == reads@[r]@.map_values(to_key),
        decreases reads@.len() - i,
    {
        keyed.push(item_keys(&reads[i]));
        i += 1;
    }
    let ascending = direction == Direction::Asc;
    let ghost keyed_views = seq_view(keyed@);
    assert(keyed_views =~= views.map_values(|read: Seq<Item>| read.map_values(to_key)));
    let merged = kmerge(keyed, ascending);
    let items = key_items(&merged);
    proof {
        lemma_flatten_mapped(views, to_key);
        lemma_multiset_mapped(merged@, keyed_views.flatten(), to_item);
        let flat = views.flatten();
        assert(flat.map_values(to_key).map_values(to_item) =~= flat) by {
            assert forall|t: int| 0 <= t < flat.len() implies flat.map_values(to_key).map_values(
                to_item,
            )[t] == flat[t] by {
                lemma_round_trip(flat[t]);
            }
        }
        assert(items@.to_multiset() == flat.to_multiset());
        let le = item_order(direction);
        if forall|r: int| 0 <= r < reads@.len() ==> sorted_by((#[trigger] reads@[r])@, le) {
            assert forall|r: int| 0 <= r < keyed@.len() implies keys_in_order(
                ascending,
                (#[trigger] keyed@[r])@,
            ) by {
                assert(sorted_by(reads@[r]@, le));
                assert forall|a: int, b: int| 0 <= a < b < keyed@[r]@.len() implies key_precedes(
                    ascending,
                    #[trigger] keyed@[r]@[a],
                    #[trigger] keyed@[r]@[b],
                ) by {
                    assert(le(reads@[r]@[a], reads@[r]@[b]));
                }
            }
            assert(keys_in_order(ascending, merged@));
            assert forall|t: int| 0 <= t < merged@.len() implies #[trigger] merged@[t]
                == key_of_item(items@[t]) by {
                broadcast use vstd::seq_lib::group_to_multiset_ensures;

                assert(merged@.contains(merged@[t]));
                assert(keyed_views.flatten().to_multiset().count(merged@[t]) > 0);
                assert(keyed_views.flatten().contains(merged@[t]));
                let u = choose|u: int|
                    0 <= u < keyed_views.flatten().len() && keyed_views.flatten()[u] == merged@[t];
                lemma_round_trip(flat[u]);
            }
            assert forall|a: int, b: int| 0 <= a < b < items@.len() implies #[trigger] le(
                items@[a],
                items@[b],
            ) by {
                assert(key_precedes(ascending, merged@[a], merged@[b]));
            }
        }
    }
    items
}

/// Removing repeats removes no element altogether.
pub proof fn lemma_without_repeats_elements<A>(elements: Seq<A>)
    ensures
        forall|e: A| #[trigger] without_repeats(elements).contains(e) <==> elements.contains(e),
        elements.len() > 0 ==> without_repeats(elements).len() > 0
            && without_repeats(elements).last() == elements.last(),
    decreases elements.len(),
{
    if elements.len() > 1 {
        let rest = elements.drop_last();
        let kept = without_repeats(rest);
        let last = elements.last();
        lemma_without_repeats_elements(rest);
        assert forall|e: A| #[trigger]
            without_repeats(elements).contains(e) <==> elements.contains(e) by {
            assert(kept.contains(e) <==> rest.contains(e));
            if elements.contains(e) {
                let i = choose|i: int| 0 <= i < elements.len() && elements[i] == e;
                if i < rest.len() {
                    assert(rest[i] == e);
                }
            }
            if rest.contains(e) {
                let i = choose|i: int| 0 <= i < rest.len() && rest[i] == e;
                assert(elements[i] == e);
                let j = choose|j: int| 0 <= j < kept.len() && kept[j] == e;
                assert(kept.push(last)[j] == e);
            }
            assert(kept.push(last)[kept.len() as int] == last);
            assert(elements[elements.len() - 1] == last);
            assert(rest[rest.len() - 1] == elements[elements.len() - 2]);
        }
    }
}

/// The first `limit` items once repeats are removed: their values, and their
/// ids.
pub fn first_distinct(merged: &Vec<Item>, limit: usize) -> (page: (
    Vec<OrderValue>,
    Vec<ExtendedPointId>,
))
    ensures
        page.0@ == values_of_items(first(without_repeats(merged@), limit as nat)),
        page.1@ == ids_of_items(first(without_repeats(merged@), limit as nat)),
{
    let ghost to_key = |item: Item| key_of_item(item);
    let keys = dedup(item_keys(merged));
    let ghost distinct = without_repeats(merged@);
    proof {
        assert forall|a: Item, b: Item| #[trigger] to_key(a) == #[trigger] to_key(b) implies a
            == b by {
            lemma_round_trip(a);
            lemma_round_trip(b);
        }
        lemma_without_repeats_mapped(merged@, to_key);
        assert forall|t: int| 0 <= t < keys@.len() implies #[trigger] item_of_key(keys@[t])
            == distinct[t] by {
            lemma_round_trip(distinct[t]);
        }
    }
    let mut values: Vec<OrderValue> = Vec::new();
    let mut ids: Vec<ExtendedPointId> = Vec::new();
    let mut n: usize = 0;
    while n < keys.len() && n < limit
        invariant
            n <= keys@.len(),
            n <= limit,
            keys@.len() == distinct.len(),
            forall|t: int|
                0 <= t < keys@.len() ==> #[trigger] item_of_key(keys@[t]) == distinct[t],
            values@.len() == n,
            ids@.len() == n,
            forall|t: int| 0 <= t < n ==> values@[t] == (#[trigger] distinct[t]).0,
            forall|t: int| 0 <= t < n ==> ids@[t] == (#[trigger] distinct[t]).1,
        decreases keys@.len() - n,
    {
        let (value, id) = key_item(&keys[n]);
        values.push(value);
        ids.push(id);
        n += 1;
    }
    assert(values@ =~= values_of_items(first(distinct, limit as nat)));
    assert(ids@ =~= ids_of_items(first(distinct, limit as nat)));
    (values, ids)
}

/// Whether the items of a page were read, and all that were read are on it
/// unless it is full.
pub open spec fn is_read_page(page: Seq<Item>, reads: Seq<Seq<Item>>, limit: nat) -> bool {
    &&& page.len() <= limit
    &&& forall|t: int| 0 <= t < page.len() ==> elements_of(reads).contains(#[trigger] page[t])
    &&& forall|item: Item| #[trigger]
        elements_of(reads).contains(item) ==> page.contains(item) || page.len() == limit
}

/// Merges the items that were read from segments into a page: the first `limit`
/// items of the merged reads once repeats are removed. They were read, and all
/// that were read are among them unless the page is full. If each read is in
/// order, these are the first `limit` distinct items of all.
pub fn merge_ordered(reads: &Vec<Vec<Item>>, direction: Direction, limit: usize) -> (page: (
    Vec<OrderValue>,
    Vec<ExtendedPointId>,
))
    ensures
        page.0@ == values_of_items(
            first(without_repeats(merged_items(seq_view(reads@), direction)), limit as nat),
        ),
        page.1@ == ids_of_items(
            first(without_repeats(merged_items(seq_view(reads@), direction)), limit as nat),
        ),
        (forall|i: int|
            0 <= i < reads@.len() ==> sorted_by((#[trigger] reads@[i])@, item_order(direction)))
            ==> first(
            without_repeats(merged_items(seq_view(reads@), direction)),
            limit as nat,
        ) == page_of_items(seq_view(reads@), direction, limit as nat),
        is_read_page(
            first(without_repeats(merged_items(seq_view(reads@), direction)), limit as nat),
            seq_view(reads@),
            limit as nat,
        ),
{
    let merged = merge_items(reads, direction);
    proof {
        let le = item_order(direction);
        let all = elements_of(seq_view(reads@));
        lemma_total_orders();
        lemma_flatten_elements(seq_view(reads@));
        assert(merged@.to_set() =~= all) by {
            broadcast use vstd::seq_lib::group_to_multiset_ensures;

            let flat = seq_view(reads@).flatten();
            assert forall|item: Item| merged@.contains(item) <==> flat.contains(item) by {
                assert(merged@.to_multiset().count(item) == flat.to_multiset().count(item));
            }
            assert(flat.to_set() == all);
            assert forall|item: Item| merged@.contains(item) <==> all.contains(item) by {
                assert(flat.contains(item) <==> flat.to_set().contains(item));
            }
        }
        let kept = without_repeats(merged@);
        let page = first(kept, limit as nat);
        lemma_without_repeats_elements(merged@);
        assert forall|item: Item| #[trigger] kept.contains(item) <==> all.contains(item) by {
            assert(merged@.contains(item) <==> merged@.to_set().contains(item));
        }
        assert forall|t: int| 0 <= t < page.len() implies all.contains(#[trigger] page[t]) by {
            assert(kept[t] == page[t]);
            assert(kept.contains(kept[t]));
        }
        if sorted_by(merged@, le) {
            lemma_without_repeats(le, merged@);
            assert(is_arranged(le, all, without_repeats(merged@)));
            lemma_arranged_unique(le, without_repeats(merged@), arranged(le, all));
        }
    }
    first_distinct(&merged, limit)
}

} // verus!
