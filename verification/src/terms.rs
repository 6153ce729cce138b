//! Words in which laws are stated: comparisons and choices of places, told
//! apart by nothing but numbers and kinds.
use crate::order::{Direction, Item};
use crate::point::ExtendedPointId;
use vstd::prelude::*;

verus! {

/// Whether the id `a` comes before the id `b`: numbers come before UUIDs, and
/// each kind is ordered by value.
pub open spec fn id_before(a: ExtendedPointId, b: ExtendedPointId) -> bool {
    match (a, b) {
        (ExtendedPointId::NumId(x), ExtendedPointId::NumId(y)) => x < y,
        (ExtendedPointId::NumId(_), ExtendedPointId::Uuid(_)) => true,
        (ExtendedPointId::Uuid(_), ExtendedPointId::NumId(_)) => false,
        (ExtendedPointId::Uuid(x), ExtendedPointId::Uuid(y)) => x < y,
    }
}

/// Whether the item `a` comes before the item `b` in ascending order: its value
/// is smaller, or the values are equal and its id comes before.
pub open spec fn item_before(a: Item, b: Item) -> bool {
    a.0.rank < b.0.rank || (a.0.rank == b.0.rank && id_before(a.1, b.1))
}

/// Whether the item `a` comes before the item `b` in the given direction.
pub open spec fn comes_before(direction: Direction, a: Item, b: Item) -> bool {
    match direction {
        Direction::Asc => item_before(a, b),
        Direction::Desc => item_before(b, a),
    }
}

/// Whether no item comes before one that stands before it.
pub open spec fn in_turn(direction: Direction, items: Seq<Item>) -> bool {
    forall|i: int, j: int|
        0 <= i < j < items.len() ==> !comes_before(
            direction,
            #[trigger] items[j],
            #[trigger] items[i],
        )
}

/// Whether some of the reads holds `element`.
pub open spec fn was_read<A>(reads: Seq<Vec<A>>, element: A) -> bool {
    exists|r: int| 0 <= r < reads.len() && (#[trigger] reads[r])@.contains(element)
}

/// Whether `at` lists the wanted ones of the first `len` places, in ascending
/// order.
pub open spec fn picks(at: Seq<int>, len: nat, wanted: spec_fn(int) -> bool) -> bool {
    &&& forall|j: int| 0 <= j < at.len() ==> 0 <= #[trigger] at[j] < len && wanted(at[j])
    &&& forall|i: int, j: int| 0 <= i < j < at.len() ==> #[trigger] at[i] < #[trigger] at[j]
    &&& forall|i: int| 0 <= i < len && #[trigger] wanted(i) ==> at.contains(i)
}

/// One more place is listed if it is wanted.
pub proof fn lemma_picks_one_more(
    at: Seq<int>,
    len: nat,
    before: spec_fn(int) -> bool,
    wanted: spec_fn(int) -> bool,
)
    requires
        picks(at, len, before),
        forall|i: int| 0 <= i < len ==> #[trigger] before(i) == wanted(i),
    ensures
        wanted(len as int) ==> picks(at.push(len as int), len + 1, wanted),
        !wanted(len as int) ==> picks(at, len + 1, wanted),
{
    let n = len as int;
    assert forall|j: int| 0 <= j < at.len() implies 0 <= #[trigger] at[j] < len && wanted(at[j]) by {
        assert(before(at[j]));
    }
    if wanted(n) {
        let more = at.push(n);
        assert forall|i: int| 0 <= i < len + 1 && #[trigger] wanted(i) implies more.contains(i) by {
            if i < len {
                assert(before(i));
                let j = choose|j: int| 0 <= j < at.len() && at[j] == i;
                assert(more[j] == i);
            } else {
                assert(more[at.len() as int] == i);
            }
        }
        assert forall|i: int, j: int| 0 <= i < j < more.len() implies #[trigger] more[i]
            < #[trigger] more[j] by {
            assert(more[i] == at[i]);
            if j < at.len() {
                assert(more[j] == at[j]);
            }
        }
        assert forall|j: int| 0 <= j < more.len() implies 0 <= #[trigger] more[j] < len + 1
            && wanted(more[j]) by {
            if j < at.len() {
                assert(more[j] == at[j]);
            }
        }
    } else {
        assert forall|i: int| 0 <= i < len + 1 && #[trigger] wanted(i) implies at.contains(i) by {
            assert(before(i));
        }
    }
}

/// The sum of numbers.
pub open spec fn sum_of(numbers: Seq<usize>) -> nat
    decreases numbers.len(),
{
    if numbers.len() == 0 {
        0
    } else {
        numbers[0] as nat + sum_of(numbers.skip(1))
    }
}

/// A number at the end adds to the sum.
pub proof fn lemma_sum_push(numbers: Seq<usize>, number: usize)
    ensures
        sum_of(numbers.push(number)) == sum_of(numbers) + number,
    decreases numbers.len(),
{
    let more = numbers.push(number);
    if numbers.len() == 0 {
        assert(more.skip(1) =~= Seq::empty());
        assert(numbers =~= Seq::empty());
    } else {
        lemma_sum_push(numbers.skip(1), number);
        assert(more.skip(1) =~= numbers.skip(1).push(number));
    }
}

/// Whether `next` is the first place after `place`, going round, that is not
/// closed.
pub open spec fn next_open(closed: Seq<bool>, place: int, next: int) -> bool {
    &&& 0 <= next < closed.len()
    &&& !closed[next]
    &&& place < next ==> forall|i: int| place < i < next ==> #[trigger] closed[i]
    &&& next <= place ==> forall|i: int|
        (place < i < closed.len() || 0 <= i < next) ==> #[trigger] closed[i]
}

} // verus!
