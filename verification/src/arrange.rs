//! The elements of a set in order.
use crate::order::without_repeats;
use vstd::prelude::*;
use vstd::relations::{sorted_by, total_ordering};

verus! {

/// Whether each element comes before all that follow it.
pub open spec fn strictly_in_order<A>(le: spec_fn(A, A) -> bool, elements: Seq<A>) -> bool {
    forall|i: int, j: int|
        0 <= i < j < elements.len() ==> #[trigger] le(elements[i], elements[j]) && elements[i]
            != elements[j]
}

/// The elements of a set in order.
pub open spec fn arranged<A>(le: spec_fn(A, A) -> bool, elements: Set<A>) -> Seq<A> {
    choose|arranged: Seq<A>| is_arranged(le, elements, arranged)
}

/// Whether `arranged` holds the elements of a set in order, each once.
pub open spec fn is_arranged<A>(
    le: spec_fn(A, A) -> bool,
    elements: Set<A>,
    arranged: Seq<A>,
) -> bool {
    strictly_in_order(le, arranged) && arranged.to_set() == elements
}

/// The first `limit` elements, or all if there are fewer.
pub open spec fn first<A>(elements: Seq<A>, limit: nat) -> Seq<A> {
    if elements.len() <= limit {
        elements
    } else {
        elements.take(limit as int)
    }
}

/// Without its repeats, a sequence that is in order is strictly in order.
pub proof fn lemma_without_repeats<A>(le: spec_fn(A, A) -> bool, elements: Seq<A>)
    requires
        total_ordering(le),
        sorted_by(elements, le),
    ensures
        strictly_in_order(le, without_repeats(elements)),
        without_repeats(elements).to_set() == elements.to_set(),
        elements.len() > 0 ==> without_repeats(elements).len() > 0
            && without_repeats(elements).last() == elements.last(),
    decreases elements.len(),
{
    broadcast use vstd::seq_lib::group_seq_properties;

    if elements.len() > 1 {
        let rest = elements.drop_last();
        let kept = without_repeats(rest);
        let last = elements.last();
        assert(sorted_by(rest, le)) by {
            assert forall|i: int, j: int| 0 <= i < j < rest.len() implies #[trigger] le(
                rest[i],
                rest[j],
            ) by {
                assert(le(elements[i], elements[j]));
            }
        }
        lemma_without_repeats(le, rest);
        assert(elements =~= rest.push(last));
        assert(elements.to_set() =~= rest.to_set().insert(last));
        if rest.last() == last {
            assert(rest.to_set().contains(rest.last()));
            assert(elements.to_set() =~= rest.to_set());
        } else {
            assert(kept.push(last).to_set() =~= kept.to_set().insert(last));
            assert forall|i: int, j: int| 0 <= i < j < kept.push(last).len() implies #[trigger] le(
                kept.push(last)[i],
                kept.push(last)[j],
            ) && kept.push(last)[i] != kept.push(last)[j] by {
                if j < kept.len() {
                    assert(le(kept[i], kept[j]));
                } else {
                    assert(le(rest.last(), last)) by {
                        assert(le(elements[elements.len() - 2], elements[elements.len() - 1]));
                    }
                    if i < kept.len() - 1 {
                        assert(le(kept[i], kept[kept.len() - 1]));
                    }
                    assert(le(kept[i], rest.last()));
                    assert(le(kept[i], last));
                    if kept[i] == last {
                        assert(le(last, rest.last()));
                        assert(false);
                    }
                }
            }
        }
    }
}

/// An injective function applied before or after removing repeats gives the
/// same.
pub proof fn lemma_without_repeats_mapped<A, B>(elements: Seq<A>, f: spec_fn(A) -> B)
    requires
        forall|a: A, b: A| #[trigger] f(a) == #[trigger] f(b) ==> a == b,
    ensures
        without_repeats(elements.map_values(f)) == without_repeats(elements).map_values(f),
    decreases elements.len(),
{
    let mapped = elements.map_values(f);
    if elements.len() > 1 {
        let n = elements.len() as int;
        lemma_without_repeats_mapped(elements.drop_last(), f);
        assert(mapped.drop_last() =~= elements.drop_last().map_values(f));
        assert(mapped[n - 1] == f(elements[n - 1]));
        assert(mapped[n - 2] == f(elements[n - 2]));
    }
    assert(without_repeats(mapped) =~= without_repeats(elements).map_values(f));
}

/// There is only one way to arrange a set.
pub proof fn lemma_arranged_unique<A>(le: spec_fn(A, A) -> bool, a: Seq<A>, b: Seq<A>)
    requires
        total_ordering(le),
        strictly_in_order(le, a),
        strictly_in_order(le, b),
        a.to_set() == b.to_set(),
    ensures
        a == b,
    decreases a.len(),
{
    broadcast use vstd::seq_lib::group_seq_properties;

    if a.len() == 0 {
        if b.len() > 0 {
            assert(b.to_set().contains(b[0]));
            assert(a.contains(b[0]));
        }
        assert(a =~= b);
    } else {
        assert(a.to_set().contains(a.last()));
        assert(b.contains(a.last()));
        assert(b.to_set().contains(b.last()));
        assert(a.contains(b.last()));
        let i = choose|i: int| 0 <= i < b.len() && b[i] == a.last();
        let j = choose|j: int| 0 <= j < a.len() && a[j] == b.last();
        if i < b.len() - 1 && j < a.len() - 1 {
            assert(le(b[i], b[b.len() - 1]));
            assert(le(a[j], a[a.len() - 1]));
        }
        assert(a.last() == b.last());
        let x = a.drop_last();
        let y = b.drop_last();
        assert forall|e: A| x.to_set().contains(e) implies y.to_set().contains(e) by {
            let k = choose|k: int| 0 <= k < x.len() && x[k] == e;
            assert(le(a[k], a[a.len() - 1]));
            assert(a[k] == e);
            assert(a.to_set().contains(e));
            let m = choose|m: int| 0 <= m < b.len() && b[m] == e;
            assert(y[m] == e);
        }
        assert forall|e: A| y.to_set().contains(e) implies x.to_set().contains(e) by {
            let k = choose|k: int| 0 <= k < y.len() && y[k] == e;
            assert(le(b[k], b[b.len() - 1]));
            assert(b[k] == e);
            assert(b.to_set().contains(e));
            let m = choose|m: int| 0 <= m < a.len() && a[m] == e;
            assert(x[m] == e);
        }
        assert(x.to_set() =~= y.to_set());
        assert forall|k: int, m: int| 0 <= k < m < x.len() implies #[trigger] le(x[k], x[m]) && x[k]
            != x[m] by {
            assert(le(a[k], a[m]));
        }
        assert forall|k: int, m: int| 0 <= k < m < y.len() implies #[trigger] le(y[k], y[m]) && y[k]
            != y[m] by {
            assert(le(b[k], b[m]));
        }
        lemma_arranged_unique(le, x, y);
        assert(a =~= x.push(a.last()));
        assert(b =~= y.push(b.last()));
    }
}

/// The elements of a sequence can be arranged.
pub proof fn lemma_arranged<A>(le: spec_fn(A, A) -> bool, elements: Seq<A>)
    requires
        total_ordering(le),
    ensures
        is_arranged(le, elements.to_set(), arranged(le, elements.to_set())),
{
    broadcast use vstd::seq_lib::group_to_multiset_ensures;

    let sorted = elements.sort_by(le);
    elements.lemma_sort_by_ensures(le);
    lemma_without_repeats(le, sorted);
    assert(sorted.to_set() =~= elements.to_set()) by {
        assert forall|e: A| elements.contains(e) <==> sorted.contains(e) by {
            assert(elements.to_multiset().count(e) == sorted.to_multiset().count(e));
        }
    }
    assert(is_arranged(le, elements.to_set(), without_repeats(sorted)));
}

} // verus!
