//! Records by the ids of their points.
use crate::assoc::{
    distinct, has_key, lemma_entry, lemma_len, lemma_push, lemma_update, lists_values, map_of,
};
use crate::point::{ExtendedPointId, Record, RecordView};
use crate::views::{option_view, seq_view};
use vstd::prelude::*;

verus! {

/// The records that were found, at most one for each id.
#[derive(Debug)]
pub struct RecordMap {
    records: Vec<(ExtendedPointId, Record)>,
}

impl View for RecordMap {
    type V = Map<ExtendedPointId, RecordView>;

    closed spec fn view(&self) -> Map<ExtendedPointId, RecordView> {
        map_of(self.entries())
    }
}

/// The records that were found for `ids`, in the order of the ids. Ids without
/// a record are passed over.
pub open spec fn found_records(
    ids: Seq<ExtendedPointId>,
    records: Map<ExtendedPointId, RecordView>,
) -> Seq<RecordView> {
    ids.filter(|id: ExtendedPointId| records.contains_key(id)).map_values(
        |id: ExtendedPointId| records[id],
    )
}

/// One more id adds its record, if there is one.
pub proof fn lemma_found_records(
    ids: Seq<ExtendedPointId>,
    id: ExtendedPointId,
    records: Map<ExtendedPointId, RecordView>,
)
    ensures
        found_records(Seq::empty(), records) == Seq::<RecordView>::empty(),
        found_records(ids.push(id), records) == if records.contains_key(id) {
            found_records(ids, records).push(records[id])
        } else {
            found_records(ids, records)
        },
{
    reveal(Seq::filter);
    assert(ids.push(id).drop_last() =~= ids);
    assert(found_records(Seq::empty(), records) =~= Seq::empty());
    assert(found_records(ids.push(id), records) =~= if records.contains_key(id) {
        found_records(ids, records).push(records[id])
    } else {
        found_records(ids, records)
    });
}

impl RecordMap {
    closed spec fn entries(&self) -> Seq<(ExtendedPointId, RecordView)> {
        self.records@.map_values(|entry: (ExtendedPointId, Record)| (entry.0, entry.1@))
    }

    /// No two records stand under the same id.
    pub closed spec fn wf(&self) -> bool {
        distinct(self.entries())
    }

    /// A map without records.
    pub fn new() -> (records: RecordMap)
        ensures
            records.wf(),
            records@ == Map::<ExtendedPointId, RecordView>::empty(),
    {
        let records = RecordMap { records: Vec::new() };
        assert(records@ =~= Map::empty());
        records
    }

    /// Where the record for `id` is stored, if there is one.
    fn position(&self, id: ExtendedPointId) -> (position: Option<usize>)
        requires
            self.wf(),
        ensures
            position is Some <==> has_key(self.entries(), id),
            position is Some <==> self@.contains_key(id),
            position matches Some(i) ==> i < self.records@.len() && self.records@[i as int].0 == id,
    {
        let mut i: usize = 0;
        while i < self.records.len()
            invariant
                i <= self.records@.len(),
                forall|j: int| 0 <= j < i ==> (#[trigger] self.records@[j]).0 != id,
            decreases self.records@.len() - i,
        {
            if self.records[i].0 == id {
                assert(self.entries()[i as int].0 == id);
                return Some(i);
            }
            i += 1;
        }
        assert forall|j: int| 0 <= j < self.entries().len() implies (#[trigger] self.entries()[j]).0
            != id by {
            assert(self.records@[j].0 != id);
        }
        None
    }

    /// Puts a record under `id`, in the place of the one that is there, which
    /// is returned.
    pub fn insert(&mut self, id: ExtendedPointId, record: Record) -> (replaced: Option<Record>)
        requires
            old(self).wf(),
        ensures
            final(self).wf(),
            final(self)@ == old(self)@.insert(id, record@),
            option_view(replaced) == if old(self)@.contains_key(id) {
                Some(old(self)@[id])
            } else {
                None
            },
    {
        let ghost before = self.entries();
        match self.position(id) {
            Some(i) => {
                proof {
                    lemma_entry(before, i as int);
                    lemma_update(before, i as int, record@);
                }
                let mut place = record;
                std::mem::swap(&mut self.records[i].1, &mut place);
                assert(self.entries() =~= before.update(i as int, (id, record@)));
                Some(place)
            },
            None => {
                proof {
                    lemma_push(before, id, record@);
                }
                self.records.push((id, record));
                assert(self.entries() =~= before.push((id, record@)));
                None
            },
        }
    }

    /// The record for `id`.
    pub fn get(&self, id: ExtendedPointId) -> (record: Option<&Record>)
        requires
            self.wf(),
        ensures
            record is Some <==> self@.contains_key(id),
            record matches Some(record) ==> record@ == self@[id],
    {
        match self.position(id) {
            Some(i) => {
                proof {
                    lemma_entry(self.entries(), i as int);
                }
                Some(&self.records[i].1)
            },
            None => None,
        }
    }

    /// The records for `ids`, in the order of the ids. Ids without a record are
    /// passed over.
    pub fn in_order_of(&self, ids: &Vec<ExtendedPointId>) -> (records: Vec<Record>)
        requires
            self.wf(),
        ensures
            seq_view(records@) == found_records(ids@, self@),
    {
        let mut records: Vec<Record> = Vec::new();
        let mut i: usize = 0;
        proof {
            assert(ids@.take(0) =~= Seq::empty());
            lemma_found_records(Seq::empty(), ExtendedPointId::NumId(0), self@);
            assert(seq_view(records@) =~= Seq::empty());
        }
        while i < ids.len()
            invariant
                self.wf(),
                i <= ids@.len(),
                seq_view(records@) == found_records(ids@.take(i as int), self@),
            decreases ids@.len() - i,
        {
            let id = ids[i];
            let ghost before = records@;
            proof {
                lemma_found_records(ids@.take(i as int), id, self@);
                assert(ids@.take(i + 1) =~= ids@.take(i as int).push(id));
            }
            if let Some(record) = self.get(id) {
                records.push(record.clone());
                assert(seq_view(records@) =~= seq_view(before).push(self@[id]));
            }
            i += 1;
        }
        assert(ids@.take(i as int) =~= ids@);
        records
    }

    /// The records, in no particular order.
    pub fn into_values(self) -> (records: Vec<Record>)
        requires
            self.wf(),
        ensures
            lists_values(seq_view(records@), self@),
    {
        proof {
            lemma_len(self.entries());
        }
        let mut records: Vec<Record> = Vec::new();
        let mut i: usize = 0;
        while i < self.records.len()
            invariant
                i <= self.records@.len(),
                records@.len() == i,
                forall|j: int| 0 <= j < i ==> #[trigger] records@[j]@ == self.records@[j].1@,
            decreases self.records@.len() - i,
        {
            records.push(self.records[i].1.clone());
            i += 1;
        }
        assert(seq_view(records@) =~= self.entries().map_values(
            |entry: (ExtendedPointId, RecordView)| entry.1,
        ));
        records
    }
}

} // verus!
