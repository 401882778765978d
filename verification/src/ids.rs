//! Fresh identifiers for the objects of a source document.

use crate::document::{ids_increasing, id_less, table_ids, PdfDocument, TableView};
use crate::object::ObjectId;
use std::collections::HashMap;
use vstd::prelude::*;

verus! {

/// The new identifiers of a sequence of old ones, given out from the number
/// `start` on in the order of the sequence, all of generation 0.
pub open spec fn assigned(ids: Seq<ObjectId>, start: int) -> Map<ObjectId, ObjectId> {
    Map::new(
        |id: ObjectId| ids.contains(id),
        |id: ObjectId| ((start + ids.index_of(id)) as u32, 0u16),
    )
}

/// The identifiers of a table with increasing identifiers are all different.
pub proof fn lemma_table_ids_distinct(t: TableView)
    requires
        ids_increasing(t),
    ensures
        table_ids(t).no_duplicates(),
        table_ids(t).len() == t.len(),
        forall|i: int| 0 <= i < t.len() ==> table_ids(t).index_of(#[trigger] t[i].0) == i,
{
    let ids = table_ids(t);
    assert forall|i: int, j: int| 0 <= i < ids.len() && 0 <= j < ids.len() && i != j implies ids[i]
        != ids[j] by {
        if i < j {
            assert(id_less(t[i].0, t[j].0));
        } else {
            assert(id_less(t[j].0, t[i].0));
        }
    }
    assert forall|i: int| 0 <= i < t.len() implies ids.index_of(#[trigger] t[i].0) == i by {
        assert(ids[i] == t[i].0);
        let k = ids.index_of(t[i].0);
        assert(0 <= k < ids.len() && ids[k] == t[i].0);
    }
}

/// The number under which an identifier is filed.
pub open spec fn key_of(id: ObjectId) -> u64 {
    (id.0 * 65536 + id.1) as u64
}

/// A mapping from old identifiers to new ones of generation 0.
#[derive(Debug)]
pub struct IdMap {
    numbers: HashMap<u64, u32>,
}

impl View for IdMap {
    type V = Map<ObjectId, ObjectId>;

    closed spec fn view(&self) -> Map<ObjectId, ObjectId> {
        Map::new(
            |id: ObjectId| self.numbers@.contains_key(key_of(id)),
            |id: ObjectId| (self.numbers@[key_of(id)], 0u16),
        )
    }
}

fn file_key(id: ObjectId) -> (k: u64)
    ensures
        k == key_of(id),
{
    (id.0 as u64) * 65536 + (id.1 as u64)
}

impl IdMap {
    /// The empty mapping.
    pub fn new() -> (m: IdMap)
        ensures
            m@ == Map::<ObjectId, ObjectId>::empty(),
    {
        let m = IdMap { numbers: HashMap::new() };
        assert(m@ =~= Map::<ObjectId, ObjectId>::empty());
        m
    }

    /// Maps `old_id` to the identifier `(number, 0)`.
    pub fn insert(&mut self, old_id: ObjectId, number: u32)
        ensures
            final(self)@ == old(self)@.insert(old_id, (number, 0u16)),
    {
        self.numbers.insert(file_key(old_id), number);
        assert(self@ =~= old(self)@.insert(old_id, (number, 0u16)));
    }

    /// The new identifier of `old_id`, where it has one.
    pub fn get(&self, old_id: ObjectId) -> (r: Option<ObjectId>)
        ensures
            r == (if self@.contains_key(old_id) {
                Some(self@[old_id])
            } else {
                None
            }),
    {
        let key = file_key(old_id);
        match self.numbers.get(&key) {
            Some(number) => Some((*number, 0)),
            None => None,
        }
    }

    /// Gives the objects of `document` the identifiers `(start, 0)`,
    /// `(start + 1, 0)` and so on, in the order of its table. Returns the
    /// mapping from the old identifiers to these, and the next free number;
    /// `None` where the numbers do not reach that far.
    pub fn allocate(document: &PdfDocument, start: u32) -> (r: Option<(IdMap, u32)>)
        ensures
            match r {
                Some((map, next)) => {
                    &&& next == start + document@.objects.len()
                    &&& map@ == assigned(table_ids(document@.objects), start as int)
                },
                None => start + document@.objects.len() > u32::MAX,
            },
    {
        let objects = document.objects();
        let ghost t = document@.objects;
        let ghost ids = table_ids(t);
        proof {
            lemma_table_ids_distinct(t);
        }
        if objects.len() > (u32::MAX - start) as usize {
            return None;
        }
        let mut map = IdMap::new();
        let mut next: u32 = start;
        let mut i: usize = 0;
        while i < objects.len()
            invariant
                t == crate::document::table_view(objects@),
                ids == table_ids(t),
                ids.no_duplicates(),
                ids.len() == t.len(),
                forall|k: int| 0 <= k < t.len() ==> ids.index_of(#[trigger] t[k].0) == k,
                i <= objects@.len(),
                start + objects@.len() <= u32::MAX,
                next == start + i,
                map@ == assigned(ids.take(i as int), start as int),
            decreases objects@.len() - i,
        {
            let old_id: ObjectId = objects[i].0;
            map.insert(old_id, next);
            proof {
                let before = ids.take(i as int);
                let after = ids.take(i + 1);
                assert(ids[i as int] == old_id);
                assert(t[i as int].0 == old_id);
                assert(after =~= before.push(old_id));
                assert forall|id: ObjectId| after.contains(id) <==> (before.contains(id) || id
                    == old_id) by {
                    if before.contains(id) {
                        let k = before.index_of(id);
                        assert(after[k] == id);
                    }
                    if id == old_id {
                        assert(after[i as int] == id);
                    }
                    if after.contains(id) {
                        let k = after.index_of(id);
                        if k < i {
                            assert(before[k] == id);
                        }
                    }
                }
                assert forall|id: ObjectId| after.contains(id) implies after.index_of(id) == (if id
                    == old_id {
                    i as int
                } else {
                    before.index_of(id)
                }) by {
                    let k = after.index_of(id);
                    assert(ids[k] == id);
                    if id == old_id {
                        assert(ids[i as int] == id);
                    } else {
                        let b = before.index_of(id);
                        assert(before[b] == id);
                        assert(ids[b] == id);
                    }
                }
                assert(map@ =~= assigned(after, start as int));
            }
            next = next + 1;
            i += 1;
        }
        proof {
            assert(ids.take(objects@.len() as int) =~= ids);
        }
        Some((map, next))
    }
}

} // verus!
