//! Copying the objects of a source document into a target document under
//! fresh identifiers.

use crate::document::{table_ids, table_view, with_objects, DocumentView, PdfDocument, TableView};
use crate::error::MergeError;
use crate::ids::{assigned, IdMap};
use crate::object::{ObjectId, ObjectView, PdfObject};
use crate::remap::{remap_object_references, remapped, resolves};
use vstd::prelude::*;

verus! {

/// Whether every reference in every object of a table points to an
/// identifier of the table.
pub open spec fn closed_table(t: TableView) -> bool {
    forall|j: int| 0 <= j < t.len() ==> resolves((#[trigger] t[j]).1, table_ids(t).to_set())
}

/// The copies of the objects of a table: the object at place `j` under the
/// identifier `(start + j, 0)`, its references rewritten to the new
/// identifiers.
pub open spec fn copied(t: TableView, start: int) -> TableView {
    Seq::new(
        t.len(),
        |j: int| (((start + j) as u32, 0u16), remapped(t[j].1, assigned(table_ids(t), start))),
    )
}

/// What a failed copy of a table from the number `start` on reports.
pub open spec fn copy_failure(t: TableView, start: int) -> MergeError {
    if start + t.len() > u32::MAX {
        MergeError::TooManyObjects
    } else {
        MergeError::DanglingReferenceAfterMerge
    }
}

/// Copies every object of `source` into `target`, under the identifiers
/// `(start_id, 0)`, `(start_id + 1, 0)` and so on in the order of the source
/// table, with every reference rewritten to the new identifiers. Returns the
/// mapping from the old identifiers to the new ones.
///
/// Fails, and leaves `target` as it was, where the numbers do not reach that
/// far or where an object of `source` refers to an identifier that `source`
/// does not hold.
pub fn copy_all_objects(source: &PdfDocument, target: &mut PdfDocument, start_id: u32) -> (r:
    Result<IdMap, MergeError>)
    ensures
        match r {
            Ok(map) => {
                &&& start_id + source@.objects.len() <= u32::MAX
                &&& closed_table(source@.objects)
                &&& map@ == assigned(table_ids(source@.objects), start_id as int)
                &&& final(target)@ == (DocumentView {
                    objects: with_objects(
                        old(target)@.objects,
                        copied(source@.objects, start_id as int),
                    ),
                    ..old(target)@
                })
            },
            Err(e) => {
                &&& final(target)@ == old(target)@
                &&& start_id + source@.objects.len() > u32::MAX || !closed_table(source@.objects)
                &&& e == copy_failure(source@.objects, start_id as int)
            },
        },
{
    let map = match IdMap::allocate(source, start_id) {
        Some((map, _)) => map,
        None => {
            return Err(MergeError::TooManyObjects);
        },
    };
    let objects = source.objects();
    let ghost t = source@.objects;
    let ghost ids = table_ids(t);
    let ghost all = copied(t, start_id as int);
    proof {
        assert(map@.dom() =~= ids.to_set());
    }
    let mut copies: Vec<(ObjectId, PdfObject)> = Vec::with_capacity(objects.len());
    let mut i: usize = 0;
    while i < objects.len()
        invariant
            t == table_view(objects@),
            t == source@.objects,
            ids == table_ids(t),
            all == copied(t, start_id as int),
            map@ == assigned(ids, start_id as int),
            map@.dom() == ids.to_set(),
            start_id + objects@.len() <= u32::MAX,
            i <= objects@.len(),
            target == old(target),
            copies@.len() == i,
            table_view(copies@) == all.take(i as int),
            forall|k: int| 0 <= k < i ==> resolves((#[trigger] t[k]).1, ids.to_set()),
        decreases objects@.len() - i,
    {
        match remap_object_references(&objects[i].1, &map) {
            Ok(object) => {
                let number: u32 = start_id + i as u32;
                let ghost earlier = table_view(copies@);
                copies.push(((number, 0), object));
                proof {
                    assert(t[i as int].1 == objects@[i as int].1@);
                    let now = table_view(copies@);
                    assert forall|k: int| 0 <= k < i + 1 implies now[k] == all.take(i + 1)[k] by {
                        if k < i {
                            assert(now[k] == earlier[k]);
                            assert(earlier[k] == all.take(i as int)[k]);
                        }
                    }
                    assert(now =~= all.take(i + 1));
                }
            },
            Err(e) => {
                proof {
                    assert(t[i as int].1 == objects@[i as int].1@);
                }
                return Err(e);
            },
        }
        i += 1;
    }
    proof {
        assert(all.take(objects@.len() as int) =~= all);
    }
    let ghost before = target@;
    let ghost staged = copies@;
    proof {
        assert(all.take(0) =~= Seq::<(ObjectId, ObjectView)>::empty());
    }
    for entry in it: copies
        invariant
            it.seq() == staged,
            table_view(staged) == all,
            target@ == (DocumentView {
                objects: with_objects(before.objects, all.take(it.index() as int)),
                ..before
            }),
    {
        proof {
            let n = it.index() as int;
            assert(table_view(staged)[n] == all[n]);
            assert(all.take(n + 1).drop_last() =~= all.take(n));
            assert(all.take(n + 1).last() == all[n]);
        }
        target.insert_object(entry.0, entry.1);
    }
    proof {
        assert(all.take(staged.len() as int) =~= all);
    }
    Ok(map)
}

} // verus!
