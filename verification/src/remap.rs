//! Rewriting the references of an object through a mapping of identifiers.

use crate::error::MergeError;
use crate::ids::IdMap;
use crate::object::{
    copy_bytes, DictionaryView, ObjectId, ObjectView, PdfDictionary, PdfObject,
};
use vstd::prelude::*;

verus! {

/// Whether every reference in `o`, at any depth, points to a member of `ids`.
pub open spec fn resolves(o: ObjectView, ids: Set<ObjectId>) -> bool
    decreases o,
{
    match o {
        ObjectView::Reference(id) => ids.contains(id),
        ObjectView::Array(items) => forall|i: int|
            0 <= i < items.len() ==> resolves(#[trigger] items[i], ids),
        ObjectView::Dictionary(d) => forall|i: int|
            0 <= i < d.len() ==> resolves((#[trigger] d[i]).1, ids),
        ObjectView::Stream(d, _) => forall|i: int|
            0 <= i < d.len() ==> resolves((#[trigger] d[i]).1, ids),
        _ => true,
    }
}

/// Whether every reference in the values of `d` points to a member of `ids`.
pub open spec fn entries_resolve(d: DictionaryView, ids: Set<ObjectId>) -> bool {
    forall|i: int| 0 <= i < d.len() ==> resolves((#[trigger] d[i]).1, ids)
}

/// `o` with every reference rewritten through `m`, at any depth: the same
/// kind of object, array items and dictionary entries in the same order,
/// keys, scalars and stream content unchanged. A reference that `m` does not
/// map is left as it is.
pub open spec fn remapped(o: ObjectView, m: Map<ObjectId, ObjectId>) -> ObjectView
    decreases o,
{
    match o {
        ObjectView::Reference(id) => ObjectView::Reference(
            if m.contains_key(id) {
                m[id]
            } else {
                id
            },
        ),
        ObjectView::Array(items) => ObjectView::Array(
            Seq::new(
                items.len(),
                |i: int|
                    if 0 <= i < items.len() {
                        remapped(items[i], m)
                    } else {
                        ObjectView::Null
                    },
            ),
        ),
        ObjectView::Dictionary(d) => ObjectView::Dictionary(
            Seq::new(
                d.len(),
                |i: int|
                    if 0 <= i < d.len() {
                        (d[i].0, remapped(d[i].1, m))
                    } else {
                        (Seq::empty(), ObjectView::Null)
                    },
            ),
        ),
        ObjectView::Stream(d, content) => ObjectView::Stream(
            Seq::new(
                d.len(),
                |i: int|
                    if 0 <= i < d.len() {
                        (d[i].0, remapped(d[i].1, m))
                    } else {
                        (Seq::empty(), ObjectView::Null)
                    },
            ),
            content,
        ),
        other => other,
    }
}

/// The entries of `d` with every reference in their values rewritten
/// through `m`.
pub open spec fn remapped_entries(d: DictionaryView, m: Map<ObjectId, ObjectId>) -> DictionaryView {
    Seq::new(d.len(), |i: int| (d[i].0, remapped(d[i].1, m)))
}

/// Returns a copy of `obj` in which every reference is rewritten through
/// `mapping`. Fails where `obj` holds a reference that `mapping` does not
/// map.
pub fn remap_object_references(obj: &PdfObject, mapping: &IdMap) -> (r: Result<
    PdfObject,
    MergeError,
>)
    ensures
        match r {
            Ok(o) => resolves(obj@, mapping@.dom()) && o@ == remapped(obj@, mapping@),
            Err(e) => !resolves(obj@, mapping@.dom()) && e
                == MergeError::DanglingReferenceAfterMerge,
        },
    decreases obj,
{
    match obj {
        PdfObject::Null => Ok(PdfObject::Null),
        PdfObject::Boolean(b) => Ok(PdfObject::Boolean(*b)),
        PdfObject::Integer(i) => Ok(PdfObject::Integer(*i)),
        PdfObject::Real(t) => Ok(PdfObject::Real(t.clone())),
        PdfObject::Name(n) => Ok(PdfObject::Name(copy_bytes(n.as_slice()))),
        PdfObject::String(s, f) => Ok(PdfObject::String(copy_bytes(s.as_slice()), *f)),
        PdfObject::Reference(id) => match mapping.get(*id) {
            Some(new_id) => Ok(PdfObject::Reference(new_id)),
            None => Err(MergeError::DanglingReferenceAfterMerge),
        },
        PdfObject::Array(items) => {
            let mut out: Vec<PdfObject> = Vec::with_capacity(items.len());
            let mut i: usize = 0;
            while i < items.len()
                invariant
                    obj == PdfObject::Array(*items),
                    i <= items@.len(),
                    out@.len() == i,
                    forall|k: int|
                        0 <= k < i ==> resolves(#[trigger] items@[k]@, mapping@.dom()),
                    forall|k: int|
                        0 <= k < i ==> (#[trigger] out@[k])@ == remapped(items@[k]@, mapping@),
                decreases items@.len() - i,
            {
                match remap_object_references(&items[i], mapping) {
                    Ok(item) => {
                        out.push(item);
                    },
                    Err(e) => {
                        proof {
                            let v = obj@->Array_0;
                            assert(v[i as int] == items@[i as int]@);
                        }
                        return Err(e);
                    },
                }
                i += 1;
            }
            let r = PdfObject::Array(out);
            proof {
                let v = obj@->Array_0;
                assert forall|k: int| 0 <= k < v.len() implies resolves(
                    #[trigger] v[k],
                    mapping@.dom(),
                ) by {
                    assert(v[k] == items@[k]@);
                }
                assert(r@->Array_0 =~= remapped(obj@, mapping@)->Array_0);
            }
            Ok(r)
        },
        PdfObject::Dictionary(d) => match remap_dictionary(d, mapping) {
            Ok(out) => {
                let r = PdfObject::Dictionary(out);
                proof {
                    assert(r@->Dictionary_0 =~= remapped(obj@, mapping@)->Dictionary_0);
                }
                Ok(r)
            },
            Err(e) => Err(e),
        },
        PdfObject::Stream(d, content) => match remap_dictionary(d, mapping) {
            Ok(out) => {
                let r = PdfObject::Stream(out, copy_bytes(content.as_slice()));
                proof {
                    assert(r@->Stream_0 =~= remapped(obj@, mapping@)->Stream_0);
                }
                Ok(r)
            },
            Err(e) => Err(e),
        },
    }
}

/// Returns a copy of `d` in which every reference in a value is rewritten
/// through `mapping`. Fails where a value holds a reference that `mapping`
/// does not map.
pub fn remap_dictionary(d: &PdfDictionary, mapping: &IdMap) -> (r: Result<
    PdfDictionary,
    MergeError,
>)
    ensures
        match r {
            Ok(out) => entries_resolve(d@, mapping@.dom()) && out@ == remapped_entries(
                d@,
                mapping@,
            ),
            Err(e) => !entries_resolve(d@, mapping@.dom()) && e
                == MergeError::DanglingReferenceAfterMerge,
        },
    decreases d,
{
    let mut out: Vec<(Vec<u8>, PdfObject)> = Vec::with_capacity(d.entries.len());
    let mut i: usize = 0;
    while i < d.entries.len()
        invariant
            i <= d.entries@.len(),
            out@.len() == i,
            forall|k: int| 0 <= k < i ==> resolves((#[trigger] d@[k]).1, mapping@.dom()),
            forall|k: int|
                0 <= k < i ==> (#[trigger] out@[k]).0@ == d@[k].0 && out@[k].1@ == remapped(
                    d@[k].1,
                    mapping@,
                ),
        decreases d.entries@.len() - i,
    {
        match remap_object_references(&d.entries[i].1, mapping) {
            Ok(value) => {
                let key = copy_bytes(d.entries[i].0.as_slice());
                out.push((key, value));
            },
            Err(e) => {
                proof {
                    assert(d@[i as int].1 == d.entries@[i as int].1@);
                }
                return Err(e);
            },
        }
        proof {
            assert(d@[i as int] == (d.entries@[i as int].0@, d.entries@[i as int].1@));
        }
        i += 1;
    }
    let r = PdfDictionary { entries: out };
    proof {
        assert(r@ =~= remapped_entries(d@, mapping@));
    }
    Ok(r)
}

} // verus!
