//! Building the page tree of a document: the page tree node, the parents of
//! the pages, the catalog and the root of the trailer.

use crate::document::{
    has_id, id_less, ids_increasing, lemma_place_of, place_of, with_entry_in, with_entry_under,
    with_object, DocumentView, PdfDocument, TableView,
};
use crate::error::MergeError;
use crate::names::{
    catalog_bytes, catalog_key, count_bytes, count_key, kids_bytes, kids_key, pages_bytes,
    pages_key, parent_bytes, parent_key, root_bytes, root_key, type_bytes, type_key,
};
use crate::object::{
    lemma_with_entry_twice, with_entry, ObjectId, ObjectView, PdfDictionary, PdfObject,
};
use vstd::prelude::*;

verus! {

/// References to the given identifiers, in their order.
pub open spec fn references(ids: Seq<ObjectId>) -> Seq<ObjectView> {
    Seq::new(ids.len(), |k: int| ObjectView::Reference(ids[k]))
}

/// The node of a page tree whose pages are `kids`, in this order.
pub open spec fn page_tree_node(kids: Seq<ObjectId>) -> ObjectView {
    ObjectView::Dictionary(
        seq![
            (type_bytes(), ObjectView::Name(pages_bytes())),
            (kids_bytes(), ObjectView::Array(references(kids))),
            (count_bytes(), ObjectView::Integer(kids.len() as int)),
        ],
    )
}

/// The catalog of a document whose page tree has the identifier `pages_id`.
pub open spec fn catalog_node(pages_id: ObjectId) -> ObjectView {
    ObjectView::Dictionary(
        seq![
            (type_bytes(), ObjectView::Name(catalog_bytes())),
            (pages_bytes(), ObjectView::Reference(pages_id)),
        ],
    )
}

/// A table in which every dictionary whose identifier is among `kids` has
/// its `Parent` set to a reference to `parent`, and all else is as before.
pub open spec fn adopted(t: TableView, kids: Seq<ObjectId>, parent: ObjectId) -> TableView {
    Seq::new(
        t.len(),
        |k: int|
            if kids.contains(t[k].0) {
                (t[k].0, with_entry_in(t[k].1, parent_bytes(), ObjectView::Reference(parent)))
            } else {
                t[k]
            },
    )
}

/// A document after a page tree was built in it for the pages `kids`: a new
/// page tree node under `pages_id`, the pages adopted by it, a new catalog
/// under `catalog_id`, and the trailer's `Root` pointing to the catalog.
pub open spec fn with_page_tree(
    d: DocumentView,
    kids: Seq<ObjectId>,
    pages_id: ObjectId,
    catalog_id: ObjectId,
) -> DocumentView {
    DocumentView {
        version: d.version,
        trailer: with_entry(d.trailer, root_bytes(), ObjectView::Reference(catalog_id)),
        objects: with_object(
            adopted(with_object(d.objects, pages_id, page_tree_node(kids)), kids, pages_id),
            catalog_id,
            catalog_node(pages_id),
        ),
    }
}

/// Adopting one page more is setting `Parent` in the object of that page.
proof fn lemma_adopt_next(t: TableView, kids: Seq<ObjectId>, k: int, parent: ObjectId)
    requires
        ids_increasing(t),
        0 <= k < kids.len(),
    ensures
        with_entry_under(
            adopted(t, kids.take(k), parent),
            kids[k],
            parent_bytes(),
            ObjectView::Reference(parent),
        ) == adopted(t, kids.take(k + 1), parent),
{
    let kid = kids[k];
    let fewer = kids.take(k);
    let more = kids.take(k + 1);
    let a = adopted(t, fewer, parent);
    let b = adopted(t, more, parent);
    let value = ObjectView::Reference(parent);
    assert forall|x: ObjectId| more.contains(x) <==> (fewer.contains(x) || x == kid) by {
        if fewer.contains(x) {
            let w = fewer.index_of(x);
            assert(more[w] == x);
        }
        if x == kid {
            assert(more[k] == x);
        }
        if more.contains(x) {
            let w = more.index_of(x);
            if w < k {
                assert(fewer[w] == x);
            }
        }
    }
    assert forall|i: int, j: int| 0 <= i < j < a.len() implies id_less(
        #[trigger] a[i].0,
        #[trigger] a[j].0,
    ) by {
        assert(id_less(t[i].0, t[j].0));
    }
    if has_id(a, kid) {
        let p = place_of(a, kid);
        lemma_place_of(a, kid, p);
        assert(t[p].0 == kid);
        match t[p].1 {
            ObjectView::Dictionary(d) => {
                lemma_with_entry_twice(d, parent_bytes(), value);
            },
            _ => {},
        }
        let r = with_entry_under(a, kid, parent_bytes(), value);
        assert forall|i: int| 0 <= i < a.len() implies r[i] == b[i] by {
            if i != p {
                if t[i].0 == kid {
                    lemma_place_of(a, kid, i);
                }
            }
        }
        assert(r =~= b);
    } else {
        assert forall|i: int| 0 <= i < a.len() implies a[i] == b[i] by {
            if t[i].0 == kid {
                assert(a[i].0 == kid);
            }
        }
        assert(a =~= b);
    }
}

/// Builds the page tree of `target` for the pages `page_ids`: puts a new
/// page tree node under `pages_id`, with the pages as its kids in their
/// order and their number as its count; sets `Parent` to a reference to
/// that node in every dictionary that `target` holds under one of
/// `page_ids`; puts a new catalog under `catalog_id`; and points the
/// trailer's `Root` to the catalog.
///
/// Fails, and leaves `target` as it was, where the number of pages is no
/// 64-bit signed integer.
pub fn build_page_tree(
    target: &mut PdfDocument,
    page_ids: &Vec<ObjectId>,
    pages_id: ObjectId,
    catalog_id: ObjectId,
) -> (r: Result<(), MergeError>)
    ensures
        match r {
            Ok(_) => page_ids@.len() <= i64::MAX && final(target)@ == with_page_tree(
                old(target)@,
                page_ids@,
                pages_id,
                catalog_id,
            ),
            Err(e) => {
                &&& page_ids@.len() > i64::MAX
                &&& e == MergeError::TooManyObjects
                &&& final(target)@ == old(target)@
            },
        },
{
    if page_ids.len() as u64 > 0x7fff_ffff_ffff_ffff_u64 {
        return Err(MergeError::TooManyObjects);
    }
    let ghost kids = page_ids@;
    let mut kids_array: Vec<PdfObject> = Vec::with_capacity(page_ids.len());
    let mut k: usize = 0;
    while k < page_ids.len()
        invariant
            kids == page_ids@,
            k <= kids.len(),
            kids_array@.len() == k,
            forall|j: int| 0 <= j < k ==> (#[trigger] kids_array@[j])@ == references(kids)[j],
        decreases kids.len() - k,
    {
        kids_array.push(PdfObject::Reference(page_ids[k]));
        k += 1;
    }
    let kind = PdfObject::Name(pages_key());
    let array = PdfObject::Array(kids_array);
    let count = PdfObject::Integer(page_ids.len() as i64);
    proof {
        assert(kind@ == ObjectView::Name(pages_bytes()));
        assert(array@->Array_0 =~= references(kids));
        assert(count@ == ObjectView::Integer(kids.len() as int));
    }
    let mut entries: Vec<(Vec<u8>, PdfObject)> = Vec::with_capacity(3);
    entries.push((type_key(), kind));
    entries.push((kids_key(), array));
    entries.push((count_key(), count));
    let node = PdfDictionary { entries };
    proof {
        assert(node@ =~= page_tree_node(kids)->Dictionary_0);
    }
    let pages_node = PdfObject::Dictionary(node);
    target.insert_object(pages_id, pages_node);
    let ghost t = target@.objects;
    let ghost d = target@;
    proof {
        use_type_invariant(&*target);
        target.lemma_well_formed();
        assert(adopted(t, kids.take(0), pages_id) =~= t);
    }
    let mut k: usize = 0;
    while k < page_ids.len()
        invariant
            kids == page_ids@,
            k <= kids.len(),
            ids_increasing(t),
            target@ == (DocumentView { objects: adopted(t, kids.take(k as int), pages_id), ..d }),
        decreases kids.len() - k,
    {
        target.set_in_dictionary(page_ids[k], parent_key(), PdfObject::Reference(pages_id));
        proof {
            lemma_adopt_next(t, kids, k as int, pages_id);
        }
        k += 1;
    }
    proof {
        assert(kids.take(kids.len() as int) =~= kids);
    }
    let kind = PdfObject::Name(catalog_key());
    let pages = PdfObject::Reference(pages_id);
    proof {
        assert(kind@ == ObjectView::Name(catalog_bytes()));
        assert(pages@ == ObjectView::Reference(pages_id));
    }
    let mut entries: Vec<(Vec<u8>, PdfObject)> = Vec::with_capacity(2);
    entries.push((type_key(), kind));
    entries.push((pages_key(), pages));
    let node = PdfDictionary { entries };
    proof {
        assert(node@ =~= catalog_node(pages_id)->Dictionary_0);
    }
    let catalog = PdfObject::Dictionary(node);
    target.insert_object(catalog_id, catalog);
    target.set_trailer_entry(root_key(), PdfObject::Reference(catalog_id));
    Ok(())
}

} // verus!
