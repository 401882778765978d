//! What holds of every merged document: that no identifier occurs twice,
//! that every reference has a target, that every page has the new page
//! tree node as its parent, and that documents of one page each give one
//! page each, in their order.

use crate::copy::{closed_table, copied};
use crate::document::{
    has_id, id_less, ids_increasing, lemma_place_of, object_at, place_of, table_ids,
    with_entry_in, TableView,
};
use crate::ids::lemma_table_ids_distinct;
use crate::merge::{
    closed_document, copied_before, first_number, kids_before, lemma_copied_before_ids,
    lemma_kids_in_range, lemma_objects_before_grows, merge_failure, merge_result,
    merged_catalog_id, merged_document, merged_kids, merged_pages, merged_pages_id, moved,
    objects_before, single_page, sound_source, source_map, SourceView,
};
use crate::names::{count_bytes, kids_bytes, pages_bytes, parent_bytes, root_bytes, type_bytes};
use crate::object::{
    is_last_with_key, lemma_last_with_key, lemma_lookup_with_entry, lookup, with_entry,
    DictionaryView, ObjectId, ObjectView,
};
use crate::page_tree::{catalog_node, page_tree_node, references};
use crate::remap::{entries_resolve, remapped, resolves};
use vstd::prelude::*;

verus! {

/// Pages that the mapping maps are all moved, in their order.
pub proof fn lemma_moved_all(pages: Seq<ObjectId>, m: Map<ObjectId, ObjectId>)
    requires
        forall|k: int| 0 <= k < pages.len() ==> m.contains_key(#[trigger] pages[k]),
    ensures
        moved(pages, m).len() == pages.len(),
        forall|k: int| 0 <= k < pages.len() ==> #[trigger] moved(pages, m)[k] == m[pages[k]],
    decreases pages.len(),
{
    if pages.len() > 0 {
        let front = pages.drop_last();
        assert forall|k: int| 0 <= k < front.len() implies m.contains_key(#[trigger] front[k]) by {
            assert(front[k] == pages[k]);
        }
        lemma_moved_all(front, m);
        assert(m.contains_key(pages[pages.len() - 1]));
        assert forall|k: int| 0 <= k < pages.len() implies #[trigger] moved(pages, m)[k]
            == m[pages[k]] by {
            if k < front.len() {
                assert(moved(front, m)[k] == m[front[k]]);
                assert(front[k] == pages[k]);
            }
        }
    }
}

/// The copy of the object at place `j` of the source at place `i` stands
/// at the place that the objects of the sources before it leave free.
pub proof fn lemma_copied_before_index(s: Seq<SourceView>, n: int, i: int, j: int)
    requires
        0 <= i < n <= s.len(),
        0 <= j < s[i].document.objects.len(),
    ensures
        0 <= objects_before(s, i) + j < objects_before(s, n),
        copied_before(s, n).len() == objects_before(s, n),
        copied_before(s, n)[objects_before(s, i) + j] == copied(
            s[i].document.objects,
            first_number(s, i),
        )[j],
    decreases n,
{
    lemma_copied_before_ids(s, n);
    lemma_copied_before_ids(s, n - 1);
    lemma_objects_before_grows(s, i, i);
    if i < n - 1 {
        lemma_copied_before_index(s, n - 1, i, j);
        lemma_objects_before_grows(s, n - 1, n - 1);
    }
}

/// An identifier of a table is among its identifiers.
proof fn lemma_id_is_member(t: TableView, k: int)
    requires
        0 <= k < t.len(),
    ensures
        table_ids(t).to_set().contains(t[k].0),
        has_id(t, t[k].0),
{
    assert(table_ids(t)[k] == t[k].0);
}

/// The identifiers of the merged table, place by place.
proof fn lemma_merged_ids(s: Seq<SourceView>)
    requires
        2 + objects_before(s, s.len() as int) <= u32::MAX,
    ensures
        merged_document(s).objects.len() == objects_before(s, s.len() as int) + 2,
        forall|k: int|
            0 <= k < objects_before(s, s.len() as int) + 2 ==> (#[trigger] merged_document(
                s,
            ).objects[k]).0 == ((k + 1) as u32, 0u16),
        ids_increasing(merged_document(s).objects),
{
    let n = s.len() as int;
    lemma_copied_before_ids(s, n);
    lemma_objects_before_grows(s, n, n);
    let t = merged_document(s).objects;
    let copies = copied_before(s, n);
    assert forall|k: int| 0 <= k < objects_before(s, n) + 2 implies (#[trigger] t[k]).0 == (
        (k + 1) as u32,
        0u16,
    ) by {
        if k < copies.len() {
            assert(copies[k].0 == ((k + 1) as u32, 0u16));
        }
    }
    assert forall|i: int, j: int| 0 <= i < j < t.len() implies id_less(
        #[trigger] t[i].0,
        #[trigger] t[j].0,
    ) by {
        assert(t[i].0 == ((i + 1) as u32, 0u16));
        assert(t[j].0 == ((j + 1) as u32, 0u16));
    }
}

/// In the table of a merged document no identifier occurs twice: the
/// identifiers increase from each entry to every later one.
pub proof fn lemma_merged_identifiers_differ(s: Seq<SourceView>)
    requires
        merge_failure(s) is None,
        forall|i: int| 0 <= i < s.len() ==> ids_increasing((#[trigger] s[i]).document.objects),
    ensures
        ids_increasing(merge_result(s).objects),
        table_ids(merge_result(s).objects).no_duplicates(),
{
    if s.len() >= 2 {
        lemma_merged_ids(s);
    } else {
        assert(ids_increasing(s[0].document.objects));
    }
    lemma_table_ids_distinct(merge_result(s).objects);
}

/// Every page of a document merged from two or more sources is in its
/// table, and where it is a dictionary, its `Parent` is a reference to the
/// new page tree node.
pub proof fn lemma_pages_have_new_parent(s: Seq<SourceView>)
    requires
        s.len() >= 2,
        merge_failure(s) is None,
    ensures
        forall|k: int|
            0 <= k < merged_kids(s).len() ==> match object_at(
                merge_result(s).objects,
                #[trigger] merged_kids(s)[k],
            ) {
                Some(ObjectView::Dictionary(d)) => lookup(d, parent_bytes()) == Some(
                    ObjectView::Reference(merged_pages_id(s)),
                ),
                Some(_) => true,
                None => false,
            },
{
    let n = s.len() as int;
    let t = merged_document(s).objects;
    let copies = copied_before(s, n);
    let kids = merged_kids(s);
    let parent = ObjectView::Reference(merged_pages_id(s));
    lemma_merged_ids(s);
    lemma_copied_before_ids(s, n);
    lemma_kids_in_range(s, n);
    assert forall|k: int| 0 <= k < kids.len() implies match object_at(t, #[trigger] kids[k]) {
        Some(ObjectView::Dictionary(d)) => lookup(d, parent_bytes()) == Some(parent),
        Some(_) => true,
        None => false,
    } by {
        let kid = kids[k];
        let at = kid.0 - 1;
        assert(t[at].0 == ((at + 1) as u32, 0u16));
        assert(copies[at].0 == ((at + 1) as u32, 0u16));
        lemma_place_of(t, kid, at);
        assert(kids.contains(copies[at].0));
        assert(t[at].1 == with_entry_in(copies[at].1, parent_bytes(), parent));
        match copies[at].1 {
            ObjectView::Dictionary(d) => {
                lemma_lookup_with_entry(d, parent_bytes(), parent, parent_bytes());
            },
            _ => {},
        }
    }
}

/// The page tree of a document merged from two or more sources: the page
/// tree node and the catalog stand under their identifiers, and the
/// trailer's `Root` points to the catalog.
pub proof fn lemma_merged_page_tree(s: Seq<SourceView>)
    requires
        s.len() >= 2,
        merge_failure(s) is None,
    ensures
        object_at(merge_result(s).objects, merged_pages_id(s)) == Some(
            page_tree_node(merged_kids(s)),
        ),
        object_at(merge_result(s).objects, merged_catalog_id(s)) == Some(
            catalog_node(merged_pages_id(s)),
        ),
        lookup(merge_result(s).trailer, root_bytes()) == Some(
            ObjectView::Reference(merged_catalog_id(s)),
        ),
        merge_result(s).version == "1.5"@,
{
    let n = s.len() as int;
    let total = objects_before(s, n);
    let t = merged_document(s).objects;
    lemma_merged_ids(s);
    lemma_copied_before_ids(s, n);
    lemma_objects_before_grows(s, n, n);
    assert(t[total].0 == ((total + 1) as u32, 0u16));
    assert(t[total + 1].0 == ((total + 2) as u32, 0u16));
    lemma_place_of(t, merged_pages_id(s), total);
    lemma_place_of(t, merged_catalog_id(s), total + 1);
    let trailer = merged_document(s).trailer;
    assert(trailer[0].0 == root_bytes());
    assert(is_last_with_key(trailer, root_bytes(), 0));
    lemma_last_with_key(trailer, root_bytes());
}

/// A page tree node names its kind, its kids in their order and their
/// number.
pub proof fn lemma_page_tree_node(kids: Seq<ObjectId>)
    ensures
        page_tree_node(kids) matches ObjectView::Dictionary(d) && {
            &&& lookup(d, type_bytes()) == Some(ObjectView::Name(pages_bytes()))
            &&& lookup(d, kids_bytes()) == Some(ObjectView::Array(references(kids)))
            &&& lookup(d, count_bytes()) == Some(ObjectView::Integer(kids.len() as int))
        },
        references(kids).len() == kids.len(),
{
    let d = page_tree_node(kids)->Dictionary_0;
    assert(type_bytes()[0] != kids_bytes()[0]);
    assert(type_bytes()[0] != count_bytes()[0]);
    assert(kids_bytes()[0] != count_bytes()[0]);
    assert(d[0].0 == type_bytes() && d[1].0 == kids_bytes() && d[2].0 == count_bytes());
    assert(is_last_with_key(d, type_bytes(), 0));
    assert(is_last_with_key(d, kids_bytes(), 1));
    assert(is_last_with_key(d, count_bytes(), 2));
    lemma_last_with_key(d, type_bytes());
    lemma_last_with_key(d, kids_bytes());
    lemma_last_with_key(d, count_bytes());
}

/// An identifier that a table holds is among its identifiers.
proof fn lemma_has_id_is_member(t: TableView, id: ObjectId)
    requires
        has_id(t, id),
    ensures
        table_ids(t).contains(id),
{
    let i = place_of(t, id);
    assert(table_ids(t)[i] == id);
}

/// The pages of sources with one page each: one kid for each source, in the
/// order of the sources.
proof fn lemma_single_page_kids(s: Seq<SourceView>, n: int)
    requires
        0 <= n <= s.len(),
        forall|i: int| 0 <= i < n ==> single_page(#[trigger] s[i]),
    ensures
        kids_before(s, n).len() == n,
        forall|i: int|
            0 <= i < n ==> #[trigger] kids_before(s, n)[i] == source_map(s, i)[s[i].pages[0]],
    decreases n,
{
    if n > 0 {
        lemma_single_page_kids(s, n - 1);
        let last = s[n - 1];
        assert(single_page(last));
        let m = source_map(s, n - 1);
        lemma_has_id_is_member(last.document.objects, last.pages[0]);
        assert forall|k: int| 0 <= k < last.pages.len() implies m.contains_key(
            #[trigger] last.pages[k],
        ) by {}
        lemma_moved_all(last.pages, m);
        assert forall|i: int| 0 <= i < n implies #[trigger] kids_before(s, n)[i] == source_map(
            s,
            i,
        )[s[i].pages[0]] by {
            if i < n - 1 {
                assert(kids_before(s, n)[i] == kids_before(s, n - 1)[i]);
            } else {
                assert(kids_before(s, n)[i] == moved(last.pages, m)[0]);
            }
        }
    }
}

/// Sound documents of one page each merge without failure, as long as
/// there are object numbers for all their objects and two more, and the
/// merged document has as many pages as there were documents.
pub proof fn lemma_single_pages_all_kept(s: Seq<SourceView>)
    requires
        s.len() >= 1,
        forall|i: int| 0 <= i < s.len() ==> sound_source(#[trigger] s[i]) && single_page(s[i]),
        2 + objects_before(s, s.len() as int) <= u32::MAX,
        s.len() <= i64::MAX,
    ensures
        merge_failure(s) is None,
        merged_pages(s).len() == s.len(),
        s.len() >= 2 ==> object_at(merge_result(s).objects, merged_pages_id(s)) == Some(
            page_tree_node(merged_pages(s)),
        ),
{
    if s.len() >= 2 {
        lemma_single_page_kids(s, s.len() as int);
        assert forall|i: int| 0 <= i < s.len() implies closed_table(
            (#[trigger] s[i]).document.objects,
        ) by {
            assert(sound_source(s[i]));
        }
        lemma_merged_page_tree(s);
    }
}

/// The page of a source of several, as it stands in the merged document:
/// the copy of the page, with its references rewritten and its `Parent` set
/// to a reference to the new page tree node.
pub open spec fn migrated_page(s: Seq<SourceView>, i: int) -> ObjectView {
    with_entry_in(
        remapped(object_at(s[i].document.objects, s[i].pages[0])->0, source_map(s, i)),
        parent_bytes(),
        ObjectView::Reference(merged_pages_id(s)),
    )
}

/// Sound documents of one page each keep their order: the page at place
/// `i` of the merged document is the page of the source at place `i`. Of a
/// single source it is that page as it was; of several sources it is the
/// copy of that page, with its references rewritten and its `Parent` set to
/// the new page tree node.
pub proof fn lemma_page_order_kept(s: Seq<SourceView>, i: int)
    requires
        s.len() >= 1,
        forall|i: int| 0 <= i < s.len() ==> sound_source(#[trigger] s[i]) && single_page(s[i]),
        2 + objects_before(s, s.len() as int) <= u32::MAX,
        s.len() <= i64::MAX,
        0 <= i < s.len(),
    ensures
        merged_pages(s).len() == s.len(),
        object_at(s[i].document.objects, s[i].pages[0]) is Some,
        s.len() == 1 ==> merged_pages(s)[i] == s[i].pages[0] && object_at(
            merge_result(s).objects,
            merged_pages(s)[i],
        ) == object_at(s[i].document.objects, s[i].pages[0]),
        s.len() >= 2 ==> merged_pages(s)[i] == source_map(s, i)[s[i].pages[0]] && object_at(
            merge_result(s).objects,
            merged_pages(s)[i],
        ) == Some(migrated_page(s, i)),
{
    let n = s.len() as int;
    lemma_single_pages_all_kept(s);
    let source = s[i];
    assert(sound_source(source) && single_page(source));
    if n >= 2 {
        lemma_single_page_kids(s, n);
        lemma_merged_ids(s);
        lemma_copied_before_ids(s, n);
        let table = source.document.objects;
        let page = source.pages[0];
        let j = place_of(table, page);
        lemma_place_of(table, page, j);
        lemma_table_ids_distinct(table);
        lemma_copied_before_index(s, n, i, j);
        lemma_objects_before_grows(s, i, n);
        let at = objects_before(s, i) + j;
        let t = merged_document(s).objects;
        let copies = copied_before(s, n);
        let kid = merged_kids(s)[i];
        assert(table_ids(table).contains(page)) by {
            assert(table_ids(table)[j] == page);
        }
        assert(kid == ((first_number(s, i) + j) as u32, 0u16));
        assert(t[at].0 == ((at + 1) as u32, 0u16));
        assert(copies[at].0 == ((at + 1) as u32, 0u16));
        lemma_place_of(t, kid, at);
        assert(merged_kids(s).contains(copies[at].0));
    }
}

/// An object whose references the mapping maps has, once remapped, only
/// references to what the mapping gives.
pub proof fn lemma_remapped_resolves(
    o: ObjectView,
    m: Map<ObjectId, ObjectId>,
    ids: Set<ObjectId>,
)
    requires
        resolves(o, m.dom()),
        forall|id: ObjectId| m.contains_key(id) ==> ids.contains(#[trigger] m[id]),
    ensures
        resolves(remapped(o, m), ids),
    decreases o,
{
    match o {
        ObjectView::Array(items) => {
            let out = remapped(o, m)->Array_0;
            assert forall|i: int| 0 <= i < out.len() implies resolves(#[trigger] out[i], ids) by {
                assert(resolves(items[i], m.dom()));
                lemma_remapped_resolves(items[i], m, ids);
            }
        },
        ObjectView::Dictionary(d) => {
            let out = remapped(o, m)->Dictionary_0;
            assert forall|i: int| 0 <= i < out.len() implies resolves((#[trigger] out[i]).1, ids) by {
                assert(resolves(d[i].1, m.dom()));
                lemma_remapped_resolves(d[i].1, m, ids);
            }
        },
        ObjectView::Stream(d, _) => {
            let out = remapped(o, m)->Stream_0;
            assert forall|i: int| 0 <= i < out.len() implies resolves((#[trigger] out[i]).1, ids) by {
                assert(resolves(d[i].1, m.dom()));
                lemma_remapped_resolves(d[i].1, m, ids);
            }
        },
        _ => {},
    }
}

/// Setting a key to a value whose references point into `ids` keeps the
/// references of a dictionary within `ids`.
pub proof fn lemma_with_entry_resolves(
    d: DictionaryView,
    key: Seq<u8>,
    value: ObjectView,
    ids: Set<ObjectId>,
)
    requires
        entries_resolve(d, ids),
        resolves(value, ids),
    ensures
        entries_resolve(with_entry(d, key, value), ids),
{
    let e = with_entry(d, key, value);
    lemma_last_with_key(d, key);
    assert forall|i: int| 0 <= i < e.len() implies resolves((#[trigger] e[i]).1, ids) by {
        if i < d.len() && e[i] == d[i] {
            assert(resolves(d[i].1, ids));
        }
    }
}

/// The identifier of generation 0 with the given object number.
pub open spec fn numbered(number: int) -> ObjectId {
    (number as u32, 0u16)
}

/// The source and the place in it that the copy at place `k` comes from.
proof fn lemma_origin(s: Seq<SourceView>, n: int, k: int) -> (r: (int, int))
    requires
        0 <= n <= s.len(),
        0 <= k < objects_before(s, n),
    ensures
        0 <= r.0 < n,
        0 <= r.1 < s[r.0].document.objects.len(),
        k == objects_before(s, r.0) + r.1,
    decreases n,
{
    lemma_objects_before_grows(s, n - 1, n - 1);
    if k < objects_before(s, n - 1) {
        lemma_origin(s, n - 1, k)
    } else {
        (n - 1, k - objects_before(s, n - 1))
    }
}

/// In a merged document every reference points to an object of its table:
/// those in the copied objects, in the page tree node, in the catalog and
/// in the trailer. Of a single document, which a merge hands back as it is,
/// this holds where it held before.
pub proof fn lemma_merged_references_resolve(s: Seq<SourceView>)
    requires
        merge_failure(s) is None,
        s.len() == 1 ==> closed_document(s[0].document),
    ensures
        closed_document(merge_result(s)),
{
    if s.len() >= 2 {
        let n = s.len() as int;
        let total = objects_before(s, n);
        let m = merged_document(s);
        let t = m.objects;
        let ids = table_ids(t).to_set();
        let copies = copied_before(s, n);
        let kids = merged_kids(s);
        let pages_id = merged_pages_id(s);
        let catalog_id = merged_catalog_id(s);
        let parent = ObjectView::Reference(pages_id);
            lemma_merged_ids(s);
        lemma_copied_before_ids(s, n);
        lemma_kids_in_range(s, n);
        lemma_objects_before_grows(s, n, n);
        assert forall|number: int| 1 <= number <= total + 2 implies ids.contains(
            #[trigger] numbered(number),
        ) by {
            assert(t[number - 1].0 == (number as u32, 0u16));
            lemma_id_is_member(t, number - 1);
        }
        assert(pages_id == numbered(total + 1));
        assert(catalog_id == numbered(total + 2));
        assert(resolves(parent, ids));
        assert forall|k: int| 0 <= k < t.len() implies resolves((#[trigger] t[k]).1, ids) by {
            if k < total {
                let (i, j) = lemma_origin(s, n, k);
                let table = s[i].document.objects;
                let map = source_map(s, i);
                lemma_copied_before_index(s, n, i, j);
                lemma_objects_before_grows(s, i, n);
                lemma_objects_before_grows(s, i + 1, n);
                assert(closed_table(s[i].document.objects));
                assert(resolves(table[j].1, table_ids(table).to_set()));
                assert(map.dom() =~= table_ids(table).to_set());
                assert forall|id: ObjectId| map.contains_key(id) implies ids.contains(
                    #[trigger] map[id],
                ) by {
                    let w = table_ids(table).index_of(id);
                    assert(0 <= w < table.len());
                    assert(map[id] == numbered(first_number(s, i) + w));
                }
                lemma_remapped_resolves(table[j].1, map, ids);
                assert(copies[k].1 == remapped(table[j].1, map));
                if kids.contains(copies[k].0) {
                    match copies[k].1 {
                        ObjectView::Dictionary(d) => {
                            lemma_with_entry_resolves(d, parent_bytes(), parent, ids);
                        },
                        _ => {},
                    }
                }
            } else if k == total {
                let node = page_tree_node(kids)->Dictionary_0;
                let array = references(kids);
                assert forall|w: int| 0 <= w < array.len() implies resolves(
                    #[trigger] array[w],
                    ids,
                ) by {
                    assert(kids[w] == numbered(kids[w].0 as int));
                }
                assert(resolves(ObjectView::Array(array), ids));
                assert forall|w: int| 0 <= w < node.len() implies resolves(
                    (#[trigger] node[w]).1,
                    ids,
                ) by {}
            } else {
                let node = catalog_node(pages_id)->Dictionary_0;
                assert forall|w: int| 0 <= w < node.len() implies resolves(
                    (#[trigger] node[w]).1,
                    ids,
                ) by {}
            }
        }
        assert(resolves(ObjectView::Reference(catalog_id), ids));
        assert forall|w: int| 0 <= w < m.trailer.len() implies resolves(
            (#[trigger] m.trailer[w]).1,
            ids,
        ) by {}
    }
}

} // verus!
