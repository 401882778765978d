//! Merging source documents into one: their objects copied one source
//! after another, and one page tree over the pages of all.

use crate::copy::{closed_table, copied, copy_all_objects};
use crate::document::{
    has_id, id_less, ids_increasing, lemma_with_object_last, lemma_with_objects_behind,
    table_ids, DocumentView, PdfDocument, TableView,
};
use crate::error::MergeError;
use crate::ids::{assigned, IdMap};
use crate::names::root_bytes;
use crate::object::{has_key, with_entry, ObjectId, ObjectView};
use crate::page_tree::{adopted, build_page_tree, catalog_node, page_tree_node, with_page_tree};
use crate::remap::entries_resolve;
use vstd::prelude::*;

verus! {

/// A source of a merge: a document and the identifiers of its pages, in
/// the order of the pages.
#[derive(Debug, PartialEq, Eq)]
pub struct Source {
    pub document: PdfDocument,
    pub pages: Vec<ObjectId>,
}

/// The mathematical value of a [`Source`].
pub struct SourceView {
    pub document: DocumentView,
    pub pages: Seq<ObjectId>,
}

impl View for Source {
    type V = SourceView;

    open spec fn view(&self) -> SourceView {
        SourceView { document: self.document@, pages: self.pages@ }
    }
}

impl Clone for Source {
    fn clone(&self) -> (r: Self)
        ensures
            r@ == self@,
    {
        let mut pages: Vec<ObjectId> = Vec::with_capacity(self.pages.len());
        let mut i: usize = 0;
        while i < self.pages.len()
            invariant
                i <= self.pages@.len(),
                pages@ == self.pages@.take(i as int),
            decreases self.pages@.len() - i,
        {
            pages.push(self.pages[i]);
            assert(pages@ =~= self.pages@.take(i + 1));
            i += 1;
        }
        assert(self.pages@.take(self.pages@.len() as int) =~= self.pages@);
        Source { document: self.document.clone(), pages }
    }
}

/// The mathematical values of a sequence of sources.
pub open spec fn sources_view(s: Seq<Source>) -> Seq<SourceView> {
    s.map_values(|x: Source| x@)
}

/// The number of objects that the first `n` sources hold together.
pub open spec fn objects_before(s: Seq<SourceView>, n: int) -> int
    decreases n,
{
    if n <= 0 {
        0
    } else {
        objects_before(s, n - 1) + s[n - 1].document.objects.len()
    }
}

/// The number that the first object of the source at place `i` is copied
/// under: numbers start at 1 and each source follows the one before it.
pub open spec fn first_number(s: Seq<SourceView>, i: int) -> int {
    1 + objects_before(s, i)
}

/// The mapping from the identifiers of the source at place `i` to those of
/// its copies.
pub open spec fn source_map(s: Seq<SourceView>, i: int) -> Map<ObjectId, ObjectId> {
    assigned(table_ids(s[i].document.objects), first_number(s, i))
}

/// The copies of the objects of the first `n` sources, source after source.
pub open spec fn copied_before(s: Seq<SourceView>, n: int) -> TableView
    decreases n,
{
    if n <= 0 {
        Seq::empty()
    } else {
        copied_before(s, n - 1) + copied(s[n - 1].document.objects, first_number(s, n - 1))
    }
}

/// The new identifiers of those of `pages` that `m` maps, in their order.
pub open spec fn moved(pages: Seq<ObjectId>, m: Map<ObjectId, ObjectId>) -> Seq<ObjectId>
    decreases pages.len(),
{
    if pages.len() == 0 {
        Seq::empty()
    } else if m.contains_key(pages.last()) {
        moved(pages.drop_last(), m).push(m[pages.last()])
    } else {
        moved(pages.drop_last(), m)
    }
}

/// The new identifiers of the pages of the first `n` sources, source after
/// source.
pub open spec fn kids_before(s: Seq<SourceView>, n: int) -> Seq<ObjectId>
    decreases n,
{
    if n <= 0 {
        Seq::empty()
    } else {
        kids_before(s, n - 1) + moved(s[n - 1].pages, source_map(s, n - 1))
    }
}

/// The identifiers of the pages of the merged document, in their order.
pub open spec fn merged_kids(s: Seq<SourceView>) -> Seq<ObjectId> {
    kids_before(s, s.len() as int)
}

/// The identifier of the page tree node of the merged document.
pub open spec fn merged_pages_id(s: Seq<SourceView>) -> ObjectId {
    ((1 + objects_before(s, s.len() as int)) as u32, 0u16)
}

/// The identifier of the catalog of the merged document.
pub open spec fn merged_catalog_id(s: Seq<SourceView>) -> ObjectId {
    ((2 + objects_before(s, s.len() as int)) as u32, 0u16)
}

/// The document that two or more sources merge into. It is of version 1.5.
/// Its table holds the copies of the objects of all sources, those that
/// are pages adopted by the new page tree node, then the page tree node
/// over the pages of all sources, then the catalog. Its trailer holds the
/// `Root` alone, which points to the catalog.
pub open spec fn merged_document(s: Seq<SourceView>) -> DocumentView {
    DocumentView {
        version: "1.5"@,
        trailer: seq![(root_bytes(), ObjectView::Reference(merged_catalog_id(s)))],
        objects: adopted(
            copied_before(s, s.len() as int),
            merged_kids(s),
            merged_pages_id(s),
        ).push((merged_pages_id(s), page_tree_node(merged_kids(s)))).push(
            (merged_catalog_id(s), catalog_node(merged_pages_id(s))),
        ),
    }
}

/// Whether a source is sound: its identifiers increase along its table, and
/// every reference in its objects points to an object of its table.
pub open spec fn sound_source(s: SourceView) -> bool {
    ids_increasing(s.document.objects) && closed_table(s.document.objects)
}

/// Whether every reference in a document, in its objects and in its
/// trailer, points to an object of its table.
pub open spec fn closed_document(d: DocumentView) -> bool {
    closed_table(d.objects) && entries_resolve(d.trailer, table_ids(d.objects).to_set())
}

/// Whether a source has one page, which its table holds.
pub open spec fn single_page(s: SourceView) -> bool {
    s.pages.len() == 1 && has_id(s.document.objects, s.pages[0])
}

/// The identifiers of the pages of the document that a merge gives: those
/// of a single source as they are, those of several sources moved.
pub open spec fn merged_pages(s: Seq<SourceView>) -> Seq<ObjectId> {
    if s.len() == 1 {
        s[0].pages
    } else {
        merged_kids(s)
    }
}

/// Why a merge of `s` fails, if it does.
pub open spec fn merge_failure(s: Seq<SourceView>) -> Option<MergeError> {
    if s.len() == 0 {
        Some(MergeError::EmptyInput)
    } else if s.len() == 1 {
        None
    } else if 2 + objects_before(s, s.len() as int) > u32::MAX {
        Some(MergeError::TooManyObjects)
    } else if exists|i: int| 0 <= i < s.len() && !closed_table((#[trigger] s[i]).document.objects) {
        Some(MergeError::DanglingReferenceAfterMerge)
    } else if merged_kids(s).len() > i64::MAX {
        Some(MergeError::TooManyObjects)
    } else {
        None
    }
}

/// The document that a merge of `s` gives where it does not fail: a single
/// source as it is, several sources merged.
pub open spec fn merge_result(s: Seq<SourceView>) -> DocumentView {
    if s.len() == 1 {
        s[0].document
    } else {
        merged_document(s)
    }
}

/// More sources hold no fewer objects.
pub proof fn lemma_objects_before_grows(s: Seq<SourceView>, i: int, n: int)
    requires
        0 <= i <= n,
    ensures
        0 <= objects_before(s, i) <= objects_before(s, n),
    decreases n,
{
    if n > 0 {
        if i < n {
            lemma_objects_before_grows(s, i, n - 1);
        } else {
            lemma_objects_before_grows(s, n - 1, n - 1);
        }
    }
}

/// The copies of the first `n` sources are as many as their objects and
/// stand under the numbers 1, 2 and so on, with generation 0.
pub proof fn lemma_copied_before_ids(s: Seq<SourceView>, n: int)
    requires
        0 <= n <= s.len(),
    ensures
        copied_before(s, n).len() == objects_before(s, n),
        forall|k: int|
            0 <= k < objects_before(s, n) ==> (#[trigger] copied_before(s, n)[k]).0 == (
                (k + 1) as u32,
                0u16,
            ),
    decreases n,
{
    if n > 0 {
        lemma_copied_before_ids(s, n - 1);
        lemma_objects_before_grows(s, n - 1, n - 1);
    }
}

/// Copies that stand under the numbers 1, 2 and so on have increasing
/// identifiers, as long as the numbers are object numbers.
pub proof fn lemma_copied_before_increasing(s: Seq<SourceView>, n: int)
    requires
        0 <= n <= s.len(),
        objects_before(s, n) <= u32::MAX,
    ensures
        ids_increasing(copied_before(s, n)),
{
    lemma_copied_before_ids(s, n);
    let t = copied_before(s, n);
    assert forall|i: int, j: int| 0 <= i < j < t.len() implies id_less(
        #[trigger] t[i].0,
        #[trigger] t[j].0,
    ) by {
        assert(t[i].0 == ((i + 1) as u32, 0u16));
        assert(t[j].0 == ((j + 1) as u32, 0u16));
    }
}

/// Every identifier that `moved` hands out is one that the mapping gives.
pub proof fn lemma_moved_are_values(pages: Seq<ObjectId>, m: Map<ObjectId, ObjectId>)
    ensures
        forall|k: int|
            0 <= k < moved(pages, m).len() ==> m.contains_value(#[trigger] moved(pages, m)[k]),
    decreases pages.len(),
{
    if pages.len() > 0 {
        let front = moved(pages.drop_last(), m);
        lemma_moved_are_values(pages.drop_last(), m);
        assert forall|k: int| 0 <= k < moved(pages, m).len() implies m.contains_value(
            #[trigger] moved(pages, m)[k],
        ) by {
            if k < front.len() {
                assert(moved(pages, m)[k] == front[k]);
                assert(m.contains_value(front[k]));
            } else {
                assert(m.dom().contains(pages.last()));
                assert(moved(pages, m)[k] == m[pages.last()]);
            }
        }
    }
}

/// The pages of the merged document have generation 0 and numbers from 1 to
/// the number of copied objects.
pub proof fn lemma_kids_in_range(s: Seq<SourceView>, n: int)
    requires
        0 <= n <= s.len(),
        1 + objects_before(s, n) <= u32::MAX,
    ensures
        forall|k: int|
            0 <= k < kids_before(s, n).len() ==> {
                &&& (#[trigger] kids_before(s, n)[k]).1 == 0
                &&& 1 <= kids_before(s, n)[k].0 <= objects_before(s, n)
            },
    decreases n,
{
    if n > 0 {
        lemma_objects_before_grows(s, n - 1, n);
        lemma_objects_before_grows(s, n - 1, n - 1);
        lemma_kids_in_range(s, n - 1);
        let m = source_map(s, n - 1);
        let pages = s[n - 1].pages;
        let ids = table_ids(s[n - 1].document.objects);
        lemma_moved_are_values(pages, m);
        let earlier = kids_before(s, n - 1);
        assert forall|k: int| 0 <= k < kids_before(s, n).len() implies {
            &&& (#[trigger] kids_before(s, n)[k]).1 == 0
            &&& 1 <= kids_before(s, n)[k].0 <= objects_before(s, n)
        } by {
            if k < earlier.len() {
                assert(kids_before(s, n)[k] == earlier[k]);
            } else {
                let kid = moved(pages, m)[k - earlier.len()];
                assert(kids_before(s, n)[k] == kid);
                assert(m.contains_value(kid));
                let p = choose|p: ObjectId| #[trigger] m.dom().contains(p) && m[p] == kid;
                assert(ids.contains(p));
                let j = ids.index_of(p);
                assert(0 <= j < ids.len());
            }
        }
    }
}

/// Building the page tree over the copies of all sources gives the merged
/// document: the new nodes come to stand behind the copies, and no page has
/// the identifier of the page tree node.
pub proof fn lemma_page_tree_over_copies(s: Seq<SourceView>)
    requires
        2 + objects_before(s, s.len() as int) <= u32::MAX,
    ensures
        with_page_tree(
            DocumentView {
                version: "1.5"@,
                trailer: Seq::empty(),
                objects: copied_before(s, s.len() as int),
            },
            merged_kids(s),
            merged_pages_id(s),
            merged_catalog_id(s),
        ) == merged_document(s),
{
    let n = s.len() as int;
    let total = objects_before(s, n);
    let copies = copied_before(s, n);
    let kids = merged_kids(s);
    let pages_id = merged_pages_id(s);
    let catalog_id = merged_catalog_id(s);
    let node = page_tree_node(kids);
    lemma_objects_before_grows(s, n, n);
    lemma_copied_before_ids(s, n);
    lemma_kids_in_range(s, n);
    assert forall|k: int| 0 <= k < copies.len() implies id_less(#[trigger] copies[k].0, pages_id) by {
        assert(copies[k].0 == ((k + 1) as u32, 0u16));
    }
    lemma_with_object_last(copies, pages_id, node);
    let t1 = copies.push((pages_id, node));
    let t2 = adopted(t1, kids, pages_id);
    let t3 = adopted(copies, kids, pages_id).push((pages_id, node));
    assert(!kids.contains(pages_id)) by {
        if kids.contains(pages_id) {
            let k = kids.index_of(pages_id);
            assert(kids[k].0 <= total);
        }
    }
    assert(t2 =~= t3);
    assert forall|k: int| 0 <= k < t3.len() implies id_less(#[trigger] t3[k].0, catalog_id) by {
        if k < copies.len() {
            assert(copies[k].0 == ((k + 1) as u32, 0u16));
        }
    }
    lemma_with_object_last(t3, catalog_id, catalog_node(pages_id));
    let empty = Seq::<(Seq<u8>, ObjectView)>::empty();
    assert(!has_key(empty, root_bytes()));
    assert(with_entry(empty, root_bytes(), ObjectView::Reference(catalog_id)) =~= seq![
        (root_bytes(), ObjectView::Reference(catalog_id)),
    ]);
    assert(merged_document(s).objects == t3.push((catalog_id, catalog_node(pages_id))));
}

/// The number of objects of all sources, where the merged document has
/// object numbers for them, its page tree node and its catalog.
fn count_objects(sources: &Vec<Source>) -> (r: Option<u32>)
    ensures
        match r {
            Some(total) => total == objects_before(sources_view(sources@), sources@.len() as int)
                && total + 2 <= u32::MAX,
            None => objects_before(sources_view(sources@), sources@.len() as int) + 2 > u32::MAX,
        },
{
    let ghost s = sources_view(sources@);
    let mut total: u32 = 0;
    let mut i: usize = 0;
    while i < sources.len()
        invariant
            s == sources_view(sources@),
            i <= sources@.len(),
            total == objects_before(s, i as int),
            total + 2 <= u32::MAX,
        decreases sources@.len() - i,
    {
        let n: usize = sources[i].document.len();
        assert(s[i as int].document.objects.len() == n);
        if n > (u32::MAX - 2 - total) as usize {
            proof {
                lemma_objects_before_grows(s, i + 1, sources@.len() as int);
            }
            return None;
        }
        total = total + n as u32;
        i += 1;
    }
    Some(total)
}

/// Appends to `out` the new identifiers of those of `pages` that `map`
/// maps, in their order.
fn collect_pages(pages: &Vec<ObjectId>, map: &IdMap, out: &mut Vec<ObjectId>)
    ensures
        final(out)@ == old(out)@ + moved(pages@, map@),
{
    let mut k: usize = 0;
    proof {
        assert(pages@.take(0) =~= Seq::<ObjectId>::empty());
        assert(out@ + moved(pages@.take(0), map@) =~= out@);
    }
    while k < pages.len()
        invariant
            k <= pages@.len(),
            out@ == old(out)@ + moved(pages@.take(k as int), map@),
        decreases pages@.len() - k,
    {
        proof {
            assert(pages@.take(k + 1).drop_last() =~= pages@.take(k as int));
            assert(pages@.take(k + 1).last() == pages@[k as int]);
        }
        match map.get(pages[k]) {
            Some(new_id) => {
                out.push(new_id);
                assert(out@ =~= old(out)@ + moved(pages@.take(k + 1), map@));
            },
            None => {},
        }
        k += 1;
    }
    proof {
        assert(pages@.take(pages@.len() as int) =~= pages@);
    }
}

/// Merges the documents of `sources` into one.
///
/// Without a source it fails. A single source gives its document as it is.
/// Two or more give a new document of version 1.5: the objects of each
/// source are copied in turn, under the numbers that follow those of the
/// source before, the first under 1, with their references rewritten; then
/// a page tree is built over the pages of all sources in their order.
pub fn merge_sources(sources: Vec<Source>) -> (r: Result<PdfDocument, MergeError>)
    ensures
        match r {
            Ok(merged) => merge_failure(sources_view(sources@)) is None && merged@ == merge_result(
                sources_view(sources@),
            ),
            Err(e) => merge_failure(sources_view(sources@)) == Some(e),
        },
{
    let ghost s = sources_view(sources@);
    if sources.len() == 0 {
        return Err(MergeError::EmptyInput);
    }
    if sources.len() == 1 {
        let mut rest = sources;
        match rest.pop() {
            Some(only) => {
                assert(only@ == s[0]);
                return Ok(only.document);
            },
            None => {
                return Err(MergeError::EmptyInput);
            },
        }
    }
    let total: u32 = match count_objects(&sources) {
        Some(total) => total,
        None => {
            return Err(MergeError::TooManyObjects);
        },
    };
    let mut merged = PdfDocument::with_version("1.5");
    let mut next: u32 = 1;
    let mut all_page_refs: Vec<ObjectId> = Vec::new();
    let mut i: usize = 0;
    proof {
        assert(merged@.trailer =~= Seq::empty());
        assert(merged@.objects =~= copied_before(s, 0));
    }
    while i < sources.len()
        invariant
            s == sources_view(sources@),
            s.len() >= 2,
            i <= s.len(),
            total == objects_before(s, s.len() as int),
            total + 2 <= u32::MAX,
            next == first_number(s, i as int),
            merged@ == (DocumentView {
                version: "1.5"@,
                trailer: Seq::empty(),
                objects: copied_before(s, i as int),
            }),
            all_page_refs@ == kids_before(s, i as int),
            forall|k: int| 0 <= k < i ==> closed_table((#[trigger] s[k]).document.objects),
        decreases s.len() - i,
    {
        let source = &sources[i];
        proof {
            assert(source@ == s[i as int]);
            lemma_objects_before_grows(s, i + 1, s.len() as int);
            lemma_objects_before_grows(s, i as int, i as int);
        }
        match copy_all_objects(&source.document, &mut merged, next) {
            Ok(map) => {
                proof {
                    lemma_copied_before_increasing(s, i + 1);
                    lemma_with_objects_behind(
                        copied_before(s, i as int),
                        copied(s[i as int].document.objects, next as int),
                    );
                }
                collect_pages(&source.pages, &map, &mut all_page_refs);
                next = next + source.document.len() as u32;
            },
            Err(e) => {
                proof {
                    assert(next + s[i as int].document.objects.len() == first_number(s, i + 1));
                    assert(!closed_table(s[i as int].document.objects));
                }
                return Err(e);
            },
        }
        i += 1;
    }
    proof {
        lemma_page_tree_over_copies(s);
    }
    match build_page_tree(&mut merged, &all_page_refs, (next, 0), (next + 1, 0)) {
        Ok(_) => Ok(merged),
        Err(e) => Err(e),
    }
}

} // verus!
