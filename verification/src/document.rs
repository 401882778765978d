//! A document: a table of identified objects, a trailer and a version.

use crate::object::{
    copy_dictionary, copy_object, with_entry, DictionaryView, ObjectId, ObjectView,
    PdfDictionary, PdfObject,
};
use vstd::prelude::*;

verus! {

/// The order of identifiers: by object number, then by generation.
pub open spec fn id_less(a: ObjectId, b: ObjectId) -> bool {
    a.0 < b.0 || (a.0 == b.0 && a.1 < b.1)
}

/// Whether `a` stands before `b` in the order of identifiers.
pub fn id_before(a: ObjectId, b: ObjectId) -> (r: bool)
    ensures
        r == id_less(a, b),
{
    a.0 < b.0 || (a.0 == b.0 && a.1 < b.1)
}

/// The mathematical value of an object table: its entries in their order.
pub type TableView = Seq<(ObjectId, ObjectView)>;

/// The mathematical value of the entries of a table.
pub open spec fn table_view(objects: Seq<(ObjectId, PdfObject)>) -> TableView {
    objects.map_values(|e: (ObjectId, PdfObject)| (e.0, e.1@))
}

/// The identifiers of a table, in its order.
pub open spec fn table_ids(t: TableView) -> Seq<ObjectId> {
    t.map_values(|e: (ObjectId, ObjectView)| e.0)
}

/// Whether the identifiers of a table increase from each entry to every
/// later one, so that none occurs twice.
pub open spec fn ids_increasing(t: TableView) -> bool {
    forall|i: int, j: int| 0 <= i < j < t.len() ==> id_less(#[trigger] t[i].0, #[trigger] t[j].0)
}

/// The greatest object number of a table with increasing identifiers: that
/// of its last entry, and 0 for a table without entries.
pub open spec fn highest_number(t: TableView) -> int {
    if t.len() == 0 {
        0
    } else {
        t.last().0.0 as int
    }
}

/// No object number of a table with increasing identifiers is greater than
/// that of its last entry.
pub proof fn lemma_highest_number(t: TableView)
    requires
        ids_increasing(t),
    ensures
        forall|i: int| 0 <= i < t.len() ==> (#[trigger] t[i]).0.0 <= highest_number(t),
{
    assert forall|i: int| 0 <= i < t.len() implies (#[trigger] t[i]).0.0 <= highest_number(t) by {
        if i < t.len() - 1 {
            assert(id_less(t[i].0, t[t.len() - 1].0));
        }
    }
}

/// Whether a table holds an object under `id`.
pub open spec fn has_id(t: TableView, id: ObjectId) -> bool {
    exists|i: int| 0 <= i < t.len() && #[trigger] t[i].0 == id
}

/// The place of `id` in a table that holds it.
pub open spec fn place_of(t: TableView, id: ObjectId) -> int {
    choose|i: int| 0 <= i < t.len() && #[trigger] t[i].0 == id
}

/// The object that a table holds under `id`.
pub open spec fn object_at(t: TableView, id: ObjectId) -> Option<ObjectView> {
    if has_id(t, id) {
        Some(t[place_of(t, id)].1)
    } else {
        None
    }
}

/// In a table with increasing identifiers an identifier has one place only.
pub proof fn lemma_place_of(t: TableView, id: ObjectId, i: int)
    requires
        ids_increasing(t),
        0 <= i < t.len(),
        t[i].0 == id,
    ensures
        has_id(t, id),
        place_of(t, id) == i,
        object_at(t, id) == Some(t[i].1),
{
    let p = place_of(t, id);
    if p < i {
        assert(id_less(t[p].0, t[i].0));
    }
    if i < p {
        assert(id_less(t[i].0, t[p].0));
    }
}

/// A table whose identifiers increase from each entry to the next has
/// increasing identifiers throughout.
pub proof fn lemma_ids_increasing_from_neighbours(t: TableView)
    requires
        forall|i: int| 0 < i < t.len() ==> id_less(#[trigger] t[i - 1].0, t[i].0),
    ensures
        ids_increasing(t),
{
    assert forall|i: int, j: int| 0 <= i < j < t.len() implies id_less(
        #[trigger] t[i].0,
        #[trigger] t[j].0,
    ) by {
        lemma_reaches(t, i, j);
    }
}

proof fn lemma_reaches(t: TableView, i: int, j: int)
    requires
        forall|k: int| 0 < k < t.len() ==> id_less(#[trigger] t[k - 1].0, t[k].0),
        0 <= i < j < t.len(),
    ensures
        id_less(t[i].0, t[j].0),
    decreases j - i,
{
    assert(id_less(t[j - 1].0, t[j].0));
    if i < j - 1 {
        lemma_reaches(t, i, j - 1);
    }
}

/// Whether `p` is the place where `id` stands or would have to stand in a
/// table: the entries before it have lesser identifiers, the others do not.
pub open spec fn parts_at(t: TableView, id: ObjectId, p: int) -> bool {
    &&& 0 <= p <= t.len()
    &&& forall|k: int| 0 <= k < p ==> id_less(#[trigger] t[k].0, id)
    &&& forall|k: int| p <= k < t.len() ==> !id_less(#[trigger] t[k].0, id)
}

/// The number of entries of a table whose identifiers are less than `id`.
pub open spec fn insertion_place(t: TableView, id: ObjectId) -> int {
    choose|p: int| parts_at(t, id, p)
}

/// A table after `o` was put under `id`: in the place of the object that had
/// this identifier, or else where the order of identifiers asks for it.
pub open spec fn with_object(t: TableView, id: ObjectId, o: ObjectView) -> TableView {
    if has_id(t, id) {
        t.update(place_of(t, id), (id, o))
    } else {
        t.insert(insertion_place(t, id), (id, o))
    }
}

/// A table after the entries of `more` were put into it, one after another.
pub open spec fn with_objects(t: TableView, more: TableView) -> TableView
    decreases more.len(),
{
    if more.len() == 0 {
        t
    } else {
        with_object(with_objects(t, more.drop_last()), more.last().0, more.last().1)
    }
}

/// A table has one place only at which an identifier parts it.
pub proof fn lemma_insertion_place(t: TableView, id: ObjectId, p: int)
    requires
        parts_at(t, id, p),
    ensures
        insertion_place(t, id) == p,
{
    let q = insertion_place(t, id);
    assert(parts_at(t, id, q));
    if q < p {
        assert(id_less(t[q].0, id));
    }
    if p < q {
        assert(id_less(t[p].0, id));
    }
}

/// An object whose identifier is greater than all those of a table comes to
/// stand last.
pub proof fn lemma_with_object_last(t: TableView, id: ObjectId, o: ObjectView)
    requires
        forall|k: int| 0 <= k < t.len() ==> id_less(#[trigger] t[k].0, id),
    ensures
        with_object(t, id, o) == t.push((id, o)),
{
    if has_id(t, id) {
        let p = place_of(t, id);
        assert(id_less(t[p].0, id));
    }
    assert(parts_at(t, id, t.len() as int));
    lemma_insertion_place(t, id, t.len() as int);
    assert(t.insert(t.len() as int, (id, o)) =~= t.push((id, o)));
}

/// Entries with increasing identifiers, all greater than those of a table,
/// come to stand behind it in their order.
pub proof fn lemma_with_objects_behind(t: TableView, more: TableView)
    requires
        ids_increasing(t + more),
    ensures
        with_objects(t, more) == t + more,
    decreases more.len(),
{
    if more.len() == 0 {
        assert(t + more =~= t);
    } else {
        let front = more.drop_last();
        let all = t + more;
        assert forall|i: int, j: int| 0 <= i < j < (t + front).len() implies id_less(
            #[trigger] (t + front)[i].0,
            #[trigger] (t + front)[j].0,
        ) by {
            assert((t + front)[i] == all[i]);
            assert((t + front)[j] == all[j]);
        }
        lemma_with_objects_behind(t, front);
        assert forall|k: int| 0 <= k < (t + front).len() implies id_less(
            #[trigger] (t + front)[k].0,
            more.last().0,
        ) by {
            assert((t + front)[k] == all[k]);
            assert(all[all.len() - 1] == more.last());
        }
        lemma_with_object_last(t + front, more.last().0, more.last().1);
        assert((t + front).push(more.last()) =~= t + more);
    }
}

/// The mathematical value of a [`PdfDocument`].
pub struct DocumentView {
    pub version: Seq<char>,
    pub trailer: DictionaryView,
    pub objects: TableView,
}

/// A document. Its objects stand in the order of their identifiers, and no
/// identifier occurs twice.
#[derive(Debug, PartialEq, Eq)]
pub struct PdfDocument {
    pub(crate) version: String,
    pub(crate) trailer: PdfDictionary,
    pub(crate) objects: Vec<(ObjectId, PdfObject)>,
}

impl View for PdfDocument {
    type V = DocumentView;

    closed spec fn view(&self) -> DocumentView {
        DocumentView {
            version: self.version@,
            trailer: self.trailer@,
            objects: table_view(self.objects@),
        }
    }
}

impl Clone for PdfDocument {
    fn clone(&self) -> (r: Self)
        ensures
            r@ == self@,
    {
        proof {
            use_type_invariant(self);
        }
        let mut objects: Vec<(ObjectId, PdfObject)> = Vec::with_capacity(self.objects.len());
        let mut i: usize = 0;
        while i < self.objects.len()
            invariant
                i <= self.objects@.len(),
                objects@.len() == i,
                forall|k: int|
                    0 <= k < i ==> (#[trigger] objects@[k]).0 == self.objects@[k].0 && objects@[k].1@
                        == self.objects@[k].1@,
            decreases self.objects@.len() - i,
        {
            let id: ObjectId = self.objects[i].0;
            let object = copy_object(&self.objects[i].1);
            objects.push((id, object));
            i += 1;
        }
        proof {
            assert(table_view(objects@) =~= table_view(self.objects@));
        }
        PdfDocument {
            version: self.version.clone(),
            trailer: copy_dictionary(&self.trailer),
            objects,
        }
    }
}

/// Sets `key` to `value` in the dictionary at place `i` of a table. An
/// object of another kind stays as it is, and so does the table where it
/// has no place `i`.
pub fn set_in_dictionary_at(
    objects: &mut Vec<(ObjectId, PdfObject)>,
    i: usize,
    key: Vec<u8>,
    value: PdfObject,
)
    ensures
        table_view(final(objects)@) == with_entry_at(
            table_view(old(objects)@),
            i as int,
            key@,
            value@,
        ),
{
    if i < objects.len() {
        match &mut objects[i].1 {
            PdfObject::Dictionary(d) => {
                d.set(key, value);
            },
            _ => {},
        }
    }
    assert(table_view(objects@) =~= with_entry_at(
        table_view(old(objects)@),
        i as int,
        key@,
        value@,
    ));
}

/// A table after `key` was set to `value` in the dictionary at place `i`;
/// the table as it is where that object is no dictionary or the place is
/// none of the table.
pub open spec fn with_entry_at(t: TableView, i: int, key: Seq<u8>, value: ObjectView) -> TableView {
    if 0 <= i < t.len() {
        t.update(i, (t[i].0, with_entry_in(t[i].1, key, value)))
    } else {
        t
    }
}

/// A dictionary object after `key` was set to `value` in it; an object of
/// another kind as it is.
pub open spec fn with_entry_in(o: ObjectView, key: Seq<u8>, value: ObjectView) -> ObjectView {
    match o {
        ObjectView::Dictionary(d) => ObjectView::Dictionary(with_entry(d, key, value)),
        other => other,
    }
}

/// A table after `key` was set to `value` in the dictionary under `id`; the
/// table as it is where that object is no dictionary or is missing.
pub open spec fn with_entry_under(
    t: TableView,
    id: ObjectId,
    key: Seq<u8>,
    value: ObjectView,
) -> TableView {
    if has_id(t, id) {
        with_entry_at(t, place_of(t, id), key, value)
    } else {
        t
    }
}

impl PdfDocument {
    #[verifier::type_invariant]
    pub closed spec fn well_formed(&self) -> bool {
        ids_increasing(table_view(self.objects@))
    }

    /// The identifiers of a document increase along its table.
    pub proof fn lemma_well_formed(&self)
        requires
            self.well_formed(),
        ensures
            ids_increasing(self@.objects),
    {
    }

    /// A document of the given version, without objects and with an empty
    /// trailer.
    pub fn with_version(version: &str) -> (d: PdfDocument)
        ensures
            d@.version == version@,
            d@.trailer.len() == 0,
            d@.objects.len() == 0,
    {
        PdfDocument {
            version: version.to_owned(),
            trailer: PdfDictionary::new(),
            objects: Vec::new(),
        }
    }

    /// The document with these parts, where the identifiers of `objects`
    /// increase from each entry to the next; `None` where they do not.
    pub fn from_parts(
        version: String,
        trailer: PdfDictionary,
        objects: Vec<(ObjectId, PdfObject)>,
    ) -> (r: Option<PdfDocument>)
        ensures
            r is Some <==> ids_increasing(table_view(objects@)),
            r matches Some(d) ==> d@ == (DocumentView {
                version: version@,
                trailer: trailer@,
                objects: table_view(objects@),
            }),
    {
        let ghost t = table_view(objects@);
        let mut i: usize = 1;
        while i < objects.len()
            invariant
                1 <= i,
                t == table_view(objects@),
                forall|k: int| 0 < k < i && k < t.len() ==> id_less(#[trigger] t[k - 1].0, t[k].0),
            decreases objects@.len() - i,
        {
            if !id_before(objects[i - 1].0, objects[i].0) {
                proof {
                    if ids_increasing(t) {
                        assert(id_less(t[i - 1].0, t[i as int].0));
                    }
                }
                return None;
            }
            i += 1;
        }
        proof {
            lemma_ids_increasing_from_neighbours(t);
        }
        Some(PdfDocument { version, trailer, objects })
    }

    /// The version of the format that the document is written in.
    pub fn version(&self) -> (v: &String)
        ensures
            v@ == self@.version,
    {
        &self.version
    }

    /// The trailer.
    pub fn trailer(&self) -> (t: &PdfDictionary)
        ensures
            t@ == self@.trailer,
    {
        &self.trailer
    }

    /// The object table: identifiers with their objects, the identifiers
    /// increasing.
    pub fn objects(&self) -> (t: &Vec<(ObjectId, PdfObject)>)
        ensures
            table_view(t@) == self@.objects,
            ids_increasing(self@.objects),
    {
        proof {
            use_type_invariant(self);
        }
        &self.objects
    }

    /// The greatest object number in use, 0 where there is no object.
    pub fn highest_number(&self) -> (n: u32)
        ensures
            n == highest_number(self@.objects),
            forall|i: int| 0 <= i < self@.objects.len() ==> (#[trigger] self@.objects[i]).0.0 <= n,
    {
        proof {
            use_type_invariant(self);
            lemma_highest_number(self@.objects);
        }
        let count = self.objects.len();
        if count == 0 {
            0
        } else {
            assert(self@.objects.last() == self@.objects[count - 1]);
            self.objects[count - 1].0.0
        }
    }

    /// The number of objects.
    pub fn len(&self) -> (n: usize)
        ensures
            n == self@.objects.len(),
    {
        self.objects.len()
    }

    /// The place at which `id` parts the table, and whether `id` stands there.
    fn search(&self, id: ObjectId) -> (r: (bool, usize))
        ensures
            parts_at(self@.objects, id, r.1 as int),
            r.0 == has_id(self@.objects, id),
            r.0 ==> r.1 < self@.objects.len() && r.1 == place_of(self@.objects, id),
    {
        proof {
            use_type_invariant(self);
        }
        let ghost t = self@.objects;
        let mut low: usize = 0;
        let mut high: usize = self.objects.len();
        while low < high
            invariant
                t == table_view(self.objects@),
                ids_increasing(t),
                low <= high <= t.len(),
                forall|k: int| 0 <= k < low ==> id_less(#[trigger] t[k].0, id),
                forall|k: int| high <= k < t.len() ==> id_less(id, #[trigger] t[k].0),
            decreases high - low,
        {
            let mid: usize = low + (high - low) / 2;
            let at: ObjectId = self.objects[mid].0;
            assert(t[mid as int].0 == at);
            if id_before(at, id) {
                assert forall|k: int| 0 <= k < mid + 1 implies id_less(#[trigger] t[k].0, id) by {
                    if k < mid {
                        assert(id_less(t[k].0, t[mid as int].0));
                    }
                }
                low = mid + 1;
            } else if id_before(id, at) {
                assert forall|k: int| mid <= k < t.len() implies id_less(id, #[trigger] t[k].0) by {
                    if mid < k {
                        assert(id_less(t[mid as int].0, t[k].0));
                    }
                }
                high = mid;
            } else {
                assert(at == id);
                proof {
                    lemma_place_of(t, id, mid as int);
                    assert forall|k: int| mid <= k < t.len() implies !id_less(
                        #[trigger] t[k].0,
                        id,
                    ) by {
                        if mid < k {
                            assert(id_less(t[mid as int].0, t[k].0));
                        }
                    }
                    assert forall|k: int| 0 <= k < mid implies id_less(#[trigger] t[k].0, id) by {
                        assert(id_less(t[k].0, t[mid as int].0));
                    }
                }
                return (true, mid);
            }
        }
        proof {
            if has_id(t, id) {
                let p = place_of(t, id);
                if p < low {
                    assert(id_less(t[p].0, id));
                } else {
                    assert(id_less(id, t[p].0));
                }
            }
            assert forall|k: int| low <= k < t.len() implies !id_less(#[trigger] t[k].0, id) by {
                assert(id_less(id, t[k].0));
            }
        }
        (false, low)
    }

    /// The place in the table of the object with the identifier `id`.
    pub fn position(&self, id: ObjectId) -> (r: Option<usize>)
        ensures
            r is Some <==> has_id(self@.objects, id),
            r matches Some(i) ==> i < self@.objects.len() && i == place_of(self@.objects, id),
    {
        let (found, place) = self.search(id);
        if found {
            Some(place)
        } else {
            None
        }
    }

    /// The object with the identifier `id`.
    pub fn get_object(&self, id: ObjectId) -> (r: Option<&PdfObject>)
        ensures
            r is Some <==> has_id(self@.objects, id),
            r matches Some(o) ==> object_at(self@.objects, id) == Some(o@),
    {
        match self.position(id) {
            Some(i) => Some(&self.objects[i].1),
            None => None,
        }
    }

    /// Puts `object` into the table under `id`, in place of the object that
    /// had this identifier, if there was one.
    pub fn insert_object(&mut self, id: ObjectId, object: PdfObject)
        ensures
            final(self)@ == (DocumentView {
                objects: with_object(old(self)@.objects, id, object@),
                ..old(self)@
            }),
    {
        proof {
            use_type_invariant(&*self);
        }
        let (found, place) = self.search(id);
        let ghost t = self@.objects;
        let ghost o = object@;
        let mut objects: Vec<(ObjectId, PdfObject)> = Vec::new();
        core::mem::swap(&mut self.objects, &mut objects);
        if found {
            objects.set(place, (id, object));
            proof {
                let u = table_view(objects@);
                assert(u =~= t.update(place as int, (id, o)));
                assert forall|i: int, j: int| 0 <= i < j < u.len() implies id_less(
                    #[trigger] u[i].0,
                    #[trigger] u[j].0,
                ) by {
                    assert(id_less(t[i].0, t[j].0));
                }
            }
        } else {
            objects.insert(place, (id, object));
            proof {
                let u = table_view(objects@);
                lemma_insertion_place(t, id, place as int);
                assert(u =~= t.insert(place as int, (id, o)));
                assert forall|i: int, j: int| 0 <= i < j < u.len() implies id_less(
                    #[trigger] u[i].0,
                    #[trigger] u[j].0,
                ) by {
                    if j < place {
                        assert(id_less(t[i].0, t[j].0));
                    } else if j == place {
                        assert(id_less(t[i].0, id));
                    } else if i < place {
                        assert(id_less(t[i].0, t[j - 1].0));
                    } else if i == place {
                        assert(!id_less(t[j - 1].0, id));
                        assert(t[j - 1].0 != id) by {
                            if t[j - 1].0 == id {
                                assert(has_id(t, id));
                            }
                        }
                    } else {
                        assert(id_less(t[i - 1].0, t[j - 1].0));
                    }
                }
            }
        }
        core::mem::swap(&mut self.objects, &mut objects);
    }

    /// Sets `key` to `value` in the dictionary with the identifier `id`. An
    /// object of another kind stays as it is, and so does the document where
    /// it holds no object under `id`. Returns whether it holds one.
    pub fn set_in_dictionary(&mut self, id: ObjectId, key: Vec<u8>, value: PdfObject) -> (found:
        bool)
        ensures
            found == has_id(old(self)@.objects, id),
            final(self)@ == (DocumentView {
                objects: with_entry_under(old(self)@.objects, id, key@, value@),
                ..old(self)@
            }),
    {
        proof {
            use_type_invariant(&*self);
        }
        match self.position(id) {
            Some(place) => {
                let ghost t = self@.objects;
                let mut objects: Vec<(ObjectId, PdfObject)> = Vec::new();
                core::mem::swap(&mut self.objects, &mut objects);
                set_in_dictionary_at(&mut objects, place, key, value);
                proof {
                    let u = table_view(objects@);
                    assert forall|i: int, j: int| 0 <= i < j < u.len() implies id_less(
                        #[trigger] u[i].0,
                        #[trigger] u[j].0,
                    ) by {
                        assert(id_less(t[i].0, t[j].0));
                    }
                }
                core::mem::swap(&mut self.objects, &mut objects);
                true
            },
            None => false,
        }
    }

    /// Sets `key` to `value` in the trailer.
    pub fn set_trailer_entry(&mut self, key: Vec<u8>, value: PdfObject)
        ensures
            final(self)@ == (DocumentView {
                trailer: with_entry(old(self)@.trailer, key@, value@),
                ..old(self)@
            }),
    {
        proof {
            use_type_invariant(&*self);
        }
        let mut trailer = PdfDictionary::new();
        core::mem::swap(&mut self.trailer, &mut trailer);
        trailer.set(key, value);
        core::mem::swap(&mut self.trailer, &mut trailer);
    }
}

} // verus!
