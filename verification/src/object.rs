//! The object model: identifiers, objects and dictionaries, with their
//! mathematical views.

use vstd::prelude::*;

verus! {

/// An object identifier: object number and generation number.
pub type ObjectId = (u32, u16);

/// How a string object is written in a file.
#[derive(Clone, Copy, Debug, PartialEq, Eq, Structural)]
pub enum StringFormat {
    Literal,
    Hexadecimal,
}

/// A PDF object.
///
/// A real number is held as its decimal text, which is how a file holds it.
#[derive(Debug, PartialEq, Eq)]
pub enum PdfObject {
    Null,
    Boolean(bool),
    Integer(i64),
    Real(String),
    Name(Vec<u8>),
    String(Vec<u8>, StringFormat),
    Array(Vec<PdfObject>),
    Dictionary(PdfDictionary),
    Stream(PdfDictionary, Vec<u8>),
    Reference(ObjectId),
}

/// A dictionary: keys with their values, in the order of insertion. Where a
/// key occurs more than once, its last entry counts.
#[derive(Debug, PartialEq, Eq)]
pub struct PdfDictionary {
    pub entries: Vec<(Vec<u8>, PdfObject)>,
}

/// The mathematical value of a [`PdfObject`].
#[verifier::ext_equal]
pub enum ObjectView {
    Null,
    Boolean(bool),
    Integer(int),
    Real(Seq<char>),
    Name(Seq<u8>),
    String(Seq<u8>, StringFormat),
    Array(Seq<ObjectView>),
    Dictionary(Seq<(Seq<u8>, ObjectView)>),
    Stream(Seq<(Seq<u8>, ObjectView)>, Seq<u8>),
    Reference(ObjectId),
}

/// The mathematical value of a [`PdfDictionary`]: its entries in order.
pub type DictionaryView = Seq<(Seq<u8>, ObjectView)>;

/// The mathematical value of an object: the same kind of object, with
/// sequences in place of vectors and strings.
pub open spec fn object_view(o: PdfObject) -> ObjectView
    decreases o,
{
    match o {
        PdfObject::Null => ObjectView::Null,
        PdfObject::Boolean(b) => ObjectView::Boolean(b),
        PdfObject::Integer(i) => ObjectView::Integer(i as int),
        PdfObject::Real(t) => ObjectView::Real(t@),
        PdfObject::Name(n) => ObjectView::Name(n@),
        PdfObject::String(s, f) => ObjectView::String(s@, f),
        PdfObject::Array(items) => ObjectView::Array(
            Seq::new(
                items@.len(),
                |i: int|
                    if 0 <= i < items@.len() {
                        object_view(items@[i])
                    } else {
                        ObjectView::Null
                    },
            ),
        ),
        PdfObject::Dictionary(d) => ObjectView::Dictionary(dictionary_view(d)),
        PdfObject::Stream(d, content) => ObjectView::Stream(dictionary_view(d), content@),
        PdfObject::Reference(id) => ObjectView::Reference(id),
    }
}

/// The mathematical value of a dictionary: its entries in their order, each
/// a key with the mathematical value of its object.
pub open spec fn dictionary_view(d: PdfDictionary) -> DictionaryView
    decreases d,
{
    Seq::new(
        d.entries@.len(),
        |i: int|
            if 0 <= i < d.entries@.len() {
                (d.entries@[i].0@, object_view(d.entries@[i].1))
            } else {
                (Seq::empty(), ObjectView::Null)
            },
    )
}

impl View for PdfObject {
    type V = ObjectView;

    open spec fn view(&self) -> ObjectView {
        object_view(*self)
    }
}

impl View for PdfDictionary {
    type V = DictionaryView;

    open spec fn view(&self) -> DictionaryView {
        dictionary_view(*self)
    }
}

/// Whether an entry of `d` has the key `key`.
pub open spec fn has_key(d: DictionaryView, key: Seq<u8>) -> bool {
    exists|i: int| 0 <= i < d.len() && #[trigger] d[i].0 == key
}

/// Whether `i` is the place of the last entry of `d` with the key `key`.
pub open spec fn is_last_with_key(d: DictionaryView, key: Seq<u8>, i: int) -> bool {
    &&& 0 <= i < d.len()
    &&& d[i].0 == key
    &&& forall|j: int| i < j < d.len() ==> #[trigger] d[j].0 != key
}

/// The place of the last entry of `d` with the key `key`, where there is one.
pub open spec fn last_with_key(d: DictionaryView, key: Seq<u8>) -> int {
    choose|i: int| is_last_with_key(d, key, i)
}

/// The value that `d` gives for `key`: that of the last entry with this key.
pub open spec fn lookup(d: DictionaryView, key: Seq<u8>) -> Option<ObjectView> {
    if has_key(d, key) {
        Some(d[last_with_key(d, key)].1)
    } else {
        None
    }
}

/// `d` after `key` was set to `value`: the last entry with this key holds the
/// new value in its old place; without such an entry a new one stands last.
pub open spec fn with_entry(d: DictionaryView, key: Seq<u8>, value: ObjectView) -> DictionaryView {
    if has_key(d, key) {
        d.update(last_with_key(d, key), (key, value))
    } else {
        d.push((key, value))
    }
}

/// At most one place is the last with a given key, and there is one
/// whenever the key occurs.
pub proof fn lemma_last_with_key(d: DictionaryView, key: Seq<u8>)
    ensures
        has_key(d, key) ==> is_last_with_key(d, key, last_with_key(d, key)),
        forall|i: int| is_last_with_key(d, key, i) ==> i == last_with_key(d, key),
{
    if has_key(d, key) {
        let w = choose|i: int| 0 <= i < d.len() && #[trigger] d[i].0 == key;
        lemma_greatest_with_key(d, key, w);
    }
    assert forall|i: int| is_last_with_key(d, key, i) implies i == last_with_key(d, key) by {
        let f = last_with_key(d, key);
        assert(is_last_with_key(d, key, f));
        if i < f {
            assert(d[f].0 != key);
        }
        if f < i {
            assert(d[i].0 != key);
        }
    }
}

proof fn lemma_greatest_with_key(d: DictionaryView, key: Seq<u8>, w: int)
    requires
        0 <= w < d.len(),
        d[w].0 == key,
    ensures
        exists|i: int| is_last_with_key(d, key, i),
    decreases d.len() - w,
{
    if forall|j: int| w < j < d.len() ==> #[trigger] d[j].0 != key {
        assert(is_last_with_key(d, key, w));
    } else {
        let j = choose|j: int| w < j < d.len() && #[trigger] d[j].0 == key;
        lemma_greatest_with_key(d, key, j);
    }
}

/// After `key` was set, a lookup of `key` gives the new value and a lookup of
/// any other key gives what it gave before.
pub proof fn lemma_lookup_with_entry(
    d: DictionaryView,
    key: Seq<u8>,
    value: ObjectView,
    other: Seq<u8>,
)
    ensures
        lookup(with_entry(d, key, value), key) == Some(value),
        other != key ==> lookup(with_entry(d, key, value), other) == lookup(d, other),
{
    let e = with_entry(d, key, value);
    lemma_last_with_key(d, key);
    lemma_last_with_key(e, key);
    lemma_last_with_key(d, other);
    lemma_last_with_key(e, other);
    if has_key(d, key) {
        let f = last_with_key(d, key);
        assert(e[f].0 == key);
        assert forall|j: int| f < j < e.len() implies #[trigger] e[j].0 != key by {
            assert(d[j].0 != key);
        }
        assert(is_last_with_key(e, key, f));
        if other != key {
            if has_key(d, other) {
                let g = last_with_key(d, other);
                assert(e[g].0 == other);
                assert forall|j: int| g < j < e.len() implies #[trigger] e[j].0 != other by {
                    if j < d.len() {
                        assert(d[j].0 != other);
                    }
                }
                assert(is_last_with_key(e, other, g));
            } else {
                if has_key(e, other) {
                    let g = last_with_key(e, other);
                    assert(d[g].0 == other);
                }
            }
        }
    } else {
        let f = d.len() as int;
        assert(e[f].0 == key);
        assert forall|j: int| f < j < e.len() implies #[trigger] e[j].0 != key by {
            if d[j].0 == key {
                assert(has_key(d, key));
            }
        }
        assert(is_last_with_key(e, key, f));
        if other != key {
            if has_key(d, other) {
                let g = last_with_key(d, other);
                assert(e[g].0 == other);
                assert forall|j: int| g < j < e.len() implies #[trigger] e[j].0 != other by {
                    if j < d.len() {
                        assert(d[j].0 != other);
                    }
                }
                assert(is_last_with_key(e, other, g));
            } else {
                if has_key(e, other) {
                    let g = last_with_key(e, other);
                    assert(d[g].0 == other);
                }
            }
        }
    }
}

/// Setting a key to the same value a second time changes nothing.
pub proof fn lemma_with_entry_twice(d: DictionaryView, key: Seq<u8>, value: ObjectView)
    ensures
        with_entry(with_entry(d, key, value), key, value) == with_entry(d, key, value),
{
    let e = with_entry(d, key, value);
    lemma_last_with_key(d, key);
    lemma_last_with_key(e, key);
    let f = if has_key(d, key) {
        last_with_key(d, key)
    } else {
        d.len() as int
    };
    assert(e[f] == (key, value));
    assert forall|j: int| f < j < e.len() implies #[trigger] e[j].0 != key by {
        if has_key(d, key) {
            assert(d[j].0 != key);
        } else if d[j].0 == key {
            assert(has_key(d, key));
        }
    }
    assert(is_last_with_key(e, key, f));
    assert(has_key(e, key));
    assert(e.update(f, (key, value)) =~= e);
}

/// Whether two byte strings hold the same bytes.
pub fn bytes_equal(a: &[u8], b: &[u8]) -> (r: bool)
    ensures
        r == (a@ == b@),
{
    if a.len() != b.len() {
        return false;
    }
    let mut i: usize = 0;
    while i < a.len()
        invariant
            a@.len() == b@.len(),
            i <= a@.len(),
            forall|j: int| 0 <= j < i ==> a@[j] == b@[j],
        decreases a@.len() - i,
    {
        if a[i] != b[i] {
            return false;
        }
        i += 1;
    }
    assert(a@ =~= b@);
    true
}

/// A copy of a byte string.
pub fn copy_bytes(a: &[u8]) -> (r: Vec<u8>)
    ensures
        r@ == a@,
{
    let mut r: Vec<u8> = Vec::with_capacity(a.len());
    let mut i: usize = 0;
    while i < a.len()
        invariant
            i <= a@.len(),
            r@ == a@.subrange(0, i as int),
        decreases a@.len() - i,
    {
        r.push(a[i]);
        assert(a@.subrange(0, i as int).push(a@[i as int]) =~= a@.subrange(0, i + 1));
        i += 1;
    }
    assert(a@.subrange(0, a@.len() as int) =~= a@);
    r
}

/// A copy of an object.
pub fn copy_object(o: &PdfObject) -> (r: PdfObject)
    ensures
        r@ == o@,
    decreases o,
{
    match o {
        PdfObject::Null => PdfObject::Null,
        PdfObject::Boolean(b) => PdfObject::Boolean(*b),
        PdfObject::Integer(i) => PdfObject::Integer(*i),
        PdfObject::Real(t) => PdfObject::Real(t.clone()),
        PdfObject::Name(n) => PdfObject::Name(copy_bytes(n.as_slice())),
        PdfObject::String(s, f) => PdfObject::String(copy_bytes(s.as_slice()), *f),
        PdfObject::Reference(id) => PdfObject::Reference(*id),
        PdfObject::Array(items) => {
            let mut out: Vec<PdfObject> = Vec::with_capacity(items.len());
            let mut i: usize = 0;
            while i < items.len()
                invariant
                    o == PdfObject::Array(*items),
                    i <= items@.len(),
                    out@.len() == i,
                    forall|k: int| 0 <= k < i ==> (#[trigger] out@[k])@ == items@[k]@,
                decreases items@.len() - i,
            {
                assert(o->Array_0 == *items);
                let item = copy_object(&items[i]);
                out.push(item);
                i += 1;
            }
            let r = PdfObject::Array(out);
            assert(r@->Array_0 =~= o@->Array_0);
            r
        },
        PdfObject::Dictionary(d) => PdfObject::Dictionary(copy_dictionary(d)),
        PdfObject::Stream(d, content) => PdfObject::Stream(
            copy_dictionary(d),
            copy_bytes(content.as_slice()),
        ),
    }
}

/// A copy of a dictionary.
pub fn copy_dictionary(d: &PdfDictionary) -> (r: PdfDictionary)
    ensures
        r@ == d@,
    decreases d,
{
    let mut out: Vec<(Vec<u8>, PdfObject)> = Vec::with_capacity(d.entries.len());
    let mut i: usize = 0;
    while i < d.entries.len()
        invariant
            i <= d.entries@.len(),
            out@.len() == i,
            forall|k: int|
                0 <= k < i ==> (#[trigger] out@[k]).0@ == d.entries@[k].0@ && out@[k].1@
                    == d.entries@[k].1@,
        decreases d.entries@.len() - i,
    {
        let key = copy_bytes(d.entries[i].0.as_slice());
        let value = copy_object(&d.entries[i].1);
        out.push((key, value));
        i += 1;
    }
    let r = PdfDictionary { entries: out };
    assert(r@ =~= d@);
    r
}

impl Clone for PdfObject {
    fn clone(&self) -> (r: Self)
        ensures
            r@ == self@,
    {
        copy_object(self)
    }
}

impl Clone for PdfDictionary {
    fn clone(&self) -> (r: Self)
        ensures
            r@ == self@,
    {
        copy_dictionary(self)
    }
}

impl PdfDictionary {
    /// A dictionary without entries.
    pub fn new() -> (d: PdfDictionary)
        ensures
            d@ == Seq::<(Seq<u8>, ObjectView)>::empty(),
    {
        let d = PdfDictionary { entries: Vec::new() };
        assert(d@ =~= Seq::<(Seq<u8>, ObjectView)>::empty());
        d
    }

    /// The number of entries.
    pub fn len(&self) -> (n: usize)
        ensures
            n == self@.len(),
    {
        self.entries.len()
    }

    /// The place of the last entry with the key `key`.
    pub fn position(&self, key: &[u8]) -> (r: Option<usize>)
        ensures
            r is Some <==> has_key(self@, key@),
            r matches Some(i) ==> i < self@.len() && i == last_with_key(self@, key@),
    {
        let mut i: usize = self.entries.len();
        while i > 0
            invariant
                i <= self.entries@.len(),
                forall|j: int| i <= j < self@.len() ==> #[trigger] self@[j].0 != key@,
            decreases i,
        {
            i -= 1;
            if bytes_equal(self.entries[i].0.as_slice(), key) {
                proof {
                    assert(self@[i as int].0 == key@);
                    assert(is_last_with_key(self@, key@, i as int));
                    lemma_last_with_key(self@, key@);
                }
                return Some(i);
            }
        }
        None
    }

    /// The value for `key`: that of the last entry with this key.
    pub fn get(&self, key: &[u8]) -> (r: Option<&PdfObject>)
        ensures
            r is Some <==> has_key(self@, key@),
            r matches Some(o) ==> lookup(self@, key@) == Some(o@),
            r is None ==> lookup(self@, key@) is None,
    {
        match self.position(key) {
            Some(i) => Some(&self.entries[i].1),
            None => None,
        }
    }

    /// Sets `key` to `value`: in the last entry with this key, or else in a
    /// new last entry.
    pub fn set(&mut self, key: Vec<u8>, value: PdfObject)
        ensures
            final(self)@ == with_entry(old(self)@, key@, value@),
    {
        match self.position(key.as_slice()) {
            Some(i) => {
                self.entries.set(i, (key, value));
            },
            None => {
                self.entries.push((key, value));
            },
        }
        proof {
            let e = with_entry(old(self)@, key@, value@);
            assert(self@.len() == e.len());
            assert forall|j: int| 0 <= j < e.len() implies self@[j] == e[j] by {
                if j < old(self)@.len() {
                    assert(old(self)@[j] == (old(self).entries@[j].0@, old(self).entries@[j].1@));
                }
            }
            assert(self@ =~= e);
        }
    }
}

} // verus!
