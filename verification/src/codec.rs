//! Listing the pages of a document and writing a document with the
//! `lopdf` crate.
//!
//! The calls into `lopdf` stand behind functions whose bodies are not
//! verified. What is taken on trust of each is said above it. Reading a
//! file is not among them: the reader of `lopdf` does not come back from
//! every file, so a program reads and hands the library what it read.

use crate::document::{highest_number, DocumentView, PdfDocument};
use crate::error::MergeError;
use crate::merge::{Source, SourceView};
use crate::object::{ObjectId, PdfDictionary, PdfObject, StringFormat};
use vstd::prelude::*;

verus! {

#[verifier::external_type_specification]
#[verifier::external_body]
pub struct ExObject(lopdf::Object);

#[verifier::external_type_specification]
#[verifier::external_body]
pub struct ExDictionary(lopdf::Dictionary);

#[verifier::external_type_specification]
#[verifier::external_body]
pub struct ExDocument(lopdf::Document);

/// What `lopdf::Document::get_pages` finds in a document with these parts:
/// the identifiers of its pages, in the order of the pages.
pub uninterp spec fn document_pages(document: DocumentView) -> Seq<ObjectId>;

/// What `lopdf::Document::save_to` writes for a new document with these
/// parts, whose `max_id` is the greatest object number in use; `None` where
/// it reports an error.
pub uninterp spec fn serialized_document(document: DocumentView) -> Option<Seq<u8>>;

/// Copies a `PdfObject` that holds no other object into a `lopdf::Object`
/// of the same kind, a real number as what Rust parses from its text (zero
/// where that is no number). Nothing is stated of the result.
#[verifier::external_body]
fn export_scalar(o: &PdfObject) -> (r: lopdf::Object) {
    match o {
        PdfObject::Null => lopdf::Object::Null,
        PdfObject::Boolean(b) => lopdf::Object::Boolean(*b),
        PdfObject::Integer(i) => lopdf::Object::Integer(*i),
        PdfObject::Real(t) => lopdf::Object::Real(t.parse().unwrap_or_default()),
        PdfObject::Name(n) => lopdf::Object::Name(n.clone()),
        PdfObject::String(s, StringFormat::Literal) => lopdf::Object::String(s.clone(), lopdf::StringFormat::Literal),
        PdfObject::String(s, StringFormat::Hexadecimal) => lopdf::Object::String(s.clone(), lopdf::StringFormat::Hexadecimal),
        PdfObject::Reference(id) => lopdf::Object::Reference(*id),
        other => export_object(other),
    }
}

/// Copies a `PdfObject` into a `lopdf::Object` of the same kind, with the
/// items of an array and the entries of a dictionary in their order; a
/// stream is one that `lopdf` may compress and that has no place in a file.
/// Nothing is stated of the result.
#[verifier::external_body]
fn export_object(o: &PdfObject) -> (r: lopdf::Object) {
    match o {
        PdfObject::Array(a) => lopdf::Object::Array(a.iter().map(export_object).collect()),
        PdfObject::Dictionary(d) => lopdf::Object::Dictionary(export_dictionary(d)),
        PdfObject::Stream(d, c) => lopdf::Object::Stream(lopdf::Stream {
            dict: export_dictionary(d),
            content: c.clone(),
            allows_compression: true,
            start_position: None,
        }),
        other => export_scalar(other),
    }
}

/// Puts the entries of a dictionary into a new `lopdf::Dictionary`, one
/// after another; of a key that occurs more than once `lopdf` keeps the
/// value that was put in last. Nothing is stated of the result.
#[verifier::external_body]
fn export_dictionary(d: &PdfDictionary) -> (r: lopdf::Dictionary) {
    d.entries.iter().map(|(k, v)| (k.clone(), export_object(v))).collect()
}

/// Makes a `lopdf::Document` with `lopdf::Document::with_version` and gives
/// it the trailer and the objects of `document`. Nothing is stated of the
/// result.
#[verifier::external_body]
fn export_document(document: &PdfDocument) -> (r: lopdf::Document) {
    let mut raw = lopdf::Document::with_version(document.version.clone());
    raw.trailer = export_dictionary(&document.trailer);
    raw.objects = document.objects.iter().map(|(id, o)| (*id, export_object(o))).collect();
    raw
}

/// Calls `lopdf::Document::get_pages` on a copy of `document` and hands out
/// the identifiers of the pages in the order of their page numbers.
///
/// Taken on trust: that the outcome depends on the parts of `document`
/// alone.
#[verifier::external_body]
fn enumerate_pages(document: &PdfDocument) -> (r: Vec<ObjectId>)
    ensures
        r@ == document_pages(document@),
{
    export_document(document).get_pages().into_values().collect()
}

/// Calls `lopdf::Document::save_to` on a copy of `document` whose `max_id`
/// is `max_id`, with a byte vector as the target, and hands out the bytes
/// written; `None` where it reports an error.
///
/// Taken on trust: that the outcome depends on the parts of `document`
/// alone. The writer adds 2 to `max_id` in 32 bits, which must not overflow.
#[verifier::external_body]
fn write_bytes(document: &PdfDocument, max_id: u32) -> (r: Option<Vec<u8>>)
    requires
        max_id == highest_number(document@.objects),
        max_id + 2 <= u32::MAX,
    ensures
        match r {
            Some(bytes) => serialized_document(document@) == Some(bytes@),
            None => serialized_document(document@) is None,
        },
{
    let mut raw = export_document(document);
    raw.max_id = max_id;
    let mut bytes: Vec<u8> = Vec::new();
    raw.save_to(&mut bytes).ok().map(|_| bytes)
}

/// Makes `document` the source of a merge, with the pages that its page
/// tree gives.
pub fn into_source(document: PdfDocument) -> (r: Source)
    ensures
        r@ == source_of(document@),
{
    let pages = enumerate_pages(&document);
    Source { document, pages }
}

/// A document as the source of a merge: with the pages that its page tree
/// gives.
pub open spec fn source_of(document: DocumentView) -> SourceView {
    SourceView { document, pages: document_pages(document) }
}

/// The bytes that a document is encoded to. There are none where the
/// writer reports an error, nor where the greatest object number of the
/// document leaves no room for the cross-reference stream that a file ends
/// with: the stream takes the number after it, and the size of the file's
/// table is one more.
pub open spec fn encoded(document: DocumentView) -> Option<Seq<u8>> {
    if highest_number(document.objects) + 2 > u32::MAX {
        None
    } else {
        serialized_document(document)
    }
}

/// Encodes `doc` to bytes. Fails with `SerializationFailure` where it
/// cannot be encoded.
pub fn save_document_to_bytes(doc: &PdfDocument) -> (r: Result<Vec<u8>, MergeError>)
    ensures
        match r {
            Ok(bytes) => encoded(doc@) == Some(bytes@),
            Err(e) => encoded(doc@) is None && e == MergeError::SerializationFailure,
        },
{
    let max_id = doc.highest_number();
    if max_id > u32::MAX - 2 {
        return Err(MergeError::SerializationFailure);
    }
    match write_bytes(doc, max_id) {
        Some(bytes) => Ok(bytes),
        None => Err(MergeError::SerializationFailure),
    }
}

} // verus!
