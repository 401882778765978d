//! Merging documents, and merging what was read from the bytes of
//! documents.

use crate::codec::{encoded, into_source, save_document_to_bytes, source_of};
use crate::document::{DocumentView, PdfDocument};
use crate::error::MergeError;
use crate::merge::{merge_failure, merge_result, merge_sources, Source, SourceView};
use vstd::prelude::*;

verus! {

/// The documents as sources of a merge, each with the pages that its page
/// tree gives.
pub open spec fn sources_of(documents: Seq<PdfDocument>) -> Seq<SourceView> {
    documents.map_values(|d: PdfDocument| source_of(d@))
}

/// Merges `documents` into one, in their order.
///
/// Without a document it fails. A single document is returned as it is. Of
/// two or more, all objects are copied under fresh identifiers into a new
/// document, whose page tree holds the pages of all of them: those of the
/// first document first, each document's pages in the order in which its
/// own page tree gives them.
pub fn merge_documents(documents: Vec<PdfDocument>) -> (r: Result<PdfDocument, MergeError>)
    ensures
        match r {
            Ok(merged) => merge_failure(sources_of(documents@)) is None && merged@ == merge_result(
                sources_of(documents@),
            ),
            Err(e) => merge_failure(sources_of(documents@)) == Some(e),
        },
{
    let ghost s = sources_of(documents@);
    if documents.len() == 1 {
        let mut rest = documents;
        match rest.pop() {
            Some(only) => {
                assert(source_of(only@) == s[0]);
                return Ok(only);
            },
            None => {
                return Err(MergeError::EmptyInput);
            },
        }
    }
    let ghost all = documents@;
    let mut sources: Vec<Source> = Vec::with_capacity(documents.len());
    for document in it: documents
        invariant
            it.seq() == all,
            s == sources_of(all),
            sources@.len() == it.index(),
            forall|k: int| 0 <= k < it.index() ==> (#[trigger] sources@[k])@ == s[k],
    {
        sources.push(into_source(document));
    }
    proof {
        assert(crate::merge::sources_view(sources@) =~= s);
    }
    merge_sources(sources)
}

/// What is to be done with the bytes of documents before any is read.
#[derive(Debug, PartialEq, Eq)]
pub enum MergeStart {
    /// Nothing is to be read: this is the outcome of the merge.
    Finished(Result<Vec<u8>, MergeError>),
    /// These inputs are to be read, in their order, and what was read is to
    /// be merged.
    Read(Vec<Vec<u8>>),
}

/// The bytes of each input.
pub open spec fn inputs_view(list: Seq<Vec<u8>>) -> Seq<Seq<u8>> {
    list.map_values(|b: Vec<u8>| b@)
}

/// Decides what is to be done with the bytes of documents before any is
/// read. Without an input the merge fails. A single input is the outcome,
/// byte for byte and unread. Two or more are to be read.
pub fn start_merge(pdf_bytes_list: Vec<Vec<u8>>) -> (r: MergeStart)
    ensures
        match r {
            MergeStart::Finished(Err(e)) => pdf_bytes_list@.len() == 0 && e
                == MergeError::EmptyInput,
            MergeStart::Finished(Ok(bytes)) => pdf_bytes_list@.len() == 1 && bytes@
                == pdf_bytes_list@[0]@,
            MergeStart::Read(inputs) => pdf_bytes_list@.len() >= 2 && inputs_view(inputs@)
                == inputs_view(pdf_bytes_list@),
        },
{
    if pdf_bytes_list.len() == 0 {
        return MergeStart::Finished(Err(MergeError::EmptyInput));
    }
    if pdf_bytes_list.len() == 1 {
        let mut rest = pdf_bytes_list;
        match rest.pop() {
            Some(only) => {
                return MergeStart::Finished(Ok(only));
            },
            None => {
                return MergeStart::Finished(Err(MergeError::EmptyInput));
            },
        }
    }
    MergeStart::Read(pdf_bytes_list)
}

/// What reading the inputs gave, each as its mathematical value.
pub open spec fn read_view(read: Seq<Option<PdfDocument>>) -> Seq<Option<DocumentView>> {
    read.map_values(
        |o: Option<PdfDocument>|
            match o {
                Some(d) => Some(d@),
                None => None,
            },
    )
}

/// Whether `i` is the place of the first input that gave no document.
pub open spec fn is_first_unread(read: Seq<Option<DocumentView>>, i: int) -> bool {
    &&& 0 <= i < read.len()
    &&& read[i] is None
    &&& forall|j: int| 0 <= j < i ==> (#[trigger] read[j]) is Some
}

/// The documents that were read, each as a source with the pages that its
/// page tree gives.
pub open spec fn read_sources(read: Seq<Option<DocumentView>>) -> Seq<SourceView> {
    Seq::new(read.len(), |i: int| source_of(read[i]->0))
}

/// What merging gives from what reading the inputs gave.
///
/// The first input that gave no document makes the merge fail, with its
/// place. If all gave one, the documents are merged and the merged document
/// is encoded.
pub open spec fn merged_bytes(read: Seq<Option<DocumentView>>) -> Result<Seq<u8>, MergeError> {
    if exists|i: int| is_first_unread(read, i) {
        Err(MergeError::ParseFailure { index: (choose|i: int| is_first_unread(read, i)) as usize })
    } else {
        match merge_failure(read_sources(read)) {
            Some(e) => Err(e),
            None => match encoded(merge_result(read_sources(read))) {
                Some(bytes) => Ok(bytes),
                None => Err(MergeError::SerializationFailure),
            },
        }
    }
}

/// Merges what was read from the inputs into the bytes of one document.
/// `read` holds, for each input in order, the document that it was read as,
/// or `None` where it is no well-formed document; it may end with the first
/// `None`. No identifier is given out and nothing is copied where an input
/// gave no document.
pub fn merge_read(read: Vec<Option<PdfDocument>>) -> (r: Result<Vec<u8>, MergeError>)
    ensures
        match r {
            Ok(bytes) => merged_bytes(read_view(read@)) == Ok::<Seq<u8>, MergeError>(bytes@),
            Err(e) => merged_bytes(read_view(read@)) == Err::<Seq<u8>, MergeError>(e),
        },
{
    let ghost all = read@;
    let ghost v = read_view(all);
    let count: usize = read.len();
    let mut documents: Vec<PdfDocument> = Vec::with_capacity(read.len());
    let mut place: usize = 0;
    for outcome in it: read
        invariant
            it.seq() == all,
            v == read_view(all),
            all.len() == count,
            place == it.index(),
            documents@.len() == it.index(),
            forall|k: int| 0 <= k < it.index() ==> (#[trigger] v[k]) == Some(documents@[k]@),
    {
        assert(v[place as int] == read_view(all)[place as int]);
        match outcome {
            Some(document) => {
                documents.push(document);
            },
            None => {
                proof {
                    assert(is_first_unread(v, place as int));
                    let c = choose|c: int| is_first_unread(v, c);
                    assert(is_first_unread(v, c));
                    if c < place {
                        assert(v[c] is Some);
                    }
                    if place < c {
                        assert(v[place as int] is Some);
                    }
                }
                return Err(MergeError::ParseFailure { index: place });
            },
        }
        place += 1;
    }
    proof {
        assert forall|c: int| !is_first_unread(v, c) by {
            if is_first_unread(v, c) {
                assert(v[c] is Some);
            }
        }
        assert(sources_of(documents@) =~= read_sources(v));
    }
    match merge_documents(documents) {
        Ok(merged) => save_document_to_bytes(&merged),
        Err(e) => Err(e),
    }
}

} // verus!
