//! What a reconstruction shows of one document: one entry for each field.

use vstd::prelude::*;
use crate::segment::DocId;
use crate::text::{content_text, stringify_values};
use crate::value::{views, TantivyValue};

verus! {

/// Which document to reconstruct, and which of its fields.
#[derive(Debug)]
pub struct ReconstructQuery {
    /// The field to reconstruct; all fields where none is given.
    pub field: Option<String>,
    /// The first digits of the id of the document's segment.
    pub segment: String,
    /// The document.
    pub doc: DocId,
}

/// The content of one field of a document, as text.
#[derive(Debug)]
pub struct ReconstructEntry {
    /// The name of the field.
    pub field: String,
    /// The content of the field: its values, each followed by a blank.
    pub contents: String,
}

/// What was reconstructed of one document.
#[derive(Debug)]
pub struct ReconstructData {
    /// The segment as the caller named it.
    pub segment: String,
    /// The document.
    pub doc: DocId,
    /// Whether all fields were asked for.
    pub all_fields: bool,
    /// One entry for each reconstructed field.
    pub entries: Vec<ReconstructEntry>,
}

impl ReconstructQuery {
    /// Whether all fields are asked for.
    pub fn all_fields(&self) -> (r: bool)
        ensures
            r == (self.field is None),
    {
        self.field.is_none()
    }
}

impl ReconstructEntry {
    /// The entry for a field with the reconstructed values.
    pub fn new(field: String, values: Vec<Option<TantivyValue>>) -> (r: ReconstructEntry)
        ensures
            r.field == field,
            r.contents@ == content_text(views(values@)),
    {
        ReconstructEntry { field, contents: stringify_values(values) }
    }
}

impl ReconstructData {
    /// The answer to a query, with the entries of the reconstructed fields.
    pub fn new(query: ReconstructQuery, entries: Vec<ReconstructEntry>) -> (r: ReconstructData)
        ensures
            r.segment == query.segment,
            r.doc == query.doc,
            r.all_fields == (query.field is None),
            r.entries == entries,
    {
        let all_fields = query.all_fields();
        ReconstructData { segment: query.segment, doc: query.doc, all_fields, entries }
    }
}

} // verus!
