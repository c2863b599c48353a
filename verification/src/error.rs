//! The errors of the library.

use vstd::prelude::*;

verus! {

#[verifier::external_type_specification]
#[verifier::external_body]
pub struct ExTantivyError(tantivy::TantivyError);

/// Why an operation on the index gave no result.
#[derive(Debug)]
pub enum ViewerError {
    /// The schema has no field of the given name.
    FieldNotFound,
    /// The field lacks the storage that the access needs.
    UnsupportedFieldAccess,
    /// No segment of the snapshot has the given id, or an id with the given prefix.
    SegmentNotFound,
    /// The text of a term is no value of the field's declared type, or a
    /// dictionary key is no encoding of one.
    InvalidTermValue,
    /// The field's declared type is one that the library does not handle.
    Unimplemented,
    /// The index could not be read; the storage layer's error is passed on as it came.
    Storage(tantivy::TantivyError),
}

impl ViewerError {
    /// Whether the caller's input, not the index, is to blame: an unknown
    /// field or segment, a malformed term, an access the field does not allow.
    pub fn is_client_error(&self) -> (r: bool)
        ensures
            r == !(*self is Storage || *self is Unimplemented),
    {
        match self {
            ViewerError::FieldNotFound => true,
            ViewerError::UnsupportedFieldAccess => true,
            ViewerError::SegmentNotFound => true,
            ViewerError::InvalidTermValue => true,
            ViewerError::Unimplemented => false,
            ViewerError::Storage(_) => false,
        }
    }
}

} // verus!
