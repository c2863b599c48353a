//! Introspection of a segmented inverted index: term frequencies across
//! segments, exact term lookup, and reconstruction of a document's field
//! content from postings and columnar storage.

pub mod bytes;
pub mod codec;
pub mod collect;
pub mod content;
pub mod debug;
pub mod entries;
pub mod error;
pub mod fields;
pub mod index;
pub mod laws;
pub mod parse;
pub mod query;
pub mod ranking;
pub mod reconstruct;
pub mod segment;
pub mod selection;
pub mod space_usage;
pub mod term_docs;
pub mod text;
pub mod top_terms;
pub mod value;
pub mod walk;

pub use debug::{DebugQuery, DebugTree};
pub use entries::{ReconstructData, ReconstructEntry, ReconstructQuery};
pub use error::ViewerError;
pub use fields::{field_type, field_type_in, get_fields, get_fields_in, FieldDescriptor, Fields};
pub use reconstruct::{reconstruct, reconstruct_in, reconstruct_one, reconstruct_one_in};
pub use segment::{find_segment, find_segment_in, parse_segment_id, DocId, SegmentId};
pub use space_usage::{space_usage, SpaceUsage};
pub use term_docs::{term_docs, term_docs_in};
pub use text::stringify_values;
pub use top_terms::{top_terms, top_terms_in, TermCount, TopTerms};
pub use value::{TantivyValue, ValueType};
