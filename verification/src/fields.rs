//! The fields of an index, as its schema declares them.

use vstd::prelude::*;
use crate::error::ViewerError;
use crate::index::{
    field_count, field_indexing, field_is_fast, field_name, field_named, field_value_type,
    find_field, index_field_names, index_has_field, index_reader, lemma_known_field,
    reader_searcher, shows_index,
    snapshot_schema, FieldSpec, Indexing,
};
use crate::value::ValueType;

verus! {

/// What the schema declares of one field.
#[derive(Debug)]
pub struct FieldDescriptor {
    /// The name of the field.
    pub name: String,
    /// The type of the field's values.
    pub value_type: ValueType,
    /// What the index records of the field's terms.
    pub indexing: Indexing,
    /// Whether the field has columnar storage.
    pub fast: bool,
}

/// The fields of an index, by field id.
#[derive(Debug)]
pub struct Fields {
    pub fields: Vec<FieldDescriptor>,
}

impl View for FieldDescriptor {
    type V = FieldSpec;

    open spec fn view(&self) -> FieldSpec {
        FieldSpec {
            name: self.name@,
            value_type: self.value_type,
            indexing: self.indexing,
            fast: self.fast,
        }
    }
}

impl Fields {
    /// What the list says of each field, by field id.
    pub open spec fn specs(&self) -> Seq<FieldSpec> {
        Seq::new(self.fields@.len(), |i: int| self.fields@[i]@)
    }
}

/// The type of the values of a field of a snapshot.
///
/// Fails with `FieldNotFound` where the schema has no field of that name.
pub fn field_type_in(searcher: &tantivy::Searcher, field: &str) -> (r: Result<
    ValueType,
    ViewerError,
>)
    ensures
        field_type_found(*searcher, field@, r),
{
    match find_field(searcher, field) {
        Some(id) => {
            assert(field_named(snapshot_schema(*searcher), field@, id as int));
            Ok(field_value_type(searcher, id))
        },
        None => Err(ViewerError::FieldNotFound),
    }
}

/// The type of the values of a field of an index, in the snapshot that a new
/// reader on the index shows.
pub fn field_type(index: &tantivy::Index, field: &str) -> (r: Result<ValueType, ViewerError>)
    ensures
        (r matches Err(ViewerError::FieldNotFound)) <==> !index_field_names(*index).contains(
            field@,
        ),
        index_field_names(*index).contains(field@) ==> ((r matches Err(ViewerError::Storage(_)))
            || exists|searcher: tantivy::Searcher|
            shows_index(searcher, *index) && #[trigger] field_type_found(searcher, field@, r)),
{
    if !index_has_field(index, field) {
        return Err(ViewerError::FieldNotFound);
    }
    let reader = match index_reader(index) {
        Ok(reader) => reader,
        Err(e) => {
            return Err(ViewerError::Storage(e));
        },
    };
    let searcher = reader_searcher(&reader);
    let r = field_type_in(&searcher, field);
    proof {
        assert(shows_index(searcher, *index) && field_type_found(searcher, field@, r));
        lemma_known_field(searcher, *index, field@);
    }
    r
}

/// What `field_type_in` owes.
pub open spec fn field_type_found(
    searcher: tantivy::Searcher,
    field: Seq<char>,
    r: Result<ValueType, ViewerError>,
) -> bool {
    &&& (forall|id: int| !field_named(snapshot_schema(searcher), field, id)) ==> (r matches Err(
        ViewerError::FieldNotFound,
    ))
    &&& forall|id: int| #[trigger]
        field_named(snapshot_schema(searcher), field, id) ==> (r matches Ok(ty) && ty
            == snapshot_schema(searcher)[id].value_type)
}

/// The fields of a schema that have a field id: all of them, unless the
/// schema has more fields than there are 32-bit ids.
pub open spec fn listed(schema: Seq<FieldSpec>) -> Seq<FieldSpec> {
    if schema.len() <= u32::MAX {
        schema
    } else {
        schema.take(u32::MAX as int)
    }
}

/// The fields of a snapshot's schema, by field id.
pub fn get_fields_in(searcher: &tantivy::Searcher) -> (r: Fields)
    ensures
        r.specs() == listed(snapshot_schema(*searcher)),
{
    let n = field_count(searcher);
    let mut fields: Vec<FieldDescriptor> = Vec::new();
    let mut id: u32 = 0;
    while (id as usize) < n && id < u32::MAX
        invariant
            n == snapshot_schema(*searcher).len(),
            id <= n,
            fields@.len() == id,
            forall|i: int| 0 <= i < id ==> (#[trigger] fields@[i])@ == snapshot_schema(*searcher)[i],
        decreases u32::MAX - id,
    {
        fields.push(
            FieldDescriptor {
                name: field_name(searcher, id),
                value_type: field_value_type(searcher, id),
                indexing: field_indexing(searcher, id),
                fast: field_is_fast(searcher, id),
            },
        );
        id = id + 1;
    }
    let r = Fields { fields };
    proof {
        assert(r.specs() =~= listed(snapshot_schema(*searcher)));
    }
    r
}

/// The fields of an index's schema, in the snapshot that a new reader on the
/// index shows.
pub fn get_fields(index: &tantivy::Index) -> (r: Result<Fields, ViewerError>)
    ensures
        match r {
            Ok(fields) => exists|searcher: tantivy::Searcher|
                shows_index(searcher, *index) && listed(#[trigger] snapshot_schema(searcher))
                    == fields.specs(),
            Err(e) => e is Storage,
        },
{
    let reader = match index_reader(index) {
        Ok(reader) => reader,
        Err(e) => {
            return Err(ViewerError::Storage(e));
        },
    };
    let searcher = reader_searcher(&reader);
    let fields = get_fields_in(&searcher);
    assert(shows_index(searcher, *index) && listed(snapshot_schema(searcher)) == fields.specs());
    Ok(fields)
}

} // verus!
