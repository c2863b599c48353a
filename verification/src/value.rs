//! The typed values of the index: what a term stands for and what a
//! reconstructed field holds.

use vstd::prelude::*;

verus! {

/// The value type that a schema declares for a field.
#[derive(Clone, Copy, Debug, PartialEq, Eq, Structural)]
pub enum ValueType {
    Str,
    U64,
    I64,
    F64,
    Bool,
    Date,
    Facet,
    Bytes,
    Json,
    IpAddr,
}

/// A typed value: the payload of a term, or one value of a reconstructed field.
#[derive(Eq, PartialEq, PartialOrd, Ord, Debug, Clone)]
pub enum TantivyValue {
    I64(i64),
    U64(u64),
    Text(String),
    Bytes(Vec<u8>),
}

/// What a `TantivyValue` holds, as mathematics.
pub enum ValueView {
    I64(i64),
    U64(u64),
    Text(Seq<char>),
    Bytes(Seq<u8>),
}

impl View for TantivyValue {
    type V = ValueView;

    open spec fn view(&self) -> ValueView {
        match self {
            TantivyValue::I64(v) => ValueView::I64(*v),
            TantivyValue::U64(v) => ValueView::U64(*v),
            TantivyValue::Text(s) => ValueView::Text(s@),
            TantivyValue::Bytes(b) => ValueView::Bytes(b@),
        }
    }
}

impl ValueView {
    /// The value type under which the value is stored.
    pub open spec fn value_type(self) -> ValueType {
        match self {
            ValueView::I64(_) => ValueType::I64,
            ValueView::U64(_) => ValueType::U64,
            ValueView::Text(_) => ValueType::Str,
            ValueView::Bytes(_) => ValueType::Bytes,
        }
    }
}

/// The views of a sequence of optional values, position by position.
pub open spec fn views(s: Seq<Option<TantivyValue>>) -> Seq<Option<ValueView>> {
    Seq::new(
        s.len(),
        |i: int|
            match s[i] {
                Some(v) => Some(v@),
                None => None,
            },
    )
}

impl TantivyValue {
    /// A second value that holds the same as `self`.
    pub fn duplicate(&self) -> (r: TantivyValue)
        ensures
            r@ == self@,
    {
        match self {
            TantivyValue::I64(v) => TantivyValue::I64(*v),
            TantivyValue::U64(v) => TantivyValue::U64(*v),
            TantivyValue::Text(s) => TantivyValue::Text(s.clone()),
            TantivyValue::Bytes(b) => TantivyValue::Bytes(b.clone()),
        }
    }

    /// The value type under which the value is stored.
    pub fn value_type(&self) -> (r: ValueType)
        ensures
            r == self@.value_type(),
    {
        match self {
            TantivyValue::I64(_) => ValueType::I64,
            TantivyValue::U64(_) => ValueType::U64,
            TantivyValue::Text(_) => ValueType::Str,
            TantivyValue::Bytes(_) => ValueType::Bytes,
        }
    }
}

} // verus!
