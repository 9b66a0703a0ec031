//! The fields of a schema.

use vstd::prelude::*;

use crate::field::{
    BooleanOption, BytesOption, DateTimeOption, FloatOption, Geo3dOption, GeoOption, IntegerOption,
    TextOption,
};

verus! {

/// A field of vectors in a graph of small worlds.
#[derive(Debug, Clone, Copy, PartialEq, Eq, Structural)]
pub struct HnswOption {
    pub dimension: usize,
}

/// A field of vectors in a list.
#[derive(Debug, Clone, Copy, PartialEq, Eq, Structural)]
pub struct FlatOption {
    pub dimension: usize,
}

/// A field of vectors in cells.
#[derive(Debug, Clone, Copy, PartialEq, Eq, Structural)]
pub struct IvfOption {
    pub dimension: usize,
}

/// The declared type of a field.
#[derive(Debug, Clone, Copy, PartialEq, Eq, Structural)]
pub enum FieldOption {
    Text(TextOption),
    Integer(IntegerOption),
    Float(FloatOption),
    Boolean(BooleanOption),
    DateTime(DateTimeOption),
    Geo(GeoOption),
    Geo3d(Geo3dOption),
    Bytes(BytesOption),
    Hnsw(HnswOption),
    Flat(FlatOption),
    Ivf(IvfOption),
}

} // verus!
