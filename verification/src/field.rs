//! How fields are indexed and stored.

use vstd::prelude::*;

verus! {

/// The gap between the elements of a text field with several values, where the
/// field does not set one.
pub const DEFAULT_POSITION_INCREMENT_GAP: u32 = 100;

/// A text field.
#[derive(Debug, Clone, Copy, PartialEq, Eq, Structural)]
pub struct TextOption {
    pub indexed: bool,
    pub stored: bool,
    /// The gap between the positions of two elements.
    pub position_increment_gap: u32,
}

/// An integer field.
#[derive(Debug, Clone, Copy, PartialEq, Eq, Structural)]
pub struct IntegerOption {
    pub indexed: bool,
    pub stored: bool,
    pub multi_valued: bool,
}

/// A float field.
#[derive(Debug, Clone, Copy, PartialEq, Eq, Structural)]
pub struct FloatOption {
    pub indexed: bool,
    pub stored: bool,
    pub multi_valued: bool,
}

/// A boolean field.
#[derive(Debug, Clone, Copy, PartialEq, Eq, Structural)]
pub struct BooleanOption {
    pub indexed: bool,
    pub stored: bool,
    pub multi_valued: bool,
}

/// A datetime field.
#[derive(Debug, Clone, Copy, PartialEq, Eq, Structural)]
pub struct DateTimeOption {
    pub indexed: bool,
    pub stored: bool,
    pub multi_valued: bool,
}

/// A field of points on the earth.
#[derive(Debug, Clone, Copy, PartialEq, Eq, Structural)]
pub struct GeoOption {
    pub indexed: bool,
    pub stored: bool,
    pub multi_valued: bool,
}

/// A field of points in earth-centred coordinates.
#[derive(Debug, Clone, Copy, PartialEq, Eq, Structural)]
pub struct Geo3dOption {
    pub indexed: bool,
    pub stored: bool,
    pub multi_valued: bool,
}

/// A field of bytes, which is never indexed.
#[derive(Debug, Clone, Copy, PartialEq, Eq, Structural)]
pub struct BytesOption {
    pub stored: bool,
}

impl Default for TextOption {
    fn default() -> (r: TextOption)
        ensures
            r == (TextOption {
                indexed: true,
                stored: true,
                position_increment_gap: DEFAULT_POSITION_INCREMENT_GAP,
            }),
    {
        TextOption {
            indexed: true,
            stored: true,
            position_increment_gap: DEFAULT_POSITION_INCREMENT_GAP,
        }
    }
}

impl Default for IntegerOption {
    fn default() -> (r: IntegerOption)
        ensures
            r == (IntegerOption { indexed: true, stored: true, multi_valued: false }),
    {
        IntegerOption { indexed: true, stored: true, multi_valued: false }
    }
}

impl Default for FloatOption {
    fn default() -> (r: FloatOption)
        ensures
            r == (FloatOption { indexed: true, stored: true, multi_valued: false }),
    {
        FloatOption { indexed: true, stored: true, multi_valued: false }
    }
}

impl Default for BooleanOption {
    fn default() -> (r: BooleanOption)
        ensures
            r == (BooleanOption { indexed: true, stored: true, multi_valued: false }),
    {
        BooleanOption { indexed: true, stored: true, multi_valued: false }
    }
}

impl Default for DateTimeOption {
    fn default() -> (r: DateTimeOption)
        ensures
            r == (DateTimeOption { indexed: true, stored: true, multi_valued: false }),
    {
        DateTimeOption { indexed: true, stored: true, multi_valued: false }
    }
}

impl Default for GeoOption {
    fn default() -> (r: GeoOption)
        ensures
            r == (GeoOption { indexed: true, stored: true, multi_valued: false }),
    {
        GeoOption { indexed: true, stored: true, multi_valued: false }
    }
}

impl Default for Geo3dOption {
    fn default() -> (r: Geo3dOption)
        ensures
            r == (Geo3dOption { indexed: true, stored: true, multi_valued: false }),
    {
        Geo3dOption { indexed: true, stored: true, multi_valued: false }
    }
}

impl Default for BytesOption {
    fn default() -> (r: BytesOption)
        ensures
            r == (BytesOption { stored: true }),
    {
        BytesOption { stored: true }
    }
}

/// How a field of the lexical index is indexed and stored.
#[derive(Debug, Clone, Copy, PartialEq, Eq, Structural)]
pub enum FieldOption {
    Text(TextOption),
    Integer(IntegerOption),
    Float(FloatOption),
    Boolean(BooleanOption),
    DateTime(DateTimeOption),
    Geo(GeoOption),
    Geo3d(Geo3dOption),
    Bytes(BytesOption),
}

impl FieldOption {
    /// Whether the field is indexed.
    pub open spec fn is_indexed(self) -> bool {
        match self {
            FieldOption::Text(o) => o.indexed,
            FieldOption::Integer(o) => o.indexed,
            FieldOption::Float(o) => o.indexed,
            FieldOption::Boolean(o) => o.indexed,
            FieldOption::DateTime(o) => o.indexed,
            FieldOption::Geo(o) => o.indexed,
            FieldOption::Geo3d(o) => o.indexed,
            FieldOption::Bytes(_) => false,
        }
    }

    /// Whether the field is stored.
    pub open spec fn is_stored(self) -> bool {
        match self {
            FieldOption::Text(o) => o.stored,
            FieldOption::Integer(o) => o.stored,
            FieldOption::Float(o) => o.stored,
            FieldOption::Boolean(o) => o.stored,
            FieldOption::DateTime(o) => o.stored,
            FieldOption::Geo(o) => o.stored,
            FieldOption::Geo3d(o) => o.stored,
            FieldOption::Bytes(o) => o.stored,
        }
    }

    /// Whether the field is indexed.
    pub fn indexed(&self) -> (r: bool)
        ensures
            r == self.is_indexed(),
    {
        match self {
            FieldOption::Text(o) => o.indexed,
            FieldOption::Integer(o) => o.indexed,
            FieldOption::Float(o) => o.indexed,
            FieldOption::Boolean(o) => o.indexed,
            FieldOption::DateTime(o) => o.indexed,
            FieldOption::Geo(o) => o.indexed,
            FieldOption::Geo3d(o) => o.indexed,
            FieldOption::Bytes(_) => false,
        }
    }

    /// Whether the field is stored.
    pub fn stored(&self) -> (r: bool)
        ensures
            r == self.is_stored(),
    {
        match self {
            FieldOption::Text(o) => o.stored,
            FieldOption::Integer(o) => o.stored,
            FieldOption::Float(o) => o.stored,
            FieldOption::Boolean(o) => o.stored,
            FieldOption::DateTime(o) => o.stored,
            FieldOption::Geo(o) => o.stored,
            FieldOption::Geo3d(o) => o.stored,
            FieldOption::Bytes(o) => o.stored,
        }
    }
}

/// The gap between the elements of a field.
pub open spec fn gap_for(option: Option<FieldOption>) -> u32 {
    match option {
        Some(FieldOption::Text(o)) => o.position_increment_gap,
        _ => DEFAULT_POSITION_INCREMENT_GAP,
    }
}

/// The gap between the elements of a field.
pub fn position_increment_gap_for(option: Option<&FieldOption>) -> (r: u32)
    ensures
        r == gap_for(match option {
            Some(o) => Some(*o),
            None => None,
        }),
{
    match option {
        Some(FieldOption::Text(o)) => o.position_increment_gap,
        _ => DEFAULT_POSITION_INCREMENT_GAP,
    }
}

} // verus!
