//! Errors of the library.

use vstd::prelude::*;

verus! {

/// Why bytes are not UTF-8.
#[derive(Debug, Clone, Copy, PartialEq, Eq)]
pub struct Utf8Fault {
    /// How many bytes in front are.
    pub valid_up_to: usize,
    /// How many bytes behind them are not; `None` where the bytes end too early.
    pub error_len: Option<usize>,
}

/// Why an LZ4 block does not unpack.
#[derive(Debug, Clone, Copy, PartialEq, Eq)]
pub enum Lz4Fault {
    /// It unpacks to more bytes than there is room for.
    OutputTooSmall { expected: u64, actual: u64 },
    /// It ends inside bytes that it spells out.
    LiteralOutOfBounds,
    /// It ends where another byte has to follow.
    ExpectedAnotherByte,
    /// It repeats what stands no bytes back.
    OffsetZero,
    /// It repeats what stands before the start.
    OffsetOutOfBounds,
}

/// Why text does not name an instant.
#[derive(Debug, Clone, Copy, PartialEq, Eq)]
pub enum DateTimeFault {
    /// A part of it lies outside its range.
    OutOfRange,
    /// Its parts do not go together.
    Impossible,
    /// It has too few parts.
    NotEnough,
    /// A character does not belong where it stands.
    Invalid,
    /// It ends too early.
    TooShort,
    /// It goes on behind the end.
    TooLong,
    /// What was asked for is not supported.
    BadFormat,
}

/// Why text is not Base64.
#[derive(Debug, Clone, Copy, PartialEq, Eq)]
pub enum Base64Fault {
    /// A byte is not of the alphabet.
    InvalidByte { offset: u64, byte: u8 },
    /// A number of symbols that none are encoded as.
    InvalidLength { len: u64 },
    /// The last symbol has bits that stand for nothing.
    InvalidLastSymbol { last_offset: u64, last: u8 },
    /// The padding is missing or wrong.
    InvalidPadding,
}

/// Every way an operation of the library can fail.
///
/// The variants carry the facts of the failure.
#[derive(Debug, PartialEq, Eq)]
pub enum LaurusError {
    /// The input ended inside the part named by `what`.
    Truncated { what: &'static str },
    /// A variable-length integer does not end within ten bytes or does not
    /// fit in 64 bits.
    Varint { what: &'static str },
    /// A header declares more bytes, or more items, than the input can hold.
    Overrun { what: &'static str, declared: u64, available: u64 },
    /// A string is not valid UTF-8.
    InvalidUtf8 { what: &'static str, utf8: Utf8Fault },
    /// Stored documents do not start with the mark of their format.
    StoredFieldsMagic,
    /// Stored documents have a version of their format that is not supported.
    StoredFieldsVersion { found: u8, supported: u8 },
    /// The checksum of a chunk does not match its payload.
    ChunkChecksum,
    /// A chunk declares more bytes than its payload can unpack to.
    Expansion { declared: u64, payload: u64 },
    /// A chunk does not unpack.
    Decompression { lz4: Lz4Fault },
    /// A chunk unpacks to another length than it declares.
    DecompressedSize { declared: u64, got: u64 },
    /// A chunk could not be packed: there was too little room for it.
    Compression,
    /// A chunk has an unknown codec.
    UnknownCodec { codec: u8 },
    /// The chunks hold another number of documents than the header declares.
    DocumentCount { declared: u64, decoded: u64 },
    /// A stored value has an unknown type tag.
    UnknownTag { tag: u8 },
    /// Text does not name an instant.
    BadDateTime { date_time: DateTimeFault },
    /// There are more points than the index can number.
    PointCount { count: u64 },
    /// A tree file does not start with the mark of its format.
    BkdMagic { bkd_magic: u32 },
    /// A tree file has a version that is not supported.
    BkdVersion { version: u32 },
    /// A tree file has coordinates of another size.
    BkdBytesPerDim { bytes_per_dim: u32 },
    /// A leaf declares more points than its tree has.
    LeafCount { points: u32, total: u64 },
    /// A leaf declares more points than a block has.
    LeafBlockSize { points: u32, block_size: u32 },
    /// A leaf declares more packed bytes than are left.
    LeafOverrun,
    /// A leaf declares gaps of more than 64 bits.
    DocIdBits { bits: u8 },
    /// The first gap of a leaf is not zero.
    FirstDelta,
    /// The index of a tree file leads back to itself.
    IndexCycle,
    /// The coordinates of a number of points cannot be counted.
    PointBufferOverflow,
    /// A buffer of points does not have the size that its documents call for.
    PointBufferSize { doc_ids: u64, dims: u32, expected: u64, got: u64 },
    /// A coordinate is not a number.
    NotANumber { doc_index: u64, dim: u64 },
    /// A subtree has no points.
    EmptySubtree,
    /// Ids ascend without repetition only so far.
    UnsortedIds { valid_until: u64 },
    /// A set of ids cannot be serialized.
    IdSetEncoding { words: String },
    /// The bytes of a segment's set of ids do not spell one.
    IdSetDecoding { segment_id: String, words: String },
    /// A segment's set of ids does not start with the mark of its format.
    IdSetMagic { segment_id: String, id_set_magic: u32 },
    /// The checksum of a segment's set of ids does not match its bytes.
    IdSetChecksum { segment_id: String },
    /// A segment's set of ids has a version that is not supported.
    IdSetVersion { segment_id: String, id_set_version: u16 },
    /// Columns do not start with the mark of their format.
    DocValuesMagic,
    /// Columns have a version of their format that is not supported.
    DocValuesVersion { major: u8, minor: u8 },
    /// The name of a column is not valid UTF-8.
    FieldName { utf8: Utf8Fault },
    /// A column cannot be serialized.
    ColumnEncoding { words: String },
    /// Bytes do not spell a column.
    ColumnDecoding { words: String },
    /// The values of a field have more text than offsets can address.
    FieldSize,
    /// A document would be written twice by a merge.
    EmittedTwice { doc_id: u64 },
    /// None of the segments that were to be merged is there.
    NoSegments,
    /// A merged segment does not hold as many documents as were written.
    MergedCount,
    /// The reader was closed.
    ReaderClosed,
    /// A number of microseconds lies outside the range of instants.
    DateTimeRange { micros: i64 },
}

impl Clone for LaurusError {
    fn clone(&self) -> (r: Self)
        ensures
            r == *self,
    {
        match self {
            LaurusError::Truncated { what } => LaurusError::Truncated { what: *what },
            LaurusError::Varint { what } => LaurusError::Varint { what: *what },
            LaurusError::Overrun { what, declared, available } => LaurusError::Overrun {
                what: *what,
                declared: *declared,
                available: *available,
            },
            LaurusError::InvalidUtf8 { what, utf8 } => LaurusError::InvalidUtf8 {
                what: *what,
                utf8: *utf8,
            },
            LaurusError::StoredFieldsMagic => LaurusError::StoredFieldsMagic,
            LaurusError::StoredFieldsVersion { found, supported } => LaurusError::StoredFieldsVersion {
                found: *found,
                supported: *supported,
            },
            LaurusError::ChunkChecksum => LaurusError::ChunkChecksum,
            LaurusError::Expansion { declared, payload } => LaurusError::Expansion {
                declared: *declared,
                payload: *payload,
            },
            LaurusError::Decompression { lz4 } => LaurusError::Decompression { lz4: *lz4 },
            LaurusError::DecompressedSize { declared, got } => LaurusError::DecompressedSize {
                declared: *declared,
                got: *got,
            },
            LaurusError::Compression => LaurusError::Compression,
            LaurusError::UnknownCodec { codec } => LaurusError::UnknownCodec { codec: *codec },
            LaurusError::DocumentCount { declared, decoded } => LaurusError::DocumentCount {
                declared: *declared,
                decoded: *decoded,
            },
            LaurusError::UnknownTag { tag } => LaurusError::UnknownTag { tag: *tag },
            LaurusError::BadDateTime { date_time } => LaurusError::BadDateTime {
                date_time: *date_time,
            },
            LaurusError::PointCount { count } => LaurusError::PointCount { count: *count },
            LaurusError::BkdMagic { bkd_magic } => LaurusError::BkdMagic { bkd_magic: *bkd_magic },
            LaurusError::BkdVersion { version } => LaurusError::BkdVersion { version: *version },
            LaurusError::BkdBytesPerDim { bytes_per_dim } => LaurusError::BkdBytesPerDim {
                bytes_per_dim: *bytes_per_dim,
            },
            LaurusError::LeafCount { points, total } => LaurusError::LeafCount {
                points: *points,
                total: *total,
            },
            LaurusError::LeafBlockSize { points, block_size } => LaurusError::LeafBlockSize {
                points: *points,
                block_size: *block_size,
            },
            LaurusError::LeafOverrun => LaurusError::LeafOverrun,
            LaurusError::DocIdBits { bits } => LaurusError::DocIdBits { bits: *bits },
            LaurusError::FirstDelta => LaurusError::FirstDelta,
            LaurusError::IndexCycle => LaurusError::IndexCycle,
            LaurusError::PointBufferOverflow => LaurusError::PointBufferOverflow,
            LaurusError::PointBufferSize { doc_ids, dims, expected, got } => LaurusError::PointBufferSize {
                doc_ids: *doc_ids,
                dims: *dims,
                expected: *expected,
                got: *got,
            },
            LaurusError::NotANumber { doc_index, dim } => LaurusError::NotANumber {
                doc_index: *doc_index,
                dim: *dim,
            },
            LaurusError::EmptySubtree => LaurusError::EmptySubtree,
            LaurusError::UnsortedIds { valid_until } => LaurusError::UnsortedIds {
                valid_until: *valid_until,
            },
            LaurusError::IdSetEncoding { words } => LaurusError::IdSetEncoding {
                words: words.clone(),
            },
            LaurusError::IdSetDecoding { segment_id, words } => LaurusError::IdSetDecoding {
                segment_id: segment_id.clone(),
                words: words.clone(),
            },
            LaurusError::IdSetMagic { segment_id, id_set_magic } => LaurusError::IdSetMagic {
                segment_id: segment_id.clone(),
                id_set_magic: *id_set_magic,
            },
            LaurusError::IdSetChecksum { segment_id } => LaurusError::IdSetChecksum {
                segment_id: segment_id.clone(),
            },
            LaurusError::IdSetVersion { segment_id, id_set_version } => LaurusError::IdSetVersion {
                segment_id: segment_id.clone(),
                id_set_version: *id_set_version,
            },
            LaurusError::DocValuesMagic => LaurusError::DocValuesMagic,
            LaurusError::DocValuesVersion { major, minor } => LaurusError::DocValuesVersion {
                major: *major,
                minor: *minor,
            },
            LaurusError::FieldName { utf8 } => LaurusError::FieldName { utf8: *utf8 },
            LaurusError::ColumnEncoding { words } => LaurusError::ColumnEncoding {
                words: words.clone(),
            },
            LaurusError::ColumnDecoding { words } => LaurusError::ColumnDecoding {
                words: words.clone(),
            },
            LaurusError::FieldSize => LaurusError::FieldSize,
            LaurusError::EmittedTwice { doc_id } => LaurusError::EmittedTwice { doc_id: *doc_id },
            LaurusError::NoSegments => LaurusError::NoSegments,
            LaurusError::MergedCount => LaurusError::MergedCount,
            LaurusError::ReaderClosed => LaurusError::ReaderClosed,
            LaurusError::DateTimeRange { micros } => LaurusError::DateTimeRange { micros: *micros },
        }
    }
}

/// Why a value does not suit a field.
#[derive(Debug, Clone, Copy, PartialEq, Eq)]
pub enum CoercionError {
    /// A value of one type has no counterpart in another.
    Cannot { from: &'static str, to: &'static str },
    /// An array was given for a field of single values.
    SingleValued,
    /// Text does not spell an integer.
    NotInteger,
    /// Text does not spell a number.
    NotFloat,
    /// Text spells neither truth value.
    NotBool,
    /// An integer other than zero and one stands for no truth value.
    BoolInteger { integer: i64 },
    /// Text does not name an instant.
    NotDateTime { date_time: DateTimeFault },
    /// Text is not Base64.
    NotBase64 { base64: Base64Fault },
    /// A vector field takes no value of this type.
    NotVector { from: &'static str },
}

/// A value does not suit the field that it is given for.
#[derive(Debug, PartialEq, Eq)]
pub struct FieldError {
    pub field: String,
    /// The value, where it is text.
    pub text: String,
    pub cause: CoercionError,
}

} // verus!
