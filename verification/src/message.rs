//! Errors in words.

use vstd::prelude::*;

use crate::bkd_tree::BKD_VERSION;
use crate::error::{
    Base64Fault, CoercionError, DateTimeFault, FieldError, LaurusError, Lz4Fault, Utf8Fault,
};
use crate::numbers;

verus! {

/// A piece of a message.
#[derive(Clone, Copy)]
pub enum Piece {
    Text(&'static str),
    Number(u64),
    Signed(i64),
    /// A number in hexadecimal digits.
    Hex(u32),
    /// A number in eight hexadecimal digits.
    WideHex(u32),
    /// The text that was given.
    Given,
}

/// The characters of a piece.
pub open spec fn piece_text(p: Piece, given: Seq<char>) -> Seq<char> {
    match p {
        Piece::Text(s) => s@,
        Piece::Number(n) => numbers::decimal(n as nat),
        Piece::Signed(i) => numbers::integer_text(i),
        Piece::Hex(n) => numbers::hexadecimal(n as nat),
        Piece::WideHex(n) => numbers::hexadecimal_of(n as nat, 8),
        Piece::Given => given,
    }
}

/// The characters of the first `n` pieces.
pub open spec fn pieces_text(pieces: Seq<Piece>, given: Seq<char>, n: int) -> Seq<char>
    decreases n,
{
    if n <= 0 {
        Seq::empty()
    } else {
        pieces_text(pieces, given, n - 1) + piece_text(pieces[n - 1], given)
    }
}

/// Puts the pieces of a message behind a text.
fn push_pieces(out: &mut String, pieces: &Vec<Piece>, given: &str)
    ensures
        final(out)@ == old(out)@ + pieces_text(pieces@, given@, pieces@.len() as int),
{
    let ghost first = out@;
    let n: usize = pieces.len();
    let mut i: usize = 0;
    assert(out@ =~= first + pieces_text(pieces@, given@, 0));
    while i < n
        invariant
            n == pieces@.len(),
            i <= n,
            out@ == first + pieces_text(pieces@, given@, i as int),
        decreases n - i,
    {
        match pieces[i] {
            Piece::Text(s) => out.append(s),
            Piece::Number(v) => numbers::push_decimal(out, v),
            Piece::Signed(v) => out.append(numbers::integer_to_text(v).as_str()),
            Piece::Hex(v) => numbers::push_hexadecimal(out, v),
            Piece::WideHex(v) => numbers::push_hexadecimal_of(out, v, 8),
            Piece::Given => out.append(given),
        }
        assert(out@ =~= first + pieces_text(pieces@, given@, i + 1));
        i = i + 1;
    }
}

/// Why bytes are not UTF-8, in pieces.
pub open spec fn utf8_pieces(f: Utf8Fault) -> Seq<Piece> {
    match f.error_len {
        Some(n) => seq![
            Piece::Text("invalid utf-8 sequence of "),
            Piece::Number(n as u64),
            Piece::Text(" bytes from index "),
            Piece::Number(f.valid_up_to as u64),
        ],
        None => seq![
            Piece::Text("incomplete utf-8 byte sequence from index "),
            Piece::Number(f.valid_up_to as u64),
        ],
    }
}

/// Why an LZ4 block does not unpack, in pieces.
pub open spec fn lz4_pieces(f: Lz4Fault) -> Seq<Piece> {
    match f {
        Lz4Fault::OutputTooSmall { expected, actual } => seq![
            Piece::Text("provided output is too small for the decompressed data, actual "),
            Piece::Number(actual),
            Piece::Text(", expected "),
            Piece::Number(expected),
        ],
        Lz4Fault::LiteralOutOfBounds => seq![
            Piece::Text("literal is out of bounds of the input"),
        ],
        Lz4Fault::ExpectedAnotherByte => seq![
            Piece::Text("expected another byte, found none"),
        ],
        Lz4Fault::OffsetZero => seq![
            Piece::Text("0 is not a valid match offset"),
        ],
        Lz4Fault::OffsetOutOfBounds => seq![
            Piece::Text("the offset to copy is not contained in the decompressed buffer"),
        ],
    }
}

/// Why text is not Base64, in pieces.
pub open spec fn base64_pieces(f: Base64Fault) -> Seq<Piece> {
    match f {
        Base64Fault::InvalidByte { offset, byte } => seq![
            Piece::Text("Invalid symbol "),
            Piece::Number(byte as u64),
            Piece::Text(", offset "),
            Piece::Number(offset),
            Piece::Text("."),
        ],
        Base64Fault::InvalidLength { len } => seq![
            Piece::Text("Invalid input length: "),
            Piece::Number(len),
        ],
        Base64Fault::InvalidLastSymbol { last_offset, last } => seq![
            Piece::Text("Invalid last symbol "),
            Piece::Number(last as u64),
            Piece::Text(", offset "),
            Piece::Number(last_offset),
            Piece::Text("."),
        ],
        Base64Fault::InvalidPadding => seq![
            Piece::Text("Invalid padding"),
        ],
    }
}

/// Why text does not name an instant.
pub open spec fn date_time_piece(f: DateTimeFault) -> Piece {
    match f {
        DateTimeFault::OutOfRange => Piece::Text("input is out of range"),
        DateTimeFault::Impossible => Piece::Text("no possible date and time matching input"),
        DateTimeFault::NotEnough => Piece::Text("input is not enough for unique date and time"),
        DateTimeFault::Invalid => Piece::Text("input contains invalid characters"),
        DateTimeFault::TooShort => Piece::Text("premature end of input"),
        DateTimeFault::TooLong => Piece::Text("trailing input"),
        DateTimeFault::BadFormat => Piece::Text("bad or unsupported format string"),
    }
}

/// The message of an error, in pieces, behind the name of the part that it is about.
pub open spec fn error_pieces(e: LaurusError) -> Seq<Piece> {
    match e {
        LaurusError::Truncated { what } => seq![
            Piece::Text(what),
            Piece::Text(": truncated"),
        ],
        LaurusError::Varint { what } => seq![
            Piece::Text(what),
            Piece::Text(": malformed varint — segment is corrupted"),
        ],
        LaurusError::Overrun { what, declared, available } => seq![
            Piece::Text(what),
            Piece::Text(": header declares "),
            Piece::Number(declared),
            Piece::Text(" but only "),
            Piece::Number(available),
            Piece::Text(" bytes are left — segment is corrupted"),
        ],
        LaurusError::InvalidUtf8 { what, utf8 } => seq![
            Piece::Text(what),
            Piece::Text(": invalid utf-8: "),
        ] + utf8_pieces(utf8),
        LaurusError::StoredFieldsMagic => seq![
            Piece::Text("Unsupported stored-fields format (expected SDOC). Pre-release format changes do not support older revisions; rebuild the index."),
        ],
        LaurusError::StoredFieldsVersion { found, supported } => seq![
            Piece::Text("Unsupported stored-fields version: "),
            Piece::Number(found as u64),
            Piece::Text(" (expected "),
            Piece::Number(supported as u64),
            Piece::Text("). Pre-release format changes do not support older revisions; rebuild the index."),
        ],
        LaurusError::ChunkChecksum => seq![
            Piece::Text("stored-fields chunk: CRC-32 mismatch — segment is corrupted"),
        ],
        LaurusError::Expansion { declared, payload } => seq![
            Piece::Text("stored-fields chunk: declares "),
            Piece::Number(declared),
            Piece::Text(" uncompressed bytes, impossible for a "),
            Piece::Number(payload),
            Piece::Text("-byte payload — segment is corrupted"),
        ],
        LaurusError::Decompression { lz4 } => seq![
            Piece::Text("stored-fields chunk: LZ4 decompression failed: "),
        ] + lz4_pieces(lz4),
        LaurusError::DecompressedSize { declared, got } => seq![
            Piece::Text("stored-fields chunk: expected "),
            Piece::Number(declared),
            Piece::Text(" decompressed bytes, got "),
            Piece::Number(got),
            Piece::Text(" — segment is corrupted"),
        ],
        LaurusError::Compression => seq![
            Piece::Text("stored-fields LZ4 compression failed: "),
            Piece::Text("output is too small for the compressed data, use get_maximum_output_size to reserve enough space"),
        ],
        LaurusError::UnknownCodec { codec } => seq![
            Piece::Text("stored-fields chunk: unknown codec "),
            Piece::Number(codec as u64),
        ],
        LaurusError::DocumentCount { declared, decoded } => seq![
            Piece::Text("stored-fields: header declares "),
            Piece::Number(declared),
            Piece::Text(" documents but chunks totalled "),
            Piece::Number(decoded),
            Piece::Text(" — segment is corrupted"),
        ],
        LaurusError::UnknownTag { tag } => seq![
            Piece::Text("Unknown field type tag: "),
            Piece::Number(tag as u64),
        ],
        LaurusError::BadDateTime { date_time } => seq![
            Piece::Text("Failed to parse DateTime: "),
            date_time_piece(date_time),
        ],
        LaurusError::PointCount { count } => seq![
            Piece::Text("BKD point count "),
            Piece::Number(count),
            Piece::Text(" exceeds u32::MAX; cannot build index permutation"),
        ],
        LaurusError::BkdMagic { bkd_magic } => seq![
            Piece::Text("Invalid BKD magic: "),
            Piece::Hex(bkd_magic),
        ],
        LaurusError::BkdVersion { version } => seq![
            Piece::Text("Unsupported BKD version: "),
            Piece::Number(version as u64),
            Piece::Text(" (expected "),
            Piece::Number(BKD_VERSION as u64),
            Piece::Text("). Pre-release format changes do not support older revisions; rebuild the index."),
        ],
        LaurusError::BkdBytesPerDim { bytes_per_dim } => seq![
            Piece::Text("Unsupported BKD bytes_per_dim: "),
            Piece::Number(bytes_per_dim as u64),
            Piece::Text(" (expected 8) — segment is corrupted"),
        ],
        LaurusError::LeafCount { points, total } => seq![
            Piece::Text("BKD leaf: declares "),
            Piece::Number(points as u64),
            Piece::Text(" points but the tree has only "),
            Piece::Number(total),
            Piece::Text(" total — segment is corrupted"),
        ],
        LaurusError::LeafBlockSize { points, block_size } => seq![
            Piece::Text("BKD leaf: declares "),
            Piece::Number(points as u64),
            Piece::Text(" points but block_size is only "),
            Piece::Number(block_size as u64),
            Piece::Text(" — segment is corrupted"),
        ],
        LaurusError::LeafOverrun => seq![
            Piece::Text("BKD leaf packed data: declares more bytes than are left — segment is corrupted"),
        ],
        LaurusError::DocIdBits { bits } => seq![
            Piece::Text("BKD leaf: doc_id_bits = "),
            Piece::Number(bits as u64),
            Piece::Text(" exceeds 64 — segment is corrupted"),
        ],
        LaurusError::FirstDelta => seq![
            Piece::Text("BKD leaf: first packed doc_id delta must be 0 — segment is corrupted"),
        ],
        LaurusError::IndexCycle => seq![
            Piece::Text("BKD index leads back to itself — segment is corrupted"),
        ],
        LaurusError::PointBufferOverflow => seq![
            Piece::Text("Point count overflows when multiplied by num_dims"),
        ],
        LaurusError::PointBufferSize { doc_ids, dims, expected, got } => seq![
            Piece::Text("Point buffer size mismatch: expected "),
            Piece::Number(doc_ids),
            Piece::Text(" doc_ids * "),
            Piece::Number(dims as u64),
            Piece::Text(" dims = "),
            Piece::Number(expected),
            Piece::Text(" f64s, got "),
            Piece::Number(got),
        ],
        LaurusError::NotANumber { doc_index, dim } => seq![
            Piece::Text("Point at doc index "),
            Piece::Number(doc_index),
            Piece::Text(" dim "),
            Piece::Number(dim),
            Piece::Text(" is NaN; BKD requires totally-ordered values (NaN has no defined ordering)"),
        ],
        LaurusError::EmptySubtree => seq![
            Piece::Text("build_subtree called with empty indices"),
        ],
        LaurusError::UnsortedIds { valid_until } => seq![
            Piece::Text("segment doc ids must be sorted and deduplicated: "),
            Piece::Text("integers are ordered up to the "),
            Piece::Number(valid_until),
            Piece::Text("th element"),
        ],
        LaurusError::IdSetEncoding { .. } => seq![
            Piece::Text("Failed to serialize segment doc ids: "),
            Piece::Given,
        ],
        LaurusError::IdSetDecoding { .. } => seq![
            Piece::Text(": failed to decode the doc-id set: "),
            Piece::Given,
        ],
        LaurusError::IdSetMagic { id_set_magic, .. } => seq![
            Piece::Text(": bad magic 0x"),
            Piece::WideHex(id_set_magic),
        ],
        LaurusError::IdSetChecksum { .. } => seq![
            Piece::Text(": checksum mismatch — the part is corrupted"),
        ],
        LaurusError::IdSetVersion { id_set_version, .. } => seq![
            Piece::Text(": unsupported version "),
            Piece::Number(id_set_version as u64),
        ],
        LaurusError::DocValuesMagic => seq![
            Piece::Text("Invalid DocValues file format"),
        ],
        LaurusError::DocValuesVersion { major, minor } => seq![
            Piece::Text("Unsupported DocValues version: "),
            Piece::Number(major as u64),
            Piece::Text("."),
            Piece::Number(minor as u64),
        ],
        LaurusError::FieldName { utf8 } => seq![
            Piece::Text("Invalid field name: "),
        ] + utf8_pieces(utf8),
        LaurusError::ColumnEncoding { .. } => seq![
            Piece::Text("Failed to serialize DocValues: "),
            Piece::Given,
        ],
        LaurusError::ColumnDecoding { .. } => seq![
            Piece::Text("Failed to deserialize DocValues: "),
            Piece::Given,
        ],
        LaurusError::FieldSize => seq![
            Piece::Text("the text of a field is too long for its offsets"),
        ],
        LaurusError::EmittedTwice { doc_id } => seq![
            Piece::Text("merge: doc_id "),
            Piece::Number(doc_id),
            Piece::Text(" emitted twice across source segments (corrupt segment metadata or a bug in owned-doc-id resolution)"),
        ],
        LaurusError::NoSegments => seq![
            Piece::Text("No segments found to merge"),
        ],
        LaurusError::MergedCount => seq![
            Piece::Text("Document count mismatch after merge"),
        ],
        LaurusError::ReaderClosed => seq![
            Piece::Text("Reader is closed"),
        ],
        LaurusError::DateTimeRange { micros } => seq![
            Piece::Text("stored DateTimeArray element out of range: "),
            Piece::Signed(micros),
            Piece::Text(" µs"),
        ],
    }
}

/// The name of the part that an error is about, where its message starts with it.
pub open spec fn error_part(e: LaurusError) -> Seq<char> {
    match e {
        LaurusError::IdSetDecoding { segment_id, .. } => segment_id@ + ".ids"@,
        LaurusError::IdSetMagic { segment_id, .. } => segment_id@ + ".ids"@,
        LaurusError::IdSetChecksum { segment_id } => segment_id@ + ".ids"@,
        LaurusError::IdSetVersion { segment_id, .. } => segment_id@ + ".ids"@,
        _ => ""@,
    }
}

/// The words that an error was given.
pub open spec fn error_words(e: LaurusError) -> Seq<char> {
    match e {
        LaurusError::IdSetEncoding { words } => words@,
        LaurusError::IdSetDecoding { words, .. } => words@,
        LaurusError::ColumnEncoding { words } => words@,
        LaurusError::ColumnDecoding { words } => words@,
        _ => ""@,
    }
}

/// The message of an error.
pub open spec fn error_text(e: LaurusError) -> Seq<char> {
    error_part(e) + pieces_text(error_pieces(e), error_words(e), error_pieces(e).len() as int)
}

/// Why a value does not suit a field, in pieces.
pub open spec fn cause_pieces(e: CoercionError) -> Seq<Piece> {
    match e {
        CoercionError::Cannot { from, to } => seq![
            Piece::Text("cannot coerce "),
            Piece::Text(from),
            Piece::Text(" to "),
            Piece::Text(to),
        ],
        CoercionError::SingleValued => seq![
            Piece::Text("received an array but the field is single-valued; declare the field with multi_valued = true to accept arrays"),
        ],
        CoercionError::NotInteger => seq![
            Piece::Text("cannot parse '"),
            Piece::Given,
            Piece::Text("' as an integer"),
        ],
        CoercionError::NotFloat => seq![
            Piece::Text("cannot parse '"),
            Piece::Given,
            Piece::Text("' as a float"),
        ],
        CoercionError::NotBool => seq![
            Piece::Text("cannot parse '"),
            Piece::Given,
            Piece::Text("' as a bool (expected 'true' or 'false')"),
        ],
        CoercionError::BoolInteger { integer } => seq![
            Piece::Text("cannot coerce integer "),
            Piece::Signed(integer),
            Piece::Text(" to bool (only 0 and 1 are accepted)"),
        ],
        CoercionError::NotDateTime { date_time } => seq![
            Piece::Text("cannot parse '"),
            Piece::Given,
            Piece::Text("' as an RFC 3339 datetime: "),
            date_time_piece(date_time),
        ],
        CoercionError::NotBase64 { base64 } => seq![
            Piece::Text("cannot decode '"),
            Piece::Given,
            Piece::Text("' as base64: "),
        ] + base64_pieces(base64),
        CoercionError::NotVector { from } => seq![
            Piece::Text("vector fields accept Vector, Text, Bytes, or numeric arrays; got "),
            Piece::Text(from),
        ],
    }
}

/// The message of a value that does not suit a field.
pub open spec fn field_error_text(e: FieldError) -> Seq<char> {
    "field '"@ + e.field@ + "': "@ + pieces_text(
        cause_pieces(e.cause),
        e.text@,
        cause_pieces(e.cause).len() as int,
    )
}

fn utf8_parts(f: Utf8Fault) -> (r: Vec<Piece>)
    ensures
        r@ == utf8_pieces(f),
{
    let r: Vec<Piece> = match f.error_len {
        Some(n) => vec![
            Piece::Text("invalid utf-8 sequence of "),
            Piece::Number(n as u64),
            Piece::Text(" bytes from index "),
            Piece::Number(f.valid_up_to as u64),
        ],
        None => vec![
            Piece::Text("incomplete utf-8 byte sequence from index "),
            Piece::Number(f.valid_up_to as u64),
        ],
    };
    assert(r@ =~= utf8_pieces(f));
    r
}

fn lz4_parts(f: Lz4Fault) -> (r: Vec<Piece>)
    ensures
        r@ == lz4_pieces(f),
{
    let r: Vec<Piece> = match f {
        Lz4Fault::OutputTooSmall { expected, actual } => vec![
            Piece::Text("provided output is too small for the decompressed data, actual "),
            Piece::Number(actual),
            Piece::Text(", expected "),
            Piece::Number(expected),
        ],
        Lz4Fault::LiteralOutOfBounds => vec![
            Piece::Text("literal is out of bounds of the input"),
        ],
        Lz4Fault::ExpectedAnotherByte => vec![
            Piece::Text("expected another byte, found none"),
        ],
        Lz4Fault::OffsetZero => vec![
            Piece::Text("0 is not a valid match offset"),
        ],
        Lz4Fault::OffsetOutOfBounds => vec![
            Piece::Text("the offset to copy is not contained in the decompressed buffer"),
        ],
    };
    assert(r@ =~= lz4_pieces(f));
    r
}

fn base64_parts(f: Base64Fault) -> (r: Vec<Piece>)
    ensures
        r@ == base64_pieces(f),
{
    let r: Vec<Piece> = match f {
        Base64Fault::InvalidByte { offset, byte } => vec![
            Piece::Text("Invalid symbol "),
            Piece::Number(byte as u64),
            Piece::Text(", offset "),
            Piece::Number(offset),
            Piece::Text("."),
        ],
        Base64Fault::InvalidLength { len } => vec![
            Piece::Text("Invalid input length: "),
            Piece::Number(len),
        ],
        Base64Fault::InvalidLastSymbol { last_offset, last } => vec![
            Piece::Text("Invalid last symbol "),
            Piece::Number(last as u64),
            Piece::Text(", offset "),
            Piece::Number(last_offset),
            Piece::Text("."),
        ],
        Base64Fault::InvalidPadding => vec![
            Piece::Text("Invalid padding"),
        ],
    };
    assert(r@ =~= base64_pieces(f));
    r
}

fn date_time_part(f: DateTimeFault) -> (r: Piece)
    ensures
        r == date_time_piece(f),
{
    match f {
        DateTimeFault::OutOfRange => Piece::Text("input is out of range"),
        DateTimeFault::Impossible => Piece::Text("no possible date and time matching input"),
        DateTimeFault::NotEnough => Piece::Text("input is not enough for unique date and time"),
        DateTimeFault::Invalid => Piece::Text("input contains invalid characters"),
        DateTimeFault::TooShort => Piece::Text("premature end of input"),
        DateTimeFault::TooLong => Piece::Text("trailing input"),
        DateTimeFault::BadFormat => Piece::Text("bad or unsupported format string"),
    }
}

/// The pieces of the second list behind those of the first.
fn joined(first: Vec<Piece>, second: Vec<Piece>) -> (r: Vec<Piece>)
    ensures
        r@ == first@ + second@,
{
    let mut r: Vec<Piece> = first;
    let mut rest: Vec<Piece> = second;
    r.append(&mut rest);
    r
}

fn error_parts(e: &LaurusError) -> (r: Vec<Piece>)
    ensures
        r@ == error_pieces(*e),
{
    let r: Vec<Piece> = match *e {
        LaurusError::Truncated { what } => vec![
            Piece::Text(what),
            Piece::Text(": truncated"),
        ],
        LaurusError::Varint { what } => vec![
            Piece::Text(what),
            Piece::Text(": malformed varint — segment is corrupted"),
        ],
        LaurusError::Overrun { what, declared, available } => vec![
            Piece::Text(what),
            Piece::Text(": header declares "),
            Piece::Number(declared),
            Piece::Text(" but only "),
            Piece::Number(available),
            Piece::Text(" bytes are left — segment is corrupted"),
        ],
        LaurusError::InvalidUtf8 { what, utf8 } => joined(
            vec![Piece::Text(what), Piece::Text(": invalid utf-8: ")],
            utf8_parts(utf8),
        ),
        LaurusError::StoredFieldsMagic => vec![
            Piece::Text("Unsupported stored-fields format (expected SDOC). Pre-release format changes do not support older revisions; rebuild the index."),
        ],
        LaurusError::StoredFieldsVersion { found, supported } => vec![
            Piece::Text("Unsupported stored-fields version: "),
            Piece::Number(found as u64),
            Piece::Text(" (expected "),
            Piece::Number(supported as u64),
            Piece::Text("). Pre-release format changes do not support older revisions; rebuild the index."),
        ],
        LaurusError::ChunkChecksum => vec![
            Piece::Text("stored-fields chunk: CRC-32 mismatch — segment is corrupted"),
        ],
        LaurusError::Expansion { declared, payload } => vec![
            Piece::Text("stored-fields chunk: declares "),
            Piece::Number(declared),
            Piece::Text(" uncompressed bytes, impossible for a "),
            Piece::Number(payload),
            Piece::Text("-byte payload — segment is corrupted"),
        ],
        LaurusError::Decompression { lz4 } => joined(
            vec![Piece::Text("stored-fields chunk: LZ4 decompression failed: ")],
            lz4_parts(lz4),
        ),
        LaurusError::DecompressedSize { declared, got } => vec![
            Piece::Text("stored-fields chunk: expected "),
            Piece::Number(declared),
            Piece::Text(" decompressed bytes, got "),
            Piece::Number(got),
            Piece::Text(" — segment is corrupted"),
        ],
        LaurusError::Compression => vec![
            Piece::Text("stored-fields LZ4 compression failed: "),
            Piece::Text("output is too small for the compressed data, use get_maximum_output_size to reserve enough space"),
        ],
        LaurusError::UnknownCodec { codec } => vec![
            Piece::Text("stored-fields chunk: unknown codec "),
            Piece::Number(codec as u64),
        ],
        LaurusError::DocumentCount { declared, decoded } => vec![
            Piece::Text("stored-fields: header declares "),
            Piece::Number(declared),
            Piece::Text(" documents but chunks totalled "),
            Piece::Number(decoded),
            Piece::Text(" — segment is corrupted"),
        ],
        LaurusError::UnknownTag { tag } => vec![
            Piece::Text("Unknown field type tag: "),
            Piece::Number(tag as u64),
        ],
        LaurusError::BadDateTime { date_time } => vec![
            Piece::Text("Failed to parse DateTime: "),
            date_time_part(date_time),
        ],
        LaurusError::PointCount { count } => vec![
            Piece::Text("BKD point count "),
            Piece::Number(count),
            Piece::Text(" exceeds u32::MAX; cannot build index permutation"),
        ],
        LaurusError::BkdMagic { bkd_magic } => vec![
            Piece::Text("Invalid BKD magic: "),
            Piece::Hex(bkd_magic),
        ],
        LaurusError::BkdVersion { version } => vec![
            Piece::Text("Unsupported BKD version: "),
            Piece::Number(version as u64),
            Piece::Text(" (expected "),
            Piece::Number(BKD_VERSION as u64),
            Piece::Text("). Pre-release format changes do not support older revisions; rebuild the index."),
        ],
        LaurusError::BkdBytesPerDim { bytes_per_dim } => vec![
            Piece::Text("Unsupported BKD bytes_per_dim: "),
            Piece::Number(bytes_per_dim as u64),
            Piece::Text(" (expected 8) — segment is corrupted"),
        ],
        LaurusError::LeafCount { points, total } => vec![
            Piece::Text("BKD leaf: declares "),
            Piece::Number(points as u64),
            Piece::Text(" points but the tree has only "),
            Piece::Number(total),
            Piece::Text(" total — segment is corrupted"),
        ],
        LaurusError::LeafBlockSize { points, block_size } => vec![
            Piece::Text("BKD leaf: declares "),
            Piece::Number(points as u64),
            Piece::Text(" points but block_size is only "),
            Piece::Number(block_size as u64),
            Piece::Text(" — segment is corrupted"),
        ],
        LaurusError::LeafOverrun => vec![
            Piece::Text("BKD leaf packed data: declares more bytes than are left — segment is corrupted"),
        ],
        LaurusError::DocIdBits { bits } => vec![
            Piece::Text("BKD leaf: doc_id_bits = "),
            Piece::Number(bits as u64),
            Piece::Text(" exceeds 64 — segment is corrupted"),
        ],
        LaurusError::FirstDelta => vec![
            Piece::Text("BKD leaf: first packed doc_id delta must be 0 — segment is corrupted"),
        ],
        LaurusError::IndexCycle => vec![
            Piece::Text("BKD index leads back to itself — segment is corrupted"),
        ],
        LaurusError::PointBufferOverflow => vec![
            Piece::Text("Point count overflows when multiplied by num_dims"),
        ],
        LaurusError::PointBufferSize { doc_ids, dims, expected, got } => vec![
            Piece::Text("Point buffer size mismatch: expected "),
            Piece::Number(doc_ids),
            Piece::Text(" doc_ids * "),
            Piece::Number(dims as u64),
            Piece::Text(" dims = "),
            Piece::Number(expected),
            Piece::Text(" f64s, got "),
            Piece::Number(got),
        ],
        LaurusError::NotANumber { doc_index, dim } => vec![
            Piece::Text("Point at doc index "),
            Piece::Number(doc_index),
            Piece::Text(" dim "),
            Piece::Number(dim),
            Piece::Text(" is NaN; BKD requires totally-ordered values (NaN has no defined ordering)"),
        ],
        LaurusError::EmptySubtree => vec![
            Piece::Text("build_subtree called with empty indices"),
        ],
        LaurusError::UnsortedIds { valid_until } => vec![
            Piece::Text("segment doc ids must be sorted and deduplicated: "),
            Piece::Text("integers are ordered up to the "),
            Piece::Number(valid_until),
            Piece::Text("th element"),
        ],
        LaurusError::IdSetEncoding { .. } => vec![
            Piece::Text("Failed to serialize segment doc ids: "),
            Piece::Given,
        ],
        LaurusError::IdSetDecoding { .. } => vec![
            Piece::Text(": failed to decode the doc-id set: "),
            Piece::Given,
        ],
        LaurusError::IdSetMagic { id_set_magic, .. } => vec![
            Piece::Text(": bad magic 0x"),
            Piece::WideHex(id_set_magic),
        ],
        LaurusError::IdSetChecksum { .. } => vec![
            Piece::Text(": checksum mismatch — the part is corrupted"),
        ],
        LaurusError::IdSetVersion { id_set_version, .. } => vec![
            Piece::Text(": unsupported version "),
            Piece::Number(id_set_version as u64),
        ],
        LaurusError::DocValuesMagic => vec![
            Piece::Text("Invalid DocValues file format"),
        ],
        LaurusError::DocValuesVersion { major, minor } => vec![
            Piece::Text("Unsupported DocValues version: "),
            Piece::Number(major as u64),
            Piece::Text("."),
            Piece::Number(minor as u64),
        ],
        LaurusError::FieldName { utf8 } => joined(
            vec![Piece::Text("Invalid field name: ")],
            utf8_parts(utf8),
        ),
        LaurusError::ColumnEncoding { .. } => vec![
            Piece::Text("Failed to serialize DocValues: "),
            Piece::Given,
        ],
        LaurusError::ColumnDecoding { .. } => vec![
            Piece::Text("Failed to deserialize DocValues: "),
            Piece::Given,
        ],
        LaurusError::FieldSize => vec![
            Piece::Text("the text of a field is too long for its offsets"),
        ],
        LaurusError::EmittedTwice { doc_id } => vec![
            Piece::Text("merge: doc_id "),
            Piece::Number(doc_id),
            Piece::Text(" emitted twice across source segments (corrupt segment metadata or a bug in owned-doc-id resolution)"),
        ],
        LaurusError::NoSegments => vec![
            Piece::Text("No segments found to merge"),
        ],
        LaurusError::MergedCount => vec![
            Piece::Text("Document count mismatch after merge"),
        ],
        LaurusError::ReaderClosed => vec![
            Piece::Text("Reader is closed"),
        ],
        LaurusError::DateTimeRange { micros } => vec![
            Piece::Text("stored DateTimeArray element out of range: "),
            Piece::Signed(micros),
            Piece::Text(" µs"),
        ],
    };
    assert(r@ =~= error_pieces(*e));
    r
}

fn cause_parts(e: CoercionError) -> (r: Vec<Piece>)
    ensures
        r@ == cause_pieces(e),
{
    let r: Vec<Piece> = match e {
        CoercionError::Cannot { from, to } => vec![
            Piece::Text("cannot coerce "),
            Piece::Text(from),
            Piece::Text(" to "),
            Piece::Text(to),
        ],
        CoercionError::SingleValued => vec![
            Piece::Text("received an array but the field is single-valued; declare the field with multi_valued = true to accept arrays"),
        ],
        CoercionError::NotInteger => vec![
            Piece::Text("cannot parse '"),
            Piece::Given,
            Piece::Text("' as an integer"),
        ],
        CoercionError::NotFloat => vec![
            Piece::Text("cannot parse '"),
            Piece::Given,
            Piece::Text("' as a float"),
        ],
        CoercionError::NotBool => vec![
            Piece::Text("cannot parse '"),
            Piece::Given,
            Piece::Text("' as a bool (expected 'true' or 'false')"),
        ],
        CoercionError::BoolInteger { integer } => vec![
            Piece::Text("cannot coerce integer "),
            Piece::Signed(integer),
            Piece::Text(" to bool (only 0 and 1 are accepted)"),
        ],
        CoercionError::NotDateTime { date_time } => vec![
            Piece::Text("cannot parse '"),
            Piece::Given,
            Piece::Text("' as an RFC 3339 datetime: "),
            date_time_part(date_time),
        ],
        CoercionError::NotBase64 { base64 } => joined(
            vec![
                Piece::Text("cannot decode '"),
                Piece::Given,
                Piece::Text("' as base64: "),
            ],
            base64_parts(base64),
        ),
        CoercionError::NotVector { from } => vec![
            Piece::Text("vector fields accept Vector, Text, Bytes, or numeric arrays; got "),
            Piece::Text(from),
        ],
    };
    assert(r@ =~= cause_pieces(e));
    r
}

/// Puts the name of a segment's set of ids behind a text.
fn push_part(out: &mut String, segment_id: &String)
    ensures
        final(out)@ == old(out)@ + (segment_id@ + ".ids"@),
{
    out.append(segment_id.as_str());
    out.append(".ids");
    assert(out@ =~= old(out)@ + (segment_id@ + ".ids"@));
}

impl LaurusError {
    /// The error in words.
    pub fn message(&self) -> (r: String)
        ensures
            r@ == error_text(*self),
    {
        let mut r: String = "".to_string();
        match self {
            LaurusError::IdSetDecoding { segment_id, .. } => push_part(&mut r, segment_id),
            LaurusError::IdSetMagic { segment_id, .. } => push_part(&mut r, segment_id),
            LaurusError::IdSetChecksum { segment_id } => push_part(&mut r, segment_id),
            LaurusError::IdSetVersion { segment_id, .. } => push_part(&mut r, segment_id),
            _ => {},
        }
        let words: &str = match self {
            LaurusError::IdSetEncoding { words } => words.as_str(),
            LaurusError::IdSetDecoding { words, .. } => words.as_str(),
            LaurusError::ColumnEncoding { words } => words.as_str(),
            LaurusError::ColumnDecoding { words } => words.as_str(),
            _ => "",
        };
        let parts: Vec<Piece> = error_parts(self);
        proof {
            reveal_strlit("");
            assert(r@ =~= error_part(*self));
        }
        push_pieces(&mut r, &parts, words);
        assert(r@ =~= error_text(*self));
        r
    }
}

impl FieldError {
    /// The error in words.
    pub fn message(&self) -> (r: String)
        ensures
            r@ == field_error_text(*self),
    {
        let mut r: String = "field '".to_string();
        r.append(self.field.as_str());
        r.append("': ");
        let parts: Vec<Piece> = cause_parts(self.cause);
        push_pieces(&mut r, &parts, self.text.as_str());
        assert(r@ =~= field_error_text(*self));
        r
    }
}

} // verus!
