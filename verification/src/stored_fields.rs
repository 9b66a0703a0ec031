//! Stored fields: the original field values of the documents of a segment.
//!
//! # The `.docs` part
//!
//! ```text
//! "SDOC" | version major | version minor | document count (varint)
//! chunks:
//!   document count (varint) | codec (0 raw, 1 LZ4) | unpacked size (varint)
//!   | payload size (varint) | CRC-32 of the payload (4 bytes) | payload
//! ```
//!
//! A payload, unpacked, holds documents one behind the other:
//!
//! ```text
//! document id (8 bytes) | field count (varint)
//!   | { name | type tag | value } for each field, names ascending
//! ```
//!
//! Documents are written in ascending order of their ids. A chunk closes at the
//! last document, at [`CHUNK_TARGET_BYTES`] or at [`MAX_DOCS_PER_CHUNK`]. A chunk
//! that LZ4 does not shrink is stored as it is.

use std::collections::BTreeMap;

use vstd::bytes::*;
use vstd::prelude::*;

use crate::analyzed::AnalyzedDocument;
use crate::codec;
use crate::data;
use crate::data::{DataValue, DataView, DateTimeUtc, Document, FieldsView, GeoEcefPoint, GeoPoint};
use crate::error::{DateTimeFault, LaurusError, Lz4Fault};
use crate::names;
use crate::names::FieldMap;
use crate::outside;
use crate::sort;

verus! {

pub const VERSION_MAJOR: u8 = 1;
pub const VERSION_MINOR: u8 = 0;
pub const CODEC_RAW: u8 = 0;
pub const CODEC_LZ4: u8 = 1;

/// The size, in bytes before packing, at which a chunk closes.
pub const CHUNK_TARGET_BYTES: usize = 16384;

/// The number of documents at which a chunk closes.
pub const MAX_DOCS_PER_CHUNK: usize = 128;

/// How many bytes one byte of an LZ4 block can stand for at most.
pub const LZ4_MAX_EXPANSION_RATIO: u64 = 255;

/// The least number of bytes of a document: its id and a field count.
pub const MIN_DOC_RECORD_SIZE: u64 = 9;

pub const TAG_TEXT: u8 = 0;
pub const TAG_INT64: u8 = 1;
pub const TAG_FLOAT64: u8 = 2;
pub const TAG_BOOL: u8 = 3;
pub const TAG_BYTES: u8 = 4;
pub const TAG_DATETIME: u8 = 5;
pub const TAG_GEO: u8 = 6;
pub const TAG_NULL: u8 = 7;
pub const TAG_VECTOR: u8 = 9;
pub const TAG_INT64_ARRAY: u8 = 10;
pub const TAG_FLOAT64_ARRAY: u8 = 11;
pub const TAG_GEO_ECEF: u8 = 12;
pub const TAG_GEO_ARRAY: u8 = 13;
pub const TAG_GEO_ECEF_ARRAY: u8 = 14;
pub const TAG_DATETIME_ARRAY: u8 = 15;
pub const TAG_BOOL_ARRAY: u8 = 16;
pub const TAG_TEXT_ARRAY: u8 = 17;

// ---------------------------------------------------------------------------
// The bytes of a document
// ---------------------------------------------------------------------------

/// The bytes of a 32-bit integer.
pub open spec fn put_u32() -> spec_fn(u32) -> Seq<u8> {
    |v: u32| spec_u32_to_le_bytes(v)
}

/// The bytes of a signed integer.
pub open spec fn put_i64() -> spec_fn(i64) -> Seq<u8> {
    |v: i64| spec_u64_to_le_bytes(v as u64)
}

/// The bytes of a point.
pub open spec fn put_geo() -> spec_fn(GeoPoint) -> Seq<u8> {
    |p: GeoPoint| spec_u64_to_le_bytes(p.lat) + spec_u64_to_le_bytes(p.lon)
}

/// The bytes of a point in earth-centred coordinates.
pub open spec fn put_ecef() -> spec_fn(GeoEcefPoint) -> Seq<u8> {
    |p: GeoEcefPoint|
        spec_u64_to_le_bytes(p.x) + spec_u64_to_le_bytes(p.y) + spec_u64_to_le_bytes(p.z)
}

/// The bytes of an instant in a list: its whole microseconds.
pub open spec fn put_micros() -> spec_fn((i64, u32)) -> Seq<u8> {
    |t: (i64, u32)| spec_u64_to_le_bytes(data::instant_micros(t) as i64 as u64)
}

/// The byte of a truth value.
pub open spec fn put_bool() -> spec_fn(bool) -> Seq<u8> {
    |b: bool| seq![if b { 1u8 } else { 0u8 }]
}

/// The bytes of a text in a list.
pub open spec fn put_text() -> spec_fn(Seq<char>) -> Seq<u8> {
    |s: Seq<char>| codec::put_str(s)
}

/// A list: its length and its elements.
pub open spec fn put_list<T>(put: spec_fn(T) -> Seq<u8>, s: Seq<T>) -> Seq<u8> {
    codec::put_varint(s.len()) + codec::put_many(put, s)
}

/// The type tag of a value.
pub open spec fn tag_of(v: DataView) -> u8 {
    match v {
        DataView::Null => TAG_NULL,
        DataView::Bool(_) => TAG_BOOL,
        DataView::Int64(_) => TAG_INT64,
        DataView::Float64(_) => TAG_FLOAT64,
        DataView::Text(_) => TAG_TEXT,
        DataView::Bytes(_, _) => TAG_BYTES,
        DataView::Vector(_) => TAG_VECTOR,
        DataView::DateTime(_) => TAG_DATETIME,
        DataView::Geo(_) => TAG_GEO,
        DataView::GeoEcef(_) => TAG_GEO_ECEF,
        DataView::Int64Array(_) => TAG_INT64_ARRAY,
        DataView::Float64Array(_) => TAG_FLOAT64_ARRAY,
        DataView::GeoArray(_) => TAG_GEO_ARRAY,
        DataView::GeoEcefArray(_) => TAG_GEO_ECEF_ARRAY,
        DataView::DateTimeArray(_) => TAG_DATETIME_ARRAY,
        DataView::BoolArray(_) => TAG_BOOL_ARRAY,
        DataView::TextArray(_) => TAG_TEXT_ARRAY,
    }
}

/// The media type as it is written: none is the empty text.
pub open spec fn mime_text(mime: Option<Seq<char>>) -> Seq<char> {
    match mime {
        Some(m) => m,
        None => Seq::empty(),
    }
}

/// The bytes of a value behind its tag.
pub open spec fn put_payload(v: DataView) -> Seq<u8> {
    match v {
        DataView::Null => Seq::empty(),
        DataView::Bool(b) => put_bool()(b),
        DataView::Int64(n) => put_i64()(n),
        DataView::Float64(n) => codec::put_u64()(n),
        DataView::Text(s) => codec::put_str(s),
        DataView::Bytes(b, m) => codec::put_str(mime_text(m)) + codec::put_bytes(b),
        DataView::Vector(s) => put_list(put_u32(), s),
        DataView::DateTime(t) => codec::put_str(outside::rfc3339_text(t)),
        DataView::Geo(p) => put_geo()(p),
        DataView::GeoEcef(p) => put_ecef()(p),
        DataView::Int64Array(s) => put_list(put_i64(), s),
        DataView::Float64Array(s) => put_list(codec::put_u64(), s),
        DataView::GeoArray(s) => put_list(put_geo(), s),
        DataView::GeoEcefArray(s) => put_list(put_ecef(), s),
        DataView::DateTimeArray(s) => put_list(put_micros(), s),
        DataView::BoolArray(s) => put_list(put_bool(), s),
        DataView::TextArray(s) => put_list(put_text(), s),
    }
}

/// The bytes of a field: its name, its tag and its value.
pub open spec fn put_field() -> spec_fn((Seq<char>, DataView)) -> Seq<u8> {
    |f: (Seq<char>, DataView)| codec::put_str(f.0) + (seq![tag_of(f.1)] + put_payload(f.1))
}

/// The bytes of a document.
pub open spec fn put_document() -> spec_fn((u64, FieldsView)) -> Seq<u8> {
    |d: (u64, FieldsView)| spec_u64_to_le_bytes(d.0) + put_list(put_field(), d.1)
}

/// What holds of the length of any text in memory.
pub open spec fn text_fits(s: Seq<char>) -> bool {
    vstd::utf8::encode_utf8(s).len() <= u64::MAX
}

/// What holds of any value in memory: its lengths fit in 64 bits, its instants
/// are valid, and the RFC 3339 text of an instant in the years 0 to 9999 names
/// that instant.
pub open spec fn value_held(v: DataView) -> bool {
    match v {
        DataView::Text(s) => text_fits(s),
        DataView::Bytes(b, m) => b.len() <= u64::MAX && text_fits(mime_text(m)),
        DataView::DateTime(t) => data::valid_instant(t) && text_fits(outside::rfc3339_text(t)) && (
        outside::four_digit_year(t) ==> outside::rfc3339_instant(outside::rfc3339_text(t)) == Ok::<
            _,
            DateTimeFault,
        >(t)),
        DataView::Vector(s) => s.len() <= u64::MAX,
        DataView::Int64Array(s) => s.len() <= u64::MAX,
        DataView::Float64Array(s) => s.len() <= u64::MAX,
        DataView::GeoArray(s) => s.len() <= u64::MAX,
        DataView::GeoEcefArray(s) => s.len() <= u64::MAX,
        DataView::DateTimeArray(s) => s.len() <= u64::MAX && forall|i: int|
            0 <= i < s.len() ==> data::valid_instant(#[trigger] s[i]),
        DataView::BoolArray(s) => s.len() <= u64::MAX,
        DataView::TextArray(s) => s.len() <= u64::MAX && forall|i: int|
            0 <= i < s.len() ==> text_fits(#[trigger] s[i]),
        _ => true,
    }
}

/// [`value_held`] of every field, and the names fit as well.
pub open spec fn fields_held(fields: FieldsView) -> bool {
    &&& fields.len() <= u64::MAX
    &&& forall|i: int|
        0 <= i < fields.len() ==> text_fits((#[trigger] fields[i]).0) && value_held(fields[i].1)
}

// ---------------------------------------------------------------------------
// Writing a document
// ---------------------------------------------------------------------------

/// Appends a truth value.
fn write_bool(buf: &mut Vec<u8>, b: bool)
    ensures
        final(buf)@ == old(buf)@ + put_bool()(b),
{
    buf.push(if b { 1 } else { 0 });
    assert(buf@ =~= old(buf)@ + put_bool()(b));
}

/// Appends a point.
fn write_geo(buf: &mut Vec<u8>, p: GeoPoint)
    ensures
        final(buf)@ == old(buf)@ + put_geo()(p),
{
    codec::write_u64_le(buf, p.lat);
    codec::write_u64_le(buf, p.lon);
    assert(buf@ =~= old(buf)@ + put_geo()(p));
}

/// Appends a point in earth-centred coordinates.
fn write_ecef(buf: &mut Vec<u8>, p: GeoEcefPoint)
    ensures
        final(buf)@ == old(buf)@ + put_ecef()(p),
{
    codec::write_u64_le(buf, p.x);
    codec::write_u64_le(buf, p.y);
    codec::write_u64_le(buf, p.z);
    assert(buf@ =~= old(buf)@ + put_ecef()(p));
}

/// Appends a vector.
fn write_vector(buf: &mut Vec<u8>, v: &Vec<u32>)
    ensures
        final(buf)@ == old(buf)@ + put_list(put_u32(), v@),
        v@.len() <= u64::MAX,
{
    let n: usize = v.len();
    codec::write_varint(buf, n as u64);
    let ghost start = buf@;
    let ghost items = v@;
    let mut i: usize = 0;
    proof {
        assert(items.take(0) =~= Seq::empty());
        assert(buf@ =~= start + codec::put_many(put_u32(), items.take(0)));
    }
    while i < n
        invariant
            n == v@.len(),
            i <= n,
            items == v@,
            buf@ == start + codec::put_many(put_u32(), items.take(i as int)),
        decreases n - i,
    {
        let ghost before = buf@;
        codec::write_u32_le(buf, v[i]);
        proof {
            assert(items.take(i + 1) =~= items.take(i as int).push(items[i as int]));
            codec::lemma_put_many_push(put_u32(), items.take(i as int), items[i as int]);
            assert(buf@ =~= start + codec::put_many(put_u32(), items.take(i + 1)));
        }
        i = i + 1;
    }
    proof {
        assert(items.take(n as int) =~= items);
        assert(buf@ =~= old(buf)@ + put_list(put_u32(), v@));
    }
}

/// Appends a list of integers.
fn write_int64_array(buf: &mut Vec<u8>, v: &Vec<i64>)
    ensures
        final(buf)@ == old(buf)@ + put_list(put_i64(), v@),
        v@.len() <= u64::MAX,
{
    let n: usize = v.len();
    codec::write_varint(buf, n as u64);
    let ghost start = buf@;
    let ghost items = v@;
    let mut i: usize = 0;
    proof {
        assert(items.take(0) =~= Seq::empty());
        assert(buf@ =~= start + codec::put_many(put_i64(), items.take(0)));
    }
    while i < n
        invariant
            n == v@.len(),
            i <= n,
            items == v@,
            buf@ == start + codec::put_many(put_i64(), items.take(i as int)),
        decreases n - i,
    {
        let ghost before = buf@;
        codec::write_u64_le(buf, v[i] as u64);
        proof {
            assert(items.take(i + 1) =~= items.take(i as int).push(items[i as int]));
            codec::lemma_put_many_push(put_i64(), items.take(i as int), items[i as int]);
            assert(buf@ =~= start + codec::put_many(put_i64(), items.take(i + 1)));
        }
        i = i + 1;
    }
    proof {
        assert(items.take(n as int) =~= items);
        assert(buf@ =~= old(buf)@ + put_list(put_i64(), v@));
    }
}

/// Appends a list of floats.
fn write_float64_array(buf: &mut Vec<u8>, v: &Vec<u64>)
    ensures
        final(buf)@ == old(buf)@ + put_list(codec::put_u64(), v@),
        v@.len() <= u64::MAX,
{
    let n: usize = v.len();
    codec::write_varint(buf, n as u64);
    let ghost start = buf@;
    let ghost items = v@;
    let mut i: usize = 0;
    proof {
        assert(items.take(0) =~= Seq::empty());
        assert(buf@ =~= start + codec::put_many(codec::put_u64(), items.take(0)));
    }
    while i < n
        invariant
            n == v@.len(),
            i <= n,
            items == v@,
            buf@ == start + codec::put_many(codec::put_u64(), items.take(i as int)),
        decreases n - i,
    {
        let ghost before = buf@;
        codec::write_u64_le(buf, v[i]);
        proof {
            assert(items.take(i + 1) =~= items.take(i as int).push(items[i as int]));
            codec::lemma_put_many_push(codec::put_u64(), items.take(i as int), items[i as int]);
            assert(buf@ =~= start + codec::put_many(codec::put_u64(), items.take(i + 1)));
        }
        i = i + 1;
    }
    proof {
        assert(items.take(n as int) =~= items);
        assert(buf@ =~= old(buf)@ + put_list(codec::put_u64(), v@));
    }
}

/// Appends a list of points.
fn write_geo_array(buf: &mut Vec<u8>, v: &Vec<GeoPoint>)
    ensures
        final(buf)@ == old(buf)@ + put_list(put_geo(), v@),
        v@.len() <= u64::MAX,
{
    let n: usize = v.len();
    codec::write_varint(buf, n as u64);
    let ghost start = buf@;
    let ghost items = v@;
    let mut i: usize = 0;
    proof {
        assert(items.take(0) =~= Seq::empty());
        assert(buf@ =~= start + codec::put_many(put_geo(), items.take(0)));
    }
    while i < n
        invariant
            n == v@.len(),
            i <= n,
            items == v@,
            buf@ == start + codec::put_many(put_geo(), items.take(i as int)),
        decreases n - i,
    {
        let ghost before = buf@;
        write_geo(buf, v[i]);
        proof {
            assert(items.take(i + 1) =~= items.take(i as int).push(items[i as int]));
            codec::lemma_put_many_push(put_geo(), items.take(i as int), items[i as int]);
            assert(buf@ =~= start + codec::put_many(put_geo(), items.take(i + 1)));
        }
        i = i + 1;
    }
    proof {
        assert(items.take(n as int) =~= items);
        assert(buf@ =~= old(buf)@ + put_list(put_geo(), v@));
    }
}

/// Appends a list of points in earth-centred coordinates.
fn write_ecef_array(buf: &mut Vec<u8>, v: &Vec<GeoEcefPoint>)
    ensures
        final(buf)@ == old(buf)@ + put_list(put_ecef(), v@),
        v@.len() <= u64::MAX,
{
    let n: usize = v.len();
    codec::write_varint(buf, n as u64);
    let ghost start = buf@;
    let ghost items = v@;
    let mut i: usize = 0;
    proof {
        assert(items.take(0) =~= Seq::empty());
        assert(buf@ =~= start + codec::put_many(put_ecef(), items.take(0)));
    }
    while i < n
        invariant
            n == v@.len(),
            i <= n,
            items == v@,
            buf@ == start + codec::put_many(put_ecef(), items.take(i as int)),
        decreases n - i,
    {
        let ghost before = buf@;
        write_ecef(buf, v[i]);
        proof {
            assert(items.take(i + 1) =~= items.take(i as int).push(items[i as int]));
            codec::lemma_put_many_push(put_ecef(), items.take(i as int), items[i as int]);
            assert(buf@ =~= start + codec::put_many(put_ecef(), items.take(i + 1)));
        }
        i = i + 1;
    }
    proof {
        assert(items.take(n as int) =~= items);
        assert(buf@ =~= old(buf)@ + put_list(put_ecef(), v@));
    }
}

/// Appends a list of instants.
fn write_datetime_array(buf: &mut Vec<u8>, v: &Vec<DateTimeUtc>)
    ensures
        final(buf)@ == old(buf)@ + put_list(put_micros(), data::instants(v@)),
        value_held(DataView::DateTimeArray(data::instants(v@))),
{
    let n: usize = v.len();
    codec::write_varint(buf, n as u64);
    let ghost start = buf@;
    let ghost items = data::instants(v@);
    let mut i: usize = 0;
    proof {
        assert(items.take(0) =~= Seq::empty());
        assert(buf@ =~= start + codec::put_many(put_micros(), items.take(0)));
    }
    while i < n
        invariant
            n == v@.len(),
            i <= n,
            items == data::instants(v@),
            buf@ == start + codec::put_many(put_micros(), items.take(i as int)),
            forall|j: int| 0 <= j < i ==> data::valid_instant(#[trigger] items[j]),
        decreases n - i,
    {
        let ghost before = buf@;
        let micros: i64 = v[i].timestamp_micros();
        codec::write_u64_le(buf, micros as u64);
        proof {
            assert(items.take(i + 1) =~= items.take(i as int).push(items[i as int]));
            codec::lemma_put_many_push(put_micros(), items.take(i as int), items[i as int]);
            assert(buf@ =~= start + codec::put_many(put_micros(), items.take(i + 1)));
        }
        i = i + 1;
    }
    proof {
        assert(items.take(n as int) =~= items);
        assert(buf@ =~= old(buf)@ + put_list(put_micros(), data::instants(v@)));
    }
}

/// Appends a list of truth values.
fn write_bool_array(buf: &mut Vec<u8>, v: &Vec<bool>)
    ensures
        final(buf)@ == old(buf)@ + put_list(put_bool(), v@),
        v@.len() <= u64::MAX,
{
    let n: usize = v.len();
    codec::write_varint(buf, n as u64);
    let ghost start = buf@;
    let ghost items = v@;
    let mut i: usize = 0;
    proof {
        assert(items.take(0) =~= Seq::empty());
        assert(buf@ =~= start + codec::put_many(put_bool(), items.take(0)));
    }
    while i < n
        invariant
            n == v@.len(),
            i <= n,
            items == v@,
            buf@ == start + codec::put_many(put_bool(), items.take(i as int)),
        decreases n - i,
    {
        let ghost before = buf@;
        write_bool(buf, v[i]);
        proof {
            assert(items.take(i + 1) =~= items.take(i as int).push(items[i as int]));
            codec::lemma_put_many_push(put_bool(), items.take(i as int), items[i as int]);
            assert(buf@ =~= start + codec::put_many(put_bool(), items.take(i + 1)));
        }
        i = i + 1;
    }
    proof {
        assert(items.take(n as int) =~= items);
        assert(buf@ =~= old(buf)@ + put_list(put_bool(), v@));
    }
}

/// Appends a list of texts.
fn write_text_array(buf: &mut Vec<u8>, v: &Vec<String>)
    ensures
        final(buf)@ == old(buf)@ + put_list(put_text(), data::texts(v@)),
        value_held(DataView::TextArray(data::texts(v@))),
{
    let n: usize = v.len();
    codec::write_varint(buf, n as u64);
    let ghost start = buf@;
    let ghost items = data::texts(v@);
    let mut i: usize = 0;
    proof {
        assert(items.take(0) =~= Seq::empty());
        assert(buf@ =~= start + codec::put_many(put_text(), items.take(0)));
    }
    while i < n
        invariant
            n == v@.len(),
            i <= n,
            items == data::texts(v@),
            buf@ == start + codec::put_many(put_text(), items.take(i as int)),
            forall|j: int| 0 <= j < i ==> text_fits(#[trigger] items[j]),
        decreases n - i,
    {
        let ghost before = buf@;
        codec::write_str(buf, v[i].as_str());
        proof {
            assert(items.take(i + 1) =~= items.take(i as int).push(items[i as int]));
            codec::lemma_put_many_push(put_text(), items.take(i as int), items[i as int]);
            assert(buf@ =~= start + codec::put_many(put_text(), items.take(i + 1)));
        }
        i = i + 1;
    }
    proof {
        assert(items.take(n as int) =~= items);
        assert(buf@ =~= old(buf)@ + put_list(put_text(), data::texts(v@)));
    }
}


/// Appends a value behind its tag.
fn write_value(buf: &mut Vec<u8>, value: &DataValue)
    ensures
        final(buf)@ == old(buf)@ + (seq![tag_of(value@)] + put_payload(value@)),
        value_held(value@),
{
    let ghost start = buf@;
    match value {
        DataValue::Text(text) => {
            buf.push(TAG_TEXT);
            codec::write_str(buf, text.as_str());
        },
        DataValue::Int64(num) => {
            buf.push(TAG_INT64);
            codec::write_u64_le(buf, *num as u64);
        },
        DataValue::Float64(num) => {
            buf.push(TAG_FLOAT64);
            codec::write_u64_le(buf, *num);
        },
        DataValue::Bool(b) => {
            buf.push(TAG_BOOL);
            write_bool(buf, *b);
        },
        DataValue::DateTime(dt) => {
            buf.push(TAG_DATETIME);
            let (secs, nanos) = dt.parts();
            let text: String = outside::to_rfc3339(secs, nanos);
            codec::write_str(buf, text.as_str());
        },
        DataValue::Geo(p) => {
            buf.push(TAG_GEO);
            write_geo(buf, *p);
        },
        DataValue::GeoEcef(p) => {
            buf.push(TAG_GEO_ECEF);
            write_ecef(buf, *p);
        },
        DataValue::Bytes(bytes, mime) => {
            buf.push(TAG_BYTES);
            match mime {
                Some(m) => codec::write_str(buf, m.as_str()),
                None => {
                    let empty: String = String::new();
                    codec::write_str(buf, empty.as_str());
                },
            }
            codec::write_bytes(buf, bytes.as_slice());
        },
        DataValue::Null => {
            buf.push(TAG_NULL);
        },
        DataValue::Vector(v) => {
            buf.push(TAG_VECTOR);
            write_vector(buf, v);
        },
        DataValue::Int64Array(v) => {
            buf.push(TAG_INT64_ARRAY);
            write_int64_array(buf, v);
        },
        DataValue::Float64Array(v) => {
            buf.push(TAG_FLOAT64_ARRAY);
            write_float64_array(buf, v);
        },
        DataValue::GeoArray(v) => {
            buf.push(TAG_GEO_ARRAY);
            write_geo_array(buf, v);
        },
        DataValue::GeoEcefArray(v) => {
            buf.push(TAG_GEO_ECEF_ARRAY);
            write_ecef_array(buf, v);
        },
        DataValue::DateTimeArray(v) => {
            buf.push(TAG_DATETIME_ARRAY);
            write_datetime_array(buf, v);
        },
        DataValue::BoolArray(v) => {
            buf.push(TAG_BOOL_ARRAY);
            write_bool_array(buf, v);
        },
        DataValue::TextArray(v) => {
            buf.push(TAG_TEXT_ARRAY);
            write_text_array(buf, v);
        },
    }
    assert(buf@ =~= start + (seq![tag_of(value@)] + put_payload(value@)));
}

/// Appends one document: its id and its fields, in the order of their names.
pub fn encode_document(buf: &mut Vec<u8>, doc_id: u64, fields: &FieldMap<DataValue>)
    ensures
        final(buf)@ == old(buf)@ + put_document()((doc_id, data::fields_view(fields@))),
        fields_held(data::fields_view(fields@)),
{
    let n: usize = fields.len();
    let ghost items = data::fields_view(fields@);
    codec::write_u64_le(buf, doc_id);
    codec::write_varint(buf, n as u64);
    let ghost start = buf@;
    let mut i: usize = 0;
    proof {
        assert(items.take(0) =~= Seq::empty());
        assert(buf@ =~= start + codec::put_many(put_field(), items.take(0)));
    }
    while i < n
        invariant
            n == fields@.len(),
            i <= n,
            items == data::fields_view(fields@),
            buf@ == start + codec::put_many(put_field(), items.take(i as int)),
            forall|j: int|
                0 <= j < i ==> text_fits((#[trigger] items[j]).0) && value_held(items[j].1),
        decreases n - i,
    {
        let ghost before = buf@;
        codec::write_str(buf, fields.name_at(i).as_str());
        write_value(buf, fields.value_at(i));
        proof {
            assert(buf@ =~= before + put_field()(items[i as int]));
            assert(items.take(i + 1) =~= items.take(i as int).push(items[i as int]));
            codec::lemma_put_many_push(put_field(), items.take(i as int), items[i as int]);
            assert(buf@ =~= start + codec::put_many(put_field(), items.take(i + 1)));
        }
        i = i + 1;
    }
    proof {
        assert(items.take(n as int) =~= items);
        assert(buf@ =~= old(buf)@ + put_document()((doc_id, items)));
    }
}

// ---------------------------------------------------------------------------
// The document found at a position
// ---------------------------------------------------------------------------

/// Takes a 32-bit integer.
pub open spec fn take_u32(what: &'static str) -> spec_fn(Seq<u8>, int) -> codec::Taken<u32> {
    |b: Seq<u8>, p: int| codec::take_u32(b, p, what)
}

/// Takes a signed integer.
pub open spec fn take_i64(what: &'static str) -> spec_fn(Seq<u8>, int) -> codec::Taken<i64> {
    |b: Seq<u8>, p: int|
        match codec::take_u64(b, p, what) {
            Err(e) => Err(e),
            Ok((v, q)) => Ok((v as i64, q)),
        }
}

/// Takes a truth value: any byte but zero is true.
pub open spec fn take_bool(what: &'static str) -> spec_fn(Seq<u8>, int) -> codec::Taken<bool> {
    |b: Seq<u8>, p: int|
        match codec::take_u8(b, p, what) {
            Err(e) => Err(e),
            Ok((v, q)) => Ok((v != 0, q)),
        }
}

/// Takes a text.
pub open spec fn take_text(what: &'static str) -> spec_fn(Seq<u8>, int) -> codec::Taken<Seq<char>> {
    |b: Seq<u8>, p: int| codec::take_str(b, p, what)
}

/// Takes a point.
pub open spec fn take_geo(lat: &'static str, lon: &'static str) -> spec_fn(
    Seq<u8>,
    int,
) -> codec::Taken<GeoPoint> {
    |b: Seq<u8>, p: int|
        match codec::take_u64(b, p, lat) {
            Err(e) => Err(e),
            Ok((v, q)) => match codec::take_u64(b, q, lon) {
                Err(e) => Err(e),
                Ok((w, r)) => Ok((GeoPoint { lat: v, lon: w }, r)),
            },
        }
}

/// Takes a point in earth-centred coordinates.
pub open spec fn take_ecef(x: &'static str, y: &'static str, z: &'static str) -> spec_fn(
    Seq<u8>,
    int,
) -> codec::Taken<GeoEcefPoint> {
    |b: Seq<u8>, p: int|
        match codec::take_u64(b, p, x) {
            Err(e) => Err(e),
            Ok((v, q)) => match codec::take_u64(b, q, y) {
                Err(e) => Err(e),
                Ok((w, r)) => match codec::take_u64(b, r, z) {
                    Err(e) => Err(e),
                    Ok((u, t)) => Ok((GeoEcefPoint { x: v, y: w, z: u }, t)),
                },
            },
        }
}

/// Takes an instant in microseconds; a number outside the range of instants is
/// an error.
pub open spec fn take_micros(what: &'static str) -> spec_fn(Seq<u8>, int) -> codec::Taken<
    (i64, u32),
> {
    |b: Seq<u8>, p: int|
        match codec::take_u64(b, p, what) {
            Err(e) => Err(e),
            Ok((v, q)) => match data::micros_instant(v as i64) {
                Some(t) => Ok((t, q)),
                None => Err(LaurusError::DateTimeRange { micros: v as i64 }),
            },
        }
}

/// Takes a list of elements of at least `min_size` bytes.
pub open spec fn take_list<T>(
    f: spec_fn(Seq<u8>, int) -> codec::Taken<T>,
    b: Seq<u8>,
    p: int,
    min_size: int,
    what: &'static str,
) -> codec::Taken<Seq<T>> {
    match codec::take_count(b, p, min_size, what) {
        Err(e) => Err(e),
        Ok((n, q)) => codec::take_many(f, b, q, n as nat),
    }
}

/// A taken value made into a field value.
pub open spec fn made<T>(t: codec::Taken<T>, f: spec_fn(T) -> DataView) -> codec::Taken<DataView> {
    match t {
        Err(e) => Err(e),
        Ok((v, q)) => Ok((f(v), q)),
    }
}

/// Takes the value of a tag.
pub open spec fn take_value(b: Seq<u8>, p: int, tag: u8) -> codec::Taken<DataView> {
    if tag == TAG_TEXT {
        made(codec::take_str(b, p, "stored Text field"), |s: Seq<char>| DataView::Text(s))
    } else if tag == TAG_INT64 {
        made(take_i64("stored Int64 field")(b, p), |n: i64| DataView::Int64(n))
    } else if tag == TAG_FLOAT64 {
        made(codec::each_u64("stored Float64 field")(b, p), |n: u64| DataView::Float64(n))
    } else if tag == TAG_BOOL {
        made(take_bool("stored Bool field")(b, p), |v: bool| DataView::Bool(v))
    } else if tag == TAG_BYTES {
        match codec::take_str(b, p, "stored Bytes field mime") {
            Err(e) => Err(e),
            Ok((m, q)) => match codec::take_bytes(b, q, "stored Bytes field data") {
                Err(e) => Err(e),
                Ok((d, r)) => Ok(
                    (DataView::Bytes(d, if m.len() == 0 { None } else { Some(m) }), r),
                ),
            },
        }
    } else if tag == TAG_DATETIME {
        match codec::take_str(b, p, "stored DateTime field") {
            Err(e) => Err(e),
            Ok((s, q)) => match outside::rfc3339_instant(s) {
                Ok(t) => Ok((DataView::DateTime(t), q)),
                Err(date_time) => Err(LaurusError::BadDateTime { date_time }),
            },
        }
    } else if tag == TAG_GEO {
        made(
            take_geo("stored Geo field lat", "stored Geo field lon")(b, p),
            |v: GeoPoint| DataView::Geo(v),
        )
    } else if tag == TAG_GEO_ECEF {
        made(
            take_ecef("stored GeoEcef field x", "stored GeoEcef field y", "stored GeoEcef field z")(
                b,
                p,
            ),
            |v: GeoEcefPoint| DataView::GeoEcef(v),
        )
    } else if tag == TAG_NULL {
        Ok((DataView::Null, p))
    } else if tag == TAG_VECTOR {
        made(
            take_list(take_u32("stored Vector field element"), b, p, 4, "stored Vector field length"),
            |v: Seq<u32>| DataView::Vector(v),
        )
    } else if tag == TAG_INT64_ARRAY {
        made(
            take_list(
                take_i64("stored Int64Array field element"),
                b,
                p,
                8,
                "stored Int64Array field length",
            ),
            |v: Seq<i64>| DataView::Int64Array(v),
        )
    } else if tag == TAG_FLOAT64_ARRAY {
        made(
            take_list(
                codec::each_u64("stored Float64Array field element"),
                b,
                p,
                8,
                "stored Float64Array field length",
            ),
            |v: Seq<u64>| DataView::Float64Array(v),
        )
    } else if tag == TAG_GEO_ARRAY {
        made(
            take_list(
                take_geo("stored GeoArray field lat", "stored GeoArray field lon"),
                b,
                p,
                16,
                "stored GeoArray field length",
            ),
            |v: Seq<GeoPoint>| DataView::GeoArray(v),
        )
    } else if tag == TAG_GEO_ECEF_ARRAY {
        made(
            take_list(
                take_ecef(
                    "stored GeoEcefArray field x",
                    "stored GeoEcefArray field y",
                    "stored GeoEcefArray field z",
                ),
                b,
                p,
                24,
                "stored GeoEcefArray field length",
            ),
            |v: Seq<GeoEcefPoint>| DataView::GeoEcefArray(v),
        )
    } else if tag == TAG_DATETIME_ARRAY {
        made(
            take_list(
                take_micros("stored DateTimeArray field element"),
                b,
                p,
                8,
                "stored DateTimeArray field length",
            ),
            |v: Seq<(i64, u32)>| DataView::DateTimeArray(v),
        )
    } else if tag == TAG_BOOL_ARRAY {
        made(
            take_list(
                take_bool("stored BoolArray field element"),
                b,
                p,
                1,
                "stored BoolArray field length",
            ),
            |v: Seq<bool>| DataView::BoolArray(v),
        )
    } else if tag == TAG_TEXT_ARRAY {
        made(
            take_list(
                take_text("stored TextArray field element"),
                b,
                p,
                1,
                "stored TextArray field length",
            ),
            |v: Seq<Seq<char>>| DataView::TextArray(v),
        )
    } else {
        Err(LaurusError::UnknownTag { tag })
    }
}

/// Takes a field: its name, its tag and its value.
pub open spec fn take_field() -> spec_fn(Seq<u8>, int) -> codec::Taken<(Seq<char>, DataView)> {
    |b: Seq<u8>, p: int|
        match codec::take_str(b, p, "stored-fields field name") {
            Err(e) => Err(e),
            Ok((name, q)) => match codec::take_u8(b, q, "stored-fields type tag") {
                Err(e) => Err(e),
                Ok((tag, r)) => match take_value(b, r, tag) {
                    Err(e) => Err(e),
                    Ok((v, t)) => Ok(((name, v), t)),
                },
            },
        }
}

/// The document of fields that come one after the other: a later value takes
/// the place of an earlier one.
pub open spec fn collect_fields(s: FieldsView) -> FieldsView
    decreases s.len(),
{
    if s.len() == 0 {
        FieldsView::empty()
    } else {
        names::with_value(collect_fields(s.drop_last()), s.last().0, s.last().1)
    }
}

/// Takes a document: its id and its fields.
pub open spec fn take_document() -> spec_fn(Seq<u8>, int) -> codec::Taken<(u64, FieldsView)> {
    |b: Seq<u8>, p: int|
        match codec::take_u64(b, p, "stored-fields document id") {
            Err(e) => Err(e),
            Ok((id, q)) => match take_list(take_field(), b, q, 2, "stored-fields field count") {
                Err(e) => Err(e),
                Ok((fields, r)) => Ok(((id, collect_fields(fields)), r)),
            },
        }
}

// ---------------------------------------------------------------------------
// Reading a document
// ---------------------------------------------------------------------------

/// Reads a truth value.
fn read_bool(bytes: &[u8], cursor: &mut usize, what: &'static str) -> (r: Result<bool, LaurusError>)
    requires
        *old(cursor) <= bytes@.len(),
    ensures
        codec::read_as(r, *final(cursor), take_bool(what)(bytes@, *old(cursor) as int)),
        *final(cursor) <= bytes@.len(),
{
    match codec::read_u8(bytes, cursor, what) {
        Ok(v) => Ok(v != 0),
        Err(e) => Err(e),
    }
}

/// Reads a signed integer.
fn read_i64_le(bytes: &[u8], cursor: &mut usize, what: &'static str) -> (r: Result<i64, LaurusError>)
    requires
        *old(cursor) <= bytes@.len(),
    ensures
        codec::read_as(r, *final(cursor), take_i64(what)(bytes@, *old(cursor) as int)),
        *final(cursor) <= bytes@.len(),
{
    match codec::read_u64_le(bytes, cursor, what) {
        Ok(v) => Ok(v as i64),
        Err(e) => Err(e),
    }
}

/// Reads a point.
fn read_geo(bytes: &[u8], cursor: &mut usize, lat: &'static str, lon: &'static str)
    -> (r: Result<GeoPoint, LaurusError>)
    requires
        *old(cursor) <= bytes@.len(),
    ensures
        codec::read_as(r, *final(cursor), take_geo(lat, lon)(bytes@, *old(cursor) as int)),
        *final(cursor) <= bytes@.len(),
{
    let v: u64 = match codec::read_u64_le(bytes, cursor, lat) {
        Ok(v) => v,
        Err(e) => return Err(e),
    };
    let w: u64 = match codec::read_u64_le(bytes, cursor, lon) {
        Ok(v) => v,
        Err(e) => return Err(e),
    };
    Ok(GeoPoint { lat: v, lon: w })
}

/// Reads a point in earth-centred coordinates.
fn read_ecef(
    bytes: &[u8],
    cursor: &mut usize,
    x: &'static str,
    y: &'static str,
    z: &'static str,
) -> (r: Result<GeoEcefPoint, LaurusError>)
    requires
        *old(cursor) <= bytes@.len(),
    ensures
        codec::read_as(r, *final(cursor), take_ecef(x, y, z)(bytes@, *old(cursor) as int)),
        *final(cursor) <= bytes@.len(),
{
    let v: u64 = match codec::read_u64_le(bytes, cursor, x) {
        Ok(v) => v,
        Err(e) => return Err(e),
    };
    let w: u64 = match codec::read_u64_le(bytes, cursor, y) {
        Ok(v) => v,
        Err(e) => return Err(e),
    };
    let u: u64 = match codec::read_u64_le(bytes, cursor, z) {
        Ok(v) => v,
        Err(e) => return Err(e),
    };
    Ok(GeoEcefPoint { x: v, y: w, z: u })
}

/// Reads an instant in microseconds.
fn read_micros(bytes: &[u8], cursor: &mut usize, what: &'static str)
    -> (r: Result<DateTimeUtc, LaurusError>)
    requires
        *old(cursor) <= bytes@.len(),
    ensures
        codec::read_view(r, *final(cursor), take_micros(what)(bytes@, *old(cursor) as int)),
        *final(cursor) <= bytes@.len(),
{
    let v: i64 = match codec::read_u64_le(bytes, cursor, what) {
        Ok(v) => v as i64,
        Err(e) => return Err(e),
    };
    match DateTimeUtc::from_timestamp_micros(v) {
        Some(t) => Ok(t),
        None => Err(LaurusError::DateTimeRange { micros: v }),
    }
}

/// Reads a vector.
fn read_vector(bytes: &[u8], cursor: &mut usize) -> (r: Result<Vec<u32>, LaurusError>)
    requires
        *old(cursor) <= bytes@.len(),
    ensures
        codec::read_view(r, *final(cursor), take_list(take_u32("stored Vector field element"), bytes@, *old(cursor) as int, 4, "stored Vector field length")),
        *final(cursor) <= bytes@.len(),
{
    let n: usize = match codec::read_count(bytes, cursor, 4, "stored Vector field length") {
        Ok(n) => n,
        Err(e) => return Err(e),
    };
    let ghost start = *cursor as int;
    let ghost f = take_u32("stored Vector field element");
    let mut v: Vec<u32> = Vec::with_capacity(n);
    let mut i: usize = 0;
    assert(v@ =~= Seq::empty());
    while i < n
        invariant
            i <= n,
            *cursor <= bytes@.len(),
            f == take_u32("stored Vector field element"),
            take_list(take_u32("stored Vector field element"), bytes@, *old(cursor) as int, 4, "stored Vector field length")
                == codec::take_many(f, bytes@, start, n as nat),
            codec::take_many(f, bytes@, start, i as nat) == Ok::<_, LaurusError>((v@, *cursor as int)),
        decreases n - i,
    {
        let ghost before = v@;
        match codec::read_u32_le(bytes, cursor, "stored Vector field element") {
            Ok(x) => {
                v.push(x);
                assert(v@ =~= before.push(x));
            },
            Err(e) => {
                proof {
                    codec::lemma_many_fails(f, bytes@, start, (i + 1) as nat, n as nat);
                }
                return Err(e);
            },
        }
        i = i + 1;
    }
    Ok(v)
}

/// Reads a list of integers.
fn read_int64_array(bytes: &[u8], cursor: &mut usize) -> (r: Result<Vec<i64>, LaurusError>)
    requires
        *old(cursor) <= bytes@.len(),
    ensures
        codec::read_view(r, *final(cursor), take_list(take_i64("stored Int64Array field element"), bytes@, *old(cursor) as int, 8, "stored Int64Array field length")),
        *final(cursor) <= bytes@.len(),
{
    let n: usize = match codec::read_count(bytes, cursor, 8, "stored Int64Array field length") {
        Ok(n) => n,
        Err(e) => return Err(e),
    };
    let ghost start = *cursor as int;
    let ghost f = take_i64("stored Int64Array field element");
    let mut v: Vec<i64> = Vec::with_capacity(n);
    let mut i: usize = 0;
    assert(v@ =~= Seq::empty());
    while i < n
        invariant
            i <= n,
            *cursor <= bytes@.len(),
            f == take_i64("stored Int64Array field element"),
            take_list(take_i64("stored Int64Array field element"), bytes@, *old(cursor) as int, 8, "stored Int64Array field length")
                == codec::take_many(f, bytes@, start, n as nat),
            codec::take_many(f, bytes@, start, i as nat) == Ok::<_, LaurusError>((v@, *cursor as int)),
        decreases n - i,
    {
        let ghost before = v@;
        match read_i64_le(bytes, cursor, "stored Int64Array field element") {
            Ok(x) => {
                v.push(x);
                assert(v@ =~= before.push(x));
            },
            Err(e) => {
                proof {
                    codec::lemma_many_fails(f, bytes@, start, (i + 1) as nat, n as nat);
                }
                return Err(e);
            },
        }
        i = i + 1;
    }
    Ok(v)
}

/// Reads a list of floats.
fn read_float64_array(bytes: &[u8], cursor: &mut usize) -> (r: Result<Vec<u64>, LaurusError>)
    requires
        *old(cursor) <= bytes@.len(),
    ensures
        codec::read_view(r, *final(cursor), take_list(codec::each_u64("stored Float64Array field element"), bytes@, *old(cursor) as int, 8, "stored Float64Array field length")),
        *final(cursor) <= bytes@.len(),
{
    let n: usize = match codec::read_count(bytes, cursor, 8, "stored Float64Array field length") {
        Ok(n) => n,
        Err(e) => return Err(e),
    };
    let ghost start = *cursor as int;
    let ghost f = codec::each_u64("stored Float64Array field element");
    let mut v: Vec<u64> = Vec::with_capacity(n);
    let mut i: usize = 0;
    assert(v@ =~= Seq::empty());
    while i < n
        invariant
            i <= n,
            *cursor <= bytes@.len(),
            f == codec::each_u64("stored Float64Array field element"),
            take_list(codec::each_u64("stored Float64Array field element"), bytes@, *old(cursor) as int, 8, "stored Float64Array field length")
                == codec::take_many(f, bytes@, start, n as nat),
            codec::take_many(f, bytes@, start, i as nat) == Ok::<_, LaurusError>((v@, *cursor as int)),
        decreases n - i,
    {
        let ghost before = v@;
        match codec::read_u64_le(bytes, cursor, "stored Float64Array field element") {
            Ok(x) => {
                v.push(x);
                assert(v@ =~= before.push(x));
            },
            Err(e) => {
                proof {
                    codec::lemma_many_fails(f, bytes@, start, (i + 1) as nat, n as nat);
                }
                return Err(e);
            },
        }
        i = i + 1;
    }
    Ok(v)
}

/// Reads a list of points.
fn read_geo_array(bytes: &[u8], cursor: &mut usize) -> (r: Result<Vec<GeoPoint>, LaurusError>)
    requires
        *old(cursor) <= bytes@.len(),
    ensures
        codec::read_view(r, *final(cursor), take_list(take_geo("stored GeoArray field lat", "stored GeoArray field lon"), bytes@, *old(cursor) as int, 16, "stored GeoArray field length")),
        *final(cursor) <= bytes@.len(),
{
    let n: usize = match codec::read_count(bytes, cursor, 16, "stored GeoArray field length") {
        Ok(n) => n,
        Err(e) => return Err(e),
    };
    let ghost start = *cursor as int;
    let ghost f = take_geo("stored GeoArray field lat", "stored GeoArray field lon");
    let mut v: Vec<GeoPoint> = Vec::with_capacity(n);
    let mut i: usize = 0;
    assert(v@ =~= Seq::empty());
    while i < n
        invariant
            i <= n,
            *cursor <= bytes@.len(),
            f == take_geo("stored GeoArray field lat", "stored GeoArray field lon"),
            take_list(take_geo("stored GeoArray field lat", "stored GeoArray field lon"), bytes@, *old(cursor) as int, 16, "stored GeoArray field length")
                == codec::take_many(f, bytes@, start, n as nat),
            codec::take_many(f, bytes@, start, i as nat) == Ok::<_, LaurusError>((v@, *cursor as int)),
        decreases n - i,
    {
        let ghost before = v@;
        match read_geo(bytes, cursor, "stored GeoArray field lat", "stored GeoArray field lon") {
            Ok(x) => {
                v.push(x);
                assert(v@ =~= before.push(x));
            },
            Err(e) => {
                proof {
                    codec::lemma_many_fails(f, bytes@, start, (i + 1) as nat, n as nat);
                }
                return Err(e);
            },
        }
        i = i + 1;
    }
    Ok(v)
}

/// Reads a list of points in earth-centred coordinates.
fn read_ecef_array(bytes: &[u8], cursor: &mut usize) -> (r: Result<Vec<GeoEcefPoint>, LaurusError>)
    requires
        *old(cursor) <= bytes@.len(),
    ensures
        codec::read_view(r, *final(cursor), take_list(take_ecef("stored GeoEcefArray field x", "stored GeoEcefArray field y", "stored GeoEcefArray field z"), bytes@, *old(cursor) as int, 24, "stored GeoEcefArray field length")),
        *final(cursor) <= bytes@.len(),
{
    let n: usize = match codec::read_count(bytes, cursor, 24, "stored GeoEcefArray field length") {
        Ok(n) => n,
        Err(e) => return Err(e),
    };
    let ghost start = *cursor as int;
    let ghost f = take_ecef("stored GeoEcefArray field x", "stored GeoEcefArray field y", "stored GeoEcefArray field z");
    let mut v: Vec<GeoEcefPoint> = Vec::with_capacity(n);
    let mut i: usize = 0;
    assert(v@ =~= Seq::empty());
    while i < n
        invariant
            i <= n,
            *cursor <= bytes@.len(),
            f == take_ecef("stored GeoEcefArray field x", "stored GeoEcefArray field y", "stored GeoEcefArray field z"),
            take_list(take_ecef("stored GeoEcefArray field x", "stored GeoEcefArray field y", "stored GeoEcefArray field z"), bytes@, *old(cursor) as int, 24, "stored GeoEcefArray field length")
                == codec::take_many(f, bytes@, start, n as nat),
            codec::take_many(f, bytes@, start, i as nat) == Ok::<_, LaurusError>((v@, *cursor as int)),
        decreases n - i,
    {
        let ghost before = v@;
        match read_ecef(
            bytes,
            cursor,
            "stored GeoEcefArray field x",
            "stored GeoEcefArray field y",
            "stored GeoEcefArray field z",
        ) {
            Ok(x) => {
                v.push(x);
                assert(v@ =~= before.push(x));
            },
            Err(e) => {
                proof {
                    codec::lemma_many_fails(f, bytes@, start, (i + 1) as nat, n as nat);
                }
                return Err(e);
            },
        }
        i = i + 1;
    }
    Ok(v)
}

/// Reads a list of instants.
fn read_datetime_array(bytes: &[u8], cursor: &mut usize) -> (r: Result<Vec<DateTimeUtc>, LaurusError>)
    requires
        *old(cursor) <= bytes@.len(),
    ensures
        match take_list(take_micros("stored DateTimeArray field element"), bytes@, *old(cursor) as int, 8, "stored DateTimeArray field length") {
            Err(e) => r == Err::<Vec<DateTimeUtc>, LaurusError>(e),
            Ok((s, q)) => r is Ok && data::instants(r->Ok_0@) == s && *final(cursor) == q,
        },
        *final(cursor) <= bytes@.len(),
{
    let n: usize = match codec::read_count(bytes, cursor, 8, "stored DateTimeArray field length") {
        Ok(n) => n,
        Err(e) => return Err(e),
    };
    let ghost start = *cursor as int;
    let ghost f = take_micros("stored DateTimeArray field element");
    let mut v: Vec<DateTimeUtc> = Vec::with_capacity(n);
    let mut i: usize = 0;
    assert(data::instants(v@) =~= Seq::empty());
    while i < n
        invariant
            i <= n,
            *cursor <= bytes@.len(),
            f == take_micros("stored DateTimeArray field element"),
            take_list(take_micros("stored DateTimeArray field element"), bytes@, *old(cursor) as int, 8, "stored DateTimeArray field length")
                == codec::take_many(f, bytes@, start, n as nat),
            codec::take_many(f, bytes@, start, i as nat) == Ok::<_, LaurusError>((data::instants(v@), *cursor as int)),
        decreases n - i,
    {
        let ghost before = data::instants(v@);
        match read_micros(bytes, cursor, "stored DateTimeArray field element") {
            Ok(x) => {
                v.push(x);
                assert(data::instants(v@) =~= before.push(x@));
            },
            Err(e) => {
                proof {
                    codec::lemma_many_fails(f, bytes@, start, (i + 1) as nat, n as nat);
                }
                return Err(e);
            },
        }
        i = i + 1;
    }
    Ok(v)
}

/// Reads a list of truth values.
fn read_bool_array(bytes: &[u8], cursor: &mut usize) -> (r: Result<Vec<bool>, LaurusError>)
    requires
        *old(cursor) <= bytes@.len(),
    ensures
        codec::read_view(r, *final(cursor), take_list(take_bool("stored BoolArray field element"), bytes@, *old(cursor) as int, 1, "stored BoolArray field length")),
        *final(cursor) <= bytes@.len(),
{
    let n: usize = match codec::read_count(bytes, cursor, 1, "stored BoolArray field length") {
        Ok(n) => n,
        Err(e) => return Err(e),
    };
    let ghost start = *cursor as int;
    let ghost f = take_bool("stored BoolArray field element");
    let mut v: Vec<bool> = Vec::with_capacity(n);
    let mut i: usize = 0;
    assert(v@ =~= Seq::empty());
    while i < n
        invariant
            i <= n,
            *cursor <= bytes@.len(),
            f == take_bool("stored BoolArray field element"),
            take_list(take_bool("stored BoolArray field element"), bytes@, *old(cursor) as int, 1, "stored BoolArray field length")
                == codec::take_many(f, bytes@, start, n as nat),
            codec::take_many(f, bytes@, start, i as nat) == Ok::<_, LaurusError>((v@, *cursor as int)),
        decreases n - i,
    {
        let ghost before = v@;
        match read_bool(bytes, cursor, "stored BoolArray field element") {
            Ok(x) => {
                v.push(x);
                assert(v@ =~= before.push(x));
            },
            Err(e) => {
                proof {
                    codec::lemma_many_fails(f, bytes@, start, (i + 1) as nat, n as nat);
                }
                return Err(e);
            },
        }
        i = i + 1;
    }
    Ok(v)
}

/// Reads a list of texts.
fn read_text_array(bytes: &[u8], cursor: &mut usize) -> (r: Result<Vec<String>, LaurusError>)
    requires
        *old(cursor) <= bytes@.len(),
    ensures
        match take_list(take_text("stored TextArray field element"), bytes@, *old(cursor) as int, 1, "stored TextArray field length") {
            Err(e) => r == Err::<Vec<String>, LaurusError>(e),
            Ok((s, q)) => r is Ok && data::texts(r->Ok_0@) == s && *final(cursor) == q,
        },
        *final(cursor) <= bytes@.len(),
{
    let n: usize = match codec::read_count(bytes, cursor, 1, "stored TextArray field length") {
        Ok(n) => n,
        Err(e) => return Err(e),
    };
    let ghost start = *cursor as int;
    let ghost f = take_text("stored TextArray field element");
    let mut v: Vec<String> = Vec::with_capacity(n);
    let mut i: usize = 0;
    assert(data::texts(v@) =~= Seq::empty());
    while i < n
        invariant
            i <= n,
            *cursor <= bytes@.len(),
            f == take_text("stored TextArray field element"),
            take_list(take_text("stored TextArray field element"), bytes@, *old(cursor) as int, 1, "stored TextArray field length")
                == codec::take_many(f, bytes@, start, n as nat),
            codec::take_many(f, bytes@, start, i as nat) == Ok::<_, LaurusError>((data::texts(v@), *cursor as int)),
        decreases n - i,
    {
        let ghost before = data::texts(v@);
        match codec::read_len_prefixed_str(bytes, cursor, "stored TextArray field element") {
            Ok(x) => {
                v.push(x);
                assert(data::texts(v@) =~= before.push(x@));
            },
            Err(e) => {
                proof {
                    codec::lemma_many_fails(f, bytes@, start, (i + 1) as nat, n as nat);
                }
                return Err(e);
            },
        }
        i = i + 1;
    }
    Ok(v)
}

/// Reads the value of a tag.
fn read_value(bytes: &[u8], cursor: &mut usize, tag: u8) -> (r: Result<DataValue, LaurusError>)
    requires
        *old(cursor) <= bytes@.len(),
    ensures
        codec::read_view(r, *final(cursor), take_value(bytes@, *old(cursor) as int, tag)),
        *final(cursor) <= bytes@.len(),
{
    if tag == TAG_TEXT {
        match codec::read_len_prefixed_str(bytes, cursor, "stored Text field") {
            Ok(v) => Ok(DataValue::Text(v)),
            Err(e) => Err(e),
        }
    } else if tag == TAG_INT64 {
        match read_i64_le(bytes, cursor, "stored Int64 field") {
            Ok(v) => Ok(DataValue::Int64(v)),
            Err(e) => Err(e),
        }
    } else if tag == TAG_FLOAT64 {
        match codec::read_u64_le(bytes, cursor, "stored Float64 field") {
            Ok(v) => Ok(DataValue::Float64(v)),
            Err(e) => Err(e),
        }
    } else if tag == TAG_BOOL {
        match read_bool(bytes, cursor, "stored Bool field") {
            Ok(v) => Ok(DataValue::Bool(v)),
            Err(e) => Err(e),
        }
    } else if tag == TAG_BYTES {
        let mime: String = match codec::read_len_prefixed_str(
            bytes,
            cursor,
            "stored Bytes field mime",
        ) {
            Ok(v) => v,
            Err(e) => return Err(e),
        };
        let payload: Vec<u8> = match codec::read_len_prefixed_bytes(
            bytes,
            cursor,
            "stored Bytes field data",
        ) {
            Ok(v) => v,
            Err(e) => return Err(e),
        };
        if mime.as_str().is_empty() {
            Ok(DataValue::Bytes(payload, None))
        } else {
            Ok(DataValue::Bytes(payload, Some(mime)))
        }
    } else if tag == TAG_DATETIME {
        let text: String = match codec::read_len_prefixed_str(
            bytes,
            cursor,
            "stored DateTime field",
        ) {
            Ok(v) => v,
            Err(e) => return Err(e),
        };
        match outside::parse_rfc3339(text.as_str()) {
            Ok((secs, nanos)) => match DateTimeUtc::from_timestamp(secs, nanos) {
                Some(t) => Ok(DataValue::DateTime(t)),
                None => Err(LaurusError::BadDateTime { date_time: DateTimeFault::OutOfRange }),
            },
            Err(date_time) => Err(LaurusError::BadDateTime { date_time }),
        }
    } else if tag == TAG_GEO {
        match read_geo(bytes, cursor, "stored Geo field lat", "stored Geo field lon") {
            Ok(v) => Ok(DataValue::Geo(v)),
            Err(e) => Err(e),
        }
    } else if tag == TAG_GEO_ECEF {
        match read_ecef(
            bytes,
            cursor,
            "stored GeoEcef field x",
            "stored GeoEcef field y",
            "stored GeoEcef field z",
        ) {
            Ok(v) => Ok(DataValue::GeoEcef(v)),
            Err(e) => Err(e),
        }
    } else if tag == TAG_NULL {
        Ok(DataValue::Null)
    } else if tag == TAG_VECTOR {
        match read_vector(bytes, cursor) {
            Ok(v) => Ok(DataValue::Vector(v)),
            Err(e) => Err(e),
        }
    } else if tag == TAG_INT64_ARRAY {
        match read_int64_array(bytes, cursor) {
            Ok(v) => Ok(DataValue::Int64Array(v)),
            Err(e) => Err(e),
        }
    } else if tag == TAG_FLOAT64_ARRAY {
        match read_float64_array(bytes, cursor) {
            Ok(v) => Ok(DataValue::Float64Array(v)),
            Err(e) => Err(e),
        }
    } else if tag == TAG_GEO_ARRAY {
        match read_geo_array(bytes, cursor) {
            Ok(v) => Ok(DataValue::GeoArray(v)),
            Err(e) => Err(e),
        }
    } else if tag == TAG_GEO_ECEF_ARRAY {
        match read_ecef_array(bytes, cursor) {
            Ok(v) => Ok(DataValue::GeoEcefArray(v)),
            Err(e) => Err(e),
        }
    } else if tag == TAG_DATETIME_ARRAY {
        match read_datetime_array(bytes, cursor) {
            Ok(v) => Ok(DataValue::DateTimeArray(v)),
            Err(e) => Err(e),
        }
    } else if tag == TAG_BOOL_ARRAY {
        match read_bool_array(bytes, cursor) {
            Ok(v) => Ok(DataValue::BoolArray(v)),
            Err(e) => Err(e),
        }
    } else if tag == TAG_TEXT_ARRAY {
        match read_text_array(bytes, cursor) {
            Ok(v) => Ok(DataValue::TextArray(v)),
            Err(e) => Err(e),
        }
    } else {
        Err(LaurusError::UnknownTag { tag })
    }
}

/// Reads one document and leaves the cursor behind it.
pub fn decode_document(bytes: &[u8], cursor: &mut usize)
    -> (r: Result<(u64, Document), LaurusError>)
    ensures
        match take_document()(bytes@, *old(cursor) as int) {
            Err(e) => r == Err::<(u64, Document), LaurusError>(e),
            Ok((d, q)) => r is Ok && r->Ok_0.0 == d.0 && r->Ok_0.1@ == d.1 && r->Ok_0.1.wf()
                && *final(cursor) == q,
        },
        *old(cursor) > bytes@.len() ==> r is Err && *final(cursor) == *old(cursor),
        *old(cursor) <= bytes@.len() ==> *final(cursor) <= bytes@.len(),
{
    let doc_id: u64 = match codec::read_u64_le(bytes, cursor, "stored-fields document id") {
        Ok(v) => v,
        Err(e) => return Err(e),
    };
    let ghost behind_id = *cursor as int;
    let field_count: usize = match codec::read_count(
        bytes,
        cursor,
        2,
        "stored-fields field count",
    ) {
        Ok(n) => n,
        Err(e) => return Err(e),
    };
    let ghost start = *cursor as int;
    let ghost f = take_field();
    let mut doc: Document = Document::new();
    let ghost mut taken: FieldsView = Seq::empty();
    let mut i: usize = 0;
    while i < field_count
        invariant
            i <= field_count,
            *cursor <= bytes@.len(),
            doc.wf(),
            f == take_field(),
            codec::take_u64(bytes@, *old(cursor) as int, "stored-fields document id") == Ok::<
                _,
                LaurusError,
            >((doc_id, behind_id)),
            take_list(f, bytes@, behind_id, 2, "stored-fields field count") == codec::take_many(
                f,
                bytes@,
                start,
                field_count as nat,
            ),
            codec::take_many(f, bytes@, start, i as nat) == Ok::<_, LaurusError>(
                (taken, *cursor as int),
            ),
            doc@ == collect_fields(taken),
        decreases field_count - i,
    {
        proof {
            if codec::take_many(f, bytes@, start, (i + 1) as nat) is Err {
                codec::lemma_many_fails(f, bytes@, start, (i + 1) as nat, field_count as nat);
            }
        }
        let name: String = match codec::read_len_prefixed_str(
            bytes,
            cursor,
            "stored-fields field name",
        ) {
            Ok(v) => v,
            Err(e) => return Err(e),
        };
        let tag: u8 = match codec::read_u8(bytes, cursor, "stored-fields type tag") {
            Ok(v) => v,
            Err(e) => return Err(e),
        };
        let value: DataValue = match read_value(bytes, cursor, tag) {
            Ok(v) => v,
            Err(e) => return Err(e),
        };
        proof {
            let next = taken.push((name@, value@));
            assert(next.drop_last() =~= taken);
            taken = next;
        }
        doc.insert(name, value);
        i = i + 1;
    }
    Ok((doc_id, doc))
}

// ---------------------------------------------------------------------------
// Chunks
// ---------------------------------------------------------------------------

/// The bytes of documents, one behind the other.
pub open spec fn chunk_body(docs: Seq<(u64, FieldsView)>) -> Seq<u8> {
    codec::put_many(put_document(), docs)
}

/// Whether LZ4 makes `body` smaller.
pub open spec fn shrinks(body: Seq<u8>) -> bool {
    outside::lz4_block(body).len() < body.len()
}

/// The payload of a chunk.
pub open spec fn chunk_payload(body: Seq<u8>) -> Seq<u8> {
    if shrinks(body) {
        outside::lz4_block(body)
    } else {
        body
    }
}

/// A chunk of `count` documents with the unpacked bytes `body`.
pub open spec fn put_chunk(count: nat, body: Seq<u8>) -> Seq<u8> {
    let payload = chunk_payload(body);
    codec::put_varint(count) + (seq![if shrinks(body) { CODEC_LZ4 } else { CODEC_RAW }] + (
    codec::put_varint(body.len()) + (codec::put_varint(payload.len()) + (spec_u32_to_le_bytes(
        outside::crc32(payload),
    ) + payload))))
}

/// What holds of the LZ4 block of `body`: it unpacks to `body`, and no byte of
/// it stands for more than 255 bytes.
pub open spec fn unpacks(body: Seq<u8>) -> bool {
    &&& outside::lz4_plain(outside::lz4_block(body), body.len()) == Ok::<_, Lz4Fault>(body)
    &&& body.len() <= 255 * outside::lz4_block(body).len()
    &&& body.len() <= usize::MAX
}

/// Documents in chunks: those that are closed, and the one that is filling.
#[verifier::ext_equal]
pub struct Chunked {
    pub closed: Seq<Seq<(u64, FieldsView)>>,
    pub filling: Seq<(u64, FieldsView)>,
}

/// Whether a chunk closes with the document that was put into it last.
pub open spec fn chunk_closes(filling: Seq<(u64, FieldsView)>, is_last: bool) -> bool {
    is_last || chunk_body(filling).len() >= CHUNK_TARGET_BYTES || filling.len()
        >= MAX_DOCS_PER_CHUNK
}

/// The first `n` documents in chunks.
pub open spec fn chunked(docs: Seq<(u64, FieldsView)>, n: nat) -> Chunked
    decreases n,
{
    if n == 0 {
        Chunked { closed: Seq::empty(), filling: Seq::empty() }
    } else {
        let before = chunked(docs, (n - 1) as nat);
        let filling = before.filling.push(docs[n - 1]);
        if chunk_closes(filling, n == docs.len()) {
            Chunked { closed: before.closed.push(filling), filling: Seq::empty() }
        } else {
            Chunked { closed: before.closed, filling }
        }
    }
}

/// The bytes of one chunk of documents.
pub open spec fn put_docs_chunk() -> spec_fn(Seq<(u64, FieldsView)>) -> Seq<u8> {
    |docs: Seq<(u64, FieldsView)>| put_chunk(docs.len(), chunk_body(docs))
}

/// The mark and the version of the format.
pub open spec fn file_mark() -> Seq<u8> {
    seq![83u8, 68u8, 79u8, 67u8, VERSION_MAJOR, VERSION_MINOR]
}

/// The `.docs` part of documents in the order in which they are written.
pub open spec fn put_file(docs: Seq<(u64, FieldsView)>) -> Seq<u8> {
    file_mark() + (codec::put_varint(docs.len()) + codec::put_many(
        put_docs_chunk(),
        chunked(docs, docs.len()).closed,
    ))
}

/// What is stored of analyzed documents.
pub open spec fn stored_views(docs: Seq<(u64, AnalyzedDocument)>) -> Seq<(u64, FieldsView)> {
    docs.map_values(
        |d: (u64, AnalyzedDocument)| (d.0, data::fields_view(d.1.stored_fields@)),
    )
}

/// The ids of documents.
pub open spec fn ids_of(docs: Seq<(u64, FieldsView)>) -> Seq<u64> {
    docs.map_values(|d: (u64, FieldsView)| d.0)
}

/// Documents in ascending order of their ids.
pub open spec fn by_id(docs: Seq<(u64, FieldsView)>) -> Seq<(u64, FieldsView)> {
    sort::order_of(ids_of(docs)).map_values(|i: usize| docs[i as int])
}

/// Whether no chunk of these documents outgrows what LZ4 can address.
pub open spec fn chunks_fit(docs: Seq<(u64, FieldsView)>) -> bool {
    forall|i: int|
        0 <= i < docs.len() ==> outside::lz4_room_fits(
            CHUNK_TARGET_BYTES + put_document()(#[trigger] docs[i]).len(),
        )
}

/// Writes the `.docs` part.
pub struct StoredFieldsWriter;

impl StoredFieldsWriter {
    /// Appends a chunk. LZ4's block is stored where it is smaller, and the bytes
    /// themselves where it is not.
    pub fn flush_chunk(out: &mut Vec<u8>, uncompressed: &Vec<u8>, doc_count: usize)
        -> (r: Result<(), LaurusError>)
        requires
            outside::lz4_room_fits(uncompressed@.len() as int),
        ensures
            r is Ok,
            final(out)@ == old(out)@ + put_chunk(doc_count as nat, uncompressed@),
            unpacks(uncompressed@),
    {
        let ghost start = out@;
        let room: usize = outside::lz4_maximum_output_size(uncompressed.len());
        let mut packed: Vec<u8> = Vec::new();
        packed.resize(room, 0);
        let size: usize = match outside::lz4_compress_into(uncompressed.as_slice(), &mut packed) {
            Some(n) => n,
            None => return Err(LaurusError::Compression),
        };
        packed.truncate(size);
        assert(packed@ == outside::lz4_block(uncompressed@));
        codec::write_varint(out, doc_count as u64);
        if size < uncompressed.len() {
            out.push(CODEC_LZ4);
            codec::write_varint(out, uncompressed.len() as u64);
            codec::write_varint(out, packed.len() as u64);
            codec::write_u32_le(out, outside::crc32_hash(packed.as_slice()));
            codec::write_raw(out, packed.as_slice());
        } else {
            out.push(CODEC_RAW);
            codec::write_varint(out, uncompressed.len() as u64);
            codec::write_varint(out, uncompressed.len() as u64);
            codec::write_u32_le(out, outside::crc32_hash(uncompressed.as_slice()));
            codec::write_raw(out, uncompressed.as_slice());
        }
        assert(out@ =~= start + put_chunk(doc_count as nat, uncompressed@));
        Ok(())
    }

    /// Appends the `.docs` part of `docs`, in ascending order of their ids. Where
    /// every value can be told from its bytes, loading the part gives back every
    /// document as storing keeps it, and a part that was damaged is refused as
    /// [`lemma_changed_chunk_is_refused`] says.
    pub fn write_to(out: &mut Vec<u8>, docs: &[(u64, AnalyzedDocument)])
        -> (r: Result<(), LaurusError>)
        requires
            chunks_fit(stored_views(docs@)),
        ensures
            r is Ok,
            final(out)@ == old(out)@ + put_file(by_id(stored_views(docs@))),
            docs_storable(by_id(stored_views(docs@))) ==> is_written(by_id(stored_views(docs@))),
            docs_storable(by_id(stored_views(docs@))) ==> forall|b: Seq<u8>| #[trigger]
                codec::stands_at(b, 0, put_file(by_id(stored_views(docs@)))) ==> take_file(b)
                    == Ok::<_, LaurusError>(
                    with_documents(
                        Map::empty(),
                        stored_docs_form(by_id(stored_views(docs@))),
                    ),
                ),
    {
        let ghost start = out@;
        let ghost views = stored_views(docs@);
        let ghost sorted = by_id(views);
        let n: usize = docs.len();
        let mut ids: Vec<u64> = Vec::new();
        let mut k: usize = 0;
        while k < n
            invariant
                n == docs@.len(),
                k <= n,
                views == stored_views(docs@),
                ids@ == ids_of(views).take(k as int),
            decreases n - k,
        {
            ids.push(docs[k].0);
            assert(ids@ =~= ids_of(views).take(k + 1));
            k = k + 1;
        }
        assert(ids@ =~= ids_of(views));
        let order: Vec<usize> = sort::stable_order(&ids);
        proof {
            sort::lemma_order_of(ids@);
            assert(sorted.len() == n);
        }
        out.push(83);
        out.push(68);
        out.push(79);
        out.push(67);
        out.push(VERSION_MAJOR);
        out.push(VERSION_MINOR);
        codec::write_varint(out, n as u64);
        let ghost header = out@;
        proof {
            assert(header =~= start + (file_mark() + codec::put_varint(n as nat)));
            assert(header =~= header + codec::put_many(put_docs_chunk(), Seq::empty()));
        }
        let mut chunk: Vec<u8> = Vec::new();
        let mut chunk_doc_count: usize = 0;
        let mut seen: usize = 0;
        assert(chunk@ =~= chunk_body(Seq::empty()));
        while seen < n
            invariant
                n == docs@.len(),
                n == order@.len(),
                n == sorted.len(),
                seen <= n,
                views == stored_views(docs@),
                order@ == sort::order_of(ids_of(views)),
                sorted == by_id(views),
                chunks_fit(views),
                forall|i: int| 0 <= i < n ==> (#[trigger] order@[i]) < n,
                ({
                    let c = chunked(sorted, seen as nat);
                    &&& chunk@ == chunk_body(c.filling)
                    &&& chunk_doc_count == c.filling.len()
                    &&& chunk_doc_count < MAX_DOCS_PER_CHUNK
                    &&& chunk@.len() < CHUNK_TARGET_BYTES
                    &&& out@ == header + codec::put_many(put_docs_chunk(), c.closed)
                    &&& seen == n ==> c.filling.len() == 0
                    &&& forall|i: int|
                        0 <= i < c.closed.len() ==> unpacks(chunk_body(#[trigger] c.closed[i]))
                }),
                forall|i: int| 0 <= i < seen ==> fields_held((#[trigger] sorted[i]).1),
            decreases n - seen,
        {
            let ghost c = chunked(sorted, seen as nat);
            let ghost filling = c.filling.push(sorted[seen as int]);
            let at: usize = order[seen];
            assert(sorted[seen as int] == views[at as int]);
            let ghost before = chunk@;
            encode_document(&mut chunk, docs[at].0, &docs[at].1.stored_fields);
            chunk_doc_count = chunk_doc_count + 1;
            proof {
                codec::lemma_put_many_push(put_document(), c.filling, sorted[seen as int]);
                assert(chunk@ =~= chunk_body(filling));
                assert(outside::lz4_room_fits(
                    CHUNK_TARGET_BYTES + put_document()(views[at as int]).len(),
                ));
            }
            let is_last: bool = seen + 1 == n;
            if is_last || chunk.len() >= CHUNK_TARGET_BYTES || chunk_doc_count
                >= MAX_DOCS_PER_CHUNK {
                let ghost out_before = out@;
                match StoredFieldsWriter::flush_chunk(out, &chunk, chunk_doc_count) {
                    Ok(()) => {},
                    Err(e) => return Err(e),
                }
                proof {
                    codec::lemma_put_many_push(put_docs_chunk(), c.closed, filling);
                    assert(out@ =~= header + codec::put_many(
                        put_docs_chunk(),
                        c.closed.push(filling),
                    ));
                }
                chunk.clear();
                chunk_doc_count = 0;
                assert(chunk@ =~= chunk_body(Seq::empty()));
            }
            seen = seen + 1;
        }
        proof {
            assert(out@ =~= start + put_file(sorted));
            if docs_storable(sorted) {
                assert(is_written(sorted));
                assert forall|b: Seq<u8>| #[trigger] codec::stands_at(
                    b,
                    0,
                    put_file(sorted),
                ) implies take_file(b) == Ok::<_, LaurusError>(
                    with_documents(Map::empty(), stored_docs_form(sorted)),
                ) by {
                    lemma_file_round_trip(b, sorted);
                }
            }
        }
        Ok(())
    }
}

/// The header of a chunk.
pub struct ChunkHeader {
    pub doc_count: u64,
    pub codec: u8,
    pub uncompressed: u64,
    pub payload: u64,
    pub crc: u32,
}

/// Takes the header of a chunk.
pub open spec fn take_chunk_header(b: Seq<u8>, p: int) -> codec::Taken<ChunkHeader> {
    match codec::take_varint(b, p, "stored-fields chunk doc count") {
        Err(e) => Err(e),
        Ok((doc_count, p1)) => match codec::take_u8(b, p1, "stored-fields chunk codec") {
            Err(e) => Err(e),
            Ok((codec, p2)) => match codec::take_varint(b, p2, "stored-fields chunk size") {
                Err(e) => Err(e),
                Ok((uncompressed, p3)) => match codec::take_varint(
                    b,
                    p3,
                    "stored-fields chunk payload",
                ) {
                    Err(e) => Err(e),
                    Ok((payload, p4)) => match codec::take_u32(b, p4, "stored-fields chunk crc") {
                        Err(e) => Err(e),
                        Ok((crc, p5)) => Ok(
                            (ChunkHeader { doc_count, codec, uncompressed, payload, crc }, p5),
                        ),
                    },
                },
            },
        },
    }
}

/// Whether a payload of `payload` bytes cannot unpack to `declared` bytes.
pub open spec fn cannot_expand(declared: u64, payload: u64) -> bool {
    declared > payload * LZ4_MAX_EXPANSION_RATIO
}

/// What the payload of a chunk unpacks to. What cannot be addressed is not unpacked.
pub open spec fn unpack(h: ChunkHeader, payload: Seq<u8>) -> Result<Seq<u8>, LaurusError> {
    if h.codec == CODEC_RAW {
        Ok(payload)
    } else if h.codec == CODEC_LZ4 && h.uncompressed > usize::MAX {
        Err(
            LaurusError::Decompression {
                lz4: Lz4Fault::OutputTooSmall {
                    expected: h.uncompressed,
                    actual: usize::MAX as u64,
                },
            },
        )
    } else if h.codec == CODEC_LZ4 {
        match outside::lz4_plain(payload, h.uncompressed as nat) {
            Err(lz4) => Err(LaurusError::Decompression { lz4 }),
            Ok(plain) => if plain.len() == h.uncompressed {
                Ok(plain)
            } else {
                Err(
                    LaurusError::DecompressedSize {
                        declared: h.uncompressed,
                        got: plain.len() as u64,
                    },
                )
            },
        }
    } else {
        Err(LaurusError::UnknownCodec { codec: h.codec })
    }
}

/// Takes the documents of a chunk. The payload must lie in what is left of the
/// part where the chunk starts, must be able to unpack to the declared size,
/// that size must have room for the declared documents, and the checksum must
/// match.
pub open spec fn take_chunk(b: Seq<u8>, p: int) -> codec::Taken<Seq<(u64, FieldsView)>> {
    match take_chunk_header(b, p) {
        Err(e) => Err(e),
        Ok((h, q)) => match codec::check_count(
            h.payload,
            1,
            b.len() - p,
            "stored-fields chunk payload",
        ) {
            Err(e) => Err(e),
            Ok(_) => if cannot_expand(h.uncompressed, h.payload) {
                Err(LaurusError::Expansion { declared: h.uncompressed, payload: h.payload })
            } else {
                match codec::check_count(
                    h.doc_count,
                    MIN_DOC_RECORD_SIZE as int,
                    h.uncompressed as int,
                    "stored-fields chunk doc count",
                ) {
                    Err(e) => Err(e),
                    Ok(_) => match codec::take_raw(
                        b,
                        q,
                        h.payload as int,
                        "stored-fields chunk payload",
                    ) {
                        Err(e) => Err(e),
                        Ok((payload, r)) => if outside::crc32(payload) != h.crc {
                            Err(LaurusError::ChunkChecksum)
                        } else {
                            match unpack(h, payload) {
                                Err(e) => Err(e),
                                Ok(body) => match codec::take_many(
                                    take_document(),
                                    body,
                                    0,
                                    h.doc_count as nat,
                                ) {
                                    Err(e) => Err(e),
                                    Ok((docs, _)) => Ok((docs, r)),
                                },
                            }
                        },
                    },
                }
            },
        },
    }
}

/// Documents by id: a later one takes the place of an earlier one.
pub open spec fn with_documents(m: Map<u64, FieldsView>, docs: Seq<(u64, FieldsView)>) -> Map<
    u64,
    FieldsView,
>
    decreases docs.len(),
{
    if docs.len() == 0 {
        m
    } else {
        with_documents(m, docs.drop_last()).insert(docs.last().0, docs.last().1)
    }
}

proof fn lemma_groups_advance(b: Seq<u8>, p: int, room: nat, what: &'static str)
    requires
        codec::varint_groups(b, p, room, what) is Ok,
    ensures
        p < codec::varint_groups(b, p, room, what)->Ok_0.1 <= b.len(),
    decreases room,
{
    if room > 0 && 0 <= p < b.len() && b[p] >= 128 {
        lemma_groups_advance(b, p + 1, (room - 1) as nat, what);
    }
}

/// Taking a chunk moves on.
pub proof fn lemma_chunk_advances(b: Seq<u8>, p: int)
    requires
        take_chunk(b, p) is Ok,
    ensures
        p < take_chunk(b, p)->Ok_0.1 <= b.len(),
{
    lemma_groups_advance(b, p, 10, "stored-fields chunk doc count");
    let p1 = codec::take_varint(b, p, "stored-fields chunk doc count")->Ok_0.1;
    lemma_groups_advance(b, p1 + 1, 10, "stored-fields chunk size");
    let p3 = codec::take_varint(b, p1 + 1, "stored-fields chunk size")->Ok_0.1;
    lemma_groups_advance(b, p3, 10, "stored-fields chunk payload");
}

/// Takes chunks until `total` documents have come, `decoded` of them before `p`.
pub open spec fn take_chunks(
    b: Seq<u8>,
    p: int,
    decoded: nat,
    total: u64,
    m: Map<u64, FieldsView>,
) -> Result<Map<u64, FieldsView>, LaurusError>
    decreases b.len() - p,
{
    if decoded > total {
        Err(LaurusError::DocumentCount { declared: total, decoded: decoded as u64 })
    } else if decoded == total {
        Ok(m)
    } else {
        match take_chunk(b, p) {
            Err(e) => Err(e),
            Ok((docs, q)) => {
                proof {
                    lemma_chunk_advances(b, p);
                }
                take_chunks(b, q, decoded + docs.len(), total, with_documents(m, docs))
            },
        }
    }
}

/// The documents of a `.docs` part.
pub open spec fn take_file(b: Seq<u8>) -> Result<Map<u64, FieldsView>, LaurusError> {
    match codec::take_raw(b, 0, 4, "stored-fields header") {
        Err(e) => Err(e),
        Ok((magic, p1)) => if magic != seq![83u8, 68u8, 79u8, 67u8] {
            Err(LaurusError::StoredFieldsMagic)
        } else {
            match codec::take_u8(b, p1, "stored-fields header") {
                Err(e) => Err(e),
                Ok((major, p2)) => match codec::take_u8(b, p2, "stored-fields header") {
                    Err(e) => Err(e),
                    Ok((_, p3)) => if major != VERSION_MAJOR {
                        Err(
                            LaurusError::StoredFieldsVersion {
                                found: major,
                                supported: VERSION_MAJOR,
                            },
                        )
                    } else {
                        match codec::take_varint(b, p3, "stored-fields header") {
                            Err(e) => Err(e),
                            Ok((total, p4)) => take_chunks(b, p4, 0, total, Map::empty()),
                        }
                    },
                },
            }
        },
    }
}

/// What each document of a map holds.
pub open spec fn documents_view(m: Map<u64, Document>) -> Map<u64, FieldsView> {
    m.map_values(|d: Document| d@)
}

/// Whether every document of a map is well formed.
pub open spec fn documents_wf(m: Map<u64, Document>) -> bool {
    forall|id: u64| #[trigger] m.contains_key(id) ==> m[id].wf()
}

/// Reads the `.docs` part.
pub struct StoredFieldsReader;

impl StoredFieldsReader {
    /// Reads the header of a chunk.
    fn read_chunk_header(bytes: &[u8], cursor: &mut usize) -> (r: Result<ChunkHeader, LaurusError>)
        requires
            *old(cursor) <= bytes@.len(),
        ensures
            codec::read_as(r, *final(cursor), take_chunk_header(bytes@, *old(cursor) as int)),
            *final(cursor) <= bytes@.len(),
    {
        let doc_count: u64 = match codec::read_varint(
            bytes,
            cursor,
            "stored-fields chunk doc count",
        ) {
            Ok(v) => v,
            Err(e) => return Err(e),
        };
        let codec: u8 = match codec::read_u8(bytes, cursor, "stored-fields chunk codec") {
            Ok(v) => v,
            Err(e) => return Err(e),
        };
        let uncompressed: u64 = match codec::read_varint(bytes, cursor, "stored-fields chunk size") {
            Ok(v) => v,
            Err(e) => return Err(e),
        };
        let payload: u64 = match codec::read_varint(bytes, cursor, "stored-fields chunk payload") {
            Ok(v) => v,
            Err(e) => return Err(e),
        };
        let crc: u32 = match codec::read_u32_le(bytes, cursor, "stored-fields chunk crc") {
            Ok(v) => v,
            Err(e) => return Err(e),
        };
        Ok(ChunkHeader { doc_count, codec, uncompressed, payload, crc })
    }

    /// Unpacks the payload of a chunk.
    fn unpack_payload(h: &ChunkHeader, payload: &[u8]) -> (r: Result<Vec<u8>, LaurusError>)
        ensures
            match unpack(*h, payload@) {
                Err(e) => r == Err::<Vec<u8>, LaurusError>(e),
                Ok(body) => r is Ok && r->Ok_0@ == body,
            },
    {
        if h.codec == CODEC_RAW {
            Ok(vstd::slice::slice_to_vec(payload))
        } else if h.codec == CODEC_LZ4 {
            if h.uncompressed > usize::MAX as u64 {
                return Err(
                    LaurusError::Decompression {
                        lz4: Lz4Fault::OutputTooSmall {
                            expected: h.uncompressed,
                            actual: usize::MAX as u64,
                        },
                    },
                );
            }
            let size: usize = h.uncompressed as usize;
            let mut scratch: Vec<u8> = Vec::new();
            scratch.resize(size, 0);
            match outside::lz4_decompress_into(payload, &mut scratch) {
                Ok(written) => if written == size {
                    assert(scratch@ =~= scratch@.take(written as int));
                    Ok(scratch)
                } else {
                    Err(
                        LaurusError::DecompressedSize {
                            declared: h.uncompressed,
                            got: written as u64,
                        },
                    )
                },
                Err(lz4) => Err(LaurusError::Decompression { lz4 }),
            }
        } else {
            Err(LaurusError::UnknownCodec { codec: h.codec })
        }
    }

    /// Reads a chunk into `documents` and returns how many documents came.
    #[verifier::rlimit(60)]
    fn load_chunk(bytes: &[u8], cursor: &mut usize, documents: &mut BTreeMap<u64, Document>)
        -> (r: Result<u64, LaurusError>)
        requires
            *old(cursor) <= bytes@.len(),
            documents_wf(old(documents)@),
        ensures
            match take_chunk(bytes@, *old(cursor) as int) {
                Err(e) => r == Err::<u64, LaurusError>(e),
                Ok((docs, q)) => {
                    &&& r is Ok
                    &&& r->Ok_0 == docs.len()
                    &&& *final(cursor) == q
                    &&& documents_view(final(documents)@) == with_documents(
                        documents_view(old(documents)@),
                        docs,
                    )
                },
            },
            documents_wf(final(documents)@),
            *final(cursor) <= bytes@.len(),
    {
        let available: u64 = (bytes.len() - *cursor) as u64;
        let h: ChunkHeader = match Self::read_chunk_header(bytes, cursor) {
            Ok(v) => v,
            Err(e) => return Err(e),
        };
        match codec::checked_capacity(h.payload, 1, available, "stored-fields chunk payload") {
            Ok(_) => {},
            Err(e) => return Err(e),
        }
        assert(h.payload * 1 == h.payload) by (nonlinear_arith);
        let expands: bool = match h.payload.checked_mul(LZ4_MAX_EXPANSION_RATIO) {
            Some(most) => h.uncompressed <= most,
            None => true,
        };
        if !expands {
            return Err(
                LaurusError::Expansion { declared: h.uncompressed, payload: h.payload },
            );
        }
        match codec::checked_capacity(
            h.doc_count,
            MIN_DOC_RECORD_SIZE,
            h.uncompressed,
            "stored-fields chunk doc count",
        ) {
            Ok(_) => {},
            Err(e) => return Err(e),
        }
        let payload: &[u8] = match codec::read_raw(
            bytes,
            cursor,
            h.payload as usize,
            "stored-fields chunk payload",
        ) {
            Ok(v) => v,
            Err(e) => return Err(e),
        };
        if outside::crc32_hash(payload) != h.crc {
            return Err(LaurusError::ChunkChecksum);
        }
        let body: Vec<u8> = match Self::unpack_payload(&h, payload) {
            Ok(v) => v,
            Err(e) => return Err(e),
        };
        let ghost f = take_document();
        let ghost mut docs: Seq<(u64, FieldsView)> = Seq::empty();
        let ghost first = documents_view(documents@);
        let ghost behind = *cursor;
        let chunk: &[u8] = body.as_slice();
        let mut at: usize = 0;
        let mut i: u64 = 0;
        while i < h.doc_count
            invariant
                i <= h.doc_count,
                at <= chunk@.len(),
                *cursor == behind,
                *cursor <= bytes@.len(),
                f == take_document(),
                documents_wf(documents@),
                first == documents_view(old(documents)@),
                documents_view(documents@) == with_documents(first, docs),
                docs.len() == i,
                codec::take_many(f, chunk@, 0, i as nat) == Ok::<_, LaurusError>((docs, at as int)),
                take_chunk(bytes@, *old(cursor) as int) == (match codec::take_many(
                    f,
                    chunk@,
                    0,
                    h.doc_count as nat,
                ) {
                    Err(e) => Err::<_, LaurusError>(e),
                    Ok((docs, _)) => Ok((docs, behind as int)),
                }),
            decreases h.doc_count - i,
        {
            match decode_document(chunk, &mut at) {
                Ok((doc_id, doc)) => {
                    let ghost next = docs.push((doc_id, doc@));
                    let ghost before = documents@;
                    documents.insert(doc_id, doc);
                    proof {
                        assert(next.drop_last() =~= docs);
                        assert(documents_view(documents@) =~= documents_view(before).insert(
                            doc_id,
                            doc@,
                        ));
                        docs = next;
                    }
                },
                Err(e) => {
                    proof {
                        codec::lemma_many_fails(
                            f,
                            chunk@,
                            0,
                            (i + 1) as nat,
                            h.doc_count as nat,
                        );
                    }
                    return Err(e);
                },
            }
            i = i + 1;
        }
        Ok(h.doc_count)
    }

    /// Reads every document of a `.docs` part.
    pub fn load(bytes: &[u8]) -> (r: Result<BTreeMap<u64, Document>, LaurusError>)
        ensures
            match take_file(bytes@) {
                Err(e) => r == Err::<BTreeMap<u64, Document>, LaurusError>(e),
                Ok(m) => r is Ok && documents_view(r->Ok_0@) == m && documents_wf(r->Ok_0@),
            },
    {
        let mut cursor: usize = 0;
        let magic: &[u8] = match codec::read_raw(bytes, &mut cursor, 4, "stored-fields header") {
            Ok(v) => v,
            Err(e) => return Err(e),
        };
        if magic[0] != 83 || magic[1] != 68 || magic[2] != 79 || magic[3] != 67 {
            return Err(LaurusError::StoredFieldsMagic);
        }
        assert(magic@ =~= seq![83u8, 68u8, 79u8, 67u8]);
        let major: u8 = match codec::read_u8(bytes, &mut cursor, "stored-fields header") {
            Ok(v) => v,
            Err(e) => return Err(e),
        };
        match codec::read_u8(bytes, &mut cursor, "stored-fields header") {
            Ok(_) => {},
            Err(e) => return Err(e),
        }
        if major != VERSION_MAJOR {
            return Err(
                LaurusError::StoredFieldsVersion {
                    found: major,
                    supported: VERSION_MAJOR,
                },
            );
        }
        let total: u64 = match codec::read_varint(bytes, &mut cursor, "stored-fields header") {
            Ok(v) => v,
            Err(e) => return Err(e),
        };
        let mut documents: BTreeMap<u64, Document> = BTreeMap::new();
        let mut decoded: u128 = 0;
        assert(documents_view(documents@) =~= Map::empty());
        while decoded < total as u128
            invariant
                cursor <= bytes@.len(),
                decoded <= total as int + u64::MAX,
                documents_wf(documents@),
                take_file(bytes@) == take_chunks(
                    bytes@,
                    cursor as int,
                    decoded as nat,
                    total,
                    documents_view(documents@),
                ),
            decreases bytes@.len() - cursor,
        {
            proof {
                if take_chunk(bytes@, cursor as int) is Ok {
                    lemma_chunk_advances(bytes@, cursor as int);
                }
            }
            match Self::load_chunk(bytes, &mut cursor, &mut documents) {
                Ok(n) => {
                    decoded = decoded + n as u128;
                },
                Err(e) => return Err(e),
            }
        }
        if decoded != total as u128 {
            return Err(
                LaurusError::DocumentCount { declared: total, decoded: decoded as u64 },
            );
        }
        Ok(documents)
    }
}

// ---------------------------------------------------------------------------
// Loading gives back what was written
// ---------------------------------------------------------------------------

/// Whether a value can be told from its bytes: a single instant must lie in the
/// years 0 to 9999, and instants in a list must stay in range when they are cut
/// to whole microseconds.
pub open spec fn storable(v: DataView) -> bool {
    match v {
        DataView::DateTime(t) => outside::four_digit_year(t),
        DataView::DateTimeArray(s) => forall|i: int|
            0 <= i < s.len() ==> data::micros_instant(
                data::instant_micros(#[trigger] s[i]) as i64,
            ) is Some,
        _ => true,
    }
}

/// An instant cut to whole microseconds.
pub open spec fn cut_instant(t: (i64, u32)) -> (i64, u32) {
    data::micros_instant(data::instant_micros(t) as i64)->Some_0
}

/// A value as storing keeps it: instants in a list are cut to whole microseconds,
/// and an empty media type counts as none.
pub open spec fn stored_form(v: DataView) -> DataView {
    match v {
        DataView::DateTimeArray(s) => DataView::DateTimeArray(
            s.map_values(|t: (i64, u32)| cut_instant(t)),
        ),
        DataView::Bytes(b, Some(m)) => if m.len() == 0 {
            DataView::Bytes(b, None)
        } else {
            v
        },
        _ => v,
    }
}

/// Fields as storing keeps them.
pub open spec fn stored_fields_form(fields: FieldsView) -> FieldsView {
    fields.map_values(|f: (Seq<char>, DataView)| (f.0, stored_form(f.1)))
}

/// Whether every field can be told from its bytes.
pub open spec fn fields_storable(fields: FieldsView) -> bool {
    forall|i: int| 0 <= i < fields.len() ==> storable((#[trigger] fields[i]).1)
}

proof fn lemma_u32_gives_back(what: &'static str, v: u32)
    ensures
        codec::gives_back(take_u32(what), put_u32(), v),
        put_u32()(v).len() == 4,
{
    lemma_auto_spec_u32_to_from_le_bytes();
    assert forall|b: Seq<u8>, p: int| #[trigger] codec::stands_at(b, p, put_u32()(v)) implies take_u32(
        what,
    )(b, p) == Ok::<(u32, int), LaurusError>((v, p + put_u32()(v).len())) by {
        codec::lemma_u32_round_trip(b, p, v, what);
    }
}

proof fn lemma_i64_gives_back(what: &'static str, v: i64)
    ensures
        codec::gives_back(take_i64(what), put_i64(), v),
        put_i64()(v).len() == 8,
{
    lemma_auto_spec_u64_to_from_le_bytes();
    assert((v as u64) as i64 == v) by (bit_vector);
    assert forall|b: Seq<u8>, p: int| #[trigger] codec::stands_at(b, p, put_i64()(v)) implies take_i64(
        what,
    )(b, p) == Ok::<(i64, int), LaurusError>((v, p + put_i64()(v).len())) by {
        codec::lemma_u64_round_trip(b, p, v as u64, what);
    }
}

proof fn lemma_bool_gives_back(what: &'static str, v: bool)
    ensures
        codec::gives_back(take_bool(what), put_bool(), v),
        put_bool()(v).len() == 1,
{
    assert forall|b: Seq<u8>, p: int| #[trigger]
        codec::stands_at(b, p, put_bool()(v)) implies take_bool(what)(b, p) == Ok::<
        (bool, int),
        LaurusError,
    >((v, p + put_bool()(v).len())) by {
        codec::lemma_stands_byte(b, p, put_bool()(v), 0);
    }
}

proof fn lemma_text_gives_back(what: &'static str, v: Seq<char>)
    requires
        text_fits(v),
    ensures
        codec::gives_back(take_text(what), put_text(), v),
        put_text()(v).len() >= 1,
{
    let bytes = codec::put_str(v);
    assert(bytes.subrange(0, bytes.len() as int) =~= bytes);
    assert(codec::stands_at(bytes, 0, bytes));
    codec::lemma_str_round_trip(bytes, 0, v, what);
    assert forall|b: Seq<u8>, p: int| #[trigger]
        codec::stands_at(b, p, put_text()(v)) implies take_text(what)(b, p) == Ok::<
        (Seq<char>, int),
        LaurusError,
    >((v, p + put_text()(v).len())) by {
        codec::lemma_str_round_trip(b, p, v, what);
    }
}

proof fn lemma_geo_gives_back(lat: &'static str, lon: &'static str, v: GeoPoint)
    ensures
        codec::gives_back(take_geo(lat, lon), put_geo(), v),
        put_geo()(v).len() == 16,
{
    lemma_auto_spec_u64_to_from_le_bytes();
    assert forall|b: Seq<u8>, p: int| #[trigger]
        codec::stands_at(b, p, put_geo()(v)) implies take_geo(lat, lon)(b, p) == Ok::<
        (GeoPoint, int),
        LaurusError,
    >((v, p + put_geo()(v).len())) by {
        codec::lemma_stands_split(
            b,
            p,
            spec_u64_to_le_bytes(v.lat),
            spec_u64_to_le_bytes(v.lon),
        );
        codec::lemma_u64_round_trip(b, p, v.lat, lat);
        codec::lemma_u64_round_trip(b, p + 8, v.lon, lon);
    }
}

proof fn lemma_ecef_gives_back(x: &'static str, y: &'static str, z: &'static str, v: GeoEcefPoint)
    ensures
        codec::gives_back(take_ecef(x, y, z), put_ecef(), v),
        put_ecef()(v).len() == 24,
{
    lemma_auto_spec_u64_to_from_le_bytes();
    assert forall|b: Seq<u8>, p: int| #[trigger]
        codec::stands_at(b, p, put_ecef()(v)) implies take_ecef(x, y, z)(b, p) == Ok::<
        (GeoEcefPoint, int),
        LaurusError,
    >((v, p + put_ecef()(v).len())) by {
        codec::lemma_stands_split(
            b,
            p,
            spec_u64_to_le_bytes(v.x) + spec_u64_to_le_bytes(v.y),
            spec_u64_to_le_bytes(v.z),
        );
        codec::lemma_stands_split(b, p, spec_u64_to_le_bytes(v.x), spec_u64_to_le_bytes(v.y));
        codec::lemma_u64_round_trip(b, p, v.x, x);
        codec::lemma_u64_round_trip(b, p + 8, v.y, y);
        codec::lemma_u64_round_trip(b, p + 16, v.z, z);
    }
}

/// Cutting an instant a second time changes nothing.
proof fn lemma_cut_instant(t: (i64, u32))
    requires
        data::valid_instant(t),
        data::micros_instant(data::instant_micros(t) as i64) is Some,
    ensures
        data::instant_micros(cut_instant(t)) == data::instant_micros(t),
        data::instant_micros(t) as i64 == data::instant_micros(t),
        cut_instant(cut_instant(t)) == cut_instant(t),
        data::micros_instant(data::instant_micros(cut_instant(t)) as i64) is Some,
        data::valid_instant(cut_instant(t)),
{
}

proof fn lemma_micros_gives_back(what: &'static str, t: (i64, u32))
    requires
        data::valid_instant(t),
        data::micros_instant(data::instant_micros(t) as i64) is Some,
        cut_instant(t) == t,
    ensures
        codec::gives_back(take_micros(what), put_micros(), t),
        put_micros()(t).len() == 8,
{
    lemma_auto_spec_u64_to_from_le_bytes();
    let m = data::instant_micros(t) as i64;
    assert((m as u64) as i64 == m) by (bit_vector);
    assert forall|b: Seq<u8>, p: int| #[trigger]
        codec::stands_at(b, p, put_micros()(t)) implies take_micros(what)(b, p) == Ok::<
        ((i64, u32), int),
        LaurusError,
    >((t, p + put_micros()(t).len())) by {
        codec::lemma_u64_round_trip(b, p, m as u64, what);
    }
}

/// A list reads back where each of its elements does.
proof fn lemma_list_round_trip<T>(
    f: spec_fn(Seq<u8>, int) -> codec::Taken<T>,
    put: spec_fn(T) -> Seq<u8>,
    s: Seq<T>,
    b: Seq<u8>,
    p: int,
    min_size: nat,
    what: &'static str,
)
    requires
        codec::stands_at(b, p, put_list(put, s)),
        s.len() <= u64::MAX,
        forall|i: int|
            0 <= i < s.len() ==> codec::gives_back(f, put, #[trigger] s[i]) && put(s[i]).len()
                >= min_size,
    ensures
        take_list(f, b, p, min_size as int, what) == Ok::<(Seq<T>, int), LaurusError>(
            (s, p + put_list(put, s).len()),
        ),
        put_list(put, s).len() >= 1,
{
    codec::lemma_stands_split(b, p, codec::put_varint(s.len()), codec::put_many(put, s));
    codec::lemma_put_many_len(put, s, min_size);
    codec::lemma_count_round_trip(b, p, s.len() as u64, min_size as int, what);
    codec::lemma_many_round_trip(f, put, s, b, p + codec::put_varint(s.len()).len());
}

/// Storing does not change how a value is written.
proof fn lemma_stored_form_put(v: DataView)
    requires
        value_held(v),
        storable(v),
    ensures
        tag_of(stored_form(v)) == tag_of(v),
        put_payload(stored_form(v)) == put_payload(v),
        stored_form(stored_form(v)) == stored_form(v),
        value_held(stored_form(v)),
        storable(stored_form(v)),
{
    match v {
        DataView::DateTimeArray(s) => {
            let t = s.map_values(|t: (i64, u32)| cut_instant(t));
            assert forall|i: int| 0 <= i < s.len() implies put_micros()(#[trigger] t[i])
                == put_micros()(s[i]) && cut_instant(t[i]) == t[i] && data::valid_instant(t[i])
                && data::micros_instant(data::instant_micros(t[i]) as i64) is Some by {
                lemma_cut_instant(s[i]);
            }
            lemma_put_many_same(put_micros(), s, t);
            assert(t.map_values(|t: (i64, u32)| cut_instant(t)) =~= t);
        },
        DataView::Bytes(b, Some(m)) => {
            if m.len() == 0 {
                assert(m =~= Seq::empty());
            }
        },
        _ => {},
    }
}

proof fn lemma_put_many_same<T>(put: spec_fn(T) -> Seq<u8>, s: Seq<T>, t: Seq<T>)
    requires
        s.len() == t.len(),
        forall|i: int| 0 <= i < s.len() ==> put(#[trigger] t[i]) == put(s[i]),
    ensures
        codec::put_many(put, s) == codec::put_many(put, t),
    decreases s.len(),
{
    if s.len() > 0 {
        assert forall|i: int| 0 <= i < s.len() - 1 implies put(#[trigger] t.drop_last()[i]) == put(
            s.drop_last()[i],
        ) by {
            assert(t.drop_last()[i] == t[i]);
        }
        lemma_put_many_same(put, s.drop_last(), t.drop_last());
        assert(put(t[s.len() - 1]) == put(s[s.len() - 1]));
    }
}

/// A value reads back as storing keeps it.
#[verifier::spinoff_prover]
#[verifier::rlimit(40)]
proof fn lemma_value_round_trip(b: Seq<u8>, p: int, v: DataView)
    requires
        value_held(v),
        storable(v),
        stored_form(v) == v,
        codec::stands_at(b, p, put_payload(v)),
    ensures
        take_value(b, p, tag_of(v)) == Ok::<(DataView, int), LaurusError>(
            (v, p + put_payload(v).len()),
        ),
{
    match v {
        DataView::Null => {},
        DataView::Bool(x) => {
            lemma_bool_gives_back("stored Bool field", x);
        },
        DataView::Int64(x) => {
            lemma_i64_gives_back("stored Int64 field", x);
        },
        DataView::Float64(x) => {
            codec::lemma_u64_gives_back("stored Float64 field", x);
        },
        DataView::Text(x) => {
            codec::lemma_str_round_trip(b, p, x, "stored Text field");
        },
        DataView::Bytes(x, m) => {
            codec::lemma_stands_split(b, p, codec::put_str(mime_text(m)), codec::put_bytes(x));
            codec::lemma_str_round_trip(b, p, mime_text(m), "stored Bytes field mime");
            codec::lemma_bytes_round_trip(
                b,
                p + codec::put_str(mime_text(m)).len(),
                x,
                "stored Bytes field data",
            );
        },
        DataView::DateTime(t) => {
            codec::lemma_str_round_trip(
                b,
                p,
                outside::rfc3339_text(t),
                "stored DateTime field",
            );
        },
        DataView::Geo(x) => {
            lemma_geo_gives_back("stored Geo field lat", "stored Geo field lon", x);
        },
        DataView::GeoEcef(x) => {
            lemma_ecef_gives_back(
                "stored GeoEcef field x",
                "stored GeoEcef field y",
                "stored GeoEcef field z",
                x,
            );
        },
        DataView::Vector(s) => {
            let f = take_u32("stored Vector field element");
            assert forall|i: int| 0 <= i < s.len() implies codec::gives_back(
                f,
                put_u32(),
                #[trigger] s[i],
            ) && put_u32()(s[i]).len() >= 4 by {
                lemma_u32_gives_back("stored Vector field element", s[i]);
            }
            lemma_list_round_trip(f, put_u32(), s, b, p, 4, "stored Vector field length");
        },
        DataView::Int64Array(s) => {
            let f = take_i64("stored Int64Array field element");
            assert forall|i: int| 0 <= i < s.len() implies codec::gives_back(
                f,
                put_i64(),
                #[trigger] s[i],
            ) && put_i64()(s[i]).len() >= 8 by {
                lemma_i64_gives_back("stored Int64Array field element", s[i]);
            }
            lemma_list_round_trip(f, put_i64(), s, b, p, 8, "stored Int64Array field length");
        },
        DataView::Float64Array(s) => {
            let f = codec::each_u64("stored Float64Array field element");
            assert forall|i: int| 0 <= i < s.len() implies codec::gives_back(
                f,
                codec::put_u64(),
                #[trigger] s[i],
            ) && codec::put_u64()(s[i]).len() >= 8 by {
                codec::lemma_u64_gives_back("stored Float64Array field element", s[i]);
            }
            lemma_list_round_trip(f, codec::put_u64(), s, b, p, 8, "stored Float64Array field length");
        },
        DataView::GeoArray(s) => {
            let f = take_geo("stored GeoArray field lat", "stored GeoArray field lon");
            assert forall|i: int| 0 <= i < s.len() implies codec::gives_back(
                f,
                put_geo(),
                #[trigger] s[i],
            ) && put_geo()(s[i]).len() >= 16 by {
                lemma_geo_gives_back(
                    "stored GeoArray field lat",
                    "stored GeoArray field lon",
                    s[i],
                );
            }
            lemma_list_round_trip(f, put_geo(), s, b, p, 16, "stored GeoArray field length");
        },
        DataView::GeoEcefArray(s) => {
            let f = take_ecef(
                "stored GeoEcefArray field x",
                "stored GeoEcefArray field y",
                "stored GeoEcefArray field z",
            );
            assert forall|i: int| 0 <= i < s.len() implies codec::gives_back(
                f,
                put_ecef(),
                #[trigger] s[i],
            ) && put_ecef()(s[i]).len() >= 24 by {
                lemma_ecef_gives_back(
                    "stored GeoEcefArray field x",
                    "stored GeoEcefArray field y",
                    "stored GeoEcefArray field z",
                    s[i],
                );
            }
            lemma_list_round_trip(f, put_ecef(), s, b, p, 24, "stored GeoEcefArray field length");
        },
        DataView::DateTimeArray(s) => {
            let f = take_micros("stored DateTimeArray field element");
            assert(s.map_values(|t: (i64, u32)| cut_instant(t)) == s);
            assert forall|i: int| 0 <= i < s.len() implies codec::gives_back(
                f,
                put_micros(),
                #[trigger] s[i],
            ) && put_micros()(s[i]).len() >= 8 by {
                assert(s.map_values(|t: (i64, u32)| cut_instant(t))[i] == s[i]);
                lemma_micros_gives_back("stored DateTimeArray field element", s[i]);
            }
            lemma_list_round_trip(
                f,
                put_micros(),
                s,
                b,
                p,
                8,
                "stored DateTimeArray field length",
            );
        },
        DataView::BoolArray(s) => {
            let f = take_bool("stored BoolArray field element");
            assert forall|i: int| 0 <= i < s.len() implies codec::gives_back(
                f,
                put_bool(),
                #[trigger] s[i],
            ) && put_bool()(s[i]).len() >= 1 by {
                lemma_bool_gives_back("stored BoolArray field element", s[i]);
            }
            lemma_list_round_trip(f, put_bool(), s, b, p, 1, "stored BoolArray field length");
        },
        DataView::TextArray(s) => {
            let f = take_text("stored TextArray field element");
            assert forall|i: int| 0 <= i < s.len() implies codec::gives_back(
                f,
                put_text(),
                #[trigger] s[i],
            ) && put_text()(s[i]).len() >= 1 by {
                lemma_text_gives_back("stored TextArray field element", s[i]);
            }
            lemma_list_round_trip(f, put_text(), s, b, p, 1, "stored TextArray field length");
        },
    }
}

proof fn lemma_field_gives_back(name: Seq<char>, v: DataView)
    requires
        text_fits(name),
        value_held(v),
        storable(v),
        stored_form(v) == v,
    ensures
        codec::gives_back(take_field(), put_field(), (name, v)),
        put_field()((name, v)).len() >= 2,
{
    lemma_text_gives_back("stored-fields field name", name);
    assert forall|b: Seq<u8>, p: int| #[trigger]
        codec::stands_at(b, p, put_field()((name, v))) implies take_field()(b, p) == Ok::<
        ((Seq<char>, DataView), int),
        LaurusError,
    >(((name, v), p + put_field()((name, v)).len())) by {
        let head = codec::put_str(name);
        let tag = seq![tag_of(v)];
        codec::lemma_stands_split(b, p, head, tag + put_payload(v));
        codec::lemma_stands_split(b, p + head.len(), tag, put_payload(v));
        codec::lemma_str_round_trip(b, p, name, "stored-fields field name");
        codec::lemma_stands_byte(b, p + head.len(), tag, 0);
        lemma_value_round_trip(b, p + head.len() + 1, v);
    }
}

/// Collecting fields whose names ascend changes nothing.
proof fn lemma_collect_ascending(s: FieldsView)
    requires
        names::names_ascend(s),
    ensures
        collect_fields(s) == s,
    decreases s.len(),
{
    if s.len() > 0 {
        let front = s.drop_last();
        assert forall|i: int, j: int| 0 <= i < j < front.len() implies names::name_before(
            #[trigger] front[i].0,
            #[trigger] front[j].0,
        ) by {
            assert(front[i] == s[i] && front[j] == s[j]);
        }
        lemma_collect_ascending(front);
        assert forall|i: int| 0 <= i < front.len() implies names::name_before(
            #[trigger] front[i].0,
            s.last().0,
        ) by {
            assert(front[i] == s[i]);
        }
        names::lemma_place_unique(front, s.last().0, front.len() as int);
        assert(names::with_value(front, s.last().0, s.last().1) =~= s);
    } else {
        assert(s =~= FieldsView::empty());
    }
}

/// Fields read back as storing keeps them, and are written alike.
#[verifier::spinoff_prover]
proof fn lemma_fields_form(fields: FieldsView)
    requires
        fields_held(fields),
        fields_storable(fields),
        names::names_ascend(fields),
    ensures
        ({
            let form = stored_fields_form(fields);
            &&& form.len() == fields.len()
            &&& codec::put_many(put_field(), form) == codec::put_many(put_field(), fields)
            &&& names::names_ascend(form)
            &&& forall|i: int|
                0 <= i < form.len() ==> codec::gives_back(
                    take_field(),
                    put_field(),
                    #[trigger] form[i],
                ) && put_field()(form[i]).len() >= 2
        }),
{
    let form = stored_fields_form(fields);
    assert forall|i: int| 0 <= i < fields.len() implies put_field()(#[trigger] form[i])
        == put_field()(fields[i]) && codec::gives_back(take_field(), put_field(), form[i])
        && put_field()(form[i]).len() >= 2 by {
        assert(text_fits(fields[i].0) && value_held(fields[i].1) && storable(fields[i].1));
        lemma_stored_form_put(fields[i].1);
        lemma_field_gives_back(fields[i].0, stored_form(fields[i].1));
    }
    lemma_put_many_same(put_field(), fields, form);
    assert forall|i: int, j: int| 0 <= i < j < form.len() implies names::name_before(
        #[trigger] form[i].0,
        #[trigger] form[j].0,
    ) by {
        assert(form[i].0 == fields[i].0 && form[j].0 == fields[j].0);
    }
}

/// A document whose fields each read back reads back.
#[verifier::spinoff_prover]
#[verifier::rlimit(40)]
proof fn lemma_document_gives_back(id: u64, form: FieldsView)
    requires
        names::names_ascend(form),
        form.len() <= u64::MAX,
        forall|i: int|
            0 <= i < form.len() ==> codec::gives_back(
                take_field(),
                put_field(),
                #[trigger] form[i],
            ) && put_field()(form[i]).len() >= 2,
    ensures
        codec::gives_back(take_document(), put_document(), (id, form)),
        put_document()((id, form)).len() >= 9,
{
    lemma_auto_spec_u64_to_from_le_bytes();
    lemma_collect_ascending(form);
    let f = take_field();
    let put = put_field();
    let d = (id, form);
    let head = spec_u64_to_le_bytes(id);
    let list = put_list(put, form);
    assert(list.subrange(0, list.len() as int) =~= list);
    lemma_list_round_trip(f, put, form, list, 0, 2, "stored-fields field count");
    assert forall|b: Seq<u8>, p: int| #[trigger]
        codec::stands_at(b, p, put_document()(d)) implies take_document()(b, p) == Ok::<
        ((u64, FieldsView), int),
        LaurusError,
    >((d, p + put_document()(d).len())) by {
        codec::lemma_stands_split(b, p, head, list);
        codec::lemma_u64_round_trip(b, p, id, "stored-fields document id");
        lemma_list_round_trip(f, put, form, b, p + 8, 2, "stored-fields field count");
    }
}

/// A document reads back as storing keeps it.
#[verifier::spinoff_prover]
pub proof fn lemma_document_round_trip(id: u64, fields: FieldsView)
    requires
        fields_held(fields),
        fields_storable(fields),
        names::names_ascend(fields),
    ensures
        codec::gives_back(
            take_document(),
            put_document(),
            (id, stored_fields_form(fields)),
        ),
        put_document()((id, stored_fields_form(fields))) == put_document()((id, fields)),
        put_document()((id, fields)).len() >= 9,
{
    lemma_fields_form(fields);
    lemma_document_gives_back(id, stored_fields_form(fields));
}

/// What holds of documents that a chunk gives back.
pub open spec fn docs_give_back(docs: Seq<(u64, FieldsView)>) -> bool {
    forall|i: int|
        0 <= i < docs.len() ==> codec::gives_back(
            take_document(),
            put_document(),
            #[trigger] docs[i],
        ) && put_document()(docs[i]).len() >= 9
}

/// The header of a chunk of `count` documents with the unpacked bytes `body`.
pub open spec fn chunk_header(count: nat, body: Seq<u8>) -> ChunkHeader {
    ChunkHeader {
        doc_count: count as u64,
        codec: if shrinks(body) { CODEC_LZ4 } else { CODEC_RAW },
        uncompressed: body.len() as u64,
        payload: chunk_payload(body).len() as u64,
        crc: outside::crc32(chunk_payload(body)),
    }
}

proof fn lemma_chunk_header_round_trip(b: Seq<u8>, p: int, n: nat, body: Seq<u8>)
    requires
        codec::stands_at(b, p, put_chunk(n, body)),
        n <= u64::MAX,
        body.len() <= u64::MAX,
    ensures
        ({
            let q = p + put_chunk(n, body).len() - chunk_payload(body).len();
            &&& take_chunk_header(b, p) == Ok::<(ChunkHeader, int), LaurusError>(
                (chunk_header(n, body), q),
            )
            &&& p < q
            &&& codec::stands_at(b, q, chunk_payload(body))
        }),
{
    lemma_auto_spec_u32_to_from_le_bytes();
    let payload = chunk_payload(body);
    let count = codec::put_varint(n);
    let codec_byte = seq![if shrinks(body) { CODEC_LZ4 } else { CODEC_RAW }];
    let size = codec::put_varint(body.len());
    let packed = codec::put_varint(payload.len());
    let crc = spec_u32_to_le_bytes(outside::crc32(payload));
    codec::lemma_stands_split(b, p, count, codec_byte + (size + (packed + (crc + payload))));
    let p1 = p + count.len();
    codec::lemma_stands_split(b, p1, codec_byte, size + (packed + (crc + payload)));
    let p2 = p1 + 1;
    codec::lemma_stands_split(b, p2, size, packed + (crc + payload));
    let p3 = p2 + size.len();
    codec::lemma_stands_split(b, p3, packed, crc + payload);
    let p4 = p3 + packed.len();
    codec::lemma_stands_split(b, p4, crc, payload);
    codec::lemma_varint_round_trip(b, p, n as u64, "stored-fields chunk doc count");
    codec::lemma_stands_byte(b, p1, codec_byte, 0);
    codec::lemma_varint_round_trip(b, p2, body.len() as u64, "stored-fields chunk size");
    codec::lemma_varint_round_trip(b, p3, payload.len() as u64, "stored-fields chunk payload");
    codec::lemma_u32_round_trip(b, p4, outside::crc32(payload), "stored-fields chunk crc");
}

/// The documents of a chunk read back from its unpacked bytes.
proof fn lemma_chunk_body_round_trip(docs: Seq<(u64, FieldsView)>)
    requires
        docs_give_back(docs),
    ensures
        codec::take_many(take_document(), chunk_body(docs), 0, docs.len()) == Ok::<_, LaurusError>(
            (docs, chunk_body(docs).len() as int),
        ),
        docs.len() * 9 <= chunk_body(docs).len(),
{
    let body = chunk_body(docs);
    codec::lemma_put_many_len(put_document(), docs, 9);
    assert(body.subrange(0, body.len() as int) =~= body);
    codec::lemma_many_round_trip(take_document(), put_document(), docs, body, 0);
}

/// A chunk reads back.
#[verifier::spinoff_prover]
#[verifier::rlimit(40)]
proof fn lemma_chunk_round_trip(b: Seq<u8>, p: int, docs: Seq<(u64, FieldsView)>)
    requires
        codec::stands_at(b, p, put_docs_chunk()(docs)),
        docs_give_back(docs),
        docs.len() <= u64::MAX,
        unpacks(chunk_body(docs)),
    ensures
        take_chunk(b, p) == Ok::<(Seq<(u64, FieldsView)>, int), LaurusError>(
            (docs, p + put_docs_chunk()(docs).len()),
        ),
{
    let body = chunk_body(docs);
    let payload = chunk_payload(body);
    let h = chunk_header(docs.len(), body);
    lemma_chunk_header_round_trip(b, p, docs.len(), body);
    lemma_chunk_body_round_trip(docs);
    assert(unpack(h, payload) == Ok::<Seq<u8>, LaurusError>(body));
    assert(h.payload * 1 <= b.len() - p);
}

/// Documents in chunks, one chunk behind the other, are the documents.
proof fn lemma_chunked(docs: Seq<(u64, FieldsView)>, n: nat)
    requires
        n <= docs.len(),
    ensures
        chunked(docs, n).closed.flatten_alt() + chunked(docs, n).filling == docs.take(n as int),
        n == docs.len() ==> chunked(docs, n).filling.len() == 0,
        forall|i: int|
            0 <= i < chunked(docs, n).closed.len() ==> (#[trigger] chunked(docs, n).closed[i]).len()
                > 0,
    decreases n,
{
    if n > 0 {
        lemma_chunked(docs, (n - 1) as nat);
        let before = chunked(docs, (n - 1) as nat);
        let filling = before.filling.push(docs[n - 1]);
        let c = chunked(docs, n);
        assert(docs.take(n as int) =~= docs.take(n - 1).push(docs[n - 1]));
        assert(before.closed.flatten_alt() + filling =~= docs.take(n as int));
        if chunk_closes(filling, n == docs.len()) {
            assert(before.closed.push(filling).drop_last() =~= before.closed);
            assert(c.closed.flatten_alt() + c.filling =~= docs.take(n as int));
        }
    } else {
        assert(docs.take(0) =~= Seq::empty());
        assert(chunked(docs, 0).closed.flatten_alt() + chunked(docs, 0).filling =~= docs.take(0));
    }
}

/// Adding documents in two parts adds them all.
pub proof fn lemma_with_documents_split(
    m: Map<u64, FieldsView>,
    d1: Seq<(u64, FieldsView)>,
    d2: Seq<(u64, FieldsView)>,
)
    ensures
        with_documents(m, d1 + d2) == with_documents(with_documents(m, d1), d2),
    decreases d2.len(),
{
    if d2.len() > 0 {
        assert((d1 + d2).drop_last() =~= d1 + d2.drop_last());
        lemma_with_documents_split(m, d1, d2.drop_last());
    } else {
        assert(d1 + d2 =~= d1);
    }
}

proof fn lemma_chunks_round_trip(
    b: Seq<u8>,
    p: int,
    chunks: Seq<Seq<(u64, FieldsView)>>,
    decoded: nat,
    total: u64,
    m: Map<u64, FieldsView>,
)
    requires
        codec::stands_at(b, p, codec::put_many(put_docs_chunk(), chunks)),
        decoded + chunks.flatten().len() == total,
        forall|i: int|
            0 <= i < chunks.len() ==> (#[trigger] chunks[i]).len() > 0 && docs_give_back(chunks[i])
                && unpacks(chunk_body(chunks[i])),
    ensures
        take_chunks(b, p, decoded, total, m) == Ok::<_, LaurusError>(
            with_documents(m, chunks.flatten()),
        ),
    decreases chunks.len(),
{
    if chunks.len() == 0 {
    } else {
        let first = chunks[0];
        let rest = chunks.drop_first();
        assert(chunks.flatten() == first + rest.flatten());
        codec::lemma_put_many_first(put_docs_chunk(), chunks);
        codec::lemma_stands_split(
            b,
            p,
            put_docs_chunk()(first),
            codec::put_many(put_docs_chunk(), rest),
        );
        lemma_chunk_round_trip(b, p, first);
        lemma_chunk_advances(b, p);
        let q = p + put_docs_chunk()(first).len();
        assert forall|i: int| 0 <= i < rest.len() implies (#[trigger] rest[i]).len() > 0
            && docs_give_back(rest[i]) && unpacks(chunk_body(rest[i])) by {
            assert(rest[i] == chunks[i + 1]);
        }
        lemma_chunks_round_trip(
            b,
            q,
            rest,
            decoded + first.len(),
            total,
            with_documents(m, first),
        );
        lemma_with_documents_split(m, first, rest.flatten());
    }
}

/// Documents as storing keeps them.
pub open spec fn stored_docs_form(docs: Seq<(u64, FieldsView)>) -> Seq<(u64, FieldsView)> {
    docs.map_values(|d: (u64, FieldsView)| (d.0, stored_fields_form(d.1)))
}

/// Whether every document can be told from its bytes.
pub open spec fn docs_storable(docs: Seq<(u64, FieldsView)>) -> bool {
    forall|i: int|
        0 <= i < docs.len() ==> fields_storable((#[trigger] docs[i]).1) && names::names_ascend(
            docs[i].1,
        )
}

/// Whether documents were written such that they can be read back.
pub open spec fn is_written(docs: Seq<(u64, FieldsView)>) -> bool {
    &&& docs.len() <= u64::MAX
    &&& docs_storable(docs)
    &&& forall|i: int| 0 <= i < docs.len() ==> fields_held((#[trigger] docs[i]).1)
    &&& forall|i: int|
        0 <= i < chunked(docs, docs.len()).closed.len() ==> unpacks(
            chunk_body(#[trigger] chunked(docs, docs.len()).closed[i]),
        )
}

/// Chunking does not look at what storing changes.
proof fn lemma_chunked_form(docs: Seq<(u64, FieldsView)>, n: nat)
    requires
        n <= docs.len(),
        docs_storable(docs),
        forall|i: int| 0 <= i < docs.len() ==> fields_held((#[trigger] docs[i]).1),
    ensures
        ({
            let a = chunked(docs, n);
            let c = chunked(stored_docs_form(docs), n);
            &&& c.filling == stored_docs_form(a.filling)
            &&& chunk_body(c.filling) == chunk_body(a.filling)
            &&& c.closed.len() == a.closed.len()
            &&& forall|i: int|
                0 <= i < a.closed.len() ==> (#[trigger] c.closed[i]) == stored_docs_form(
                    a.closed[i],
                ) && chunk_body(c.closed[i]) == chunk_body(a.closed[i]) && docs_give_back(
                    c.closed[i],
                )
            &&& codec::put_many(put_docs_chunk(), c.closed) == codec::put_many(
                put_docs_chunk(),
                a.closed,
            )
            &&& docs_give_back(c.filling)
        }),
    decreases n,
{
    let form = stored_docs_form(docs);
    if n > 0 {
        lemma_chunked_form(docs, (n - 1) as nat);
        let a0 = chunked(docs, (n - 1) as nat);
        let c0 = chunked(form, (n - 1) as nat);
        let d = docs[n - 1];
        let fa = a0.filling.push(d);
        let fc = c0.filling.push(form[n - 1]);
        lemma_document_round_trip(d.0, d.1);
        codec::lemma_put_many_push(put_document(), a0.filling, d);
        codec::lemma_put_many_push(put_document(), c0.filling, form[n - 1]);
        assert(fc =~= stored_docs_form(fa));
        assert(chunk_body(fc) == chunk_body(fa));
        assert(docs_give_back(fc)) by {
            assert forall|i: int| 0 <= i < fc.len() implies codec::gives_back(
                take_document(),
                put_document(),
                #[trigger] fc[i],
            ) && put_document()(fc[i]).len() >= 9 by {
                if i < c0.filling.len() {
                    assert(fc[i] == c0.filling[i]);
                }
            }
        }
        if chunk_closes(fa, n == docs.len()) {
            codec::lemma_put_many_push(put_docs_chunk(), a0.closed, fa);
            codec::lemma_put_many_push(put_docs_chunk(), c0.closed, fc);
            assert(fc.len() == fa.len());
            assert(stored_docs_form(Seq::<(u64, FieldsView)>::empty()) =~= Seq::empty());
        }
    } else {
        assert(stored_docs_form(Seq::<(u64, FieldsView)>::empty()) =~= Seq::empty());
    }
}

/// Loading a `.docs` part gives back the documents that were written, as storing
/// keeps them, whatever stands behind the part.
pub proof fn lemma_file_round_trip(b: Seq<u8>, docs: Seq<(u64, FieldsView)>)
    requires
        codec::stands_at(b, 0, put_file(docs)),
        is_written(docs),
    ensures
        take_file(b) == Ok::<_, LaurusError>(
            with_documents(Map::empty(), stored_docs_form(docs)),
        ),
{
    let form = stored_docs_form(docs);
    let a = chunked(docs, docs.len());
    let c = chunked(form, docs.len());
    lemma_chunked_form(docs, docs.len());
    lemma_chunked(form, docs.len());
    assert(form.take(docs.len() as int) =~= form);
    c.closed.lemma_flatten_and_flatten_alt_are_equivalent();
    assert(c.closed.flatten() =~= form);
    let chunks = codec::put_many(put_docs_chunk(), a.closed);
    let count = codec::put_varint(docs.len());
    codec::lemma_stands_split(b, 0, file_mark(), count + chunks);
    codec::lemma_stands_split(b, 6, count, chunks);
    codec::lemma_varint_round_trip(b, 6, docs.len() as u64, "stored-fields header");
    codec::lemma_stands_byte(b, 0, file_mark(), 0);
    codec::lemma_stands_byte(b, 0, file_mark(), 1);
    codec::lemma_stands_byte(b, 0, file_mark(), 2);
    codec::lemma_stands_byte(b, 0, file_mark(), 3);
    codec::lemma_stands_byte(b, 0, file_mark(), 4);
    assert(b.subrange(0, 4) =~= seq![83u8, 68u8, 79u8, 67u8]);
    assert forall|i: int| 0 <= i < c.closed.len() implies (#[trigger] c.closed[i]).len() > 0
        && docs_give_back(c.closed[i]) && unpacks(chunk_body(c.closed[i])) by {
        assert(unpacks(chunk_body(a.closed[i])));
    }
    lemma_chunks_round_trip(
        b,
        6int + count.len(),
        c.closed,
        0,
        docs.len() as u64,
        Map::empty(),
    );
}

// ---------------------------------------------------------------------------
// Damage
// ---------------------------------------------------------------------------

/// What stands of a chunk in front of its checksum.
pub open spec fn chunk_front(count: nat, body: Seq<u8>) -> Seq<u8> {
    codec::put_varint(count) + (seq![if shrinks(body) { CODEC_LZ4 } else { CODEC_RAW }] + (
    codec::put_varint(body.len()) + codec::put_varint(chunk_payload(body).len())))
}

/// Where the checksum of a chunk stands that starts at `p`.
pub open spec fn checksum_place(p: int, docs: Seq<(u64, FieldsView)>) -> int {
    p + chunk_front(docs.len(), chunk_body(docs)).len()
}

/// Where the payload of a chunk stands that starts at `p`.
pub open spec fn payload_place(p: int, docs: Seq<(u64, FieldsView)>) -> int {
    checksum_place(p, docs) + 4
}

/// Where a chunk ends that starts at `p`.
pub open spec fn chunk_end(p: int, docs: Seq<(u64, FieldsView)>) -> int {
    payload_place(p, docs) + chunk_payload(chunk_body(docs)).len()
}

/// Whether at `p` stands the chunk of documents, but with a checksum that is not the one
/// of the payload that stands behind it.
pub open spec fn is_damaged(b: Seq<u8>, p: int, docs: Seq<(u64, FieldsView)>) -> bool {
    &&& codec::stands_at(b, p, chunk_front(docs.len(), chunk_body(docs)))
    &&& chunk_end(p, docs) <= b.len()
    &&& spec_u32_from_le_bytes(b.subrange(checksum_place(p, docs), payload_place(p, docs)))
        != outside::crc32(b.subrange(payload_place(p, docs), chunk_end(p, docs)))
}

/// Where chunk `k` of the part of documents stands.
pub open spec fn chunk_place(docs: Seq<(u64, FieldsView)>, k: int) -> int {
    6int + codec::put_varint(docs.len()).len() + codec::put_many(
        put_docs_chunk(),
        chunked(docs, docs.len()).closed.take(k),
    ).len()
}

proof fn lemma_chunk_parts(docs: Seq<(u64, FieldsView)>)
    ensures
        ({
            let body = chunk_body(docs);
            put_docs_chunk()(docs) == chunk_front(docs.len(), body) + (spec_u32_to_le_bytes(
                outside::crc32(chunk_payload(body)),
            ) + chunk_payload(body))
        }),
        spec_u32_to_le_bytes(outside::crc32(chunk_payload(chunk_body(docs)))).len() == 4,
{
    lemma_auto_spec_u32_to_from_le_bytes();
    let body = chunk_body(docs);
    assert(put_docs_chunk()(docs) =~= chunk_front(docs.len(), body) + (spec_u32_to_le_bytes(
        outside::crc32(chunk_payload(body)),
    ) + chunk_payload(body)));
}

/// A damaged chunk is not taken.
#[verifier::spinoff_prover]
#[verifier::rlimit(40)]
proof fn lemma_chunk_damaged(b: Seq<u8>, p: int, docs: Seq<(u64, FieldsView)>)
    requires
        is_damaged(b, p, docs),
        docs_give_back(docs),
        docs.len() <= u64::MAX,
        unpacks(chunk_body(docs)),
    ensures
        take_chunk(b, p) == Err::<(Seq<(u64, FieldsView)>, int), LaurusError>(
            LaurusError::ChunkChecksum,
        ),
{
    let body = chunk_body(docs);
    let payload = chunk_payload(body);
    lemma_chunk_body_round_trip(docs);
    let count = codec::put_varint(docs.len());
    let codec_byte = seq![if shrinks(body) { CODEC_LZ4 } else { CODEC_RAW }];
    let size = codec::put_varint(body.len());
    let packed = codec::put_varint(payload.len());
    codec::lemma_stands_split(b, p, count, codec_byte + (size + packed));
    let p1 = p + count.len();
    codec::lemma_stands_split(b, p1, codec_byte, size + packed);
    let p2 = p1 + 1;
    codec::lemma_stands_split(b, p2, size, packed);
    let p3 = p2 + size.len();
    codec::lemma_varint_round_trip(b, p, docs.len() as u64, "stored-fields chunk doc count");
    codec::lemma_stands_byte(b, p1, codec_byte, 0);
    codec::lemma_varint_round_trip(b, p2, body.len() as u64, "stored-fields chunk size");
    codec::lemma_varint_round_trip(b, p3, payload.len() as u64, "stored-fields chunk payload");
    assert(p3 + packed.len() == checksum_place(p, docs));
    let h = take_chunk_header(b, p)->Ok_0.0;
    assert(take_chunk_header(b, p) == Ok::<(ChunkHeader, int), LaurusError>(
        (h, payload_place(p, docs)),
    ));
    assert(h.payload * 1 <= b.len() - p);
}

proof fn lemma_chunks_damaged(
    b: Seq<u8>,
    p: int,
    chunks: Seq<Seq<(u64, FieldsView)>>,
    k: int,
    decoded: nat,
    total: u64,
    m: Map<u64, FieldsView>,
)
    requires
        0 <= k < chunks.len(),
        codec::stands_at(b, p, codec::put_many(put_docs_chunk(), chunks.take(k))),
        is_damaged(
            b,
            p + codec::put_many(put_docs_chunk(), chunks.take(k)).len(),
            chunks[k],
        ),
        decoded + chunks.flatten().len() == total,
        forall|i: int|
            0 <= i < chunks.len() ==> (#[trigger] chunks[i]).len() > 0 && docs_give_back(chunks[i])
                && unpacks(chunk_body(chunks[i])),
    ensures
        take_chunks(b, p, decoded, total, m) == Err::<Map<u64, FieldsView>, LaurusError>(
            LaurusError::ChunkChecksum,
        ),
    decreases k,
{
    let first = chunks[0];
    let rest = chunks.drop_first();
    assert(chunks.flatten() == first + rest.flatten());
    if k == 0 {
        assert(chunks.take(0) =~= Seq::empty());
        lemma_chunk_damaged(b, p, first);
    } else {
        assert(chunks.take(k).drop_first() =~= rest.take(k - 1));
        codec::lemma_put_many_first(put_docs_chunk(), chunks.take(k));
        codec::lemma_stands_split(
            b,
            p,
            put_docs_chunk()(first),
            codec::put_many(put_docs_chunk(), rest.take(k - 1)),
        );
        lemma_chunk_round_trip(b, p, first);
        lemma_chunk_advances(b, p);
        let q = p + put_docs_chunk()(first).len();
        assert forall|i: int| 0 <= i < rest.len() implies (#[trigger] rest[i]).len() > 0
            && docs_give_back(rest[i]) && unpacks(chunk_body(rest[i])) by {
            assert(rest[i] == chunks[i + 1]);
        }
        lemma_chunks_damaged(
            b,
            q,
            rest,
            k - 1,
            decoded + first.len(),
            total,
            with_documents(m, first),
        );
    }
}

/// A `.docs` part with a chunk whose checksum is not the one of its payload is refused,
/// whatever stands behind that chunk.
#[verifier::spinoff_prover]
#[verifier::rlimit(40)]
pub proof fn lemma_damaged_chunk_is_refused(b: Seq<u8>, docs: Seq<(u64, FieldsView)>, k: int)
    requires
        is_written(docs),
        0 <= k < chunked(docs, docs.len()).closed.len(),
        chunk_place(docs, k) <= b.len(),
        b.take(chunk_place(docs, k)) == put_file(docs).take(chunk_place(docs, k)),
        is_damaged(b, chunk_place(docs, k), chunked(docs, docs.len()).closed[k]),
    ensures
        take_file(b) == Err::<Map<u64, FieldsView>, LaurusError>(LaurusError::ChunkChecksum),
{
    let form = stored_docs_form(docs);
    let a = chunked(docs, docs.len()).closed;
    let c = chunked(form, docs.len()).closed;
    lemma_chunked_form(docs, docs.len());
    lemma_chunked(form, docs.len());
    assert(form.take(docs.len() as int) =~= form);
    c.lemma_flatten_and_flatten_alt_are_equivalent();
    assert(c.flatten() =~= form);
    let count = codec::put_varint(docs.len());
    let before = codec::put_many(put_docs_chunk(), a.take(k));
    let front = file_mark() + (count + before);
    assert(a =~= a.take(k) + a.skip(k));
    codec::lemma_put_many_append(put_docs_chunk(), a.take(k), a.skip(k));
    assert(put_file(docs).take(chunk_place(docs, k)) =~= front);
    assert(b.subrange(0, front.len() as int) =~= b.take(chunk_place(docs, k)));
    codec::lemma_stands_split(b, 0, file_mark(), count + before);
    codec::lemma_stands_split(b, 6, count, before);
    codec::lemma_varint_round_trip(b, 6, docs.len() as u64, "stored-fields header");
    codec::lemma_stands_byte(b, 0, file_mark(), 0);
    codec::lemma_stands_byte(b, 0, file_mark(), 1);
    codec::lemma_stands_byte(b, 0, file_mark(), 2);
    codec::lemma_stands_byte(b, 0, file_mark(), 3);
    codec::lemma_stands_byte(b, 0, file_mark(), 4);
    assert(b.subrange(0, 4) =~= seq![83u8, 68u8, 79u8, 67u8]);
    assert forall|i: int| 0 <= i < c.len() implies (#[trigger] c[i]).len() > 0 && docs_give_back(
        c[i],
    ) && unpacks(chunk_body(c[i])) by {
        assert(unpacks(chunk_body(a[i])));
    }
    assert forall|i: int| 0 <= i < a.len() implies put_docs_chunk()(#[trigger] c[i])
        == put_docs_chunk()(a[i]) by {
        assert(c[i] == stored_docs_form(a[i]));
        assert(c[i].len() == a[i].len());
    }
    assert(c.take(k).len() == a.take(k).len());
    assert forall|i: int| 0 <= i < a.take(k).len() implies put_docs_chunk()(
        #[trigger] c.take(k)[i],
    ) == put_docs_chunk()(a.take(k)[i]) by {
        assert(put_docs_chunk()(c[i]) == put_docs_chunk()(a[i]));
    }
    lemma_put_many_same(put_docs_chunk(), a.take(k), c.take(k));
    assert(c[k].len() == a[k].len() && chunk_body(c[k]) == chunk_body(a[k])) by {
        assert(c[k] == stored_docs_form(a[k]));
    }
    lemma_chunks_damaged(
        b,
        6int + count.len(),
        c,
        k,
        0,
        docs.len() as u64,
        Map::empty(),
    );
}

/// A `.docs` part with another byte in its mark, or with another major version, is
/// refused.
pub proof fn lemma_changed_mark_is_refused(docs: Seq<(u64, FieldsView)>, i: int, x: u8)
    requires
        0 <= i < 5,
        x != put_file(docs)[i],
    ensures
        take_file(put_file(docs).update(i, x)) == Err::<Map<u64, FieldsView>, LaurusError>(
            if i < 4 {
                LaurusError::StoredFieldsMagic
            } else {
                LaurusError::StoredFieldsVersion { found: x, supported: VERSION_MAJOR }
            },
        ),
{
    let w = put_file(docs);
    let b = w.update(i, x);
    let mark = file_mark();
    assert(w.len() >= 6);
    assert forall|j: int| 0 <= j < 6 implies w[j] == #[trigger] mark[j] by {}
    assert(w[0] == mark[0] && w[1] == mark[1] && w[2] == mark[2] && w[3] == mark[3] && w[4]
        == mark[4]);
    if i < 4 {
        assert(b.subrange(0, 4)[i] == x);
    } else {
        assert(b.subrange(0, 4) =~= seq![83u8, 68u8, 79u8, 67u8]);
    }
}

/// What a changed byte leaves of pieces that stand one behind the other.
proof fn lemma_changed_piece(
    head: Seq<u8>,
    front: Seq<u8>,
    crc: Seq<u8>,
    payload: Seq<u8>,
    behind: Seq<u8>,
    i: int,
    x: u8,
)
    requires
        head.len() + front.len() <= i < head.len() + front.len() + crc.len() + payload.len(),
    ensures
        ({
            let w = head + (front + (crc + (payload + behind)));
            let b = w.update(i, x);
            let p = head.len() as int;
            let q = p + front.len();
            let r = q + crc.len();
            let e = r + payload.len();
            &&& w[i] == (crc + payload)[i - q]
            &&& b.len() >= e
            &&& b.take(p) == w.take(p)
            &&& codec::stands_at(b, p, front)
            &&& i < r ==> b.subrange(q, r) == crc.update(i - q, x) && b.subrange(r, e) == payload
            &&& i >= r ==> b.subrange(q, r) == crc && b.subrange(r, e) == payload.update(i - r, x)
        }),
{
    let w = head + (front + (crc + (payload + behind)));
    let b = w.update(i, x);
    let p = head.len() as int;
    let q = p + front.len();
    let r = q + crc.len();
    let e = r + payload.len();
    assert(b.take(p) =~= w.take(p));
    assert(b.subrange(p, p + front.len()) =~= front);
    if i < r {
        assert(b.subrange(q, r) =~= crc.update(i - q, x));
        assert(b.subrange(r, e) =~= payload);
    } else {
        assert(b.subrange(q, r) =~= crc);
        assert(b.subrange(r, e) =~= payload.update(i - r, x));
    }
}

/// The pieces of a `.docs` part around one of its chunks.
#[verifier::spinoff_prover]
#[verifier::rlimit(40)]
proof fn lemma_pieces(docs: Seq<(u64, FieldsView)>, k: int) -> (pieces: (Seq<u8>, Seq<u8>))
    requires
        0 <= k < chunked(docs, docs.len()).closed.len(),
    ensures
        ({
            let c = chunked(docs, docs.len()).closed[k];
            let body = chunk_body(c);
            let crc = spec_u32_to_le_bytes(outside::crc32(chunk_payload(body)));
            &&& pieces.0.len() == chunk_place(docs, k)
            &&& crc.len() == 4
            &&& put_file(docs) == pieces.0 + (chunk_front(c.len(), body) + (crc + (chunk_payload(
                body,
            ) + pieces.1)))
        }),
{
    let chunks = chunked(docs, docs.len()).closed;
    let c = chunks[k];
    let count = codec::put_varint(docs.len());
    let before = codec::put_many(put_docs_chunk(), chunks.take(k));
    let behind = codec::put_many(put_docs_chunk(), chunks.skip(k + 1));
    lemma_chunk_parts(c);
    assert(chunks =~= chunks.take(k) + chunks.skip(k));
    codec::lemma_put_many_append(put_docs_chunk(), chunks.take(k), chunks.skip(k));
    codec::lemma_put_many_first(put_docs_chunk(), chunks.skip(k));
    assert(chunks.skip(k).drop_first() =~= chunks.skip(k + 1));
    let head = file_mark() + (count + before);
    let body = chunk_body(c);
    let crc = spec_u32_to_le_bytes(outside::crc32(chunk_payload(body)));
    assert(put_file(docs) =~= head + (chunk_front(c.len(), body) + (crc + (chunk_payload(body)
        + behind))));
    (head, behind)
}

/// A `.docs` part with another byte in the checksum of a chunk is refused, and so is one
/// with another byte in the payload of a chunk, where that payload has another checksum
/// than before. No part of it is read.
pub proof fn lemma_changed_chunk_is_refused(docs: Seq<(u64, FieldsView)>, k: int, i: int, x: u8)
    requires
        is_written(docs),
        0 <= k < chunked(docs, docs.len()).closed.len(),
        ({
            let c = chunked(docs, docs.len()).closed[k];
            let p = chunk_place(docs, k);
            let payload = chunk_payload(chunk_body(c));
            &&& checksum_place(p, c) <= i < chunk_end(p, c)
            &&& x != put_file(docs)[i]
            &&& i >= payload_place(p, c) ==> outside::crc32(
                payload.update(i - payload_place(p, c), x),
            ) != outside::crc32(payload)
        }),
    ensures
        take_file(put_file(docs).update(i, x)) == Err::<Map<u64, FieldsView>, LaurusError>(
            LaurusError::ChunkChecksum,
        ),
{
    let c = chunked(docs, docs.len()).closed[k];
    let p = chunk_place(docs, k);
    let body = chunk_body(c);
    let payload = chunk_payload(body);
    let crc = spec_u32_to_le_bytes(outside::crc32(payload));
    let b = put_file(docs).update(i, x);
    let (head, behind) = lemma_pieces(docs, k);
    lemma_changed_piece(head, chunk_front(c.len(), body), crc, payload, behind, i, x);
    lemma_auto_spec_u32_to_from_le_bytes();
    let found = b.subrange(checksum_place(p, c), payload_place(p, c));
    if i < payload_place(p, c) {
        assert(found[i - checksum_place(p, c)] == x);
        assert(found != crc);
        assert(spec_u32_to_le_bytes(spec_u32_from_le_bytes(found)) == found);
    }
    lemma_damaged_chunk_is_refused(b, docs, k);
}

/// Where no id occurs twice, each document is found under its id, and nothing
/// else is there.
pub proof fn lemma_documents_by_id(docs: Seq<(u64, FieldsView)>)
    requires
        forall|i: int, j: int|
            0 <= i < j < docs.len() ==> (#[trigger] docs[i]).0 != (#[trigger] docs[j]).0,
    ensures
        forall|i: int|
            0 <= i < docs.len() ==> with_documents(Map::empty(), docs).contains_key(
                (#[trigger] docs[i]).0,
            ) && with_documents(Map::empty(), docs)[docs[i].0] == docs[i].1,
        forall|id: u64| #[trigger]
            with_documents(Map::empty(), docs).contains_key(id) ==> exists|i: int|
                0 <= i < docs.len() && (#[trigger] docs[i]).0 == id,
    decreases docs.len(),
{
    if docs.len() > 0 {
        let front = docs.drop_last();
        assert forall|i: int, j: int| 0 <= i < j < front.len() implies (#[trigger] front[i]).0 != (
        #[trigger] front[j]).0 by {
            assert(front[i] == docs[i] && front[j] == docs[j]);
        }
        lemma_documents_by_id(front);
        let m = with_documents(Map::empty(), docs);
        assert forall|i: int| 0 <= i < docs.len() implies m.contains_key((#[trigger] docs[i]).0)
            && m[docs[i].0] == docs[i].1 by {
            if i < front.len() {
                assert(front[i] == docs[i]);
                assert(docs[i].0 != docs[docs.len() - 1].0);
            }
        }
        assert forall|id: u64| #[trigger] m.contains_key(id) implies exists|i: int|
            0 <= i < docs.len() && (#[trigger] docs[i]).0 == id by {
            if id != docs.last().0 {
                assert(with_documents(Map::empty(), front).contains_key(id));
                let i = choose|i: int| 0 <= i < front.len() && (#[trigger] front[i]).0 == id;
                assert(docs[i].0 == id);
            } else {
                assert(docs[docs.len() - 1].0 == id);
            }
        }
    }
}

/// The bytes of documents do not depend on the order in which the documents come. Only
/// documents of one id are written in the order in which they come.
pub proof fn lemma_any_order_of_documents(docs: Seq<(u64, FieldsView)>, p: Seq<usize>)
    requires
        docs.len() <= usize::MAX,
        sort::is_rearrangement(p, docs.len()),
        sort::keeps_ties(ids_of(docs), p),
    ensures
        put_file(by_id(p.map_values(|i: usize| docs[i as int]))) == put_file(by_id(docs)),
{
    let other = p.map_values(|i: usize| docs[i as int]);
    let ids = ids_of(docs);
    sort::lemma_order_rearranged(ids, p);
    assert(ids_of(other) =~= p.map_values(|i: usize| ids[i as int])) by {
        assert forall|k: int| 0 <= k < p.len() implies ids_of(other)[k] == ids[p[k] as int] by {
            assert(p[k] < docs.len());
        }
    }
    let o = sort::order_of(ids_of(other));
    sort::lemma_order_of(ids_of(other));
    sort::lemma_order_of(ids);
    assert(by_id(other) =~= by_id(docs)) by {
        assert forall|k: int| 0 <= k < docs.len() implies by_id(other)[k] == by_id(docs)[k] by {
            assert(o[k] < other.len());
            assert(sort::order_of(ids)[k] == p[o[k] as int]);
        }
    }
}

} // verus!
