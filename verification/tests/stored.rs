//! Stored fields: their bytes, the chunks of a file, and what is refused.

use std::collections::{BTreeMap, HashMap};

use laurus::analyzed::AnalyzedDocument;
use laurus::codec::{read_raw, read_u32_le, read_u64_le, read_u8, write_varint};
use laurus::data::{DataValue, DateTimeUtc, Document, GeoEcefPoint, GeoPoint};
use laurus::error::{DateTimeFault, LaurusError};
use laurus::names::FieldMap;
use laurus::stored_fields::{
    decode_document, encode_document, StoredFieldsReader, StoredFieldsWriter, CODEC_LZ4, CODEC_RAW,
    TAG_BOOL_ARRAY, TAG_DATETIME, TAG_DATETIME_ARRAY, TAG_TEXT_ARRAY, VERSION_MAJOR, VERSION_MINOR,
};

const MAGIC: &[u8; 4] = b"SDOC";

type Files = HashMap<String, Vec<u8>>;

fn bits(v: f64) -> u64 {
    v.to_bits()
}

fn narrow(v: f32) -> u32 {
    v.to_bits()
}

fn geo_point(lat: f64, lon: f64) -> GeoPoint {
    GeoPoint {
        lat: lat.to_bits(),
        lon: lon.to_bits(),
    }
}

fn ecef_point(x: f64, y: f64, z: f64) -> GeoEcefPoint {
    GeoEcefPoint {
        x: x.to_bits(),
        y: y.to_bits(),
        z: z.to_bits(),
    }
}

fn doc(fields: &[(&str, DataValue)]) -> AnalyzedDocument {
    let mut d = AnalyzedDocument::new();
    for (name, value) in fields {
        d.stored_fields.insert((*name).to_string(), value.clone());
    }
    d
}

fn round_trip(
    storage: &mut Files,
    segment_id: &str,
    docs: &[(u64, AnalyzedDocument)],
) -> BTreeMap<u64, Document> {
    let mut out = Vec::new();
    StoredFieldsWriter::write_to(&mut out, docs).unwrap();
    storage.insert(segment_id.to_string(), out);
    load_docs_file(storage, segment_id).unwrap()
}

fn load_docs_file(
    storage: &Files,
    segment_id: &str,
) -> Result<BTreeMap<u64, Document>, LaurusError> {
    StoredFieldsReader::load(&storage[segment_id])
}

fn read_varint(bytes: &[u8], at: &mut usize) -> u64 {
    let mut v = 0u64;
    let mut shift = 0;
    loop {
        let b = bytes[*at];
        *at += 1;
        v |= u64::from(b & 0x7f) << shift;
        shift += 7;
        if b & 0x80 == 0 {
            return v;
        }
    }
}

/// How many chunk records a file contains, without fully decoding it.
fn count_chunks(storage: &Files, segment_id: &str) -> usize {
    let bytes = &storage[segment_id];
    let mut at = 6;
    let total_doc_count = read_varint(bytes, &mut at);
    let mut decoded = 0u64;
    let mut chunks = 0usize;
    while decoded < total_doc_count {
        let doc_count = read_varint(bytes, &mut at);
        at += 1; // codec
        let _uncompressed_size = read_varint(bytes, &mut at);
        let payload_size = read_varint(bytes, &mut at);
        at += 4 + payload_size as usize; // crc, payload
        decoded += doc_count;
        chunks += 1;
    }
    chunks
}

fn first_chunk_codec(storage: &Files, segment_id: &str) -> u8 {
    let bytes = &storage[segment_id];
    let mut at = 6;
    read_varint(bytes, &mut at); // total_doc_count
    read_varint(bytes, &mut at); // chunk_doc_count
    bytes[at]
}

#[allow(clippy::too_many_arguments)]
fn write_single_chunk_file(
    storage: &mut Files,
    segment_id: &str,
    total_doc_count: u64,
    chunk_doc_count: u64,
    codec: u8,
    uncompressed_size: u64,
    payload: &[u8],
    crc: u32,
) {
    let mut out = Vec::new();
    out.extend_from_slice(MAGIC);
    out.extend_from_slice(&[VERSION_MAJOR, VERSION_MINOR]);
    write_varint(&mut out, total_doc_count);
    write_varint(&mut out, chunk_doc_count);
    out.push(codec);
    write_varint(&mut out, uncompressed_size);
    write_varint(&mut out, payload.len() as u64);
    out.extend_from_slice(&crc.to_le_bytes());
    out.extend_from_slice(payload);
    storage.insert(segment_id.to_string(), out);
}

#[test]
fn round_trips_every_data_value_variant() {
    let mut storage = Files::new();
    // A field after `Bytes` is essential: the double-length
    // bug desynced every field that came after a stored Bytes field.
    let docs = vec![(
        1u64,
        doc(&[
            ("a_text", DataValue::Text("hello".to_string())),
            ("b_int", DataValue::Int64(-42)),
            ("c_float", DataValue::Float64(bits(3.5))),
            ("d_bool", DataValue::Bool(true)),
            (
                "e_bytes",
                DataValue::Bytes(vec![1, 2, 3, 4], Some("application/x-test".to_string())),
            ),
            ("f_bytes_no_mime", DataValue::Bytes(vec![9, 9], None)),
            (
                "g_datetime",
                DataValue::DateTime(
                    DateTimeUtc::from_timestamp(1_700_000_000, 0).unwrap(),
                ),
            ),
            ("h_geo", DataValue::Geo(geo_point(35.6, 139.7))),
            (
                "i_geo_ecef",
                DataValue::GeoEcef(ecef_point(1.0, 2.0, 3.0)),
            ),
            ("j_null", DataValue::Null),
            ("k_vector", DataValue::Vector(vec![narrow(0.1), narrow(0.2), narrow(0.3)])),
            ("l_int_array", DataValue::Int64Array(vec![1, 2, 3])),
            ("m_float_array", DataValue::Float64Array(vec![bits(1.5), bits(2.5)])),
            (
                "n_geo_array",
                DataValue::GeoArray(vec![
                    geo_point(35.6, 139.7),
                    geo_point(-33.9, 151.2),
                ]),
            ),
            (
                "o_geo_ecef_array",
                DataValue::GeoEcefArray(vec![
                    ecef_point(1.0, 2.0, 3.0),
                    ecef_point(-4.0, 5.0, -6.0),
                ]),
            ),
            // Empty point lists take the length-0 path.
            ("p_geo_array_empty", DataValue::GeoArray(Vec::new())),
            (
                "q_geo_ecef_array_empty",
                DataValue::GeoEcefArray(Vec::new()),
            ),
            // Multi-valued datetimes: micro-second precision,
            // pre-1970 instants, and the empty list.
            (
                "r_datetime_array",
                DataValue::DateTimeArray(vec![
                    DateTimeUtc::from_timestamp_micros(1_700_000_000_500_000).unwrap(),
                    DateTimeUtc::from_timestamp_micros(-86_400_000_001).unwrap(),
                ]),
            ),
            (
                "s_datetime_array_empty",
                DataValue::DateTimeArray(Vec::new()),
            ),
            // Multi-valued booleans: one byte per element, and
            // the empty list.
            (
                "t_bool_array",
                DataValue::BoolArray(vec![true, false, true]),
            ),
            ("u_bool_array_empty", DataValue::BoolArray(Vec::new())),
            // Multi-valued text: a long element, an empty one
            // and multi-byte UTF-8, plus the empty list.
            (
                "v_text_array",
                DataValue::TextArray(vec![
                    "hello world".to_string(),
                    String::new(),
                    "日本語のテキスト".to_string(),
                ]),
            ),
            ("w_text_array_empty", DataValue::TextArray(Vec::new())),
        ]),
    )];

    let documents = round_trip(&mut storage, "seg", &docs);
    let d = &documents[&1];
    assert_eq!(
        d.fields.get("a_text"),
        Some(&DataValue::Text("hello".to_string()))
    );
    assert_eq!(d.fields.get("b_int"), Some(&DataValue::Int64(-42)));
    assert_eq!(d.fields.get("c_float"), Some(&DataValue::Float64(bits(3.5))));
    assert_eq!(d.fields.get("d_bool"), Some(&DataValue::Bool(true)));
    assert_eq!(
        d.fields.get("e_bytes"),
        Some(&DataValue::Bytes(
            vec![1, 2, 3, 4],
            Some("application/x-test".to_string())
        ))
    );
    assert_eq!(
        d.fields.get("f_bytes_no_mime"),
        Some(&DataValue::Bytes(vec![9, 9], None))
    );
    assert!(matches!(
        d.fields.get("g_datetime"),
        Some(DataValue::DateTime(_))
    ));
    assert_eq!(
        d.fields.get("h_geo"),
        Some(&DataValue::Geo(geo_point(35.6, 139.7)))
    );
    assert_eq!(
        d.fields.get("i_geo_ecef"),
        Some(&DataValue::GeoEcef(ecef_point(1.0, 2.0, 3.0)))
    );
    assert_eq!(d.fields.get("j_null"), Some(&DataValue::Null));
    assert_eq!(
        d.fields.get("k_vector"),
        Some(&DataValue::Vector(vec![narrow(0.1), narrow(0.2), narrow(0.3)]))
    );
    assert_eq!(
        d.fields.get("l_int_array"),
        Some(&DataValue::Int64Array(vec![1, 2, 3]))
    );
    assert_eq!(
        d.fields.get("m_float_array"),
        Some(&DataValue::Float64Array(vec![bits(1.5), bits(2.5)]))
    );
    assert_eq!(
        d.fields.get("n_geo_array"),
        Some(&DataValue::GeoArray(vec![
            geo_point(35.6, 139.7),
            geo_point(-33.9, 151.2),
        ]))
    );
    assert_eq!(
        d.fields.get("o_geo_ecef_array"),
        Some(&DataValue::GeoEcefArray(vec![
            ecef_point(1.0, 2.0, 3.0),
            ecef_point(-4.0, 5.0, -6.0),
        ]))
    );
    assert_eq!(
        d.fields.get("p_geo_array_empty"),
        Some(&DataValue::GeoArray(Vec::new()))
    );
    assert_eq!(
        d.fields.get("q_geo_ecef_array_empty"),
        Some(&DataValue::GeoEcefArray(Vec::new()))
    );
    assert_eq!(
        d.fields.get("r_datetime_array"),
        Some(&DataValue::DateTimeArray(vec![
            DateTimeUtc::from_timestamp_micros(1_700_000_000_500_000).unwrap(),
            DateTimeUtc::from_timestamp_micros(-86_400_000_001).unwrap(),
        ]))
    );
    assert_eq!(
        d.fields.get("s_datetime_array_empty"),
        Some(&DataValue::DateTimeArray(Vec::new()))
    );
    assert_eq!(
        d.fields.get("t_bool_array"),
        Some(&DataValue::BoolArray(vec![true, false, true]))
    );
    assert_eq!(
        d.fields.get("u_bool_array_empty"),
        Some(&DataValue::BoolArray(Vec::new()))
    );
    assert_eq!(
        d.fields.get("v_text_array"),
        Some(&DataValue::TextArray(vec![
            "hello world".to_string(),
            String::new(),
            "日本語のテキスト".to_string(),
        ]))
    );
    assert_eq!(
        d.fields.get("w_text_array_empty"),
        Some(&DataValue::TextArray(Vec::new()))
    );
}

/// a length header that overshoots the bytes left must be
/// rejected by `checked_capacity` up front, before any allocation.
#[test]
fn rejects_a_truncated_text_array() {
    let mut buf = Vec::new();
    buf.extend_from_slice(&1u64.to_le_bytes()); // doc id
    write_varint(&mut buf, 1); // field count
    write_varint(&mut buf, 1); // name length
    buf.extend_from_slice(b"t");
    buf.push(TAG_TEXT_ARRAY);
    write_varint(&mut buf, 64); // declares 64 elements ...
    buf.extend_from_slice(&[1, b'a']); // ... but only one 1-byte element

    let mut cursor = 0;
    let err = decode_document(&buf, &mut cursor).unwrap_err();
    assert!(err.message().contains("header declares"), "{err:?}");
}

/// unlike a bool array, a text element can be structurally
/// impossible — invalid UTF-8 must be a loud decode error.
#[test]
fn rejects_invalid_utf8_in_a_text_array_element() {
    let mut buf = Vec::new();
    buf.extend_from_slice(&1u64.to_le_bytes()); // doc id
    write_varint(&mut buf, 1); // field count
    write_varint(&mut buf, 1); // name length
    buf.extend_from_slice(b"t");
    buf.push(TAG_TEXT_ARRAY);
    write_varint(&mut buf, 1); // one element ...
    write_varint(&mut buf, 2); // ... of two bytes
    buf.extend_from_slice(&[0xff, 0xfe]); // not valid UTF-8

    let mut cursor = 0;
    let err = decode_document(&buf, &mut cursor).unwrap_err();
    assert!(err.message().contains("invalid utf-8"), "{err:?}");
}

/// tag 16 has no "impossible element" (every byte decodes as a
/// bool), so the loud-failure pin is a length header that overshoots the
/// bytes left — `checked_capacity` must reject it up front, before any
/// allocation, rather than the element loop merely running out of input.
#[test]
fn rejects_a_truncated_bool_array() {
    let mut buf = Vec::new();
    buf.extend_from_slice(&1u64.to_le_bytes()); // doc id
    write_varint(&mut buf, 1); // field count
    write_varint(&mut buf, 1); // name length
    buf.extend_from_slice(b"t");
    buf.push(TAG_BOOL_ARRAY);
    write_varint(&mut buf, 8); // declares 8 elements ...
    buf.extend_from_slice(&[1, 0]); // ... but only 2 bytes follow

    let mut cursor = 0;
    let err = decode_document(&buf, &mut cursor).unwrap_err();
    assert!(err.message().contains("header declares"), "{err:?}");
}

/// tag 15 stores micro-seconds, so sub-microsecond detail is
/// truncated (the scalar tag 5 keeps nanoseconds via RFC 3339). Pinned so
/// a change of encoding is a deliberate decision.
#[test]
fn datetime_array_truncates_sub_microsecond_precision() {
    let mut storage = Files::new();
    let precise = DateTimeUtc::from_timestamp(1_700_000_000, 123_456_789)
        .unwrap();
    let docs = vec![(1u64, doc(&[("t", DataValue::DateTimeArray(vec![precise]))]))];
    let documents = round_trip(&mut storage, "seg", &docs);
    assert_eq!(
        documents[&1].fields.get("t"),
        Some(&DataValue::DateTimeArray(vec![
            DateTimeUtc::from_timestamp(1_700_000_000, 123_456_000)
                .unwrap(),
        ]))
    );
}

/// a micro-second value outside chrono's range can only come from
/// corruption; it must be a loud decode error, never a silent epoch.
#[test]
fn rejects_a_corrupted_datetime_array_element() {
    let mut buf = Vec::new();
    buf.extend_from_slice(&1u64.to_le_bytes()); // doc id
    write_varint(&mut buf, 1); // field count
    write_varint(&mut buf, 1); // name length
    buf.extend_from_slice(b"t");
    buf.push(TAG_DATETIME_ARRAY);
    write_varint(&mut buf, 1); // element count
    buf.extend_from_slice(&i64::MAX.to_le_bytes());

    let mut cursor = 0;
    let err = decode_document(&buf, &mut cursor).unwrap_err();
    assert!(
        err.message().contains("DateTimeArray element out of range"),
        "{err:?}"
    );
}

#[test]
fn splits_into_multiple_chunks_at_the_target_size() {
    let mut storage = Files::new();
    // MAX_DOCS_PER_CHUNK=128, so 300 tiny docs alone force >= 3 chunks.
    let docs: Vec<(u64, AnalyzedDocument)> = (0..300)
        .map(|i| (i as u64, doc(&[("id", DataValue::Int64(i))])))
        .collect();

    let documents = round_trip(&mut storage, "seg", &docs);
    assert_eq!(documents.len(), 300);
    for i in 0..300u64 {
        assert_eq!(
            documents[&i].fields.get("id"),
            Some(&DataValue::Int64(i as i64))
        );
    }
    assert!(
        count_chunks(&storage, "seg") >= 3,
        "300 docs at MAX_DOCS_PER_CHUNK=128 must span at least 3 chunks"
    );
}

#[test]
fn a_document_larger_than_the_chunk_target_forms_its_own_chunk() {
    let mut storage = Files::new();
    let docs = vec![
        (
            1u64,
            // A fixed, generous size rather than deriving from
            // `CHUNK_TARGET_BYTES` — keeps this test's own data
            // construction safe (no giant allocation) even under a
            // mutation-check that inflates the constant.
            doc(&[("big", DataValue::Text("x".repeat(100_000)))]),
        ),
        (2u64, doc(&[("small", DataValue::Text("y".to_string()))])),
    ];

    let documents = round_trip(&mut storage, "seg", &docs);
    assert_eq!(documents.len(), 2);
    assert_eq!(
        count_chunks(&storage, "seg"),
        2,
        "an oversized document must be flushed as its own chunk, separate from the next"
    );
}

#[test]
fn an_empty_document_set_round_trips() {
    let mut storage = Files::new();
    let documents = round_trip(&mut storage, "seg", &[]);
    assert!(documents.is_empty());
}

#[test]
fn a_document_with_no_stored_fields_round_trips() {
    let mut storage = Files::new();
    let docs = vec![(1u64, AnalyzedDocument::new())];
    let documents = round_trip(&mut storage, "seg", &docs);
    assert!(documents[&1].fields.is_empty());
}

#[test]
fn rejects_a_foreign_magic() {
    let mut storage = Files::new();
    write_single_chunk_file(&mut storage, "seg", 0, 0, CODEC_RAW, 0, &[], 0);
    // Overwrite with a bad magic by writing a fresh file directly.
    let mut out = Vec::new();
    out.extend_from_slice(b"XXXX");
    out.extend_from_slice(&[VERSION_MAJOR, VERSION_MINOR]);
    write_varint(&mut out, 0);
    storage.insert("seg".to_string(), out);

    let err = load_docs_file(&storage, "seg").unwrap_err();
    let msg = err.message();
    assert!(msg.contains("SDOC"), "{msg}");
}

#[test]
fn rejects_a_future_major_version() {
    let mut storage = Files::new();
    let mut out = Vec::new();
    out.extend_from_slice(MAGIC);
    out.extend_from_slice(&[VERSION_MAJOR + 1, 0]);
    write_varint(&mut out, 0);
    storage.insert("seg".to_string(), out);

    let err = load_docs_file(&storage, "seg").unwrap_err();
    let msg = err.message();
            assert!(msg.contains("version"), "{msg}");
            assert!(msg.contains("rebuild"), "{msg}");
        
}

#[test]
fn rejects_a_chunk_whose_crc_does_not_match() {
    let mut storage = Files::new();
    let mut fields = FieldMap::new();
    fields.insert("title".to_string(), DataValue::Text("hello".to_string()));
    let mut payload = Vec::new();
    encode_document(&mut payload, 1, &fields);
    let bad_crc = crc32fast::hash(&payload) ^ 1;

    write_single_chunk_file(
        &mut storage,
        "seg",
        1,
        1,
        CODEC_RAW,
        payload.len() as u64,
        &payload,
        bad_crc,
    );

    let err = load_docs_file(&storage, "seg").unwrap_err();
    let msg = err.message();
    assert!(msg.contains("CRC"), "{msg}");
}

#[test]
fn rejects_a_truncated_file() {
    let mut storage = Files::new();
    let mut out = Vec::new();
    out.extend_from_slice(MAGIC);
    out.extend_from_slice(&[VERSION_MAJOR, VERSION_MINOR]);
    write_varint(&mut out, 1); // total_doc_count
    write_varint(&mut out, 1); // chunk_doc_count
    out.push(CODEC_RAW);
    write_varint(&mut out, 50); // uncompressed_size
    write_varint(&mut out, 50); // payload_size (claims 50 bytes)
    out.extend_from_slice(&0u32.to_le_bytes());
    out.extend_from_slice(&[0u8; 10]); // but only 10 bytes follow
    storage.insert("seg".to_string(), out);

    let err = load_docs_file(&storage, "seg").unwrap_err();
    let msg = err.message();
    assert!(msg.contains("corrupted"), "{msg}");
}

#[test]
fn rejects_a_chunk_payload_size_that_overruns_the_file() {
    let mut storage = Files::new();
    let mut out = Vec::new();
    out.extend_from_slice(MAGIC);
    out.extend_from_slice(&[VERSION_MAJOR, VERSION_MINOR]);
    write_varint(&mut out, 1);
    write_varint(&mut out, 1);
    out.push(CODEC_RAW);
    write_varint(&mut out, u64::MAX / 2);
    // A header-declared payload size far beyond anything this tiny file
    // could hold — must be rejected cleanly (no OOM allocation attempt).
    write_varint(&mut out, u64::MAX / 2);
    out.extend_from_slice(&0u32.to_le_bytes());
    storage.insert("seg".to_string(), out);

    let err = load_docs_file(&storage, "seg").unwrap_err();
    let msg = err.message();
    assert!(msg.contains("corrupted"), "{msg}");
}

#[test]
fn accepts_a_chunk_whose_uncompressed_size_exceeds_the_bytes_left_in_the_file() {
    // Regression test for a bounds-checking bug:
    // bounding `uncompressed_size` against remaining FILE bytes (rather
    // than against `payload_size * max expansion ratio`) would wrongly
    // reject every well-compressed chunk, since a legitimately
    // compressed chunk's declared uncompressed size is, by definition,
    // larger than its on-disk footprint.
    let mut storage = Files::new();
    let mut fields = FieldMap::new();
    fields.insert("body".to_string(), DataValue::Text("a".repeat(10_000)));
    let mut uncompressed = Vec::new();
    encode_document(&mut uncompressed, 1, &fields);

    let max_compressed = lz4_flex::block::get_maximum_output_size(uncompressed.len());
    let mut compressed = vec![0u8; max_compressed];
    let compressed_len = lz4_flex::compress_into(&uncompressed, &mut compressed).unwrap();
    compressed.truncate(compressed_len);
    assert!(
        compressed.len() < uncompressed.len(),
        "test setup: payload must actually compress for this test to be meaningful"
    );

    write_single_chunk_file(
        &mut storage,
        "seg",
        1,
        1,
        CODEC_LZ4,
        uncompressed.len() as u64,
        &compressed,
        crc32fast::hash(&compressed),
    );

    let documents = load_docs_file(&storage, "seg").unwrap();
    assert_eq!(documents.len(), 1);
    match documents[&1].fields.get("body") {
        Some(DataValue::Text(t)) => assert_eq!(t.len(), 10_000),
        other => panic!("expected Text field, got {other:?}"),
    }
}

#[test]
fn falls_back_to_raw_when_compression_does_not_help() {
    // Tests `flush_chunk`'s raw-fallback decision directly rather than
    // going through `encode_document` + a real document: an earlier
    // version of this test used a random `Bytes` field payload inside a
    // real document and flaked, because the document encoding's framing
    // bytes (notably a small doc_id's mostly-zero `u64` LE bytes) gave
    // LZ4 an easy match even though the field payload itself was random
    // — incompressibility of the *whole chunk* is what matters, and
    // that's simpler to guarantee directly.
    let mut storage = Files::new();
    let mut state = 0x9E3779B97F4A7C15u64;
    let uncompressed: Vec<u8> = (0..4096)
        .map(|_| {
            state ^= state << 13;
            state ^= state >> 7;
            state ^= state << 17;
            (state & 0xFF) as u8
        })
        .collect();

    let mut out = Vec::new();
    out.extend_from_slice(MAGIC);
    out.extend_from_slice(&[VERSION_MAJOR, VERSION_MINOR]);
    write_varint(&mut out, 0); // total_doc_count is irrelevant here
    StoredFieldsWriter::flush_chunk(&mut out, &uncompressed, 0).unwrap();
    storage.insert("seg".to_string(), out);

    assert_eq!(first_chunk_codec(&storage, "seg"), CODEC_RAW);
}

#[test]
fn non_contiguous_doc_ids_round_trip() {
    let mut storage = Files::new();
    let docs = vec![
        (10u64, doc(&[("n", DataValue::Text("ten".to_string()))])),
        (20u64, doc(&[("n", DataValue::Text("twenty".to_string()))])),
        (30u64, doc(&[("n", DataValue::Text("thirty".to_string()))])),
    ];

    let documents = round_trip(&mut storage, "seg", &docs);
    assert_eq!(documents.len(), 3);
    assert_eq!(
        documents[&10].fields.get("n"),
        Some(&DataValue::Text("ten".to_string()))
    );
    assert_eq!(
        documents[&20].fields.get("n"),
        Some(&DataValue::Text("twenty".to_string()))
    );
    assert_eq!(
        documents[&30].fields.get("n"),
        Some(&DataValue::Text("thirty".to_string()))
    );
}

fn one_field(tag: u8, payload: &[u8]) -> Vec<u8> {
    let mut buf = Vec::new();
    buf.extend_from_slice(&7u64.to_le_bytes());
    write_varint(&mut buf, 1);
    write_varint(&mut buf, 1);
    buf.push(b'f');
    buf.push(tag);
    buf.extend_from_slice(payload);
    buf
}

fn refusal(bytes: &[u8]) -> LaurusError {
    decode_document(bytes, &mut 0).unwrap_err()
}

#[test]
fn the_bytes_of_a_document_are_known() {
    let mut fields = FieldMap::new();
    fields.insert("b".to_string(), DataValue::Bool(true));
    fields.insert("a".to_string(), DataValue::Int64(-1));
    let mut buf = Vec::new();
    encode_document(&mut buf, 258, &fields);
    assert_eq!(
        buf,
        vec![
            2, 1, 0, 0, 0, 0, 0, 0, // the id
            2, // two fields
            1, b'a', 1, 255, 255, 255, 255, 255, 255, 255, 255, // a = -1
            1, b'b', 3, 1, // b = true
        ]
    );
    let mut cursor = 0;
    let (id, document) = decode_document(&buf, &mut cursor).unwrap();
    assert_eq!((id, cursor), (258, buf.len()));
    assert_eq!(document.get_field("a"), Some(&DataValue::Int64(-1)));
    assert_eq!(document.get_field("b"), Some(&DataValue::Bool(true)));
}

#[test]
fn documents_that_do_not_decode_are_refused() {
    assert_eq!(
        refusal(&one_field(99, &[])),
        LaurusError::UnknownTag { tag: 99 }
    );
    assert!(matches!(
        refusal(&one_field(1, &[0, 0, 0])),
        LaurusError::Truncated { .. }
    ));
    assert_eq!(
        refusal(&one_field(TAG_DATETIME, &[4, b'n', b'o', b'o', b'n'])),
        LaurusError::BadDateTime {
            date_time: DateTimeFault::TooShort
        }
    );
    assert!(matches!(
        refusal(&one_field(0, &[0x80; 12])),
        LaurusError::Varint { .. }
    ));
    assert!(matches!(
        refusal(&one_field(0, &[9, b'a'])),
        LaurusError::Overrun { declared: 9, available: 1, .. }
    ));
}

#[test]
fn a_document_behind_the_end_is_refused() {
    let mut fields = FieldMap::new();
    fields.insert("a".to_string(), DataValue::Int64(-1));
    let mut buf = Vec::new();
    encode_document(&mut buf, 5, &fields);
    for past in [buf.len(), buf.len() + 1, buf.len() + 100, usize::MAX] {
        let mut cursor = past;
        assert!(matches!(
            decode_document(&buf, &mut cursor).unwrap_err(),
            LaurusError::Truncated { .. }
        ));
        assert_eq!(cursor, past);
    }
}

#[test]
fn the_words_of_libraries_are_handed_on() {
    for broken in [&[0xffu8][..], &[0xc3], &[0xe2, 0x82], &[0xed, 0xa0, 0x80], b"ab\xf0\x9f\x98"] {
        let mut payload = vec![broken.len() as u8];
        payload.extend_from_slice(broken);
        let words = String::from_utf8(broken.to_vec()).unwrap_err();
        assert_eq!(
            refusal(&one_field(0, &payload)).message(),
            format!("stored Text field: invalid utf-8: {words}")
        );
    }
    for text in ["noon", "2024-13-01T00:00:00Z", "2024-01-01T00:00:00"] {
        let mut payload = vec![text.len() as u8];
        payload.extend_from_slice(text.as_bytes());
        let words = chrono::DateTime::parse_from_rfc3339(text).unwrap_err();
        assert_eq!(
            refusal(&one_field(TAG_DATETIME, &payload)).message(),
            format!("Failed to parse DateTime: {words}")
        );
    }
    let mut storage = Files::new();
    for block in [
        &[][..],
        &[0xf0],
        &[0x40, 1, 2],
        &[0x10, b'a', 0, 0],
        &[0x10, b'a', 9, 0],
        &[0x1f, b'a', 1, 0, 200],
        &[0x14, b'a', 1, 0, 0x10, b'b'],
    ] {
        let size = 20;
        let mut room = vec![0u8; size];
        if let Err(words) = lz4_flex::block::decompress_into(block, &mut room) {
            write_single_chunk_file(
                &mut storage,
                "block",
                1,
                1,
                CODEC_LZ4,
                size as u64,
                block,
                crc32fast::hash(block),
            );
            let err = load_docs_file(&storage, "block").unwrap_err();
            if !matches!(err, LaurusError::Expansion { .. }) {
                assert_eq!(
                    err.message(),
                    format!("stored-fields chunk: LZ4 decompression failed: {words}")
                );
            }
        }
    }
    assert_eq!(
        LaurusError::Compression.message(),
        format!(
            "stored-fields LZ4 compression failed: {}",
            lz4_flex::block::compress_into(&[1, 2, 3], &mut []).unwrap_err()
        )
    );
}

#[test]
fn a_part_with_a_changed_byte_is_refused() {
    for text in ["short".to_string(), "ab".repeat(400)] {
        let docs = vec![
            (1u64, doc(&[("t", DataValue::Text(text.clone()))])),
            (2u64, doc(&[("n", DataValue::Int64(8))])),
        ];
        let mut good = Vec::new();
        StoredFieldsWriter::write_to(&mut good, &docs).unwrap();
        let refused = |i: usize, x: u8| {
            let mut part = good.clone();
            part[i] = x;
            StoredFieldsReader::load(&part).unwrap_err()
        };
        for i in 0..4 {
            assert_eq!(refused(i, good[i] ^ 4), LaurusError::StoredFieldsMagic);
        }
        assert_eq!(
            refused(4, 9),
            LaurusError::StoredFieldsVersion {
                found: 9,
                supported: VERSION_MAJOR
            }
        );
        // The counts, the codec and the sizes stand before the checksum.
        let mut at = 6;
        read_varint(&good, &mut at);
        read_varint(&good, &mut at);
        at += 1;
        read_varint(&good, &mut at);
        let payload = read_varint(&good, &mut at) as usize;
        assert_eq!(at + 4 + payload, good.len());
        for i in at..good.len() {
            assert_eq!(refused(i, good[i] ^ 0x20), LaurusError::ChunkChecksum);
        }
    }
}

#[test]
fn files_that_do_not_unpack_are_refused() {
    let mut storage = Files::new();
    let mut fields = FieldMap::new();
    fields.insert("t".to_string(), DataValue::Text("x".repeat(200)));
    let mut plain = Vec::new();
    encode_document(&mut plain, 1, &fields);
    let packed = lz4_flex::compress(&plain);

    write_single_chunk_file(&mut storage, "codec", 1, 1, 9, plain.len() as u64, &plain, crc32fast::hash(&plain));
    assert_eq!(
        load_docs_file(&storage, "codec").unwrap_err(),
        LaurusError::UnknownCodec { codec: 9 }
    );

    let declared = plain.len() as u64 + 1;
    write_single_chunk_file(&mut storage, "size", 1, 1, CODEC_LZ4, declared, &packed, crc32fast::hash(&packed));
    assert_eq!(
        load_docs_file(&storage, "size").unwrap_err(),
        LaurusError::DecompressedSize { declared, got: plain.len() as u64 }
    );

    let noise = [0xffu8; 30];
    write_single_chunk_file(&mut storage, "noise", 1, 1, CODEC_LZ4, 100, &noise, crc32fast::hash(&noise));
    assert_eq!(
        load_docs_file(&storage, "noise").unwrap_err().message(),
        format!(
            "stored-fields chunk: LZ4 decompression failed: {}",
            lz4_flex::block::decompress(&noise, 100).unwrap_err()
        )
    );

    let huge = 255 * packed.len() as u64 + 1;
    write_single_chunk_file(&mut storage, "huge", 1, 1, CODEC_LZ4, huge, &packed, crc32fast::hash(&packed));
    assert_eq!(
        load_docs_file(&storage, "huge").unwrap_err(),
        LaurusError::Expansion { declared: huge, payload: packed.len() as u64 }
    );

    let mut twice = plain.clone();
    twice.extend_from_slice(&plain);
    write_single_chunk_file(&mut storage, "count", 1, 2, CODEC_RAW, twice.len() as u64, &twice, crc32fast::hash(&twice));
    assert_eq!(
        load_docs_file(&storage, "count").unwrap_err(),
        LaurusError::DocumentCount { declared: 1, decoded: 2 }
    );
}

#[test]
fn a_compressible_chunk_is_compressed() {
    let mut storage = Files::new();
    let docs = vec![(3u64, doc(&[("t", DataValue::Text("ab".repeat(5000)))]))];
    let documents = round_trip(&mut storage, "seg", &docs);
    assert_eq!(first_chunk_codec(&storage, "seg"), CODEC_LZ4);
    assert!(storage["seg"].len() < 1000);
    assert_eq!(
        documents[&3].get_field("t"),
        Some(&DataValue::Text("ab".repeat(5000)))
    );
}

#[test]
fn documents_are_written_in_the_order_of_their_ids() {
    let mut storage = Files::new();
    let shuffled = vec![
        (30u64, doc(&[("n", DataValue::Int64(3))])),
        (10u64, doc(&[("n", DataValue::Int64(1))])),
        (20u64, doc(&[("n", DataValue::Int64(2))])),
    ];
    let ordered = vec![
        (10u64, doc(&[("n", DataValue::Int64(1))])),
        (20u64, doc(&[("n", DataValue::Int64(2))])),
        (30u64, doc(&[("n", DataValue::Int64(3))])),
    ];
    round_trip(&mut storage, "a", &shuffled);
    round_trip(&mut storage, "b", &ordered);
    assert_eq!(storage["a"], storage["b"]);
}

#[test]
fn a_single_instant_keeps_its_nanoseconds() {
    let mut storage = Files::new();
    let precise = DateTimeUtc::from_timestamp(1_700_000_000, 123_456_789).unwrap();
    let docs = vec![(1u64, doc(&[("t", DataValue::DateTime(precise))]))];
    let documents = round_trip(&mut storage, "seg", &docs);
    assert_eq!(
        documents[&1].get_field("t"),
        Some(&DataValue::DateTime(precise))
    );
}

#[test]
fn a_failed_read_leaves_the_cursor_where_it_was() {
    let bytes = [1u8, 2, 3, 4, 5];
    let mut cursor = 1;
    assert_eq!(read_raw(&bytes, &mut cursor, 4, "part").unwrap(), &[2, 3, 4, 5]);
    assert_eq!(cursor, 5);
    let truncated = LaurusError::Truncated { what: "part" };
    for start in [2usize, 5, 6, usize::MAX] {
        let mut cursor = start;
        assert_eq!(read_u64_le(&bytes, &mut cursor, "part").unwrap_err(), truncated);
        assert_eq!(read_u32_le(&bytes, &mut cursor, "part").unwrap_err(), truncated);
        assert_eq!(read_raw(&bytes, &mut cursor, 4, "part").unwrap_err(), truncated);
        assert_eq!(cursor, start);
    }
    let mut cursor = 7;
    assert_eq!(read_u8(&bytes, &mut cursor, "part").unwrap_err(), truncated);
    assert_eq!(cursor, 7);
}
