//! Columns of values, sets of documents, and instants.

use std::cell::Cell;
use std::sync::Arc;

use chrono::{TimeZone, Utc};

use roaring::RoaringTreemap;

use laurus::data::{DataValue, DateTimeUtc};
use laurus::datetime::{datetime_to_point, parse_datetime_literal};
use laurus::deletion::DeletionBitmap;
use laurus::doc_id_set::{load_segment_doc_ids, read_doc_id_set, write_doc_id_set};
use laurus::doc_values::{DocValuesReader, DocValuesWriter, FieldDocValues};
use laurus::error::LaurusError;
use laurus::names::FieldMap;
use laurus::numbers::{Forms, Number};
use laurus::segment::{ManagedSegmentInfo, Membership, SegmentInfo};
use laurus::stored_fields::{decode_document, encode_document};

fn bits(v: f64) -> u64 {
    v.to_bits()
}

/// The values of a column, one record after the other.
fn encode(values: &Vec<(u64, DataValue)>) -> Result<Vec<u8>, LaurusError> {
    let mut out = Vec::new();
    for (doc_id, value) in values {
        let mut record = FieldMap::new();
        record.insert("v".to_string(), value.clone());
        encode_document(&mut out, *doc_id, &record);
    }
    Ok(out)
}

fn decode(bytes: &[u8]) -> Result<Vec<(u64, DataValue)>, LaurusError> {
    let mut out = Vec::new();
    let mut cursor = 0;
    while cursor < bytes.len() {
        let (doc_id, record) = decode_document(bytes, &mut cursor)?;
        out.push((doc_id, record.get_field("v").unwrap().clone()));
    }
    Ok(out)
}

#[test]
fn test_field_doc_values() {
    let mut dv = FieldDocValues::new("test_field".to_string());

    // Set some values
    dv.set(0, DataValue::Int64(100));
    dv.set(1, DataValue::Text("hello".to_string()));
    dv.set(5, DataValue::Float64(bits(3.15)));

    // Get values
    assert_eq!(dv.get(0), Some(&DataValue::Int64(100)));
    assert_eq!(dv.get(1), Some(&DataValue::Text("hello".to_string())));
    assert_eq!(dv.get(2), None);
    assert_eq!(dv.get(5), Some(&DataValue::Float64(bits(3.15))));
    assert_eq!(dv.len(), 3);
    assert!(!dv.is_empty());
}

#[test]
fn test_doc_values_write_read() {
    // Write DocValues
    let mut writer = DocValuesWriter::new("segment_0".to_string());
    writer.add_value(0, "year", DataValue::Int64(2023));
    writer.add_value(1, "year", DataValue::Int64(2024));
    writer.add_value(0, "rating", DataValue::Float64(bits(4.5)));
    writer.add_value(1, "rating", DataValue::Float64(bits(5.0)));
    let (name, bytes) = writer.write(&encode).unwrap();
    assert_eq!(name, "segment_0.dv");

    // Read DocValues
    let reader = DocValuesReader::load(Some(bytes)).unwrap();
    assert!(reader.has_field("year"));
    assert!(reader.has_field("rating"));
    assert!(!reader.has_field("unknown"));

    assert_eq!(
        reader.get_value("year", 0, &decode).unwrap(),
        Some(DataValue::Int64(2023))
    );
    assert_eq!(
        reader.get_value("year", 1, &decode).unwrap(),
        Some(DataValue::Int64(2024))
    );
    assert_eq!(
        reader.get_value("rating", 0, &decode).unwrap(),
        Some(DataValue::Float64(bits(4.5)))
    );
    assert_eq!(
        reader.get_value("rating", 1, &decode).unwrap(),
        Some(DataValue::Float64(bits(5.0)))
    );
}

#[test]
fn field_names_and_has_field_are_directory_only_and_need_no_materialization() {
    let mut writer = DocValuesWriter::new("segment_dir_only".to_string());
    writer.add_value(0, "a", DataValue::Int64(1));
    writer.add_value(0, "z", DataValue::Int64(2));
    let (_, bytes) = writer.write(&encode).unwrap();

    let reader = DocValuesReader::load(Some(bytes)).unwrap();
    assert_eq!(reader.field_names(), vec!["a".to_string(), "z".to_string()]);
    assert!(reader.has_field("a"));
    assert!(reader.has_field("z"));
    assert!(!reader.has_field("missing"));
}

#[test]
fn get_value_on_a_missing_field_is_ok_none_not_an_error() {
    let mut writer = DocValuesWriter::new("segment_missing_field".to_string());
    writer.add_value(0, "present", DataValue::Int64(1));
    let (_, bytes) = writer.write(&encode).unwrap();

    let reader = DocValuesReader::load(Some(bytes)).unwrap();
    assert_eq!(reader.get_value("absent", 0, &decode).unwrap(), None);
    assert_eq!(reader.get_value("present", 7, &decode).unwrap(), None);
}

#[test]
fn written_bytes_are_deterministic_regardless_of_insertion_order() {
    // Same (doc_id, field, value) triples fed in two different orders must produce
    // byte-identical files.
    let mut forward = DocValuesWriter::new("fwd".to_string());
    forward.add_value(0, "alpha", DataValue::Int64(1));
    forward.add_value(1, "alpha", DataValue::Int64(2));
    forward.add_value(0, "beta", DataValue::Int64(3));
    forward.add_value(1, "beta", DataValue::Int64(4));

    let mut reverse = DocValuesWriter::new("rev".to_string());
    reverse.add_value(1, "beta", DataValue::Int64(4));
    reverse.add_value(0, "beta", DataValue::Int64(3));
    reverse.add_value(1, "alpha", DataValue::Int64(2));
    reverse.add_value(0, "alpha", DataValue::Int64(1));

    let forward_bytes = forward.write_to_output(&encode).unwrap();
    let reverse_bytes = reverse.write_to_output(&encode).unwrap();

    assert_eq!(forward_bytes, reverse_bytes);
}

#[test]
fn only_the_last_value_of_a_document_is_written() {
    let mut once = DocValuesWriter::new("once".to_string());
    once.add_value(4, "f", DataValue::Int64(2));
    once.add_value(5, "f", DataValue::Int64(3));
    let mut twice = DocValuesWriter::new("twice".to_string());
    twice.add_value(5, "f", DataValue::Int64(9));
    twice.add_value(4, "f", DataValue::Int64(9));
    twice.add_value(5, "f", DataValue::Int64(3));
    twice.add_value(4, "f", DataValue::Int64(2));
    assert_eq!(
        once.write_to_output(&encode).unwrap(),
        twice.write_to_output(&encode).unwrap()
    );
}

#[test]
fn load_rejects_a_num_fields_the_file_cannot_back() {
    // A flipped `num_fields` byte must surface a clean "corrupted" error before any
    // per-field allocation.
    let mut bytes = Vec::new();
    bytes.extend_from_slice(b"DVFF");
    bytes.extend_from_slice(&[1u8, 0u8]);
    // Declare an impossible number of fields for a file this short.
    bytes.extend_from_slice(&u32::MAX.to_le_bytes());

    let err = DocValuesReader::load(Some(bytes)).unwrap_err();
    let msg = err.message();
    assert!(
        msg.contains("corrupted"),
        "expected a corruption message, got: {msg}"
    );
}

#[test]
fn load_rejects_a_field_data_len_the_file_cannot_back() {
    // A valid, small `num_fields` (1) paired with a field whose declared payload length
    // exceeds what remains in the file must also be rejected as corruption.
    let mut bytes = Vec::new();
    bytes.extend_from_slice(b"DVFF");
    bytes.extend_from_slice(&[1u8, 0u8]);
    bytes.extend_from_slice(&1u32.to_le_bytes()); // num_fields = 1
    let name = b"f";
    bytes.extend_from_slice(&(name.len() as u32).to_le_bytes());
    bytes.extend_from_slice(name);
    bytes.extend_from_slice(&1u64.to_le_bytes()); // num_values (unused)
    // Declare a payload far larger than any bytes that follow.
    bytes.extend_from_slice(&(1u64 << 40).to_le_bytes());

    let err = DocValuesReader::load(Some(bytes)).unwrap_err();
    let msg = err.message();
    assert!(
        msg.contains("corrupted"),
        "expected a corruption message, got: {msg}"
    );
}

/// Querying one field must not read another field's payload.
#[test]
fn materializing_one_field_does_not_read_another_fields_payload() {
    let bytes_read = Cell::new(0u64);
    let counted = |bytes: &[u8]| {
        bytes_read.set(bytes_read.get() + bytes.len() as u64);
        decode(bytes)
    };

    let huge_text: String = "x".repeat(1_000_000);
    let mut writer = DocValuesWriter::new("segment_lazy".to_string());
    writer.add_value(0, "small", DataValue::Int64(42));
    writer.add_value(0, "huge", DataValue::Text(huge_text));
    let (_, bytes) = writer.write(&encode).unwrap();

    let reader = DocValuesReader::load(Some(bytes)).unwrap();
    assert!(bytes_read.get() < 1_000);

    let value = reader.get_value("small", 0, &counted).unwrap();
    assert_eq!(value, Some(DataValue::Int64(42)));
    let bytes_for_small_field = bytes_read.get();
    assert!(
        bytes_for_small_field < 1_000,
        "materializing the small field read {bytes_for_small_field} bytes -- \
         the huge field's ~1MB payload must not have been touched"
    );

    // The huge field's payload is read once it is actually requested
    // -- laziness defers the cost, it does not eliminate it.
    let huge_value = reader.get_value("huge", 0, &counted).unwrap();
    assert!(matches!(huge_value, Some(DataValue::Text(_))));
    let bytes_for_huge_field = bytes_read.get() - bytes_for_small_field;
    assert!(
        bytes_for_huge_field > 500_000,
        "materializing the huge field only read {bytes_for_huge_field} bytes -- \
         expected roughly its ~1MB payload"
    );
}

#[test]
fn columns_that_do_not_load_are_refused() {
    let mut writer = DocValuesWriter::new("s".to_string());
    writer.add_value(3, "f", DataValue::Int64(9));
    let good = writer.write_to_output(&encode).unwrap();
    assert_eq!(&good[..10], &[b'D', b'V', b'F', b'F', 1, 0, 1, 0, 0, 0]);

    let mut magic = good.clone();
    magic[0] = b'X';
    assert!(matches!(
        DocValuesReader::load(Some(magic)).unwrap_err(),
        LaurusError::DocValuesMagic
    ));
    let mut version = good.clone();
    version[4] = 2;
    assert!(matches!(
        DocValuesReader::load(Some(version)).unwrap_err(),
        LaurusError::DocValuesVersion { major: 2, minor: 0 }
    ));
    let mut name = good.clone();
    name[14] = 0xff;
    assert!(matches!(
        DocValuesReader::load(Some(name)).unwrap_err(),
        LaurusError::FieldName { .. }
    ));
    for broken in [&[0xffu8][..], &[0xc3], &[0xe2, 0x82], &[0xed, 0xa0, 0x80], b"ab\xf0\x9f\x98"] {
        let mut part = good[..10].to_vec();
        part.extend_from_slice(&(broken.len() as u32).to_le_bytes());
        part.extend_from_slice(broken);
        part.extend_from_slice(&[0; 16]);
        let words = String::from_utf8(broken.to_vec()).unwrap_err();
        assert_eq!(
            DocValuesReader::load(Some(part)).unwrap_err().message(),
            format!("Invalid field name: {words}")
        );
    }
    let failing = |_: &Vec<(u64, DataValue)>| -> Result<Vec<u8>, LaurusError> {
        Err(LaurusError::ColumnEncoding {
            words: "no room".to_string(),
        })
    };
    assert_eq!(
        writer.write_to_output(&failing).unwrap_err().message(),
        "Failed to serialize DocValues: no room"
    );
    let spoiled = |_: &[u8]| -> Result<Vec<(u64, DataValue)>, LaurusError> {
        Err(LaurusError::ColumnDecoding {
            words: "out of bounds".to_string(),
        })
    };
    assert_eq!(
        DocValuesReader::load(Some(good))
            .unwrap()
            .get_value("f", 3, &spoiled)
            .unwrap_err()
            .message(),
        "Failed to deserialize DocValues: out of bounds"
    );
    assert!(DocValuesReader::load(None).unwrap().field_names().is_empty());
}

// ---------------------------------------------------------------------------
// Sets of documents
// ---------------------------------------------------------------------------

#[test]
fn round_trips_a_sparse_set() {
    let ids = [0u64, 2, 3, 10, 1 << 33];
    let part = write_doc_id_set(&ids).unwrap();

    let set = read_doc_id_set(Some(&part), "seg").unwrap().unwrap();
    assert_eq!(set.iter().collect::<Vec<_>>(), ids);
    assert_eq!(set.iter().collect::<Vec<u64>>(), ids);
}

#[test]
fn a_missing_part_reads_as_none() {
    assert!(read_doc_id_set(None, "seg").unwrap().is_none());
}

#[test]
fn rejects_unsorted_ids() {
    assert!(write_doc_id_set(&[3, 1]).is_err());
    assert_eq!(
        write_doc_id_set(&[3, 3]).unwrap_err(),
        LaurusError::UnsortedIds { valid_until: 1 }
    );
    let ids = [1u64, 4, 9, 9, 10];
    let refused = RoaringTreemap::from_sorted_iter(ids.iter().copied()).unwrap_err();
    assert_eq!(
        write_doc_id_set(&ids).unwrap_err().message(),
        format!("segment doc ids must be sorted and deduplicated: {refused}")
    );
}

/// A flipped payload byte fails the checksum instead of decoding into a wrong set —
/// trusting a wrong set would skip a real deletion.
#[test]
fn rejects_a_corrupted_payload() {
    let mut bytes = write_doc_id_set(&[1, 2, 3]).unwrap();
    // Past magic (4) + version (2) + length varint (1): inside the payload.
    bytes[8] ^= 0xFF;

    let err = read_doc_id_set(Some(&bytes), "seg").unwrap_err();
    assert!(err.message().contains("checksum mismatch"), "{err:?}");
    assert_eq!(
        err.message(),
        "seg.ids: checksum mismatch — the part is corrupted"
    );
}

#[test]
fn sets_with_other_heads_are_refused() {
    let good = write_doc_id_set(&[1, 2, 3]).unwrap();
    let mut magic = good.clone();
    magic[0] ^= 1;
    assert_eq!(
        read_doc_id_set(Some(&magic), "seg").unwrap_err().message(),
        "seg.ids: bad magic 0x53444952"
    );
    let mut version = good.clone();
    version[4] = 7;
    assert_eq!(
        read_doc_id_set(Some(&version), "seg").unwrap_err(),
        LaurusError::IdSetVersion {
            segment_id: "seg".to_string(),
            id_set_version: 7
        }
    );
    assert_eq!(
        read_doc_id_set(Some(&version), "seg").unwrap_err().message(),
        "seg.ids: unsupported version 7"
    );
    // A payload that is no set, with the checksum that it has.
    let payload = [9u8, 9, 9];
    let mut part = good[..6].to_vec();
    part.push(payload.len() as u8);
    part.extend_from_slice(&payload);
    part.extend_from_slice(&crc32fast::hash(&payload).to_le_bytes());
    let told = RoaringTreemap::deserialize_from(&payload[..]).unwrap_err();
    assert_eq!(
        load_segment_doc_ids(Some(&part), "seg", None)
            .unwrap_err()
            .message(),
        format!("seg.ids: failed to decode the doc-id set: {told}")
    );
    assert_eq!(
        read_doc_id_set(Some(&good[..5]), "seg").unwrap_err().message(),
        "segment doc-id set: truncated"
    );
    // Without a part, what was recorded stands.
    let recorded = read_doc_id_set(Some(&good), "seg").unwrap();
    let loaded = load_segment_doc_ids(None, "seg", recorded).unwrap().unwrap();
    assert_eq!(loaded.iter().collect::<Vec<u64>>(), vec![1, 2, 3]);
}

#[test]
fn a_segment_knows_what_it_holds() {
    assert!(matches!(
        Membership::from_shape(5, 9, 0),
        Some(Membership::Empty)
    ));
    assert!(matches!(
        Membership::from_shape(5, 9, 5),
        Some(Membership::Range)
    ));
    assert!(Membership::from_shape(5, 9, 3).is_none());

    let set = read_doc_id_set(Some(&write_doc_id_set(&[5, 7, 9]).unwrap()), "seg")
        .unwrap()
        .unwrap();
    let exactly = Membership::from_loaded(5, 9, 3, Ok(Some(set)));
    assert_eq!(exactly.holds(7), Some(true));
    assert_eq!(exactly.holds(6), Some(false));
    assert_eq!(Membership::Range.holds(6), Some(true));
    assert_eq!(Membership::Unknown.holds(6), None);

    let marked = DeletionBitmap::from_sorted(&[6, 7, 8], 3).unwrap();
    assert!(marked.is_deleted(7));
    assert_eq!(exactly.held_deletions(&marked, 5, 9, 3), 1);
    assert_eq!(Membership::Range.held_deletions(&marked, 5, 9, 5), 3);
    assert_eq!(Membership::Empty.held_deletions(&marked, 5, 9, 0), 0);
    // Two of the five ids of the range are not held: at least one deletion is real.
    assert_eq!(Membership::Unknown.held_deletions(&marked, 5, 9, 3), 1);
    // Without gaps in the range every mark is real.
    assert_eq!(Membership::Unknown.held_deletions(&marked, 5, 9, 5), 3);

    // A set that does not agree with the segment tells nothing.
    let other = read_doc_id_set(Some(&write_doc_id_set(&[5, 7]).unwrap()), "seg")
        .unwrap()
        .unwrap();
    assert!(matches!(
        Membership::from_loaded(5, 9, 3, Ok(Some(other))),
        Membership::Unknown
    ));
    assert!(matches!(
        Membership::from_loaded(5, 9, 3, Err(LaurusError::ReaderClosed)),
        Membership::Unknown
    ));
}

#[test]
fn a_new_segment_starts_with_its_documents() {
    let info = SegmentInfo {
        segment_id: "s".to_string(),
        doc_count: 10,
        min_doc_id: 0,
        max_doc_id: 9,
        generation: 4,
        has_deletions: true,
        deleted_count: Some(3),
        shard_id: 2,
    };
    let mut managed = ManagedSegmentInfo::created_at(info.clone(), 77);
    assert_eq!(managed.segment_info, info);
    assert_eq!((managed.created_at, managed.last_modified), (77, 77));
    assert_eq!(managed.effective_doc_count(), 10);
    managed.deleted_count = 4;
    assert_eq!(managed.effective_doc_count(), 6);
    managed.deleted_count = 40;
    assert_eq!(managed.effective_doc_count(), 0);
    let now = ManagedSegmentInfo::new(info);
    assert!(now.created_at > 1_600_000_000);
    assert_eq!(now.created_at, now.last_modified);
}

#[test]
fn shared_sets_are_counted() {
    let set = read_doc_id_set(Some(&write_doc_id_set(&[1, 2, 3, 9]).unwrap()), "seg")
        .unwrap()
        .unwrap();
    let shared = Arc::new(set);
    let marked = DeletionBitmap::from_sorted(&[2, 3, 4], 10).unwrap();
    assert_eq!(marked.deleted_count_in(&shared), 2);
    assert_eq!(marked.deleted_in_range(3, 9), 2);
    assert_eq!(marked.live_count(), 7);
    assert_eq!(
        DeletionBitmap::from_sorted(&[2, 1], 10).err(),
        Some(LaurusError::UnsortedIds { valid_until: 1 })
    );
}

// ---------------------------------------------------------------------------
// Instants
// ---------------------------------------------------------------------------

fn forms(n: Number) -> Forms {
    let v = match n {
        Number::Integer { value } => value as f64,
        Number::Float { bits } => f64::from_bits(bits),
        Number::Micros { micros } => micros as f64 / 1_000_000.0,
    };
    Forms {
        bits: v.to_bits(),
        narrow: (v as f32).to_bits(),
        integer: v as i64,
        text: v.to_string(),
    }
}

fn instant(secs: i64, nanos: u32) -> DateTimeUtc {
    DateTimeUtc::from_timestamp(secs, nanos).unwrap()
}

fn point(dt: &DateTimeUtc) -> f64 {
    f64::from_bits(datetime_to_point(dt, &forms))
}

fn at(year: i32, month: u32, day: u32, hour: u32, minute: u32, second: u32) -> DateTimeUtc {
    let t = Utc
        .with_ymd_and_hms(year, month, day, hour, minute, second)
        .unwrap();
    instant(t.timestamp(), 0)
}

#[test]
fn datetime_to_point_is_exact_for_whole_seconds() {
    for secs in [
        0i64,
        1_500_000_000,
        1_600_000_000,
        1_700_000_000,
        4_102_444_800,
    ] {
        let dt = instant(secs, 0);
        assert_eq!(point(&dt).to_bits(), (secs as f64).to_bits());
    }
}

#[test]
fn datetime_to_point_matches_micros_precision() {
    let base = instant(1_700_000_000, 0);
    let plus_one_micro = instant(1_700_000_000, 1_000);
    let plus_half = instant(1_700_000_000, 500_000_000);
    assert!(point(&base) < point(&plus_one_micro));
    assert!(point(&plus_one_micro) < point(&plus_half));
    assert_eq!(point(&plus_half), 1_700_000_000.5);
    // Sub-microsecond detail is not persisted, so it must not create a
    // point the stored value cannot reproduce.
    let plus_nanos = instant(1_700_000_000, 999);
    assert_eq!(point(&plus_nanos), point(&base));
}

#[test]
fn parses_rfc3339_with_offset_to_utc() {
    let dt = parse_datetime_literal("2024-01-01T09:00:00+09:00").unwrap();
    assert_eq!(dt, at(2024, 1, 1, 0, 0, 0));
    let dt = parse_datetime_literal("2024-01-01T00:00:00.25Z").unwrap();
    assert_eq!(dt.parts().1 / 1_000_000, 250);
    // Surrounding whitespace is tolerated.
    assert!(parse_datetime_literal(" 2024-01-01T00:00:00Z ").is_some());
}

#[test]
fn parses_naive_datetime_as_utc() {
    let dt = parse_datetime_literal("2024-06-15T12:34:56").unwrap();
    assert_eq!(dt, at(2024, 6, 15, 12, 34, 56));
    let dt = parse_datetime_literal("2024-06-15T12:34:56.5").unwrap();
    assert_eq!(dt.parts().1 / 1_000_000, 500);
}

#[test]
fn parses_date_only_as_midnight_utc() {
    let dt = parse_datetime_literal("2024-12-31").unwrap();
    assert_eq!(dt, at(2024, 12, 31, 0, 0, 0));
}

#[test]
fn rejects_numbers_star_and_garbage() {
    for s in [
        "*",
        "",
        "2024",
        "1700000000",
        "1.5",
        "yesterday",
        "2024-13-01",
        "2024-01-01 00:00:00",
        "abc",
    ] {
        assert!(parse_datetime_literal(s).is_none(), "{s:?} must not parse");
    }
}

#[test]
fn instants_have_a_range() {
    let micros = 1_700_000_000_123_456i64;
    let dt = DateTimeUtc::from_timestamp_micros(micros).unwrap();
    assert_eq!(dt.timestamp_micros(), micros);
    assert_eq!(dt.parts(), (1_700_000_000, 123_456_000));
    assert!(DateTimeUtc::from_timestamp_micros(i64::MAX).is_none());
    assert!(DateTimeUtc::from_timestamp(0, 2_000_000_000).is_none());
    assert!(DateTimeUtc::from_timestamp(i64::MAX, 0).is_none());
}
