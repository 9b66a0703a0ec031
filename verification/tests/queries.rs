//! What a query does by itself, and errors in words.

use laurus::error::LaurusError;
use laurus::names::FieldMap;
use laurus::query::{HighlightTerm, Name, Query};

/// A query of one field.
#[derive(Debug, PartialEq)]
struct Leaf {
    field: Option<String>,
    boost: u32,
}

impl Query for Leaf {
    fn target(&self) -> Option<Name> {
        unreachable!("ghost")
    }

    fn weight(&self) -> u32 {
        unreachable!("ghost")
    }

    fn boost(&self) -> u32 {
        self.boost
    }

    fn set_boost(&mut self, boost: u32) {
        self.boost = boost;
    }

    fn description(&self) -> String {
        format!("leaf of {:?}", self.field)
    }

    fn field(&self) -> Option<&str> {
        self.field.as_deref()
    }
}

fn multiply(a: u32, b: u32) -> u32 {
    (f32::from_bits(a) * f32::from_bits(b)).to_bits()
}

fn leaf(field: &str) -> Leaf {
    Leaf {
        field: Some(field.to_string()),
        boost: 2.0f32.to_bits(),
    }
}

#[test]
fn a_query_tells_its_field() {
    let mut refs = FieldMap::new();
    refs.insert("title".to_string(), ());
    leaf("price").collect_field_refs(&mut refs);
    leaf("price").collect_field_refs(&mut refs);
    assert_eq!(refs.len(), 2);
    assert!(refs.contains_key("price"));
    assert!(refs.contains_key("title"));

    let none = Leaf {
        field: None,
        boost: 0,
    };
    none.collect_field_refs(&mut refs);
    assert_eq!(refs.len(), 2);
}

#[test]
fn a_boost_reaches_the_field_that_it_is_for() {
    let mut boosts = FieldMap::new();
    boosts.insert("price".to_string(), 3.0f32.to_bits());
    let mut query = leaf("price");
    query.apply_field_boosts(&boosts, &multiply);
    assert_eq!(f32::from_bits(query.boost()), 6.0);

    let mut other = leaf("title");
    other.apply_field_boosts(&boosts, &multiply);
    assert_eq!(other, leaf("title"));
}

#[test]
fn a_query_without_terms_highlights_nothing() {
    let mut out = vec![HighlightTerm::Exact("a".to_string())];
    leaf("price").collect_highlight_terms(None, &mut out);
    assert_eq!(out, vec![HighlightTerm::Exact("a".to_string())]);
    assert_eq!(leaf("price").cache_key(), None);
}

#[test]
fn errors_are_told_in_words() {
    assert_eq!(
        LaurusError::DateTimeRange { micros: -5 }.message(),
        "stored DateTimeArray element out of range: -5 µs"
    );
    assert_eq!(
        LaurusError::DocumentCount {
            declared: 10,
            decoded: 7
        }
        .message(),
        "stored-fields: header declares 10 documents but chunks totalled 7 — segment is corrupted"
    );
    assert_eq!(
        LaurusError::UnknownCodec { codec: 0 }.message(),
        "stored-fields chunk: unknown codec 0"
    );
    assert_eq!(
        LaurusError::StoredFieldsMagic.message(),
        "Unsupported stored-fields format (expected SDOC). Pre-release format changes do not \
         support older revisions; rebuild the index."
    );
    assert_eq!(
        LaurusError::StoredFieldsVersion {
            found: 2,
            supported: 1
        }
        .message(),
        "Unsupported stored-fields version: 2 (expected 1). Pre-release format changes do not \
         support older revisions; rebuild the index."
    );
    assert_eq!(
        LaurusError::ChunkChecksum.message(),
        "stored-fields chunk: CRC-32 mismatch — segment is corrupted"
    );
    assert_eq!(
        LaurusError::DocValuesMagic.message(),
        "Invalid DocValues file format"
    );
    assert_eq!(
        LaurusError::DocValuesVersion { major: 2, minor: 7 }.message(),
        "Unsupported DocValues version: 2.7"
    );
    assert_eq!(
        LaurusError::BkdMagic {
            bkd_magic: 0x0a44_4b42
        }
        .message(),
        "Invalid BKD magic: a444b42"
    );
    assert_eq!(
        LaurusError::BkdVersion { version: 9 }.message(),
        "Unsupported BKD version: 9 (expected 4). Pre-release format changes do not support \
         older revisions; rebuild the index."
    );
    assert_eq!(
        LaurusError::IdSetMagic {
            segment_id: "s1".to_string(),
            id_set_magic: 0xbe
        }
        .message(),
        "s1.ids: bad magic 0x000000be"
    );
    assert_eq!(
        LaurusError::PointBufferSize {
            doc_ids: 3,
            dims: 2,
            expected: 6,
            got: 5
        }
        .message(),
        "Point buffer size mismatch: expected 3 doc_ids * 2 dims = 6 f64s, got 5"
    );
}
