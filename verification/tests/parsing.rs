//! Parsing documents into terms, points, lengths and stored values.

use laurus::analysis::{Analyzer, Characters, Token, Tokens};
use laurus::data::{DataValue, DateTimeUtc, Document, GeoPoint};
use laurus::error::LaurusError;
use laurus::field::{BytesOption, FieldOption, GeoOption, IntegerOption, TextOption};
use laurus::names::FieldMap;
use laurus::numbers::{Forms, Number};
use laurus::parser::{tokens_to_analyzed_terms, DocumentParser};

fn forms(n: Number) -> Forms {
    let v = match n {
        Number::Integer { value } => value as f64,
        Number::Float { bits } => f64::from_bits(bits),
        Number::Micros { micros } => micros as f64 / 1_000_000.0,
    };
    Forms {
        bits: v.to_bits(),
        narrow: (v as f32).to_bits(),
        integer: v as i64,
        text: v.to_string(),
    }
}

fn token(text: &str, position: usize, start_offset: usize) -> Token {
    Token {
        text: text.to_string(),
        position,
        start_offset,
        end_offset: start_offset + text.len(),
    }
}

/// Divides a text at its spaces and folds it to lower case.
struct Standard;

impl Analyzer for Standard {
    fn tokens(&self, _: Characters, _: Characters) -> Tokens {
        unreachable!("ghost")
    }

    fn analyze_field(&self, _field: &str, text: &str) -> Result<Vec<Token>, LaurusError> {
        let mut out = Vec::new();
        let mut at = 0;
        for word in text.split(' ') {
            if !word.is_empty() {
                out.push(token(&word.to_lowercase(), out.len(), at));
            }
            at += word.len() + 1;
        }
        Ok(out)
    }
}

/// Takes the whole text of one field as a token.
struct KeywordFor(&'static str);

impl Analyzer for KeywordFor {
    fn tokens(&self, _: Characters, _: Characters) -> Tokens {
        unreachable!("ghost")
    }

    fn analyze_field(&self, field: &str, text: &str) -> Result<Vec<Token>, LaurusError> {
        if field == self.0 {
            Ok(vec![token(text, 0, 0)])
        } else {
            Standard.analyze_field(field, text)
        }
    }
}

/// Refuses every text.
struct Refusing;

impl Analyzer for Refusing {
    fn tokens(&self, _: Characters, _: Characters) -> Tokens {
        unreachable!("ghost")
    }

    fn analyze_field(&self, _field: &str, _text: &str) -> Result<Vec<Token>, LaurusError> {
        Err(LaurusError::FieldSize)
    }
}

struct Builder {
    doc: Document,
}

impl Builder {
    fn new() -> Builder {
        Builder {
            doc: Document::new(),
        }
    }

    fn add(mut self, name: &str, value: DataValue) -> Builder {
        self.doc.insert(name.to_string(), value);
        self
    }

    fn add_text(self, name: &str, text: &str) -> Builder {
        self.add(name, DataValue::Text(text.to_string()))
    }

    fn add_integer(self, name: &str, value: i64) -> Builder {
        self.add(name, DataValue::Int64(value))
    }

    fn add_float(self, name: &str, value: f64) -> Builder {
        self.add(name, DataValue::Float64(value.to_bits()))
    }

    fn add_boolean(self, name: &str, value: bool) -> Builder {
        self.add(name, DataValue::Bool(value))
    }

    fn add_bytes(self, name: &str, value: Vec<u8>) -> Builder {
        self.add(name, DataValue::Bytes(value, None))
    }

    fn build(self) -> Document {
        self.doc
    }
}

#[test]
fn test_basic_parsing() {
    let parser = DocumentParser::new(Standard);

    let doc = Builder::new()
        .add_text("title", "Rust Programming")
        .add_text("body", "Learn Rust")
        .build();

    let analyzed = parser.parse(doc, &forms).unwrap();

    assert!(analyzed.field_terms.contains_key("title"));
    assert!(analyzed.field_terms.contains_key("body"));
}

#[test]
fn test_per_field_analyzer() {
    let parser = DocumentParser::new(KeywordFor("id"));

    let doc = Builder::new()
        .add_text("title", "Rust Programming")
        .add_text("id", "BOOK-001")
        .build();

    let analyzed = parser.parse(doc, &forms).unwrap();

    // title should be tokenized
    assert!(!analyzed.field_terms.get("title").unwrap().is_empty());
    // id should be one token (KeywordAnalyzer)
    assert_eq!(analyzed.field_terms.get("id").unwrap().len(), 1);
    assert_eq!(analyzed.field_terms.get("id").unwrap()[0].term, "BOOK-001"); // KeywordAnalyzer preserves case
}

#[test]
fn test_numeric_fields() {
    let parser = DocumentParser::new(Standard);

    let doc = Builder::new()
        .add_text("title", "Test")
        .add_integer("year", 2024)
        .add_float("price", 19.99)
        .add_boolean("active", true)
        .build();

    let analyzed = parser.parse(doc, &forms).unwrap();

    assert!(analyzed.field_terms.contains_key("year"));
    assert!(analyzed.field_terms.contains_key("price"));
    assert!(analyzed.field_terms.contains_key("active"));
}



#[test]
fn test_indexed_false_skips_terms_and_lengths() {
    let mut fields = FieldMap::new();
    fields.insert(
        "title".to_string(),
        FieldOption::Text(TextOption::default()),
    );
    fields.insert(
        "secret".to_string(),
        FieldOption::Text(TextOption {
            indexed: false,
            ..Default::default()
        }),
    );
    let parser =
        DocumentParser::new(Standard).with_fields(fields);

    let doc = Builder::new()
        .add_text("title", "Rust Programming")
        .add_text("secret", "classified")
        .build();

    let analyzed = parser.parse(doc, &forms).unwrap();

    assert!(analyzed.field_terms.contains_key("title"));
    assert!(
        !analyzed.field_terms.contains_key("secret"),
        "indexed: false must keep the field out of field_terms"
    );
    assert!(
        !analyzed.field_lengths.contains_key("secret"),
        "a field excluded from field_terms must also be excluded from field_lengths"
    );
    // stored: true (the default) must still be honored regardless.
    assert!(analyzed.stored_fields.contains_key("title"));
    assert!(analyzed.stored_fields.contains_key("secret"));
}

#[test]
fn test_stored_false_skips_stored_value() {
    let mut fields = FieldMap::new();
    fields.insert(
        "title".to_string(),
        FieldOption::Text(TextOption::default()),
    );
    fields.insert(
        "ephemeral".to_string(),
        FieldOption::Text(TextOption {
            stored: false,
            ..Default::default()
        }),
    );
    let parser =
        DocumentParser::new(Standard).with_fields(fields);

    let doc = Builder::new()
        .add_text("title", "Rust Programming")
        .add_text("ephemeral", "not kept")
        .build();

    let analyzed = parser.parse(doc, &forms).unwrap();

    assert!(
        !analyzed.stored_fields.contains_key("ephemeral"),
        "stored: false must keep the field out of stored_fields"
    );
    // indexed: true (the default) must still be honored regardless.
    assert!(analyzed.field_terms.contains_key("ephemeral"));
}

#[test]
fn test_indexed_false_skips_point_values() {
    let mut fields = FieldMap::new();
    fields.insert(
        "title".to_string(),
        FieldOption::Text(TextOption::default()),
    );
    fields.insert(
        "year".to_string(),
        FieldOption::Integer(IntegerOption {
            indexed: false,
            ..Default::default()
        }),
    );
    let parser =
        DocumentParser::new(Standard).with_fields(fields);

    let doc = Builder::new()
        .add_text("title", "Test")
        .add_integer("year", 2024)
        .build();

    let analyzed = parser.parse(doc, &forms).unwrap();

    assert!(
        !analyzed.point_values.contains_key("year"),
        "indexed: false must keep a numeric field's BKD points out of point_values"
    );
    assert!(!analyzed.field_terms.contains_key("year"));
    match analyzed.stored_fields.get("year") {
        Some(DataValue::Int64(2024)) => {}
        other => panic!("expected the stored value to survive, got {other:?}"),
    }
}

#[test]
fn test_bytes_field_honors_stored() {
    let mut fields = FieldMap::new();
    fields.insert(
        "title".to_string(),
        FieldOption::Text(TextOption::default()),
    );
    fields.insert(
        "thumb".to_string(),
        FieldOption::Bytes(BytesOption { stored: true }),
    );
    fields.insert(
        "blob".to_string(),
        FieldOption::Bytes(BytesOption { stored: false }),
    );
    let parser =
        DocumentParser::new(Standard).with_fields(fields);

    let doc = Builder::new()
        .add_text("title", "Test")
        .add_bytes("thumb", vec![1, 2, 3])
        .add_bytes("blob", vec![4, 5, 6])
        .build();

    let analyzed = parser.parse(doc, &forms).unwrap();

    assert!(analyzed.stored_fields.contains_key("thumb"));
    assert!(
        !analyzed.stored_fields.contains_key("blob"),
        "stored: false must be honored for Bytes fields too"
    );
    // Bytes is never lexically indexed, regardless of `indexed`
    // (which BytesOption doesn't even have).
    assert!(!analyzed.field_terms.contains_key("thumb"));
    assert!(!analyzed.field_terms.contains_key("blob"));
}

#[test]
fn test_schemaless_parser_indexes_and_stores_everything() {
    // No `with_fields` call: schema-less mode.
    let parser = DocumentParser::new(Standard);

    let doc = Builder::new()
        .add_text("title", "Test")
        .add_integer("year", 2024)
        .add_bytes("thumb", vec![1, 2, 3])
        .add_boolean("active", true)
        .build();

    let analyzed = parser.parse(doc, &forms).unwrap();

    for field in ["title", "year", "thumb", "active"] {
        assert!(
            analyzed.stored_fields.contains_key(field),
            "{field} must be stored in schema-less mode"
        );
    }
    for field in ["title", "year", "active"] {
        assert!(
            analyzed.field_terms.contains_key(field),
            "{field} must be indexed in schema-less mode"
        );
    }
    assert!(
        !analyzed.field_terms.contains_key("thumb"),
        "Bytes is never lexically indexed, schema-less or not"
    );
}

#[test]
fn test_fields_absent_from_schema_are_skipped() {
    let mut fields = FieldMap::new();
    fields.insert(
        "title".to_string(),
        FieldOption::Text(TextOption::default()),
    );
    let parser =
        DocumentParser::new(Standard).with_fields(fields);

    let doc = Builder::new()
        .add_text("title", "Test")
        .add_text("unknown", "not in schema")
        .build();

    let analyzed = parser.parse(doc, &forms).unwrap();

    assert!(analyzed.field_terms.contains_key("title"));
    assert!(analyzed.stored_fields.contains_key("title"));
    assert!(
        !analyzed.field_terms.contains_key("unknown")
            && !analyzed.stored_fields.contains_key("unknown")
            && !analyzed.point_values.contains_key("unknown"),
        "a field absent from a non-empty schema must be dropped entirely"
    );
}

#[test]
fn test_internal_fields_bypass_schema() {
    let mut fields = FieldMap::new();
    fields.insert(
        "title".to_string(),
        FieldOption::Text(TextOption::default()),
    );
    let parser =
        DocumentParser::new(Standard).with_fields(fields);

    let doc = Builder::new()
        .add_text("title", "Test")
        .add_text("_id", "doc-1")
        .build();

    let analyzed = parser.parse(doc, &forms).unwrap();

    assert!(
        analyzed.field_terms.contains_key("_id"),
        "an internal (_-prefixed) field must index/store by default \
         even though it isn't declared in the schema"
    );
    assert!(analyzed.stored_fields.contains_key("_id"));
}

fn terms(a: &laurus::analyzed::AnalyzedDocument, field: &str) -> Vec<(String, u32, u32)> {
    match a.field_terms.get(field) {
        None => Vec::new(),
        Some(v) => v
            .iter()
            .map(|t| (t.term.clone(), t.position, t.frequency))
            .collect(),
    }
}

#[test]
fn terms_carry_their_first_positions_and_how_often_they_occur() {
    let parser = DocumentParser::new(Standard);
    let doc = Builder::new().add_text("body", "to be or not to be").build();
    let analyzed = parser.parse(doc, &forms).unwrap();
    let found = terms(&analyzed, "body");
    let want = |t: &str, p: u32, f: u32| (t.to_string(), p, f);
    assert_eq!(
        found,
        vec![
            want("to", 0, 2),
            want("be", 1, 2),
            want("or", 2, 1),
            want("not", 3, 1),
        ]
    );
    assert_eq!(analyzed.field_lengths.get("body"), Some(&6));
    let offsets: Vec<(usize, usize)> = analyzed
        .field_terms
        .get("body")
        .unwrap()
        .iter()
        .map(|t| t.offset)
        .collect();
    assert_eq!(offsets[1], (3, 5));
}

#[test]
fn elements_of_a_text_array_lie_a_gap_apart() {
    let mut fields = FieldMap::new();
    fields.insert(
        "tags".to_string(),
        FieldOption::Text(TextOption {
            position_increment_gap: 10,
            ..Default::default()
        }),
    );
    let parser = DocumentParser::new(Standard).with_fields(fields);
    let doc = Builder::new()
        .add(
            "tags",
            DataValue::TextArray(vec!["red apple".to_string(), "green".to_string()]),
        )
        .build();
    let analyzed = parser.parse(doc, &forms).unwrap();
    let positions: Vec<u32> = terms(&analyzed, "tags").iter().map(|t| t.1).collect();
    assert_eq!(positions[0], 0);
    assert_eq!(positions[1], 1);
    assert!(positions[2] >= 11);
    assert_eq!(analyzed.field_lengths.get("tags"), Some(&3));
}

#[test]
fn numbers_and_places_become_points() {
    let parser = DocumentParser::new(Standard);
    let instant = DateTimeUtc::from_timestamp(1_700_000_000, 500_000_000).unwrap();
    let doc = Builder::new()
        .add_integer("year", 2024)
        .add_float("price", 19.5)
        .add("when", DataValue::DateTime(instant))
        .add(
            "where",
            DataValue::Geo(GeoPoint {
                lat: 35.5f64.to_bits(),
                lon: 139.0f64.to_bits(),
            }),
        )
        .add("many", DataValue::Int64Array(vec![3, -4]))
        .build();
    let analyzed = parser.parse(doc, &forms).unwrap();
    let points = |name: &str| -> Vec<Vec<f64>> {
        analyzed
            .point_values
            .get(name)
            .unwrap()
            .iter()
            .map(|p| p.iter().map(|&b| f64::from_bits(b)).collect())
            .collect()
    };
    assert_eq!(points("year"), vec![vec![2024.0]]);
    assert_eq!(points("price"), vec![vec![19.5]]);
    assert_eq!(points("when"), vec![vec![1_700_000_000.5]]);
    assert_eq!(points("where"), vec![vec![35.5, 139.0]]);
    assert_eq!(points("many"), vec![vec![3.0], vec![-4.0]]);
    assert_eq!(terms(&analyzed, "year")[0].0, "2024");
}

#[test]
fn an_empty_array_has_no_points() {
    let mut fields = FieldMap::new();
    fields.insert(
        "spot".to_string(),
        FieldOption::Geo(GeoOption {
            stored: false,
            ..Default::default()
        }),
    );
    let parser = DocumentParser::new(Standard).with_fields(fields);
    let doc = Builder::new()
        .add("spot", DataValue::GeoArray(Vec::new()))
        .build();
    let analyzed = parser.parse(doc, &forms).unwrap();
    assert_eq!(analyzed.point_values.get("spot"), Some(&Vec::new()));
    assert_eq!(analyzed.field_lengths.get("spot"), Some(&0));
    assert!(analyzed.stored_fields.is_empty());
}

#[test]
fn what_the_analyzer_refuses_is_refused() {
    let parser = DocumentParser::new(Refusing);
    let doc = Builder::new().add_text("body", "x").build();
    assert_eq!(
        parser.parse(doc, &forms).unwrap_err(),
        LaurusError::FieldSize
    );
    let doc = Builder::new().add_integer("year", 1).build();
    assert!(parser.parse(doc, &forms).is_ok());
}

#[test]
fn tokens_are_counted_by_their_text() {
    let found = tokens_to_analyzed_terms(vec![
        token("a", 0, 0),
        token("b", 2, 4),
        token("a", 5, 9),
    ]);
    let shown: Vec<(String, u32, u32, (usize, usize))> = found
        .iter()
        .map(|t| (t.term.clone(), t.position, t.frequency, t.offset))
        .collect();
    assert_eq!(
        shown,
        vec![
            ("a".to_string(), 0, 2, (0, 1)),
            ("b".to_string(), 2, 1, (4, 5)),
        ]
    );
}

#[test]
fn a_field_is_as_long_as_it_has_tokens() {
    let parser = DocumentParser::new(Standard);
    let doc = Builder::new()
        .add_text("body", "rust rust")
        .add_text("none", "")
        .add(
            "tags",
            DataValue::TextArray(vec!["a b a".to_string(), "a".to_string()]),
        )
        .add("many", DataValue::Int64Array(vec![3, 3, -4]))
        .build();
    let analyzed = parser.parse(doc, &forms).unwrap();
    assert_eq!(analyzed.field_lengths.get("body"), Some(&2));
    assert_eq!(analyzed.field_lengths.get("none"), Some(&0));
    assert_eq!(analyzed.field_lengths.get("tags"), Some(&4));
    assert_eq!(analyzed.field_lengths.get("many"), Some(&3));
}
