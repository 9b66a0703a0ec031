//! Reading segments and merging them.

use std::collections::{BTreeMap, BTreeSet, HashMap};

use roaring::RoaringTreemap;

use laurus::analysis::{Analyzer, Characters, Token, Tokens};
use laurus::analyzed::{AnalyzedDocument, AnalyzedTerm};
use laurus::bkd_tree::{BKDTree, BKDWriter};
use laurus::data::{DataValue, Document};
use laurus::deletion::DeletionBitmap;
use laurus::dictionary::{BlockMax, TermDictionary, TermInfo};
use laurus::doc_values::DocValuesWriter;
use laurus::error::LaurusError;
use laurus::field::{FieldOption, TextOption};
use laurus::merge_engine::{MergeConfig, MergeEngine, MergeStats, PendingMerge};
use laurus::merging::{doc_id_ranges_overlap, resolve_owned_doc_ids, MergeSource};
use laurus::names::FieldMap;
use laurus::norms::{FieldStats, SegmentNorms};
use laurus::numbers::{Forms, Number};
use laurus::parser::DocumentParser;
use laurus::posting::{build_skip_levels, DecodedPostingList, PostingIterator};
use laurus::reader::{InvertedIndexReader, InvertedIndexReaderConfig, PostingStream};
use laurus::replay::{replay_segment_into_writer, split_key, MergeBuffer};
use laurus::segment::{ManagedSegmentInfo, MergeCandidate, MergeStrategy, SegmentInfo};
use laurus::segment_reader::{bkd_fields_of, PostingFormat, SegmentParts, SegmentReader};
use laurus::stored_fields::{decode_document, encode_document, StoredFieldsWriter};

// ---------------------------------------------------------------------------
// Floating point
// ---------------------------------------------------------------------------

fn forms(n: Number) -> Forms {
    let v = match n {
        Number::Integer { value } => value as f64,
        Number::Float { bits } => f64::from_bits(bits),
        Number::Micros { micros } => micros as f64 / 1_000_000.0,
    };
    Forms {
        bits: v.to_bits(),
        narrow: (v as f32).to_bits(),
        integer: v as i64,
        text: v.to_string(),
    }
}

fn mean(parts: &Vec<(u64, u64)>) -> u64 {
    let total: u64 = parts.iter().map(|p| p.1).sum();
    let sum: f64 = parts
        .iter()
        .map(|p| f64::from_bits(p.0) * p.1 as f64)
        .sum();
    (if total == 0 { 0.0 } else { sum / total as f64 }).to_bits()
}

fn subtract(a: u64, b: u64) -> u64 {
    (f64::from_bits(a) - f64::from_bits(b)).to_bits()
}

fn share(s: &ManagedSegmentInfo) -> u64 {
    let n = s.segment_info.doc_count;
    (if n == 0 {
        0.0
    } else {
        s.deleted_count as f64 / n as f64
    })
    .to_bits()
}

fn score(s: &ManagedSegmentInfo) -> u64 {
    (1.0 / (s.size_bytes as f64 + 1.0)
        + f64::from_bits(share(s)) * 2.0
        + 1.0 / (s.created_at as f64 + 1.0))
        .to_bits()
}

fn ratio(a: u64, b: u64) -> u64 {
    (a as f64 / b as f64).to_bits()
}

// ---------------------------------------------------------------------------
// Analysis
// ---------------------------------------------------------------------------

/// The words of a text in lower case, without a stop word, counted from zero.
fn words(text: &str) -> Vec<String> {
    text.split(|c: char| !c.is_alphanumeric())
        .filter(|w| !w.is_empty() && *w != "the")
        .map(str::to_lowercase)
        .collect()
}

fn occurrence(term: String, position: usize) -> AnalyzedTerm {
    AnalyzedTerm {
        term,
        position: position as u32,
        frequency: 1,
        offset: (0, 0),
    }
}

/// One term for each occurrence; the elements of an array lie a gap apart.
fn analyze(_field: &str, value: &DataValue) -> Result<Vec<AnalyzedTerm>, LaurusError> {
    let numbered = |texts: Vec<String>| {
        texts
            .into_iter()
            .enumerate()
            .map(|(i, t)| occurrence(t, i))
            .collect()
    };
    Ok(match value {
        DataValue::Text(s) => numbered(words(s)),
        DataValue::TextArray(items) => {
            let mut out = Vec::new();
            let mut at = 0;
            for item in items {
                let found = words(item);
                let n = found.len();
                out.extend(
                    found
                        .into_iter()
                        .enumerate()
                        .map(|(i, t)| occurrence(t, at + i)),
                );
                at += n + 100;
            }
            out
        }
        DataValue::Bool(b) => numbered(vec![b.to_string()]),
        DataValue::BoolArray(items) => numbered(items.iter().map(|b| b.to_string()).collect()),
        DataValue::Int64(i) => numbered(vec![i.to_string()]),
        DataValue::Float64(b) => numbered(vec![f64::from_bits(*b).to_string()]),
        _ => Vec::new(),
    })
}

/// The whole text is one term.
fn analyze_keyword(field: &str, value: &DataValue) -> Result<Vec<AnalyzedTerm>, LaurusError> {
    match value {
        DataValue::Text(s) => Ok(vec![occurrence(s.clone(), 0)]),
        _ => analyze(field, value),
    }
}

/// The id is one term, other fields are divided.
fn analyze_per_field(field: &str, value: &DataValue) -> Result<Vec<AnalyzedTerm>, LaurusError> {
    if field == "_id" {
        analyze_keyword(field, value)
    } else {
        analyze(field, value)
    }
}

fn candidate(value: &DataValue) -> bool {
    !matches!(
        value,
        DataValue::Null | DataValue::Bytes(_, _) | DataValue::Vector(_)
    )
}

/// A document as a writer takes it: a field without terms has no length.
fn analyzed(fields: &[(&str, DataValue)]) -> AnalyzedDocument {
    let mut doc = AnalyzedDocument::new();
    for (name, value) in fields {
        let terms = analyze(name, value).unwrap();
        if !terms.is_empty() {
            doc.field_lengths
                .insert(name.to_string(), terms.len() as u32);
            doc.field_terms.insert(name.to_string(), terms);
        }
        if let DataValue::Int64(i) = value {
            doc.point_values
                .insert(name.to_string(), vec![vec![(*i as f64).to_bits()]]);
        }
        doc.stored_fields.insert(name.to_string(), value.clone());
    }
    doc
}

struct Standard;

impl Analyzer for Standard {
    fn tokens(&self, _: Characters, _: Characters) -> Tokens {
        unreachable!("ghost")
    }

    fn analyze_field(&self, _field: &str, text: &str) -> Result<Vec<Token>, LaurusError> {
        Ok(words(text)
            .into_iter()
            .enumerate()
            .map(|(position, text)| Token {
                text,
                position,
                start_offset: 0,
                end_offset: 0,
            })
            .collect())
    }
}

// ---------------------------------------------------------------------------
// Writing segments
// ---------------------------------------------------------------------------

type Occurrences = Vec<(u32, u32, Vec<u32>)>;

/// Posting lists by segment and place.
#[derive(Default)]
struct Index {
    lists: HashMap<(String, u64), (String, Occurrences, bool)>,
}

#[derive(Default)]
struct Settings {
    without_positions: Vec<&'static str>,
    without_columns: Vec<&'static str>,
}

fn encode_column(values: &Vec<(u64, DataValue)>) -> Result<Vec<u8>, LaurusError> {
    let mut out = Vec::new();
    for (doc_id, value) in values {
        let mut record = FieldMap::new();
        record.insert("v".to_string(), value.clone());
        encode_document(&mut out, *doc_id, &record);
    }
    Ok(out)
}

fn decode_column(bytes: &[u8]) -> Result<Vec<(u64, DataValue)>, LaurusError> {
    let mut out = Vec::new();
    let mut cursor = 0;
    while cursor < bytes.len() {
        let (doc_id, record) = decode_document(bytes, &mut cursor)?;
        out.push((doc_id, record.get_field("v").unwrap().clone()));
    }
    Ok(out)
}

fn names_of<V>(map: &FieldMap<V>) -> Vec<String> {
    (0..map.len()).map(|i| map.name_at(i).clone()).collect()
}

fn no_parts() -> SegmentParts {
    SegmentParts {
        dictionary: Ok(None),
        has_postings: false,
        docs: None,
        positional_docs: None,
        doc_values: None,
        norms: Ok(None),
        lens: None,
        fstats: None,
        deletions: Ok(None),
        trees: FieldMap::new(),
    }
}

fn segment_info(seg_id: &str, doc_count: u64, min: u64, max: u64, generation: u64) -> SegmentInfo {
    SegmentInfo {
        segment_id: seg_id.to_string(),
        doc_count,
        min_doc_id: min,
        max_doc_id: max,
        generation,
        has_deletions: false,
        deleted_count: None,
        shard_id: 0,
    }
}

impl Index {
    fn new() -> Index {
        Index::default()
    }

    fn decode(&self, info: &SegmentInfo, offset: u64) -> Result<DecodedPostingList, LaurusError> {
        let (term, list, with_positions) = match self.lists.get(&(info.segment_id.clone(), offset))
        {
            Some(l) => l,
            None => return Err(LaurusError::Truncated { what: "posting list" }),
        };
        let doc_ids: Vec<u32> = list.iter().map(|p| p.0).collect();
        Ok(DecodedPostingList {
            term: term.clone(),
            skip_levels: build_skip_levels(&doc_ids),
            frequencies: list.iter().map(|p| p.1).collect(),
            weights: Vec::new(),
            positions: if *with_positions {
                Some(list.iter().map(|p| Some(p.2.clone())).collect())
            } else {
                None
            },
            total_frequency: list.iter().map(|p| p.1 as u64).sum(),
            doc_frequency: doc_ids.len() as u64,
            doc_ids,
        })
    }

    /// The parts of a segment of these documents.
    fn parts(
        &mut self,
        segment_id: &str,
        docs: Vec<(u64, AnalyzedDocument)>,
        keeps_positions: &dyn Fn(&str) -> bool,
        has_column: &dyn Fn(&str) -> bool,
    ) -> SegmentParts {
        let mut lists: BTreeMap<String, BTreeMap<u64, Vec<u32>>> = BTreeMap::new();
        let mut columns = DocValuesWriter::new(segment_id.to_string());
        let mut any_column = false;
        let mut lengths: BTreeMap<u64, FieldMap<u32>> = BTreeMap::new();
        let mut by_field: BTreeMap<String, Vec<u64>> = BTreeMap::new();
        let mut points: BTreeMap<String, Vec<(u64, Vec<u64>)>> = BTreeMap::new();
        for (id, doc) in &docs {
            for field in names_of(&doc.field_terms) {
                for t in doc.field_terms.get(&field).unwrap() {
                    lists
                        .entry(format!("{field}:{}", t.term))
                        .or_default()
                        .entry(*id)
                        .or_default()
                        .push(t.position);
                }
            }
            for field in names_of(&doc.stored_fields) {
                let value = doc.stored_fields.get(&field).unwrap();
                if candidate(value) && has_column(&field) {
                    columns.add_value(*id, &field, value.clone());
                    any_column = true;
                }
            }
            let mut mine = FieldMap::new();
            for field in names_of(&doc.field_lengths) {
                let n = *doc.field_lengths.get(&field).unwrap();
                by_field.entry(field.clone()).or_default().push(n as u64);
                mine.insert(field, n);
            }
            lengths.insert(*id, mine);
            for field in names_of(&doc.point_values) {
                for p in doc.point_values.get(&field).unwrap() {
                    points
                        .entry(field.clone())
                        .or_default()
                        .push((*id, p.clone()));
                }
            }
        }

        let mut terms = FieldMap::new();
        for (i, (key, by_doc)) in lists.into_iter().enumerate() {
            let (field, term) = split_key(&key).unwrap();
            let keep = keeps_positions(field);
            let list: Occurrences = by_doc
                .into_iter()
                .map(|(id, mut at)| {
                    at.sort_unstable();
                    (id as u32, at.len() as u32, at)
                })
                .collect();
            let offset = i as u64 * 64;
            terms.insert(
                key.clone(),
                TermInfo {
                    posting_offset: offset,
                    posting_length: 64,
                    doc_frequency: list.len() as u64,
                    total_frequency: list.iter().map(|p| p.1 as u64).sum(),
                    max_score_factor: 0,
                    block_max: Vec::new(),
                },
            );
            self.lists.insert(
                (segment_id.to_string(), offset),
                (term.to_string(), list, keep),
            );
        }

        let mut stats = FieldMap::new();
        for (field, lens) in by_field {
            let sum: u64 = lens.iter().sum();
            stats.insert(
                field.clone(),
                FieldStats {
                    field,
                    unique_terms: 0,
                    total_terms: 0,
                    doc_count: lens.len() as u64,
                    avg_length: (sum as f64 / lens.len() as f64).to_bits(),
                    min_length: *lens.iter().min().unwrap(),
                    max_length: *lens.iter().max().unwrap(),
                },
            );
        }

        let mut trees = FieldMap::new();
        for (field, entries) in points {
            let mut writer = BKDWriter::new(entries[0].1.len() as u32).with_block_size(4);
            let flat: Vec<u64> = entries.iter().flat_map(|e| e.1.clone()).collect();
            let ids: Vec<u64> = entries.iter().map(|e| e.0).collect();
            writer.write(&flat, &ids, &subtract).unwrap();
            trees.insert(field, writer.finish());
        }

        let mut stored = Vec::new();
        StoredFieldsWriter::write_to(&mut stored, &docs).unwrap();
        SegmentParts {
            dictionary: Ok(Some(TermDictionary {
                terms,
                posting_format_version: 3,
            })),
            has_postings: true,
            docs: Some(stored),
            doc_values: if any_column {
                Some(columns.write(&encode_column).unwrap().1)
            } else {
                None
            },
            norms: Ok(Some(SegmentNorms::new(lengths, stats))),
            trees,
            ..no_parts()
        }
    }

    /// A segment of these documents, of which some are deleted.
    fn segment(
        &mut self,
        segment_id: &str,
        docs: Vec<(u64, AnalyzedDocument)>,
        settings: &Settings,
        deleted: &[u64],
    ) -> MergeSource {
        let ids: Vec<u64> = docs.iter().map(|d| d.0).collect();
        let mut info = segment_info(
            segment_id,
            ids.len() as u64,
            ids.iter().copied().min().unwrap_or(0),
            ids.iter().copied().max().unwrap_or(0),
            0,
        );
        let mut parts = self.parts(
            segment_id,
            docs,
            &|f: &str| !settings.without_positions.contains(&f),
            &|f: &str| !settings.without_columns.contains(&f),
        );
        if !deleted.is_empty() {
            info.has_deletions = true;
            parts.deletions = Ok(Some(
                DeletionBitmap::from_sorted(deleted, info.doc_count).unwrap(),
            ));
        }
        MergeSource {
            managed: ManagedSegmentInfo::created_at(info.clone(), 1),
            reader: SegmentReader::open(info, parts),
        }
    }

    /// The reader of a merged segment, after it was written.
    fn write(&mut self, merged: PendingMerge) -> (SegmentInfo, SegmentReader) {
        let info = merged.segment_info;
        let positions = merged.buffer.term_positions;
        let columns = merged.buffer.doc_values;
        let parts = self.parts(
            &info.segment_id.clone(),
            merged.buffer.documents,
            &|f: &str| positions.get(f).copied().unwrap_or(true),
            &|f: &str| columns.get(f).copied().unwrap_or(true),
        );
        (info.clone(), SegmentReader::open(info, parts))
    }

    fn merge(
        &self,
        engine: &MergeEngine,
        strategy: MergeStrategy,
        sources: &[&MergeSource],
    ) -> Result<PendingMerge, LaurusError> {
        let request = MergeCandidate {
            segments: sources
                .iter()
                .map(|s| s.managed.segment_info.segment_id.clone())
                .collect(),
            priority: 1.0f64.to_bits(),
            estimated_size: 0,
            strategy,
        };
        let decode =
            |info: &SegmentInfo, offset: u64, _: PostingFormat| self.decode(info, offset);
        engine.merge_segments(
            &request,
            &sources.to_vec(),
            1,
            &share,
            &score,
            &decode,
            &analyze,
            &candidate,
        )
    }

    fn hits(&self, reader: &SegmentReader, field: &str, term: &str) -> Vec<(u64, u64, Vec<u64>)> {
        let decode =
            |info: &SegmentInfo, offset: u64, _: PostingFormat| self.decode(info, offset);
        match reader.postings(field, term, &decode, &analyze).unwrap() {
            Some(it) => walk(it),
            None => Vec::new(),
        }
    }

    fn found(&self, reader: &SegmentReader, field: &str, term: &str) -> Vec<u64> {
        self.hits(reader, field, term)
            .into_iter()
            .map(|h| h.0)
            .collect()
    }
}

fn walk<I: PostingIterator>(mut it: I) -> Vec<(u64, u64, Vec<u64>)> {
    let mut out = Vec::new();
    while it.next().unwrap() {
        out.push((it.doc_id(), it.term_freq(), it.positions().unwrap()));
    }
    out
}

fn text(s: &str) -> DataValue {
    DataValue::Text(s.to_string())
}

fn texts(items: &[&str]) -> DataValue {
    DataValue::TextArray(items.iter().map(|s| (*s).to_string()).collect())
}

fn text_int_doc(title: &str, num: i64) -> AnalyzedDocument {
    analyzed(&[("title", text(title)), ("num", DataValue::Int64(num))])
}

// ---------------------------------------------------------------------------
// Segments without postings
// ---------------------------------------------------------------------------

/// A segment that has only stored documents.
fn docs_only_segment(
    segment_id: &str,
    docs: &[(u64, Vec<(&str, DataValue)>)],
    deleted: &[u64],
) -> SegmentReader {
    let analyzed: Vec<(u64, AnalyzedDocument)> = docs
        .iter()
        .map(|(doc_id, fields)| {
            let mut doc = AnalyzedDocument::new();
            for (field, value) in fields {
                doc.stored_fields
                    .insert((*field).to_string(), value.clone());
            }
            (*doc_id, doc)
        })
        .collect();
    let mut stored = Vec::new();
    StoredFieldsWriter::write_to(&mut stored, &analyzed).unwrap();
    let mut info = segment_info(
        segment_id,
        docs.len() as u64,
        docs.iter().map(|d| d.0).min().unwrap_or(0),
        docs.iter().map(|d| d.0).max().unwrap_or(0),
        0,
    );
    info.has_deletions = !deleted.is_empty();
    SegmentReader::open(
        info,
        SegmentParts {
            docs: Some(stored),
            deletions: Ok(Some(
                DeletionBitmap::from_sorted(deleted, docs.len() as u64).unwrap(),
            )),
            ..no_parts()
        },
    )
}

fn undecodable(
    _: &SegmentInfo,
    _: u64,
    _: PostingFormat,
) -> Result<DecodedPostingList, LaurusError> {
    Err(LaurusError::Truncated { what: "posting list" })
}

fn scan_hits(reader: &SegmentReader, field: &str, term: &str) -> Vec<(u64, u64, Vec<u64>)> {
    match reader.postings(field, term, &undecodable, &analyze).unwrap() {
        Some(it) => walk(it),
        None => Vec::new(),
    }
}

#[test]
fn scan_fallback_matches_any_element_of_a_text_array() {
    let reader = docs_only_segment(
        "scan_any",
        &[
            (0, vec![("tags", texts(&["rust", "search engine"]))]),
            (1, vec![("tags", text("rust"))]),
            (2, vec![("other", text("rust"))]),
        ],
        &[],
    );

    // Array element and scalar both match; another field does not.
    assert_eq!(
        scan_hits(&reader, "tags", "rust"),
        vec![(0, 1, vec![0]), (1, 1, vec![0])]
    );
    // Elements are analyzed individually; the second element's tokens
    // start `position_increment_gap` past the first element's last one.
    assert_eq!(
        scan_hits(&reader, "tags", "search"),
        vec![(0, 1, vec![101])]
    );
    assert_eq!(
        scan_hits(&reader, "tags", "engine"),
        vec![(0, 1, vec![102])]
    );
    assert!(scan_hits(&reader, "tags", "missing").is_empty());
    assert!(reader
        .postings("tags", "missing", &undecodable, &analyze)
        .unwrap()
        .is_none());
}

#[test]
fn scan_fallback_positions_span_elements_with_the_gap() {
    let reader = docs_only_segment(
        "scan_gap",
        &[(0, vec![("body", texts(&["hello world", "foo bar"]))])],
        &[],
    );
    assert_eq!(scan_hits(&reader, "body", "hello"), vec![(0, 1, vec![0])]);
    assert_eq!(scan_hits(&reader, "body", "world"), vec![(0, 1, vec![1])]);
    assert_eq!(scan_hits(&reader, "body", "foo"), vec![(0, 1, vec![102])]);
    assert_eq!(scan_hits(&reader, "body", "bar"), vec![(0, 1, vec![103])]);
}

#[test]
fn scan_fallback_tf_accumulates_across_elements() {
    // One posting per document; repeated elements raise the term
    // frequency, not the hit count.
    let reader = docs_only_segment(
        "scan_tf",
        &[(0, vec![("tags", texts(&["rust", "rust tooling"]))])],
        &[],
    );
    assert_eq!(
        scan_hits(&reader, "tags", "rust"),
        vec![(0, 2, vec![0, 101])]
    );
}

#[test]
fn scan_fallback_matches_bool_and_numeric_terms_like_the_writer() {
    let reader = docs_only_segment(
        "scan_terms",
        &[
            (
                0,
                vec![("flag", DataValue::Bool(true)), ("n", DataValue::Int64(42))],
            ),
            (1, vec![("flags", DataValue::BoolArray(vec![true, false]))]),
            (
                2,
                vec![
                    ("flags", DataValue::BoolArray(vec![false])),
                    ("f", DataValue::Float64(2.5f64.to_bits())),
                ],
            ),
        ],
        &[],
    );
    assert_eq!(scan_hits(&reader, "flag", "true"), vec![(0, 1, vec![0])]);
    assert_eq!(scan_hits(&reader, "flags", "true"), vec![(1, 1, vec![0])]);
    assert_eq!(
        scan_hits(&reader, "flags", "false"),
        vec![(1, 1, vec![1]), (2, 1, vec![0])]
    );
    assert_eq!(scan_hits(&reader, "n", "42"), vec![(0, 1, vec![0])]);
    assert_eq!(scan_hits(&reader, "f", "2.5"), vec![(2, 1, vec![0])]);
}

#[test]
fn scan_fallback_renumbers_positions_like_the_writer() {
    // The analysis drops "the" and renumbers the surviving tokens densely, so `search`
    // is at 1, not at 2.
    let reader = docs_only_segment(
        "scan_renumber",
        &[(0, vec![("body", text("the rust search"))])],
        &[],
    );
    assert_eq!(scan_hits(&reader, "body", "rust"), vec![(0, 1, vec![0])]);
    assert_eq!(scan_hits(&reader, "body", "search"), vec![(0, 1, vec![1])]);
    assert!(scan_hits(&reader, "body", "the").is_empty());
}

#[test]
fn scan_fallback_never_yields_a_deleted_document() {
    let reader = docs_only_segment(
        "scan_deleted",
        &[
            (0, vec![("body", text("alpha"))]),
            (1, vec![("body", text("alpha"))]),
            (2, vec![("body", texts(&["alpha", "beta"]))]),
        ],
        &[1],
    );
    assert_eq!(
        scan_hits(&reader, "body", "alpha"),
        vec![(0, 1, vec![0]), (2, 1, vec![0])]
    );
}

#[test]
fn scan_fallback_uses_the_configured_analyzer() {
    // With keywords the whole value is one term, so the scan must hit `"rust search"`
    // and miss `"rust"`.
    let reader = docs_only_segment(
        "scan_keyword",
        &[(0, vec![("tags", text("rust search"))])],
        &[],
    );
    let hits = |term: &str| {
        reader
            .postings("tags", term, &undecodable, &analyze_keyword)
            .unwrap()
            .map(walk)
            .unwrap_or_default()
    };
    assert_eq!(hits("rust search"), vec![(0, 1, vec![0])]);
    assert!(hits("rust").is_empty());
}

#[test]
fn scan_fallback_defaults_to_standard_without_an_analyzer() {
    let reader = docs_only_segment(
        "scan_default",
        &[(0, vec![("tags", text("rust search"))])],
        &[],
    );
    assert_eq!(scan_hits(&reader, "tags", "rust"), vec![(0, 1, vec![0])]);
    assert_eq!(scan_hits(&reader, "tags", "search"), vec![(0, 1, vec![1])]);
    assert!(scan_hits(&reader, "tags", "rust search").is_empty());
}

#[test]
fn scan_fallback_resolves_a_per_field_analyzer() {
    let reader = docs_only_segment(
        "scan_per_field",
        &[(0, vec![("_id", text("doc-1")), ("body", text("doc-1"))])],
        &[],
    );
    let hits = |field: &str, term: &str| {
        reader
            .postings(field, term, &undecodable, &analyze_per_field)
            .unwrap()
            .map(walk)
            .unwrap_or_default()
    };
    assert_eq!(hits("_id", "doc-1"), vec![(0, 1, vec![0])]);
    assert!(hits("_id", "doc").is_empty());
    assert_eq!(hits("body", "doc"), vec![(0, 1, vec![0])]);
    assert!(hits("body", "doc-1").is_empty());
}

// ---------------------------------------------------------------------------
// Readers
// ---------------------------------------------------------------------------

fn reader_of(segments: Vec<SegmentReader>) -> InvertedIndexReader {
    InvertedIndexReader::new(segments, InvertedIndexReaderConfig::default()).unwrap()
}

#[test]
fn has_term_dictionary_reflects_the_dict_file() {
    // A segment of stored documents alone has no dictionary ...
    let reader = docs_only_segment("scan_no_dict", &[(0, vec![("tags", text("rust"))])], &[]);
    assert!(!reader.has_term_dictionary());

    // ... while a written segment always carries one, so a reader over it stays
    // authoritative.
    let mut index = Index::new();
    let source = index.segment(
        "s",
        vec![(0, analyzed(&[("body", text("alpha"))]))],
        &Settings::default(),
        &[],
    );
    let inverted = reader_of(vec![source.reader]);
    assert!(inverted.segment_readers()[0].has_term_dictionary());
    assert!(inverted.term_info_is_authoritative());
}

/// Whether a dictionary can prove that a term is in no document.
fn is_empty(reader: &mut InvertedIndexReader, field: &str, term: &str) -> bool {
    reader.term_info_is_authoritative()
        && reader
            .term_info(field, term, &forms, &mean)
            .unwrap()
            .is_none()
}

#[test]
fn reader_with_a_dictionary_less_segment_is_not_authoritative() {
    let segment = docs_only_segment("scan_partial", &[(0, vec![("tags", text("rust"))])], &[]);
    let mut partial = reader_of(vec![segment]);
    assert!(!partial.term_info_is_authoritative());
    // The dictionary cannot prove emptiness here.
    assert!(!is_empty(&mut partial, "tags", "rust"));
    assert!(!is_empty(&mut partial, "tags", "missing"));

    // No segments at all: vacuously authoritative, and an unknown term
    // is empty.
    let mut empty = reader_of(vec![]);
    assert!(empty.term_info_is_authoritative());
    assert!(is_empty(&mut empty, "tags", "rust"));
}

/// A field that has no column gets none, one left at the default does.
#[test]
fn has_doc_values_reflects_the_schemas_doc_values_flag() {
    let mut index = Index::new();
    let source = index.segment(
        "s",
        vec![(
            0,
            analyzed(&[("title", text("hello")), ("internal_note", text("shh"))]),
        )],
        &Settings {
            without_columns: vec!["internal_note"],
            ..Default::default()
        },
        &[],
    );
    assert!(
        source.reader.has_doc_values("title"),
        "a field without doc_values: false must get a column"
    );
    assert!(
        !source.reader.has_doc_values("internal_note"),
        "doc_values: false must keep the field out of the segment's \
         DocValues directory entirely"
    );
    assert_eq!(
        source
            .reader
            .get_doc_value("title", 0, &decode_column)
            .unwrap(),
        Some(text("hello"))
    );
}

/// Postings never yield a deleted document.
#[test]
fn postings_never_yields_a_deleted_document() {
    let doc_count = 60u64;
    let deleted_ids: Vec<u64> = (0..doc_count).step_by(3).collect();
    let mut index = Index::new();
    let source = index.segment(
        "s",
        (0..doc_count)
            .map(|id| (id, analyzed(&[("body", text("alpha"))])))
            .collect(),
        &Settings::default(),
        &deleted_ids,
    );
    assert!(!deleted_ids.is_empty(), "the fixture must delete something");

    let seen = index.found(&source.reader, "body", "alpha");
    assert_eq!(
        seen.len(),
        (doc_count as usize) - deleted_ids.len(),
        "postings must yield exactly the live documents"
    );
    for id in &deleted_ids {
        assert!(
            !seen.contains(id),
            "postings yielded deleted doc {id}; the merge relies on it not doing so"
        );
    }
}

#[test]
fn segment_reader_decodes_postings_written_by_the_writer() {
    let doc_count = 200u64;
    let mut index = Index::new();
    let source = index.segment(
        "s",
        (0..doc_count)
            .map(|i| {
                let body = if i % 2 == 0 { "alpha beta" } else { "alpha" };
                (i, analyzed(&[("body", text(body))]))
            })
            .collect(),
        &Settings::default(),
        &[],
    );
    let dict = source
        .reader
        .term_dictionary()
        .unwrap()
        .expect("segment must have a term dictionary");
    assert_eq!(
        dict.posting_format_version, 3,
        "the writer must produce v3 segments"
    );

    // "alpha" is in every document; "beta" in the even ones.
    let seen = index.found(&source.reader, "body", "alpha");
    assert_eq!(
        seen.len(),
        doc_count as usize,
        "every document contains 'alpha'"
    );
    assert!(
        seen.windows(2).all(|w| w[0] < w[1]),
        "doc ids must come back strictly ascending"
    );
    let even = index.found(&source.reader, "body", "beta");
    assert_eq!(
        even.len(),
        (doc_count / 2) as usize,
        "'beta' is only in the even documents"
    );
}

fn write_varint(out: &mut Vec<u8>, v: u64) {
    laurus::codec::write_varint(out, v);
}

fn write_string(out: &mut Vec<u8>, s: &str) {
    write_varint(out, s.len() as u64);
    out.extend_from_slice(s.as_bytes());
}

/// A segment with lengths of its own, without norms, reports exact lengths and statistics.
#[test]
fn legacy_lens_and_fstats_segment_reports_exact_length_and_stats() {
    let mut lens = Vec::new();
    write_varint(&mut lens, 2); // doc_count
    lens.extend_from_slice(&0u64.to_le_bytes());
    write_varint(&mut lens, 1);
    write_string(&mut lens, "body");
    lens.extend_from_slice(&7u32.to_le_bytes());
    lens.extend_from_slice(&1u64.to_le_bytes());
    write_varint(&mut lens, 1);
    write_string(&mut lens, "body");
    lens.extend_from_slice(&20u32.to_le_bytes());

    let mut fstats = Vec::new();
    write_varint(&mut fstats, 1); // field_count
    write_string(&mut fstats, "body");
    fstats.extend_from_slice(&2u64.to_le_bytes()); // doc_count
    fstats.extend_from_slice(&13.5f64.to_le_bytes()); // avg_length
    fstats.extend_from_slice(&7u64.to_le_bytes()); // min_length
    fstats.extend_from_slice(&20u64.to_le_bytes()); // max_length

    let reader = SegmentReader::open(
        segment_info("legacy_seg", 2, 0, 1, 0),
        SegmentParts {
            lens: Some(lens),
            fstats: Some(fstats),
            ..no_parts()
        },
    );

    assert_eq!(reader.field_length(0, "body").unwrap(), Some(7));
    assert_eq!(reader.field_length(1, "body").unwrap(), Some(20));
    assert_eq!(reader.field_length(0, "missing").unwrap(), None);

    let stats = reader.field_stats("body").unwrap().unwrap();
    assert_eq!(stats.doc_count, 2);
    assert_eq!(stats.min_length, 7);
    assert_eq!(stats.max_length, 20);
    assert!((f64::from_bits(stats.avg_length) - 13.5).abs() < 1e-9);
}

/// Norms win even when stale lengths are also present.
#[test]
fn norms_file_takes_precedence_over_stale_legacy_files() {
    // Stale legacy file claiming length 7.
    let mut lens = Vec::new();
    write_varint(&mut lens, 1);
    lens.extend_from_slice(&0u64.to_le_bytes());
    write_varint(&mut lens, 1);
    write_string(&mut lens, "body");
    lens.extend_from_slice(&7u32.to_le_bytes());

    // The current norms claiming length 25 -- this must win.
    let mut mine = FieldMap::new();
    mine.insert("body".to_string(), 25u32);
    let norms = SegmentNorms::new(BTreeMap::from([(0u64, mine)]), FieldMap::new());

    let reader = SegmentReader::open(
        segment_info("mixed_seg", 1, 0, 0, 0),
        SegmentParts {
            norms: Ok(Some(norms)),
            lens: Some(lens),
            ..no_parts()
        },
    );
    assert_eq!(reader.field_length(0, "body").unwrap(), Some(25));
}

#[test]
fn a_reader_puts_its_segments_together() {
    let mut index = Index::new();
    let a = index.segment(
        "a",
        vec![
            (0, text_int_doc("alpha bravo", 10)),
            (1, text_int_doc("bravo", 20)),
        ],
        &Settings::default(),
        &[1],
    );
    let b = index.segment(
        "b",
        vec![(5, text_int_doc("bravo charlie", 30))],
        &Settings::default(),
        &[],
    );
    let mut reader = reader_of(vec![a.reader, b.reader]);
    assert_eq!(reader.segment_count(), 2);
    assert_eq!(reader.max_doc(), 3);
    assert_eq!(reader.doc_count(), 2);
    assert_eq!(reader.doc_ids().unwrap(), vec![0, 1, 5]);
    assert!(reader.is_deleted(1));
    assert!(reader.document(1).unwrap().is_none());
    assert_eq!(
        reader.document(5).unwrap().unwrap().get_field("num"),
        Some(&DataValue::Int64(30))
    );
    let some = reader.document_fields(0, &["num"]).unwrap().unwrap();
    assert_eq!(some.get("num"), Some(&DataValue::Int64(10)));
    assert!(some.get("title").is_none());
    assert_eq!(reader.field_length(5, "title").unwrap(), Some(2));
    assert!(reader.has_doc_values("num"));
    assert_eq!(
        reader.get_doc_value("num", 5, &decode_column).unwrap(),
        Some(DataValue::Int64(30))
    );

    let decode = |info: &SegmentInfo, offset: u64, _: PostingFormat| index.decode(info, offset);
    let found = match reader.postings("title", "bravo", &decode, &analyze).unwrap() {
        Some(PostingStream::One(it)) => walk(it),
        Some(PostingStream::Merged(it)) => walk(it),
        None => Vec::new(),
    };
    assert_eq!(found, vec![(0, 1, vec![1]), (5, 1, vec![0])]);

    let info = reader
        .term_info("title", "bravo", &forms, &mean)
        .unwrap()
        .unwrap();
    assert_eq!(info.doc_freq, 3);
    assert!(reader
        .term_info("title", "zulu", &forms, &mean)
        .unwrap()
        .is_none());
    assert_eq!(reader.cache_stats().misses, 2);
    // A term that was found is answered in the same way again.
    let again = reader
        .term_info("title", "bravo", &forms, &mean)
        .unwrap()
        .unwrap();
    assert_eq!(again, info);
    assert_eq!(reader.cache_stats().hits, 1);

    let stats = reader.field_stats("title", &mean).unwrap().unwrap();
    assert_eq!((stats.doc_count, stats.min_length, stats.max_length), (3, 1, 2));

    reader.close().unwrap();
    assert!(reader.is_closed());
    assert_eq!(
        reader.document(0).unwrap_err(),
        LaurusError::ReaderClosed
    );
    assert!(reader
        .doc_ids()
        .unwrap_err()
        .message()
        .contains("Reader is closed"));
}

#[test]
fn deleted_points_are_not_found() {
    let mut index = Index::new();
    let source = index.segment(
        "s",
        (0..20u64)
            .map(|i| (i, text_int_doc("x", i as i64)))
            .collect(),
        &Settings::default(),
        &[3, 4],
    );
    let low = Some(2.0f64.to_bits());
    let high = Some(6.0f64.to_bits());
    let all = source.reader.get_bkd_tree("num").unwrap().unwrap();
    assert_eq!(
        all.range_search(&[low], &[high], true, true).unwrap(),
        vec![2, 3, 4, 5, 6]
    );
    assert_eq!(source.reader.bkd_field_names(), vec!["num".to_string()]);

    let reader = reader_of(vec![source.reader]);
    let tree = reader.get_bkd_tree("num").unwrap().unwrap();
    assert_eq!(
        tree.range_search(&[low], &[high], true, true).unwrap(),
        vec![2, 5, 6]
    );
}

#[test]
fn point_trees_are_found_by_the_names_of_their_files() {
    let files: Vec<String> = ["seg.num.bkd", "seg.docs", "seg.geo.place.bkd", "other.num.bkd"]
        .iter()
        .map(|s| s.to_string())
        .collect();
    let mut found = bkd_fields_of("seg", &files);
    found.sort();
    assert_eq!(found, vec!["geo.place".to_string(), "num".to_string()]);
}

#[test]
fn names_in_a_dictionary_are_taken_apart_at_the_first_colon() {
    assert_eq!(split_key("title:a:b"), Some(("title", "a:b")));
    assert_eq!(split_key(":x"), Some(("", "x")));
    assert_eq!(split_key("title"), None);
}

// ---------------------------------------------------------------------------
// Merging
// ---------------------------------------------------------------------------

#[test]
fn test_merge_engine_creation() {
    let config = MergeConfig::default();

    let engine = MergeEngine::new(config);
    assert_eq!(engine.get_config().batch_size, 10000);
    assert!(engine.get_config().remove_deleted_docs);
}

#[test]
fn test_merge_config_default() {
    let config = MergeConfig::default();

    assert_eq!(config.max_memory_mb, 256);
    assert_eq!(config.batch_size, 10000);
    assert!(config.remove_deleted_docs);
    assert!(config.sort_by_doc_id);
    assert!(config.verify_after_merge);
}

fn engine() -> MergeEngine {
    MergeEngine::new(MergeConfig::default())
}

/// Merging two segments must produce one segment that preserves the documents, their
/// typed stored fields, and their searchable postings.
#[test]
fn merge_preserves_docs_typed_fields_and_postings() {
    let mut index = Index::new();
    let (d0, d1, d2) = (0, 1, 2);
    let s0 = index.segment(
        "segment_000000",
        vec![
            (d0, text_int_doc("alpha bravo", 10)),
            (d1, text_int_doc("bravo charlie", 20)),
        ],
        &Settings::default(),
        &[],
    );
    let s1 = index.segment(
        "segment_000001",
        vec![(d2, text_int_doc("charlie delta", 30))],
        &Settings::default(),
        &[],
    );
    let engine = engine();
    let pending = index
        .merge(&engine, MergeStrategy::SizeBased, &[&s0, &s1])
        .unwrap();
    let (info, merged) = index.write(pending);

    // All three docs survive the merge.
    assert_eq!(info.doc_count, 3);

    // Typed stored fields round-trip: `num` stays an Int64.
    for (doc_id, expected) in [(d0, 10i64), (d1, 20), (d2, 30)] {
        let doc = merged
            .document(doc_id)
            .unwrap()
            .unwrap_or_else(|| panic!("doc {doc_id} missing after merge"));
        match doc.fields.get("num") {
            Some(DataValue::Int64(n)) => assert_eq!(*n, expected, "doc {doc_id} num"),
            other => panic!("doc {doc_id} `num` not Int64 after merge: {other:?}"),
        }
    }

    // Postings are reconstructed (not empty): "bravo" appears in d0 and d1.
    let mut got = index.found(&merged, "title", "bravo");
    got.sort_unstable();
    let mut want = vec![d0, d1];
    want.sort_unstable();
    assert_eq!(got, want, "`title:bravo` postings after merge");

    // Points too.
    let tree = merged.get_bkd_tree("num").unwrap().unwrap();
    assert_eq!(
        tree.range_search(&[Some(15.0f64.to_bits())], &[None], true, true)
            .unwrap(),
        vec![d1, d2]
    );
}

/// Each field must keep its own positions state independently.
#[test]
fn merge_preserves_per_field_term_vectors_independently() {
    let run = |vec_field: &'static str, novec_field: &'static str| {
        let settings = Settings {
            without_positions: vec![novec_field],
            ..Default::default()
        };
        let mut index = Index::new();
        let s0 = index.segment(
            "segment_000000",
            vec![(
                0,
                analyzed(&[
                    (vec_field, text("quick brown fox")),
                    (novec_field, text("quick brown fox")),
                ]),
            )],
            &settings,
            &[],
        );
        let s1 = index.segment(
            "segment_000001",
            vec![(
                1,
                analyzed(&[(vec_field, text("lazy dog")), (novec_field, text("lazy dog"))]),
            )],
            &settings,
            &[],
        );
        let engine = engine();
        let pending = index
            .merge(&engine, MergeStrategy::SizeBased, &[&s0, &s1])
            .unwrap();
        let (_, merged) = index.write(pending);

        assert_eq!(
            index.hits(&merged, vec_field, "brown"),
            vec![(0, 1, vec![1])],
            "{vec_field} must keep its positions after merge"
        );
        assert_eq!(
            index.hits(&merged, novec_field, "brown"),
            vec![(0, 1, vec![])],
            "{novec_field} must not have positions after merge"
        );
    };

    // Both orderings, so the result cannot depend on field-name sort order.
    run("a_vec", "b_novec");
    run("a_novec", "b_vec");
}

/// Each field must keep its own column state independently.
#[test]
fn merge_preserves_per_field_doc_values_independently() {
    let run = |dv_field: &'static str, nodv_field: &'static str| {
        let settings = Settings {
            without_columns: vec![nodv_field],
            ..Default::default()
        };
        let mut index = Index::new();
        let s0 = index.segment(
            "segment_000000",
            vec![(
                0,
                analyzed(&[(dv_field, text("alpha")), (nodv_field, text("alpha"))]),
            )],
            &settings,
            &[],
        );
        let s1 = index.segment(
            "segment_000001",
            vec![(
                1,
                analyzed(&[(dv_field, text("bravo")), (nodv_field, text("bravo"))]),
            )],
            &settings,
            &[],
        );
        let engine = engine();
        let pending = index
            .merge(&engine, MergeStrategy::SizeBased, &[&s0, &s1])
            .unwrap();
        let (_, merged) = index.write(pending);
        assert!(
            merged.has_doc_values(dv_field),
            "{dv_field} must keep its DocValues column after merge"
        );
        assert!(
            !merged.has_doc_values(nodv_field),
            "{nodv_field} must not have a DocValues column after merge"
        );
    };

    // Both orderings, so the result cannot depend on field-name sort order.
    run("a_dv", "b_nodv");
    run("a_nodv", "b_dv");
}

/// The merge's current schema must win over a source segment's stale state.
#[test]
fn merge_resolves_doc_values_from_the_current_schema_over_stale_segments() {
    let mut index = Index::new();
    let s0 = index.segment(
        "segment_000000",
        vec![(
            0,
            analyzed(&[("title", text("alpha")), ("notes", text("legacy note"))]),
        )],
        &Settings::default(),
        &[],
    );
    assert!(
        s0.reader.has_doc_values("notes"),
        "sanity: the source segment must have the column before the merge"
    );

    let mut field_doc_values = FieldMap::new();
    field_doc_values.insert("notes".to_string(), false);
    let config = MergeConfig {
        field_doc_values,
        ..MergeConfig::default()
    };
    let engine = MergeEngine::new(config);
    let pending = index
        .merge(&engine, MergeStrategy::SizeBased, &[&s0])
        .unwrap();
    let (_, merged) = index.write(pending);
    assert!(
        !merged.has_doc_values("notes"),
        "the current schema's doc_values: false must win over the \
         source segment's on-disk column"
    );
    assert!(
        merged.has_doc_values("title"),
        "a field the schema doesn't mention still detects from the source segment"
    );
}

/// A source segment with no value at all for some field must not be misread as that
/// field having opted out.
#[test]
fn merge_does_not_misdetect_a_valueless_field_as_opted_out() {
    let mut index = Index::new();
    // segment_000000: no "extra" field at all.
    let s0 = index.segment(
        "segment_000000",
        vec![(0, analyzed(&[("title", text("alpha"))]))],
        &Settings::default(),
        &[],
    );
    // segment_000001: "extra" is present, with its own real column.
    let d1 = 1;
    let s1 = index.segment(
        "segment_000001",
        vec![(
            d1,
            analyzed(&[("title", text("bravo")), ("extra", text("present"))]),
        )],
        &Settings::default(),
        &[],
    );
    let engine = engine();
    let pending = index
        .merge(&engine, MergeStrategy::SizeBased, &[&s0, &s1])
        .unwrap();
    let (_, merged) = index.write(pending);
    assert!(
        merged.has_doc_values("extra"),
        "segment_000000 having no value for \"extra\" at all must not be \
         misread as an opt-out; segment_000001's real column must still win"
    );
    assert_eq!(
        merged.get_doc_value("extra", d1, &decode_column).unwrap(),
        Some(text("present")),
        "the merged value itself must be intact"
    );
}

fn parsed_empty_body(fields: FieldMap<FieldOption>) -> AnalyzedDocument {
    let parser = DocumentParser::new(Standard).with_fields(fields);
    let mut doc = Document::new();
    doc.insert("body".to_string(), text(""));
    parser.parse(doc, &forms).unwrap()
}

/// A field that analyzes to zero tokens has no term postings, and keeps its length.
#[test]
fn merge_preserves_a_zero_length_field_produced_by_document_parser() {
    let mut fields = FieldMap::new();
    fields.insert("body".to_string(), FieldOption::Text(TextOption::default()));
    let parsed = parsed_empty_body(fields);
    assert_eq!(
        parsed.field_lengths.get("body"),
        Some(&0),
        "test precondition: DocumentParser must record a zero length, \
         not skip the field entirely"
    );
    let (d0, d1) = (0, 1);
    let mut index = Index::new();
    let s0 = index.segment("segment_000000", vec![(d0, parsed)], &Settings::default(), &[]);
    let s1 = index.segment(
        "segment_000001",
        vec![(d1, analyzed(&[("body", text("quick brown fox"))]))],
        &Settings::default(),
        &[],
    );
    assert_eq!(
        s0.reader.field_length(d0, "body").unwrap(),
        Some(0),
        "pre-merge: the zero-token field must read back as Some(0)"
    );

    let engine = engine();
    let pending = index
        .merge(&engine, MergeStrategy::SizeBased, &[&s0, &s1])
        .unwrap();
    let (_, merged) = index.write(pending);
    assert_eq!(
        merged.field_length(d0, "body").unwrap(),
        Some(0),
        "post-merge: the zero-token field's length must survive as \
         Some(0), not vanish to None"
    );
    assert!(
        merged.field_length(d1, "body").unwrap().unwrap() > 0,
        "sanity: the ordinary document's real length must be unaffected"
    );
}

type Derived = Result<(Vec<AnalyzedTerm>, Vec<Vec<u64>>), LaurusError>;

fn rederive(field: &str, value: &DataValue) -> Derived {
    Ok((analyze(field, value)?, Vec::new()))
}

#[test]
fn field_rebuild_preserves_a_target_field_that_re_analyzes_to_zero_tokens() {
    let mut fields = FieldMap::new();
    fields.insert("body".to_string(), FieldOption::Text(TextOption::default()));
    fields.insert(
        "other".to_string(),
        FieldOption::Text(TextOption::default()),
    );
    // d0: "body" recorded as Some(0). d1: no "body" field at all -- must never gain a
    // phantom length.
    let (d0, d1) = (0, 1);
    let mut index = Index::new();
    let s0 = index.segment(
        "segment_000000",
        vec![
            (d0, parsed_empty_body(fields)),
            (d1, analyzed(&[("other", text("hello"))])),
        ],
        &Settings::default(),
        &[],
    );
    assert_eq!(
        s0.reader.field_length(d1, "body").unwrap(),
        None,
        "sanity: a document without the field has no recorded length"
    );

    let engine = engine();
    let results = {
        let decode =
            |info: &SegmentInfo, offset: u64, _: PostingFormat| index.decode(info, offset);
        engine
            .rebuild_field_across_segments(
                &vec![&s0],
                "body",
                Some(&rederive),
                false,
                false,
                &vec!["segment_rebuilt".to_string()],
                &decode,
                &analyze,
                &candidate,
            )
            .unwrap()
    };
    assert_eq!(results.len(), 1);

    let (_, rebuilt) = index.write(results.into_iter().next().unwrap());
    assert_eq!(
        rebuilt.field_length(d0, "body").unwrap(),
        Some(0),
        "the rebuilt target_field's zero-token re-analysis must survive \
         as Some(0), not None"
    );
    assert_eq!(
        rebuilt.field_length(d1, "body").unwrap(),
        None,
        "a document that never had target_field must not gain a \
         phantom Some(0) from being in the segment's recorded-length set"
    );
}

fn bare(ids: &[u64]) -> Vec<(u64, AnalyzedDocument)> {
    ids.iter().map(|&id| (id, AnalyzedDocument::new())).collect()
}

/// A doc_id belongs to the LAST segment (in processing order) that has it live.
#[test]
fn resolve_owned_doc_ids_matches_last_processed_segment_wins() {
    // seg0 live {1, 5}, seg1 live {7}, seg2 live {5, 9} -- doc_id 5
    // collides between seg0 and seg2; the LAST one processed (seg2)
    // must own it.
    let mut index = Index::new();
    let seg0 = index.segment("seg0", bare(&[1, 5]), &Settings::default(), &[]);
    let seg1 = index.segment("seg1", bare(&[7]), &Settings::default(), &[]);
    let seg2 = index.segment("seg2", bare(&[5, 9]), &Settings::default(), &[]);

    assert!(
        doc_id_ranges_overlap(&vec![&seg0, &seg1, &seg2]),
        "seg0's [1,5] and seg2's [5,9] ranges overlap"
    );

    let owned = resolve_owned_doc_ids(&vec![&seg0, &seg1, &seg2])
        .unwrap()
        .expect("overlapping ranges must trigger resolution, not the None fast path");

    assert_eq!(owned[0].iter().collect::<Vec<_>>(), vec![1]);
    assert_eq!(owned[1].iter().collect::<Vec<_>>(), vec![7]);
    assert_eq!(owned[2].iter().collect::<Vec<_>>(), vec![5, 9]);

    // Disjoint ranges: the common case must short-circuit to `None`
    // without ever reading a document (the documents here cannot be read).
    let unreadable = |name: &str, id: u64| MergeSource {
        managed: ManagedSegmentInfo::created_at(segment_info(name, 1, id, id, 0), 1),
        reader: SegmentReader::open(
            segment_info(name, 1, id, id, 0),
            SegmentParts {
                docs: Some(vec![0]),
                ..no_parts()
            },
        ),
    };
    let disjoint_a = unreadable("nonexistent_a", 100);
    let disjoint_b = unreadable("nonexistent_b", 200);
    assert!(!doc_id_ranges_overlap(&vec![&disjoint_a, &disjoint_b]));
    assert!(resolve_owned_doc_ids(&vec![&disjoint_a, &disjoint_b])
        .unwrap()
        .is_none());
}

/// The last-processed segment wins.
#[test]
fn merge_with_overlapping_doc_ids_keeps_the_last_processed_copy() {
    let mut index = Index::new();
    let seg_a = index.segment(
        "seg_a",
        vec![(5, analyzed(&[("title", text("alpha"))]))],
        &Settings::default(),
        &[],
    );
    let seg_b = index.segment(
        "seg_b",
        vec![(5, analyzed(&[("title", text("bravo"))]))],
        &Settings::default(),
        &[],
    );
    let engine = engine();
    let pending = index
        .merge(&engine, MergeStrategy::SizeBased, &[&seg_a, &seg_b])
        .unwrap();
    let (info, merged) = index.write(pending);

    assert_eq!(
        info.doc_count, 1,
        "the collision must resolve to exactly one surviving document"
    );
    let doc = merged.document(5).unwrap().unwrap();
    match doc.fields.get("title") {
        Some(DataValue::Text(t)) => assert_eq!(
            t, "bravo",
            "the later-processed segment's copy must win a doc_id collision"
        ),
        other => panic!("unexpected title field after merge: {other:?}"),
    }

    assert_eq!(index.found(&merged, "title", "bravo"), vec![5]);
    assert!(
        index.found(&merged, "title", "alpha").is_empty(),
        "the losing segment's postings must not appear in the merged output"
    );
}

fn no_buffer() -> MergeBuffer {
    MergeBuffer {
        term_positions: FieldMap::new(),
        doc_values: FieldMap::new(),
        documents: Vec::new(),
    }
}

/// The settings of fields are found out from every live document, including one that is
/// superseded by a later segment.
#[test]
fn merge_detects_field_settings_from_a_losing_copy() {
    let mut index = Index::new();
    // seg_a: doc 5's "title:widget" carries positions. This is seg_a's only document.
    let seg_a = index.segment(
        "seg_a",
        vec![(5, analyzed(&[("title", text("widget widget"))]))],
        &Settings::default(),
        &[],
    );
    // seg_b: doc 5 (collides with seg_a, and wins) is written without positions.
    let seg_b = index.segment(
        "seg_b",
        vec![(5, analyzed(&[("title", text("gadget"))]))],
        &Settings {
            without_positions: vec!["title"],
            ..Default::default()
        },
        &[],
    );

    // seg_a does not own doc 5 (seg_b, processed after it, does).
    let not_owned_by_a = RoaringTreemap::new();
    let mut owned_by_b = RoaringTreemap::new();
    owned_by_b.insert(5);

    let mut buffer = no_buffer();
    let mut emitted = RoaringTreemap::new();
    {
        let decode =
            |info: &SegmentInfo, offset: u64, _: PostingFormat| index.decode(info, offset);
        replay_segment_into_writer(
            &seg_a.reader,
            &RoaringTreemap::new(),
            Some(&not_owned_by_a),
            &mut emitted,
            &mut buffer,
            &decode,
            &analyze,
            &candidate,
        )
        .unwrap();
        replay_segment_into_writer(
            &seg_b.reader,
            &RoaringTreemap::new(),
            Some(&owned_by_b),
            &mut emitted,
            &mut buffer,
            &decode,
            &analyze,
            &candidate,
        )
        .unwrap();
    }
    let (_, merged) = index.write(PendingMerge {
        segment_info: segment_info("merged", 1, 5, 5, 2),
        buffer,
        stats: MergeStats::default(),
    });
    let hits = index.hits(&merged, "title", "gadget");
    assert_eq!(hits.len(), 1);
    assert_eq!(hits[0].0, 5);
    assert!(
        !hits[0].2.is_empty(),
        "\"title\" must be detected as positions=true from seg_a's losing copy, \
         even though the surviving document came from seg_b (built with \
         positions disabled)"
    );
}

/// A document that two segments hand over is a hard error.
#[test]
fn replay_segment_into_writer_rejects_a_doc_id_emitted_twice() {
    let mut index = Index::new();
    let seg = index.segment("seg", bare(&[5]), &Settings::default(), &[]);
    let mut owned = RoaringTreemap::new();
    owned.insert(5);

    let decode = |info: &SegmentInfo, offset: u64, _: PostingFormat| index.decode(info, offset);
    let mut buffer = no_buffer();
    let mut emitted = RoaringTreemap::new();
    replay_segment_into_writer(
        &seg.reader,
        &RoaringTreemap::new(),
        Some(&owned),
        &mut emitted,
        &mut buffer,
        &decode,
        &analyze,
        &candidate,
    )
    .unwrap();

    let err = replay_segment_into_writer(
        &seg.reader,
        &RoaringTreemap::new(),
        Some(&owned),
        &mut emitted,
        &mut buffer,
        &decode,
        &analyze,
        &candidate,
    )
    .unwrap_err();
    assert!(
        err.message().contains("emitted twice"),
        "a doc_id emitted by two (mis-)owned segments must be a hard error: {err:?}"
    );
    assert_eq!(err, LaurusError::EmittedTwice { doc_id: 5 });
}

/// A read failure in the second segment, after the first was replayed, gives no merged
/// segment.
#[test]
fn merge_aborts_without_publishing_when_a_source_read_fails() {
    let mut index = Index::new();
    let s0 = index.segment(
        "segment_000000",
        vec![(0, text_int_doc("alpha bravo", 10))],
        &Settings::default(),
        &[],
    );
    let mut parts = index.parts(
        "segment_000001",
        vec![(1, text_int_doc("charlie delta", 20))],
        &|_: &str| true,
        &|_: &str| true,
    );
    parts.docs = Some(b"XXXX".to_vec());
    let info = segment_info("segment_000001", 1, 1, 1, 1);
    let s1 = MergeSource {
        managed: ManagedSegmentInfo::created_at(info.clone(), 1),
        reader: SegmentReader::open(info, parts),
    };
    let engine = engine();
    let result = index.merge(&engine, MergeStrategy::SizeBased, &[&s0, &s1]);
    assert!(result.is_err(), "the injected read failure must surface");
    assert!(matches!(
        result.unwrap_err(),
        LaurusError::StoredFieldsMagic
    ));
}

#[test]
fn the_first_failure_ends_a_merge() {
    let mut index = Index::new();
    let broken = |index: &mut Index, id: &str, doc_id: u64, docs: &[u8], dictionary: bool| {
        let mut parts = index.parts(
            id,
            vec![(doc_id, text_int_doc("charlie delta", 20))],
            &|_: &str| true,
            &|_: &str| true,
        );
        parts.docs = Some(docs.to_vec());
        if dictionary {
            parts.dictionary = Err(LaurusError::FirstDelta);
        }
        let info = segment_info(id, 1, doc_id, doc_id, 1);
        MergeSource {
            managed: ManagedSegmentInfo::created_at(info.clone(), 1),
            reader: SegmentReader::open(info, parts),
        }
    };
    let version = LaurusError::StoredFieldsVersion {
        found: 9,
        supported: 1,
    };
    let s0 = broken(&mut index, "a", 0, b"SDOC\x09\x00\x00", false);
    let s1 = broken(&mut index, "b", 1, b"XXXX", false);
    let s2 = broken(&mut index, "c", 2, b"XXXX", true);
    let engine = engine();
    let fails = |index: &mut Index, sources: &[&MergeSource]| {
        index
            .merge(&engine, MergeStrategy::SizeBased, sources)
            .err()
            .unwrap()
    };
    assert_eq!(fails(&mut index, &[&s0, &s1]), version);
    assert_eq!(
        fails(&mut index, &[&s1, &s0]),
        LaurusError::StoredFieldsMagic
    );
    // The dictionary is asked for before the documents.
    assert_eq!(fails(&mut index, &[&s2, &s0]), LaurusError::FirstDelta);
}

#[test]
fn a_merge_without_segments_is_refused() {
    let index = Index::new();
    let engine = engine();
    let err = index
        .merge(&engine, MergeStrategy::Balanced, &[])
        .unwrap_err();
    assert_eq!(err, LaurusError::NoSegments);
    assert_eq!(err.message(), "No segments found to merge");
}

#[test]
fn deleted_documents_do_not_survive_a_merge() {
    let mut index = Index::new();
    let s0 = index.segment(
        "a",
        (0..10u64)
            .map(|i| (i, text_int_doc("alpha", i as i64)))
            .collect(),
        &Settings::default(),
        &[2, 9],
    );
    let s1 = index.segment(
        "b",
        (10..13u64)
            .map(|i| (i, text_int_doc("alpha", i as i64)))
            .collect(),
        &Settings::default(),
        &[10],
    );
    let engine = engine();
    let pending = index
        .merge(&engine, MergeStrategy::TimeBased, &[&s0, &s1])
        .unwrap();
    assert_eq!(pending.segment_info.segment_id, "merged_1");
    assert_eq!(pending.stats.segments_merged, 2);
    assert_eq!(pending.stats.docs_processed, 10);
    assert_eq!(pending.stats.postings_merged, 10);
    assert_eq!(pending.stats.deleted_docs_removed, 3);
    let (info, merged) = index.write(pending);
    assert_eq!((info.doc_count, info.min_doc_id, info.max_doc_id), (10, 0, 12));
    assert_eq!((info.has_deletions, info.deleted_count), (false, Some(0)));
    let live: Vec<u64> = vec![0, 1, 3, 4, 5, 6, 7, 8, 11, 12];
    assert_eq!(merged.doc_ids().unwrap(), live);
    assert_eq!(index.found(&merged, "title", "alpha"), live);
    let tree = merged.get_bkd_tree("num").unwrap().unwrap();
    assert_eq!(
        tree.range_search(&[None], &[None], true, true).unwrap(),
        live
    );
}

#[test]
fn strategies_order_the_segments() {
    // Every segment has document 5: the last one in the order wins.
    let winner = |strategy: MergeStrategy, change: fn(usize, &mut ManagedSegmentInfo)| {
        let mut index = Index::new();
        let mut sources: Vec<MergeSource> = Vec::new();
        for (i, name) in ["a", "b", "c"].iter().enumerate() {
            let mut source = index.segment(
                name,
                vec![(5, analyzed(&[("title", text(name))]))],
                &Settings::default(),
                &[],
            );
            change(i, &mut source.managed);
            sources.push(source);
        }
        let refs: Vec<&MergeSource> = sources.iter().collect();
        let engine = engine();
        let pending = index.merge(&engine, strategy, &refs).unwrap();
        assert_eq!(pending.segment_info.doc_count, 1);
        let (_, merged) = index.write(pending);
        let doc = merged.document(5).unwrap().unwrap();
        doc.get_field("title").unwrap().clone()
    };
    // Small segments first.
    assert_eq!(
        winner(MergeStrategy::SizeBased, |i, s| s.size_bytes = [30, 50, 10][i]),
        text("b")
    );
    // Old segments first.
    assert_eq!(
        winner(MergeStrategy::TimeBased, |i, s| s.created_at = [9, 3, 4][i]),
        text("a")
    );
    // Many deletions first.
    assert_eq!(
        winner(MergeStrategy::DeletionBased, |i, s| s.deleted_count = [0, 1, 1][i]),
        text("a")
    );
    // Small, old segments with many deletions first.
    assert_eq!(
        winner(MergeStrategy::Balanced, |i, s| {
            s.deleted_count = [1, 0, 1][i];
            s.size_bytes = 7;
        }),
        text("b")
    );
    // Ties keep their order.
    assert_eq!(winner(MergeStrategy::SizeBased, |_, _| {}), text("c"));
}

#[test]
fn a_completed_merge_is_counted() {
    let mut index = Index::new();
    let mut s0 = index.segment("a", bare(&[1, 2]), &Settings::default(), &[]);
    s0.managed.size_bytes = 1000;
    let engine = engine();
    let files = vec![("m.docs".to_string(), 300u64), ("m.dict".to_string(), 200)];
    let pending = || {
        index
            .merge(&engine, MergeStrategy::SizeBased, &[&s0])
            .unwrap()
    };
    let result = engine
        .complete_merge(pending(), &files, 9, 100, 130, Ok(2), &ratio)
        .unwrap();
    assert_eq!(result.new_segment.size_bytes, 500);
    assert_eq!(result.new_segment.created_at, 9);
    assert_eq!(result.file_paths, vec!["m.docs", "m.dict"]);
    assert_eq!(result.new_segment.file_paths, result.file_paths);
    assert_eq!(result.stats.merge_time_ms, 30);
    assert_eq!((result.stats.size_before, result.stats.size_after), (1000, 500));
    assert_eq!((result.stats.segments_merged, result.stats.docs_processed), (1, 2));
    assert_eq!(result.stats.deleted_docs_removed, 0);
    assert_eq!(result.stats.shard_id, result.new_segment.segment_info.shard_id);
    assert_eq!(f64::from_bits(result.stats.compression_ratio), 0.5);

    let err = engine
        .complete_merge(pending(), &files, 9, 100, 130, Ok(3), &ratio)
        .unwrap_err();
    assert_eq!(err, LaurusError::MergedCount);
    assert_eq!(err.message(), "Document count mismatch after merge");

    let lenient = MergeEngine::new(MergeConfig {
        verify_after_merge: false,
        ..MergeConfig::default()
    });
    assert!(lenient
        .complete_merge(pending(), &files, 9, 130, 100, Ok(3), &ratio)
        .is_ok());
}

#[test]
fn a_field_can_be_analyzed_anew() {
    let mut index = Index::new();
    let s0 = index.segment(
        "a",
        vec![
            (1, text_int_doc("alpha bravo", 10)),
            (2, text_int_doc("bravo", 20)),
        ],
        &Settings::default(),
        &[2],
    );
    let engine = engine();
    let keyword = |field: &str, value: &DataValue| -> Derived {
        Ok((analyze_keyword(field, value)?, Vec::new()))
    };
    let results = {
        let decode =
            |info: &SegmentInfo, offset: u64, _: PostingFormat| index.decode(info, offset);
        engine
            .rebuild_field_across_segments(
                &vec![&s0],
                "title",
                Some(&keyword),
                true,
                false,
                &vec!["new".to_string()],
                &decode,
                &analyze,
                &candidate,
            )
            .unwrap()
    };
    let pending = results.into_iter().next().unwrap();
    assert_eq!(pending.buffer.doc_values.get("title"), Some(&false));
    assert_eq!(pending.stats.docs_processed, 1);
    let (info, rebuilt) = index.write(pending);
    assert_eq!(info.segment_id, "new");
    assert_eq!((info.min_doc_id, info.max_doc_id), (1, 1));
    assert_eq!(index.found(&rebuilt, "title", "alpha bravo"), vec![1]);
    assert!(index.found(&rebuilt, "title", "bravo").is_empty());
    assert_eq!(rebuilt.field_length(1, "title").unwrap(), Some(1));
    assert!(!rebuilt.has_doc_values("title"));
    assert!(rebuilt.has_doc_values("num"));

    // Without an analysis the field leaves the index.
    let results = {
        let decode =
            |info: &SegmentInfo, offset: u64, _: PostingFormat| index.decode(info, offset);
        let none: Option<&fn(&str, &DataValue) -> Derived> = None;
        engine
            .rebuild_field_across_segments(
                &vec![&s0],
                "title",
                none,
                true,
                true,
                &vec!["gone".to_string()],
                &decode,
                &analyze,
                &candidate,
            )
            .unwrap()
    };
    let (_, unindexed) = index.write(results.into_iter().next().unwrap());
    assert!(index.found(&unindexed, "title", "bravo").is_empty());
    assert_eq!(unindexed.field_length(1, "title").unwrap(), None);
    assert_eq!(
        unindexed.document(1).unwrap().unwrap().get_field("title"),
        Some(&text("alpha bravo"))
    );
}

#[test]
fn the_postings_of_a_field_that_is_rebuilt_are_not_read() {
    let mut index = Index::new();
    let s0 = index.segment(
        "a",
        vec![(1, text_int_doc("alpha bravo", 10))],
        &Settings::default(),
        &[],
    );
    let engine = engine();
    let keyword = |field: &str, value: &DataValue| -> Derived {
        Ok((analyze_keyword(field, value)?, Vec::new()))
    };
    // The postings of the words of the title cannot be read.
    let decode = |info: &SegmentInfo, offset: u64, _: PostingFormat| {
        let list = index.decode(info, offset)?;
        if list.term == "alpha" || list.term == "bravo" {
            Err(LaurusError::FirstDelta)
        } else {
            Ok(list)
        }
    };
    let rebuild = |field: &str| {
        engine.rebuild_field_across_segments(
            &vec![&s0],
            field,
            Some(&keyword),
            true,
            false,
            &vec!["new".to_string()],
            &decode,
            &analyze,
            &candidate,
        )
    };
    assert_eq!(rebuild("title").unwrap().len(), 1);
    assert_eq!(rebuild("num").err(), Some(LaurusError::FirstDelta));
}

#[test]
fn ranges_overlap_when_they_share_an_id() {
    let source = |name: &str, ids: &[u64]| {
        let mut index = Index::new();
        index.segment(name, bare(ids), &Settings::default(), &[])
    };
    let a = source("a", &[1, 4]);
    let b = source("b", &[5, 9]);
    let c = source("c", &[9, 12]);
    let none = source("d", &[]);
    assert!(!doc_id_ranges_overlap(&vec![&b, &a, &none]));
    assert!(doc_id_ranges_overlap(&vec![&c, &a, &b]));
    let seen: BTreeSet<u64> = [&a, &b, &c]
        .iter()
        .flat_map(|s| s.reader.doc_ids().unwrap())
        .collect();
    assert_eq!(seen.into_iter().collect::<Vec<_>>(), vec![1, 4, 5, 9, 12]);
}

#[test]
fn the_bounds_of_blocks_stay_with_their_terms() {
    let mut terms = FieldMap::new();
    terms.insert(
        "body:a".to_string(),
        TermInfo {
            posting_offset: 0,
            posting_length: 1,
            doc_frequency: 1,
            total_frequency: 2,
            max_score_factor: 1.5f32.to_bits(),
            block_max: vec![BlockMax {
                last_doc_id: 3,
                max_factor: 1.5f32.to_bits(),
            }],
        },
    );
    let dict = TermDictionary {
        terms,
        posting_format_version: 2,
    };
    let info = dict.get("body", "a").unwrap();
    assert_eq!(info.block_max.len(), 1);
    assert_eq!(info.total_frequency, 2);
    assert!(dict.get("body", "b").is_none());
}

#[test]
fn into_deleted_docs_matches_the_vec_it_replaces() {
    let as_vec = vec![3u64, 7, 42, 900, 999];
    let bitmap = DeletionBitmap::from_sorted(&as_vec, 1000).unwrap();
    let as_bitmap = bitmap.deleted_docs();
    assert_eq!(as_bitmap.len(), as_vec.len() as u64);
    assert_eq!(as_bitmap.iter().collect::<Vec<u64>>(), as_vec);
    for doc_id in &as_vec {
        assert!(as_bitmap.contains(*doc_id));
    }
    assert!(!as_bitmap.contains(4));
}

#[test]
fn documents_that_are_kept_are_found_without_searching() {
    let reader = reader_of(vec![]);
    let found = |ids: &[u64]| RoaringTreemap::from_sorted_iter(ids.iter().copied()).unwrap();
    let search = || Ok(found(&[1, 2]));
    let fail = || Err(LaurusError::ReaderClosed);

    // A query without a name is searched for, and not kept.
    let (ids, keep) = reader.matching_doc_ids(None, None, &search).unwrap();
    assert_eq!((&*ids, keep), (&found(&[1, 2]), false));
    // One with a name is searched for once, and then kept.
    let (ids, keep) = reader
        .matching_doc_ids(Some("term|body|a"), None, &search)
        .unwrap();
    assert_eq!((&*ids, keep), (&found(&[1, 2]), true));
    let (again, keep) = reader
        .matching_doc_ids(Some("term|body|a"), Some(ids), &fail)
        .unwrap();
    assert_eq!((&*again, keep), (&found(&[1, 2]), false));
    assert_eq!(
        reader.matching_doc_ids(Some("x"), None, &fail).unwrap_err(),
        LaurusError::ReaderClosed
    );
}
