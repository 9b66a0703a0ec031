//! A verified lexical index: stored fields, point trees, DocValues, posting
//! iteration, segment merging and value coercion, each with its contract.

pub mod analysis;
pub mod analyzed;
pub mod arrange_laws;
pub mod bits;
pub mod bkd_tree;
pub mod carry_laws;
pub mod codec;
pub mod codec_laws;
pub mod coercion_laws;
pub mod column;
pub mod data;
pub mod datetime;
pub mod deletion;
pub mod dictionary;
pub mod doc_id_set;
pub mod doc_values;
pub mod error;
pub mod field;
pub mod floats;
pub mod grouping;
pub mod ids;
pub mod live_tree;
pub mod merge_engine;
pub mod merge_laws;
pub mod merging;
pub mod message;
pub mod names;
pub mod norms;
pub mod norms_laws;
pub mod numbers;
pub mod outside;
pub mod parser;
pub mod parser_laws;
pub mod posting;
pub mod posting_iterator;
pub mod posting_laws;
pub mod query;
pub mod reader;
pub mod reader_laws;
pub mod replay;
pub mod schema;
pub mod search_laws;
pub mod segment;
pub mod segment_laws;
pub mod segment_reader;
pub mod sort;
pub mod stored_fields;
pub mod stored_laws;
pub mod term_cache;
pub mod text;
pub mod treemap;
pub mod type_coercion;
pub mod value_laws;
pub mod visitor;
