//! EidosDB: a vector database with payload filtering, a lexical BM25 channel,
//! and an HNSW graph index. This crate holds the verified logic of the system;
//! floating-point scoring, files and the command line live around it.

// Identifiers, dimensions and metrics.
pub mod dimension;
pub mod metric;
pub mod vector_id;
pub mod errors;
pub mod text;

// Scores, ranking and vector indexes.
pub mod ranking;
pub mod embedding_check;
pub mod flat_index;
pub mod hnsw_config;
pub mod splitmix;
pub mod hnsw_graph;
pub mod hnsw_index;
pub mod hnsw_search;

// The lexical channel.
pub mod analyzer;
pub mod document;
pub mod lexical_index;

// Payloads, filters and queries.
pub mod float_bits;
pub mod value;
pub mod payload;
pub mod filter;
pub mod payload_store;
pub mod query;
pub mod collection_stores;

// The wire format and its conversions.
pub mod pb;
pub mod convert_enums;
pub mod convert_payload;
pub mod convert_filter;
pub mod convert_delete;
pub mod convert_point;
pub mod convert_search;
pub mod status;

// Server, client and command-line rules.
pub mod collection_meta;
pub mod service_rules;
pub mod client;
pub mod cli;
pub mod json_parse;
pub mod json_args;

// Benchmark measures.
pub mod latency;
pub mod recall;
