//! An in-memory full-text search engine: dictionaries that intern terms and
//! fields, positional vectors, inverted indexes with positional postings, a
//! query algebra with its simplifier, and an executor that answers a query
//! with the matching documents and their scores.
//!
//! The library performs no floating-point arithmetic. Weights and scores are
//! kept as terms over single-precision values (see [`scalar::Scalar`]), so the
//! contracts say exactly which operations make up each score; the holder of a
//! result evaluates it.

pub mod data_dictionary;
pub mod database;
pub mod executor;
pub mod ids;
pub mod index;
pub mod ingest;
pub mod laws;
pub mod lists;
pub mod query;
pub mod scalar;
pub mod service;
pub mod source;
pub mod table;
pub mod term_dictionary;
pub mod tsvector;
