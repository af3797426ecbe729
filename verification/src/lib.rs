//! Query and document terms of a full-text search engine, with Japanese lexical variants.
//!
//! The library turns the tokens of a query into located query terms, resegments Japanese terms
//! against the words of an index, and gives the words of a document their positions. Words are
//! compared by their characters and measured, where an index key limits them, by their UTF-8 bytes.
#![allow(unused_imports)]

pub mod candidate_laws;
pub mod candidates;
pub mod context;
pub mod document;
pub mod document_laws;
pub mod field_laws;
pub mod field_terms;
pub mod japanese;
pub mod japanese_laws;
pub mod lookup_laws;
pub mod merging_laws;
pub mod ordering;
pub mod parse_query;
pub mod phrase_laws;
pub mod phrase_variants;
pub mod plain;
pub mod positions;
pub mod query_laws;
pub mod query_term;
pub mod reading_laws;
pub mod resegmentation;
pub mod resegmentation_laws;
pub mod segmentation;
pub mod text;
pub mod text_laws;
pub mod token;
pub mod tokenizer;
pub mod words;
