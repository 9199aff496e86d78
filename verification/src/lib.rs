//! A full-text index: a tokenizer, the keys and records under which an index
//! is stored, the counting of the terms of a document, and the search over
//! posting lists, with what holds of each of them.
pub mod error;
pub mod index;
pub mod ingest;
pub mod parse;
pub mod parse_laws;
pub mod records;
pub mod search_laws;
pub mod store;
pub mod store_laws;
pub mod top_docs;
mod utf8;
pub mod wire;
