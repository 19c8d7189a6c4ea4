//! A thesaurus built on the English WordNet lexical database.
//!
//! The core is the importer: it parses a WordNet LMF document into three
//! tables (lexical entries, senses, synsets), resolves the sense and synset
//! relation graph into per-lemma maps, and composes one flat, search-oriented
//! document per usable lemma, with every relation edge classified into one of
//! five categories. Each stage carries a contract that pins its result down,
//! and the invariants of the output documents are stated and proved in
//! `laws`.
//!
//! Around the core stand the upload plan for the search index (`emit`), the
//! error model (`error`), and the data contract of the read-only serving
//! layer (`api`).
pub mod api;
pub mod config;
pub mod emit;
pub mod error;
pub mod laws;
pub mod models;
pub mod parse;
pub mod resolve;
pub mod text;
pub mod transform;
pub mod xml;
