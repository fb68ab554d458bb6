//! A small full-text search engine: documents are tokenized into normalized
//! terms, a corpus is indexed into per-document term counts plus a derived
//! corpus-wide document-frequency map, and free-text queries rank every
//! document by TF-IDF, computed in fixed point, with deterministic
//! tie-breaking.

pub mod assoc;
pub mod chars;
pub mod idf;
pub mod indexer;
pub mod lexer;
pub mod model;
pub mod order;
pub mod search;
