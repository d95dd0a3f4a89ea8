//! A small full-text search engine: schema, tokenizer, inverted index,
//! query parser, relevance scoring and bounded top-k collection.

pub mod engine;
pub mod index;
pub mod laws;
pub mod query;
pub mod schema;
pub mod search;
pub mod tokenizer;
pub mod topk;
