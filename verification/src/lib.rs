//! Storage, lookup and serialization of word embeddings.
//!
//! The crate holds the verified core of an embedding store: the chunked
//! binary container, vocabularies with and without subword fallback, the
//! n-gram bucket hashing and the ranking of query results.

pub mod array;
pub mod container;
pub mod embeddings;
pub mod error;
pub mod fasttext;
pub mod format;
pub mod index;
pub mod io;
pub mod le;
pub mod metadata;
pub mod norms;
pub mod similarity;
pub mod storage;
pub mod subword;
pub mod util;
pub mod vocab;
pub mod word2vec;
