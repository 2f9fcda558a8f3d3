//! The names of the file formats of embeddings.

use vstd::prelude::*;

use crate::error::Error;
use crate::util::str_eq;

verus! {

/// A file format from which embeddings can be read.
#[derive(Clone, Copy, Debug, PartialEq, Eq, Structural)]
pub enum EmbeddingFormat {
    /// The native container, read into memory.
    Rust2Vec,
    /// The native container, with the matrix memory-mapped.
    Rust2VecMmap,
    /// The binary format of word2vec.
    Word2Vec,
    /// Text, one word with its vector on each line.
    Text,
    /// Text that starts with a line of the numbers of words and dimensions.
    TextDims,
}

impl EmbeddingFormat {
    /// The format that `format` names, if it names one.
    pub open spec fn named(format: Seq<char>) -> Option<EmbeddingFormat> {
        if format == "rust2vec"@ {
            Some(EmbeddingFormat::Rust2Vec)
        } else if format == "rust2vec_mmap"@ {
            Some(EmbeddingFormat::Rust2VecMmap)
        } else if format == "word2vec"@ {
            Some(EmbeddingFormat::Word2Vec)
        } else if format == "text"@ {
            Some(EmbeddingFormat::Text)
        } else if format == "textdims"@ {
            Some(EmbeddingFormat::TextDims)
        } else {
            None
        }
    }

    /// The format that `format` names: one of `rust2vec`, `rust2vec_mmap`,
    /// `word2vec`, `text` and `textdims`. Any other name fails with
    /// `UnknownFormat`.
    pub fn try_from(format: &str) -> (r: Result<EmbeddingFormat, Error>)
        ensures
            match Self::named(format@) {
                Some(found) => r == Ok::<EmbeddingFormat, Error>(found),
                None => r == Err::<EmbeddingFormat, Error>(Error::UnknownFormat),
            },
    {
        if str_eq(format, "rust2vec") {
            Ok(EmbeddingFormat::Rust2Vec)
        } else if str_eq(format, "rust2vec_mmap") {
            Ok(EmbeddingFormat::Rust2VecMmap)
        } else if str_eq(format, "word2vec") {
            Ok(EmbeddingFormat::Word2Vec)
        } else if str_eq(format, "text") {
            Ok(EmbeddingFormat::Text)
        } else if str_eq(format, "textdims") {
            Ok(EmbeddingFormat::TextDims)
        } else {
            Err(Error::UnknownFormat)
        }
    }
}

} // verus!
