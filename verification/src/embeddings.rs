//! Embeddings: a vocabulary with the matrix that its rows address.

use vstd::prelude::*;

use crate::error::Error;
use crate::metadata::Metadata;
use crate::norms::Norms;
use crate::storage::{MatrixView, StorageBackend};
use crate::vocab::{found, texts, Indices, IndicesView, Vocab};

verus! {

/// The rows of the matrix `matrix` that `indices` names, in their order.
pub open spec fn rows_of(matrix: MatrixView, indices: IndicesView) -> Seq<Seq<u32>> {
    indices.rows().map_values(|row: int| matrix.row(row))
}

/// Word embeddings.
///
/// The matrix has exactly the rows that the vocabulary addresses: one for
/// each word, and behind them one for each bucket of subwords where the
/// vocabulary has them. Norms, where present, number one for each row.
pub struct Embeddings<'a, V> {
    vocab: V,
    storage: StorageBackend<'a>,
    norms: Option<Norms>,
    metadata: Option<Metadata>,
}

impl<'a, V: Vocab> Embeddings<'a, V> {
    /// The vocabulary.
    pub closed spec fn spec_vocab(&self) -> V {
        self.vocab
    }

    /// The matrix.
    pub closed spec fn spec_storage(&self) -> StorageBackend<'a> {
        self.storage
    }

    /// The norms, if there are any.
    pub closed spec fn spec_norms(&self) -> Option<Seq<u32>> {
        match self.norms {
            Some(norms) => Some(norms.0@),
            None => None,
        }
    }

    /// The text of the metadata, if there is any.
    pub closed spec fn spec_metadata(&self) -> Option<Seq<char>> {
        match self.metadata {
            Some(metadata) => Some(metadata.0@),
            None => None,
        }
    }

    /// The matrix has the rows that the vocabulary addresses, and there
    /// are as many norms as rows if there are any.
    pub open spec fn wf(&self) -> bool {
        &&& self.spec_vocab().wf()
        &&& self.spec_storage().wf()
        &&& self.spec_storage()@.rows == self.spec_vocab().spec_total_rows()
        &&& self.spec_norms() matches Some(norms) ==> norms.len() == self.spec_storage()@.rows
    }

    /// Embeddings of a vocabulary and a matrix, without norms and
    /// metadata. Fails with `ShapeMismatch` when the matrix does not have
    /// exactly the rows that the vocabulary addresses.
    pub fn new(vocab: V, storage: StorageBackend<'a>) -> (r: Result<Self, Error>)
        requires
            vocab.wf(),
            storage.wf(),
        ensures
            match r {
                Ok(embeddings) => {
                    &&& storage@.rows == vocab.spec_total_rows()
                    &&& embeddings.wf()
                    &&& embeddings.spec_vocab() == vocab
                    &&& embeddings.spec_storage() == storage
                    &&& embeddings.spec_norms() is None
                    &&& embeddings.spec_metadata() is None
                },
                Err(e) => e == Error::ShapeMismatch && storage@.rows != vocab.spec_total_rows(),
            },
    {
        let (rows, _dims) = storage.shape();
        if rows != vocab.total_rows() {
            return Err(Error::ShapeMismatch);
        }
        Ok(Embeddings { vocab, storage, norms: None, metadata: None })
    }

    /// Attaches `norms`, or takes them away with `None`. Fails with
    /// `ShapeMismatch`, and changes nothing, when there is not one norm
    /// for each row.
    pub fn set_norms(&mut self, norms: Option<Norms>) -> (r: Result<(), Error>)
        requires
            old(self).wf(),
        ensures
            final(self).wf(),
            final(self).spec_vocab() == old(self).spec_vocab(),
            final(self).spec_storage() == old(self).spec_storage(),
            final(self).spec_metadata() == old(self).spec_metadata(),
            match norms {
                Some(given) if given.0@.len() != old(self).spec_storage()@.rows => r == Err::<
                    (),
                    Error,
                >(Error::ShapeMismatch) && final(self).spec_norms() == old(self).spec_norms(),
                Some(given) => r.is_ok() && final(self).spec_norms() == Some(given.0@),
                None => r.is_ok() && final(self).spec_norms() is None,
            },
    {
        if let Some(given) = &norms {
            let (rows, _dims) = self.storage.shape();
            if given.len() != rows {
                return Err(Error::ShapeMismatch);
            }
        }
        self.norms = norms;
        Ok(())
    }

    /// Attaches `metadata`, or takes it away with `None`.
    pub fn set_metadata(&mut self, metadata: Option<Metadata>)
        requires
            old(self).wf(),
        ensures
            final(self).wf(),
            final(self).spec_vocab() == old(self).spec_vocab(),
            final(self).spec_storage() == old(self).spec_storage(),
            final(self).spec_norms() == old(self).spec_norms(),
            final(self).spec_metadata() == match metadata {
                Some(given) => Some(given.0@),
                None => None,
            },
    {
        self.metadata = metadata;
    }

    /// The matrix.
    pub fn data(&self) -> (r: &StorageBackend<'a>)
        ensures
            *r == self.spec_storage(),
    {
        &self.storage
    }

    /// The vocabulary.
    pub fn vocab(&self) -> (r: &V)
        ensures
            *r == self.spec_vocab(),
    {
        &self.vocab
    }

    /// The norms, if there are any.
    pub fn norms(&self) -> (r: Option<&Norms>)
        ensures
            match r {
                Some(norms) => self.spec_norms() == Some(norms.0@),
                None => self.spec_norms() is None,
            },
    {
        self.norms.as_ref()
    }

    /// The metadata, if there is any.
    pub fn metadata(&self) -> (r: Option<&Metadata>)
        ensures
            match r {
                Some(metadata) => self.spec_metadata() == Some(metadata.0@),
                None => self.spec_metadata() is None,
            },
    {
        self.metadata.as_ref()
    }

    /// The length of the embeddings, in vector components.
    pub fn embed_len(&self) -> (r: usize)
        ensures
            r == self.spec_storage()@.dims,
    {
        self.storage.shape().1
    }

    /// The number of words for which embeddings are stored.
    pub fn len(&self) -> (r: usize)
        requires
            self.wf(),
        ensures
            r == self.spec_vocab().word_texts().len(),
            r <= self.spec_storage()@.rows,
    {
        self.vocab.len()
    }

    /// The words for which embeddings are stored. Word `i` has row `i` of
    /// the matrix.
    pub fn words(&self) -> (r: &[String])
        requires
            self.wf(),
        ensures
            texts(r@) == self.spec_vocab().word_texts(),
    {
        self.vocab.words()
    }

    /// The rows of `word` as the vocabulary resolves it. All of them are
    /// rows of the matrix.
    pub fn word_indices(&self, word: &str) -> (r: Option<Indices>)
        requires
            self.wf(),
        ensures
            found(r) == self.spec_vocab().lookup(word@),
            r matches Some(indices) ==> forall|i: int|
                0 <= i < indices@.rows().len() ==> 0 <= #[trigger] indices@.rows()[i]
                    < self.spec_storage()@.rows,
    {
        self.vocab.word_indices(word)
    }

    /// The rows whose element-wise sum is the embedding of `word`: the one
    /// row of a word of the vocabulary, or the rows of its subwords with
    /// repetitions and in their order. `None` for a word that the
    /// vocabulary cannot resolve.
    pub fn embedding_rows(&self, word: &str) -> (r: Option<Vec<Vec<u32>>>)
        requires
            self.wf(),
        ensures
            match self.spec_vocab().lookup(word@) {
                None => r.is_none(),
                Some(indices) => r.is_some() && r.unwrap()@.map_values(|row: Vec<u32>| row@)
                    == rows_of(self.spec_storage()@, indices),
            },
    {
        let indices = match self.vocab.word_indices(word) {
            None => {
                return None;
            },
            Some(indices) => indices,
        };
        let ghost expected = rows_of(self.storage@, indices@);
        let mut rows: Vec<Vec<u32>> = Vec::new();
        match &indices {
            Indices::SingleIndex(row) => {
                assert(indices@.rows()[0] == *row);
                rows.push(self.storage.row(*row));
            },
            Indices::MultiIndex(subwords) => {
                let mut i: usize = 0;
                while i < subwords.len()
                    invariant
                        i <= subwords@.len(),
                        self.storage.wf(),
                        indices@.rows() == subwords@.map_values(|row: usize| row as int),
                        forall|j: int|
                            0 <= j < indices@.rows().len() ==> 0 <= #[trigger] indices@.rows()[j]
                                < self.storage@.rows,
                        expected == rows_of(self.storage@, indices@),
                        rows@.len() == i,
                        forall|j: int| 0 <= j < i ==> (#[trigger] rows@[j])@ == expected[j],
                    decreases subwords@.len() - i,
                {
                    assert(indices@.rows()[i as int] == subwords@[i as int]);
                    rows.push(self.storage.row(subwords[i]));
                    i += 1;
                }
            },
        }
        Some(rows)
    }

    /// The rows whose sum is the embedding of a word that a query names.
    /// Fails with `WordNotFound` exactly when the vocabulary cannot
    /// resolve `word`.
    pub fn query_rows(&self, word: &str) -> (r: Result<Vec<Vec<u32>>, Error>)
        requires
            self.wf(),
        ensures
            match self.spec_vocab().lookup(word@) {
                None => r == Err::<Vec<Vec<u32>>, Error>(Error::WordNotFound),
                Some(indices) => r.is_ok() && r.unwrap()@.map_values(|row: Vec<u32>| row@)
                    == rows_of(self.spec_storage()@, indices),
            },
    {
        match self.embedding_rows(word) {
            Some(rows) => Ok(rows),
            None => Err(Error::WordNotFound),
        }
    }

    /// The rows of the three words of an analogy query, which asks for
    /// what is to `word3` as `word2` is to `word1`. Fails with
    /// `WordNotFound` when the vocabulary cannot resolve one of the words,
    /// whichever it is: there is no result for a part of the query.
    pub fn analogy_rows(&self, word1: &str, word2: &str, word3: &str) -> (r: Result<
        (Vec<Vec<u32>>, Vec<Vec<u32>>, Vec<Vec<u32>>),
        Error,
    >)
        requires
            self.wf(),
        ensures
            match (
                self.spec_vocab().lookup(word1@),
                self.spec_vocab().lookup(word2@),
                self.spec_vocab().lookup(word3@),
            ) {
                (Some(indices1), Some(indices2), Some(indices3)) => {
                    &&& r.is_ok()
                    &&& r.unwrap().0@.map_values(|row: Vec<u32>| row@) == rows_of(
                        self.spec_storage()@,
                        indices1,
                    )
                    &&& r.unwrap().1@.map_values(|row: Vec<u32>| row@) == rows_of(
                        self.spec_storage()@,
                        indices2,
                    )
                    &&& r.unwrap().2@.map_values(|row: Vec<u32>| row@) == rows_of(
                        self.spec_storage()@,
                        indices3,
                    )
                },
                _ => r == Err::<(Vec<Vec<u32>>, Vec<Vec<u32>>, Vec<Vec<u32>>), Error>(
                    Error::WordNotFound,
                ),
            },
    {
        let rows1 = self.query_rows(word1)?;
        let rows2 = self.query_rows(word2)?;
        let rows3 = self.query_rows(word3)?;
        Ok((rows1, rows2, rows3))
    }

    /// Word `i` and a copy of its embedding.
    pub fn get(&self, i: usize) -> (r: (&str, Vec<u32>))
        requires
            self.wf(),
            i < self.spec_vocab().word_texts().len(),
        ensures
            r.0@ == self.spec_vocab().word_texts()[i as int],
            r.1@ == self.spec_storage()@.row(i as int),
    {
        let words = self.vocab.words();
        proof {
            self.vocab.lemma_words_have_rows();
        }
        (words[i].as_str(), self.storage.row(i))
    }

    /// Replaces row `i` of the matrix by `values`. Fails with
    /// `MutationOnReadOnlyStorage`, and changes nothing, when the matrix
    /// is mapped.
    pub fn set_row(&mut self, i: usize, values: &[u32]) -> (r: Result<(), Error>)
        requires
            old(self).wf(),
            i < old(self).spec_storage()@.rows,
            values@.len() == old(self).spec_storage()@.dims,
        ensures
            final(self).wf(),
            final(self).spec_vocab() == old(self).spec_vocab(),
            final(self).spec_norms() == old(self).spec_norms(),
            final(self).spec_metadata() == old(self).spec_metadata(),
            final(self).spec_storage()@.rows == old(self).spec_storage()@.rows,
            final(self).spec_storage()@.dims == old(self).spec_storage()@.dims,
            old(self).spec_storage() is Mapped ==> r == Err::<(), Error>(
                Error::MutationOnReadOnlyStorage,
            ) && final(self).spec_storage() == old(self).spec_storage(),
            old(self).spec_storage() is Dense ==> r.is_ok() && final(self).spec_storage()@.data
                == old(self).spec_storage()@.data.subrange(
                0,
                i * old(self).spec_storage()@.dims,
            ) + values@ + old(self).spec_storage()@.data.subrange(
                i * old(self).spec_storage()@.dims + old(self).spec_storage()@.dims,
                old(self).spec_storage()@.rows * old(self).spec_storage()@.dims,
            ),
    {
        self.storage.set_row(i, values)
    }
}

} // verus!
