//! The vocabulary of a fastText model.

use vstd::prelude::*;

use crate::error::Error;
use crate::fasttext::subword::{ngram_hash, FastTextStr};
use crate::subword::{bracket, bracketed, ngram_spans, SubwordIndices};
use crate::index::WordIndex;
use crate::vocab::{lemma_word_index, texts, word_index, Indices, IndicesView, Vocab};

verus! {

/// The rows of the subwords of a word outside the vocabulary: for each
/// n-gram of the bracketed word, in the order of [`ngram_spans`], its hash
/// modulo `n_buckets`, behind the rows of the `n_words` words.
pub open spec fn fasttext_rows(
    word: Seq<char>,
    min_n: usize,
    max_n: usize,
    n_buckets: usize,
    n_words: int,
) -> Seq<int> {
    let bounded = bracketed(word);
    ngram_spans(bounded.len() as int, min_n as int, max_n as int).map_values(
        |span: (int, int)|
            n_words + ngram_hash(bounded.subrange(span.0, span.0 + span.1)) as int
                % n_buckets as int,
    )
}

/// A vocabulary of words and of `n_buckets` buckets for subwords, which
/// are hashed as fastText hashes them.
#[derive(Clone, Debug)]
pub struct FastTextVocab {
    words: Vec<String>,
    index: WordIndex,
    min_n: usize,
    max_n: usize,
    n_buckets: usize,
}

impl FastTextVocab {
    /// The shortest n-gram.
    pub closed spec fn spec_min_n(&self) -> usize {
        self.min_n
    }

    /// The longest n-gram.
    pub closed spec fn spec_max_n(&self) -> usize {
        self.max_n
    }

    /// The number of buckets.
    pub closed spec fn spec_n_buckets(&self) -> usize {
        self.n_buckets
    }

    /// Whether a vocabulary can be made of such arguments, and the error
    /// if not.
    pub open spec fn check(n_words: int, min_n: usize, max_n: usize, n_buckets: usize) -> Option<
        Error,
    > {
        if min_n == 0 || min_n > max_n {
            Some(Error::InvalidNgramRange)
        } else if n_buckets == 0 || n_words + n_buckets > usize::MAX {
            Some(Error::InvalidBucketExponent)
        } else {
            None
        }
    }

    /// A vocabulary of `words` with `n_buckets` buckets for the n-grams of
    /// lengths from `min_n` to `max_n`.
    ///
    /// Fails with `InvalidNgramRange` when `min_n` is zero or above
    /// `max_n`, and else with `InvalidBucketExponent` when there is no
    /// bucket or the rows of words and buckets together cannot be counted
    /// in a `usize`.
    pub fn new(words: Vec<String>, min_n: usize, max_n: usize, n_buckets: usize) -> (r: Result<
        Self,
        Error,
    >)
        ensures
            match r {
                Ok(vocab) => {
                    &&& Self::check(words@.len() as int, min_n, max_n, n_buckets) is None
                    &&& vocab.wf()
                    &&& vocab.word_texts() == texts(words@)
                    &&& vocab.spec_min_n() == min_n
                    &&& vocab.spec_max_n() == max_n
                    &&& vocab.spec_n_buckets() == n_buckets
                },
                Err(e) => Self::check(words@.len() as int, min_n, max_n, n_buckets) == Some(e),
            },
    {
        if min_n == 0 || min_n > max_n {
            return Err(Error::InvalidNgramRange);
        }
        if n_buckets == 0 || words.len() > usize::MAX - n_buckets {
            return Err(Error::InvalidBucketExponent);
        }
        let index = WordIndex::new(&words);
        Ok(FastTextVocab { words, index, min_n, max_n, n_buckets })
    }
}

impl Vocab for FastTextVocab {
    closed spec fn wf(&self) -> bool {
        &&& Self::check(self.words@.len() as int, self.min_n, self.max_n, self.n_buckets) is None
        &&& self.index.indexes(texts(self.words@))
    }

    closed spec fn word_texts(&self) -> Seq<Seq<char>> {
        texts(self.words@)
    }

    open spec fn spec_total_rows(&self) -> int {
        self.word_texts().len() + self.spec_n_buckets()
    }

    open spec fn lookup(&self, word: Seq<char>) -> Option<IndicesView> {
        match word_index(self.word_texts(), word) {
            Some(row) => Some(IndicesView::SingleIndex(row)),
            None => Some(
                IndicesView::MultiIndex(
                    fasttext_rows(
                        word,
                        self.spec_min_n(),
                        self.spec_max_n(),
                        self.spec_n_buckets(),
                        self.word_texts().len() as int,
                    ),
                ),
            ),
        }
    }

    proof fn lemma_words_have_rows(&self) {
    }

    fn word_indices(&self, word: &str) -> (r: Option<Indices>) {
        proof {
            lemma_word_index(texts(self.words@), word@);
        }
        if let Some(row) = self.index.find(&self.words, word) {
            return Some(Indices::SingleIndex(row));
        }
        let bracketed_word = bracket(word);
        let hashed = FastTextStr(bracketed_word.as_str());
        let subwords = hashed.subword_indices(self.min_n, self.max_n, self.n_buckets);
        let n_words = self.words.len();
        let ghost bounded = bracketed(word@);
        let ghost spans = ngram_spans(bounded.len() as int, self.min_n as int, self.max_n as int);
        let ghost expected = fasttext_rows(
            word@,
            self.min_n,
            self.max_n,
            self.n_buckets,
            n_words as int,
        );
        let mut rows: Vec<usize> = Vec::new();
        let mut i: usize = 0;
        while i < subwords.len()
            invariant
                i <= subwords@.len(),
                self.wf(),
                n_words == self.words@.len(),
                bounded == bracketed(word@),
                spans == ngram_spans(bounded.len() as int, self.min_n as int, self.max_n as int),
                subwords@.len() == spans.len(),
                forall|j: int|
                    #![trigger subwords@[j]]
                    0 <= j < subwords@.len() ==> subwords@[j].1 == (ngram_hash(
                        bounded.subrange(spans[j].0, spans[j].0 + spans[j].1),
                    ) as u64 % self.n_buckets as u64) as u64,
                expected == fasttext_rows(
                    word@,
                    self.min_n,
                    self.max_n,
                    self.n_buckets,
                    n_words as int,
                ),
                rows@.len() == i,
                forall|j: int| 0 <= j < i ==> #[trigger] rows@[j] as int == expected[j],
                forall|j: int| 0 <= j < i ==> #[trigger] rows@[j] < self.spec_total_rows(),
            decreases subwords@.len() - i,
        {
            let bucket = subwords[i].1;
            rows.push(n_words + bucket as usize);
            i += 1;
        }
        let indices = Indices::MultiIndex(rows);
        proof {
            assert(indices@.rows() =~= expected);
        }
        Some(indices)
    }

    fn words(&self) -> (r: &[String]) {
        self.words.as_slice()
    }

    fn len(&self) -> (r: usize) {
        self.words.len()
    }

    fn total_rows(&self) -> (r: usize) {
        self.words.len() + self.n_buckets
    }
}

} // verus!
