//! Vocabularies: from a word to the matrix rows that hold its embedding.

use vstd::prelude::*;
use vstd::slice::slice_subrange;
use vstd::utf8::{decode_utf8, encode_utf8, valid_utf8};

use crate::error::Error;
use crate::index::WordIndex;
use crate::io::{
    chunk_header, chunk_start, lemma_chunk_len, lemma_window, read_chunk_header,
    write_chunk_header, ChunkIdentifier,
};
use crate::le::{
    get_u32, get_u64, in_bounds, lemma_u32_le_roundtrip, lemma_u64_le_roundtrip, put_bytes,
    put_u32, put_u64, read_u32, u32_at, u32_to_le, u64_at, u64_to_le,
};
use crate::util::text_at;
use crate::subword::{
    bracket, bracketed, bucket_mask, indexed_subwords, lemma_subword_index_bound, ngram_spans,
    subword_index,
};

verus! {

/// The rows of a word.
#[derive(Clone, Debug, PartialEq, Eq)]
pub enum Indices {
    /// The row of a word of the vocabulary.
    SingleIndex(usize),
    /// The rows of the subwords of a word outside the vocabulary. The
    /// embedding of the word is their sum.
    MultiIndex(Vec<usize>),
}

/// The rows of a word as plain values.
pub enum IndicesView {
    SingleIndex(int),
    MultiIndex(Seq<int>),
}

impl IndicesView {
    /// The rows, whichever the kind.
    pub open spec fn rows(self) -> Seq<int> {
        match self {
            IndicesView::SingleIndex(row) => seq![row],
            IndicesView::MultiIndex(rows) => rows,
        }
    }
}

impl View for Indices {
    type V = IndicesView;

    open spec fn view(&self) -> IndicesView {
        match self {
            Indices::SingleIndex(row) => IndicesView::SingleIndex(*row as int),
            Indices::MultiIndex(rows) => IndicesView::MultiIndex(
                rows@.map_values(|row: usize| row as int),
            ),
        }
    }
}

/// The rows that a lookup found, as plain values.
pub open spec fn found(r: Option<Indices>) -> Option<IndicesView> {
    match r {
        Some(indices) => Some(indices@),
        None => None,
    }
}

/// The characters of each string.
pub open spec fn texts(words: Seq<String>) -> Seq<Seq<char>> {
    words.map_values(|word: String| word@)
}

/// The row of `word` among `words`: where it occurs, and where it occurs
/// last should it occur more than once.
pub open spec fn word_index(words: Seq<Seq<char>>, word: Seq<char>) -> Option<int>
    decreases words.len(),
{
    if words.len() == 0 {
        None
    } else if words.last() == word {
        Some(words.len() - 1)
    } else {
        word_index(words.drop_last(), word)
    }
}

/// The row that [`word_index`] finds holds the word, and no row holds a
/// word that it does not find.
pub proof fn lemma_word_index(words: Seq<Seq<char>>, word: Seq<char>)
    ensures
        match word_index(words, word) {
            Some(row) => 0 <= row < words.len() && words[row] == word && forall|i: int|
                row < i < words.len() ==> words[i] != word,
            None => forall|i: int| 0 <= i < words.len() ==> words[i] != word,
        },
    decreases words.len(),
{
    if words.len() > 0 && words.last() != word {
        let front = words.drop_last();
        lemma_word_index(front, word);
        assert forall|i: int| 0 <= i < front.len() implies front[i] == words[i] by {}
        match word_index(front, word) {
            Some(row) => {
                assert forall|i: int| row < i < words.len() implies words[i] != word by {}
            },
            None => {
                assert forall|i: int| 0 <= i < words.len() implies words[i] != word by {}
            },
        }
    }
}

/// A vocabulary maps a word to the matrix rows of its embedding.
///
/// The words of the vocabulary take the first rows, in their order. A
/// vocabulary with subwords addresses further rows behind them.
pub trait Vocab {
    /// What the constructors establish.
    spec fn wf(&self) -> bool;

    /// The words of the vocabulary, in row order.
    spec fn word_texts(&self) -> Seq<Seq<char>>;

    /// The number of matrix rows that the vocabulary addresses.
    spec fn spec_total_rows(&self) -> int;

    /// The rows of `word`, if it has any.
    spec fn lookup(&self, word: Seq<char>) -> Option<IndicesView>;

    /// Every word has a row among those that the vocabulary addresses.
    proof fn lemma_words_have_rows(&self)
        requires
            self.wf(),
        ensures
            self.word_texts().len() <= self.spec_total_rows(),
    ;

    /// The vocabulary rows of `word`: the single row of a word of the
    /// vocabulary, else the rows of its subwords where the vocabulary has
    /// them, else nothing.
    fn word_indices(&self, word: &str) -> (r: Option<Indices>)
        requires
            self.wf(),
        ensures
            found(r) == self.lookup(word@),
            r matches Some(indices) ==> forall|i: int|
                0 <= i < indices@.rows().len() ==> 0 <= #[trigger] indices@.rows()[i]
                    < self.spec_total_rows(),
    ;

    /// The words of the vocabulary, in row order.
    fn words(&self) -> (r: &[String])
        requires
            self.wf(),
        ensures
            texts(r@) == self.word_texts(),
    ;

    /// The number of words of the vocabulary.
    fn len(&self) -> (r: usize)
        requires
            self.wf(),
        ensures
            r == self.word_texts().len(),
            r <= self.spec_total_rows(),
    ;

    /// The number of matrix rows that the vocabulary addresses: those of
    /// its words and, where it has them, of its buckets.
    fn total_rows(&self) -> (r: usize)
        requires
            self.wf(),
        ensures
            r == self.spec_total_rows(),
    ;
}

/// A vocabulary of words. A word outside it has no rows.
#[derive(Clone, Debug)]
pub struct WordVocab {
    words: Vec<String>,
    index: WordIndex,
}

impl WordVocab {
    /// A vocabulary of `words`, which take the rows in their order.
    pub fn new(words: Vec<String>) -> (r: Self)
        ensures
            r.wf(),
            r.word_texts() == texts(words@),
    {
        let index = WordIndex::new(&words);
        WordVocab { words, index }
    }
}

impl Vocab for WordVocab {
    closed spec fn wf(&self) -> bool {
        self.index.indexes(texts(self.words@))
    }

    closed spec fn word_texts(&self) -> Seq<Seq<char>> {
        texts(self.words@)
    }

    open spec fn spec_total_rows(&self) -> int {
        self.word_texts().len() as int
    }

    open spec fn lookup(&self, word: Seq<char>) -> Option<IndicesView> {
        match word_index(self.word_texts(), word) {
            Some(row) => Some(IndicesView::SingleIndex(row)),
            None => None,
        }
    }

    proof fn lemma_words_have_rows(&self) {
    }

    fn word_indices(&self, word: &str) -> (r: Option<Indices>) {
        proof {
            lemma_word_index(texts(self.words@), word@);
        }
        match self.index.find(&self.words, word) {
            Some(row) => Some(Indices::SingleIndex(row)),
            None => None,
        }
    }

    fn words(&self) -> (r: &[String]) {
        self.words.as_slice()
    }

    fn len(&self) -> (r: usize) {
        self.words.len()
    }

    fn total_rows(&self) -> (r: usize) {
        self.words.len()
    }
}

/// The number of buckets for an exponent of at most 64.
pub open spec fn bucket_count(buckets_exp: usize) -> int {
    bucket_mask(buckets_exp) + 1
}

/// The rows of the subwords of a word outside the vocabulary: for each
/// n-gram of the bracketed word, in the order of [`ngram_spans`], its
/// bucket behind the rows of the `n_words` words.
pub open spec fn subword_rows(
    word: Seq<char>,
    min_n: usize,
    max_n: usize,
    buckets_exp: usize,
    n_words: int,
) -> Seq<int> {
    let bounded = bracketed(word);
    ngram_spans(bounded.len() as int, min_n as int, max_n as int).map_values(
        |span: (int, int)|
            n_words + subword_index(bounded.subrange(span.0, span.0 + span.1), buckets_exp),
    )
}

/// A word outside the vocabulary has at least one subword, unless even with
/// its markers it is shorter than the shortest n-gram.
pub proof fn lemma_subword_rows_nonempty(
    word: Seq<char>,
    min_n: usize,
    max_n: usize,
    buckets_exp: usize,
    n_words: int,
)
    requires
        1 <= min_n <= max_n,
        min_n <= word.len() + 2,
    ensures
        subword_rows(word, min_n, max_n, buckets_exp, n_words).len() >= 1,
{
}

/// A vocabulary of words and of buckets for subwords.
///
/// A word outside the vocabulary is put between the markers `<` and `>`.
/// Every n-gram of the result whose length lies between `min_n` and `max_n`
/// is hashed to one of `2^buckets_exp` buckets, and the buckets take the
/// rows behind the words.
#[derive(Clone, Debug)]
pub struct SubwordVocab {
    words: Vec<String>,
    index: WordIndex,
    min_n: usize,
    max_n: usize,
    buckets_exp: usize,
}

impl SubwordVocab {
    /// The shortest n-gram.
    pub closed spec fn spec_min_n(&self) -> usize {
        self.min_n
    }

    /// The longest n-gram.
    pub closed spec fn spec_max_n(&self) -> usize {
        self.max_n
    }

    /// The exponent of the number of buckets.
    pub closed spec fn spec_buckets_exp(&self) -> usize {
        self.buckets_exp
    }

    /// Whether a vocabulary can be made of such arguments, and the error
    /// if not.
    pub open spec fn check(n_words: int, min_n: usize, max_n: usize, buckets_exp: usize) -> Option<
        Error,
    > {
        if min_n == 0 || min_n > max_n {
            Some(Error::InvalidNgramRange)
        } else if buckets_exp > 64 || n_words + bucket_count(buckets_exp) > usize::MAX {
            Some(Error::InvalidBucketExponent)
        } else {
            None
        }
    }

    /// A vocabulary of `words` with `2^buckets_exp` buckets for the n-grams
    /// of lengths from `min_n` to `max_n`.
    ///
    /// Fails with `InvalidNgramRange` when `min_n` is zero or above
    /// `max_n`, and else with `InvalidBucketExponent` when `buckets_exp` is
    /// above 64 or the rows of words and buckets together cannot be
    /// counted in a `usize`.
    pub fn new(words: Vec<String>, min_n: usize, max_n: usize, buckets_exp: usize) -> (r: Result<
        Self,
        Error,
    >)
        ensures
            match r {
                Ok(vocab) => {
                    &&& Self::check(words@.len() as int, min_n, max_n, buckets_exp) is None
                    &&& vocab.wf()
                    &&& vocab.word_texts() == texts(words@)
                    &&& vocab.spec_min_n() == min_n
                    &&& vocab.spec_max_n() == max_n
                    &&& vocab.spec_buckets_exp() == buckets_exp
                },
                Err(e) => Self::check(words@.len() as int, min_n, max_n, buckets_exp) == Some(e),
            },
    {
        if min_n == 0 || min_n > max_n {
            return Err(Error::InvalidNgramRange);
        }
        if buckets_exp > 64 {
            return Err(Error::InvalidBucketExponent);
        }
        let mask = crate::subword::compute_bucket_mask(buckets_exp);
        if mask >= usize::MAX as u64 || words.len() as u64 >= usize::MAX as u64 - mask {
            return Err(Error::InvalidBucketExponent);
        }
        let index = WordIndex::new(&words);
        Ok(SubwordVocab { words, index, min_n, max_n, buckets_exp })
    }

    /// A vocabulary can be made of the parameters of every vocabulary.
    pub proof fn lemma_parameters(&self)
        requires
            self.wf(),
        ensures
            Self::check(
                self.word_texts().len() as int,
                self.spec_min_n(),
                self.spec_max_n(),
                self.spec_buckets_exp(),
            ) is None,
    {
    }

    /// The shortest n-gram.
    pub fn min_n(&self) -> (r: usize)
        ensures
            r == self.spec_min_n(),
    {
        self.min_n
    }

    /// The longest n-gram.
    pub fn max_n(&self) -> (r: usize)
        ensures
            r == self.spec_max_n(),
    {
        self.max_n
    }

    /// The exponent of the number of buckets.
    pub fn buckets_exp(&self) -> (r: usize)
        ensures
            r == self.spec_buckets_exp(),
    {
        self.buckets_exp
    }
}

impl Vocab for SubwordVocab {
    closed spec fn wf(&self) -> bool {
        &&& Self::check(self.words@.len() as int, self.min_n, self.max_n, self.buckets_exp) is None
        &&& self.index.indexes(texts(self.words@))
    }

    closed spec fn word_texts(&self) -> Seq<Seq<char>> {
        texts(self.words@)
    }

    open spec fn spec_total_rows(&self) -> int {
        self.word_texts().len() + bucket_count(self.spec_buckets_exp())
    }

    open spec fn lookup(&self, word: Seq<char>) -> Option<IndicesView> {
        match word_index(self.word_texts(), word) {
            Some(row) => Some(IndicesView::SingleIndex(row)),
            None => Some(
                IndicesView::MultiIndex(
                    subword_rows(
                        word,
                        self.spec_min_n(),
                        self.spec_max_n(),
                        self.spec_buckets_exp(),
                        self.word_texts().len() as int,
                    ),
                ),
            ),
        }
    }

    proof fn lemma_words_have_rows(&self) {
    }

    fn word_indices(&self, word: &str) -> (r: Option<Indices>) {
        proof {
            lemma_word_index(texts(self.words@), word@);
        }
        if let Some(row) = self.index.find(&self.words, word) {
            return Some(Indices::SingleIndex(row));
        }
        let bounded = bracket(word);
        let subwords = indexed_subwords(
            bounded.as_str(),
            self.min_n,
            self.max_n,
            self.buckets_exp,
        );
        let n_words = self.words.len();
        let ghost spans = ngram_spans(bounded@.len() as int, self.min_n as int, self.max_n as int);
        let ghost expected = subword_rows(
            word@,
            self.min_n,
            self.max_n,
            self.buckets_exp,
            n_words as int,
        );
        let mut rows: Vec<usize> = Vec::new();
        let mut i: usize = 0;
        while i < subwords.len()
            invariant
                i <= subwords@.len(),
                self.wf(),
                n_words == self.words@.len(),
                bounded@ == bracketed(word@),
                spans == ngram_spans(bounded@.len() as int, self.min_n as int, self.max_n as int),
                subwords@.len() == spans.len(),
                forall|j: int|
                    #![trigger subwords@[j]]
                    0 <= j < subwords@.len() ==> subwords@[j].1 == subword_index(
                        bounded@.subrange(spans[j].0, spans[j].0 + spans[j].1),
                        self.buckets_exp,
                    ),
                expected == subword_rows(
                    word@,
                    self.min_n,
                    self.max_n,
                    self.buckets_exp,
                    n_words as int,
                ),
                rows@.len() == i,
                forall|j: int| 0 <= j < i ==> #[trigger] rows@[j] as int == expected[j],
                forall|j: int| 0 <= j < i ==> #[trigger] rows@[j] < self.spec_total_rows(),
            decreases subwords@.len() - i,
        {
            let bucket = subwords[i].1;
            proof {
                let span = spans[i as int];
                lemma_subword_index_bound(
                    bounded@.subrange(span.0, span.0 + span.1),
                    self.buckets_exp,
                );
            }
            rows.push(n_words + bucket as usize);
            i += 1;
        }
        let indices = Indices::MultiIndex(rows);
        proof {
            assert(indices@.rows() =~= expected);
        }
        Some(indices)
    }

    fn words(&self) -> (r: &[String]) {
        self.words.as_slice()
    }

    fn len(&self) -> (r: usize) {
        self.words.len()
    }

    fn total_rows(&self) -> (r: usize) {
        let mask = crate::subword::compute_bucket_mask(self.buckets_exp);
        self.words.len() + mask as usize + 1
    }
}

/// A vocabulary of one of the kinds that a container can hold.
#[derive(Clone, Debug)]
pub enum VocabWrap {
    Word(WordVocab),
    Subword(SubwordVocab),
}

impl Vocab for VocabWrap {
    open spec fn wf(&self) -> bool {
        match self {
            VocabWrap::Word(vocab) => vocab.wf(),
            VocabWrap::Subword(vocab) => vocab.wf(),
        }
    }

    open spec fn word_texts(&self) -> Seq<Seq<char>> {
        match self {
            VocabWrap::Word(vocab) => vocab.word_texts(),
            VocabWrap::Subword(vocab) => vocab.word_texts(),
        }
    }

    open spec fn spec_total_rows(&self) -> int {
        match self {
            VocabWrap::Word(vocab) => vocab.spec_total_rows(),
            VocabWrap::Subword(vocab) => vocab.spec_total_rows(),
        }
    }

    open spec fn lookup(&self, word: Seq<char>) -> Option<IndicesView> {
        match self {
            VocabWrap::Word(vocab) => vocab.lookup(word),
            VocabWrap::Subword(vocab) => vocab.lookup(word),
        }
    }

    proof fn lemma_words_have_rows(&self) {
        match self {
            VocabWrap::Word(vocab) => vocab.lemma_words_have_rows(),
            VocabWrap::Subword(vocab) => vocab.lemma_words_have_rows(),
        }
    }

    fn word_indices(&self, word: &str) -> (r: Option<Indices>) {
        match self {
            VocabWrap::Word(vocab) => vocab.word_indices(word),
            VocabWrap::Subword(vocab) => vocab.word_indices(word),
        }
    }

    fn words(&self) -> (r: &[String]) {
        match self {
            VocabWrap::Word(vocab) => vocab.words(),
            VocabWrap::Subword(vocab) => vocab.words(),
        }
    }

    fn len(&self) -> (r: usize) {
        match self {
            VocabWrap::Word(vocab) => vocab.len(),
            VocabWrap::Subword(vocab) => vocab.len(),
        }
    }

    fn total_rows(&self) -> (r: usize) {
        match self {
            VocabWrap::Word(vocab) => vocab.total_rows(),
            VocabWrap::Subword(vocab) => vocab.total_rows(),
        }
    }
}

/// A word as it stands in a chunk: the number of its bytes in 32 bits, then
/// its UTF-8 encoding.
pub open spec fn word_bytes(word: Seq<char>) -> Seq<u8> {
    u32_to_le(encode_utf8(word).len() as u32) + encode_utf8(word)
}

/// Words as they stand in a chunk, one after the other.
pub open spec fn words_bytes(words: Seq<Seq<char>>) -> Seq<u8>
    decreases words.len(),
{
    if words.len() == 0 {
        Seq::empty()
    } else {
        words_bytes(words.drop_last()) + word_bytes(words.last())
    }
}

/// Whether every word can stand in a chunk: its encoding has a length of
/// 32 bits.
pub open spec fn words_encodable(words: Seq<Seq<char>>) -> bool {
    forall|i: int| 0 <= i < words.len() ==> (#[trigger] encode_utf8(words[i])).len() <= u32::MAX
}

/// What reading one word at `pos` gives: the word and the position behind
/// it.
pub open spec fn parse_word(bytes: Seq<u8>, pos: int) -> Result<(Seq<char>, int), Error> {
    match read_u32(bytes, pos) {
        Err(e) => Err(e),
        Ok((len, at)) => if !in_bounds(bytes, at, len as int) {
            Err(Error::TruncatedData)
        } else if !valid_utf8(bytes.subrange(at, at + len)) {
            Err(Error::InvalidUtf8)
        } else {
            Ok((decode_utf8(bytes.subrange(at, at + len)), at + len))
        },
    }
}

/// What reading `n` words from `pos` on gives. The first word that fails
/// decides the error.
pub open spec fn parse_words(bytes: Seq<u8>, pos: int, n: nat) -> Result<
    (Seq<Seq<char>>, int),
    Error,
>
    decreases n,
{
    if n == 0 {
        Ok((Seq::empty(), pos))
    } else {
        match parse_words(bytes, pos, (n - 1) as nat) {
            Err(e) => Err(e),
            Ok((words, at)) => match parse_word(bytes, at) {
                Err(e) => Err(e),
                Ok((word, next)) => Ok((words.push(word), next)),
            },
        }
    }
}

proof fn lemma_parse_words_fails(bytes: Seq<u8>, pos: int, k: nat, n: nat)
    requires
        k <= n,
        parse_words(bytes, pos, k) is Err,
    ensures
        parse_words(bytes, pos, n) == parse_words(bytes, pos, k),
    decreases n,
{
    if k < n {
        lemma_parse_words_fails(bytes, pos, k, (n - 1) as nat);
    }
}

/// Appends `words` as they stand in a chunk.
pub fn put_words(buf: &mut Vec<u8>, words: &[String])
    requires
        words_encodable(texts(words@)),
    ensures
        final(buf)@ == old(buf)@ + words_bytes(texts(words@)),
{
    let ghost all = texts(words@);
    let mut i: usize = 0;
    while i < words.len()
        invariant
            i <= words@.len(),
            all == texts(words@),
            words_encodable(all),
            buf@ == old(buf)@ + words_bytes(all.subrange(0, i as int)),
        decreases words@.len() - i,
    {
        let encoded = words[i].as_str().as_bytes();
        put_u32(buf, encoded.len() as u32);
        put_bytes(buf, encoded);
        i += 1;
        proof {
            let done = all.subrange(0, i as int);
            assert(done.drop_last() =~= all.subrange(0, i - 1));
        }
    }
    assert(all.subrange(0, words@.len() as int) =~= all);
}

/// Reads `n` words from `pos` on, and hands them back with the position
/// behind them.
pub fn get_words(bytes: &[u8], pos: usize, n: u64) -> (r: Result<(Vec<String>, usize), Error>)
    ensures
        match r {
            Ok((words, next)) => parse_words(bytes@, pos as int, n as nat) == Ok::<
                (Seq<Seq<char>>, int),
                Error,
            >((texts(words@), next as int)),
            Err(e) => parse_words(bytes@, pos as int, n as nat) == Err::<
                (Seq<Seq<char>>, int),
                Error,
            >(e),
        },
{
    let total = bytes.len();
    let mut words: Vec<String> = Vec::new();
    let mut at: usize = pos;
    let mut i: u64 = 0;
    assert(texts(words@) =~= Seq::<Seq<char>>::empty());
    while i < n
        invariant
            i <= n,
            total == bytes@.len(),
            parse_words(bytes@, pos as int, i as nat) == Ok::<(Seq<Seq<char>>, int), Error>(
                (texts(words@), at as int),
            ),
        decreases n - i,
    {
        proof {
            if parse_word(bytes@, at as int) is Err {
                lemma_parse_words_fails(bytes@, pos as int, (i + 1) as nat, n as nat);
            }
        }
        let (len, start) = get_u32(bytes, at)?;
        if len as usize > total - start {
            return Err(Error::TruncatedData);
        }
        let word = match text_at(bytes, start, start + len as usize) {
            Some(word) => word,
            None => {
                return Err(Error::InvalidUtf8);
            },
        };
        proof {
            assert(texts(words@.push(word)) =~= texts(words@).push(word@));
        }
        words.push(word);
        at = start + len as usize;
        i += 1;
    }
    Ok((words, at))
}

/// Whether every word of `words` can stand in a chunk.
pub fn check_words(words: &[String]) -> (r: bool)
    ensures
        r == words_encodable(texts(words@)),
{
    let ghost all = texts(words@);
    let mut i: usize = 0;
    while i < words.len()
        invariant
            i <= words@.len(),
            all == texts(words@),
            forall|j: int| 0 <= j < i ==> (#[trigger] encode_utf8(all[j])).len() <= u32::MAX,
        decreases words@.len() - i,
    {
        let encoded = words[i].as_str().as_bytes();
        assert(encoded@ == encode_utf8(all[i as int]));
        if encoded.len() > 0xffff_ffff {
            return false;
        }
        i += 1;
    }
    true
}

impl WordVocab {
    /// The chunk of a vocabulary of `words`: after the start of the chunk
    /// the number of words in 64 bits, then the words.
    pub open spec fn chunk(words: Seq<Seq<char>>) -> Seq<u8> {
        chunk_start(ChunkIdentifier::VocabSimple, 8 + (words_bytes(words).len() as int))
            + u64_to_le(words.len() as u64) + words_bytes(words)
    }

    /// What reading the chunk of a vocabulary of words at `pos` gives: the
    /// words and the position behind the chunk. Beyond the failures of
    /// [`chunk_header`], a chunk that ends before the last word is
    /// `TruncatedData`, and a word that is not UTF-8 is `InvalidUtf8`.
    pub open spec fn parse(bytes: Seq<u8>, pos: int) -> Result<(Seq<Seq<char>>, int), Error> {
        match chunk_header(bytes, pos, ChunkIdentifier::VocabSimple) {
            Err(e) => Err(e),
            Ok((len, body)) => if len < 8 {
                Err(Error::TruncatedData)
            } else {
                match parse_words(
                    bytes.subrange(0, body + len),
                    body + 8,
                    u64_at(bytes, body) as nat,
                ) {
                    Err(e) => Err(e),
                    Ok((words, _)) => Ok((words, body + len)),
                }
            },
        }
    }

    /// Appends the chunk of this vocabulary to `buf`.
    pub fn write_chunk(&self, buf: &mut Vec<u8>)
        requires
            self.wf(),
            words_encodable(self.word_texts()),
        ensures
            final(buf)@ == old(buf)@ + Self::chunk(self.word_texts()),
            Self::parse(final(buf)@, old(buf)@.len() as int) == Ok::<(Seq<Seq<char>>, int), Error>(
                (self.word_texts(), final(buf)@.len() as int),
            ),
    {
        let ghost words = texts(self.words@);
        let mut body: Vec<u8> = Vec::new();
        put_u64(&mut body, self.words.len() as u64);
        put_words(&mut body, self.words.as_slice());
        proof {
            crate::le::lemma_u64_le_roundtrip(words.len() as u64);
        }
        write_chunk_header(buf, ChunkIdentifier::VocabSimple, body.len() as u64);
        put_bytes(buf, body.as_slice());
        assert(buf@.len() == buf.len());
        proof {
            let start = old(buf)@.len() as int;
            assert(buf@.subrange(start, buf@.len() as int) =~= Self::chunk(words));
            lemma_word_vocab_roundtrip(buf@, start, words);
        }
    }

    /// Reads the chunk of a vocabulary of words at `pos`, and hands the
    /// vocabulary back with the position behind the chunk.
    pub fn read_chunk(bytes: &[u8], pos: usize) -> (r: Result<(WordVocab, usize), Error>)
        ensures
            match r {
                Ok((vocab, next)) => vocab.wf() && Self::parse(bytes@, pos as int) == Ok::<
                    (Seq<Seq<char>>, int),
                    Error,
                >((vocab.word_texts(), next as int)),
                Err(e) => Self::parse(bytes@, pos as int) == Err::<(Seq<Seq<char>>, int), Error>(
                    e,
                ),
            },
    {
        assert(bytes@.len() == bytes.len());
        let (len, body) = read_chunk_header(bytes, pos, ChunkIdentifier::VocabSimple)?;
        if len < 8 {
            return Err(Error::TruncatedData);
        }
        let (n_words, at) = match get_u64(bytes, body) {
            Ok(found) => found,
            Err(e) => {
                return Err(e);
            },
        };
        let chunk = slice_subrange(bytes, 0, body + len);
        let (words, _end) = get_words(chunk, at, n_words)?;
        Ok((WordVocab::new(words), body + len))
    }
}

/// What a chunk tells of a vocabulary with subwords: its words and its
/// three parameters.
pub struct SubwordVocabView {
    pub words: Seq<Seq<char>>,
    pub min_n: u32,
    pub max_n: u32,
    pub buckets_exp: u32,
}

impl SubwordVocab {
    /// The chunk of a vocabulary with subwords: after the start of the
    /// chunk the number of words in 64 bits, the shortest and the longest
    /// n-gram and the exponent of the buckets in 32 bits each, then the
    /// words.
    pub open spec fn chunk(vocab: SubwordVocabView) -> Seq<u8> {
        chunk_start(ChunkIdentifier::VocabSubword, 20 + (words_bytes(vocab.words).len() as int))
            + u64_to_le(vocab.words.len() as u64) + u32_to_le(vocab.min_n) + u32_to_le(
            vocab.max_n,
        ) + u32_to_le(vocab.buckets_exp) + words_bytes(vocab.words)
    }

    /// What this vocabulary tells in its chunk.
    pub open spec fn as_chunk(&self) -> SubwordVocabView {
        SubwordVocabView {
            words: self.word_texts(),
            min_n: self.spec_min_n() as u32,
            max_n: self.spec_max_n() as u32,
            buckets_exp: self.spec_buckets_exp() as u32,
        }
    }

    /// What reading the chunk of a vocabulary with subwords at `pos`
    /// gives: what the chunk tells and the position behind the chunk.
    /// Beyond the failures of [`chunk_header`], a chunk that ends before
    /// the last word is `TruncatedData`, a word that is not UTF-8 is
    /// `InvalidUtf8`, and parameters of which no vocabulary can be made
    /// fail as [`check`](Self::check) says.
    pub open spec fn parse(bytes: Seq<u8>, pos: int) -> Result<(SubwordVocabView, int), Error> {
        match chunk_header(bytes, pos, ChunkIdentifier::VocabSubword) {
            Err(e) => Err(e),
            Ok((len, body)) => if len < 20 {
                Err(Error::TruncatedData)
            } else {
                match parse_words(
                    bytes.subrange(0, body + len),
                    body + 20,
                    u64_at(bytes, body) as nat,
                ) {
                    Err(e) => Err(e),
                    Ok((words, _)) => match Self::check(
                        words.len() as int,
                        u32_at(bytes, body + 8) as usize,
                        u32_at(bytes, body + 12) as usize,
                        u32_at(bytes, body + 16) as usize,
                    ) {
                        Some(e) => Err(e),
                        None => Ok(
                            (
                                SubwordVocabView {
                                    words,
                                    min_n: u32_at(bytes, body + 8),
                                    max_n: u32_at(bytes, body + 12),
                                    buckets_exp: u32_at(bytes, body + 16),
                                },
                                body + len,
                            ),
                        ),
                    },
                }
            },
        }
    }

    /// Appends the chunk of this vocabulary to `buf`.
    pub fn write_chunk(&self, buf: &mut Vec<u8>)
        requires
            self.wf(),
            words_encodable(self.word_texts()),
            self.spec_min_n() <= u32::MAX,
            self.spec_max_n() <= u32::MAX,
        ensures
            final(buf)@ == old(buf)@ + Self::chunk(self.as_chunk()),
            Self::parse(final(buf)@, old(buf)@.len() as int) == Ok::<
                (SubwordVocabView, int),
                Error,
            >((self.as_chunk(), final(buf)@.len() as int)),
    {
        let ghost words = texts(self.words@);
        let mut body: Vec<u8> = Vec::new();
        put_u64(&mut body, self.words.len() as u64);
        put_u32(&mut body, self.min_n as u32);
        put_u32(&mut body, self.max_n as u32);
        put_u32(&mut body, self.buckets_exp as u32);
        put_words(&mut body, self.words.as_slice());
        proof {
            crate::le::lemma_u64_le_roundtrip(words.len() as u64);
            crate::le::lemma_u32_le_roundtrip(self.min_n as u32);
            crate::le::lemma_u32_le_roundtrip(self.max_n as u32);
            crate::le::lemma_u32_le_roundtrip(self.buckets_exp as u32);
        }
        write_chunk_header(buf, ChunkIdentifier::VocabSubword, body.len() as u64);
        put_bytes(buf, body.as_slice());
        assert(buf@.len() == buf.len());
        proof {
            let start = old(buf)@.len() as int;
            assert(buf@.subrange(start, buf@.len() as int) =~= Self::chunk(self.as_chunk()));
            lemma_subword_vocab_roundtrip(buf@, start, self.as_chunk());
        }
    }

    /// Reads the chunk of a vocabulary with subwords at `pos`, and hands
    /// the vocabulary back with the position behind the chunk.
    pub fn read_chunk(bytes: &[u8], pos: usize) -> (r: Result<(SubwordVocab, usize), Error>)
        ensures
            match r {
                Ok((vocab, next)) => vocab.wf() && Self::parse(bytes@, pos as int) == Ok::<
                    (SubwordVocabView, int),
                    Error,
                >((vocab.as_chunk(), next as int)),
                Err(e) => Self::parse(bytes@, pos as int) == Err::<(SubwordVocabView, int), Error>(
                    e,
                ),
            },
    {
        assert(bytes@.len() == bytes.len());
        let (len, body) = read_chunk_header(bytes, pos, ChunkIdentifier::VocabSubword)?;
        if len < 20 {
            return Err(Error::TruncatedData);
        }
        let (n_words, at) = match get_u64(bytes, body) {
            Ok(found) => found,
            Err(e) => {
                return Err(e);
            },
        };
        let (min_n, at) = match get_u32(bytes, at) {
            Ok(found) => found,
            Err(e) => {
                return Err(e);
            },
        };
        let (max_n, at) = match get_u32(bytes, at) {
            Ok(found) => found,
            Err(e) => {
                return Err(e);
            },
        };
        let (buckets_exp, at) = match get_u32(bytes, at) {
            Ok(found) => found,
            Err(e) => {
                return Err(e);
            },
        };
        let chunk = slice_subrange(bytes, 0, body + len);
        let (words, _end) = get_words(chunk, at, n_words)?;
        let vocab = SubwordVocab::new(words, min_n as usize, max_n as usize, buckets_exp as usize)?;
        Ok((vocab, body + len))
    }
}

proof fn lemma_words_bytes_len(words: Seq<Seq<char>>)
    ensures
        words_bytes(words).len() >= 4 * words.len(),
    decreases words.len(),
{
    if words.len() > 0 {
        lemma_words_bytes_len(words.drop_last());
        lemma_u32_le_roundtrip(encode_utf8(words.last()).len() as u32);
    }
}

/// Words that were written are read back unchanged: wherever a buffer
/// holds the encoding of `words` at `pos`, reading as many words at `pos`
/// gives `words` and the position behind them.
pub proof fn lemma_words_roundtrip(bytes: Seq<u8>, pos: int, words: Seq<Seq<char>>)
    requires
        0 <= pos,
        words_encodable(words),
        in_bounds(bytes, pos, words_bytes(words).len() as int),
        bytes.subrange(pos, pos + words_bytes(words).len()) == words_bytes(words),
    ensures
        parse_words(bytes, pos, words.len()) == Ok::<(Seq<Seq<char>>, int), Error>(
            (words, pos + words_bytes(words).len()),
        ),
    decreases words.len(),
{
    broadcast use vstd::utf8::encode_utf8_decode_utf8, vstd::utf8::encode_utf8_valid_utf8;

    if words.len() > 0 {
        let front = words.drop_last();
        let last = words.last();
        let encoded = encode_utf8(last);
        let all = words_bytes(words);
        let before = words_bytes(front).len() as int;
        assert forall|i: int| 0 <= i < front.len() implies (#[trigger] encode_utf8(
            front[i],
        )).len() <= u32::MAX by {}
        lemma_u32_le_roundtrip(encoded.len() as u32);
        lemma_window(bytes, pos, all, 0, before);
        assert(all.subrange(0, before) =~= words_bytes(front));
        lemma_words_roundtrip(bytes, pos, front);
        lemma_window(bytes, pos, all, before, before + 4);
        assert(all.subrange(before, before + 4) =~= u32_to_le(encoded.len() as u32));
        lemma_window(bytes, pos, all, before + 4, all.len() as int);
        assert(all.subrange(before + 4, all.len() as int) =~= encoded);
        assert(front.push(last) =~= words);
    } else {
        assert(words =~= Seq::<Seq<char>>::empty());
    }
}

/// The words of a vocabulary that was written are read back unchanged:
/// wherever a container holds the chunk of `words` at `start`, reading at
/// `start` gives `words` and the position behind the chunk. The length
/// that the chunk declares is the number of its bytes behind the length
/// field.
pub proof fn lemma_word_vocab_roundtrip(bytes: Seq<u8>, start: int, words: Seq<Seq<char>>)
    requires
        0 <= start,
        words_encodable(words),
        WordVocab::chunk(words).len() <= u64::MAX,
        in_bounds(bytes, start, WordVocab::chunk(words).len() as int),
        bytes.subrange(start, start + WordVocab::chunk(words).len()) == WordVocab::chunk(words),
    ensures
        WordVocab::parse(bytes, start) == Ok::<(Seq<Seq<char>>, int), Error>(
            (words, start + WordVocab::chunk(words).len()),
        ),
        u64_at(WordVocab::chunk(words), 4) == WordVocab::chunk(words).len() - 12,
{
    let chunk = WordVocab::chunk(words);
    let body = u64_to_le(words.len() as u64) + words_bytes(words);
    let len = body.len() as int;
    lemma_words_bytes_len(words);
    lemma_u64_le_roundtrip(words.len() as u64);
    assert(chunk =~= chunk_start(ChunkIdentifier::VocabSimple, len) + body);
    lemma_chunk_len(ChunkIdentifier::VocabSimple, body);
    lemma_window(bytes, start, chunk, 0, 4);
    lemma_window(bytes, start, chunk, 4, 12);
    lemma_window(bytes, start, chunk, 12, 20);
    lemma_window(bytes, start, chunk, 20, chunk.len() as int);
    assert(chunk.subrange(12, 20) =~= u64_to_le(words.len() as u64));
    assert(chunk.subrange(20, chunk.len() as int) =~= words_bytes(words));
    let held = bytes.subrange(0, start + 12 + len);
    assert(held.subrange(start + 20, start + 20 + words_bytes(words).len()) =~= bytes.subrange(
        start + 20,
        start + chunk.len(),
    ));
    lemma_words_roundtrip(held, start + 20, words);
}

/// A vocabulary with subwords that was written is read back unchanged:
/// wherever a container holds the chunk of `vocab` at `start`, reading at
/// `start` gives `vocab` and the position behind the chunk, provided that
/// a vocabulary can be made of its parameters. The length that the chunk
/// declares is the number of its bytes behind the length field.
pub proof fn lemma_subword_vocab_roundtrip(bytes: Seq<u8>, start: int, vocab: SubwordVocabView)
    requires
        0 <= start,
        words_encodable(vocab.words),
        SubwordVocab::check(
            vocab.words.len() as int,
            vocab.min_n as usize,
            vocab.max_n as usize,
            vocab.buckets_exp as usize,
        ) is None,
        SubwordVocab::chunk(vocab).len() <= u64::MAX,
        in_bounds(bytes, start, SubwordVocab::chunk(vocab).len() as int),
        bytes.subrange(start, start + SubwordVocab::chunk(vocab).len()) == SubwordVocab::chunk(
            vocab,
        ),
    ensures
        SubwordVocab::parse(bytes, start) == Ok::<(SubwordVocabView, int), Error>(
            (vocab, start + SubwordVocab::chunk(vocab).len()),
        ),
        u64_at(SubwordVocab::chunk(vocab), 4) == SubwordVocab::chunk(vocab).len() - 12,
{
    let words = vocab.words;
    let chunk = SubwordVocab::chunk(vocab);
    let body = u64_to_le(words.len() as u64) + u32_to_le(vocab.min_n) + u32_to_le(vocab.max_n)
        + u32_to_le(vocab.buckets_exp) + words_bytes(words);
    let len = body.len() as int;
    lemma_u64_le_roundtrip(words.len() as u64);
    lemma_u32_le_roundtrip(vocab.min_n);
    lemma_u32_le_roundtrip(vocab.max_n);
    lemma_u32_le_roundtrip(vocab.buckets_exp);
    assert(chunk =~= chunk_start(ChunkIdentifier::VocabSubword, len) + body);
    lemma_chunk_len(ChunkIdentifier::VocabSubword, body);
    lemma_window(bytes, start, chunk, 0, 4);
    lemma_window(bytes, start, chunk, 4, 12);
    lemma_window(bytes, start, chunk, 12, 20);
    lemma_window(bytes, start, chunk, 20, 24);
    lemma_window(bytes, start, chunk, 24, 28);
    lemma_window(bytes, start, chunk, 28, 32);
    lemma_window(bytes, start, chunk, 32, chunk.len() as int);
    assert(chunk.subrange(12, 20) =~= u64_to_le(words.len() as u64));
    assert(chunk.subrange(20, 24) =~= u32_to_le(vocab.min_n));
    assert(chunk.subrange(24, 28) =~= u32_to_le(vocab.max_n));
    assert(chunk.subrange(28, 32) =~= u32_to_le(vocab.buckets_exp));
    assert(chunk.subrange(32, chunk.len() as int) =~= words_bytes(words));
    let held = bytes.subrange(0, start + 12 + len);
    assert(held.subrange(start + 32, start + 32 + words_bytes(words).len()) =~= bytes.subrange(
        start + 32,
        start + chunk.len(),
    ));
    lemma_words_roundtrip(held, start + 32, words);
}

/// What a chunk tells of a vocabulary.
pub enum VocabView {
    Word(Seq<Seq<char>>),
    Subword(SubwordVocabView),
}

impl VocabView {
    /// The number of matrix rows that the vocabulary addresses.
    pub open spec fn total_rows(self) -> int {
        match self {
            VocabView::Word(words) => words.len() as int,
            VocabView::Subword(vocab) => vocab.words.len() + bucket_count(
                vocab.buckets_exp as usize,
            ),
        }
    }
}

impl VocabWrap {
    /// What this vocabulary tells in its chunk.
    pub open spec fn as_chunk(&self) -> VocabView {
        match self {
            VocabWrap::Word(vocab) => VocabView::Word(vocab.word_texts()),
            VocabWrap::Subword(vocab) => VocabView::Subword(vocab.as_chunk()),
        }
    }
}

} // verus!
