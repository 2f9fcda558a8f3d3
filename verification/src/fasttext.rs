//! Models in the binary format of fastText.
//!
//! A model file holds a magic number and a version, the training arguments,
//! the dictionary and the input matrix. Quantized matrices and pruned
//! dictionaries are recognized and reported as unsupported.

pub mod subword;
pub mod vocab;

use vstd::prelude::*;
use vstd::slice::slice_subrange;

use crate::error::Error;
use crate::fasttext::subword::{fasttext_hash, ngram_hash};
use crate::le::{
    agrees, get_u32, get_u32s, get_u64, get_u8, in_bounds, read_u32, read_u32s, read_u64, read_u8,
    u32_at, u64_at,
};
use crate::subword::{bracket, bracketed, chars_of, ngram_spans, NGrams};
use crate::util::{read_string, str_eq, string_at};

verus! {

/// The number that every fastText model file starts with.
pub const FASTTEXT_FILEFORMAT_MAGIC: u32 = 793712314;

/// The newest version of the format that can be read.
pub const FASTTEXT_VERSION: u32 = 12;

/// The kind of model that was trained.
#[derive(Clone, Copy, Debug, PartialEq, Eq, Structural)]
pub enum Model {
    CBOW,
    SkipGram,
    Supervised,
}

impl Model {
    /// The model that a file names by `id`.
    pub open spec fn from_id(id: u32) -> Option<Model> {
        if id == 1 {
            Some(Model::CBOW)
        } else if id == 2 {
            Some(Model::SkipGram)
        } else if id == 3 {
            Some(Model::Supervised)
        } else {
            None
        }
    }

    /// What [`read_binary`](Self::read_binary) hands back.
    pub open spec fn parse(bytes: Seq<u8>, pos: int) -> Result<(Model, int), Error> {
        match read_u32(bytes, pos) {
            Err(e) => Err(e),
            Ok((id, next)) => match Self::from_id(id) {
                Some(model) => Ok((model, next)),
                None => Err(Error::MalformedHeader),
            },
        }
    }

    /// Reads a model kind at `pos`: a little-endian `u32` from 1 to 3.
    /// Fails with `TruncatedData` when the field is incomplete and with
    /// `MalformedHeader` when it names no model.
    pub fn read_binary(bytes: &[u8], pos: usize) -> (r: Result<(Model, usize), Error>)
        ensures
            agrees(r, Self::parse(bytes@, pos as int)),
    {
        let (id, next) = get_u32(bytes, pos)?;
        match id {
            1 => Ok((Model::CBOW, next)),
            2 => Ok((Model::SkipGram, next)),
            3 => Ok((Model::Supervised, next)),
            _ => Err(Error::MalformedHeader),
        }
    }
}

/// The loss that the model was trained with.
#[derive(Clone, Copy, Debug, PartialEq, Eq, Structural)]
pub enum Loss {
    HierarchicalSoftmax,
    NegativeSampling,
    Softmax,
}

impl Loss {
    /// The loss that a file names by `id`.
    pub open spec fn from_id(id: u32) -> Option<Loss> {
        if id == 1 {
            Some(Loss::HierarchicalSoftmax)
        } else if id == 2 {
            Some(Loss::NegativeSampling)
        } else if id == 3 {
            Some(Loss::Softmax)
        } else {
            None
        }
    }

    /// What [`read_binary`](Self::read_binary) hands back.
    pub open spec fn parse(bytes: Seq<u8>, pos: int) -> Result<(Loss, int), Error> {
        match read_u32(bytes, pos) {
            Err(e) => Err(e),
            Ok((id, next)) => match Self::from_id(id) {
                Some(loss) => Ok((loss, next)),
                None => Err(Error::MalformedHeader),
            },
        }
    }

    /// Reads a loss at `pos`: a little-endian `u32` from 1 to 3. Fails with
    /// `TruncatedData` when the field is incomplete and with
    /// `MalformedHeader` when it names no loss.
    pub fn read_binary(bytes: &[u8], pos: usize) -> (r: Result<(Loss, usize), Error>)
        ensures
            agrees(r, Self::parse(bytes@, pos as int)),
    {
        let (id, next) = get_u32(bytes, pos)?;
        match id {
            1 => Ok((Loss::HierarchicalSoftmax, next)),
            2 => Ok((Loss::NegativeSampling, next)),
            3 => Ok((Loss::Softmax, next)),
            _ => Err(Error::MalformedHeader),
        }
    }
}

/// The arguments that the model was trained with.
#[derive(Clone, Copy, Debug, PartialEq, Eq, Structural)]
pub struct Args {
    pub dims: u32,
    pub window_size: u32,
    pub epoch: u32,
    pub min_count: u32,
    pub neg: u32,
    pub word_ngrams: u32,
    pub loss: Loss,
    pub model: Model,
    pub bucket: u32,
    pub min_n: u32,
    pub max_n: u32,
    pub lr_update_rate: u32,
    /// The sampling threshold, a 64-bit IEEE 754 number, as its bits.
    pub sampling_threshold_bits: u64,
}

impl Args {
    /// The number of bytes that the arguments take in a file.
    pub open spec fn encoded_len() -> int {
        56
    }

    /// Whether subwords can be computed with these arguments: the n-gram
    /// lengths are in order and there is a bucket to hash to.
    pub open spec fn subwords_defined(&self) -> bool {
        1 <= self.min_n <= self.max_n && self.bucket >= 1
    }

    /// What [`read_binary`](Self::read_binary) hands back: twelve
    /// little-endian `u32` fields and one of 64 bits, in the order of the
    /// fields of [`Args`].
    pub open spec fn parse(bytes: Seq<u8>, pos: int) -> Result<(Args, int), Error> {
        let at = pos;
        if !in_bounds(bytes, at, 28) {
            Err(Error::TruncatedData)
        } else if Loss::from_id(u32_at(bytes, at + 24)) is None {
            Err(Error::MalformedHeader)
        } else if !in_bounds(bytes, at, 32) {
            Err(Error::TruncatedData)
        } else if Model::from_id(u32_at(bytes, at + 28)) is None {
            Err(Error::MalformedHeader)
        } else if !in_bounds(bytes, at, 56) {
            Err(Error::TruncatedData)
        } else {
            Ok(
                (
                    Args {
                        dims: u32_at(bytes, at),
                        window_size: u32_at(bytes, at + 4),
                        epoch: u32_at(bytes, at + 8),
                        min_count: u32_at(bytes, at + 12),
                        neg: u32_at(bytes, at + 16),
                        word_ngrams: u32_at(bytes, at + 20),
                        loss: Loss::from_id(u32_at(bytes, at + 24))->0,
                        model: Model::from_id(u32_at(bytes, at + 28))->0,
                        bucket: u32_at(bytes, at + 32),
                        min_n: u32_at(bytes, at + 36),
                        max_n: u32_at(bytes, at + 40),
                        lr_update_rate: u32_at(bytes, at + 44),
                        sampling_threshold_bits: u64_at(bytes, at + 48),
                    },
                    pos + 56,
                ),
            )
        }
    }

    /// Reads the training arguments at `pos`. Fails with `TruncatedData`
    /// where the data ends inside a field, and with `MalformedHeader` where
    /// the loss or the model is unknown; the first field that fails decides.
    pub fn read_binary(bytes: &[u8], pos: usize) -> (r: Result<(Args, usize), Error>)
        ensures
            agrees(r, Self::parse(bytes@, pos as int)),
    {
        let (dims, pos) = get_u32(bytes, pos)?;
        let (window_size, pos) = get_u32(bytes, pos)?;
        let (epoch, pos) = get_u32(bytes, pos)?;
        let (min_count, pos) = get_u32(bytes, pos)?;
        let (neg, pos) = get_u32(bytes, pos)?;
        let (word_ngrams, pos) = get_u32(bytes, pos)?;
        let (loss, pos) = Loss::read_binary(bytes, pos)?;
        let (model, pos) = Model::read_binary(bytes, pos)?;
        let (bucket, pos) = get_u32(bytes, pos)?;
        let (min_n, pos) = get_u32(bytes, pos)?;
        let (max_n, pos) = get_u32(bytes, pos)?;
        let (lr_update_rate, pos) = get_u32(bytes, pos)?;
        let (sampling_threshold_bits, pos) = get_u64(bytes, pos)?;
        Ok(
            (
                Args {
                    dims,
                    window_size,
                    epoch,
                    min_count,
                    neg,
                    word_ngrams,
                    loss,
                    model,
                    bucket,
                    min_n,
                    max_n,
                    lr_update_rate,
                    sampling_threshold_bits,
                },
                pos,
            ),
        )
    }
}

/// Whether a dictionary entry is a word or a label.
#[derive(Clone, Copy, Debug, PartialEq, Eq, Structural)]
pub enum EntryType {
    Word,
    Label,
}

impl EntryType {
    /// The entry type that a file names by `id`.
    pub open spec fn from_id(id: u8) -> Option<EntryType> {
        if id == 0 {
            Some(EntryType::Word)
        } else if id == 1 {
            Some(EntryType::Label)
        } else {
            None
        }
    }

    /// What [`read_binary`](Self::read_binary) hands back.
    pub open spec fn parse(bytes: Seq<u8>, pos: int) -> Result<(EntryType, int), Error> {
        match read_u8(bytes, pos) {
            Err(e) => Err(e),
            Ok((id, next)) => match Self::from_id(id) {
                Some(entry_type) => Ok((entry_type, next)),
                None => Err(Error::MalformedHeader),
            },
        }
    }

    /// Reads an entry type at `pos`: one byte, 0 or 1. Fails with
    /// `TruncatedData` when the byte is missing and with `MalformedHeader`
    /// when it names no entry type.
    pub fn read_binary(bytes: &[u8], pos: usize) -> (r: Result<(EntryType, usize), Error>)
        ensures
            agrees(r, Self::parse(bytes@, pos as int)),
    {
        let (id, next) = get_u8(bytes, pos)?;
        match id {
            0 => Ok((EntryType::Word, next)),
            1 => Ok((EntryType::Label, next)),
            _ => Err(Error::MalformedHeader),
        }
    }
}

/// An entry of the dictionary.
#[derive(Clone, Debug)]
pub struct Entry {
    pub word: String,
    pub count: u64,
    pub entry_type: EntryType,
    /// The matrix rows of the subwords of the word, in the order of its
    /// n-grams.
    pub subwords: Vec<u32>,
}

/// An entry as plain values.
pub struct EntryView {
    pub word: Seq<char>,
    pub count: u64,
    pub entry_type: EntryType,
    pub subwords: Seq<u32>,
}

impl View for Entry {
    type V = EntryView;

    open spec fn view(&self) -> EntryView {
        EntryView {
            word: self.word@,
            count: self.count,
            entry_type: self.entry_type,
            subwords: self.subwords@,
        }
    }
}

/// The entries of a sequence as plain values.
pub open spec fn entry_views(entries: Seq<Entry>) -> Seq<EntryView> {
    entries.map_values(|e: Entry| e@)
}

/// What reading one entry at `pos` gives: its word up to a zero byte, its
/// count and its type; no subwords yet.
pub open spec fn parse_entry(bytes: Seq<u8>, pos: int) -> Result<(EntryView, int), Error> {
    match string_at(bytes, pos, 0) {
        Err(e) => Err(e),
        Ok((word, at_count)) => match read_u64(bytes, at_count) {
            Err(e) => Err(e),
            Ok((count, at_type)) => match EntryType::parse(bytes, at_type) {
                Err(e) => Err(e),
                Ok((entry_type, next)) => Ok(
                    (EntryView { word, count, entry_type, subwords: Seq::empty() }, next),
                ),
            },
        },
    }
}

/// What reading `n` entries from `pos` on gives. The first entry that
/// fails decides the error.
pub open spec fn parse_entries(bytes: Seq<u8>, pos: int, n: nat) -> Result<
    (Seq<EntryView>, int),
    Error,
>
    decreases n,
{
    if n == 0 {
        Ok((Seq::empty(), pos))
    } else {
        match parse_entries(bytes, pos, (n - 1) as nat) {
            Err(e) => Err(e),
            Ok((entries, at)) => match parse_entry(bytes, at) {
                Err(e) => Err(e),
                Ok((entry, next)) => Ok((entries.push(entry), next)),
            },
        }
    }
}

proof fn lemma_parse_entries_fails(bytes: Seq<u8>, pos: int, k: nat, n: nat)
    requires
        k <= n,
        parse_entries(bytes, pos, k) is Err,
    ensures
        parse_entries(bytes, pos, n) == parse_entries(bytes, pos, k),
    decreases n,
{
    if k < n {
        lemma_parse_entries_fails(bytes, pos, k, (n - 1) as nat);
    }
}

/// The word that marks the end of a sentence. It has no subwords.
pub open spec fn eos() -> Seq<char> {
    seq!['<', '/', 's', '>']
}

/// The matrix rows of the subwords of `word`: for each n-gram, in the
/// order of [`ngram_spans`], its hash modulo `buckets`, behind the rows of
/// the `n_words` words.
pub open spec fn subword_rows(
    word: Seq<char>,
    min_n: u32,
    max_n: u32,
    n_words: u32,
    buckets: u32,
) -> Seq<u32> {
    ngram_spans(word.len() as int, min_n as int, max_n as int).map_values(
        |span: (int, int)|
            (n_words + ngram_hash(word.subrange(span.0, span.0 + span.1)) % buckets) as u32,
    )
}

/// The matrix rows of the subwords of `word`.
pub fn compute_subwords(word: &str, min_n: u32, max_n: u32, n_words: u32, buckets: u32) -> (r: Vec<
    u32,
>)
    requires
        1 <= min_n <= max_n,
        buckets >= 1,
        n_words + buckets <= 0x1_0000_0000,
    ensures
        r@ == subword_rows(word@, min_n, max_n, n_words, buckets),
{
    let chars = chars_of(word);
    let ghost spans = ngram_spans(chars@.len() as int, min_n as int, max_n as int);
    let ghost rows = subword_rows(word@, min_n, max_n, n_words, buckets);
    let mut ngrams = NGrams::new(chars.as_slice(), min_n as usize, max_n as usize);
    let mut hashes: Vec<u32> = Vec::new();
    loop
        invariant
            buckets >= 1,
            n_words + buckets <= 0x1_0000_0000,
            ngrams.wf(),
            ngrams.sequence() == chars@,
            chars@ == word@,
            spans == ngram_spans(word@.len() as int, min_n as int, max_n as int),
            rows == subword_rows(word@, min_n, max_n, n_words, buckets),
            hashes@.len() + ngrams.remaining().len() == spans.len(),
            ngrams.remaining() == spans.subrange(hashes@.len() as int, spans.len() as int),
            hashes@ == rows.subrange(0, hashes@.len() as int),
        ensures
            hashes@ == rows,
        decreases ngrams.remaining().len(),
    {
        let next = ngrams.next_span();
        match next {
            None => {
                break ;
            },
            Some((start, n)) => {
                assert(chars@.len() == chars.len());
                let ngram = slice_subrange(chars.as_slice(), start, start + n);
                let h = fasttext_hash(ngram) % buckets;
                hashes.push(n_words + h);
            },
        }
    }
    hashes
}

/// The entries with the subwords of every word but the end of sentence
/// filled in.
pub open spec fn with_subwords(entries: Seq<EntryView>, args: Args) -> Seq<EntryView> {
    entries.map_values(
        |e: EntryView|
            if e.word == eos() {
                e
            } else {
                EntryView {
                    word: e.word,
                    count: e.count,
                    entry_type: e.entry_type,
                    subwords: subword_rows(
                        bracketed(e.word),
                        args.min_n,
                        args.max_n,
                        entries.len() as u32,
                        args.bucket,
                    ),
                }
            },
    )
}

/// The words of a model with their counts and subwords.
#[derive(Clone, Debug)]
pub struct Dictionary {
    pub args: Args,
    pub words: Vec<Entry>,
}

impl Dictionary {
    /// What reading a dictionary at `pos` gives: after a header of 28
    /// bytes, which starts with the number of entries and ends with the
    /// size of the pruning index, the entries. A pruning index, which a
    /// size of zero or more announces, is not supported; neither is a
    /// dictionary whose words and buckets together exceed 2^32 rows.
    pub open spec fn parse(args: Args, bytes: Seq<u8>, pos: int) -> Result<
        (Seq<EntryView>, int),
        Error,
    > {
        if !in_bounds(bytes, pos, 28) {
            Err(Error::TruncatedData)
        } else {
            match parse_entries(bytes, pos + 28, u32_at(bytes, pos) as nat) {
                Err(e) => Err(e),
                Ok((entries, next)) => if u64_at(bytes, pos + 20) < 0x8000_0000_0000_0000 {
                    Err(Error::UnsupportedFeature)
                } else if entries.len() + args.bucket > 0x1_0000_0000 {
                    Err(Error::UnsupportedFeature)
                } else {
                    Ok((with_subwords(entries, args), next))
                },
            }
        }
    }

    /// Reads the dictionary at `pos` and computes the subwords of its
    /// words.
    pub fn read_binary(args: Args, bytes: &[u8], pos: usize) -> (r: Result<
        (Dictionary, usize),
        Error,
    >)
        requires
            args.subwords_defined(),
        ensures
            match r {
                Ok((dict, next)) => dict.args == args && Self::parse(args, bytes@, pos as int)
                    == Ok::<(Seq<EntryView>, int), Error>((entry_views(dict.words@), next as int)),
                Err(e) => Self::parse(args, bytes@, pos as int) == Err::<
                    (Seq<EntryView>, int),
                    Error,
                >(e),
            },
    {
        let (size, at) = get_u32(bytes, pos)?;
        let (_n_words, at) = get_u32(bytes, at)?;
        let (_n_labels, at) = get_u32(bytes, at)?;
        let (_n_tokens, at) = get_u64(bytes, at)?;
        let (prune_idx_size, at) = get_u64(bytes, at)?;

        let mut at = at;
        let mut words: Vec<Entry> = Vec::new();
        let mut i: u32 = 0;
        assert(entry_views(words@) =~= Seq::<EntryView>::empty());
        while i < size
            invariant
                i <= size,
                in_bounds(bytes@, pos as int, 28),
                size == u32_at(bytes@, pos as int),
                words@.len() == i,
                parse_entries(bytes@, pos + 28, i as nat) == Ok::<(Seq<EntryView>, int), Error>(
                    (entry_views(words@), at as int),
                ),
            decreases size - i,
        {
            proof {
                if parse_entry(bytes@, at as int) is Err {
                    lemma_parse_entries_fails(bytes@, pos + 28, (i + 1) as nat, size as nat);
                }
            }
            let (word, at_count) = read_string(bytes, at, 0)?;
            let (count, at_type) = get_u64(bytes, at_count)?;
            let (entry_type, next) = EntryType::read_binary(bytes, at_type)?;
            let entry = Entry { word, count, entry_type, subwords: Vec::new() };
            proof {
                assert(entry_views(words@.push(entry)) =~= entry_views(words@).push(entry@));
            }
            words.push(entry);
            at = next;
            i += 1;
        }

        if prune_idx_size < 0x8000_0000_0000_0000 {
            return Err(Error::UnsupportedFeature);
        }
        if words.len() > 0xffff_ffff || words.len() as u64 + args.bucket as u64 > 0x1_0000_0000 {
            return Err(Error::UnsupportedFeature);
        }
        let mut dict = Dictionary { args, words };
        dict.init_ngrams();
        Ok((dict, at))
    }

    /// Computes the subwords of every word but the end of sentence.
    pub fn init_ngrams(&mut self)
        requires
            old(self).args.subwords_defined(),
            old(self).words@.len() + old(self).args.bucket <= 0x1_0000_0000,
        ensures
            final(self).args == old(self).args,
            entry_views(final(self).words@) == with_subwords(
                entry_views(old(self).words@),
                old(self).args,
            ),
    {
        let n_words = self.words.len() as u32;
        let ghost before = entry_views(self.words@);
        let ghost after = with_subwords(before, self.args);
        let mut i: usize = 0;
        while i < self.words.len()
            invariant
                i <= self.words@.len(),
                self.args == old(self).args,
                self.args.subwords_defined(),
                n_words == self.words@.len(),
                n_words + self.args.bucket <= 0x1_0000_0000,
                before == entry_views(old(self).words@),
                after == with_subwords(before, self.args),
                self.words@.len() == before.len(),
                forall|j: int| 0 <= j < i ==> (#[trigger] self.words@[j])@ == after[j],
                forall|j: int| i <= j < before.len() ==> (#[trigger] self.words@[j])@ == before[j],
            decreases self.words@.len() - i,
        {
            proof {
                reveal_strlit("</s>");
                assert("</s>"@ =~= eos());
            }
            if !str_eq(self.words[i].word.as_str(), "</s>") {
                let bounded = bracket(self.words[i].word.as_str());
                let subwords = compute_subwords(
                    bounded.as_str(),
                    self.args.min_n,
                    self.args.max_n,
                    n_words,
                    self.args.bucket,
                );
                self.words[i].subwords = subwords;
            }
            i += 1;
        }
    }
}

/// The input matrix of a model: its elements row by row, each a 32-bit
/// IEEE 754 number held as its bits.
#[derive(Clone, Debug)]
pub struct Matrix {
    pub data: Vec<u32>,
}

impl Matrix {
    /// What reading a matrix at `pos` gives: after the numbers of rows and
    /// of columns, 64 bits each, that many elements.
    pub open spec fn parse(bytes: Seq<u8>, pos: int) -> Result<(Seq<u32>, int), Error> {
        if !in_bounds(bytes, pos, 16) {
            Err(Error::TruncatedData)
        } else {
            read_u32s(bytes, pos + 16, (u64_at(bytes, pos) * u64_at(bytes, pos + 8)) as nat)
        }
    }

    /// Reads the matrix at `pos`. Fails with `TruncatedData` when the data
    /// ends before the last element.
    pub fn read_binary(bytes: &[u8], pos: usize) -> (r: Result<(Matrix, usize), Error>)
        ensures
            match r {
                Ok((matrix, next)) => Self::parse(bytes@, pos as int) == Ok::<
                    (Seq<u32>, int),
                    Error,
                >((matrix.data@, next as int)),
                Err(e) => Self::parse(bytes@, pos as int) == Err::<(Seq<u32>, int), Error>(e),
            },
    {
        let (m, at) = get_u64(bytes, pos)?;
        let (n, at) = get_u64(bytes, at)?;
        let total = bytes.len();
        let count = match m.checked_mul(n) {
            Some(count) => count,
            None => {
                return Err(Error::TruncatedData);
            },
        };
        if count > total as u64 {
            return Err(Error::TruncatedData);
        }
        let (data, next) = get_u32s(bytes, at, count as usize)?;
        Ok((Matrix { data }, next))
    }
}

/// A model as it stands in a file.
#[derive(Clone, Debug)]
pub struct FastTextModel {
    pub args: Args,
    pub dictionary: Dictionary,
    pub matrix: Matrix,
}

/// A model as plain values: the arguments, the entries of the dictionary
/// and the elements of the matrix.
pub struct FastTextModelView {
    pub args: Args,
    pub entries: Seq<EntryView>,
    pub data: Seq<u32>,
}

impl View for FastTextModel {
    type V = FastTextModelView;

    open spec fn view(&self) -> FastTextModelView {
        FastTextModelView {
            args: self.args,
            entries: entry_views(self.dictionary.words@),
            data: self.matrix.data@,
        }
    }
}

/// What a model file holds, if it can be read. The checks are made in the
/// order of the file, and the first that fails decides the error:
/// the magic number (`MalformedHeader`), the version (`UnsupportedFeature`),
/// the arguments, their n-gram lengths (`InvalidNgramRange`) and buckets
/// (`UnsupportedFeature` for none), the dictionary, the flag of a quantized
/// input matrix (`UnsupportedFeature`), the matrix, and the flag of a
/// quantized output matrix (`UnsupportedFeature`).
pub open spec fn parse_fasttext(bytes: Seq<u8>) -> Result<FastTextModelView, Error> {
    if !in_bounds(bytes, 0, 4) {
        Err(Error::TruncatedData)
    } else if u32_at(bytes, 0) != FASTTEXT_FILEFORMAT_MAGIC {
        Err(Error::MalformedHeader)
    } else if !in_bounds(bytes, 0, 8) {
        Err(Error::TruncatedData)
    } else if u32_at(bytes, 4) > FASTTEXT_VERSION {
        Err(Error::UnsupportedFeature)
    } else {
        match Args::parse(bytes, 8) {
            Err(e) => Err(e),
            Ok((args, at_dict)) => if !(1 <= args.min_n <= args.max_n) {
                Err(Error::InvalidNgramRange)
            } else if args.bucket == 0 {
                Err(Error::UnsupportedFeature)
            } else {
                match Dictionary::parse(args, bytes, at_dict) {
                    Err(e) => Err(e),
                    Ok((entries, at_quant)) => if !in_bounds(bytes, at_quant, 1) {
                        Err(Error::TruncatedData)
                    } else if bytes[at_quant] == 1 {
                        Err(Error::UnsupportedFeature)
                    } else {
                        match Matrix::parse(bytes, at_quant + 1) {
                            Err(e) => Err(e),
                            Ok((data, at_qout)) => if !in_bounds(bytes, at_qout, 1) {
                                Err(Error::TruncatedData)
                            } else if bytes[at_qout] == 1 {
                                Err(Error::UnsupportedFeature)
                            } else {
                                Ok(FastTextModelView { args, entries, data })
                            },
                        }
                    },
                }
            },
        }
    }
}

/// Reads a model from the bytes of a fastText file.
pub fn read_fasttext_binary(bytes: &[u8]) -> (r: Result<FastTextModel, Error>)
    ensures
        match r {
            Ok(model) => parse_fasttext(bytes@) == Ok::<FastTextModelView, Error>(model@),
            Err(e) => parse_fasttext(bytes@) == Err::<FastTextModelView, Error>(e),
        },
{
    let (magic, at) = get_u32(bytes, 0)?;
    if magic != FASTTEXT_FILEFORMAT_MAGIC {
        return Err(Error::MalformedHeader);
    }
    let (version, at) = get_u32(bytes, at)?;
    if version > FASTTEXT_VERSION {
        return Err(Error::UnsupportedFeature);
    }
    let (args, at) = Args::read_binary(bytes, at)?;
    if args.min_n == 0 || args.min_n > args.max_n {
        return Err(Error::InvalidNgramRange);
    }
    if args.bucket == 0 {
        return Err(Error::UnsupportedFeature);
    }
    let (dictionary, at) = Dictionary::read_binary(args, bytes, at)?;
    let (quant_input, at) = get_u8(bytes, at)?;
    if quant_input == 1 {
        return Err(Error::UnsupportedFeature);
    }
    let (matrix, at) = Matrix::read_binary(bytes, at)?;
    let (qout, _at) = get_u8(bytes, at)?;
    if qout == 1 {
        return Err(Error::UnsupportedFeature);
    }
    Ok(FastTextModel { args, dictionary, matrix })
}

} // verus!
