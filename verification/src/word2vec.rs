//! Embeddings in the binary format of word2vec.
//!
//! A file starts with a line of text that gives the number of words and
//! the length of the embeddings, in decimal and separated by a space. For
//! each word follow its text, a space, its embedding as little-endian
//! 32-bit numbers, and a line feed.

use vstd::prelude::*;
use vstd::utf8::encode_utf8;

use crate::array::shape_fits;
use crate::embeddings::Embeddings;
use crate::error::Error;
use crate::le::{get_u32s, put_bytes, put_u32s, read_u32s, u32s_to_le};
use crate::storage::{DenseStorage, MatrixView, StorageBackend};
use crate::util::{read_string, string_at};
use crate::vocab::{texts, Vocab, WordVocab};

verus! {

/// Whether `digits` is a decimal numeral: at least one digit and nothing
/// else.
pub open spec fn is_numeral(digits: Seq<u8>) -> bool {
    digits.len() > 0 && forall|i: int| 0 <= i < digits.len() ==> 0x30 <= #[trigger] digits[i] <= 0x39
}

/// The value of a decimal numeral.
pub open spec fn numeral_value(digits: Seq<u8>) -> nat
    decreases digits.len(),
{
    if digits.len() == 0 {
        0
    } else {
        (10 * numeral_value(digits.drop_last()) + (digits.last() - 0x30)) as nat
    }
}

/// The number that `field` denotes: a decimal numeral, which a plus sign
/// may precede.
pub open spec fn parse_decimal(field: Seq<u8>) -> Option<nat> {
    let digits = if field.len() > 0 && field[0] == 0x2b {
        field.drop_first()
    } else {
        field
    };
    if is_numeral(digits) {
        Some(numeral_value(digits))
    } else {
        None
    }
}

proof fn lemma_numeral_prefix(digits: Seq<u8>, i: int)
    requires
        0 <= i <= digits.len(),
        forall|j: int| 0 <= j < digits.len() ==> 0x30 <= #[trigger] digits[j] <= 0x39,
    ensures
        numeral_value(digits.subrange(0, i)) <= numeral_value(digits),
    decreases digits.len(),
{
    if i < digits.len() {
        let front = digits.drop_last();
        lemma_numeral_prefix(front, i);
        assert(front.subrange(0, i) =~= digits.subrange(0, i));
    } else {
        assert(digits.subrange(0, i) =~= digits);
    }
}

/// The number that the bytes of `field` denote, if they denote one that a
/// `usize` holds.
pub fn decimal_value(field: &[u8]) -> (r: Option<usize>)
    ensures
        match r {
            Some(value) => parse_decimal(field@) == Some(value as nat),
            None => parse_decimal(field@) matches Some(value) ==> value > usize::MAX,
        },
{
    let first: usize = if field.len() > 0 && field[0] == 0x2b {
        1
    } else {
        0
    };
    let ghost digits = field@.subrange(first as int, field@.len() as int);
    assert(first == 0 ==> digits =~= field@);
    if field.len() == first {
        return None;
    }
    let mut value: usize = 0;
    let mut i: usize = first;
    while i < field.len()
        invariant
            first <= i <= field@.len(),
            digits == field@.subrange(first as int, field@.len() as int),
            digits.len() > 0,
            parse_decimal(field@) == (if is_numeral(digits) {
                Some(numeral_value(digits))
            } else {
                None
            }),
            forall|j: int| 0 <= j < i - first ==> 0x30 <= #[trigger] digits[j] <= 0x39,
            value == numeral_value(digits.subrange(0, i - first)),
        decreases field@.len() - i,
    {
        let byte = field[i];
        assert(byte == digits[i - first]);
        if byte < 0x30 || byte > 0x39 {
            return None;
        }
        let digit = (byte - 0x30) as usize;
        proof {
            let done = digits.subrange(0, i + 1 - first);
            assert(done.drop_last() =~= digits.subrange(0, i - first));
            if is_numeral(digits) {
                lemma_numeral_prefix(digits, i + 1 - first);
            }
        }
        if value > (usize::MAX - digit) / 10 {
            return None;
        }
        value = 10 * value + digit;
        i += 1;
    }
    assert(digits.subrange(0, digits.len() as int) =~= digits);
    Some(value)
}

/// What reading a number at `pos` gives: the number that the text up to
/// the next `delim` denotes, and the position after that delimiter. Beyond
/// the failures of [`string_at`], a text that denotes no number, or none
/// that a `usize` holds, is `MalformedHeader`.
pub open spec fn number_at(bytes: Seq<u8>, pos: int, delim: u8) -> Result<(nat, int), Error> {
    match string_at(bytes, pos, delim) {
        Err(e) => Err(e),
        Ok((_, next)) => match parse_decimal(bytes.subrange(pos, next - 1)) {
            Some(value) if value <= usize::MAX => Ok((value, next)),
            _ => Err(Error::MalformedHeader),
        },
    }
}

/// Reads the number that starts at `pos` and ends before the next `delim`.
pub fn read_number(bytes: &[u8], pos: usize, delim: u8) -> (r: Result<(usize, usize), Error>)
    ensures
        match r {
            Ok((value, next)) => number_at(bytes@, pos as int, delim) == Ok::<(nat, int), Error>(
                (value as nat, next as int),
            ),
            Err(e) => number_at(bytes@, pos as int, delim) == Err::<(nat, int), Error>(e),
        },
{
    broadcast use vstd::utf8::decode_utf8_encode_utf8;

    let (field, next) = read_string(bytes, pos, delim)?;
    let digits = field.as_str().as_bytes();
    match decimal_value(digits) {
        Some(value) => Ok((value, next)),
        None => Err(Error::MalformedHeader),
    }
}

/// The decimal numeral of `n`.
pub open spec fn numeral_of(n: nat) -> Seq<u8>
    decreases n,
{
    if n < 10 {
        seq![(0x30 + n) as u8]
    } else {
        numeral_of(n / 10).push((0x30 + n % 10) as u8)
    }
}

/// The numeral of a number is a numeral, and its value is the number.
pub proof fn lemma_numeral_roundtrip(n: nat)
    ensures
        is_numeral(numeral_of(n)),
        numeral_value(numeral_of(n)) == n,
        numeral_of(n)[0] != 0x2b,
        parse_decimal(numeral_of(n)) == Some(n),
    decreases n,
{
    if n < 10 {
        let s = numeral_of(n);
        assert(numeral_value(s.drop_last()) == 0);
    } else {
        lemma_numeral_roundtrip(n / 10);
        let s = numeral_of(n);
        assert(s.drop_last() =~= numeral_of(n / 10));
    }
}

/// Appends the decimal numeral of `n`.
pub fn put_decimal(buf: &mut Vec<u8>, n: usize)
    ensures
        final(buf)@ == old(buf)@ + numeral_of(n as nat),
{
    // The digits from the last to the first.
    let mut reversed: Vec<u8> = Vec::new();
    let mut rest: usize = n;
    reversed.push(0x30 + (rest % 10) as u8);
    rest = rest / 10;
    while rest > 0
        invariant
            reversed@.len() >= 1,
            numeral_of(n as nat) == (if rest == 0 {
                reversed@.reverse()
            } else {
                numeral_of(rest as nat) + reversed@.reverse()
            }),
        decreases rest,
    {
        reversed.push(0x30 + (rest % 10) as u8);
        rest = rest / 10;
    }
    let mut i: usize = reversed.len();
    while i > 0
        invariant
            i <= reversed@.len(),
            numeral_of(n as nat) == reversed@.reverse(),
            buf@ == old(buf)@ + reversed@.reverse().subrange(0, reversed@.len() - i),
        decreases i,
    {
        i -= 1;
        buf.push(reversed[i]);
    }
}

/// The text that `str::trim` leaves of `text`: `text` without the white
/// space at its begin and its end, where white space is what Unicode
/// defines as such.
pub uninterp spec fn trimmed(text: Seq<char>) -> Seq<char>;

/// `str::trim`: the stretch of `text` between its leading and its trailing
/// white space.
#[verifier::external_body]
fn trim_text(text: &str) -> (r: &str)
    ensures
        r@ == trimmed(text@),
{
    text.trim()
}

/// What reading the records of `n` words from `pos` on gives, each with
/// an embedding of `dims` elements: the words as they stand in the file,
/// the embeddings one after the other, and the position behind the last
/// embedding. The first record that fails decides the error.
pub open spec fn parse_records(bytes: Seq<u8>, pos: int, n: nat, dims: nat) -> Result<
    (Seq<Seq<char>>, Seq<u32>, int),
    Error,
>
    decreases n,
{
    if n == 0 {
        Ok((Seq::empty(), Seq::empty(), pos))
    } else {
        match parse_records(bytes, pos, (n - 1) as nat, dims) {
            Err(e) => Err(e),
            Ok((words, data, at)) => match string_at(bytes, at, 0x20) {
                Err(e) => Err(e),
                Ok((word, at_row)) => match read_u32s(bytes, at_row, dims) {
                    Err(e) => Err(e),
                    Ok((row, next)) => Ok((words.push(word), data + row, next)),
                },
            },
        }
    }
}

proof fn lemma_parse_records_fails(bytes: Seq<u8>, pos: int, k: nat, n: nat, dims: nat)
    requires
        k <= n,
        parse_records(bytes, pos, k, dims) is Err,
    ensures
        parse_records(bytes, pos, n, dims) == parse_records(bytes, pos, k, dims),
    decreases n,
{
    if k < n {
        lemma_parse_records_fails(bytes, pos, k, (n - 1) as nat, dims);
    }
}

/// What a file holds: the words as they stand in it, which still carry the
/// line feed of the record before them, and the matrix of their
/// embeddings. A shape that no matrix in memory can have is
/// `ShapeMismatch`.
pub open spec fn parse_word2vec(bytes: Seq<u8>) -> Result<(Seq<Seq<char>>, MatrixView), Error> {
    match number_at(bytes, 0, 0x20) {
        Err(e) => Err(e),
        Ok((n_words, at_dims)) => match number_at(bytes, at_dims, 0x0a) {
            Err(e) => Err(e),
            Ok((dims, at_records)) => match parse_records(bytes, at_records, n_words, dims) {
                Err(e) => Err(e),
                Ok((words, data, _)) => if !shape_fits(n_words as int, dims as int) {
                    Err(Error::ShapeMismatch)
                } else {
                    Ok((words, MatrixView { rows: n_words as int, dims: dims as int, data }))
                },
            },
        },
    }
}

/// Reads the words and the matrix of a file: what [`parse_word2vec`]
/// says, each word with its embedding in the row of its position.
pub fn read_records(bytes: &[u8]) -> (r: Result<(Vec<String>, DenseStorage), Error>)
    ensures
        match r {
            Ok((words, storage)) => storage.wf() && words@.len() == storage@.rows
                && parse_word2vec(bytes@) == Ok::<(Seq<Seq<char>>, MatrixView), Error>(
                (texts(words@), storage@),
            ),
            Err(e) => parse_word2vec(bytes@) == Err::<(Seq<Seq<char>>, MatrixView), Error>(e),
        },
{
    let (n_words, at_dims) = read_number(bytes, 0, 0x20)?;
    let (dims, at_records) = read_number(bytes, at_dims, 0x0a)?;
    let mut words: Vec<String> = Vec::new();
    let mut data: Vec<u32> = Vec::new();
    let mut at: usize = at_records;
    let mut i: usize = 0;
    assert(texts(words@) =~= Seq::<Seq<char>>::empty());
    while i < n_words
        invariant
            i <= n_words,
            number_at(bytes@, 0, 0x20) == Ok::<(nat, int), Error>((n_words as nat, at_dims as int)),
            number_at(bytes@, at_dims as int, 0x0a) == Ok::<(nat, int), Error>(
                (dims as nat, at_records as int),
            ),
            words@.len() == i,
            data@.len() == i * dims,
            parse_records(bytes@, at_records as int, i as nat, dims as nat) == Ok::<
                (Seq<Seq<char>>, Seq<u32>, int),
                Error,
            >((texts(words@), data@, at as int)),
        decreases n_words - i,
    {
        proof {
            if parse_records(bytes@, at_records as int, (i + 1) as nat, dims as nat) is Err {
                lemma_parse_records_fails(
                    bytes@,
                    at_records as int,
                    (i + 1) as nat,
                    n_words as nat,
                    dims as nat,
                );
            }
        }
        let (word, at_row) = read_string(bytes, at, 0x20)?;
        let (row, next) = get_u32s(bytes, at_row, dims)?;
        proof {
            assert(texts(words@.push(word)) =~= texts(words@).push(word@));
            assert((i + 1) * dims == i * dims + dims) by (nonlinear_arith);
        }
        words.push(word);
        let mut j: usize = 0;
        let ghost before = data@;
        while j < row.len()
            invariant
                j <= row@.len(),
                data@ == before + row@.subrange(0, j as int),
            decreases row@.len() - j,
        {
            data.push(row[j]);
            j += 1;
        }
        assert(row@.subrange(0, row@.len() as int) =~= row@);
        at = next;
        i += 1;
    }
    match DenseStorage::new(n_words, dims, data) {
        Ok(storage) => Ok((words, storage)),
        Err(e) => Err(e),
    }
}

/// The words without the white space around them.
pub open spec fn trimmed_all(words: Seq<Seq<char>>) -> Seq<Seq<char>> {
    words.map_values(|word: Seq<char>| trimmed(word))
}

/// Reads embeddings from the bytes of a word2vec file. The words are
/// trimmed, which takes from them the line feed of the record before.
pub fn read_word2vec_binary(bytes: &[u8]) -> (r: Result<Embeddings<'static, WordVocab>, Error>)
    ensures
        match r {
            Ok(embeddings) => embeddings.wf() && (parse_word2vec(bytes@) matches Ok(
                (words, matrix),
            ) && embeddings.spec_vocab().word_texts() == trimmed_all(words)
                && embeddings.spec_storage()@ == matrix),
            Err(e) => parse_word2vec(bytes@) == Err::<(Seq<Seq<char>>, MatrixView), Error>(e),
        },
{
    let (raw, storage) = read_records(bytes)?;
    let mut words: Vec<String> = Vec::new();
    let mut i: usize = 0;
    while i < raw.len()
        invariant
            i <= raw@.len(),
            words@.len() == i,
            forall|j: int| 0 <= j < i ==> (#[trigger] words@[j])@ == trimmed(raw@[j]@),
        decreases raw@.len() - i,
    {
        let word = trim_text(raw[i].as_str());
        words.push(word.to_owned());
        i += 1;
    }
    let vocab = WordVocab::new(words);
    match Embeddings::new(vocab, StorageBackend::Dense(storage)) {
        Ok(embeddings) => Ok(embeddings),
        Err(e) => {
            proof {
                assert(false);
            }
            Err(e)
        },
    }
}

/// The record of a word: its text, a space, its embedding and a line
/// feed.
pub open spec fn record(word: Seq<char>, row: Seq<u32>) -> Seq<u8> {
    encode_utf8(word) + seq![0x20u8] + u32s_to_le(row) + seq![0x0au8]
}

/// The records of the first `n` words, each with the row of its position.
pub open spec fn records(words: Seq<Seq<char>>, matrix: MatrixView, n: nat) -> Seq<u8>
    decreases n,
{
    if n == 0 {
        Seq::empty()
    } else {
        records(words, matrix, (n - 1) as nat) + record(words[n - 1], matrix.row(n - 1))
    }
}

/// The file of the words `words` with the first rows of `matrix` as their
/// embeddings.
pub open spec fn word2vec_file(words: Seq<Seq<char>>, matrix: MatrixView) -> Seq<u8> {
    numeral_of(words.len()) + seq![0x20u8] + numeral_of(matrix.dims as nat) + seq![0x0au8]
        + records(words, matrix, words.len())
}

/// Appends the word2vec file of `embeddings`: its words with their
/// embeddings, without the rows of subwords.
pub fn write_word2vec_binary<V: Vocab>(embeddings: &Embeddings<V>, buf: &mut Vec<u8>)
    requires
        embeddings.wf(),
    ensures
        final(buf)@ == old(buf)@ + word2vec_file(
            embeddings.spec_vocab().word_texts(),
            embeddings.spec_storage()@,
        ),
{
    let n_words = embeddings.len();
    let ghost words = embeddings.spec_vocab().word_texts();
    let ghost matrix = embeddings.spec_storage()@;
    put_decimal(buf, n_words);
    buf.push(0x20);
    put_decimal(buf, embeddings.embed_len());
    buf.push(0x0a);
    let ghost header = numeral_of(words.len()) + seq![0x20u8] + numeral_of(matrix.dims as nat)
        + seq![0x0au8];
    let mut i: usize = 0;
    while i < n_words
        invariant
            i <= n_words,
            embeddings.wf(),
            n_words == words.len(),
            words == embeddings.spec_vocab().word_texts(),
            matrix == embeddings.spec_storage()@,
            buf@ == old(buf)@ + header + records(words, matrix, i as nat),
        decreases n_words - i,
    {
        let (word, row) = embeddings.get(i);
        put_bytes(buf, word.as_bytes());
        buf.push(0x20);
        put_u32s(buf, row.as_slice());
        buf.push(0x0a);
        i += 1;
    }
}

} // verus!
