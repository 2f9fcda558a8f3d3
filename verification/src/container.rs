//! Embeddings as a container of chunks.
//!
//! A container starts with a magic number and the version of the format.
//! A header chunk follows, which lists the kinds of the chunks behind it.
//! Those are, in this order: the metadata, if there is any; the
//! vocabulary; the matrix; and the norms, if there are any.

use vstd::prelude::*;

use crate::embeddings::Embeddings;
use crate::error::Error;
use crate::io::{
    chunk_header, chunk_start, lemma_chunk_len, lemma_five_parts, lemma_window,
    numeric_padding, read_chunk_header, write_chunk_header, ChunkIdentifier,
};
use crate::le::{
    get_u32, get_u32s, in_bounds, lemma_u32_le_roundtrip, lemma_u32s_roundtrip,
    lemma_u32s_to_le_len, put_u32, put_u32s, u32_at, u32_to_le, u32s_at, u32s_to_le,
};
use crate::metadata::{lemma_metadata_roundtrip, Metadata};
use crate::norms::{lemma_norms_roundtrip, Norms};
use crate::array::shape_fits;
use crate::storage::{
    fits_shape, holds_shape, lemma_storage_roundtrip, parse_storage, storage_chunk, DenseStorage,
    MappedStorage, MatrixView, StorageBackend,
};
use crate::vocab::{
    check_words, lemma_subword_vocab_roundtrip, lemma_word_vocab_roundtrip, words_encodable,
    SubwordVocab, Vocab, VocabView, VocabWrap, WordVocab,
};

verus! {

/// The number that every container starts with: the bytes `FiFu`, read as
/// a little-endian `u32`.
pub const MAGIC: u32 = 0x7546_6946;

/// The version of the format.
pub const VERSION: u32 = 0;

/// What a container holds.
pub struct ContainerView {
    pub metadata: Option<Seq<char>>,
    pub vocab: VocabView,
    pub matrix: MatrixView,
    pub norms: Option<Seq<u32>>,
}

/// What reading the start of a container gives: the identifiers that its
/// header lists, and the position behind the header.
///
/// Another magic number is `MalformedHeader`, another version
/// `UnsupportedFeature`, and a header that ends before its list does
/// `TruncatedData`, beyond the failures of [`chunk_header`].
pub open spec fn parse_preamble(bytes: Seq<u8>) -> Result<(Seq<u32>, int), Error> {
    if !in_bounds(bytes, 0, 4) {
        Err(Error::TruncatedData)
    } else if u32_at(bytes, 0) != MAGIC {
        Err(Error::MalformedHeader)
    } else if !in_bounds(bytes, 0, 8) {
        Err(Error::TruncatedData)
    } else if u32_at(bytes, 4) != VERSION {
        Err(Error::UnsupportedFeature)
    } else {
        match chunk_header(bytes, 8, ChunkIdentifier::Header) {
            Err(e) => Err(e),
            Ok((len, body)) => if len < 4 || len < 4 + 4 * u32_at(bytes, body) {
                Err(Error::TruncatedData)
            } else {
                Ok((u32s_at(bytes, body + 4, u32_at(bytes, body) as nat), body + len))
            },
        }
    }
}

/// The error for the identifier `found` where a chunk of kind `expected`
/// is due: `TruncatedData` where the list has ended, and else what
/// [`chunk_header`] would say of that identifier.
pub open spec fn unexpected(ids: Seq<u32>, slot: int, expected: ChunkIdentifier) -> Error {
    if slot >= ids.len() {
        Error::TruncatedData
    } else {
        match ChunkIdentifier::from_id(ids[slot]) {
            None => Error::UnknownChunkIdentifier { found: ids[slot] },
            Some(kind) => Error::ChunkIdentifierMismatch {
                expected: expected.id(),
                found: kind.id(),
            },
        }
    }
}

/// Whether the list `ids` has the identifier of `kind` at `slot`.
pub open spec fn lists(ids: Seq<u32>, slot: int, kind: ChunkIdentifier) -> bool {
    0 <= slot < ids.len() && ids[slot] == kind.id()
}

/// What reading the metadata gives, where the list of the header begins
/// with it: the text, if there is any, the number of chunks read and the
/// position behind them.
pub open spec fn parse_metadata_slot(bytes: Seq<u8>, ids: Seq<u32>, pos: int) -> Result<
    (Option<Seq<char>>, int, int),
    Error,
> {
    if lists(ids, 0, ChunkIdentifier::Metadata) {
        match Metadata::parse(bytes, pos) {
            Err(e) => Err(e),
            Ok((text, next)) => Ok((Some(text), 1, next)),
        }
    } else {
        Ok((None, 0, pos))
    }
}

/// What reading the vocabulary at `pos` gives, which the list of the
/// header names at `slot`.
pub open spec fn parse_vocab_slot(bytes: Seq<u8>, ids: Seq<u32>, slot: int, pos: int) -> Result<
    (VocabView, int),
    Error,
> {
    if lists(ids, slot, ChunkIdentifier::VocabSimple) {
        match WordVocab::parse(bytes, pos) {
            Err(e) => Err(e),
            Ok((words, next)) => Ok((VocabView::Word(words), next)),
        }
    } else if lists(ids, slot, ChunkIdentifier::VocabSubword) {
        match SubwordVocab::parse(bytes, pos) {
            Err(e) => Err(e),
            Ok((vocab, next)) => Ok((VocabView::Subword(vocab), next)),
        }
    } else {
        Err(unexpected(ids, slot, ChunkIdentifier::VocabSimple))
    }
}

/// What reading the matrix at `pos` gives, which the list of the header
/// names at `slot`: the matrix, the position of its first element and the
/// position behind the chunk. A quantized matrix is `UnsupportedFeature`.
pub open spec fn parse_storage_slot(bytes: Seq<u8>, ids: Seq<u32>, slot: int, pos: int) -> Result<
    (MatrixView, int, int),
    Error,
> {
    if lists(ids, slot, ChunkIdentifier::StorageDense) {
        parse_storage(bytes, pos)
    } else if lists(ids, slot, ChunkIdentifier::StorageQuantized) {
        Err(Error::UnsupportedFeature)
    } else {
        Err(unexpected(ids, slot, ChunkIdentifier::StorageDense))
    }
}

/// What reading the norms at `pos` gives, where the list of the header
/// goes on to `slot`. The list must end with them.
pub open spec fn parse_norms_slot(bytes: Seq<u8>, ids: Seq<u32>, slot: int, pos: int) -> Result<
    Option<Seq<u32>>,
    Error,
> {
    if slot >= ids.len() {
        Ok(None)
    } else if !lists(ids, slot, ChunkIdentifier::Norms) {
        Err(unexpected(ids, slot, ChunkIdentifier::Norms))
    } else if slot + 1 < ids.len() {
        Err(unexpected(ids, slot + 1, ChunkIdentifier::Norms))
    } else {
        match Norms::parse(bytes, pos) {
            Err(e) => Err(e),
            Ok((norms, _)) => Ok(Some(norms)),
        }
    }
}

/// What a container holds, and where its matrix stands. The chunks are
/// read in their order, and the first failure decides the error. A matrix
/// that does not have the rows that the vocabulary addresses, and norms
/// that do not number one for each row, are `ShapeMismatch`.
pub open spec fn parse_container(bytes: Seq<u8>) -> Result<(ContainerView, int), Error> {
    match parse_preamble(bytes) {
        Err(e) => Err(e),
        Ok((ids, at_chunks)) => match parse_metadata_slot(bytes, ids, at_chunks) {
            Err(e) => Err(e),
            Ok((metadata, slot, at_vocab)) => match parse_vocab_slot(bytes, ids, slot, at_vocab) {
                Err(e) => Err(e),
                Ok((vocab, at_storage)) => match parse_storage_slot(
                    bytes,
                    ids,
                    slot + 1,
                    at_storage,
                ) {
                    Err(e) => Err(e),
                    Ok((matrix, data, at_norms)) => if matrix.rows != vocab.total_rows() {
                        Err(Error::ShapeMismatch)
                    } else {
                        match parse_norms_slot(bytes, ids, slot + 2, at_norms) {
                            Err(e) => Err(e),
                            Ok(norms) => if norms matches Some(values) && values.len()
                                != matrix.rows {
                                Err(Error::ShapeMismatch)
                            } else {
                                Ok((ContainerView { metadata, vocab, matrix, norms }, data))
                            },
                        }
                    },
                },
            },
        },
    }
}

/// What embeddings hold, as a container tells it.
pub open spec fn container_view(embeddings: Embeddings<VocabWrap>) -> ContainerView {
    ContainerView {
        metadata: embeddings.spec_metadata(),
        vocab: embeddings.spec_vocab().as_chunk(),
        matrix: embeddings.spec_storage()@,
        norms: embeddings.spec_norms(),
    }
}

/// Reads the start of a container.
fn read_preamble(bytes: &[u8]) -> (r: Result<(Vec<u32>, usize), Error>)
    ensures
        match r {
            Ok((ids, next)) => parse_preamble(bytes@) == Ok::<(Seq<u32>, int), Error>(
                (ids@, next as int),
            ),
            Err(e) => parse_preamble(bytes@) == Err::<(Seq<u32>, int), Error>(e),
        },
{
    assert(bytes@.len() == bytes.len());
    let (magic, at) = get_u32(bytes, 0)?;
    if magic != MAGIC {
        return Err(Error::MalformedHeader);
    }
    let (version, at) = get_u32(bytes, at)?;
    if version != VERSION {
        return Err(Error::UnsupportedFeature);
    }
    let (len, body) = read_chunk_header(bytes, at, ChunkIdentifier::Header)?;
    if len < 4 {
        return Err(Error::TruncatedData);
    }
    let (n_chunks, at_ids) = match get_u32(bytes, body) {
        Ok(found) => found,
        Err(e) => {
            return Err(e);
        },
    };
    if (len - 4) / 4 < n_chunks as usize {
        return Err(Error::TruncatedData);
    }
    let (ids, _end) = match get_u32s(bytes, at_ids, n_chunks as usize) {
        Ok(found) => found,
        Err(e) => {
            return Err(e);
        },
    };
    Ok((ids, body + len))
}

/// The error for the identifier at `slot` of `ids`, where a chunk of kind
/// `expected` is due.
fn unexpected_chunk(ids: &Vec<u32>, slot: usize, expected: ChunkIdentifier) -> (e: Error)
    ensures
        e == unexpected(ids@, slot as int, expected),
{
    if slot >= ids.len() {
        return Error::TruncatedData;
    }
    match ChunkIdentifier::try_from(ids[slot]) {
        None => Error::UnknownChunkIdentifier { found: ids[slot] },
        Some(kind) => Error::ChunkIdentifierMismatch {
            expected: expected.to_u32(),
            found: kind.to_u32(),
        },
    }
}

/// Whether `ids` has the identifier of `kind` at `slot`.
fn lists_chunk(ids: &Vec<u32>, slot: usize, kind: ChunkIdentifier) -> (r: bool)
    ensures
        r == lists(ids@, slot as int, kind),
{
    slot < ids.len() && ids[slot] == kind.to_u32()
}

/// Reads the chunks of a container between its header and its matrix.
fn read_front(bytes: &[u8]) -> (r: Result<
    (Vec<u32>, Option<Metadata>, VocabWrap, usize, usize),
    Error,
>)
    ensures
        match r {
            Ok((ids, metadata, vocab, slot, at_storage)) => {
                &&& vocab.wf()
                &&& slot <= 1
                &&& parse_preamble(bytes@) matches Ok((listed, at_chunks))
                &&& listed == ids@
                &&& parse_metadata_slot(bytes@, listed, at_chunks) matches Ok(
                    (text, used, at_vocab),
                )
                &&& text == (match metadata {
                    Some(given) => Some(given.0@),
                    None => None,
                })
                &&& used == slot
                &&& parse_vocab_slot(bytes@, listed, used, at_vocab) == Ok::<
                    (VocabView, int),
                    Error,
                >((vocab.as_chunk(), at_storage as int))
            },
            Err(e) => match parse_preamble(bytes@) {
                Err(found) => e == found,
                Ok((listed, at_chunks)) => match parse_metadata_slot(bytes@, listed, at_chunks) {
                    Err(found) => e == found,
                    Ok((_, used, at_vocab)) => parse_vocab_slot(bytes@, listed, used, at_vocab)
                        == Err::<(VocabView, int), Error>(e),
                },
            },
        },
{
    let (ids, at_chunks) = read_preamble(bytes)?;
    let mut slot: usize = 0;
    let mut at: usize = at_chunks;
    let mut metadata: Option<Metadata> = None;
    if lists_chunk(&ids, 0, ChunkIdentifier::Metadata) {
        let (found, next) = Metadata::read_chunk(bytes, at)?;
        metadata = Some(found);
        slot = 1;
        at = next;
    }
    if lists_chunk(&ids, slot, ChunkIdentifier::VocabSimple) {
        let (vocab, next) = WordVocab::read_chunk(bytes, at)?;
        Ok((ids, metadata, VocabWrap::Word(vocab), slot, next))
    } else if lists_chunk(&ids, slot, ChunkIdentifier::VocabSubword) {
        let (vocab, next) = SubwordVocab::read_chunk(bytes, at)?;
        Ok((ids, metadata, VocabWrap::Subword(vocab), slot, next))
    } else {
        Err(unexpected_chunk(&ids, slot, ChunkIdentifier::VocabSimple))
    }
}

/// Reads the norms of a container, if it has any.
fn read_norms_slot(bytes: &[u8], ids: &Vec<u32>, slot: usize, pos: usize) -> (r: Result<
    Option<Norms>,
    Error,
>)
    requires
        slot <= 3,
    ensures
        match r {
            Ok(norms) => parse_norms_slot(bytes@, ids@, slot as int, pos as int) == Ok::<
                Option<Seq<u32>>,
                Error,
            >(
                match norms {
                    Some(given) => Some(given.0@),
                    None => None,
                },
            ),
            Err(e) => parse_norms_slot(bytes@, ids@, slot as int, pos as int) == Err::<
                Option<Seq<u32>>,
                Error,
            >(e),
        },
{
    if slot >= ids.len() {
        return Ok(None);
    }
    if !lists_chunk(ids, slot, ChunkIdentifier::Norms) {
        return Err(unexpected_chunk(ids, slot, ChunkIdentifier::Norms));
    }
    if slot + 1 < ids.len() {
        return Err(unexpected_chunk(ids, slot + 1, ChunkIdentifier::Norms));
    }
    let (norms, _next) = Norms::read_chunk(bytes, pos)?;
    Ok(Some(norms))
}

/// Puts together what was read of a container.
fn assemble<'a>(
    metadata: Option<Metadata>,
    vocab: VocabWrap,
    storage: StorageBackend<'a>,
    norms: Option<Norms>,
) -> (r: Result<Embeddings<'a, VocabWrap>, Error>)
    requires
        vocab.wf(),
        storage.wf(),
        storage@.rows == vocab.spec_total_rows(),
    ensures
        match r {
            Ok(embeddings) => {
                &&& embeddings.wf()
                &&& embeddings.spec_vocab() == vocab
                &&& embeddings.spec_storage() == storage
                &&& embeddings.spec_metadata() == (match metadata {
                    Some(given) => Some(given.0@),
                    None => None,
                })
                &&& embeddings.spec_norms() == (match norms {
                    Some(given) => Some(given.0@),
                    None => None,
                })
                &&& !(norms matches Some(given) && given.0@.len() != storage@.rows)
            },
            Err(e) => e == Error::ShapeMismatch && (norms matches Some(given) && given.0@.len()
                != storage@.rows),
        },
{
    let mut embeddings = match Embeddings::new(vocab, storage) {
        Ok(embeddings) => embeddings,
        Err(e) => {
            proof {
                assert(false);
            }
            return Err(e);
        },
    };
    embeddings.set_metadata(metadata);
    match embeddings.set_norms(norms) {
        Ok(()) => Ok(embeddings),
        Err(e) => Err(e),
    }
}

/// Reads embeddings from the bytes of a container into memory.
pub fn read_embeddings(bytes: &[u8]) -> (r: Result<Embeddings<'static, VocabWrap>, Error>)
    ensures
        match r {
            Ok(embeddings) => {
                &&& embeddings.wf()
                &&& embeddings.spec_storage() is Dense
                &&& parse_container(bytes@) matches Ok((held, _))
                &&& held == container_view(embeddings)
            },
            Err(e) => parse_container(bytes@) == Err::<(ContainerView, int), Error>(e),
        },
{
    let (ids, metadata, vocab, slot, at_storage) = read_front(bytes)?;
    if lists_chunk(&ids, slot + 1, ChunkIdentifier::StorageQuantized) {
        return Err(Error::UnsupportedFeature);
    }
    if !lists_chunk(&ids, slot + 1, ChunkIdentifier::StorageDense) {
        return Err(unexpected_chunk(&ids, slot + 1, ChunkIdentifier::StorageDense));
    }
    let (storage, at_norms) = DenseStorage::read_chunk(bytes, at_storage)?;
    if storage.shape().0 != vocab.total_rows() {
        return Err(Error::ShapeMismatch);
    }
    let norms = read_norms_slot(bytes, &ids, slot + 2, at_norms)?;
    assemble(metadata, vocab, StorageBackend::Dense(storage), norms)
}

/// Reads embeddings from the bytes of a container, which may be a mapped
/// file: the matrix is not copied, and stays where it stands in `bytes`.
pub fn mmap_embeddings<'a>(bytes: &'a [u8]) -> (r: Result<Embeddings<'a, VocabWrap>, Error>)
    ensures
        match r {
            Ok(embeddings) => {
                &&& embeddings.wf()
                &&& parse_container(bytes@) matches Ok((held, data))
                &&& held == container_view(embeddings)
                &&& embeddings.spec_storage() matches StorageBackend::Mapped(mapped)
                &&& mapped.spec_offset() == data
                &&& mapped.region() == bytes@.subrange(
                    data,
                    data + 4 * (held.matrix.rows * held.matrix.dims),
                )
            },
            Err(e) => parse_container(bytes@) == Err::<(ContainerView, int), Error>(e),
        },
{
    let (ids, metadata, vocab, slot, at_storage) = read_front(bytes)?;
    if lists_chunk(&ids, slot + 1, ChunkIdentifier::StorageQuantized) {
        return Err(Error::UnsupportedFeature);
    }
    if !lists_chunk(&ids, slot + 1, ChunkIdentifier::StorageDense) {
        return Err(unexpected_chunk(&ids, slot + 1, ChunkIdentifier::StorageDense));
    }
    let (storage, at_norms) = MappedStorage::read_chunk(bytes, at_storage)?;
    if storage.shape().0 != vocab.total_rows() {
        return Err(Error::ShapeMismatch);
    }
    let norms = read_norms_slot(bytes, &ids, slot + 2, at_norms)?;
    assemble(metadata, vocab, StorageBackend::Mapped(storage), norms)
}

/// The list of the kinds of the chunks of a container.
pub open spec fn listed_ids(held: ContainerView) -> Seq<u32> {
    (if held.metadata is Some {
        seq![ChunkIdentifier::Metadata.id()]
    } else {
        Seq::<u32>::empty()
    }) + seq![
        match held.vocab {
            VocabView::Word(_) => ChunkIdentifier::VocabSimple.id(),
            VocabView::Subword(_) => ChunkIdentifier::VocabSubword.id(),
        },
        ChunkIdentifier::StorageDense.id(),
    ] + (if held.norms is Some {
        seq![ChunkIdentifier::Norms.id()]
    } else {
        Seq::<u32>::empty()
    })
}

/// The start of a container whose header lists `ids`.
pub open spec fn preamble(ids: Seq<u32>) -> Seq<u8> {
    u32_to_le(MAGIC) + u32_to_le(VERSION) + chunk_start(
        ChunkIdentifier::Header,
        4 + 4 * (ids.len() as int),
    )
        + u32_to_le(ids.len() as u32) + u32s_to_le(ids)
}

/// The chunk of the metadata, if there is any.
pub open spec fn metadata_bytes(metadata: Option<Seq<char>>) -> Seq<u8> {
    match metadata {
        Some(text) => Metadata::chunk(text),
        None => Seq::empty(),
    }
}

/// The chunk of a vocabulary.
pub open spec fn vocab_bytes(vocab: VocabView) -> Seq<u8> {
    match vocab {
        VocabView::Word(words) => WordVocab::chunk(words),
        VocabView::Subword(subwords) => SubwordVocab::chunk(subwords),
    }
}

/// The chunk of the norms at position `start`, if there are any.
pub open spec fn norms_bytes(start: int, norms: Option<Seq<u32>>) -> Seq<u8> {
    match norms {
        Some(values) => Norms::chunk(start, values),
        None => Seq::empty(),
    }
}

/// The container of `held`: its start and its chunks, the matrix and the
/// norms each padded for the position at which it stands.
pub open spec fn container_bytes(held: ContainerView) -> Seq<u8> {
    let front = preamble(listed_ids(held)) + metadata_bytes(held.metadata) + vocab_bytes(
        held.vocab,
    );
    let matrix = storage_chunk(front.len() as int, held.matrix);
    front + matrix + norms_bytes((front.len() + matrix.len()) as int, held.norms)
}

/// Whether a container can hold `embeddings`: every length fits the field
/// that the format has for it.
pub open spec fn writable(embeddings: Embeddings<VocabWrap>) -> bool {
    &&& embeddings.wf()
    &&& words_encodable(embeddings.spec_vocab().word_texts())
    &&& embeddings.spec_vocab() matches VocabWrap::Subword(vocab) ==> vocab.spec_min_n()
        <= u32::MAX && vocab.spec_max_n() <= u32::MAX
    &&& embeddings.spec_storage()@.dims <= u32::MAX
    &&& shape_fits(embeddings.spec_storage()@.rows, embeddings.spec_storage()@.dims)
    &&& 4 * (embeddings.spec_storage()@.rows * embeddings.spec_storage()@.dims) + 32 <= u64::MAX
    &&& 4 * embeddings.spec_storage()@.rows + 32 <= u64::MAX
}

/// Whether a container can hold `embeddings`.
pub fn is_writable(embeddings: &Embeddings<VocabWrap>) -> (r: bool)
    requires
        embeddings.wf(),
    ensures
        r == writable(*embeddings),
{
    let (rows, dims) = embeddings.data().shape();
    if dims > 0xffff_ffff || !fits_shape(rows, dims) {
        return false;
    }
    if rows as u64 > (0xffff_ffff_ffff_ffff - 32) / 4 {
        return false;
    }
    match (rows as u64).checked_mul(dims as u64) {
        Some(count) => {
            if count > (0xffff_ffff_ffff_ffff - 32) / 4 {
                return false;
            }
        },
        None => {
            return false;
        },
    }
    match embeddings.vocab() {
        VocabWrap::Word(vocab) => check_words(vocab.words()),
        VocabWrap::Subword(vocab) => vocab.min_n() <= 0xffff_ffff && vocab.max_n() <= 0xffff_ffff
            && check_words(vocab.words()),
    }
}

/// The container of `embeddings`. Reading it gives the same embeddings
/// back.
#[verifier::rlimit(30)]
pub fn write_embeddings(embeddings: &Embeddings<VocabWrap>) -> (buf: Vec<u8>)
    requires
        writable(*embeddings),
    ensures
        buf@ == container_bytes(container_view(*embeddings)),
        parse_container(buf@) matches Ok((read, _)) && read == container_view(*embeddings),
{
    let ghost held = container_view(*embeddings);
    let mut ids: Vec<u32> = Vec::new();
    if embeddings.metadata().is_some() {
        ids.push(ChunkIdentifier::Metadata.to_u32());
    }
    match embeddings.vocab() {
        VocabWrap::Word(_) => {
            ids.push(ChunkIdentifier::VocabSimple.to_u32());
        },
        VocabWrap::Subword(_) => {
            ids.push(ChunkIdentifier::VocabSubword.to_u32());
        },
    }
    ids.push(ChunkIdentifier::StorageDense.to_u32());
    if embeddings.norms().is_some() {
        ids.push(ChunkIdentifier::Norms.to_u32());
    }
    assert(ids@ =~= listed_ids(held));

    let mut buf: Vec<u8> = Vec::new();
    put_u32(&mut buf, MAGIC);
    put_u32(&mut buf, VERSION);
    write_chunk_header(&mut buf, ChunkIdentifier::Header, 4 + 4 * (ids.len() as u64));
    put_u32(&mut buf, ids.len() as u32);
    put_u32s(&mut buf, ids.as_slice());

    if let Some(metadata) = embeddings.metadata() {
        metadata.write_chunk(&mut buf);
    }
    match embeddings.vocab() {
        VocabWrap::Word(vocab) => {
            vocab.write_chunk(&mut buf);
        },
        VocabWrap::Subword(vocab) => {
            vocab.write_chunk(&mut buf);
        },
    }
    let ghost front = preamble(listed_ids(held)) + metadata_bytes(held.metadata) + vocab_bytes(
        held.vocab,
    );
    assert(buf@.len() == buf.len());
    embeddings.data().write_chunk(&mut buf);
    if let Some(norms) = embeddings.norms() {
        norms.write_chunk(&mut buf);
    }
    proof {
        embeddings.spec_storage().lemma_shape();
        if let VocabWrap::Subword(vocab) = embeddings.spec_vocab() {
            vocab.lemma_parameters();
        }
        lemma_container_roundtrip(held);
    }
    buf
}

/// Whether a container can hold `held`: the matrix has the rows that the
/// vocabulary addresses, there is a norm for each row if there are norms,
/// a vocabulary can be made of the parameters, and every length fits the
/// field that the format has for it.
pub open spec fn holdable(held: ContainerView) -> bool {
    &&& words_encodable(
        match held.vocab {
            VocabView::Word(words) => words,
            VocabView::Subword(vocab) => vocab.words,
        },
    )
    &&& held.vocab matches VocabView::Subword(vocab) ==> SubwordVocab::check(
        vocab.words.len() as int,
        vocab.min_n as usize,
        vocab.max_n as usize,
        vocab.buckets_exp as usize,
    ) is None
    &&& vocab_bytes(held.vocab).len() <= u64::MAX
    &&& metadata_bytes(held.metadata).len() <= u64::MAX
    &&& holds_shape(held.matrix.rows, held.matrix.dims)
    &&& held.matrix.dims <= u32::MAX
    &&& held.matrix.data.len() == held.matrix.rows * held.matrix.dims
    &&& 4 * held.matrix.data.len() + 32 <= u64::MAX
    &&& 4 * held.matrix.rows + 32 <= u64::MAX
    &&& held.matrix.rows == held.vocab.total_rows()
    &&& held.norms matches Some(norms) ==> norms.len() == held.matrix.rows
}

proof fn lemma_preamble_roundtrip(bytes: Seq<u8>, ids: Seq<u32>)
    requires
        ids.len() <= 4,
        in_bounds(bytes, 0, preamble(ids).len() as int),
        bytes.subrange(0, preamble(ids).len() as int) == preamble(ids),
    ensures
        preamble(ids).len() == 24 + 4 * ids.len(),
        parse_preamble(bytes) == Ok::<(Seq<u32>, int), Error>((ids, preamble(ids).len() as int)),
{
    let start = preamble(ids);
    let body = u32_to_le(ids.len() as u32) + u32s_to_le(ids);
    lemma_u32_le_roundtrip(MAGIC);
    lemma_u32_le_roundtrip(VERSION);
    lemma_u32_le_roundtrip(ids.len() as u32);
    lemma_u32s_to_le_len(ids);
    let chunk = chunk_start(ChunkIdentifier::Header, body.len() as int) + body;
    lemma_chunk_len(ChunkIdentifier::Header, body);
    assert(start =~= u32_to_le(MAGIC) + u32_to_le(VERSION) + chunk);
    assert(start.subrange(0, 4) =~= u32_to_le(MAGIC));
    assert(start.subrange(4, 8) =~= u32_to_le(VERSION));
    lemma_window(bytes, 0, start, 0, 4);
    lemma_window(bytes, 0, start, 4, 8);
    lemma_window(bytes, 0, start, 8, 12);
    lemma_window(bytes, 0, start, 12, 20);
    lemma_window(bytes, 0, start, 20, 24);
    lemma_window(bytes, 0, start, 24, start.len() as int);
    assert(start.subrange(8, 12) =~= chunk.subrange(0, 4));
    assert(start.subrange(12, 20) =~= chunk.subrange(4, 12));
    assert(start.subrange(20, 24) =~= u32_to_le(ids.len() as u32));
    assert(start.subrange(24, start.len() as int) =~= u32s_to_le(ids));
    assert(u32_at(bytes, 8) == ChunkIdentifier::Header.id());
    assert(u32_at(bytes, 20) == ids.len());
    assert(ChunkIdentifier::from_id(ChunkIdentifier::Header.id()) == Some(ChunkIdentifier::Header));
    lemma_u32s_roundtrip(bytes, 24, ids);
}

/// Embeddings that were written are read back unchanged: reading the
/// container of `held` gives `held`, and its matrix stands on a multiple
/// of four behind the vocabulary.
#[verifier::rlimit(30)]
pub proof fn lemma_container_roundtrip(held: ContainerView)
    requires
        holdable(held),
    ensures
        parse_container(container_bytes(held)) matches Ok((read, data)) && read == held && data
            % 4 == 0,
{
    let ids = listed_ids(held);
    let start = preamble(ids);
    let metadata = metadata_bytes(held.metadata);
    let vocab = vocab_bytes(held.vocab);
    let front = start + metadata + vocab;
    let matrix = storage_chunk(front.len() as int, held.matrix);
    let norms = norms_bytes((front.len() + matrix.len()) as int, held.norms);
    let bytes = container_bytes(held);
    assert(bytes =~= start + metadata + vocab + matrix + norms);
    lemma_five_parts(start, metadata, vocab, matrix, norms);
    let at_metadata = start.len() as int;
    let at_vocab = at_metadata + metadata.len();
    let at_matrix = at_vocab + vocab.len();
    let at_norms = at_matrix + matrix.len();
    assert(at_matrix == front.len());

    lemma_preamble_roundtrip(bytes, ids);
    let slot: int = if held.metadata is Some {
        1
    } else {
        0
    };
    match held.metadata {
        Some(text) => {
            assert(ids[0] == ChunkIdentifier::Metadata.id());
            crate::metadata::lemma_metadata_chunk_len(text);
            lemma_metadata_roundtrip(bytes, at_metadata, text);
        },
        None => {
            assert(ids[0] != ChunkIdentifier::Metadata.id());
        },
    }
    assert(parse_metadata_slot(bytes, ids, at_metadata) == Ok::<
        (Option<Seq<char>>, int, int),
        Error,
    >((held.metadata, slot, at_vocab)));
    match held.vocab {
        VocabView::Word(words) => {
            assert(ids[slot] == ChunkIdentifier::VocabSimple.id());
            lemma_word_vocab_roundtrip(bytes, at_vocab, words);
        },
        VocabView::Subword(subwords) => {
            assert(ids[slot] == ChunkIdentifier::VocabSubword.id());
            lemma_subword_vocab_roundtrip(bytes, at_vocab, subwords);
        },
    }
    assert(parse_vocab_slot(bytes, ids, slot, at_vocab) == Ok::<(VocabView, int), Error>(
        (held.vocab, at_matrix),
    ));
    assert(ids[slot + 1] == ChunkIdentifier::StorageDense.id());
    lemma_storage_roundtrip(bytes, at_matrix, held.matrix);
    crate::io::lemma_numeric_padding(at_matrix, 12);
    let data = at_matrix + 28 + numeric_padding(at_matrix, 12);
    assert(parse_storage_slot(bytes, ids, slot + 1, at_matrix) == Ok::<
        (MatrixView, int, int),
        Error,
    >((held.matrix, data, at_norms)));
    match held.norms {
        Some(values) => {
            assert(ids[slot + 2] == ChunkIdentifier::Norms.id());
            assert(ids.len() == slot + 3);
            lemma_norms_roundtrip(bytes, at_norms, values);
        },
        None => {
            assert(ids.len() == slot + 2);
        },
    }
    assert(parse_norms_slot(bytes, ids, slot + 2, at_norms) == Ok::<Option<Seq<u32>>, Error>(
        held.norms,
    ));
}

} // verus!
