//! The chunk of the metadata of the embeddings.

use vstd::prelude::*;
use vstd::utf8::{decode_utf8, encode_utf8, valid_utf8};

use crate::error::Error;
use crate::io::{
    chunk_header, chunk_start, lemma_window, read_chunk_header, write_chunk_header, ChunkIdentifier,
};
use crate::le::{
    in_bounds, lemma_u32_le_roundtrip, lemma_u64_le_roundtrip, put_bytes, u32_to_le, u64_at,
    u64_to_le,
};
use crate::util::text_at;

verus! {

/// A document of keys and values that describes the embeddings, as its
/// text. The container stores the text and does not look into it.
#[derive(Clone, Debug, PartialEq, Eq)]
pub struct Metadata(pub String);

impl Metadata {
    /// The chunk of the document `text`: the start of the chunk and the
    /// UTF-8 encoding of the text, without padding.
    pub open spec fn chunk(text: Seq<char>) -> Seq<u8> {
        chunk_start(ChunkIdentifier::Metadata, encode_utf8(text).len() as int) + encode_utf8(text)
    }

    /// What reading a chunk of metadata at `pos` gives: the text and the
    /// position behind the chunk. Beyond the failures of [`chunk_header`],
    /// a chunk that is not UTF-8 is `InvalidUtf8`.
    pub open spec fn parse(bytes: Seq<u8>, pos: int) -> Result<(Seq<char>, int), Error> {
        match chunk_header(bytes, pos, ChunkIdentifier::Metadata) {
            Err(e) => Err(e),
            Ok((len, body)) => if !valid_utf8(bytes.subrange(body, body + len)) {
                Err(Error::InvalidUtf8)
            } else {
                Ok((decode_utf8(bytes.subrange(body, body + len)), body + len))
            },
        }
    }

    /// The kind of this chunk.
    pub fn chunk_identifier(&self) -> (kind: ChunkIdentifier)
        ensures
            kind == ChunkIdentifier::Metadata,
    {
        ChunkIdentifier::Metadata
    }

    /// Appends the chunk of this document to `buf`.
    pub fn write_chunk(&self, buf: &mut Vec<u8>)
        ensures
            final(buf)@ == old(buf)@ + Self::chunk(self.0@),
            Self::parse(final(buf)@, old(buf)@.len() as int) == Ok::<(Seq<char>, int), Error>(
                (self.0@, final(buf)@.len() as int),
            ),
    {
        let text = self.0.as_str().as_bytes();
        write_chunk_header(buf, ChunkIdentifier::Metadata, text.len() as u64);
        put_bytes(buf, text);
        proof {
            let start = old(buf)@.len() as int;
            assert(buf@.subrange(start, buf@.len() as int) =~= Self::chunk(self.0@));
            lemma_metadata_roundtrip(buf@, start, self.0@);
        }
    }

    /// Reads the chunk of metadata at `pos`, and hands the document back
    /// with the position behind the chunk.
    pub fn read_chunk(bytes: &[u8], pos: usize) -> (r: Result<(Metadata, usize), Error>)
        ensures
            match r {
                Ok((metadata, next)) => Self::parse(bytes@, pos as int) == Ok::<
                    (Seq<char>, int),
                    Error,
                >((metadata.0@, next as int)),
                Err(e) => Self::parse(bytes@, pos as int) == Err::<(Seq<char>, int), Error>(e),
            },
    {
        assert(bytes@.len() == bytes.len());
        let (len, body) = read_chunk_header(bytes, pos, ChunkIdentifier::Metadata)?;
        match text_at(bytes, body, body + len) {
            None => Err(Error::InvalidUtf8),
            Some(text) => Ok((Metadata(text), body + len)),
        }
    }
}

/// A document that was written is read back unchanged: wherever a
/// container holds the chunk of `text` at `start`, reading at `start`
/// gives `text` and the position behind the chunk.
pub proof fn lemma_metadata_roundtrip(bytes: Seq<u8>, start: int, text: Seq<char>)
    requires
        0 <= start,
        encode_utf8(text).len() <= u64::MAX,
        in_bounds(bytes, start, Metadata::chunk(text).len() as int),
        bytes.subrange(start, start + Metadata::chunk(text).len()) == Metadata::chunk(text),
    ensures
        Metadata::parse(bytes, start) == Ok::<(Seq<char>, int), Error>(
            (text, start + Metadata::chunk(text).len()),
        ),
{
    broadcast use vstd::utf8::encode_utf8_decode_utf8, vstd::utf8::encode_utf8_valid_utf8;

    lemma_metadata_chunk_len(text);
    let chunk = Metadata::chunk(text);
    let encoded = encode_utf8(text);
    let len = encoded.len() as int;
    lemma_u32_le_roundtrip(ChunkIdentifier::Metadata.id());
    lemma_window(bytes, start, chunk, 0, 4);
    lemma_window(bytes, start, chunk, 4, 12);
    lemma_window(bytes, start, chunk, 12, 12 + len);
    assert(chunk.subrange(0, 4) =~= u32_to_le(ChunkIdentifier::Metadata.id()));
    assert(chunk.subrange(12, 12 + len) =~= encoded);
}

/// The length that the chunk of metadata declares is the number of its
/// bytes behind the length field.
pub proof fn lemma_metadata_chunk_len(text: Seq<char>)
    requires
        encode_utf8(text).len() <= u64::MAX,
    ensures
        Metadata::chunk(text).len() == 12 + encode_utf8(text).len(),
        u64_at(Metadata::chunk(text), 4) == Metadata::chunk(text).len() - 12,
{
    let chunk = Metadata::chunk(text);
    let len = encode_utf8(text).len() as int;
    lemma_u32_le_roundtrip(ChunkIdentifier::Metadata.id());
    lemma_u64_le_roundtrip(len as u64);
    assert(chunk.subrange(4, 12) =~= u64_to_le(len as u64));
}

} // verus!
