//! The chunk of the norms of the embeddings.

use vstd::prelude::*;

use crate::array::{array1_from_vec, array1_len, array1_to_vec, Array1Bits};
use crate::error::Error;
use crate::io::{
    lemma_numeric_chunk_layout, numeric_chunk, numeric_layout, read_numeric_layout,
    write_numeric_chunk, ChunkIdentifier,
};
use crate::le::{
    get_u32s, get_u64, in_bounds, lemma_u32s_roundtrip, lemma_u64_le_roundtrip, put_u64, u32s_at,
    u64_at, u64_to_le,
};

verus! {

/// The norms that the embeddings had before they were normalized, one for
/// each row. Each norm is a 32-bit IEEE 754 number, held as its bits.
#[derive(Debug, PartialEq, Eq)]
pub struct Norms(pub Array1Bits);

impl Norms {
    /// The norms `values`.
    pub fn new(values: Vec<u32>) -> (r: Norms)
        requires
            values@.len() <= isize::MAX,
        ensures
            r.0@ == values@,
    {
        Norms(array1_from_vec(values))
    }

    /// The number of norms.
    pub fn len(&self) -> (r: usize)
        ensures
            r == self.0@.len(),
    {
        array1_len(&self.0)
    }

    /// The norms, in the order of the rows.
    pub fn to_vec(&self) -> (r: Vec<u32>)
        ensures
            r@ == self.0@,
    {
        array1_to_vec(&self.0)
    }

    /// The chunk of `norms` at position `start` of a container: a numeric
    /// chunk whose shape is the number of norms, in 64 bits.
    pub open spec fn chunk(start: int, norms: Seq<u32>) -> Seq<u8> {
        numeric_chunk(ChunkIdentifier::Norms, start, u64_to_le(norms.len() as u64), norms)
    }

    /// What reading a chunk of norms at `pos` gives: the norms and the
    /// position behind the chunk. Beyond the failures of
    /// [`numeric_layout`], a chunk that ends before the last norm is
    /// `TruncatedData`.
    pub open spec fn parse(bytes: Seq<u8>, pos: int) -> Result<(Seq<u32>, int), Error> {
        match numeric_layout(bytes, pos, ChunkIdentifier::Norms, 8) {
            Err(e) => Err(e),
            Ok((len, body, data)) => if data - body + 4 * u64_at(bytes, body) > len {
                Err(Error::TruncatedData)
            } else {
                Ok((u32s_at(bytes, data, u64_at(bytes, body) as nat), body + len))
            },
        }
    }

    /// The kind of this chunk.
    pub fn chunk_identifier(&self) -> (kind: ChunkIdentifier)
        ensures
            kind == ChunkIdentifier::Norms,
    {
        ChunkIdentifier::Norms
    }

    /// Appends the chunk of these norms to `buf`, which holds the
    /// container from its first byte.
    pub fn write_chunk(&self, buf: &mut Vec<u8>)
        requires
            4 * self.0@.len() + 32 <= u64::MAX,
        ensures
            final(buf)@ == old(buf)@ + Self::chunk(old(buf)@.len() as int, self.0@),
            Self::parse(final(buf)@, old(buf)@.len() as int) == Ok::<(Seq<u32>, int), Error>(
                (self.0@, final(buf)@.len() as int),
            ),
    {
        let values = self.to_vec();
        let mut shape: Vec<u8> = Vec::new();
        put_u64(&mut shape, values.len() as u64);
        proof {
            lemma_u64_le_roundtrip(self.0@.len() as u64);
        }
        write_numeric_chunk(buf, ChunkIdentifier::Norms, shape.as_slice(), values.as_slice());
        proof {
            let start = old(buf)@.len() as int;
            assert(buf@.subrange(start, buf@.len() as int) =~= Self::chunk(start, self.0@));
            lemma_norms_roundtrip(buf@, start, self.0@);
        }
    }

    /// Reads the chunk of norms at `pos`, and hands the norms back with
    /// the position behind the chunk.
    pub fn read_chunk(bytes: &[u8], pos: usize) -> (r: Result<(Norms, usize), Error>)
        ensures
            match r {
                Ok((norms, next)) => Self::parse(bytes@, pos as int) == Ok::<
                    (Seq<u32>, int),
                    Error,
                >((norms.0@, next as int)),
                Err(e) => Self::parse(bytes@, pos as int) == Err::<(Seq<u32>, int), Error>(e),
            },
    {
        assert(bytes@.len() == bytes.len());
        let (len, body, data) = read_numeric_layout(bytes, pos, ChunkIdentifier::Norms, 8)?;
        let (n, _at) = match get_u64(bytes, body) {
            Ok(found) => found,
            Err(e) => {
                return Err(e);
            },
        };
        let room = len - (data - body);
        if n > (room / 4) as u64 {
            return Err(Error::TruncatedData);
        }
        let (values, _end) = match get_u32s(bytes, data, n as usize) {
            Ok(found) => found,
            Err(e) => {
                return Err(e);
            },
        };
        Ok((Norms::new(values), body + len))
    }
}

/// Norms that were written are read back unchanged: wherever a container
/// holds the chunk of `norms` at the position `start` it was written for,
/// reading at `start` gives `norms` and the position behind the chunk.
pub proof fn lemma_norms_roundtrip(bytes: Seq<u8>, start: int, norms: Seq<u32>)
    requires
        0 <= start,
        4 * norms.len() + 32 <= u64::MAX,
        in_bounds(bytes, start, Norms::chunk(start, norms).len() as int),
        bytes.subrange(start, start + Norms::chunk(start, norms).len()) == Norms::chunk(
            start,
            norms,
        ),
    ensures
        Norms::parse(bytes, start) == Ok::<(Seq<u32>, int), Error>(
            (norms, start + Norms::chunk(start, norms).len()),
        ),
{
    let shape = u64_to_le(norms.len() as u64);
    lemma_u64_le_roundtrip(norms.len() as u64);
    lemma_numeric_chunk_layout(bytes, start, ChunkIdentifier::Norms, shape, norms);
    let data = start + 16 + 8 + crate::io::numeric_padding(start, 8);
    lemma_u32s_roundtrip(bytes, data, norms);
}

/// The length that the chunk of norms declares is the number of its bytes
/// behind the length field, padding included.
pub proof fn lemma_norms_chunk_len(start: int, norms: Seq<u32>)
    requires
        0 <= start,
        4 * norms.len() + 32 <= u64::MAX,
    ensures
        u64_at(Norms::chunk(start, norms), 4) == Norms::chunk(start, norms).len() - 12,
{
    let shape = u64_to_le(norms.len() as u64);
    lemma_u64_le_roundtrip(norms.len() as u64);
    crate::io::lemma_numeric_chunk_len(ChunkIdentifier::Norms, start, shape, norms);
}

} // verus!
