//! The chunks of the container format.
//!
//! A container is a sequence of chunks. Every chunk starts with the
//! identifier of its kind, a little-endian `u32`, and the number of bytes
//! that follow in the chunk, a little-endian `u64`.

use vstd::prelude::*;

use crate::error::Error;
use crate::le::{
    get_u32, get_u64, in_bounds, lemma_u32_le_roundtrip, lemma_u32s_to_le_len,
    lemma_u64_le_roundtrip, put_bytes, put_u32, put_u32s, put_u64, put_zeros, u32_at, u32_to_le,
    u32s_to_le, u64_at, u64_to_le,
};
use crate::util::{padding, padding_at};

verus! {

/// The kinds of chunks.
#[derive(Clone, Copy, Debug, PartialEq, Eq, Structural)]
pub enum ChunkIdentifier {
    Header,
    VocabSimple,
    StorageDense,
    VocabSubword,
    StorageQuantized,
    Metadata,
    Norms,
}

impl ChunkIdentifier {
    /// The identifier as it stands in a container.
    pub open spec fn id(self) -> u32 {
        match self {
            ChunkIdentifier::Header => 0,
            ChunkIdentifier::VocabSimple => 1,
            ChunkIdentifier::StorageDense => 2,
            ChunkIdentifier::VocabSubword => 3,
            ChunkIdentifier::StorageQuantized => 4,
            ChunkIdentifier::Metadata => 5,
            ChunkIdentifier::Norms => 6,
        }
    }

    /// The kind of chunk that `id` names.
    pub open spec fn from_id(id: u32) -> Option<ChunkIdentifier> {
        if id == 0 {
            Some(ChunkIdentifier::Header)
        } else if id == 1 {
            Some(ChunkIdentifier::VocabSimple)
        } else if id == 2 {
            Some(ChunkIdentifier::StorageDense)
        } else if id == 3 {
            Some(ChunkIdentifier::VocabSubword)
        } else if id == 4 {
            Some(ChunkIdentifier::StorageQuantized)
        } else if id == 5 {
            Some(ChunkIdentifier::Metadata)
        } else if id == 6 {
            Some(ChunkIdentifier::Norms)
        } else {
            None
        }
    }

    /// The identifier as it stands in a container.
    pub fn to_u32(self) -> (id: u32)
        ensures
            id == self.id(),
            Self::from_id(id) == Some(self),
    {
        match self {
            ChunkIdentifier::Header => 0,
            ChunkIdentifier::VocabSimple => 1,
            ChunkIdentifier::StorageDense => 2,
            ChunkIdentifier::VocabSubword => 3,
            ChunkIdentifier::StorageQuantized => 4,
            ChunkIdentifier::Metadata => 5,
            ChunkIdentifier::Norms => 6,
        }
    }

    /// The kind of chunk that `id` names, if it names one.
    pub fn try_from(id: u32) -> (r: Option<ChunkIdentifier>)
        ensures
            r == Self::from_id(id),
    {
        match id {
            0 => Some(ChunkIdentifier::Header),
            1 => Some(ChunkIdentifier::VocabSimple),
            2 => Some(ChunkIdentifier::StorageDense),
            3 => Some(ChunkIdentifier::VocabSubword),
            4 => Some(ChunkIdentifier::StorageQuantized),
            5 => Some(ChunkIdentifier::Metadata),
            6 => Some(ChunkIdentifier::Norms),
            _ => None,
        }
    }
}

/// The tag of the only element type of numeric chunks: 32-bit IEEE 754.
pub const F32_TYPE_ID: u32 = 10;

/// `n` zero bytes.
pub open spec fn zeros(n: int) -> Seq<u8> {
    Seq::new(n as nat, |i: int| 0u8)
}

/// The start of a chunk of kind `kind` that holds `len` bytes after its
/// length field.
pub open spec fn chunk_start(kind: ChunkIdentifier, len: int) -> Seq<u8> {
    u32_to_le(kind.id()) + u64_to_le(len as u64)
}

/// What reading the start of a chunk at `pos` gives when a chunk of kind
/// `expected` is due: the number of bytes of the chunk after its length
/// field, and the position where they begin. All of them lie inside
/// `bytes`.
pub open spec fn chunk_header(bytes: Seq<u8>, pos: int, expected: ChunkIdentifier) -> Result<
    (int, int),
    Error,
> {
    if !in_bounds(bytes, pos, 4) {
        Err(Error::TruncatedData)
    } else {
        match ChunkIdentifier::from_id(u32_at(bytes, pos)) {
            None => Err(Error::UnknownChunkIdentifier { found: u32_at(bytes, pos) }),
            Some(kind) => if kind != expected {
                Err(Error::ChunkIdentifierMismatch { expected: expected.id(), found: kind.id() })
            } else if !in_bounds(bytes, pos, 12) {
                Err(Error::TruncatedData)
            } else if !in_bounds(bytes, pos + 12, u64_at(bytes, pos + 4) as int) {
                Err(Error::TruncatedData)
            } else {
                Ok((u64_at(bytes, pos + 4) as int, pos + 12))
            },
        }
    }
}

/// Reads the start of a chunk at `pos`, where a chunk of kind `expected` is
/// due.
///
/// Fails with `UnknownChunkIdentifier` when the identifier names no kind,
/// with `ChunkIdentifierMismatch` when it names another kind, and with
/// `TruncatedData` when a field is incomplete or the chunk is declared
/// longer than the data that is left.
pub fn read_chunk_header(bytes: &[u8], pos: usize, expected: ChunkIdentifier) -> (r: Result<
    (usize, usize),
    Error,
>)
    ensures
        match r {
            Ok((len, body)) => chunk_header(bytes@, pos as int, expected) == Ok::<(int, int), Error>(
                (len as int, body as int),
            ),
            Err(e) => chunk_header(bytes@, pos as int, expected) == Err::<(int, int), Error>(e),
        },
{
    let (id, at) = get_u32(bytes, pos)?;
    let kind = match ChunkIdentifier::try_from(id) {
        Some(kind) => kind,
        None => {
            return Err(Error::UnknownChunkIdentifier { found: id });
        },
    };
    if kind != expected {
        return Err(
            Error::ChunkIdentifierMismatch { expected: expected.to_u32(), found: kind.to_u32() },
        );
    }
    let (len, body) = get_u64(bytes, at)?;
    if len > (bytes.len() - body) as u64 {
        return Err(Error::TruncatedData);
    }
    Ok((len as usize, body))
}

/// Appends the start of a chunk of kind `kind` that will hold `len` bytes
/// after its length field.
pub fn write_chunk_header(buf: &mut Vec<u8>, kind: ChunkIdentifier, len: u64)
    ensures
        final(buf)@ == old(buf)@ + chunk_start(kind, len as int),
{
    put_u32(buf, kind.to_u32());
    put_u64(buf, len);
}

/// The length that a chunk declares is the number of its bytes behind the
/// length field: a chunk that is made of its start and `body` has twelve
/// bytes more than `body`, and holds the length of `body` behind its
/// identifier.
pub proof fn lemma_chunk_len(kind: ChunkIdentifier, body: Seq<u8>)
    requires
        body.len() <= u64::MAX,
    ensures
        (chunk_start(kind, body.len() as int) + body).len() == 12 + body.len(),
        u32_at(chunk_start(kind, body.len() as int) + body, 0) == kind.id(),
        u64_at(chunk_start(kind, body.len() as int) + body, 4) == body.len(),
{
    let chunk = chunk_start(kind, body.len() as int) + body;
    lemma_u32_le_roundtrip(kind.id());
    lemma_u64_le_roundtrip(body.len() as u64);
    assert(chunk.subrange(0, 4) =~= u32_to_le(kind.id()));
    assert(chunk.subrange(4, 12) =~= u64_to_le(body.len() as u64));
}

/// The padding of a numeric chunk that starts at `start` and whose shape
/// takes `shape_len` bytes: what brings the position behind the element
/// type to a multiple of the element size.
pub open spec fn numeric_padding(start: int, shape_len: int) -> int {
    padding_at(start + 16 + shape_len, 4)
}

/// The number of bytes of a numeric chunk after its length field.
pub open spec fn numeric_len(start: int, shape_len: int, count: int) -> int {
    shape_len + 4 + numeric_padding(start, shape_len) + 4 * count
}

/// A numeric chunk of kind `kind` that starts at position `start` of a
/// container: after the start of the chunk its shape, the tag of the
/// element type, the padding and the elements.
pub open spec fn numeric_chunk(
    kind: ChunkIdentifier,
    start: int,
    shape: Seq<u8>,
    values: Seq<u32>,
) -> Seq<u8> {
    chunk_start(kind, numeric_len(start, shape.len() as int, values.len() as int)) + shape
        + u32_to_le(F32_TYPE_ID) + zeros(numeric_padding(start, shape.len() as int)) + u32s_to_le(
        values,
    )
}

/// What reading a numeric chunk of kind `kind` at `pos` gives before its
/// elements are counted: the number of bytes of the chunk after its length
/// field, the position of its shape and the position of its elements.
///
/// Beyond the failures of [`chunk_header`], a chunk that ends before its
/// padding does is `TruncatedData`, and an element type other than
/// [`F32_TYPE_ID`] is `UnsupportedTypeId`.
pub open spec fn numeric_layout(
    bytes: Seq<u8>,
    pos: int,
    kind: ChunkIdentifier,
    shape_len: int,
) -> Result<(int, int, int), Error> {
    match chunk_header(bytes, pos, kind) {
        Err(e) => Err(e),
        Ok((len, body)) => if len < shape_len + 4 {
            Err(Error::TruncatedData)
        } else if u32_at(bytes, body + shape_len) != F32_TYPE_ID {
            Err(Error::UnsupportedTypeId { found: u32_at(bytes, body + shape_len) })
        } else if len < shape_len + 4 + numeric_padding(pos, shape_len) {
            Err(Error::TruncatedData)
        } else {
            Ok((len, body, body + shape_len + 4 + numeric_padding(pos, shape_len)))
        },
    }
}

/// The elements of a numeric chunk start on a multiple of the element
/// size, whatever the position of the chunk, as long as the shape takes a
/// multiple of four bytes. The padding is what a writer computes behind
/// the identifier of the chunk.
pub proof fn lemma_numeric_padding(start: int, shape_len: int)
    requires
        0 <= start,
        0 <= shape_len,
        shape_len % 4 == 0,
    ensures
        1 <= numeric_padding(start, shape_len) <= 4,
        (start + 16 + shape_len + numeric_padding(start, shape_len)) % 4 == 0,
        numeric_padding(start, shape_len) == padding_at(start + 4, 4),
{
}

/// Reads the start of a numeric chunk of kind `kind` at `pos`, whose shape
/// takes `shape_len` bytes, and checks its element type.
pub fn read_numeric_layout(bytes: &[u8], pos: usize, kind: ChunkIdentifier, shape_len: usize) -> (r:
    Result<(usize, usize, usize), Error>)
    requires
        shape_len <= 16,
    ensures
        match r {
            Ok((len, body, data)) => numeric_layout(bytes@, pos as int, kind, shape_len as int)
                == Ok::<(int, int, int), Error>((len as int, body as int, data as int)),
            Err(e) => numeric_layout(bytes@, pos as int, kind, shape_len as int) == Err::<
                (int, int, int),
                Error,
            >(e),
        },
{
    assert(bytes@.len() == bytes.len());
    let (len, body) = read_chunk_header(bytes, pos, kind)?;
    if len < shape_len + 4 {
        return Err(Error::TruncatedData);
    }
    let (type_id, at_padding) = match get_u32(bytes, body + shape_len) {
        Ok(found) => found,
        Err(e) => {
            return Err(e);
        },
    };
    if type_id != F32_TYPE_ID {
        return Err(Error::UnsupportedTypeId { found: type_id });
    }
    broadcast use vstd::layout::layout_of_primitives;

    let n_padding = padding::<u32>(at_padding as u64) as usize;
    if len - shape_len - 4 < n_padding {
        return Err(Error::TruncatedData);
    }
    Ok((len, body, at_padding + n_padding))
}

/// Appends a numeric chunk of kind `kind` with the shape `shape` and the
/// elements `values`. The padding is computed for the position behind the
/// identifier, so `buf` has to hold the container from its first byte.
#[verifier::rlimit(30)]
pub fn write_numeric_chunk(buf: &mut Vec<u8>, kind: ChunkIdentifier, shape: &[u8], values: &[u32])
    requires
        shape@.len() <= 16,
        shape@.len() % 4 == 0,
        4 * values@.len() + 32 <= u64::MAX,
    ensures
        final(buf)@ == old(buf)@ + numeric_chunk(
            kind,
            old(buf)@.len() as int,
            shape@,
            values@,
        ),
{
    broadcast use vstd::layout::layout_of_primitives;

    let ghost start = buf@.len() as int;
    put_u32(buf, kind.to_u32());
    let n_padding = padding::<u32>(buf.len() as u64);
    proof {
        lemma_u32_le_roundtrip(kind.id());
    }
    let chunk_len = shape.len() as u64 + 4 + n_padding + 4 * (values.len() as u64);
    put_u64(buf, chunk_len);
    put_bytes(buf, shape);
    put_u32(buf, F32_TYPE_ID);
    put_zeros(buf, n_padding as usize);
    put_u32s(buf, values);
}

/// Reading what [`write_numeric_chunk`] wrote finds the chunk again: the
/// layout is that of the chunk, the shape and the elements stand at their
/// places, and the declared length is the number of bytes behind the length
/// field.
pub proof fn lemma_numeric_chunk_layout(
    bytes: Seq<u8>,
    start: int,
    kind: ChunkIdentifier,
    shape: Seq<u8>,
    values: Seq<u32>,
)
    requires
        0 <= start,
        shape.len() % 4 == 0,
        numeric_len(start, shape.len() as int, values.len() as int) <= u64::MAX,
        in_bounds(bytes, start, numeric_chunk(kind, start, shape, values).len() as int),
        bytes.subrange(start, start + numeric_chunk(kind, start, shape, values).len())
            == numeric_chunk(kind, start, shape, values),
    ensures
        numeric_chunk(kind, start, shape, values).len() == 12 + numeric_len(
            start,
            shape.len() as int,
            values.len() as int,
        ),
        u64_at(bytes, start + 4) == numeric_len(start, shape.len() as int, values.len() as int),
        numeric_layout(bytes, start, kind, shape.len() as int) == Ok::<(int, int, int), Error>(
            (
                numeric_len(start, shape.len() as int, values.len() as int),
                start + 12,
                start + 16 + shape.len() + numeric_padding(start, shape.len() as int),
            ),
        ),
        bytes.subrange(start + 12, start + 12 + shape.len()) == shape,
        bytes.subrange(
            start + 16 + shape.len() + numeric_padding(start, shape.len() as int),
            start + 12 + numeric_len(start, shape.len() as int, values.len() as int),
        ) == u32s_to_le(values),
{
    let shape_len = shape.len() as int;
    let pad = numeric_padding(start, shape_len);
    let len = numeric_len(start, shape_len, values.len() as int);
    let chunk = numeric_chunk(kind, start, shape, values);
    lemma_u32s_to_le_len(values);
    lemma_u32_le_roundtrip(kind.id());
    lemma_u32_le_roundtrip(F32_TYPE_ID);
    lemma_u64_le_roundtrip(len as u64);
    lemma_five_parts(
        chunk_start(kind, len),
        shape,
        u32_to_le(F32_TYPE_ID),
        zeros(pad),
        u32s_to_le(values),
    );
    assert(chunk_start(kind, len).subrange(0, 4) =~= u32_to_le(kind.id()));
    assert(chunk_start(kind, len).subrange(4, 12) =~= u64_to_le(len as u64));
    assert(chunk.subrange(0, 12).subrange(0, 4) =~= chunk.subrange(0, 4));
    assert(chunk.subrange(0, 12).subrange(4, 12) =~= chunk.subrange(4, 12));
    lemma_window(bytes, start, chunk, 0, 4);
    lemma_window(bytes, start, chunk, 4, 12);
    lemma_window(bytes, start, chunk, 12 + shape_len, 16 + shape_len);
}

/// The length that a numeric chunk declares is the number of its bytes
/// behind the length field, padding included.
pub proof fn lemma_numeric_chunk_len(
    kind: ChunkIdentifier,
    start: int,
    shape: Seq<u8>,
    values: Seq<u32>,
)
    requires
        0 <= start,
        shape.len() % 4 == 0,
        numeric_len(start, shape.len() as int, values.len() as int) <= u64::MAX,
    ensures
        numeric_chunk(kind, start, shape, values).len() == 12 + numeric_len(
            start,
            shape.len() as int,
            values.len() as int,
        ),
        u64_at(numeric_chunk(kind, start, shape, values), 4) == numeric_chunk(
            kind,
            start,
            shape,
            values,
        ).len() - 12,
{
    let shape_len = shape.len() as int;
    let pad = numeric_padding(start, shape_len);
    let len = numeric_len(start, shape_len, values.len() as int);
    let chunk = numeric_chunk(kind, start, shape, values);
    lemma_u32s_to_le_len(values);
    lemma_u32_le_roundtrip(kind.id());
    lemma_u32_le_roundtrip(F32_TYPE_ID);
    lemma_u64_le_roundtrip(len as u64);
    lemma_five_parts(
        chunk_start(kind, len),
        shape,
        u32_to_le(F32_TYPE_ID),
        zeros(pad),
        u32s_to_le(values),
    );
    assert(chunk_start(kind, len).subrange(4, 12) =~= u64_to_le(len as u64));
    assert(chunk.subrange(0, 12).subrange(4, 12) =~= chunk.subrange(4, 12));
}

/// The parts of a concatenation stand in it one behind the other.
pub proof fn lemma_five_parts(a: Seq<u8>, b: Seq<u8>, c: Seq<u8>, d: Seq<u8>, e: Seq<u8>)
    ensures
        ({
            let s = a + b + c + d + e;
            let at_b = a.len() as int;
            let at_c = at_b + b.len();
            let at_d = at_c + c.len();
            let at_e = at_d + d.len();
            &&& s.len() == at_e + e.len()
            &&& s.subrange(0, at_b) == a
            &&& s.subrange(at_b, at_c) == b
            &&& s.subrange(at_c, at_d) == c
            &&& s.subrange(at_d, at_e) == d
            &&& s.subrange(at_e, at_e + e.len()) == e
        }),
{
}

/// A stretch of a chunk is found in the buffer that holds the chunk.
pub proof fn lemma_window(bytes: Seq<u8>, start: int, chunk: Seq<u8>, from: int, to: int)
    requires
        in_bounds(bytes, start, chunk.len() as int),
        bytes.subrange(start, start + chunk.len()) == chunk,
        0 <= from <= to <= chunk.len(),
    ensures
        bytes.subrange(start + from, start + to) == chunk.subrange(from, to),
{
}

} // verus!
