//! Little-endian integers in byte buffers.
//!
//! Every multi-byte field of the container format is stored with the least
//! significant byte first. The conversions themselves are made by the
//! `byteorder` crate; this module states what they compute and builds the
//! bounds-checked readers and appending writers on top of them.

use byteorder::{ByteOrder, LittleEndian};
use vstd::prelude::*;

use crate::error::Error;

verus! {

/// The value of four bytes read least significant byte first.
#[verifier::opaque]
pub open spec fn u32_from_le(b: Seq<u8>) -> u32
    recommends
        b.len() == 4,
{
    (b[0] as int + b[1] as int * 0x100 + b[2] as int * 0x1_0000 + b[3] as int * 0x100_0000) as u32
}

/// The four bytes of `x`, least significant byte first.
#[verifier::opaque]
pub open spec fn u32_to_le(x: u32) -> Seq<u8> {
    seq![
        (x as int % 0x100) as u8,
        (x as int / 0x100 % 0x100) as u8,
        (x as int / 0x1_0000 % 0x100) as u8,
        (x as int / 0x100_0000 % 0x100) as u8,
    ]
}

/// The value of eight bytes read least significant byte first.
#[verifier::opaque]
pub open spec fn u64_from_le(b: Seq<u8>) -> u64
    recommends
        b.len() == 8,
{
    (u32_from_le(b.subrange(0, 4)) as int + u32_from_le(b.subrange(4, 8)) as int
        * 0x1_0000_0000) as u64
}

/// The eight bytes of `x`, least significant byte first.
#[verifier::opaque]
pub open spec fn u64_to_le(x: u64) -> Seq<u8> {
    u32_to_le((x as int % 0x1_0000_0000) as u32) + u32_to_le((x as int / 0x1_0000_0000) as u32)
}

/// Decoding the encoding of a 32-bit value gives the value back.
pub proof fn lemma_u32_le_roundtrip(x: u32)
    ensures
        u32_to_le(x).len() == 4,
        u32_from_le(u32_to_le(x)) == x,
{
    reveal(u32_to_le);
    reveal(u32_from_le);
}

/// Decoding the encoding of a 64-bit value gives the value back.
pub proof fn lemma_u64_le_roundtrip(x: u64)
    ensures
        u64_to_le(x).len() == 8,
        u64_from_le(u64_to_le(x)) == x,
{
    reveal(u64_to_le);
    reveal(u64_from_le);
    let lo = (x as int % 0x1_0000_0000) as u32;
    let hi = (x as int / 0x1_0000_0000) as u32;
    let b = u64_to_le(x);
    lemma_u32_le_roundtrip(lo);
    lemma_u32_le_roundtrip(hi);
    assert(b.subrange(0, 4) =~= u32_to_le(lo));
    assert(b.subrange(4, 8) =~= u32_to_le(hi));
}

/// `byteorder::LittleEndian::read_u32`: the value of the first four bytes of
/// `buf`, least significant byte first. The crate panics on a shorter buffer.
#[verifier::external_body]
fn le_read_u32(buf: &[u8]) -> (r: u32)
    requires
        buf@.len() >= 4,
    ensures
        r == u32_from_le(buf@.subrange(0, 4)),
{
    LittleEndian::read_u32(buf)
}

/// `byteorder::LittleEndian::read_u64`: the value of the first eight bytes of
/// `buf`, least significant byte first. The crate panics on a shorter buffer.
#[verifier::external_body]
fn le_read_u64(buf: &[u8]) -> (r: u64)
    requires
        buf@.len() >= 8,
    ensures
        r == u64_from_le(buf@.subrange(0, 8)),
{
    LittleEndian::read_u64(buf)
}

/// `byteorder::LittleEndian::write_u32` into a buffer of four bytes: the
/// bytes of `n`, least significant byte first.
#[verifier::external_body]
fn le_write_u32(n: u32) -> (r: [u8; 4])
    ensures
        r@ == u32_to_le(n),
{
    let mut buf = [0u8; 4];
    LittleEndian::write_u32(&mut buf, n);
    buf
}

/// `byteorder::LittleEndian::write_u64` into a buffer of eight bytes: the
/// bytes of `n`, least significant byte first.
#[verifier::external_body]
fn le_write_u64(n: u64) -> (r: [u8; 8])
    ensures
        r@ == u64_to_le(n),
{
    let mut buf = [0u8; 8];
    LittleEndian::write_u64(&mut buf, n);
    buf
}

/// Whether `n` bytes can be read from `bytes` at `pos`.
pub open spec fn in_bounds(bytes: Seq<u8>, pos: int, n: int) -> bool {
    0 <= pos && 0 <= n && pos + n <= bytes.len()
}

/// The little-endian `u32` that `bytes` holds at `pos`.
pub open spec fn u32_at(bytes: Seq<u8>, pos: int) -> u32
    recommends
        in_bounds(bytes, pos, 4),
{
    u32_from_le(bytes.subrange(pos, pos + 4))
}

/// The little-endian `u64` that `bytes` holds at `pos`.
pub open spec fn u64_at(bytes: Seq<u8>, pos: int) -> u64
    recommends
        in_bounds(bytes, pos, 8),
{
    u64_from_le(bytes.subrange(pos, pos + 8))
}

/// What reading one byte at `pos` gives: the byte and the position after
/// it.
pub open spec fn read_u8(bytes: Seq<u8>, pos: int) -> Result<(u8, int), Error> {
    if in_bounds(bytes, pos, 1) {
        Ok((bytes[pos], pos + 1))
    } else {
        Err(Error::TruncatedData)
    }
}

/// What reading a `u32` at `pos` gives: the value and the position after
/// it.
pub open spec fn read_u32(bytes: Seq<u8>, pos: int) -> Result<(u32, int), Error> {
    if in_bounds(bytes, pos, 4) {
        Ok((u32_at(bytes, pos), pos + 4))
    } else {
        Err(Error::TruncatedData)
    }
}

/// What reading a `u64` at `pos` gives: the value and the position after
/// it.
pub open spec fn read_u64(bytes: Seq<u8>, pos: int) -> Result<(u64, int), Error> {
    if in_bounds(bytes, pos, 8) {
        Ok((u64_at(bytes, pos), pos + 8))
    } else {
        Err(Error::TruncatedData)
    }
}

/// Whether the outcome `r` of a read is the outcome `s` that the format
/// defines: the same value and the same position, or the same error.
pub open spec fn agrees<T>(r: Result<(T, usize), Error>, s: Result<(T, int), Error>) -> bool {
    match r {
        Ok((value, next)) => s == Ok::<(T, int), Error>((value, next as int)),
        Err(e) => s == Err::<(T, int), Error>(e),
    }
}

/// Appends the little-endian encoding of `n`.
pub fn put_u32(buf: &mut Vec<u8>, n: u32)
    ensures
        final(buf)@ == old(buf)@ + u32_to_le(n),
{
    let enc = le_write_u32(n);
    buf.push(enc[0]);
    buf.push(enc[1]);
    buf.push(enc[2]);
    buf.push(enc[3]);
}

/// Appends the little-endian encoding of `n`.
pub fn put_u64(buf: &mut Vec<u8>, n: u64)
    ensures
        final(buf)@ == old(buf)@ + u64_to_le(n),
{
    let enc = le_write_u64(n);
    let mut i: usize = 0;
    while i < 8
        invariant
            i <= 8,
            enc@ == u64_to_le(n),
            buf@ == old(buf)@ + enc@.subrange(0, i as int),
        decreases 8 - i,
    {
        buf.push(enc[i]);
        i += 1;
    }
}

/// Appends `bytes` unchanged.
pub fn put_bytes(buf: &mut Vec<u8>, bytes: &[u8])
    ensures
        final(buf)@ == old(buf)@ + bytes@,
{
    let mut i: usize = 0;
    while i < bytes.len()
        invariant
            i <= bytes@.len(),
            buf@ == old(buf)@ + bytes@.subrange(0, i as int),
        decreases bytes@.len() - i,
    {
        buf.push(bytes[i]);
        i += 1;
    }
}

/// Appends `n` zero bytes.
pub fn put_zeros(buf: &mut Vec<u8>, n: usize)
    ensures
        final(buf)@ == old(buf)@ + Seq::new(n as nat, |i: int| 0u8),
{
    let mut i: usize = 0;
    while i < n
        invariant
            i <= n,
            buf@ == old(buf)@ + Seq::new(i as nat, |j: int| 0u8),
        decreases n - i,
    {
        buf.push(0u8);
        i += 1;
    }
}

/// Reads one byte at `pos`, and hands it back with the position after it.
/// Fails with `TruncatedData` exactly when `pos` is not inside `bytes`.
pub fn get_u8(bytes: &[u8], pos: usize) -> (r: Result<(u8, usize), Error>)
    ensures
        agrees(r, read_u8(bytes@, pos as int)),
{
    if pos >= bytes.len() {
        return Err(Error::TruncatedData);
    }
    Ok((bytes[pos], pos + 1))
}

/// Reads a little-endian `u32` at `pos`, and hands it back with the
/// position after it. Fails with `TruncatedData` exactly when fewer than
/// four bytes follow `pos`.
pub fn get_u32(bytes: &[u8], pos: usize) -> (r: Result<(u32, usize), Error>)
    ensures
        agrees(r, read_u32(bytes@, pos as int)),
{
    if pos > bytes.len() || bytes.len() - pos < 4 {
        return Err(Error::TruncatedData);
    }
    let field = vstd::slice::slice_subrange(bytes, pos, pos + 4);
    assert(field@.subrange(0, 4) =~= bytes@.subrange(pos as int, pos + 4));
    Ok((le_read_u32(field), pos + 4))
}

/// Reads a little-endian `u64` at `pos`, and hands it back with the
/// position after it. Fails with `TruncatedData` exactly when fewer than
/// eight bytes follow `pos`.
pub fn get_u64(bytes: &[u8], pos: usize) -> (r: Result<(u64, usize), Error>)
    ensures
        agrees(r, read_u64(bytes@, pos as int)),
{
    if pos > bytes.len() || bytes.len() - pos < 8 {
        return Err(Error::TruncatedData);
    }
    let field = vstd::slice::slice_subrange(bytes, pos, pos + 8);
    assert(field@.subrange(0, 8) =~= bytes@.subrange(pos as int, pos + 8));
    Ok((le_read_u64(field), pos + 8))
}

/// The little-endian encodings of `values`, one after the other.
pub open spec fn u32s_to_le(values: Seq<u32>) -> Seq<u8>
    decreases values.len(),
{
    if values.len() == 0 {
        Seq::empty()
    } else {
        u32s_to_le(values.drop_last()) + u32_to_le(values.last())
    }
}

/// The `count` little-endian `u32` values that `bytes` holds from `pos` on.
pub open spec fn u32s_at(bytes: Seq<u8>, pos: int, count: nat) -> Seq<u32> {
    Seq::new(count, |i: int| u32_at(bytes, pos + 4 * i))
}

/// What reading `count` values of 32 bits at `pos` gives: the values and
/// the position after them.
pub open spec fn read_u32s(bytes: Seq<u8>, pos: int, count: nat) -> Result<(Seq<u32>, int), Error> {
    if in_bounds(bytes, pos, 4 * (count as int)) {
        Ok((u32s_at(bytes, pos, count), pos + 4 * count))
    } else {
        Err(Error::TruncatedData)
    }
}

/// Every value takes four bytes.
pub proof fn lemma_u32s_to_le_len(values: Seq<u32>)
    ensures
        u32s_to_le(values).len() == 4 * values.len(),
    decreases values.len(),
{
    if values.len() > 0 {
        lemma_u32s_to_le_len(values.drop_last());
        lemma_u32_le_roundtrip(values.last());
    }
}

/// Values that were encoded one after the other are found again, each at
/// its place, wherever the encoding stands in a buffer.
pub proof fn lemma_u32s_roundtrip(bytes: Seq<u8>, pos: int, values: Seq<u32>)
    requires
        in_bounds(bytes, pos, 4 * (values.len() as int)),
        bytes.subrange(pos, pos + 4 * values.len()) == u32s_to_le(values),
    ensures
        u32s_at(bytes, pos, values.len()) == values,
    decreases values.len(),
{
    let n = values.len() as int;
    if n > 0 {
        let front = values.drop_last();
        lemma_u32s_to_le_len(front);
        lemma_u32_le_roundtrip(values.last());
        let encoded = u32s_to_le(values);
        assert(bytes.subrange(pos, pos + 4 * (n - 1)) =~= encoded.subrange(0, 4 * (n - 1)));
        assert(encoded.subrange(0, 4 * (n - 1)) =~= u32s_to_le(front));
        lemma_u32s_roundtrip(bytes, pos, front);
        assert(bytes.subrange(pos + 4 * (n - 1), pos + 4 * (n - 1) + 4) =~= encoded.subrange(
            4 * (n - 1),
            4 * n,
        ));
        assert(encoded.subrange(4 * (n - 1), 4 * n) =~= u32_to_le(values.last()));
        assert forall|i: int| 0 <= i < n implies u32s_at(bytes, pos, n as nat)[i] == values[i] by {
            if i < n - 1 {
                assert(u32s_at(bytes, pos, (n - 1) as nat)[i] == front[i]);
            }
        }
    }
}

/// Appends the little-endian encodings of `values`.
pub fn put_u32s(buf: &mut Vec<u8>, values: &[u32])
    ensures
        final(buf)@ == old(buf)@ + u32s_to_le(values@),
{
    let mut i: usize = 0;
    while i < values.len()
        invariant
            i <= values@.len(),
            buf@ == old(buf)@ + u32s_to_le(values@.subrange(0, i as int)),
        decreases values@.len() - i,
    {
        put_u32(buf, values[i]);
        i += 1;
        proof {
            let done = values@.subrange(0, i as int);
            assert(done.drop_last() =~= values@.subrange(0, i - 1));
        }
    }
    assert(values@.subrange(0, values@.len() as int) =~= values@);
}

/// Reads `count` little-endian `u32` values at `pos`, and hands them back
/// with the position after them. Fails with `TruncatedData` exactly when
/// fewer than `4 * count` bytes follow `pos`.
pub fn get_u32s(bytes: &[u8], pos: usize, count: usize) -> (r: Result<(Vec<u32>, usize), Error>)
    ensures
        match r {
            Ok((values, next)) => read_u32s(bytes@, pos as int, count as nat) == Ok::<
                (Seq<u32>, int),
                Error,
            >((values@, next as int)),
            Err(e) => read_u32s(bytes@, pos as int, count as nat) == Err::<(Seq<u32>, int), Error>(
                e,
            ),
        },
{
    if pos > bytes.len() || (bytes.len() - pos) / 4 < count {
        return Err(Error::TruncatedData);
    }
    let mut values: Vec<u32> = Vec::new();
    let mut at: usize = pos;
    let mut i: usize = 0;
    while i < count
        invariant
            i <= count,
            at == pos + 4 * i,
            pos + 4 * count <= bytes@.len(),
            values@ == u32s_at(bytes@, pos as int, i as nat),
        decreases count - i,
    {
        let (value, next) = match get_u32(bytes, at) {
            Ok(found) => found,
            Err(e) => {
                return Err(e);
            },
        };
        values.push(value);
        at = next;
        i += 1;
    }
    Ok((values, at))
}

} // verus!
