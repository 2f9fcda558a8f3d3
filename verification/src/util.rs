//! Small helpers shared by the chunk readers and writers.

use vstd::layout::size_of;
use vstd::prelude::*;
use vstd::slice::slice_subrange;
use vstd::utf8::{decode_utf8, encode_utf8, valid_utf8};

use crate::error::Error;

verus! {

/// The number of padding bytes that bring a stream position to the next
/// boundary of `size` bytes. A position that already lies on a boundary is
/// padded by a whole element, so the result is never zero.
pub open spec fn padding_at(pos: int, size: int) -> int
    recommends
        size > 0,
{
    size - pos % size
}

/// Padding is at least one byte, at most one element, and it aligns the
/// position that follows it.
pub proof fn lemma_padding_aligns(pos: int, size: int)
    requires
        0 <= pos,
        0 < size,
    ensures
        1 <= padding_at(pos, size) <= size,
        (pos + padding_at(pos, size)) % size == 0,
{
    let q = pos / size;
    let r = pos % size;
    assert(pos == size * q + r) by {
        vstd::arithmetic::div_mod::lemma_fundamental_div_mod(pos, size);
    }
    assert(0 <= r < size) by {}
    assert(pos + padding_at(pos, size) == size * (q + 1)) by (nonlinear_arith)
        requires
            pos == size * q + r,
            padding_at(pos, size) == size - r,
    ;
    assert((size * (q + 1)) % size == 0) by {
        vstd::arithmetic::div_mod::lemma_mod_multiples_basic(q + 1, size);
    }
}

/// Padding needed at stream position `pos` so that data of element type `T`
/// starts on a multiple of the element size.
pub fn padding<T>(pos: u64) -> (p: u64)
    requires
        size_of::<T>() > 0,
    ensures
        p == padding_at(pos as int, size_of::<T>() as int),
        1 <= p <= size_of::<T>(),
        (pos + p) % (size_of::<T>() as int) == 0,
{
    let size = core::mem::size_of::<T>() as u64;
    proof {
        lemma_padding_aligns(pos as int, size as int);
    }
    size - (pos % size)
}

/// `String::from_utf8`: the string whose bytes are `bytes`, when and only
/// when `bytes` is valid UTF-8.
#[verifier::external_body]
fn string_from_utf8(bytes: Vec<u8>) -> (r: Option<String>)
    ensures
        r.is_some() <==> valid_utf8(bytes@),
        r.is_some() ==> encode_utf8(r.unwrap()@) == bytes@,
{
    match String::from_utf8(bytes) {
        Ok(text) => Some(text),
        Err(_) => None,
    }
}

/// The text that `bytes` holds from `from` up to `to`, if that stretch is
/// valid UTF-8.
pub fn text_at(bytes: &[u8], from: usize, to: usize) -> (r: Option<String>)
    requires
        from <= to <= bytes@.len(),
    ensures
        r.is_some() <==> valid_utf8(bytes@.subrange(from as int, to as int)),
        r.is_some() ==> r.unwrap()@ == decode_utf8(bytes@.subrange(from as int, to as int)),
{
    broadcast use vstd::utf8::encode_utf8_decode_utf8;

    let stretch = slice_subrange(bytes, from, to);
    let mut copy: Vec<u8> = Vec::new();
    let mut i: usize = 0;
    while i < stretch.len()
        invariant
            i <= stretch@.len(),
            copy@ == stretch@.subrange(0, i as int),
        decreases stretch@.len() - i,
    {
        copy.push(stretch[i]);
        i += 1;
    }
    assert(copy@ =~= stretch@);
    string_from_utf8(copy)
}

/// Whether two strings hold the same characters.
pub fn str_eq(a: &str, b: &str) -> (r: bool)
    ensures
        r == (a@ == b@),
{
    broadcast use vstd::utf8::encode_utf8_decode_utf8;

    let x = a.as_bytes();
    let y = b.as_bytes();
    if x.len() != y.len() {
        return false;
    }
    let mut i: usize = 0;
    while i < x.len()
        invariant
            i <= x@.len(),
            x@.len() == y@.len(),
            x@ == encode_utf8(a@),
            y@ == encode_utf8(b@),
            x@.subrange(0, i as int) == y@.subrange(0, i as int),
        decreases x@.len() - i,
    {
        if x[i] != y[i] {
            return false;
        }
        i += 1;
    }
    assert(x@ =~= x@.subrange(0, i as int));
    assert(y@ =~= y@.subrange(0, i as int));
    assert(decode_utf8(encode_utf8(a@)) == a@);
    true
}

/// The position of the first `delim` in `bytes` at or after `pos`, or the
/// length of `bytes` if there is none.
pub open spec fn first_delim(bytes: Seq<u8>, pos: int, delim: u8) -> int
    decreases bytes.len() - pos,
{
    if pos >= bytes.len() {
        bytes.len() as int
    } else if bytes[pos] == delim {
        pos
    } else {
        first_delim(bytes, pos + 1, delim)
    }
}

/// What reading a delimited text at `pos` gives: its characters and the
/// position after the delimiter.
pub open spec fn string_at(bytes: Seq<u8>, pos: int, delim: u8) -> Result<(Seq<char>, int), Error> {
    let end = first_delim(bytes, pos, delim);
    if pos < 0 || pos > bytes.len() || end >= bytes.len() {
        Err(Error::TruncatedData)
    } else if !valid_utf8(bytes.subrange(pos, end)) {
        Err(Error::InvalidUtf8)
    } else {
        Ok((decode_utf8(bytes.subrange(pos, end)), end + 1))
    }
}

/// Reads the text that starts at `pos` and ends before the next `delim`.
/// The position handed back is the one after that delimiter.
///
/// Fails with `TruncatedData` when no delimiter follows `pos`, and with
/// `InvalidUtf8` when the bytes before the delimiter are not UTF-8.
pub fn read_string(bytes: &[u8], pos: usize, delim: u8) -> (r: Result<(String, usize), Error>)
    ensures
        match r {
            Ok((text, next)) => string_at(bytes@, pos as int, delim) == Ok::<
                (Seq<char>, int),
                Error,
            >((text@, next as int)),
            Err(e) => string_at(bytes@, pos as int, delim) == Err::<(Seq<char>, int), Error>(e),
        },
{
    if pos > bytes.len() {
        return Err(Error::TruncatedData);
    }
    let mut end: usize = pos;
    while end < bytes.len() && bytes[end] != delim
        invariant
            pos <= end <= bytes@.len(),
            first_delim(bytes@, pos as int, delim) == first_delim(bytes@, end as int, delim),
        decreases bytes@.len() - end,
    {
        end += 1;
    }
    if end >= bytes.len() {
        return Err(Error::TruncatedData);
    }
    match text_at(bytes, pos, end) {
        None => Err(Error::InvalidUtf8),
        Some(text) => Ok((text, end + 1)),
    }
}

} // verus!
