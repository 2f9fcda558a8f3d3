//! Subword buckets as fastText assigns them.

use vstd::prelude::*;
use vstd::slice::slice_subrange;
use vstd::string::StrSliceExecFns;
use vstd::utf8::{encode_scalar, encode_utf8};

use crate::subword::{chars_of, ngram_spans, NGrams, SubwordIndices};

verus! {

/// A byte widened to 32 bits as a signed value is: bytes from 128 on have
/// all higher bits set.
pub open spec fn sign_extended(byte: u8) -> u32 {
    if byte < 0x80 {
        byte as u32
    } else {
        (0xffff_ff00 + byte) as u32
    }
}

/// One step of the hash: the sign-extended byte is folded in by an
/// exclusive or, followed by a multiplication with the 32-bit FNV prime,
/// modulo 2^32.
pub open spec fn fold_byte(h: u32, byte: u8) -> u32 {
    (h ^ sign_extended(byte)).wrapping_mul(16777619)
}

/// The hash of a byte sequence, starting from the 32-bit FNV offset basis.
pub open spec fn hash_bytes(bytes: Seq<u8>) -> u32
    decreases bytes.len(),
{
    if bytes.len() == 0 {
        2166136261
    } else {
        fold_byte(hash_bytes(bytes.drop_last()), bytes.last())
    }
}

/// The hash of an n-gram: the hash of its UTF-8 encoding.
pub open spec fn ngram_hash(ngram: Seq<char>) -> u32 {
    hash_bytes(encode_utf8(ngram))
}

/// The encoding of a sequence with one more character is the encoding of
/// the sequence followed by that of the character.
proof fn lemma_encode_utf8_push(chars: Seq<char>, c: char)
    ensures
        encode_utf8(chars.push(c)) == encode_utf8(chars) + encode_scalar(c as u32),
    decreases chars.len(),
{
    if chars.len() == 0 {
        assert(chars.push(c).drop_first() =~= Seq::<char>::empty());
        assert(encode_utf8(chars.push(c)) =~= encode_scalar(c as u32) + encode_utf8(
            Seq::<char>::empty(),
        ));
    } else {
        lemma_encode_utf8_push(chars.drop_first(), c);
        assert(chars.push(c).drop_first() =~= chars.drop_first().push(c));
    }
}

/// Appends the UTF-8 encoding of `c`.
pub fn push_utf8(out: &mut Vec<u8>, c: char)
    ensures
        final(out)@ == old(out)@ + encode_scalar(c as u32),
{
    let v = c as u32;
    proof {
        vstd::utf8::char_is_scalar(c);
    }
    if v <= 0x7F {
        out.push((v & 0x7F) as u8);
    } else if v <= 0x7FF {
        out.push(0xC0 | ((v >> 6) & 0x1F) as u8);
        out.push(0x80 | (v & 0x3F) as u8);
    } else if v <= 0xFFFF {
        out.push(0xE0 | ((v >> 12) & 0x0F) as u8);
        out.push(0x80 | ((v >> 6) & 0x3F) as u8);
        out.push(0x80 | (v & 0x3F) as u8);
    } else {
        out.push(0xF0 | ((v >> 18) & 0x7) as u8);
        out.push(0x80 | ((v >> 12) & 0x3F) as u8);
        out.push(0x80 | ((v >> 6) & 0x3F) as u8);
        out.push(0x80 | (v & 0x3F) as u8);
    }
}

/// The fastText hash of an n-gram.
pub fn fasttext_hash(chars: &[char]) -> (h: u32)
    ensures
        h == ngram_hash(chars@),
{
    let mut h: u32 = 2166136261;
    let mut i: usize = 0;
    while i < chars.len()
        invariant
            i <= chars@.len(),
            h == ngram_hash(chars@.subrange(0, i as int)),
        decreases chars@.len() - i,
    {
        let ghost done = encode_utf8(chars@.subrange(0, i as int));
        let mut encoded: Vec<u8> = Vec::new();
        push_utf8(&mut encoded, chars[i]);
        let mut j: usize = 0;
        while j < encoded.len()
            invariant
                j <= encoded@.len(),
                h == hash_bytes(done + encoded@.subrange(0, j as int)),
            decreases encoded@.len() - j,
        {
            let byte = encoded[j];
            let widened: u32 = if byte < 0x80 {
                byte as u32
            } else {
                0xffff_ff00u32 + byte as u32
            };
            h = (h ^ widened).wrapping_mul(16777619);
            j += 1;
            proof {
                let now = done + encoded@.subrange(0, j as int);
                assert(now.drop_last() =~= done + encoded@.subrange(0, j - 1));
            }
        }
        i += 1;
        proof {
            let prefix = chars@.subrange(0, i - 1);
            assert(chars@.subrange(0, i as int) =~= prefix.push(chars@[i - 1]));
            lemma_encode_utf8_push(prefix, chars@[i - 1]);
            assert(encoded@.subrange(0, encoded@.len() as int) =~= encoded@);
        }
    }
    assert(chars@.subrange(0, chars@.len() as int) =~= chars@);
    h
}

/// A string whose subwords are hashed as fastText hashes them.
pub struct FastTextStr<'a>(pub &'a str);

impl<'a> SubwordIndices for FastTextStr<'a> {
    open spec fn subword_chars(&self) -> Seq<char> {
        self.0@
    }

    /// The third argument is the number of buckets, which is not zero.
    open spec fn buckets_allowed(buckets: usize) -> bool {
        buckets > 0
    }

    open spec fn bucket_of(ngram: Seq<char>, buckets: usize) -> u64 {
        (ngram_hash(ngram) as u64 % buckets as u64) as u64
    }

    fn subword_indices(&self, min_n: usize, max_n: usize, buckets: usize) -> (r: Vec<(&str, u64)>) {
        let chars = chars_of(self.0);
        let ghost spans = ngram_spans(chars@.len() as int, min_n as int, max_n as int);
        let mut ngrams = NGrams::new(chars.as_slice(), min_n, max_n);
        let mut indices: Vec<(&str, u64)> = Vec::new();
        loop
            invariant
                buckets > 0,
                ngrams.wf(),
                ngrams.sequence() == chars@,
                chars@ == self.0@,
                indices@.len() + ngrams.remaining().len() == spans.len(),
                ngrams.remaining() == spans.subrange(indices@.len() as int, spans.len() as int),
                forall|i: int|
                    #![trigger indices@[i]]
                    0 <= i < indices@.len() ==> {
                        let ngram = self.0@.subrange(spans[i].0, spans[i].0 + spans[i].1);
                        indices@[i].0@ == ngram && indices@[i].1 == Self::bucket_of(ngram, buckets)
                    },
            ensures
                indices@.len() == spans.len(),
                forall|i: int|
                    #![trigger indices@[i]]
                    0 <= i < indices@.len() ==> {
                        let ngram = self.0@.subrange(spans[i].0, spans[i].0 + spans[i].1);
                        indices@[i].0@ == ngram && indices@[i].1 == Self::bucket_of(ngram, buckets)
                    },
            decreases ngrams.remaining().len(),
        {
            let next = ngrams.next_span();
            match next {
                None => {
                    break ;
                },
                Some((start, n)) => {
                    assert(chars@.len() == chars.len());
                    let ngram = slice_subrange(chars.as_slice(), start, start + n);
                    let index = fasttext_hash(ngram) as u64 % buckets as u64;
                    let subword = self.0.substring_char(start, start + n);
                    indices.push((subword, index));
                },
            }
        }
        indices
    }
}

} // verus!
