//! N-grams of a sequence and the bucket indices of the subwords of a word.

use fnv::FnvHasher;
use std::hash::Hasher;
use vstd::prelude::*;
use vstd::slice::slice_subrange;
use vstd::std_specs::iter::IteratorSpec;
use vstd::string::{StrSliceExecFns, StringExecFns};

use crate::le::{put_u32, put_u64, u32_to_le, u64_to_le};

verus! {

/// Whether the `n` items from `start` on form an n-gram of a sequence of
/// `len` items, for n-gram lengths between `min_n` and `max_n`.
pub open spec fn is_ngram_span(len: int, min_n: int, max_n: int, start: int, n: int) -> bool {
    0 <= start && min_n <= n <= max_n && start + n <= len
}

/// The length of the longest n-gram that starts at `start`, if any does.
pub open spec fn longest_at(len: int, max_n: int, start: int) -> int {
    if len - start < max_n {
        len - start
    } else {
        max_n
    }
}

/// The n-grams that start at `start` with lengths from `top` down to
/// `min_n`, each as a pair of its start and its length.
pub open spec fn spans_at(start: int, top: int, min_n: int) -> Seq<(int, int)> {
    Seq::new(
        if top >= min_n {
            (top - min_n + 1) as nat
        } else {
            0
        },
        |k: int| (start, top - k),
    )
}

/// The n-grams that start at `start` or later: start by start, and for each
/// start from the longest to the shortest.
pub open spec fn spans_from(len: int, min_n: int, max_n: int, start: int) -> Seq<(int, int)>
    decreases len - start,
{
    if start >= len {
        Seq::empty()
    } else {
        spans_at(start, longest_at(len, max_n, start), min_n) + spans_from(
            len,
            min_n,
            max_n,
            start + 1,
        )
    }
}

/// All n-grams of a sequence of `len` items, in the order in which
/// [`NGrams`] hands them out.
pub open spec fn ngram_spans(len: int, min_n: int, max_n: int) -> Seq<(int, int)> {
    spans_from(len, min_n, max_n, 0)
}

/// The `t`-th triangular number, `1 + 2 + ... + t`.
pub open spec fn triangle(t: int) -> int {
    t * (t + 1) / 2
}

/// The number of n-grams of a sequence of `len` items: a triangle of
/// n-grams while the sequence is no longer than `max_n`, and one full column
/// of `max_n - min_n + 1` n-grams for every item beyond that.
pub open spec fn ngram_count(len: int, min_n: int, max_n: int) -> int {
    if len < min_n {
        0
    } else if len <= max_n {
        triangle(len - min_n + 1)
    } else {
        triangle(max_n - min_n + 1) + (len - max_n) * (max_n - min_n + 1)
    }
}

proof fn lemma_triangle_step(t: int)
    requires
        t >= 1,
    ensures
        triangle(t) == triangle(t - 1) + t,
        triangle(0) == 0,
{
    let a = t * (t + 1);
    let b = (t - 1) * t;
    assert(a == b + 2 * t) by (nonlinear_arith)
        requires
            a == t * (t + 1),
            b == (t - 1) * t,
    ;
    assert(a / 2 == b / 2 + t);
}

proof fn lemma_count_step(len: int, min_n: int, max_n: int)
    requires
        1 <= min_n <= max_n,
        1 <= len,
    ensures
        ngram_count(len, min_n, max_n) == ngram_count(len - 1, min_n, max_n) + spans_at(
            0,
            longest_at(len, max_n, 0),
            min_n,
        ).len(),
{
    let w = max_n - min_n + 1;
    let here = spans_at(0, longest_at(len, max_n, 0), min_n).len() as int;
    if len < min_n {
        assert(here == 0);
    } else if len <= max_n {
        let t = len - min_n + 1;
        lemma_triangle_step(t);
        assert(ngram_count(len, min_n, max_n) == triangle(t));
        if len - 1 < min_n {
            assert(t == 1);
            assert(ngram_count(len - 1, min_n, max_n) == 0);
        } else {
            assert(ngram_count(len - 1, min_n, max_n) == triangle(t - 1));
        }
    } else {
        let over = len - max_n;
        assert(over * w == (over - 1) * w + w) by (nonlinear_arith);
        if len == max_n + 1 {
            assert((over - 1) * w == 0) by (nonlinear_arith)
                requires
                    over == 1,
            ;
        }
    }
}

/// Before a start too close to the end for any n-gram, none is left.
proof fn lemma_spans_from_short(len: int, min_n: int, max_n: int, start: int)
    requires
        1 <= min_n <= max_n,
        len - start < min_n,
    ensures
        spans_from(len, min_n, max_n, start) == Seq::<(int, int)>::empty(),
    decreases len - start,
{
    if start < len {
        lemma_spans_from_short(len, min_n, max_n, start + 1);
        assert(spans_at(start, longest_at(len, max_n, start), min_n) =~= Seq::empty());
    }
}

proof fn lemma_spans_from_len(len: int, min_n: int, max_n: int, start: int)
    requires
        1 <= min_n <= max_n,
        0 <= start <= len,
    ensures
        spans_from(len, min_n, max_n, start).len() == ngram_count(len - start, min_n, max_n),
    decreases len - start,
{
    if start < len {
        lemma_spans_from_len(len, min_n, max_n, start + 1);
        lemma_count_step(len - start, min_n, max_n);
        assert(longest_at(len, max_n, start) == longest_at(len - start, max_n, 0));
    }
}

proof fn lemma_spans_from_contains(
    len: int,
    min_n: int,
    max_n: int,
    start: int,
    s: int,
    n: int,
)
    requires
        1 <= min_n <= max_n,
        0 <= start,
    ensures
        spans_from(len, min_n, max_n, start).contains((s, n)) <==> start <= s && is_ngram_span(
            len,
            min_n,
            max_n,
            s,
            n,
        ),
    decreases len - start,
{
    if start < len {
        let top = longest_at(len, max_n, start);
        let here = spans_at(start, top, min_n);
        let later = spans_from(len, min_n, max_n, start + 1);
        lemma_spans_from_contains(len, min_n, max_n, start + 1, s, n);
        if here.contains((s, n)) {
            let k = choose|k: int| 0 <= k < here.len() && here[k] == (s, n);
            assert((here + later)[k] == (s, n));
        }
        if later.contains((s, n)) {
            let k = choose|k: int| 0 <= k < later.len() && later[k] == (s, n);
            assert((here + later)[here.len() + k] == (s, n));
        }
        if s == start && is_ngram_span(len, min_n, max_n, s, n) {
            assert(here[top - n] == (s, n));
        }
        if (here + later).contains((s, n)) {
            let k = choose|k: int| 0 <= k < (here + later).len() && (here + later)[k] == (s, n);
            if k < here.len() {
                assert(here[k] == (s, n));
            } else {
                assert(later[k - here.len()] == (s, n));
            }
        }
    }
}

proof fn lemma_spans_from_distinct(len: int, min_n: int, max_n: int, start: int)
    requires
        1 <= min_n <= max_n,
        0 <= start,
    ensures
        spans_from(len, min_n, max_n, start).no_duplicates(),
    decreases len - start,
{
    if start < len {
        let top = longest_at(len, max_n, start);
        let here = spans_at(start, top, min_n);
        let later = spans_from(len, min_n, max_n, start + 1);
        let all = here + later;
        lemma_spans_from_distinct(len, min_n, max_n, start + 1);
        assert forall|i: int, j: int| 0 <= i < all.len() && 0 <= j < all.len() && i != j implies all[i]
            != all[j] by {
            if (i < here.len()) != (j < here.len()) {
                let b = if i < here.len() {
                    j
                } else {
                    i
                };
                let late = later[b - here.len()];
                lemma_spans_from_contains(len, min_n, max_n, start + 1, late.0, late.1);
            }
        }
    }
}

/// The n-grams of a sequence are complete: every stretch of the sequence
/// whose length lies between `min_n` and `max_n` is among them, nothing else
/// is, none occurs twice, and their number is the closed form
/// [`ngram_count`]. A sequence shorter than `min_n` has none.
pub proof fn lemma_ngrams_complete(len: int, min_n: int, max_n: int)
    requires
        1 <= min_n <= max_n,
        0 <= len,
    ensures
        forall|s: int, n: int|
            #![trigger ngram_spans(len, min_n, max_n).contains((s, n))]
            ngram_spans(len, min_n, max_n).contains((s, n)) <==> is_ngram_span(
                len,
                min_n,
                max_n,
                s,
                n,
            ),
        ngram_spans(len, min_n, max_n).no_duplicates(),
        ngram_spans(len, min_n, max_n).len() == ngram_count(len, min_n, max_n),
        len < min_n ==> ngram_spans(len, min_n, max_n).len() == 0,
{
    assert forall|s: int, n: int|
        #![trigger ngram_spans(len, min_n, max_n).contains((s, n))]
        ngram_spans(len, min_n, max_n).contains((s, n)) <==> is_ngram_span(
            len,
            min_n,
            max_n,
            s,
            n,
        ) by {
        lemma_spans_from_contains(len, min_n, max_n, 0, s, n);
    }
    lemma_spans_from_distinct(len, min_n, max_n, 0);
    lemma_spans_from_len(len, min_n, max_n, 0);
}

/// The n-grams of a sequence, handed out one at a time.
///
/// The n-grams come start by start, and for each start from the longest to
/// the shortest. Callers that only need all n-grams should not depend on
/// that order.
pub struct NGrams<'a, T> {
    max_n: usize,
    min_n: usize,
    seq: &'a [T],
    start: usize,
    len: usize,
}

impl<'a, T> NGrams<'a, T> {
    /// The bounds are in order and the cursor lies inside the sequence.
    pub closed spec fn wf(&self) -> bool {
        &&& 1 <= self.min_n <= self.max_n
        &&& self.start <= self.seq@.len()
        &&& self.len <= longest_at(self.seq@.len() as int, self.max_n as int, self.start as int)
    }

    /// The sequence whose n-grams are handed out.
    pub closed spec fn sequence(&self) -> Seq<T> {
        self.seq@
    }

    /// The n-grams that are still to come, in order, each as a pair of its
    /// start in [`sequence`](Self::sequence) and its length.
    pub closed spec fn remaining(&self) -> Seq<(int, int)> {
        spans_at(self.start as int, self.len as int, self.min_n as int) + spans_from(
            self.seq@.len() as int,
            self.min_n as int,
            self.max_n as int,
            self.start + 1,
        )
    }

    /// Starts handing out the n-grams of `seq` with lengths from `min_n` to
    /// `max_n`.
    pub fn new(seq: &'a [T], min_n: usize, max_n: usize) -> (r: Self)
        requires
            min_n != 0,
            min_n <= max_n,
        ensures
            r.wf(),
            r.sequence() == seq@,
            r.remaining() == ngram_spans(seq@.len() as int, min_n as int, max_n as int),
    {
        let upper = if max_n < seq.len() {
            max_n
        } else {
            seq.len()
        };
        NGrams { max_n, min_n, seq, start: 0, len: upper }
    }

    /// Hands out the next n-gram as the pair of its start and its length, or
    /// `None` when all have been handed out.
    pub fn next_span(&mut self) -> (r: Option<(usize, usize)>)
        requires
            old(self).wf(),
        ensures
            final(self).wf(),
            final(self).sequence() == old(self).sequence(),
            old(self).remaining().len() == 0 ==> r.is_none() && final(self).remaining() == old(
                self,
            ).remaining(),
            old(self).remaining().len() > 0 ==> r.is_some() && (r.unwrap().0 as int, r.unwrap().1 as int)
                == old(self).remaining()[0] && final(self).remaining() == old(
                self,
            ).remaining().drop_first(),
            r.is_some() ==> 1 <= r.unwrap().1 && r.unwrap().0 + r.unwrap().1 <= old(
                self,
            ).sequence().len(),
    {
        let ghost total = self.seq@.len() as int;
        let ghost lo = self.min_n as int;
        let ghost hi = self.max_n as int;
        if self.len < self.min_n {
            if self.seq.len() - self.start <= self.min_n {
                proof {
                    lemma_spans_from_short(total, lo, hi, self.start + 1);
                }
                return None;
            }
            self.start = self.start + 1;
            let rest = self.seq.len() - self.start;
            self.len = if self.max_n < rest {
                self.max_n
            } else {
                rest
            };
        }
        let span = (self.start, self.len);
        self.len = self.len - 1;
        Some(span)
    }

    /// Hands out the next n-gram, or `None` when all have been handed out.
    pub fn next(&mut self) -> (r: Option<&'a [T]>)
        requires
            old(self).wf(),
        ensures
            final(self).wf(),
            final(self).sequence() == old(self).sequence(),
            old(self).remaining().len() == 0 ==> r.is_none() && final(self).remaining() == old(
                self,
            ).remaining(),
            old(self).remaining().len() > 0 ==> r.is_some() && r.unwrap()@ == old(
                self,
            ).sequence().subrange(
                old(self).remaining()[0].0,
                old(self).remaining()[0].0 + old(self).remaining()[0].1,
            ) && final(self).remaining() == old(self).remaining().drop_first(),
    {
        let span = self.next_span();
        match span {
            None => None,
            Some((start, n)) => {
                assert(self.seq@.len() == self.seq.len());
                Some(slice_subrange(self.seq, start, start + n))
            },
        }
    }

    /// All n-grams that are still to come, in order.
    pub fn collect(self) -> (r: Vec<&'a [T]>)
        requires
            self.wf(),
        ensures
            r@.len() == self.remaining().len(),
            forall|i: int|
                0 <= i < r@.len() ==> (#[trigger] r@[i])@ == self.sequence().subrange(
                    self.remaining()[i].0,
                    self.remaining()[i].0 + self.remaining()[i].1,
                ),
    {
        let ghost spans = self.remaining();
        let ghost items = self.sequence();
        let mut rest = self;
        let mut out: Vec<&'a [T]> = Vec::new();
        loop
            invariant
                rest.wf(),
                rest.sequence() == items,
                out@.len() + rest.remaining().len() == spans.len(),
                rest.remaining() == spans.subrange(out@.len() as int, spans.len() as int),
                forall|i: int|
                    0 <= i < out@.len() ==> (#[trigger] out@[i])@ == items.subrange(
                        spans[i].0,
                        spans[i].0 + spans[i].1,
                    ),
            ensures
                out@.len() == spans.len(),
                forall|i: int|
                    0 <= i < out@.len() ==> (#[trigger] out@[i])@ == items.subrange(
                        spans[i].0,
                        spans[i].0 + spans[i].1,
                    ),
            decreases rest.remaining().len(),
        {
            match rest.next() {
                None => {
                    break ;
                },
                Some(ngram) => {
                    out.push(ngram);
                },
            }
        }
        out
    }
}

/// The 64-bit FNV-1a hash of `bytes`: starting from the offset basis, each
/// byte is folded in by an exclusive or followed by a multiplication with
/// the FNV prime, modulo 2^64.
pub open spec fn fnv1a(bytes: Seq<u8>) -> u64
    decreases bytes.len(),
{
    if bytes.len() == 0 {
        0xcbf2_9ce4_8422_2325
    } else {
        (fnv1a(bytes.drop_last()) ^ (bytes.last() as u64)).wrapping_mul(0x100_0000_01b3)
    }
}

/// `fnv::FnvHasher`, from `default` through one `write` of `bytes` to
/// `finish`: the crate starts from the offset basis and folds every byte in
/// as [`fnv1a`] says.
#[verifier::external_body]
pub(crate) fn fnv1a_hash(bytes: &[u8]) -> (h: u64)
    ensures
        h == fnv1a(bytes@),
{
    let mut hasher = FnvHasher::default();
    hasher.write(bytes);
    hasher.finish()
}

/// The scalar values of `chars`, each as four little-endian bytes.
pub open spec fn chars_to_le(chars: Seq<char>) -> Seq<u8>
    decreases chars.len(),
{
    if chars.len() == 0 {
        Seq::empty()
    } else {
        chars_to_le(chars.drop_last()) + u32_to_le(chars.last() as u32)
    }
}

/// What is hashed for an n-gram: its length in characters as eight
/// little-endian bytes, then the scalar value of each character as four.
pub open spec fn ngram_hash_input(ngram: Seq<char>) -> Seq<u8> {
    u64_to_le(ngram.len() as u64) + chars_to_le(ngram)
}

/// The mask that selects one of `2^buckets_exp` buckets: the low
/// `buckets_exp` bits, and all bits for an exponent of 64.
pub open spec fn bucket_mask(buckets_exp: usize) -> u64 {
    if buckets_exp >= 64 {
        0xffff_ffff_ffff_ffff
    } else {
        ((1u64 << (buckets_exp as u64)) - 1) as u64
    }
}

/// The bucket of an n-gram among `2^buckets_exp` buckets.
pub open spec fn subword_index(ngram: Seq<char>, buckets_exp: usize) -> u64 {
    fnv1a(ngram_hash_input(ngram)) & bucket_mask(buckets_exp)
}

/// A bucket never exceeds the mask it was selected with.
pub proof fn lemma_subword_index_bound(ngram: Seq<char>, buckets_exp: usize)
    ensures
        subword_index(ngram, buckets_exp) <= bucket_mask(buckets_exp),
{
    let h = fnv1a(ngram_hash_input(ngram));
    let m = bucket_mask(buckets_exp);
    assert(h & m <= m) by (bit_vector);
}

/// The mask for `buckets_exp`, which is at most 64.
pub fn compute_bucket_mask(buckets_exp: usize) -> (mask: u64)
    requires
        buckets_exp <= 64,
    ensures
        mask == bucket_mask(buckets_exp),
{
    if buckets_exp == 64 {
        0xffff_ffff_ffff_ffff
    } else {
        let e = buckets_exp as u64;
        assert((1u64 << e) >= 1) by (bit_vector)
            requires
                e < 64,
        ;
        (1u64 << e) - 1
    }
}

/// The bucket of `ngram` under `mask`.
fn ngram_bucket(ngram: &[char], mask: u64) -> (index: u64)
    ensures
        index == fnv1a(ngram_hash_input(ngram@)) & mask,
{
    let mut input: Vec<u8> = Vec::new();
    put_u64(&mut input, ngram.len() as u64);
    let mut i: usize = 0;
    while i < ngram.len()
        invariant
            i <= ngram@.len(),
            input@ == u64_to_le(ngram@.len() as u64) + chars_to_le(ngram@.subrange(0, i as int)),
        decreases ngram@.len() - i,
    {
        put_u32(&mut input, ngram[i] as u32);
        i += 1;
        proof {
            let done = ngram@.subrange(0, i as int);
            assert(done.drop_last() =~= ngram@.subrange(0, i - 1));
        }
    }
    assert(ngram@.subrange(0, ngram@.len() as int) =~= ngram@);
    fnv1a_hash(input.as_slice()) & mask
}

/// The characters of `word`.
pub fn chars_of(word: &str) -> (chars: Vec<char>)
    ensures
        chars@ == word@,
{
    broadcast use vstd::string::group_string_axioms;

    let mut it = word.chars();
    let mut chars: Vec<char> = Vec::new();
    loop
        invariant
            it.decrease() is Some,
            chars@ + it.remaining() == word@,
        ensures
            chars@ == word@,
        decreases it.decrease()->0,
    {
        match it.next() {
            Some(c) => {
                chars.push(c);
            },
            None => {
                break ;
            },
        }
    }
    chars
}

/// Strings whose subwords can be assigned to buckets.
///
/// A subword is an n-gram of the string's characters. It is indexed by
/// hashing it and mapping the hash to a bucket; since the hash is not
/// perfect, several subwords can share a bucket.
pub trait SubwordIndices {
    /// The characters whose n-grams are the subwords.
    spec fn subword_chars(&self) -> Seq<char>;

    /// Whether `buckets` is a number of buckets, or an exponent of it,
    /// that the hash can map to.
    spec fn buckets_allowed(buckets: usize) -> bool;

    /// The bucket of the subword `ngram`.
    spec fn bucket_of(ngram: Seq<char>, buckets: usize) -> u64;

    /// The subwords of the string with lengths from `min_n` to `max_n`, each
    /// with its bucket, in the order of [`ngram_spans`].
    fn subword_indices(&self, min_n: usize, max_n: usize, buckets: usize) -> (r: Vec<(&str, u64)>)
        requires
            min_n != 0,
            min_n <= max_n,
            Self::buckets_allowed(buckets),
        ensures
            r@.len() == ngram_spans(
                self.subword_chars().len() as int,
                min_n as int,
                max_n as int,
            ).len(),
            forall|i: int|
                #![trigger r@[i]]
                0 <= i < r@.len() ==> {
                    let span = ngram_spans(
                        self.subword_chars().len() as int,
                        min_n as int,
                        max_n as int,
                    )[i];
                    let ngram = self.subword_chars().subrange(span.0, span.0 + span.1);
                    r@[i].0@ == ngram && r@[i].1 == Self::bucket_of(ngram, buckets)
                },
    ;
}

/// The subwords of `word` with lengths from `min_n` to `max_n`, each with
/// its bucket among `2^buckets_exp` buckets, in the order of
/// [`ngram_spans`].
pub fn indexed_subwords(word: &str, min_n: usize, max_n: usize, buckets_exp: usize) -> (r: Vec<
    (&str, u64),
>)
    requires
        min_n != 0,
        min_n <= max_n,
        buckets_exp <= 64,
    ensures
        r@.len() == ngram_spans(word@.len() as int, min_n as int, max_n as int).len(),
        forall|i: int|
            #![trigger r@[i]]
            0 <= i < r@.len() ==> {
                let span = ngram_spans(word@.len() as int, min_n as int, max_n as int)[i];
                let ngram = word@.subrange(span.0, span.0 + span.1);
                r@[i].0@ == ngram && r@[i].1 == subword_index(ngram, buckets_exp)
            },
{
    let mask = compute_bucket_mask(buckets_exp);
    let chars = chars_of(word);
    let ghost spans = ngram_spans(chars@.len() as int, min_n as int, max_n as int);
    let mut ngrams = NGrams::new(chars.as_slice(), min_n, max_n);
    let mut indices: Vec<(&str, u64)> = Vec::new();
    loop
        invariant
            ngrams.wf(),
            ngrams.sequence() == chars@,
            chars@ == word@,
            indices@.len() + ngrams.remaining().len() == spans.len(),
            ngrams.remaining() == spans.subrange(indices@.len() as int, spans.len() as int),
            forall|i: int|
                #![trigger indices@[i]]
                0 <= i < indices@.len() ==> {
                    let ngram = word@.subrange(spans[i].0, spans[i].0 + spans[i].1);
                    indices@[i].0@ == ngram && indices@[i].1 == fnv1a(ngram_hash_input(ngram))
                        & mask
                },
        ensures
            indices@.len() == spans.len(),
            forall|i: int|
                #![trigger indices@[i]]
                0 <= i < indices@.len() ==> {
                    let ngram = word@.subrange(spans[i].0, spans[i].0 + spans[i].1);
                    indices@[i].0@ == ngram && indices@[i].1 == fnv1a(ngram_hash_input(ngram))
                        & mask
                },
        decreases ngrams.remaining().len(),
    {
        let next = ngrams.next_span();
        match next {
            None => {
                break ;
            },
            Some((start, n)) => {
                assert(chars@.len() == chars.len());
                let ngram = slice_subrange(chars.as_slice(), start, start + n);
                let index = ngram_bucket(ngram, mask);
                let subword = word.substring_char(start, start + n);
                indices.push((subword, index));
            },
        }
    }
    indices
}

impl SubwordIndices for str {
    open spec fn subword_chars(&self) -> Seq<char> {
        self@
    }

    /// The third argument is the exponent of the number of buckets, which
    /// is at most 64.
    open spec fn buckets_allowed(buckets: usize) -> bool {
        buckets <= 64
    }

    open spec fn bucket_of(ngram: Seq<char>, buckets: usize) -> u64 {
        subword_index(ngram, buckets)
    }

    fn subword_indices(&self, min_n: usize, max_n: usize, buckets: usize) -> (r: Vec<(&str, u64)>) {
        let indices = indexed_subwords(self, min_n, max_n, buckets);
        assert forall|i: int| 0 <= i < indices@.len() implies {
            let span = ngram_spans(self@.len() as int, min_n as int, max_n as int)[i];
            let ngram = self@.subrange(span.0, span.0 + span.1);
            (#[trigger] indices@[i]).1 == <str as SubwordIndices>::bucket_of(ngram, buckets)
        } by {}
        indices
    }
}

/// A word between the markers of its begin and its end.
pub open spec fn bracketed(word: Seq<char>) -> Seq<char> {
    seq!['<'] + word + seq!['>']
}

/// A word between the markers of its begin and its end.
pub fn bracket(word: &str) -> (r: String)
    ensures
        r@ == bracketed(word@),
{
    proof {
        reveal_strlit("<");
        reveal_strlit(">");
    }
    let mut bounded = String::from_str("<");
    bounded.append(word);
    bounded.append(">");
    bounded
}

} // verus!
