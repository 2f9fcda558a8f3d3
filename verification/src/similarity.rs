//! The ranking of words by their similarity to a query.
//!
//! The similarities themselves are floating-point numbers that the users
//! of the library compute. Here a similarity is an integer that orders as
//! those numbers do, and the library selects and orders the best
//! candidates: by descending similarity, and among equal similarities by
//! ascending word.

use std::cmp::Ordering;
use vstd::prelude::*;
use vstd::utf8::encode_utf8;

use crate::util::str_eq;

verus! {

/// Whether `a` comes before `b` when byte sequences are ordered like words
/// in a dictionary: the first byte that differs decides, and a sequence
/// comes before its extensions.
pub open spec fn bytes_lt(a: Seq<u8>, b: Seq<u8>) -> bool
    decreases a.len(),
{
    if b.len() == 0 {
        false
    } else if a.len() == 0 {
        true
    } else if a[0] != b[0] {
        a[0] < b[0]
    } else {
        bytes_lt(a.drop_first(), b.drop_first())
    }
}

/// No sequence comes before one that comes before it.
pub proof fn lemma_bytes_lt_asymmetric(a: Seq<u8>, b: Seq<u8>)
    requires
        bytes_lt(a, b),
    ensures
        !bytes_lt(b, a),
    decreases a.len(),
{
    if a.len() > 0 && b.len() > 0 && a[0] == b[0] {
        lemma_bytes_lt_asymmetric(a.drop_first(), b.drop_first());
    }
}

/// What comes before a sequence comes before everything behind it.
pub proof fn lemma_bytes_lt_transitive(a: Seq<u8>, b: Seq<u8>, c: Seq<u8>)
    requires
        bytes_lt(a, b),
        bytes_lt(b, c),
    ensures
        bytes_lt(a, c),
    decreases a.len(),
{
    if a.len() > 0 && b.len() > 0 && c.len() > 0 && a[0] == b[0] && b[0] == c[0] {
        lemma_bytes_lt_transitive(a.drop_first(), b.drop_first(), c.drop_first());
    }
}

/// Of two different sequences one comes before the other.
pub proof fn lemma_bytes_lt_total(a: Seq<u8>, b: Seq<u8>)
    requires
        !bytes_lt(a, b),
        !bytes_lt(b, a),
    ensures
        a == b,
    decreases a.len(),
{
    if a.len() > 0 && b.len() > 0 {
        lemma_bytes_lt_total(a.drop_first(), b.drop_first());
        assert(a =~= seq![a[0]] + a.drop_first());
    }
}

/// Whether `a` comes before `b` in the order of [`bytes_lt`].
pub fn bytes_before(a: &[u8], b: &[u8]) -> (r: bool)
    ensures
        r == bytes_lt(a@, b@),
{
    let mut i: usize = 0;
    assert(a@.skip(0) =~= a@);
    assert(b@.skip(0) =~= b@);
    while i < a.len() && i < b.len()
        invariant
            i <= a@.len(),
            i <= b@.len(),
            bytes_lt(a@, b@) == bytes_lt(a@.skip(i as int), b@.skip(i as int)),
        decreases a@.len() - i,
    {
        if a[i] != b[i] {
            return a[i] < b[i];
        }
        assert(a@.skip(i as int).drop_first() =~= a@.skip(i + 1));
        assert(b@.skip(i as int).drop_first() =~= b@.skip(i + 1));
        i += 1;
    }
    i < b.len()
}

/// A word with its similarity to a query.
#[derive(Clone, Copy, Debug)]
pub struct WordSimilarity<'a> {
    pub word: &'a str,
    /// The similarity, as an integer that orders as the similarities do.
    pub similarity: i32,
}

/// What the ranking goes by: the similarity and the bytes of the word.
pub struct RankKey {
    pub similarity: int,
    pub word: Seq<u8>,
}

impl<'a> View for WordSimilarity<'a> {
    type V = RankKey;

    open spec fn view(&self) -> RankKey {
        RankKey { similarity: self.similarity as int, word: encode_utf8(self.word@) }
    }
}

/// Whether `x` ranks before `y`: its similarity is higher, or the
/// similarities are equal and its word comes first.
pub open spec fn before(x: RankKey, y: RankKey) -> bool {
    x.similarity > y.similarity || (x.similarity == y.similarity && bytes_lt(x.word, y.word))
}

/// The keys of `candidates`.
pub open spec fn keys(candidates: Seq<WordSimilarity>) -> Seq<RankKey> {
    candidates.map_values(|c: WordSimilarity| c@)
}

/// Whether candidate `i` ranks before candidate `j`. Candidates of equal
/// similarity and word rank in the order in which they were given, so the
/// ranking leaves nothing open.
pub open spec fn precedes(keys: Seq<RankKey>, i: int, j: int) -> bool {
    before(keys[i], keys[j]) || (!before(keys[j], keys[i]) && i < j)
}

/// The ranking is a strict total order of the candidates.
pub proof fn lemma_precedes_order(keys: Seq<RankKey>, i: int, j: int, k: int)
    ensures
        !precedes(keys, i, i),
        precedes(keys, i, j) ==> !precedes(keys, j, i),
        precedes(keys, i, j) && precedes(keys, j, k) ==> precedes(keys, i, k),
        i != j ==> precedes(keys, i, j) || precedes(keys, j, i),
{
    let x = keys[i];
    let y = keys[j];
    let z = keys[k];
    if bytes_lt(x.word, x.word) {
        lemma_bytes_lt_asymmetric(x.word, x.word);
    }
    if bytes_lt(x.word, y.word) {
        lemma_bytes_lt_asymmetric(x.word, y.word);
    }
    if precedes(keys, i, j) && precedes(keys, j, k) {
        if x.similarity == y.similarity && y.similarity == z.similarity {
            if bytes_lt(x.word, y.word) && bytes_lt(y.word, z.word) {
                lemma_bytes_lt_transitive(x.word, y.word, z.word);
            } else if bytes_lt(x.word, y.word) {
                // y and z hold the same word
                if !bytes_lt(z.word, y.word) {
                    lemma_bytes_lt_total(y.word, z.word);
                }
            } else if bytes_lt(y.word, z.word) {
                if !bytes_lt(y.word, x.word) {
                    lemma_bytes_lt_total(x.word, y.word);
                }
            } else {
                if !bytes_lt(y.word, x.word) {
                    lemma_bytes_lt_total(x.word, y.word);
                }
            }
        }
    }
}

impl<'a> WordSimilarity<'a> {
    /// Whether this candidate ranks before `other`.
    pub fn ranks_before(&self, other: &WordSimilarity<'a>) -> (r: bool)
        ensures
            r == before(self@, other@),
    {
        if self.similarity > other.similarity {
            true
        } else if self.similarity < other.similarity {
            false
        } else {
            bytes_before(self.word.as_bytes(), other.word.as_bytes())
        }
    }

    /// The order of this candidate and `other` in a ranking: `Less` when
    /// this one ranks first, `Greater` when `other` does, and `Equal` when
    /// they agree in similarity and word.
    pub fn cmp(&self, other: &WordSimilarity<'a>) -> (r: Ordering)
        ensures
            (r == Ordering::Less) == before(self@, other@),
            (r == Ordering::Greater) == before(other@, self@),
            (r == Ordering::Equal) == (self@ == other@),
    {
        proof {
            if before(self@, other@) && self@.similarity == other@.similarity {
                lemma_bytes_lt_asymmetric(self@.word, other@.word);
            }
            if !before(self@, other@) && !before(other@, self@) {
                lemma_bytes_lt_total(self@.word, other@.word);
            }
        }
        if self.ranks_before(other) {
            Ordering::Less
        } else if other.ranks_before(self) {
            Ordering::Greater
        } else {
            Ordering::Equal
        }
    }
}

/// Whether `word` is one of `skip`.
pub open spec fn skipped(skip: Seq<&str>, word: Seq<char>) -> bool {
    exists|s: int| 0 <= s < skip.len() && (#[trigger] skip[s])@ == word
}

/// Whether `word` is one of `skip`.
pub fn is_skipped(skip: &[&str], word: &str) -> (r: bool)
    ensures
        r == skipped(skip@, word@),
{
    let mut s: usize = 0;
    while s < skip.len()
        invariant
            s <= skip@.len(),
            forall|t: int| 0 <= t < s ==> (#[trigger] skip@[t])@ != word@,
        decreases skip@.len() - s,
    {
        if str_eq(skip[s], word) {
            return true;
        }
        s += 1;
    }
    false
}

/// Whether `j` is among the first `t` of `picks`.
pub open spec fn picked_before(picks: Seq<usize>, t: int, j: int) -> bool {
    exists|s: int| 0 <= s < t && #[trigger] picks[s] == j
}

/// Whether `picks` are the best candidates in ranking order: the best
/// `limit` of those whose word is not among `skip`, or all of them if they
/// are fewer. Each pick is the position of a candidate, and each is the
/// one that ranks first among all that were not picked before it.
pub open spec fn is_ranking(
    candidates: Seq<WordSimilarity>,
    skip: Seq<&str>,
    limit: int,
    picks: Seq<usize>,
) -> bool {
    &&& picks.len() <= limit
    &&& forall|t: int|
        0 <= t < picks.len() ==> (#[trigger] picks[t]) < candidates.len() && !skipped(
            skip,
            candidates[picks[t] as int].word@,
        )
    &&& forall|t: int, j: int|
        #![trigger picks[t], candidates[j]]
        0 <= t < picks.len() && 0 <= j < candidates.len() && !skipped(skip, candidates[j].word@)
            && !picked_before(picks, t, j) && j != picks[t] ==> precedes(
            keys(candidates),
            picks[t] as int,
            j,
        )
    &&& forall|s: int, t: int|
        0 <= s < t < picks.len() ==> precedes(
            keys(candidates),
            #[trigger] picks[s] as int,
            #[trigger] picks[t] as int,
        )
    &&& picks.len() < limit ==> forall|j: int|
        0 <= j < candidates.len() && !skipped(skip, (#[trigger] candidates[j]).word@)
            ==> picked_before(picks, picks.len() as int, j)
}

/// Selects the best `limit` candidates whose word is not among `skip`, and
/// hands back their positions among `candidates`, the best first.
pub fn rank(candidates: &[WordSimilarity], skip: &[&str], limit: usize) -> (picks: Vec<usize>)
    ensures
        is_ranking(candidates@, skip@, limit as int, picks@),
{
    let n = candidates.len();
    let ghost all = keys(candidates@);
    // A candidate is out when it was skipped or has been picked.
    let mut out: Vec<bool> = Vec::new();
    let mut j: usize = 0;
    while j < n
        invariant
            j <= n,
            n == candidates@.len(),
            out@.len() == j,
            forall|i: int| 0 <= i < j ==> #[trigger] out@[i] == skipped(skip@, candidates@[i].word@),
        decreases n - j,
    {
        out.push(is_skipped(skip, candidates[j].word));
        j += 1;
    }
    let mut picks: Vec<usize> = Vec::new();
    let mut exhausted = false;
    while picks.len() < limit && !exhausted
        invariant
            n == candidates@.len(),
            all == keys(candidates@),
            out@.len() == n,
            picks@.len() <= limit,
            forall|i: int|
                0 <= i < n ==> (#[trigger] out@[i] <==> skipped(skip@, candidates@[i].word@)
                    || picked_before(picks@, picks@.len() as int, i)),
            forall|t: int|
                0 <= t < picks@.len() ==> (#[trigger] picks@[t]) < n && !skipped(
                    skip@,
                    candidates@[picks@[t] as int].word@,
                ),
            forall|t: int, j: int|
                #![trigger picks@[t], candidates@[j]]
                0 <= t < picks@.len() && 0 <= j < n && !skipped(skip@, candidates@[j].word@)
                    && !picked_before(picks@, t, j) && j != picks@[t] ==> precedes(
                    all,
                    picks@[t] as int,
                    j,
                ),
            forall|s: int, t: int|
                0 <= s < t < picks@.len() ==> precedes(
                    all,
                    #[trigger] picks@[s] as int,
                    #[trigger] picks@[t] as int,
                ),
            exhausted ==> forall|i: int| 0 <= i < n ==> #[trigger] out@[i],
        decreases (if exhausted { 0int } else { 1int }), limit - picks@.len(),
    {
        let mut best: Option<usize> = None;
        let mut j: usize = 0;
        while j < n
            invariant
                j <= n,
                n == candidates@.len(),
                all == keys(candidates@),
                out@.len() == n,
                match best {
                    Some(b) => b < j && !out@[b as int] && forall|i: int|
                        0 <= i < j && !#[trigger] out@[i] && i != b ==> precedes(all, b as int, i),
                    None => forall|i: int| 0 <= i < j ==> #[trigger] out@[i],
                },
            decreases n - j,
        {
            if !out[j] {
                match best {
                    None => {
                        best = Some(j);
                    },
                    Some(b) => {
                        let better = candidates[j].ranks_before(&candidates[b]);
                        proof {
                            assert forall|i: int|
                                0 <= i < j && !#[trigger] out@[i] && better implies precedes(
                                all,
                                j as int,
                                i,
                            ) by {
                                lemma_precedes_order(all, j as int, b as int, i);
                            }
                        }
                        if better {
                            best = Some(j);
                        }
                    },
                }
            }
            j += 1;
        }
        match best {
            None => {
                exhausted = true;
            },
            Some(b) => {
                let ghost before_picks = picks@;
                let ghost out_before = out@;
                picks.push(b);
                out[b] = true;
                proof {
                    let t = before_picks.len() as int;
                    assert forall|i: int| 0 <= i < n implies (#[trigger] out@[i] <==> skipped(
                        skip@,
                        candidates@[i].word@,
                    ) || picked_before(picks@, picks@.len() as int, i)) by {
                        if picked_before(before_picks, t, i) {
                            let s = choose|s: int| 0 <= s < t && #[trigger] before_picks[s] == i;
                            assert(picks@[s] == i);
                        }
                        if i == b {
                            assert(picks@[t] == i);
                        }
                        if picked_before(picks@, t + 1, i) {
                            let s = choose|s: int| 0 <= s < t + 1 && #[trigger] picks@[s] == i;
                        }
                    }
                    assert forall|u: int, i: int|
                        #![trigger picks@[u], candidates@[i]]
                        0 <= u < picks@.len() && 0 <= i < n && !skipped(
                            skip@,
                            candidates@[i].word@,
                        ) && !picked_before(picks@, u, i) && i != picks@[u] implies precedes(
                        all,
                        picks@[u] as int,
                        i,
                    ) by {
                        if u < t {
                            if picked_before(before_picks, u, i) {
                                let s = choose|s: int|
                                    0 <= s < u && #[trigger] before_picks[s] == i;
                                assert(picks@[s] == i);
                            }
                        } else {
                            if picked_before(before_picks, t, i) {
                                let s = choose|s: int|
                                    0 <= s < t && #[trigger] before_picks[s] == i;
                                assert(picks@[s] == i);
                            }
                            assert(!out_before[i]);
                        }
                    }
                    assert forall|s: int, u: int| 0 <= s < u < picks@.len() implies precedes(
                        all,
                        #[trigger] picks@[s] as int,
                        #[trigger] picks@[u] as int,
                    ) by {}
                }
            },
        }
    }
    proof {
        if picks@.len() < limit {
            assert forall|j: int|
                0 <= j < n && !skipped(skip@, (#[trigger] candidates@[j]).word@) implies picked_before(
                picks@,
                picks@.len() as int,
                j,
            ) by {
                assert(out@[j]);
            }
        }
    }
    picks
}

/// The best `limit` candidates whose word is not among `skip`, the best
/// first.
pub fn select<'a>(candidates: &[WordSimilarity<'a>], skip: &[&str], limit: usize) -> (r: Vec<
    WordSimilarity<'a>,
>)
    ensures
        exists|picks: Seq<usize>|
            {
                &&& #[trigger] is_ranking(candidates@, skip@, limit as int, picks)
                &&& r@.len() == picks.len()
                &&& forall|t: int|
                    0 <= t < r@.len() ==> #[trigger] r@[t] == candidates@[picks[t] as int]
            },
{
    let picks = rank(candidates, skip, limit);
    let mut selected: Vec<WordSimilarity<'a>> = Vec::new();
    let mut t: usize = 0;
    while t < picks.len()
        invariant
            t <= picks@.len(),
            selected@.len() == t,
            forall|u: int| 0 <= u < picks@.len() ==> (#[trigger] picks@[u]) < candidates@.len(),
            forall|u: int| 0 <= u < t ==> #[trigger] selected@[u] == candidates@[picks@[u] as int],
        decreases picks@.len() - t,
    {
        selected.push(candidates[picks[t]]);
        t += 1;
    }
    selected
}

} // verus!
