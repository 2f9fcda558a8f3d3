//! An index from words to their rows.
//!
//! The rows are grouped by the FNV-1a hash of their word, so that a word is
//! found by hashing it and comparing it with the few words of its group.

use std::collections::HashMap;
use vstd::prelude::*;
use vstd::utf8::encode_utf8;

use crate::subword::{fnv1a, fnv1a_hash};
use crate::util::str_eq;
use crate::vocab::{lemma_word_index, texts, word_index};

verus! {

/// The hash by which a word is grouped.
pub open spec fn word_hash(word: Seq<char>) -> u64 {
    fnv1a(encode_utf8(word))
}

/// Whether every row of a group is a row of `words` whose word has the
/// hash of the group.
pub open spec fn groups_sound(groups: Map<u64, Vec<usize>>, words: Seq<Seq<char>>) -> bool {
    forall|hash: u64, j: int|
        #![trigger groups[hash]@[j]]
        groups.contains_key(hash) && 0 <= j < groups[hash]@.len() ==> {
            &&& groups[hash]@[j] < words.len()
            &&& word_hash(words[groups[hash]@[j] as int]) == hash
        }
}

/// Whether the rows of every group ascend.
pub open spec fn groups_ascend(groups: Map<u64, Vec<usize>>) -> bool {
    forall|hash: u64, i: int, j: int|
        #![trigger groups[hash]@[i], groups[hash]@[j]]
        groups.contains_key(hash) && 0 <= i < j < groups[hash]@.len() ==> groups[hash]@[i]
            < groups[hash]@[j]
}

/// Whether row `row` of `words` is in the group of its word.
pub open spec fn groups_hold(groups: Map<u64, Vec<usize>>, words: Seq<Seq<char>>, row: int) -> bool {
    &&& groups.contains_key(word_hash(words[row]))
    &&& exists|j: int|
        0 <= j < groups[word_hash(words[row])]@.len() && #[trigger] groups[word_hash(
            words[row],
        )]@[j] == row
}

/// Whether `groups` index `words`: they hold every row of `words`, each
/// group the rows of one hash in ascending order.
pub open spec fn groups_index(groups: Map<u64, Vec<usize>>, words: Seq<Seq<char>>) -> bool {
    &&& groups_sound(groups, words)
    &&& groups_ascend(groups)
    &&& forall|row: int| 0 <= row < words.len() ==> #[trigger] groups_hold(groups, words, row)
}

/// Adding a row to the group of its word keeps an index an index.
proof fn lemma_group_grows(
    before: Map<u64, Vec<usize>>,
    after: Map<u64, Vec<usize>>,
    all: Seq<Seq<char>>,
    row: int,
    hash: u64,
)
    requires
        0 <= row < all.len(),
        hash == word_hash(all[row]),
        groups_index(before, all.subrange(0, row)),
        after.dom() == before.dom().insert(hash),
        forall|h: u64| h != hash && before.contains_key(h) ==> after[h] == before[h],
        before.contains_key(hash) ==> after[hash]@ == before[hash]@.push(row as usize),
        !before.contains_key(hash) ==> after[hash]@ == seq![row as usize],
        row <= usize::MAX,
    ensures
        groups_index(after, all.subrange(0, row + 1)),
{
    let seen = all.subrange(0, row);
    let grown = all.subrange(0, row + 1);
    assert forall|r: int| 0 <= r < row implies grown[r] == seen[r] by {}
    assert forall|h: u64, j: int|
        #![trigger after[h]@[j]]
        after.contains_key(h) && 0 <= j < after[h]@.len() implies {
        &&& after[h]@[j] < grown.len()
        &&& word_hash(grown[after[h]@[j] as int]) == h
    } by {}
    assert forall|h: u64, i: int, j: int|
        #![trigger after[h]@[i], after[h]@[j]]
        after.contains_key(h) && 0 <= i < j < after[h]@.len() implies after[h]@[i] < after[h]@[j] by {}
    assert forall|r: int| 0 <= r < row + 1 implies #[trigger] groups_hold(after, grown, r) by {
        if r < row {
            assert(groups_hold(before, seen, r));
            let h = word_hash(seen[r]);
            let j = choose|j: int| 0 <= j < before[h]@.len() && #[trigger] before[h]@[j] == r;
            assert(after[h]@[j] == r);
        } else {
            let j = after[hash]@.len() - 1;
            assert(after[hash]@[j] == row);
        }
    }
}

/// An index from the words of a list to their rows.
#[derive(Clone, Debug)]
pub struct WordIndex {
    groups: HashMap<u64, Vec<usize>>,
}

impl WordIndex {
    /// Whether this is the index of `words`.
    pub closed spec fn indexes(&self, words: Seq<Seq<char>>) -> bool {
        groups_index(self.groups@, words)
    }

    /// The index of `words`.
    pub fn new(words: &Vec<String>) -> (r: WordIndex)
        ensures
            r.indexes(texts(words@)),
    {
        broadcast use vstd::std_specs::hash::group_hash_axioms;

        let ghost all = texts(words@);
        let mut groups: HashMap<u64, Vec<usize>> = HashMap::new();
        let mut row: usize = 0;
        while row < words.len()
            invariant
                row <= words@.len(),
                all == texts(words@),
                groups_index(groups@, all.subrange(0, row as int)),
            decreases words@.len() - row,
        {
            let hash = fnv1a_hash(words[row].as_str().as_bytes());
            let ghost before = groups@;
            let mut group: Vec<usize> = match groups.remove(&hash) {
                Some(group) => group,
                None => Vec::new(),
            };
            group.push(row);
            groups.insert(hash, group);
            proof {
                assert(groups@.dom() =~= before.dom().insert(hash));
                lemma_group_grows(before, groups@, all, row as int, hash);
            }
            row += 1;
        }
        assert(all.subrange(0, words@.len() as int) =~= all);
        WordIndex { groups }
    }

    /// The row of `word` among `words`, whose index this is.
    pub fn find(&self, words: &Vec<String>, word: &str) -> (r: Option<usize>)
        requires
            self.indexes(texts(words@)),
        ensures
            match r {
                Some(row) => word_index(texts(words@), word@) == Some(row as int),
                None => word_index(texts(words@), word@) is None,
            },
    {
        broadcast use vstd::std_specs::hash::group_hash_axioms;

        let ghost all = texts(words@);
        let hash = fnv1a_hash(word.as_bytes());
        proof {
            lemma_word_index(all, word@);
        }
        let group = match self.groups.get(&hash) {
            Some(group) => group,
            None => {
                proof {
                    if word_index(all, word@) is Some {
                        let found = word_index(all, word@)->0;
                        assert(groups_hold(self.groups@, all, found));
                    }
                }
                return None;
            },
        };
        let n_words = words.len();
        let mut j: usize = group.len();
        while j > 0
            invariant
                j <= group@.len(),
                all == texts(words@),
                n_words == words@.len(),
                self.groups@.contains_key(hash),
                self.groups@[hash] == *group,
                hash == word_hash(word@),
                groups_index(self.groups@, all),
                forall|i: int| j <= i < group@.len() ==> all[#[trigger] group@[i] as int] != word@,
            decreases j,
        {
            j -= 1;
            let row = group[j];
            if str_eq(words[row].as_str(), word) {
                proof {
                    lemma_word_index(all, word@);
                    let found = word_index(all, word@)->0;
                    assert(groups_hold(self.groups@, all, found));
                }
                return Some(row);
            }
        }
        proof {
            if word_index(all, word@) is Some {
                let found = word_index(all, word@)->0;
                assert(groups_hold(self.groups@, all, found));
            }
        }
        None
    }
}

} // verus!
