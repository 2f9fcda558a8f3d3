use std::cmp::Ordering;

use rust2vec::similarity::{bytes_before, rank, select, WordSimilarity};

/// An integer that orders as the floats do.
fn key(similarity: f32) -> i32 {
    let bits = similarity.to_bits() as i32;
    bits ^ (((bits >> 31) as u32) >> 1) as i32
}

fn dot(a: &[f32], b: &[f32]) -> f32 {
    a.iter().zip(b).map(|(x, y)| x * y).sum()
}

fn candidates<'a>(vocab: &[(&'a str, Vec<f32>)], query: &[f32]) -> Vec<WordSimilarity<'a>> {
    vocab
        .iter()
        .map(|(word, row)| WordSimilarity {
            word,
            similarity: key(dot(row, query)),
        })
        .collect()
}

fn selected_words(candidates: &[WordSimilarity], skip: &[&str], limit: usize) -> Vec<String> {
    select(candidates, skip, limit)
        .iter()
        .map(|c| c.word.to_string())
        .collect()
}

#[test]
fn key_orders_like_floats() {
    let values = [-2.0f32, -1.0, -0.5, -0.0, 0.0, 0.1, 0.9, 1.0, 3.5];
    for pair in values.windows(2) {
        assert!(key(pair[0]) < key(pair[1]), "{} {}", pair[0], pair[1]);
    }
}

#[test]
fn ranking_is_independent_of_insertion_order() {
    let a = ("a", vec![1.0, 0.0]);
    let b = ("b", vec![0.9, 0.1]);
    let c = ("c", vec![-1.0, 0.0]);
    let query = [1.0, 0.0];
    let orders = [
        vec![a.clone(), b.clone(), c.clone()],
        vec![a.clone(), c.clone(), b.clone()],
        vec![b.clone(), a.clone(), c.clone()],
        vec![b.clone(), c.clone(), a.clone()],
        vec![c.clone(), a.clone(), b.clone()],
        vec![c.clone(), b.clone(), a.clone()],
    ];
    for vocab in orders.iter() {
        let cands = candidates(vocab, &query);
        assert_eq!(selected_words(&cands, &[], 2), vec!["a", "b"]);
        assert_eq!(selected_words(&cands, &[], 3), vec!["a", "b", "c"]);
        assert_eq!(selected_words(&cands, &[], 10), vec!["a", "b", "c"]);
        assert_eq!(selected_words(&cands, &[], 0), Vec::<String>::new());
        assert_eq!(selected_words(&cands, &["a"], 2), vec!["b", "c"]);
        assert_eq!(selected_words(&cands, &["a", "b", "c"], 2), Vec::<String>::new());
    }
}

#[test]
fn equal_similarities_are_ordered_by_word() {
    let cands = vec![
        WordSimilarity { word: "pear", similarity: 5 },
        WordSimilarity { word: "apple", similarity: 5 },
        WordSimilarity { word: "zebra", similarity: 9 },
        WordSimilarity { word: "app", similarity: 5 },
        WordSimilarity { word: "äpfel", similarity: 5 },
        WordSimilarity { word: "fig", similarity: -3 },
    ];
    assert_eq!(
        selected_words(&cands, &[], 6),
        vec!["zebra", "app", "apple", "pear", "äpfel", "fig"]
    );
    assert_eq!(rank(&cands, &[], 6), vec![2, 3, 1, 0, 4, 5]);
    assert_eq!(rank(&cands, &[], 2), vec![2, 3]);
    assert_eq!(rank(&cands, &["app", "zebra"], 2), vec![1, 0]);
}

#[test]
fn identical_candidates_keep_their_order() {
    let cands = vec![
        WordSimilarity { word: "b", similarity: 1 },
        WordSimilarity { word: "a", similarity: 1 },
        WordSimilarity { word: "a", similarity: 1 },
        WordSimilarity { word: "b", similarity: 1 },
    ];
    assert_eq!(rank(&cands, &[], 4), vec![1, 2, 0, 3]);
    assert_eq!(rank(&cands, &[], 3), vec![1, 2, 0]);
    assert_eq!(rank(&[], &[], 3), Vec::<usize>::new());
}

#[test]
fn word_similarity_cmp() {
    let high = WordSimilarity { word: "b", similarity: 2 };
    let low = WordSimilarity { word: "a", similarity: 1 };
    let low_later = WordSimilarity { word: "ab", similarity: 1 };
    assert_eq!(high.cmp(&low), Ordering::Less);
    assert_eq!(low.cmp(&high), Ordering::Greater);
    assert_eq!(low.cmp(&low_later), Ordering::Less);
    assert_eq!(low_later.cmp(&low), Ordering::Greater);
    assert_eq!(low.cmp(&low), Ordering::Equal);
    assert!(high.ranks_before(&low));
    assert!(!low.ranks_before(&low));
}

#[test]
fn bytes_are_ordered_like_words() {
    let list: Vec<&str> = vec!["", "a", "aa", "ab", "b", "ba", "z", "ä", "平"];
    for (i, x) in list.iter().enumerate() {
        for (j, y) in list.iter().enumerate() {
            assert_eq!(bytes_before(x.as_bytes(), y.as_bytes()), i < j, "{:?} {:?}", x, y);
            assert_eq!(bytes_before(x.as_bytes(), y.as_bytes()), x < y);
        }
    }
}
