use rust2vec::error::Error;
use rust2vec::fasttext::subword::FastTextStr;
use rust2vec::fasttext::vocab::FastTextVocab;
use rust2vec::subword::SubwordIndices;
use rust2vec::vocab::{Indices, SubwordVocab, Vocab, VocabWrap, WordVocab};

fn words(list: &[&str]) -> Vec<String> {
    list.iter().map(|w| w.to_string()).collect()
}

#[test]
fn word_vocab_finds_exact_words_only() {
    let vocab = WordVocab::new(words(&["one", "two", "three"]));
    assert_eq!(vocab.word_indices("one"), Some(Indices::SingleIndex(0)));
    assert_eq!(vocab.word_indices("three"), Some(Indices::SingleIndex(2)));
    assert_eq!(vocab.word_indices("four"), None);
    assert_eq!(vocab.word_indices(""), None);
    assert_eq!(vocab.word_indices("On"), None);
    assert_eq!(vocab.words(), &words(&["one", "two", "three"])[..]);
    assert_eq!(vocab.len(), 3);
    assert_eq!(vocab.total_rows(), 3);
}

#[test]
fn word_vocab_repeated_word_has_last_row() {
    let vocab = WordVocab::new(words(&["a", "b", "a"]));
    assert_eq!(vocab.word_indices("a"), Some(Indices::SingleIndex(2)));
    assert_eq!(vocab.word_indices("b"), Some(Indices::SingleIndex(1)));
}

#[test]
fn subword_vocab_rejects_bad_parameters() {
    assert_eq!(
        SubwordVocab::new(words(&["a"]), 0, 3, 10).err(),
        Some(Error::InvalidNgramRange)
    );
    assert_eq!(
        SubwordVocab::new(words(&["a"]), 4, 3, 10).err(),
        Some(Error::InvalidNgramRange)
    );
    assert_eq!(
        SubwordVocab::new(words(&["a"]), 3, 6, 65).err(),
        Some(Error::InvalidBucketExponent)
    );
    assert_eq!(
        SubwordVocab::new(words(&["a"]), 0, 3, 65).err(),
        Some(Error::InvalidNgramRange)
    );
    // More rows than can be counted.
    assert_eq!(
        SubwordVocab::new(words(&["a"]), 3, 6, 64).err(),
        Some(Error::InvalidBucketExponent)
    );
    assert!(SubwordVocab::new(words(&["a"]), 3, 3, 0).is_ok());
    assert!(SubwordVocab::new(Vec::new(), 1, 1, 21).is_ok());
}

#[test]
fn subword_vocab_falls_back_to_buckets() {
    let vocab = SubwordVocab::new(words(&["hello", "world"]), 3, 6, 2).unwrap();
    assert_eq!(vocab.len(), 2);
    assert_eq!(vocab.total_rows(), 6);
    assert_eq!(vocab.min_n(), 3);
    assert_eq!(vocab.max_n(), 6);
    assert_eq!(vocab.buckets_exp(), 2);
    assert_eq!(vocab.word_indices("world"), Some(Indices::SingleIndex(1)));

    // The pinned buckets of "<hallo>", in the order of its n-grams.
    let expected: Vec<usize> = "<hallo>"
        .subword_indices(3, 6, 2)
        .into_iter()
        .map(|(_, bucket)| bucket as usize + 2)
        .collect();
    assert_eq!(expected.len(), 14);
    assert_eq!(vocab.word_indices("hallo"), Some(Indices::MultiIndex(expected.clone())));

    let pinned: Vec<(&str, u64)> = vec![
        ("<hallo", 1),
        ("<hall", 1),
        ("<hal", 0),
        ("<ha", 3),
        ("hallo>", 3),
        ("hallo", 2),
        ("hall", 0),
        ("hal", 3),
        ("allo>", 0),
        ("allo", 3),
        ("all", 3),
        ("llo>", 0),
        ("llo", 1),
        ("lo>", 3),
    ];
    assert_eq!("<hallo>".subword_indices(3, 6, 2), pinned);
    let rows: Vec<usize> = pinned.iter().map(|(_, bucket)| *bucket as usize + 2).collect();
    assert_eq!(expected, rows);
}

#[test]
fn subword_vocab_short_word_has_no_subwords() {
    let vocab = SubwordVocab::new(words(&["hello"]), 4, 6, 2).unwrap();
    // "<a>" has three characters, fewer than the shortest n-gram.
    assert_eq!(vocab.word_indices("a"), Some(Indices::MultiIndex(vec![])));
    // "<ab>" has exactly one n-gram of four characters.
    match vocab.word_indices("ab") {
        Some(Indices::MultiIndex(rows)) => {
            assert_eq!(rows.len(), 1);
            assert!(rows[0] >= 1 && rows[0] < 5);
        }
        other => panic!("unexpected indices: {:?}", other),
    }
}

#[test]
fn fasttext_vocab_hashes_like_fasttext() {
    let vocab = FastTextVocab::new(words(&["hello", "world"]), 3, 6, 2_000_000).unwrap();
    assert_eq!(vocab.total_rows(), 2_000_002);
    assert_eq!(vocab.word_indices("hello"), Some(Indices::SingleIndex(0)));
    let expected: Vec<usize> = FastTextStr("<groß>")
        .subword_indices(3, 6, 2_000_000)
        .into_iter()
        .map(|(_, bucket)| bucket as usize + 2)
        .collect();
    assert_eq!(vocab.word_indices("groß"), Some(Indices::MultiIndex(expected.clone())));
    let mut sorted = expected;
    sorted.sort_unstable();
    assert_eq!(
        sorted,
        vec![
            112809 + 2,
            205234 + 2,
            309171 + 2,
            478071 + 2,
            606866 + 2,
            838837 + 2,
            968056 + 2,
            1490375 + 2,
            1924105 + 2,
            1982818 + 2
        ]
    );
}

#[test]
fn fasttext_vocab_rejects_bad_parameters() {
    assert_eq!(
        FastTextVocab::new(words(&["a"]), 0, 3, 10).err(),
        Some(Error::InvalidNgramRange)
    );
    assert_eq!(
        FastTextVocab::new(words(&["a"]), 3, 2, 10).err(),
        Some(Error::InvalidNgramRange)
    );
    assert_eq!(
        FastTextVocab::new(words(&["a"]), 3, 6, 0).err(),
        Some(Error::InvalidBucketExponent)
    );
    assert_eq!(
        FastTextVocab::new(words(&["a"]), 3, 6, usize::MAX).err(),
        Some(Error::InvalidBucketExponent)
    );
}

#[test]
fn vocab_chunks_roundtrip() {
    let vocab = WordVocab::new(words(&["one", "größe", ""]));
    let mut buf = vec![0u8; 5];
    vocab.write_chunk(&mut buf);
    assert_eq!(&buf[5..9], &[1, 0, 0, 0]);
    let declared = u64::from_le_bytes(buf[9..17].try_into().unwrap());
    assert_eq!(declared as usize, buf.len() - 17);
    assert_eq!(declared, 8 + (4 + 3) + (4 + 7) + 4);
    let (read, next) = WordVocab::read_chunk(&buf, 5).unwrap();
    assert_eq!(read.words(), vocab.words());
    assert_eq!(next, buf.len());

    let vocab = SubwordVocab::new(words(&["one", "two"]), 3, 6, 21).unwrap();
    let mut buf = Vec::new();
    vocab.write_chunk(&mut buf);
    assert_eq!(&buf[..4], &[3, 0, 0, 0]);
    let declared = u64::from_le_bytes(buf[4..12].try_into().unwrap());
    assert_eq!(declared as usize, buf.len() - 12);
    let (read, next) = SubwordVocab::read_chunk(&buf, 0).unwrap();
    assert_eq!(read.words(), vocab.words());
    assert_eq!((read.min_n(), read.max_n(), read.buckets_exp()), (3, 6, 21));
    assert_eq!(next, buf.len());
    assert_eq!(read.word_indices("three"), vocab.word_indices("three"));
}

#[test]
fn vocab_chunks_reject_bad_data() {
    let vocab = WordVocab::new(words(&["one", "two"]));
    let mut buf = Vec::new();
    vocab.write_chunk(&mut buf);
    assert_eq!(
        WordVocab::read_chunk(&buf[..buf.len() - 1], 0).err(),
        Some(Error::TruncatedData)
    );
    let mut bad_text = buf.clone();
    bad_text[24] = 0xff;
    assert_eq!(WordVocab::read_chunk(&bad_text, 0).err(), Some(Error::InvalidUtf8));
    let mut too_many = buf.clone();
    too_many[12] = 3;
    assert_eq!(WordVocab::read_chunk(&too_many, 0).err(), Some(Error::TruncatedData));
    assert_eq!(
        SubwordVocab::read_chunk(&buf, 0).err(),
        Some(Error::ChunkIdentifierMismatch { expected: 3, found: 1 })
    );

    let vocab = SubwordVocab::new(words(&["one"]), 3, 6, 21).unwrap();
    let mut buf = Vec::new();
    vocab.write_chunk(&mut buf);
    let mut bad_range = buf.clone();
    bad_range[20] = 0;
    assert_eq!(
        SubwordVocab::read_chunk(&bad_range, 0).err(),
        Some(Error::InvalidNgramRange)
    );
    let mut bad_exponent = buf.clone();
    bad_exponent[28] = 65;
    assert_eq!(
        SubwordVocab::read_chunk(&bad_exponent, 0).err(),
        Some(Error::InvalidBucketExponent)
    );
}

#[test]
fn vocab_wrap_dispatches() {
    let simple = VocabWrap::Word(WordVocab::new(words(&["a", "b"])));
    assert_eq!(simple.word_indices("b"), Some(Indices::SingleIndex(1)));
    assert_eq!(simple.word_indices("c"), None);
    assert_eq!(simple.total_rows(), 2);
    let subword = VocabWrap::Subword(SubwordVocab::new(words(&["a", "b"]), 1, 2, 3).unwrap());
    assert_eq!(subword.word_indices("b"), Some(Indices::SingleIndex(1)));
    assert_eq!(subword.total_rows(), 10);
    assert_eq!(subword.len(), 2);
    match subword.word_indices("c") {
        Some(Indices::MultiIndex(rows)) => {
            // "<c>": three n-grams of one character and two of two.
            assert_eq!(rows.len(), 5);
            assert!(rows.iter().all(|row| (2..10).contains(row)));
        }
        other => panic!("unexpected indices: {:?}", other),
    }
}
