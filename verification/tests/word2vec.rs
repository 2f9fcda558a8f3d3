use rust2vec::embeddings::Embeddings;
use rust2vec::error::Error;
use rust2vec::storage::{DenseStorage, StorageBackend};
use rust2vec::vocab::{Indices, SubwordVocab, Vocab, WordVocab};
use rust2vec::word2vec::{
    decimal_value, put_decimal, read_number, read_records, read_word2vec_binary,
    write_word2vec_binary,
};

fn bits(values: &[f32]) -> Vec<u32> {
    values.iter().map(|v| v.to_bits()).collect()
}

fn words(list: &[&str]) -> Vec<String> {
    list.iter().map(|w| w.to_string()).collect()
}

fn sample_file() -> Vec<u8> {
    let mut file = b"2 3\n".to_vec();
    file.extend_from_slice(b"one ");
    for v in [1.0f32, 2.0, 3.0] {
        file.extend_from_slice(&v.to_le_bytes());
    }
    file.push(b'\n');
    file.extend_from_slice("zwö ".as_bytes());
    for v in [-1.0f32, 0.5, 0.0] {
        file.extend_from_slice(&v.to_le_bytes());
    }
    file.push(b'\n');
    file
}

#[test]
fn decimal_numbers() {
    assert_eq!(decimal_value(b"0"), Some(0));
    assert_eq!(decimal_value(b"007"), Some(7));
    assert_eq!(decimal_value(b"+42"), Some(42));
    assert_eq!(decimal_value(b"1234567890"), Some(1234567890));
    assert_eq!(
        decimal_value(usize::MAX.to_string().as_bytes()),
        Some(usize::MAX)
    );
    assert_eq!(decimal_value(b""), None);
    assert_eq!(decimal_value(b"+"), None);
    assert_eq!(decimal_value(b"-1"), None);
    assert_eq!(decimal_value(b"1 "), None);
    assert_eq!(decimal_value(b" 1"), None);
    assert_eq!(decimal_value(b"1a"), None);
    assert_eq!(decimal_value(b"++1"), None);
    assert_eq!(decimal_value(b"99999999999999999999999999"), None);
    let mut over = usize::MAX.to_string().into_bytes();
    let last = over.len() - 1;
    over[last] += 1;
    assert_eq!(decimal_value(&over), None);
    for text in ["0", "9", "10", "+5", "18446744073709551615", "18446744073709551616", "x", ""] {
        assert_eq!(decimal_value(text.as_bytes()), text.parse::<usize>().ok(), "{:?}", text);
    }
}

#[test]
fn decimal_numerals_are_written_as_read() {
    for n in [0usize, 1, 9, 10, 11, 99, 100, 101, 4096, 1234567890, usize::MAX] {
        let mut buf = vec![b'x'];
        put_decimal(&mut buf, n);
        assert_eq!(&buf[1..], n.to_string().as_bytes());
        assert_eq!(decimal_value(&buf[1..]), Some(n));
    }
}

#[test]
fn read_number_reports_malformed_headers() {
    assert_eq!(read_number(b"12 34\n", 0, b' '), Ok((12, 3)));
    assert_eq!(read_number(b"12 34\n", 3, b'\n'), Ok((34, 6)));
    assert_eq!(read_number(b"12 34", 3, b'\n'), Err(Error::TruncatedData));
    assert_eq!(read_number(b"1x 34\n", 0, b' '), Err(Error::MalformedHeader));
    assert_eq!(read_number(b" 34\n", 0, b' '), Err(Error::MalformedHeader));
    assert_eq!(read_number(&[0xff, b' '], 0, b' '), Err(Error::InvalidUtf8));
    assert_eq!(
        read_number(b"99999999999999999999999 ", 0, b' '),
        Err(Error::MalformedHeader)
    );
}

#[test]
fn word2vec_read() {
    let file = sample_file();
    let (raw, storage) = read_records(&file).unwrap();
    assert_eq!(raw, words(&["one", "\nzwö"]));
    assert_eq!(storage.shape(), (2, 3));

    let embeddings = read_word2vec_binary(&file).unwrap();
    assert_eq!(embeddings.words(), &words(&["one", "zwö"])[..]);
    assert_eq!(embeddings.len(), 2);
    assert_eq!(embeddings.embed_len(), 3);
    assert_eq!(embeddings.get(0), ("one", bits(&[1.0, 2.0, 3.0])));
    assert_eq!(embeddings.get(1), ("zwö", bits(&[-1.0, 0.5, 0.0])));
    assert_eq!(embeddings.word_indices("zwö"), Some(Indices::SingleIndex(1)));
    assert_eq!(embeddings.word_indices("\nzwö"), None);
}

#[test]
fn word2vec_read_errors() {
    let file = sample_file();
    assert_eq!(read_word2vec_binary(&file[..file.len() - 2]).err(), Some(Error::TruncatedData));
    assert_eq!(read_word2vec_binary(b"2 3").err(), Some(Error::TruncatedData));
    assert_eq!(read_word2vec_binary(b"").err(), Some(Error::TruncatedData));
    assert_eq!(read_word2vec_binary(b"two 3\n").err(), Some(Error::MalformedHeader));
    assert_eq!(read_word2vec_binary(b"2 three\n").err(), Some(Error::MalformedHeader));
    assert_eq!(read_word2vec_binary(b"1 1\nword").err(), Some(Error::TruncatedData));
    let mut bad = b"1 0\n".to_vec();
    bad.extend_from_slice(&[0xc3, b' ']);
    assert_eq!(read_word2vec_binary(&bad).err(), Some(Error::InvalidUtf8));
    let empty = read_word2vec_binary(b"0 5\n").unwrap();
    assert_eq!(empty.len(), 0);
    assert_eq!(empty.embed_len(), 5);
}

#[test]
fn word2vec_write_is_bit_exact() {
    let vocab = WordVocab::new(words(&["one", "zwö"]));
    let storage = StorageBackend::Dense(
        DenseStorage::new(2, 3, bits(&[1.0, 2.0, 3.0, -1.0, 0.5, 0.0])).unwrap(),
    );
    let embeddings = Embeddings::new(vocab, storage).unwrap();
    let mut buf = Vec::new();
    write_word2vec_binary(&embeddings, &mut buf);
    assert_eq!(buf, sample_file());

    let read = read_word2vec_binary(&buf).unwrap();
    assert_eq!(read.words(), embeddings.words());
    for i in 0..2 {
        assert_eq!(read.get(i), embeddings.get(i));
    }
}

#[test]
fn word2vec_write_leaves_out_subword_rows() {
    let vocab = SubwordVocab::new(words(&["a"]), 1, 1, 1).unwrap();
    assert_eq!(vocab.total_rows(), 3);
    let storage =
        StorageBackend::Dense(DenseStorage::new(3, 1, bits(&[1.0, 2.0, 3.0])).unwrap());
    let embeddings = Embeddings::new(vocab, storage).unwrap();
    let mut buf = Vec::new();
    write_word2vec_binary(&embeddings, &mut buf);
    let mut expected = b"1 1\na ".to_vec();
    expected.extend_from_slice(&1.0f32.to_le_bytes());
    expected.push(b'\n');
    assert_eq!(buf, expected);
}
