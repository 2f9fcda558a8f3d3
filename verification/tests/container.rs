use rust2vec::container::{mmap_embeddings, read_embeddings, write_embeddings};
use rust2vec::embeddings::Embeddings;
use rust2vec::error::Error;
use rust2vec::metadata::Metadata;
use rust2vec::norms::Norms;
use rust2vec::storage::{DenseStorage, StorageBackend};
use rust2vec::vocab::{Indices, SubwordVocab, Vocab, VocabWrap, WordVocab};

fn bits(values: &[f32]) -> Vec<u32> {
    values.iter().map(|v| v.to_bits()).collect()
}

fn words(list: &[&str]) -> Vec<String> {
    list.iter().map(|w| w.to_string()).collect()
}

fn simple() -> Embeddings<'static, VocabWrap> {
    let vocab = VocabWrap::Word(WordVocab::new(words(&["one", "two", "three"])));
    let data = bits(&[1.0, 2.0, 3.0, 4.0, 5.0, 6.0]);
    let storage = StorageBackend::Dense(DenseStorage::new(3, 2, data).unwrap());
    Embeddings::new(vocab, storage).unwrap()
}

fn full() -> Embeddings<'static, VocabWrap> {
    let vocab = VocabWrap::Subword(SubwordVocab::new(words(&["größe", "x"]), 2, 3, 1).unwrap());
    let data: Vec<u32> = (0..12).map(|i| (i as f32 * 0.25).to_bits()).collect();
    let storage = StorageBackend::Dense(DenseStorage::new(4, 3, data).unwrap());
    let mut embeddings = Embeddings::new(vocab, storage).unwrap();
    embeddings.set_metadata(Some(Metadata("[model]\ndims = 3\n".to_string())));
    embeddings
        .set_norms(Some(Norms::new(bits(&[1.0, 2.0, 3.0, 4.0]))))
        .unwrap();
    embeddings
}

fn assert_same(read: &Embeddings<VocabWrap>, written: &Embeddings<VocabWrap>) {
    assert_eq!(read.words(), written.words());
    assert_eq!(read.len(), written.len());
    assert_eq!(read.embed_len(), written.embed_len());
    assert_eq!(read.data().shape(), written.data().shape());
    for row in 0..written.data().shape().0 {
        assert_eq!(read.data().row(row), written.data().row(row));
    }
    assert_eq!(read.norms(), written.norms());
    assert_eq!(read.metadata(), written.metadata());
    assert_eq!(read.vocab().total_rows(), written.vocab().total_rows());
    for word in ["one", "x", "größe", "unknown", ""] {
        assert_eq!(read.word_indices(word), written.word_indices(word));
    }
}

#[test]
fn container_layout_is_pinned() {
    let buf = write_embeddings(&simple());
    let expected_front: Vec<u8> = vec![
        b'F', b'i', b'F', b'u', // magic
        0, 0, 0, 0, // version
        0, 0, 0, 0, // header chunk
        12, 0, 0, 0, 0, 0, 0, 0, // its length
        2, 0, 0, 0, // two chunks
        1, 0, 0, 0, // a vocabulary of words
        2, 0, 0, 0, // a matrix
        1, 0, 0, 0, // the chunk of the vocabulary
        31, 0, 0, 0, 0, 0, 0, 0, // its length
        3, 0, 0, 0, 0, 0, 0, 0, // three words
        3, 0, 0, 0, b'o', b'n', b'e', //
        3, 0, 0, 0, b't', b'w', b'o', //
        5, 0, 0, 0, b't', b'h', b'r', b'e', b'e',
    ];
    assert_eq!(&buf[..expected_front.len()], &expected_front[..]);
    let at = expected_front.len();
    assert_eq!(at, 75);
    // The matrix: identifier, length, shape, type, padding to a multiple
    // of four, elements.
    assert_eq!(&buf[at..at + 4], &[2, 0, 0, 0]);
    let padding = 4 - (at + 4) % 4;
    assert_eq!(padding, 1);
    let declared = u64::from_le_bytes(buf[at + 4..at + 12].try_into().unwrap());
    assert_eq!(declared as usize, 12 + 4 + padding + 24);
    assert_eq!(&buf[at + 12..at + 20], &[3, 0, 0, 0, 0, 0, 0, 0]);
    assert_eq!(&buf[at + 20..at + 24], &[2, 0, 0, 0]);
    assert_eq!(&buf[at + 24..at + 28], &[10, 0, 0, 0]);
    assert_eq!((at + 28 + padding) % 4, 0);
    assert_eq!(&buf[at + 28 + padding..at + 32 + padding], &1.0f32.to_le_bytes());
    assert_eq!(buf.len(), at + 12 + declared as usize);
}

#[test]
fn container_roundtrip() {
    for written in [simple(), full()] {
        let buf = write_embeddings(&written);
        let read = read_embeddings(&buf).unwrap();
        assert!(read.data().is_mutable());
        assert_same(&read, &written);
        assert_eq!(write_embeddings(&read), buf);

        let mapped = mmap_embeddings(&buf).unwrap();
        assert!(!mapped.data().is_mutable());
        assert_same(&mapped, &written);
        assert_eq!(write_embeddings(&mapped), buf);
        match mapped.data() {
            StorageBackend::Mapped(storage) => assert_eq!(storage.offset() % 4, 0),
            StorageBackend::Dense(_) => panic!("the matrix was copied"),
        }
    }
}

#[test]
fn container_with_subwords_resolves_unknown_words() {
    let buf = write_embeddings(&full());
    let read = read_embeddings(&buf).unwrap();
    assert_eq!(read.word_indices("x"), Some(Indices::SingleIndex(1)));
    match read.word_indices("y") {
        Some(Indices::MultiIndex(rows)) => {
            // "<y>": two n-grams of two characters and one of three.
            assert_eq!(rows.len(), 3);
            assert!(rows.iter().all(|row| *row == 2 || *row == 3));
        }
        other => panic!("unexpected indices: {:?}", other),
    }
}

#[test]
fn container_read_errors() {
    let buf = write_embeddings(&full());
    for len in 0..buf.len() {
        assert_eq!(
            read_embeddings(&buf[..len]).err(),
            Some(Error::TruncatedData),
            "cut at {}",
            len
        );
        assert_eq!(mmap_embeddings(&buf[..len]).err(), Some(Error::TruncatedData));
    }

    let mut bad_magic = buf.clone();
    bad_magic[0] = b'f';
    assert_eq!(read_embeddings(&bad_magic).err(), Some(Error::MalformedHeader));

    let mut bad_version = buf.clone();
    bad_version[4] = 1;
    assert_eq!(read_embeddings(&bad_version).err(), Some(Error::UnsupportedFeature));

    let mut not_header = buf.clone();
    not_header[8] = 5;
    assert_eq!(
        read_embeddings(&not_header).err(),
        Some(Error::ChunkIdentifierMismatch { expected: 0, found: 5 })
    );

    // The list of the header: metadata, vocabulary, matrix, norms.
    assert_eq!(&buf[24..40], &[5, 0, 0, 0, 3, 0, 0, 0, 2, 0, 0, 0, 6, 0, 0, 0]);
    let mut unknown = buf.clone();
    unknown[28] = 77;
    assert_eq!(
        read_embeddings(&unknown).err(),
        Some(Error::UnknownChunkIdentifier { found: 77 })
    );
    let mut no_vocab = buf.clone();
    no_vocab[28] = 2;
    assert_eq!(
        read_embeddings(&no_vocab).err(),
        Some(Error::ChunkIdentifierMismatch { expected: 1, found: 2 })
    );
    let mut quantized = buf.clone();
    quantized[32] = 4;
    assert_eq!(read_embeddings(&quantized).err(), Some(Error::UnsupportedFeature));
    assert_eq!(mmap_embeddings(&quantized).err(), Some(Error::UnsupportedFeature));
    let mut no_matrix = buf.clone();
    no_matrix[32] = 6;
    assert_eq!(
        read_embeddings(&no_matrix).err(),
        Some(Error::ChunkIdentifierMismatch { expected: 2, found: 6 })
    );
    let mut no_norms = buf.clone();
    no_norms[36] = 5;
    assert_eq!(
        read_embeddings(&no_norms).err(),
        Some(Error::ChunkIdentifierMismatch { expected: 6, found: 5 })
    );
}

#[test]
fn container_rejects_mismatched_rows() {
    // A vocabulary of three words, and a matrix that claims two rows.
    let mut buf = write_embeddings(&simple());
    assert_eq!(&buf[75 + 12..75 + 20], &[3, 0, 0, 0, 0, 0, 0, 0]);
    buf[75 + 12] = 2;
    assert_eq!(read_embeddings(&buf).err(), Some(Error::ShapeMismatch));
    assert_eq!(mmap_embeddings(&buf).err(), Some(Error::ShapeMismatch));

    // Norms for three of four rows.
    let mut buf = write_embeddings(&full());
    let at = buf.len() - (12 + 8 + 4 + 4 + 16);
    assert_eq!(&buf[at..at + 4], &[6, 0, 0, 0]);
    assert_eq!(&buf[at + 12..at + 20], &[4, 0, 0, 0, 0, 0, 0, 0]);
    buf[at + 12] = 3;
    assert_eq!(read_embeddings(&buf).err(), Some(Error::ShapeMismatch));
}
