use rust2vec::embeddings::Embeddings;
use rust2vec::error::Error;
use rust2vec::metadata::Metadata;
use rust2vec::norms::Norms;
use rust2vec::storage::{DenseStorage, MappedStorage, StorageBackend};
use rust2vec::subword::SubwordIndices;
use rust2vec::vocab::{Indices, SubwordVocab, Vocab, WordVocab};

fn bits(values: &[f32]) -> Vec<u32> {
    values.iter().map(|v| v.to_bits()).collect()
}

fn floats(values: &[u32]) -> Vec<f32> {
    values.iter().map(|v| f32::from_bits(*v)).collect()
}

fn words(list: &[&str]) -> Vec<String> {
    list.iter().map(|w| w.to_string()).collect()
}

#[test]
fn dense_storage_checks_its_shape() {
    assert!(DenseStorage::new(2, 3, vec![0; 6]).is_ok());
    assert!(DenseStorage::new(0, 3, vec![]).is_ok());
    assert!(DenseStorage::new(3, 0, vec![]).is_ok());
    assert_eq!(DenseStorage::new(2, 3, vec![0; 5]).err(), Some(Error::ShapeMismatch));
    assert_eq!(DenseStorage::new(2, 3, vec![0; 7]).err(), Some(Error::ShapeMismatch));
    assert_eq!(
        DenseStorage::new(usize::MAX, 2, vec![0; 4]).err(),
        Some(Error::ShapeMismatch)
    );
    // No array has so many rows, even without elements.
    assert_eq!(
        DenseStorage::new(usize::MAX, 0, vec![]).err(),
        Some(Error::ShapeMismatch)
    );
    assert!(DenseStorage::new(isize::MAX as usize, 0, vec![]).is_ok());
}

#[test]
fn dense_storage_rows() {
    let mut storage = DenseStorage::new(3, 2, vec![1, 2, 3, 4, 5, 6]).unwrap();
    assert_eq!(storage.shape(), (3, 2));
    assert_eq!(storage.to_vec(), vec![1, 2, 3, 4, 5, 6]);
    assert_eq!(storage.row(0), &[1, 2]);
    assert_eq!(storage.row(2), &[5, 6]);
    storage.set_row(1, &[30, 40]);
    assert_eq!(storage.row(0), &[1, 2]);
    assert_eq!(storage.row(1), &[30, 40]);
    assert_eq!(storage.row(2), &[5, 6]);
}

#[test]
fn mapped_storage_validates_region() {
    let region: Vec<u8> = (0..24).collect();
    assert!(MappedStorage::new(&region, 28, 3, 2).is_ok());
    assert_eq!(
        MappedStorage::new(&region, 27, 3, 2).err(),
        Some(Error::MmapAlignmentViolation)
    );
    assert_eq!(
        MappedStorage::new(&region, 28, 3, 3).err(),
        Some(Error::MmapAlignmentViolation)
    );
    assert_eq!(
        MappedStorage::new(&region[..23], 28, 3, 2).err(),
        Some(Error::MmapAlignmentViolation)
    );
    assert_eq!(
        MappedStorage::new(&region, 28, usize::MAX, 2).err(),
        Some(Error::MmapAlignmentViolation)
    );
}

#[test]
fn mapped_storage_decodes_rows() {
    let region: Vec<u8> = vec![1, 0, 0, 0, 2, 0, 0, 0, 3, 0, 0, 0, 0, 0, 0x80, 0x3f];
    let storage = MappedStorage::new(&region, 0, 2, 2).unwrap();
    assert_eq!(storage.shape(), (2, 2));
    assert_eq!(storage.offset(), 0);
    assert_eq!(storage.row(0), vec![1, 2]);
    assert_eq!(storage.row(1), vec![3, 1.0f32.to_bits()]);
}

#[test]
fn mapped_storage_rejects_mutation() {
    let region: Vec<u8> = vec![0; 8];
    let mut mapped = StorageBackend::Mapped(MappedStorage::new(&region, 0, 1, 2).unwrap());
    assert!(!mapped.is_mutable());
    assert_eq!(mapped.set_row(0, &[1, 2]), Err(Error::MutationOnReadOnlyStorage));
    assert_eq!(mapped.row(0), vec![0, 0]);

    assert!(mapped.as_mutable().is_none());

    let mut dense = StorageBackend::Dense(DenseStorage::new(1, 2, vec![0, 0]).unwrap());
    assert!(dense.is_mutable());
    assert_eq!(dense.set_row(0, &[1, 2]), Ok(()));
    assert_eq!(dense.row(0), vec![1, 2]);
    dense.as_mutable().unwrap().set_row(0, &[3, 4]);
    assert_eq!(dense.row(0), vec![3, 4]);
}

#[test]
fn storage_chunk_roundtrip_dense_and_mapped() {
    let data = bits(&[1.0, -2.0, 0.5, 4.25, 0.0, 1e-20]);
    for lead in 0..8usize {
        let storage = StorageBackend::Dense(DenseStorage::new(3, 2, data.clone()).unwrap());
        let mut buf = vec![0x55u8; lead];
        storage.write_chunk(&mut buf);
        assert_eq!(&buf[lead..lead + 4], &[2, 0, 0, 0]);
        let declared = u64::from_le_bytes(buf[lead + 4..lead + 12].try_into().unwrap());
        assert_eq!(declared as usize, buf.len() - lead - 12);
        let padding = declared as usize - 16 - 24;
        assert!((1..=4).contains(&padding));
        buf.push(9);

        let (dense, next) = DenseStorage::read_chunk(&buf, lead).unwrap();
        assert_eq!(next, buf.len() - 1);
        assert_eq!(dense.shape(), (3, 2));
        assert_eq!(dense.row(1), &data[2..4]);

        let (mapped, next) = MappedStorage::read_chunk(&buf, lead).unwrap();
        assert_eq!(next, buf.len() - 1);
        assert_eq!(mapped.shape(), (3, 2));
        assert_eq!(mapped.offset() % 4, 0);
        assert_eq!(mapped.offset(), lead + 28 + padding);
        assert_eq!(mapped.byte_len(), 24);
        assert_eq!(&buf[mapped.offset()..mapped.offset() + 4], &1.0f32.to_le_bytes());
        for row in 0..3 {
            assert_eq!(mapped.row(row), dense.row(row));
        }

        // A mapped matrix is written as the same bytes.
        let mut again = vec![0x55u8; lead];
        StorageBackend::Mapped(mapped).write_chunk(&mut again);
        assert_eq!(&again[..], &buf[..buf.len() - 1]);
    }
}

#[test]
fn storage_chunk_rejects_bad_data() {
    let storage = StorageBackend::Dense(DenseStorage::new(2, 2, vec![1, 2, 3, 4]).unwrap());
    let mut buf = Vec::new();
    storage.write_chunk(&mut buf);
    assert_eq!(
        DenseStorage::read_chunk(&buf[..buf.len() - 1], 0).err(),
        Some(Error::TruncatedData)
    );
    let mut wrong_type = buf.clone();
    wrong_type[24] = 1;
    assert_eq!(
        DenseStorage::read_chunk(&wrong_type, 0).err(),
        Some(Error::UnsupportedTypeId { found: 1 })
    );
    let mut more_rows = buf.clone();
    more_rows[12] = 3;
    assert_eq!(
        MappedStorage::read_chunk(&more_rows, 0).err(),
        Some(Error::TruncatedData)
    );
    let mut norms = buf.clone();
    norms[0] = 6;
    assert_eq!(
        DenseStorage::read_chunk(&norms, 0).err(),
        Some(Error::ChunkIdentifierMismatch { expected: 2, found: 6 })
    );
}

#[test]
fn embeddings_check_rows_against_vocab() {
    let vocab = WordVocab::new(words(&["a", "b"]));
    let storage = StorageBackend::Dense(DenseStorage::new(3, 2, vec![0; 6]).unwrap());
    assert_eq!(Embeddings::new(vocab, storage).err(), Some(Error::ShapeMismatch));

    let vocab = SubwordVocab::new(words(&["a", "b"]), 3, 6, 2).unwrap();
    let storage = StorageBackend::Dense(DenseStorage::new(2, 2, vec![0; 4]).unwrap());
    assert_eq!(Embeddings::new(vocab, storage).err(), Some(Error::ShapeMismatch));

    let vocab = SubwordVocab::new(words(&["a", "b"]), 3, 6, 2).unwrap();
    let storage = StorageBackend::Dense(DenseStorage::new(6, 2, vec![0; 12]).unwrap());
    assert!(Embeddings::new(vocab, storage).is_ok());
}

#[test]
fn embeddings_accessors() {
    let vocab = WordVocab::new(words(&["a", "b", "c"]));
    let data = bits(&[1.0, 0.0, 0.9, 0.1, -1.0, 0.0]);
    let storage = StorageBackend::Dense(DenseStorage::new(3, 2, data.clone()).unwrap());
    let mut embeddings = Embeddings::new(vocab, storage).unwrap();
    assert_eq!(embeddings.len(), 3);
    assert_eq!(embeddings.embed_len(), 2);
    assert_eq!(embeddings.words(), &words(&["a", "b", "c"])[..]);
    assert_eq!(embeddings.data().shape(), (3, 2));
    assert_eq!(embeddings.get(1), ("b", data[2..4].to_vec()));
    assert_eq!(embeddings.word_indices("c"), Some(Indices::SingleIndex(2)));
    assert_eq!(embeddings.embedding_rows("b"), Some(vec![data[2..4].to_vec()]));
    assert_eq!(embeddings.embedding_rows("d"), None);
    assert!(embeddings.norms().is_none());
    assert!(embeddings.metadata().is_none());

    assert_eq!(
        embeddings.set_norms(Some(Norms::new(vec![1, 2]))),
        Err(Error::ShapeMismatch)
    );
    assert!(embeddings.norms().is_none());
    assert_eq!(embeddings.set_norms(Some(Norms::new(vec![1, 2, 3]))), Ok(()));
    assert_eq!(embeddings.norms(), Some(&Norms::new(vec![1, 2, 3])));
    assert_eq!(embeddings.norms().unwrap().to_vec(), vec![1, 2, 3]);
    embeddings.set_metadata(Some(Metadata("x = 1".to_string())));
    assert_eq!(embeddings.metadata(), Some(&Metadata("x = 1".to_string())));

    assert_eq!(embeddings.set_row(0, &[7, 8]), Ok(()));
    assert_eq!(embeddings.get(0), ("a", vec![7, 8]));
    assert_eq!(embeddings.get(1), ("b", data[2..4].to_vec()));
}

#[test]
fn subword_embedding_is_the_sum_of_the_pinned_rows() {
    // Two words and four buckets: six rows of two components. Row `r`
    // holds (r, 10 * r) so that a sum tells which rows went into it.
    let vocab = SubwordVocab::new(words(&["hello", "world"]), 3, 6, 2).unwrap();
    let data: Vec<f32> = (0..6).flat_map(|r| vec![r as f32, 10.0 * r as f32]).collect();
    let storage = StorageBackend::Dense(DenseStorage::new(6, 2, bits(&data)).unwrap());
    let embeddings = Embeddings::new(vocab, storage).unwrap();

    // A word of the vocabulary has its own row.
    assert_eq!(embeddings.embedding_rows("world"), Some(vec![bits(&[1.0, 10.0])]));

    // "hallo" is outside the vocabulary: its embedding is the sum of the
    // rows of the buckets of the subwords of "<hallo>".
    let pinned: Vec<(&str, u64)> = vec![
        ("<ha", 3),
        ("<hal", 0),
        ("<hall", 1),
        ("<hallo", 1),
        ("all", 3),
        ("allo", 3),
        ("allo>", 0),
        ("hal", 3),
        ("hall", 0),
        ("hallo", 2),
        ("hallo>", 3),
        ("llo", 1),
        ("llo>", 0),
        ("lo>", 3),
    ];
    let mut reference = "<hallo>".subword_indices(3, 6, 2);
    reference.sort();
    assert_eq!(reference, pinned);

    let rows = embeddings.embedding_rows("hallo").unwrap();
    assert_eq!(rows.len(), pinned.len());
    let mut sum = vec![0f32; 2];
    for row in &rows {
        for (s, v) in sum.iter_mut().zip(floats(row)) {
            *s += v;
        }
    }
    let mut expected = vec![0f32; 2];
    for (_, bucket) in &pinned {
        let row = *bucket as usize + 2;
        expected[0] += row as f32;
        expected[1] += 10.0 * row as f32;
    }
    assert_eq!(sum, expected);
    assert_eq!(sum, vec![51.0, 510.0]);
    match embeddings.vocab().word_indices("hallo") {
        Some(Indices::MultiIndex(indices)) => {
            let mut buckets: Vec<u64> = indices.iter().map(|row| *row as u64 - 2).collect();
            buckets.sort();
            let mut pinned_buckets: Vec<u64> = pinned.iter().map(|(_, b)| *b).collect();
            pinned_buckets.sort();
            assert_eq!(buckets, pinned_buckets);
        }
        other => panic!("unexpected indices: {:?}", other),
    }
}

#[test]
fn queries_for_unknown_words_fail_as_a_whole() {
    let vocab = WordVocab::new(words(&["a", "b", "c"]));
    let data = bits(&[1.0, 0.0, 0.9, 0.1, -1.0, 0.0]);
    let storage = StorageBackend::Dense(DenseStorage::new(3, 2, data.clone()).unwrap());
    let embeddings = Embeddings::new(vocab, storage).unwrap();
    assert_eq!(embeddings.query_rows("b"), Ok(vec![data[2..4].to_vec()]));
    assert_eq!(embeddings.query_rows("d"), Err(Error::WordNotFound));
    assert_eq!(
        embeddings.analogy_rows("a", "b", "c"),
        Ok((
            vec![data[0..2].to_vec()],
            vec![data[2..4].to_vec()],
            vec![data[4..6].to_vec()]
        ))
    );
    assert_eq!(embeddings.analogy_rows("x", "b", "c"), Err(Error::WordNotFound));
    assert_eq!(embeddings.analogy_rows("a", "x", "c"), Err(Error::WordNotFound));
    assert_eq!(embeddings.analogy_rows("a", "b", "x"), Err(Error::WordNotFound));

    // A vocabulary with subwords resolves every word.
    let vocab = SubwordVocab::new(words(&["a"]), 1, 2, 1).unwrap();
    let storage = StorageBackend::Dense(DenseStorage::new(3, 1, bits(&[1.0, 2.0, 4.0])).unwrap());
    let embeddings = Embeddings::new(vocab, storage).unwrap();
    assert!(embeddings.analogy_rows("a", "zzz", "").is_ok());
}
