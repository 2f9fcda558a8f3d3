use rust2vec::error::Error;
use rust2vec::fasttext::subword::{fasttext_hash, push_utf8};
use rust2vec::fasttext::{
    compute_subwords, read_fasttext_binary, Args, Dictionary, Entry, EntryType, Loss, Matrix,
    Model,
};

fn args_bytes(min_n: u32, max_n: u32, bucket: u32) -> Vec<u8> {
    let mut bytes = Vec::new();
    for field in [100u32, 5, 10, 1, 5, 1, 2, 1, bucket, min_n, max_n, 100] {
        bytes.extend_from_slice(&field.to_le_bytes());
    }
    bytes.extend_from_slice(&1e-4f64.to_le_bytes());
    bytes
}

fn entry_bytes(word: &str, count: u64, entry_type: u8) -> Vec<u8> {
    let mut bytes = word.as_bytes().to_vec();
    bytes.push(0);
    bytes.extend_from_slice(&count.to_le_bytes());
    bytes.push(entry_type);
    bytes
}

fn dictionary_bytes(entries: &[(&str, u64, u8)], prune_idx_size: i64) -> Vec<u8> {
    let mut bytes = Vec::new();
    bytes.extend_from_slice(&(entries.len() as u32).to_le_bytes());
    bytes.extend_from_slice(&(entries.len() as u32).to_le_bytes());
    bytes.extend_from_slice(&0u32.to_le_bytes());
    bytes.extend_from_slice(&1000u64.to_le_bytes());
    bytes.extend_from_slice(&prune_idx_size.to_le_bytes());
    for (word, count, entry_type) in entries {
        bytes.extend_from_slice(&entry_bytes(word, *count, *entry_type));
    }
    bytes
}

fn matrix_bytes(m: u64, n: u64, data: &[f32]) -> Vec<u8> {
    let mut bytes = Vec::new();
    bytes.extend_from_slice(&m.to_le_bytes());
    bytes.extend_from_slice(&n.to_le_bytes());
    for v in data {
        bytes.extend_from_slice(&v.to_le_bytes());
    }
    bytes
}

fn model_bytes(version: u32, quant: u8, qout: u8) -> Vec<u8> {
    let mut bytes = Vec::new();
    bytes.extend_from_slice(&793712314u32.to_le_bytes());
    bytes.extend_from_slice(&version.to_le_bytes());
    bytes.extend_from_slice(&args_bytes(3, 6, 2_000_000));
    bytes.extend_from_slice(&dictionary_bytes(&[("</s>", 7, 0), ("groß", 3, 0)], -1));
    bytes.push(quant);
    bytes.extend_from_slice(&matrix_bytes(2, 2, &[1.0, 2.0, 3.0, 4.0]));
    bytes.push(qout);
    bytes
}

#[test]
fn model_and_loss_and_entry_type() {
    assert_eq!(Model::read_binary(&[1, 0, 0, 0], 0), Ok((Model::CBOW, 4)));
    assert_eq!(Model::read_binary(&[9, 2, 0, 0, 0], 1), Ok((Model::SkipGram, 5)));
    assert_eq!(Model::read_binary(&[3, 0, 0, 0], 0), Ok((Model::Supervised, 4)));
    assert_eq!(Model::read_binary(&[0, 0, 0, 0], 0), Err(Error::MalformedHeader));
    assert_eq!(Model::read_binary(&[4, 0, 0, 0], 0), Err(Error::MalformedHeader));
    assert_eq!(Model::read_binary(&[1, 0, 0], 0), Err(Error::TruncatedData));

    assert_eq!(Loss::read_binary(&[1, 0, 0, 0], 0), Ok((Loss::HierarchicalSoftmax, 4)));
    assert_eq!(Loss::read_binary(&[2, 0, 0, 0], 0), Ok((Loss::NegativeSampling, 4)));
    assert_eq!(Loss::read_binary(&[3, 0, 0, 0], 0), Ok((Loss::Softmax, 4)));
    assert_eq!(Loss::read_binary(&[1, 1, 0, 0], 0), Err(Error::MalformedHeader));
    assert_eq!(Loss::read_binary(&[], 0), Err(Error::TruncatedData));

    assert_eq!(EntryType::read_binary(&[0], 0), Ok((EntryType::Word, 1)));
    assert_eq!(EntryType::read_binary(&[0, 1], 1), Ok((EntryType::Label, 2)));
    assert_eq!(EntryType::read_binary(&[2], 0), Err(Error::MalformedHeader));
    assert_eq!(EntryType::read_binary(&[2], 1), Err(Error::TruncatedData));
}

#[test]
fn args_are_read_field_by_field() {
    let bytes = args_bytes(3, 6, 2_000_000);
    assert_eq!(bytes.len(), 56);
    let (args, next) = Args::read_binary(&bytes, 0).unwrap();
    assert_eq!(next, 56);
    assert_eq!(
        args,
        Args {
            dims: 100,
            window_size: 5,
            epoch: 10,
            min_count: 1,
            neg: 5,
            word_ngrams: 1,
            loss: Loss::NegativeSampling,
            model: Model::CBOW,
            bucket: 2_000_000,
            min_n: 3,
            max_n: 6,
            lr_update_rate: 100,
            sampling_threshold_bits: 1e-4f64.to_bits(),
        }
    );
    for len in 0..56 {
        assert_eq!(Args::read_binary(&bytes[..len], 0), Err(Error::TruncatedData));
    }
    let mut bad_loss = bytes.clone();
    bad_loss[24] = 0;
    assert_eq!(Args::read_binary(&bad_loss, 0), Err(Error::MalformedHeader));
    assert_eq!(Args::read_binary(&bad_loss[..30], 0), Err(Error::MalformedHeader));
    let mut bad_model = bytes.clone();
    bad_model[28] = 9;
    assert_eq!(Args::read_binary(&bad_model, 0), Err(Error::MalformedHeader));
}

#[test]
fn fasttext_hash_sign_extends_bytes() {
    let reference = |chars: &[char]| {
        let mut h: u32 = 2166136261;
        for ch in chars {
            let mut bytes = [0; 4];
            for byte in ch.encode_utf8(&mut bytes).bytes() {
                h ^= (byte as i8) as u32;
                h = h.wrapping_mul(16777619);
            }
        }
        h
    };
    for word in ["", "a", "<groß>", "ノドアカ", "\u{10348}x", "\u{7f}\u{80}\u{7ff}\u{800}\u{ffff}"] {
        let chars: Vec<char> = word.chars().collect();
        assert_eq!(fasttext_hash(&chars), reference(&chars), "{:?}", word);
    }
    assert_eq!(fasttext_hash(&[]), 2166136261);
    assert_eq!(fasttext_hash(&['a']), (2166136261u32 ^ 0x61).wrapping_mul(16777619));
}

#[test]
fn utf8_encoding_of_characters() {
    for c in ['\0', 'a', '\u{7f}', '\u{80}', 'ß', '\u{7ff}', '\u{800}', '平', '\u{ffff}', '\u{10000}', '\u{10ffff}']
    {
        let mut buf = vec![1u8];
        push_utf8(&mut buf, c);
        let mut expected = [0u8; 4];
        assert_eq!(&buf[1..], c.encode_utf8(&mut expected).as_bytes());
    }
}

#[test]
fn subwords_of_a_word() {
    let rows = compute_subwords("<groß>", 3, 6, 10, 2_000_000);
    let mut buckets: Vec<u32> = rows.iter().map(|row| row - 10).collect();
    buckets.sort_unstable();
    assert_eq!(
        buckets,
        vec![112809, 205234, 309171, 478071, 606866, 838837, 968056, 1490375, 1924105, 1982818]
    );
    assert_eq!(compute_subwords("ab", 3, 6, 10, 5), Vec::<u32>::new());
    assert_eq!(compute_subwords("abc", 3, 3, 4, 1), vec![4]);
}

#[test]
fn dictionary_is_read_with_subwords() {
    let (args, _) = Args::read_binary(&args_bytes(3, 6, 2_000_000), 0).unwrap();
    let bytes = dictionary_bytes(&[("</s>", 7, 0), ("groß", 3, 0), ("__label__x", 1, 1)], -1);
    let (dict, next) = Dictionary::read_binary(args, &bytes, 0).unwrap();
    assert_eq!(next, bytes.len());
    assert_eq!(dict.args, args);
    assert_eq!(dict.words.len(), 3);
    let eos: &Entry = &dict.words[0];
    assert_eq!(eos.word, "</s>");
    assert_eq!(eos.count, 7);
    assert_eq!(eos.entry_type, EntryType::Word);
    assert!(eos.subwords.is_empty());
    assert_eq!(dict.words[1].word, "groß");
    assert_eq!(dict.words[1].subwords, compute_subwords("<groß>", 3, 6, 3, 2_000_000));
    assert_eq!(dict.words[1].subwords.len(), 10);
    assert_eq!(dict.words[2].entry_type, EntryType::Label);
    assert_eq!(
        dict.words[2].subwords,
        compute_subwords("<__label__x>", 3, 6, 3, 2_000_000)
    );
}

#[test]
fn dictionary_errors() {
    let (args, _) = Args::read_binary(&args_bytes(3, 6, 2_000_000), 0).unwrap();
    let bytes = dictionary_bytes(&[("a", 1, 0), ("b", 2, 0)], -1);
    for len in 0..bytes.len() {
        assert_eq!(
            Dictionary::read_binary(args, &bytes[..len], 0).err(),
            Some(Error::TruncatedData)
        );
    }
    let pruned = dictionary_bytes(&[("a", 1, 0)], 0);
    assert_eq!(
        Dictionary::read_binary(args, &pruned, 0).err(),
        Some(Error::UnsupportedFeature)
    );
    let pruned = dictionary_bytes(&[("a", 1, 0)], 12);
    assert_eq!(
        Dictionary::read_binary(args, &pruned, 0).err(),
        Some(Error::UnsupportedFeature)
    );
    let bad_type = dictionary_bytes(&[("a", 1, 2)], -1);
    assert_eq!(
        Dictionary::read_binary(args, &bad_type, 0).err(),
        Some(Error::MalformedHeader)
    );
    let mut bad_text = dictionary_bytes(&[("a", 1, 0)], -1);
    bad_text[28] = 0xff;
    assert_eq!(Dictionary::read_binary(args, &bad_text, 0).err(), Some(Error::InvalidUtf8));

    let (wide, _) = Args::read_binary(&args_bytes(3, 6, u32::MAX), 0).unwrap();
    let bytes = dictionary_bytes(&[("a", 1, 0), ("b", 2, 0)], -1);
    assert_eq!(
        Dictionary::read_binary(wide, &bytes, 0).err(),
        Some(Error::UnsupportedFeature)
    );
}

#[test]
fn matrix_is_read() {
    let bytes = matrix_bytes(2, 3, &[1.0, 2.0, 3.0, 4.0, 5.0, 6.0]);
    let (matrix, next) = Matrix::read_binary(&bytes, 0).unwrap();
    assert_eq!(next, bytes.len());
    let expected: Vec<u32> = [1.0f32, 2.0, 3.0, 4.0, 5.0, 6.0].iter().map(|v| v.to_bits()).collect();
    assert_eq!(matrix.data, expected);
    assert_eq!(
        Matrix::read_binary(&bytes[..bytes.len() - 1], 0).err(),
        Some(Error::TruncatedData)
    );
    assert_eq!(
        Matrix::read_binary(&matrix_bytes(u64::MAX, u64::MAX, &[]), 0).err(),
        Some(Error::TruncatedData)
    );
    assert_eq!(
        Matrix::read_binary(&matrix_bytes(1 << 62, 1, &[]), 0).err(),
        Some(Error::TruncatedData)
    );
    let (empty, _) = Matrix::read_binary(&matrix_bytes(0, 5, &[]), 0).unwrap();
    assert!(empty.data.is_empty());
}

#[test]
fn fasttext_model_is_read() {
    let bytes = model_bytes(12, 0, 0);
    let model = read_fasttext_binary(&bytes).unwrap();
    assert_eq!(model.args.min_n, 3);
    assert_eq!(model.args.bucket, 2_000_000);
    assert_eq!(model.dictionary.words.len(), 2);
    assert_eq!(model.dictionary.words[1].word, "groß");
    assert_eq!(model.dictionary.words[1].subwords.len(), 10);
    assert_eq!(model.matrix.data.len(), 4);
}

#[test]
fn fasttext_unsupported_features_are_reported() {
    assert_eq!(
        read_fasttext_binary(&model_bytes(12, 1, 0)).err(),
        Some(Error::UnsupportedFeature)
    );
    assert_eq!(
        read_fasttext_binary(&model_bytes(12, 0, 1)).err(),
        Some(Error::UnsupportedFeature)
    );
    assert_eq!(
        read_fasttext_binary(&model_bytes(13, 0, 0)).err(),
        Some(Error::UnsupportedFeature)
    );
    let mut wrong_magic = model_bytes(12, 0, 0);
    wrong_magic[0] ^= 1;
    assert_eq!(read_fasttext_binary(&wrong_magic).err(), Some(Error::MalformedHeader));
    let bytes = model_bytes(12, 0, 0);
    for len in 0..bytes.len() {
        assert_eq!(
            read_fasttext_binary(&bytes[..len]).err(),
            Some(Error::TruncatedData),
            "cut at {}",
            len
        );
    }

    let mut no_ngrams = Vec::new();
    no_ngrams.extend_from_slice(&793712314u32.to_le_bytes());
    no_ngrams.extend_from_slice(&12u32.to_le_bytes());
    no_ngrams.extend_from_slice(&args_bytes(0, 0, 2_000_000));
    assert_eq!(read_fasttext_binary(&no_ngrams).err(), Some(Error::InvalidNgramRange));
    let mut reversed = Vec::new();
    reversed.extend_from_slice(&793712314u32.to_le_bytes());
    reversed.extend_from_slice(&12u32.to_le_bytes());
    reversed.extend_from_slice(&args_bytes(6, 3, 2_000_000));
    assert_eq!(read_fasttext_binary(&reversed).err(), Some(Error::InvalidNgramRange));
    let mut no_buckets = Vec::new();
    no_buckets.extend_from_slice(&793712314u32.to_le_bytes());
    no_buckets.extend_from_slice(&12u32.to_le_bytes());
    no_buckets.extend_from_slice(&args_bytes(3, 6, 0));
    assert_eq!(read_fasttext_binary(&no_buckets).err(), Some(Error::UnsupportedFeature));
}
