use rust2vec::error::Error;
use rust2vec::io::ChunkIdentifier;
use rust2vec::metadata::Metadata;
use rust2vec::norms::Norms;

const N_NORMS: usize = 100;

fn test_norms() -> Norms {
    Norms::new((0..N_NORMS).map(|v| (v as f32).to_bits()).collect())
}

fn test_metadata() -> Metadata {
    let mut hyperparameters = toml::value::Table::new();
    hyperparameters.insert("dims".to_string(), toml::Value::Integer(300));
    hyperparameters.insert("ns".to_string(), toml::Value::Integer(5));
    let mut description = toml::value::Table::new();
    description.insert(
        "description".to_string(),
        toml::Value::String("Test model".to_string()),
    );
    description.insert("language".to_string(), toml::Value::String("de".to_string()));
    let mut document = toml::value::Table::new();
    document.insert(
        "hyperparameters".to_string(),
        toml::Value::Table(hyperparameters),
    );
    document.insert("description".to_string(), toml::Value::Table(description));
    Metadata(toml::Value::Table(document).to_string())
}

fn read_chunk_size(bytes: &[u8]) -> u64 {
    // Skip the identifier, return the chunk length.
    u64::from_le_bytes(bytes[4..12].try_into().unwrap())
}

#[test]
fn metadata_correct_chunk_size() {
    let check_metadata = test_metadata();
    let mut buf = Vec::new();
    check_metadata.write_chunk(&mut buf);

    let chunk_size = read_chunk_size(&buf);
    assert_eq!(buf[12..].len(), chunk_size as usize);
}

#[test]
fn metadata_write_read_roundtrip() {
    let check_metadata = test_metadata();
    let mut buf = Vec::new();
    check_metadata.write_chunk(&mut buf);
    let (metadata, next) = Metadata::read_chunk(&buf, 0).unwrap();
    assert_eq!(metadata, check_metadata);
    assert_eq!(next, buf.len());
    assert_eq!(
        metadata.0.parse::<toml::Value>().unwrap(),
        check_metadata.0.parse::<toml::Value>().unwrap()
    );
}

#[test]
fn norms_correct_chunk_size() {
    let check_norms = test_norms();
    let mut buf = Vec::new();
    check_norms.write_chunk(&mut buf);

    let chunk_size = read_chunk_size(&buf);
    assert_eq!(buf[12..].len(), chunk_size as usize);
}

#[test]
fn norms_write_read_roundtrip() {
    let check_norms = test_norms();
    let mut buf = Vec::new();
    check_norms.write_chunk(&mut buf);
    let (norms, next) = Norms::read_chunk(&buf, 0).unwrap();
    assert_eq!(norms, check_norms);
    assert_eq!(next, buf.len());
    assert_eq!(norms.len(), N_NORMS);
    let values: Vec<f32> = norms.to_vec().iter().map(|b| f32::from_bits(*b)).collect();
    assert_eq!(values[0], 0.0);
    assert_eq!(values[99], 99.0);
}

#[test]
fn norms_chunk_layout_is_pinned() {
    let norms = Norms::new(vec![1.0f32.to_bits(), 2.5f32.to_bits()]);
    let mut buf = Vec::new();
    norms.write_chunk(&mut buf);
    let expected: Vec<u8> = vec![
        6, 0, 0, 0, // identifier
        24, 0, 0, 0, 0, 0, 0, 0, // bytes that follow
        2, 0, 0, 0, 0, 0, 0, 0, // number of norms
        10, 0, 0, 0, // element type
        0, 0, 0, 0, // padding: the position was already aligned
        0x00, 0x00, 0x80, 0x3f, // 1.0
        0x00, 0x00, 0x20, 0x40, // 2.5
    ];
    assert_eq!(buf, expected);
}

#[test]
fn norms_roundtrip_at_every_alignment() {
    for lead in 0..9usize {
        let mut buf = vec![0xaau8; lead];
        let norms =
            Norms::new(vec![0.5f32.to_bits(), (-3.0f32).to_bits(), f32::MAX.to_bits()]);
        norms.write_chunk(&mut buf);
        let declared = read_chunk_size(&buf[lead..]);
        assert_eq!(buf.len() - lead - 12, declared as usize);
        let padding = declared as usize - 12 - 4 * 3;
        assert!((1..=4).contains(&padding));
        assert_eq!((lead + 24 + padding) % 4, 0);
        buf.extend_from_slice(&[1, 2, 3]);
        let (read, next) = Norms::read_chunk(&buf, lead).unwrap();
        assert_eq!(read, norms);
        assert_eq!(next, buf.len() - 3);
    }
}

#[test]
fn norms_read_rejects_bad_chunks() {
    let norms = Norms::new(vec![7, 8, 9]);
    let mut buf = Vec::new();
    norms.write_chunk(&mut buf);

    assert_eq!(Norms::read_chunk(&buf[..3], 0), Err(Error::TruncatedData));
    assert_eq!(Norms::read_chunk(&buf[..buf.len() - 1], 0), Err(Error::TruncatedData));
    assert_eq!(Norms::read_chunk(&buf, buf.len() + 1), Err(Error::TruncatedData));

    let mut unknown = buf.clone();
    unknown[0] = 99;
    assert_eq!(
        Norms::read_chunk(&unknown, 0),
        Err(Error::UnknownChunkIdentifier { found: 99 })
    );

    let mut other = buf.clone();
    other[0] = 5;
    assert_eq!(
        Norms::read_chunk(&other, 0),
        Err(Error::ChunkIdentifierMismatch { expected: 6, found: 5 })
    );

    let mut doubles = buf.clone();
    doubles[20] = 11;
    assert_eq!(
        Norms::read_chunk(&doubles, 0),
        Err(Error::UnsupportedTypeId { found: 11 })
    );

    let mut too_many = buf.clone();
    too_many[12] = 4;
    assert_eq!(Norms::read_chunk(&too_many, 0), Err(Error::TruncatedData));
}

#[test]
fn metadata_read_rejects_bad_chunks() {
    let metadata = Metadata("a = 1\n".to_string());
    let mut buf = Vec::new();
    metadata.write_chunk(&mut buf);
    assert_eq!(&buf[..12], &[5, 0, 0, 0, 6, 0, 0, 0, 0, 0, 0, 0]);
    assert_eq!(&buf[12..], b"a = 1\n");

    let mut not_text = buf.clone();
    not_text[12] = 0xff;
    assert_eq!(Metadata::read_chunk(&not_text, 0), Err(Error::InvalidUtf8));

    let mut norms_chunk = buf.clone();
    norms_chunk[0] = 6;
    assert_eq!(
        Metadata::read_chunk(&norms_chunk, 0),
        Err(Error::ChunkIdentifierMismatch { expected: 5, found: 6 })
    );
    assert_eq!(Metadata::read_chunk(&buf[..buf.len() - 1], 0), Err(Error::TruncatedData));
}

#[test]
fn metadata_roundtrip_keeps_any_text() {
    for text in ["", "x", "größe = \"ß\"\n", "[a]\nb = [1, 2, 3]\n"] {
        let metadata = Metadata(text.to_string());
        let mut buf = vec![1, 2, 3];
        metadata.write_chunk(&mut buf);
        let (read, next) = Metadata::read_chunk(&buf, 3).unwrap();
        assert_eq!(read.0, text);
        assert_eq!(next, buf.len());
    }
}

#[test]
fn chunks_know_their_identifier() {
    assert_eq!(test_norms().chunk_identifier(), ChunkIdentifier::Norms);
    assert_eq!(test_metadata().chunk_identifier(), ChunkIdentifier::Metadata);
    for id in 0..7u32 {
        assert_eq!(ChunkIdentifier::try_from(id).unwrap().to_u32(), id);
    }
    assert_eq!(ChunkIdentifier::try_from(7), None);
    assert_eq!(ChunkIdentifier::Metadata.to_u32(), 5);
    assert_eq!(ChunkIdentifier::Norms.to_u32(), 6);
}
