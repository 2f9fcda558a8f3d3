use rust2vec::error::Error;
use rust2vec::format::EmbeddingFormat;
use rust2vec::le::{get_u32, get_u32s, get_u64, get_u8, put_u32, put_u32s, put_u64};
use rust2vec::util::{padding, read_string, str_eq};

#[test]
fn padding_is_never_zero_and_aligns() {
    for pos in 0..64u64 {
        let pad4 = padding::<f32>(pos);
        assert!((1..=4).contains(&pad4));
        assert_eq!((pos + pad4) % 4, 0);
        let pad8 = padding::<f64>(pos);
        assert!((1..=8).contains(&pad8));
        assert_eq!((pos + pad8) % 8, 0);
    }
}

#[test]
fn padding_exact_values() {
    assert_eq!(padding::<f32>(0), 4);
    assert_eq!(padding::<f32>(1), 3);
    assert_eq!(padding::<f32>(2), 2);
    assert_eq!(padding::<f32>(3), 1);
    assert_eq!(padding::<f32>(4), 4);
    assert_eq!(padding::<u64>(13), 3);
    assert_eq!(padding::<u64>(16), 8);
    assert_eq!(padding::<u8>(7), 1);
    assert_eq!(padding::<f32>(u64::MAX), 1);
}

#[test]
fn read_string_stops_at_delimiter() {
    let bytes = b"hello world\n";
    assert_eq!(read_string(bytes, 0, b' '), Ok(("hello".to_string(), 6)));
    assert_eq!(read_string(bytes, 6, b'\n'), Ok(("world".to_string(), 12)));
    assert_eq!(read_string(bytes, 5, b' '), Ok((String::new(), 6)));
}

#[test]
fn read_string_errors() {
    assert_eq!(read_string(b"hello", 0, b' '), Err(Error::TruncatedData));
    assert_eq!(read_string(b"hello ", 6, b' '), Err(Error::TruncatedData));
    assert_eq!(read_string(b"hello ", 7, b' '), Err(Error::TruncatedData));
    assert_eq!(read_string(&[0xff, 0xfe, b' '], 0, b' '), Err(Error::InvalidUtf8));
    assert_eq!(read_string("größe\0".as_bytes(), 0, 0), Ok(("größe".to_string(), 8)));
}

#[test]
fn str_eq_compares_text() {
    assert!(str_eq("", ""));
    assert!(str_eq("größe", "größe"));
    assert!(!str_eq("a", "b"));
    assert!(!str_eq("a", "ab"));
    assert!(!str_eq("ab", "a"));
}

#[test]
fn little_endian_fields() {
    let mut buf = Vec::new();
    put_u32(&mut buf, 0x0403_0201);
    put_u64(&mut buf, 0x0c0b_0a09_0807_0605);
    put_u32s(&mut buf, &[1, 0xffff_ffff]);
    assert_eq!(
        buf,
        vec![1, 2, 3, 4, 5, 6, 7, 8, 9, 10, 11, 12, 1, 0, 0, 0, 0xff, 0xff, 0xff, 0xff]
    );
    assert_eq!(get_u8(&buf, 3), Ok((4, 4)));
    assert_eq!(get_u32(&buf, 0), Ok((0x0403_0201, 4)));
    assert_eq!(get_u32(&buf, 1), Ok((0x0504_0302, 5)));
    assert_eq!(get_u64(&buf, 4), Ok((0x0c0b_0a09_0807_0605, 12)));
    assert_eq!(get_u32s(&buf, 12, 2), Ok((vec![1, 0xffff_ffff], 20)));
    assert_eq!(get_u32s(&buf, 12, 0), Ok((vec![], 12)));
    assert_eq!(get_u32s(&buf, 12, 3), Err(Error::TruncatedData));
    assert_eq!(get_u32(&buf, 17), Err(Error::TruncatedData));
    assert_eq!(get_u64(&buf, 13), Err(Error::TruncatedData));
    assert_eq!(get_u8(&buf, 20), Err(Error::TruncatedData));
    assert_eq!(get_u32(&buf, usize::MAX), Err(Error::TruncatedData));
}

#[test]
fn embedding_format_names() {
    assert_eq!(EmbeddingFormat::try_from("rust2vec"), Ok(EmbeddingFormat::Rust2Vec));
    assert_eq!(
        EmbeddingFormat::try_from("rust2vec_mmap"),
        Ok(EmbeddingFormat::Rust2VecMmap)
    );
    assert_eq!(EmbeddingFormat::try_from("word2vec"), Ok(EmbeddingFormat::Word2Vec));
    assert_eq!(EmbeddingFormat::try_from("text"), Ok(EmbeddingFormat::Text));
    assert_eq!(EmbeddingFormat::try_from("textdims"), Ok(EmbeddingFormat::TextDims));
    assert_eq!(EmbeddingFormat::try_from("Text"), Err(Error::UnknownFormat));
    assert_eq!(EmbeddingFormat::try_from(""), Err(Error::UnknownFormat));
    assert_eq!(EmbeddingFormat::try_from("fasttext"), Err(Error::UnknownFormat));
}
