use grpc::codec::compression::{append_output, Deflate, Encoding, Gzip, Zstd};

#[test]
fn gzip_compress_decompress() {
    let compressor = Gzip::new();
    let data = b"hello world".to_vec();
    let mut compressed = Vec::new();
    compressor.compress(&data, &mut compressed).unwrap();
    let mut decompressed = Vec::new();
    compressor.decompress(&compressed, &mut decompressed).unwrap();
    assert_eq!(data, decompressed);
}

#[test]
fn deflate_compress_decompress() {
    let compressor = Deflate::new();
    let data = b"hello world".to_vec();
    let mut compressed = Vec::new();
    compressor.compress(&data, &mut compressed).unwrap();
    let mut decompressed = Vec::new();
    compressor.decompress(&compressed, &mut decompressed).unwrap();
    assert_eq!(data, decompressed);
}

#[test]
fn zstd_compress_decompress() {
    let compressor = Zstd::new();
    let data = b"hello world".to_vec();
    let mut compressed = Vec::new();
    compressor.compress(&data, &mut compressed).unwrap();
    let mut decompressed = Vec::new();
    compressor.decompress(&compressed, &mut decompressed).unwrap();
    assert_eq!(data, decompressed);
}

#[test]
fn compress_appends_and_changes_the_bytes() {
    let data = vec![b'a'; 1000];
    let mut out = vec![1u8, 2, 3];
    Gzip::new().compress(&data, &mut out).unwrap();
    assert_eq!(&out[..3], &[1, 2, 3]);
    assert_ne!(&out[3..], &data[..]);
    assert!(out.len() - 3 < data.len());
    let mut back = Vec::new();
    Gzip::new().decompress(&out[3..], &mut back).unwrap();
    assert_eq!(back, data);
}

#[test]
fn zstd_levels_round_trip() {
    let data = b"the quick brown fox jumps over the lazy dog".repeat(20);
    for level in [1, 3, 19] {
        let z = Zstd::with_level(level);
        let mut c = Vec::new();
        z.compress(&data, &mut c).unwrap();
        assert_ne!(c, data);
        let mut d = Vec::new();
        z.decompress(&c, &mut d).unwrap();
        assert_eq!(d, data);
    }
}

#[test]
fn decompress_garbage_fails_and_keeps_destination() {
    let mut out = vec![9u8];
    assert!(Gzip::new().decompress(b"not gzip at all", &mut out).is_err());
    assert!(out.starts_with(&[9u8]));
    let mut out = vec![9u8];
    assert!(Deflate::new().decompress(b"not zlib at all", &mut out).is_err());
    assert!(out.starts_with(&[9u8]));
    let mut out = vec![9u8];
    assert!(Zstd::new().decompress(b"not zstd at all", &mut out).is_err());
    assert!(out.starts_with(&[9u8]));
}

#[test]
fn decompress_truncated_input_fails() {
    let data = b"0123456789".repeat(200);
    let mut compressed = Vec::new();
    Gzip::new().compress(&data, &mut compressed).unwrap();
    compressed.truncate(compressed.len() - 4);
    let mut out = vec![7u8, 7];
    assert!(Gzip::new().decompress(&compressed, &mut out).is_err());
    assert!(out.starts_with(&[7u8, 7]));
    assert!(out.len() <= 2 + data.len());
}

#[test]
fn append_output_appends_even_on_failure() {
    let mut dest = vec![1u8];
    assert!(append_output(vec![2, 3], Ok(2), &mut dest).is_ok());
    assert_eq!(dest, vec![1, 2, 3]);
    let failure = std::io::Error::new(std::io::ErrorKind::InvalidData, "corrupt");
    assert!(append_output(vec![4], Err(failure), &mut dest).is_err());
    assert_eq!(dest, vec![1, 2, 3, 4]);
}

#[test]
fn compressing_empty_input_round_trips() {
    for level_codec in 0..2 {
        let mut c = Vec::new();
        let mut d = vec![5u8];
        if level_codec == 0 {
            Gzip::new().compress(&[], &mut c).unwrap();
            assert!(!c.is_empty());
            Gzip::new().decompress(&c, &mut d).unwrap();
        } else {
            Deflate::new().compress(&[], &mut c).unwrap();
            assert!(!c.is_empty());
            Deflate::new().decompress(&c, &mut d).unwrap();
        }
        assert_eq!(d, vec![5u8]);
    }
}

#[test]
fn encoding_names() {
    assert_eq!(Gzip::NAME, "gzip");
    assert_eq!(Deflate::NAME, "deflate");
    assert_eq!(Zstd::NAME, "zstd");
}

#[test]
fn deflate_changes_the_bytes() {
    let data = vec![b'z'; 500];
    let mut out = Vec::new();
    Deflate::new().compress(&data, &mut out).unwrap();
    assert_ne!(out, data);
    assert!(out.len() < data.len());
}

#[test]
fn zstd_default_level_is_three() {
    let data = b"some data to compress, some data to compress".to_vec();
    let mut a = Vec::new();
    let mut b = Vec::new();
    Zstd::new().compress(&data, &mut a).unwrap();
    Zstd::with_level(3).compress(&data, &mut b).unwrap();
    assert_eq!(a, b);
}

#[test]
fn zstd_truncated_input_fails() {
    let data = b"abcdefghij".repeat(100);
    let mut c = Vec::new();
    Zstd::new().compress(&data, &mut c).unwrap();
    c.truncate(c.len() / 2);
    let mut out = vec![4u8];
    assert!(Zstd::new().decompress(&c, &mut out).is_err());
    assert!(out.starts_with(&[4u8]));
}
