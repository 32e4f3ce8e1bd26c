use fastdl_desktop::config::CompressedFormat;
use fastdl_desktop::content::{compress_bytes, hex_string, sha256_hex};
use std::io::Read;

#[test]
fn sha256_digests_are_lowercase_hex() {
    assert_eq!(
        sha256_hex(b"abc"),
        "ba7816bf8f01cfea414140de5dae2223b00361a396177a9cb410ff61f20015ad"
    );
    assert_eq!(
        sha256_hex(b""),
        "e3b0c44298fc1c149afbf4c8996fb92427ae41e4649b934ca495991b7852b855"
    );
    assert_eq!(sha256_hex(b"bsp").len(), 64);
}

#[test]
fn hex_has_two_digits_per_byte() {
    assert_eq!(hex_string(&[0x00, 0xff, 0x1a, 0x09]), "00ff1a09");
    assert_eq!(hex_string(&[]), "");
}

#[test]
fn gzip_copies_decompress_to_the_original() {
    let data = b"maps/test.bsp contents".repeat(20);
    let copy = compress_bytes(&data, CompressedFormat::Gz).expect("gzip");
    assert_eq!(&copy[..2], &[0x1f, 0x8b]);
    assert_ne!(copy, data);
    let mut decoded = Vec::new();
    flate2::read::GzDecoder::new(copy.as_slice())
        .read_to_end(&mut decoded)
        .unwrap();
    assert_eq!(decoded, data);
    assert_eq!(compress_bytes(&data, CompressedFormat::Gz).unwrap(), copy);
}

#[test]
fn bzip2_copies_decompress_to_the_original() {
    let data = b"sound/test.wav".repeat(10);
    let copy = compress_bytes(&data, CompressedFormat::Bz2).expect("bzip2");
    assert_eq!(&copy[..3], b"BZh");
    let mut decoded = Vec::new();
    bzip2::read::BzDecoder::new(copy.as_slice())
        .read_to_end(&mut decoded)
        .unwrap();
    assert_eq!(decoded, data);
}
