//! The contents of installed files: SHA-256 digests written in lowercase
//! hexadecimal, and the gzip and bzip2 copies made for FastDL.
use vstd::prelude::*;
use crate::config::CompressedFormat;
use crate::text::push_char;

verus! {

/// The SHA-256 digest of some bytes, as the `sha2` crate computes it.
pub uninterp spec fn sha256_of(data: Seq<u8>) -> Seq<u8>;

/// The gzip stream that `flate2` writes for some bytes at the default level.
pub uninterp spec fn gzip_of(data: Seq<u8>) -> Seq<u8>;

/// The bzip2 stream that the `bzip2` crate writes for some bytes at the default level.
pub uninterp spec fn bzip2_of(data: Seq<u8>) -> Seq<u8>;

/// `Sha256::digest` of the `sha2` crate: the SHA-256 digest of `data`,
/// which is always 32 bytes long.
#[verifier::external_body]
fn sha256_digest(data: &[u8]) -> (r: Vec<u8>)
    ensures
        r@ == sha256_of(data@),
        r@.len() == 32,
{
    <sha2::Sha256 as sha2::Digest>::digest(data).to_vec()
}

/// `GzEncoder::new(Vec::new(), Compression::default())` of `flate2`, given
/// `data` and finished. The gzip header it writes has no time stamp and the
/// operating-system byte 255, so the stream depends on `data` alone. It
/// succeeds: writing into a `Vec` never fails, and the deflate stream reports
/// an error only when it is driven out of order (written to after it was
/// finished), which `write_all` followed by `finish` never does.
#[verifier::external_body]
fn gzip_bytes(data: &[u8]) -> (r: Result<Vec<u8>, String>)
    ensures
        r is Ok,
        r matches Ok(v) ==> v@ == gzip_of(data@),
{
    let mut encoder = flate2::write::GzEncoder::new(Vec::new(), flate2::Compression::default());
    match std::io::Write::write_all(&mut encoder, data) {
        Ok(()) => {},
        Err(error) => return Err(error.to_string()),
    }
    encoder.finish().map_err(|error| error.to_string())
}

/// `BzEncoder::new(Vec::new(), Compression::default())` of the `bzip2`
/// crate, given `data` and finished: the bzip2 stream of `data` at level 6.
/// It succeeds: the encoder's only errors come from writing its output, and
/// writing into a `Vec` never fails.
#[verifier::external_body]
fn bzip2_bytes(data: &[u8]) -> (r: Result<Vec<u8>, String>)
    ensures
        r is Ok,
        r matches Ok(v) ==> v@ == bzip2_of(data@),
{
    let mut encoder = bzip2::write::BzEncoder::new(Vec::new(), bzip2::Compression::default());
    match std::io::Write::write_all(&mut encoder, data) {
        Ok(()) => {},
        Err(error) => return Err(error.to_string()),
    }
    encoder.finish().map_err(|error| error.to_string())
}

/// The lowercase hexadecimal digit of a value below 16.
pub open spec fn hex_digit(v: nat) -> char {
    if v < 10 {
        ((48 + v) as u32) as char
    } else {
        ((87 + v) as u32) as char
    }
}

/// Bytes written as lowercase hexadecimal, two digits per byte (`{:x}`).
pub open spec fn hex_lower(bytes: Seq<u8>) -> Seq<char>
    decreases bytes.len(),
{
    if bytes.len() == 0 {
        Seq::<char>::empty()
    } else {
        hex_lower(bytes.drop_last()) + seq![
            hex_digit((bytes.last() / 16) as nat),
            hex_digit((bytes.last() % 16) as nat),
        ]
    }
}

pub proof fn lemma_hex_len(bytes: Seq<u8>)
    ensures
        hex_lower(bytes).len() == 2 * bytes.len(),
    decreases bytes.len(),
{
    if bytes.len() > 0 {
        lemma_hex_len(bytes.drop_last());
    }
}

fn hex_char(v: u8) -> (c: char)
    requires
        v < 16,
    ensures
        c == hex_digit(v as nat),
{
    if v < 10 {
        (48u8 + v) as char
    } else {
        (87u8 + v) as char
    }
}

/// Bytes in lowercase hexadecimal.
pub fn hex_string(bytes: &[u8]) -> (r: String)
    ensures
        r@ == hex_lower(bytes@),
        r@.len() == 2 * bytes@.len(),
{
    let mut r = String::new();
    let mut i: usize = 0;
    while i < bytes.len()
        invariant
            0 <= i <= bytes.len(),
            r@ == hex_lower(bytes@.take(i as int)),
        decreases bytes.len() - i,
    {
        let b = bytes[i];
        push_char(&mut r, hex_char(b / 16));
        push_char(&mut r, hex_char(b % 16));
        i = i + 1;
        assert(bytes@.take(i as int).drop_last() =~= bytes@.take(i - 1));
        assert(bytes@.take(i as int).last() == b);
    }
    assert(bytes@.take(bytes.len() as int) =~= bytes@);
    proof {
        lemma_hex_len(bytes@);
    }
    r
}

/// The SHA-256 digest of a file's bytes in lowercase hexadecimal: 64 digits.
pub fn sha256_hex(data: &[u8]) -> (r: String)
    ensures
        r@ == hex_lower(sha256_of(data@)),
        r@.len() == 64,
{
    let digest = sha256_digest(data);
    hex_string(digest.as_slice())
}

/// The stream a compressed copy holds.
pub open spec fn compressed_of(data: Seq<u8>, format: CompressedFormat) -> Seq<u8> {
    match format {
        CompressedFormat::Gz => gzip_of(data),
        CompressedFormat::Bz2 => bzip2_of(data),
    }
}

/// The bytes of a compressed copy of a file in the given format.
pub fn compress_bytes(data: &[u8], format: CompressedFormat) -> (r: Result<Vec<u8>, String>)
    ensures
        r matches Ok(v) && v@ == compressed_of(data@, format),
{
    match format {
        CompressedFormat::Gz => gzip_bytes(data),
        CompressedFormat::Bz2 => bzip2_bytes(data),
    }
}

} // verus!
