//! SFTP publishing: host-key fingerprints and trust, the choice of
//! authentication, remote path joining and the folders a transfer creates.
//! The SSH session itself runs outside this library.
use vstd::prelude::*;
use crate::config::SftpConfig;
use crate::text::{
    chars_find, chars_of, concat2, concat4, contains_seq, decimal, decimal_string, join_strings,
    join_with, last_index, last_index_of, lower, lower_chars, push_char, split_chars, split_on,
    string_of, strip_leading, strip_leading_chars, strip_trailing, strip_trailing_chars, substring,
    trim, trim_chars,
};

verus! {

/// The fingerprint of an SFTP server's host key.
#[derive(Debug)]
pub struct SftpHostFingerprint {
    pub host: String,
    pub port: u16,
    pub host_key_type: String,
    pub sha256: String,
}

/// Why an SFTP transfer could not be made.
#[derive(Debug)]
pub enum SftpError {
    MissingHost,
    MissingUsername,
    MissingRemoteRoot,
    MissingAuthentication,
    Connect(String),
    CreateSession,
    Handshake { message: String },
    MissingHostKey,
    MissingTrustedHost { host: String, port: u16, fingerprint: String },
    HostFingerprintChanged { host: String, port: u16, expected: String, actual: String },
    Auth(String),
    Sftp(String),
    Io(String),
}

impl SftpError {
    pub open spec fn text(&self) -> Seq<char> {
        match self {
            SftpError::MissingHost => "SFTP is enabled but host is missing"@,
            SftpError::MissingUsername => "SFTP is enabled but username is missing"@,
            SftpError::MissingRemoteRoot => "SFTP is enabled but remote FastDL root is missing"@,
            SftpError::MissingAuthentication => "SFTP is enabled but neither password nor private key authentication is configured"@,
            SftpError::Connect(e) => "could not connect to SFTP server: "@ + e@,
            SftpError::CreateSession => "could not create SSH session"@,
            SftpError::Handshake { message } => message@,
            SftpError::MissingHostKey => "SFTP host key is missing from the SSH session"@,
            SftpError::MissingTrustedHost { host, port, fingerprint } => "SFTP host is not trusted yet: "@ + host@ + ":"@
                + decimal(*port as nat) + " "@ + fingerprint@
                + ". Use Test SFTP to review and trust this host before publishing."@,
            SftpError::HostFingerprintChanged { host, port, expected, actual } => "SFTP host fingerprint changed for "@
                + host@ + ":"@ + decimal(*port as nat) + ". Expected "@ + expected@ + ", got "@ + actual@
                + ". This may indicate a server change or a man-in-the-middle attack."@,
            SftpError::Auth(e) => "SFTP authentication failed: "@ + e@,
            SftpError::Sftp(e) => "SFTP operation failed: "@ + e@,
            SftpError::Io(e) => "local file operation failed: "@ + e@,
        }
    }

    /// The text shown for this error.
    pub fn message(&self) -> (r: String)
        ensures
            r@ == self.text(),
    {
        match self {
            SftpError::MissingHost => String::from_str("SFTP is enabled but host is missing"),
            SftpError::MissingUsername => String::from_str("SFTP is enabled but username is missing"),
            SftpError::MissingRemoteRoot => String::from_str("SFTP is enabled but remote FastDL root is missing"),
            SftpError::MissingAuthentication => String::from_str(
                "SFTP is enabled but neither password nor private key authentication is configured",
            ),
            SftpError::Connect(e) => concat2("could not connect to SFTP server: ", e.as_str()),
            SftpError::CreateSession => String::from_str("could not create SSH session"),
            SftpError::Handshake { message } => message.clone(),
            SftpError::MissingHostKey => String::from_str("SFTP host key is missing from the SSH session"),
            SftpError::MissingTrustedHost { host, port, fingerprint } => {
                let p = decimal_string(*port as u64);
                let mut m = concat4("SFTP host is not trusted yet: ", host.as_str(), ":", p.as_str());
                m.append(" ");
                m.append(fingerprint.as_str());
                m.append(". Use Test SFTP to review and trust this host before publishing.");
                m
            },
            SftpError::HostFingerprintChanged { host, port, expected, actual } => {
                let p = decimal_string(*port as u64);
                let mut m = concat4("SFTP host fingerprint changed for ", host.as_str(), ":", p.as_str());
                m.append(". Expected ");
                m.append(expected.as_str());
                m.append(", got ");
                m.append(actual.as_str());
                m.append(". This may indicate a server change or a man-in-the-middle attack.");
                m
            },
            SftpError::Auth(e) => concat2("SFTP authentication failed: ", e.as_str()),
            SftpError::Sftp(e) => concat2("SFTP operation failed: ", e.as_str()),
            SftpError::Io(e) => concat2("local file operation failed: ", e.as_str()),
        }
    }
}

// ---------------------------------------------------------------------------
// Base64 without padding
// ---------------------------------------------------------------------------

/// The Base64 alphabet `A-Z a-z 0-9 + /`.
pub open spec fn b64_digit(v: u8) -> char {
    if v < 26 {
        ((65 + v) as u32) as char
    } else if v < 52 {
        ((97 + v - 26) as u32) as char
    } else if v < 62 {
        ((48 + v - 52) as u32) as char
    } else if v == 62 {
        '+'
    } else {
        '/'
    }
}

/// Standard Base64 of `bytes` with the trailing `=` padding left out.
pub open spec fn b64(bytes: Seq<u8>) -> Seq<char>
    decreases bytes.len(),
{
    if bytes.len() == 0 {
        Seq::<char>::empty()
    } else {
        let b0 = bytes[0];
        let b1 = if bytes.len() > 1 { bytes[1] } else { 0u8 };
        let b2 = if bytes.len() > 2 { bytes[2] } else { 0u8 };
        let c0 = b64_digit(b0 >> 2u8);
        let c1 = b64_digit(((b0 & 3u8) << 4u8) | (b1 >> 4u8));
        let c2 = b64_digit(((b1 & 15u8) << 2u8) | (b2 >> 6u8));
        let c3 = b64_digit(b2 & 63u8);
        if bytes.len() == 1 {
            seq![c0, c1]
        } else if bytes.len() == 2 {
            seq![c0, c1, c2]
        } else {
            seq![c0, c1, c2, c3] + b64(bytes.skip(3))
        }
    }
}

/// The length of unpadded Base64: four characters per three bytes, plus one
/// more than the leftover bytes.
pub open spec fn b64_len(n: nat) -> nat {
    4 * (n / 3) + if n % 3 == 0 {
        0
    } else {
        n % 3 + 1
    }
}

pub proof fn lemma_b64_len(bytes: Seq<u8>)
    ensures
        b64(bytes).len() == b64_len(bytes.len()),
    decreases bytes.len(),
{
    if bytes.len() > 2 {
        lemma_b64_len(bytes.skip(3));
    }
}

/// The Base64 alphabet of RFC 4648, the one OpenSSH shows fingerprints in.
pub open spec fn rfc4648_alphabet() -> Seq<char> {
    seq![
        'A', 'B', 'C', 'D', 'E', 'F', 'G', 'H', 'I', 'J', 'K', 'L', 'M', 'N', 'O', 'P',
        'Q', 'R', 'S', 'T', 'U', 'V', 'W', 'X', 'Y', 'Z', 'a', 'b', 'c', 'd', 'e', 'f',
        'g', 'h', 'i', 'j', 'k', 'l', 'm', 'n', 'o', 'p', 'q', 'r', 's', 't', 'u', 'v',
        'w', 'x', 'y', 'z', '0', '1', '2', '3', '4', '5', '6', '7', '8', '9', '+', '/',
    ]
}

/// The digits of a fingerprint are those of standard Base64: the digit of
/// every 6-bit value is the one the RFC 4648 alphabet gives it, so 62 is `+`
/// and 63 is `/`.
pub proof fn lemma_b64_alphabet(v: u8)
    requires
        v < 64,
    ensures
        b64_digit(v) == rfc4648_alphabet()[v as int],
{
    let t = rfc4648_alphabet();
    if v == 0 {
        vstd::utf8::char_u32_cast('A', 65u32);
        assert(t[0] == 'A');
    } else if v == 1 {
        vstd::utf8::char_u32_cast('B', 66u32);
        assert(t[1] == 'B');
    } else if v == 2 {
        vstd::utf8::char_u32_cast('C', 67u32);
        assert(t[2] == 'C');
    } else if v == 3 {
        vstd::utf8::char_u32_cast('D', 68u32);
        assert(t[3] == 'D');
    } else if v == 4 {
        vstd::utf8::char_u32_cast('E', 69u32);
        assert(t[4] == 'E');
    } else if v == 5 {
        vstd::utf8::char_u32_cast('F', 70u32);
        assert(t[5] == 'F');
    } else if v == 6 {
        vstd::utf8::char_u32_cast('G', 71u32);
        assert(t[6] == 'G');
    } else if v == 7 {
        vstd::utf8::char_u32_cast('H', 72u32);
        assert(t[7] == 'H');
    } else if v == 8 {
        vstd::utf8::char_u32_cast('I', 73u32);
        assert(t[8] == 'I');
    } else if v == 9 {
        vstd::utf8::char_u32_cast('J', 74u32);
        assert(t[9] == 'J');
    } else if v == 10 {
        vstd::utf8::char_u32_cast('K', 75u32);
        assert(t[10] == 'K');
    } else if v == 11 {
        vstd::utf8::char_u32_cast('L', 76u32);
        assert(t[11] == 'L');
    } else if v == 12 {
        vstd::utf8::char_u32_cast('M', 77u32);
        assert(t[12] == 'M');
    } else if v == 13 {
        vstd::utf8::char_u32_cast('N', 78u32);
        assert(t[13] == 'N');
    } else if v == 14 {
        vstd::utf8::char_u32_cast('O', 79u32);
        assert(t[14] == 'O');
    } else if v == 15 {
        vstd::utf8::char_u32_cast('P', 80u32);
        assert(t[15] == 'P');
    } else if v == 16 {
        vstd::utf8::char_u32_cast('Q', 81u32);
        assert(t[16] == 'Q');
    } else if v == 17 {
        vstd::utf8::char_u32_cast('R', 82u32);
        assert(t[17] == 'R');
    } else if v == 18 {
        vstd::utf8::char_u32_cast('S', 83u32);
        assert(t[18] == 'S');
    } else if v == 19 {
        vstd::utf8::char_u32_cast('T', 84u32);
        assert(t[19] == 'T');
    } else if v == 20 {
        vstd::utf8::char_u32_cast('U', 85u32);
        assert(t[20] == 'U');
    } else if v == 21 {
        vstd::utf8::char_u32_cast('V', 86u32);
        assert(t[21] == 'V');
    } else if v == 22 {
        vstd::utf8::char_u32_cast('W', 87u32);
        assert(t[22] == 'W');
    } else if v == 23 {
        vstd::utf8::char_u32_cast('X', 88u32);
        assert(t[23] == 'X');
    } else if v == 24 {
        vstd::utf8::char_u32_cast('Y', 89u32);
        assert(t[24] == 'Y');
    } else if v == 25 {
        vstd::utf8::char_u32_cast('Z', 90u32);
        assert(t[25] == 'Z');
    } else if v == 26 {
        vstd::utf8::char_u32_cast('a', 97u32);
        assert(t[26] == 'a');
    } else if v == 27 {
        vstd::utf8::char_u32_cast('b', 98u32);
        assert(t[27] == 'b');
    } else if v == 28 {
        vstd::utf8::char_u32_cast('c', 99u32);
        assert(t[28] == 'c');
    } else if v == 29 {
        vstd::utf8::char_u32_cast('d', 100u32);
        assert(t[29] == 'd');
    } else if v == 30 {
        vstd::utf8::char_u32_cast('e', 101u32);
        assert(t[30] == 'e');
    } else if v == 31 {
        vstd::utf8::char_u32_cast('f', 102u32);
        assert(t[31] == 'f');
    } else if v == 32 {
        vstd::utf8::char_u32_cast('g', 103u32);
        assert(t[32] == 'g');
    } else if v == 33 {
        vstd::utf8::char_u32_cast('h', 104u32);
        assert(t[33] == 'h');
    } else if v == 34 {
        vstd::utf8::char_u32_cast('i', 105u32);
        assert(t[34] == 'i');
    } else if v == 35 {
        vstd::utf8::char_u32_cast('j', 106u32);
        assert(t[35] == 'j');
    } else if v == 36 {
        vstd::utf8::char_u32_cast('k', 107u32);
        assert(t[36] == 'k');
    } else if v == 37 {
        vstd::utf8::char_u32_cast('l', 108u32);
        assert(t[37] == 'l');
    } else if v == 38 {
        vstd::utf8::char_u32_cast('m', 109u32);
        assert(t[38] == 'm');
    } else if v == 39 {
        vstd::utf8::char_u32_cast('n', 110u32);
        assert(t[39] == 'n');
    } else if v == 40 {
        vstd::utf8::char_u32_cast('o', 111u32);
        assert(t[40] == 'o');
    } else if v == 41 {
        vstd::utf8::char_u32_cast('p', 112u32);
        assert(t[41] == 'p');
    } else if v == 42 {
        vstd::utf8::char_u32_cast('q', 113u32);
        assert(t[42] == 'q');
    } else if v == 43 {
        vstd::utf8::char_u32_cast('r', 114u32);
        assert(t[43] == 'r');
    } else if v == 44 {
        vstd::utf8::char_u32_cast('s', 115u32);
        assert(t[44] == 's');
    } else if v == 45 {
        vstd::utf8::char_u32_cast('t', 116u32);
        assert(t[45] == 't');
    } else if v == 46 {
        vstd::utf8::char_u32_cast('u', 117u32);
        assert(t[46] == 'u');
    } else if v == 47 {
        vstd::utf8::char_u32_cast('v', 118u32);
        assert(t[47] == 'v');
    } else if v == 48 {
        vstd::utf8::char_u32_cast('w', 119u32);
        assert(t[48] == 'w');
    } else if v == 49 {
        vstd::utf8::char_u32_cast('x', 120u32);
        assert(t[49] == 'x');
    } else if v == 50 {
        vstd::utf8::char_u32_cast('y', 121u32);
        assert(t[50] == 'y');
    } else if v == 51 {
        vstd::utf8::char_u32_cast('z', 122u32);
        assert(t[51] == 'z');
    } else if v == 52 {
        vstd::utf8::char_u32_cast('0', 48u32);
        assert(t[52] == '0');
    } else if v == 53 {
        vstd::utf8::char_u32_cast('1', 49u32);
        assert(t[53] == '1');
    } else if v == 54 {
        vstd::utf8::char_u32_cast('2', 50u32);
        assert(t[54] == '2');
    } else if v == 55 {
        vstd::utf8::char_u32_cast('3', 51u32);
        assert(t[55] == '3');
    } else if v == 56 {
        vstd::utf8::char_u32_cast('4', 52u32);
        assert(t[56] == '4');
    } else if v == 57 {
        vstd::utf8::char_u32_cast('5', 53u32);
        assert(t[57] == '5');
    } else if v == 58 {
        vstd::utf8::char_u32_cast('6', 54u32);
        assert(t[58] == '6');
    } else if v == 59 {
        vstd::utf8::char_u32_cast('7', 55u32);
        assert(t[59] == '7');
    } else if v == 60 {
        vstd::utf8::char_u32_cast('8', 56u32);
        assert(t[60] == '8');
    } else if v == 61 {
        vstd::utf8::char_u32_cast('9', 57u32);
        assert(t[61] == '9');
    } else if v == 62 {
        vstd::utf8::char_u32_cast('+', 43u32);
        assert(t[62] == '+');
    } else {
        vstd::utf8::char_u32_cast('/', 47u32);
        assert(t[63] == '/');
    }
}

/// The byte at `i`, or zero past the end (the padding Base64 encodes with).
pub open spec fn padded_byte(bytes: Seq<u8>, i: int) -> int {
    if 0 <= i < bytes.len() {
        bytes[i] as int
    } else {
        0
    }
}

/// The 24-bit number that the `k`-th group of three bytes makes, high byte first.
pub open spec fn group_number(bytes: Seq<u8>, k: int) -> int {
    padded_byte(bytes, 3 * k) * 65536 + padded_byte(bytes, 3 * k + 1) * 256 + padded_byte(bytes, 3 * k + 2)
}

/// The `j`-th base-64 digit (0 to 3, most significant first) of a 24-bit number.
pub open spec fn sextet(n: int, j: int) -> int {
    if j == 0 {
        n / 262144 % 64
    } else if j == 1 {
        n / 4096 % 64
    } else if j == 2 {
        n / 64 % 64
    } else {
        n % 64
    }
}

proof fn lemma_group_sextets(b0: u8, b1: u8, b2: u8)
    ensures
        (b0 >> 2u8) as int == sextet(b0 as int * 65536 + b1 as int * 256 + b2 as int, 0),
        (((b0 & 3u8) << 4u8) | (b1 >> 4u8)) as int == sextet(b0 as int * 65536 + b1 as int * 256 + b2 as int, 1),
        (((b1 & 15u8) << 2u8) | (b2 >> 6u8)) as int == sextet(b0 as int * 65536 + b1 as int * 256 + b2 as int, 2),
        (b2 & 63u8) as int == sextet(b0 as int * 65536 + b1 as int * 256 + b2 as int, 3),
{
    assert((b0 >> 2u8) as int == (b0 as int * 65536 + b1 as int * 256 + b2 as int) / 262144 % 64) by (bit_vector);
    assert((((b0 & 3u8) << 4u8) | (b1 >> 4u8)) as int == (b0 as int * 65536 + b1 as int * 256 + b2 as int) / 4096 % 64) by (bit_vector);
    assert((((b1 & 15u8) << 2u8) | (b2 >> 6u8)) as int == (b0 as int * 65536 + b1 as int * 256 + b2 as int) / 64 % 64) by (bit_vector);
    assert((b2 & 63u8) as int == (b0 as int * 65536 + b1 as int * 256 + b2 as int) % 64) by (bit_vector);
}

/// A fingerprint's text is standard Base64 (RFC 4648) without padding: its
/// length is four characters per three bytes plus one more than the bytes
/// left over, and its `p`-th character is the alphabet's digit for the
/// `p % 4`-th 6-bit part of the `p / 4`-th group of three bytes (a missing
/// byte at the end counting as zero).
pub proof fn lemma_b64_standard(bytes: Seq<u8>)
    ensures
        b64(bytes).len() == b64_len(bytes.len()),
        forall|p: int|
            0 <= p < b64(bytes).len() ==> #[trigger] b64(bytes)[p] == rfc4648_alphabet()[sextet(
                group_number(bytes, p / 4),
                p % 4,
            )],
    decreases bytes.len(),
{
    lemma_b64_len(bytes);
    if bytes.len() > 0 {
        let b0 = bytes[0];
        let b1 = if bytes.len() > 1 { bytes[1] } else { 0u8 };
        let b2 = if bytes.len() > 2 { bytes[2] } else { 0u8 };
        lemma_group_sextets(b0, b1, b2);
        assert(group_number(bytes, 0) == b0 as int * 65536 + b1 as int * 256 + b2 as int);
        let x0 = b0 >> 2u8;
        let x1 = ((b0 & 3u8) << 4u8) | (b1 >> 4u8);
        let x2 = ((b1 & 15u8) << 2u8) | (b2 >> 6u8);
        let x3 = b2 & 63u8;
        lemma_b64_alphabet(x0);
        lemma_b64_alphabet(x1);
        lemma_b64_alphabet(x2);
        lemma_b64_alphabet(x3);
        let out = b64(bytes);
        if bytes.len() >= 3 {
            let rest = bytes.skip(3);
            lemma_b64_standard(rest);
            assert forall|k: int| 0 <= k implies #[trigger] group_number(rest, k) == group_number(bytes, k + 1) by {
                assert(padded_byte(rest, 3 * k) == padded_byte(bytes, 3 * (k + 1)));
                assert(padded_byte(rest, 3 * k + 1) == padded_byte(bytes, 3 * (k + 1) + 1));
                assert(padded_byte(rest, 3 * k + 2) == padded_byte(bytes, 3 * (k + 1) + 2));
            }
            assert forall|p: int|
                0 <= p < out.len() implies #[trigger] out[p] == rfc4648_alphabet()[sextet(group_number(bytes, p / 4), p % 4)] by {
                if p >= 4 {
                    assert(out[p] == b64(rest)[p - 4]);
                    assert((p - 4) / 4 == p / 4 - 1);
                    assert((p - 4) % 4 == p % 4);
                    assert(group_number(rest, (p - 4) / 4) == group_number(bytes, p / 4));
                }
            }
        }
    }
}

fn digit(v: u8) -> (c: char)
    requires
        v < 64,
    ensures
        c == b64_digit(v),
{
    if v < 26 {
        (65u8 + v) as char
    } else if v < 52 {
        (97u8 + v - 26) as char
    } else if v < 62 {
        (48u8 + v - 52) as char
    } else if v == 62 {
        '+'
    } else {
        '/'
    }
}

/// Base64 without padding, as SSH fingerprints are shown.
pub fn base64_no_padding(bytes: &[u8]) -> (r: String)
    ensures
        r@ == b64(bytes@),
        r@.len() == b64_len(bytes@.len()),
{
    let mut out = String::new();
    let mut i: usize = 0;
    assert(bytes@.skip(0) =~= bytes@);
    while bytes.len() - i >= 3
        invariant
            i <= bytes.len(),
            out@ + b64(bytes@.skip(i as int)) == b64(bytes@),
        decreases bytes.len() - i,
    {
        let ghost rest = bytes@.skip(i as int);
        let first = bytes[i];
        let second = bytes[i + 1];
        let third = bytes[i + 2];
        assert(rest[0] == first && rest[1] == second && rest[2] == third);
        assert((first >> 2u8) < 64u8) by (bit_vector);
        assert((((first & 3u8) << 4u8) | (second >> 4u8)) < 64u8) by (bit_vector);
        assert((((second & 15u8) << 2u8) | (third >> 6u8)) < 64u8) by (bit_vector);
        assert((third & 63u8) < 64u8) by (bit_vector);
        push_char(&mut out, digit(first >> 2u8));
        push_char(&mut out, digit(((first & 3u8) << 4u8) | (second >> 4u8)));
        push_char(&mut out, digit(((second & 15u8) << 2u8) | (third >> 6u8)));
        push_char(&mut out, digit(third & 63u8));
        assert(rest.skip(3) =~= bytes@.skip(i + 3));
        i = i + 3;
    }
    let left = bytes.len() - i;
    let ghost rest = bytes@.skip(i as int);
    if left > 0 {
        let first = bytes[i];
        let second = if left > 1 { bytes[i + 1] } else { 0u8 };
        assert(rest[0] == first);
        assert(left > 1 ==> rest[1] == second);
        assert((first >> 2u8) < 64u8) by (bit_vector);
        assert((((first & 3u8) << 4u8) | (second >> 4u8)) < 64u8) by (bit_vector);
        assert((((second & 15u8) << 2u8) | (0u8 >> 6u8)) < 64u8) by (bit_vector);
        push_char(&mut out, digit(first >> 2u8));
        push_char(&mut out, digit(((first & 3u8) << 4u8) | (second >> 4u8)));
        if left > 1 {
            push_char(&mut out, digit(((second & 15u8) << 2u8) | (0u8 >> 6u8)));
        }
    }
    proof {
        lemma_b64_len(bytes@);
    }
    out
}

// ---------------------------------------------------------------------------
// Host keys and trust
// ---------------------------------------------------------------------------

/// The kinds of SSH host key.
#[derive(Debug, Clone, Copy, PartialEq, Eq, Structural)]
pub enum HostKeyKind {
    Rsa,
    Dss,
    Ecdsa256,
    Ecdsa384,
    Ecdsa521,
    Ed25519,
    Unknown,
}

pub open spec fn host_key_label(k: HostKeyKind) -> Seq<char> {
    match k {
        HostKeyKind::Rsa => "ssh-rsa"@,
        HostKeyKind::Dss => "ssh-dss"@,
        HostKeyKind::Ecdsa256 => "ecdsa-sha2-nistp256"@,
        HostKeyKind::Ecdsa384 => "ecdsa-sha2-nistp384"@,
        HostKeyKind::Ecdsa521 => "ecdsa-sha2-nistp521"@,
        HostKeyKind::Ed25519 => "ssh-ed25519"@,
        HostKeyKind::Unknown => "unknown"@,
    }
}

/// The SSH name of a host key kind.
pub fn host_key_type_label(k: HostKeyKind) -> (r: &'static str)
    ensures
        r@ == host_key_label(k),
{
    match k {
        HostKeyKind::Rsa => "ssh-rsa",
        HostKeyKind::Dss => "ssh-dss",
        HostKeyKind::Ecdsa256 => "ecdsa-sha2-nistp256",
        HostKeyKind::Ecdsa384 => "ecdsa-sha2-nistp384",
        HostKeyKind::Ecdsa521 => "ecdsa-sha2-nistp521",
        HostKeyKind::Ed25519 => "ssh-ed25519",
        HostKeyKind::Unknown => "unknown",
    }
}

/// The fingerprint of a host key from its SHA-256 hash: `SHA256:` and the unpadded Base64 of the hash.
pub fn host_fingerprint(host: &str, port: u16, kind: HostKeyKind, sha256_hash: &[u8]) -> (r: SftpHostFingerprint)
    ensures
        r.host@ == host@,
        r.port == port,
        r.host_key_type@ == host_key_label(kind),
        r.sha256@ == "SHA256:"@ + b64(sha256_hash@),
{
    let encoded = base64_no_padding(sha256_hash);
    SftpHostFingerprint {
        host: String::from_str(host),
        port,
        host_key_type: String::from_str(host_key_type_label(kind)),
        sha256: concat2("SHA256:", encoded.as_str()),
    }
}


/// Only a server whose fingerprint equals the trusted one may be used.
pub fn verify_trusted_host(config: &SftpConfig, host: &str, port: u16, fingerprint: &str) -> (r: Result<(), SftpError>)
    ensures
        match config.trusted_host_fingerprint {
            None => r matches Err(SftpError::MissingTrustedHost { host: h, port: p, fingerprint: f })
                && h@ == host@ && p == port && f@ == fingerprint@,
            Some(expected) => if trim(expected@) != fingerprint@ {
                r matches Err(SftpError::HostFingerprintChanged { host: h, port: p, expected: e, actual: a })
                    && h@ == host@ && p == port && e@ == expected@ && a@ == fingerprint@
            } else {
                r is Ok
            },
        },
{
    match &config.trusted_host_fingerprint {
        None => Err(
            SftpError::MissingTrustedHost {
                host: String::from_str(host),
                port,
                fingerprint: String::from_str(fingerprint),
            },
        ),
        Some(expected) => {
            let e = chars_of(expected.as_str());
            let t = trim_chars(e.as_slice());
            let f = chars_of(fingerprint);
            if !crate::text::chars_eq(t.as_slice(), f.as_slice()) {
                Err(
                    SftpError::HostFingerprintChanged {
                        host: String::from_str(host),
                        port,
                        expected: expected.clone(),
                        actual: String::from_str(fingerprint),
                    },
                )
            } else {
                Ok(())
            }
        },
    }
}

/// The user name of a configuration.
pub fn username(config: &SftpConfig) -> (r: Result<String, SftpError>)
    ensures
        match config.username {
            Some(u) => r matches Ok(s) && s@ == u@,
            None => r matches Err(SftpError::MissingUsername),
        },
{
    match &config.username {
        Some(u) => Ok(u.clone()),
        None => Err(SftpError::MissingUsername),
    }
}

/// Where to connect: the host and port, and the remote root when one is set and not empty.
pub fn endpoint(config: &SftpConfig) -> (r: Result<(String, u16, Option<String>), SftpError>)
    ensures
        match config.host {
            None => r matches Err(SftpError::MissingHost),
            Some(h) => r matches Ok((host, port, root)) && host@ == h@ && port == config.port && match config.remote_fastdl_root {
                Some(x) => if x@.len() > 0 {
                    root matches Some(y) && y@ == x@
                } else {
                    root is None
                },
                None => root is None,
            },
        },
{
    let host = match &config.host {
        Some(h) => h.clone(),
        None => return Err(SftpError::MissingHost),
    };
    let root = match &config.remote_fastdl_root {
        Some(x) => if x.as_str().is_empty() {
            None
        } else {
            Some(x.clone())
        },
        None => None,
    };
    Ok((host, config.port, root))
}

/// How to log in.
#[derive(Debug)]
pub enum SftpAuth {
    PublicKey { key_path: String, passphrase: Option<String> },
    Password(String),
}

/// A private key file wins over a password; with neither there is no way to log in.
pub fn auth_method(config: &SftpConfig) -> (r: Result<SftpAuth, SftpError>)
    ensures
        match (config.private_key_path, config.password) {
            (Some(k), _) => r matches Ok(SftpAuth::PublicKey { key_path, passphrase }) && key_path@ == k@
                && passphrase == config.private_key_passphrase,
            (None, Some(p)) => r matches Ok(SftpAuth::Password(x)) && x@ == p@,
            (None, None) => r matches Err(SftpError::MissingAuthentication),
        },
{
    match &config.private_key_path {
        Some(k) => Ok(
            SftpAuth::PublicKey {
                key_path: k.clone(),
                passphrase: crate::config::clone_opt(&config.private_key_passphrase),
            },
        ),
        None => match &config.password {
            Some(p) => Ok(SftpAuth::Password(p.clone())),
            None => Err(SftpError::MissingAuthentication),
        },
    }
}

/// The remote root a transfer needs.
pub fn require_remote_root(root: Option<String>) -> (r: Result<String, SftpError>)
    ensures
        match root {
            Some(x) => r matches Ok(s) && s == x,
            None => r matches Err(SftpError::MissingRemoteRoot),
        },
{
    match root {
        Some(x) => Ok(x),
        None => Err(SftpError::MissingRemoteRoot),
    }
}

/// The handshake failure text: a key-exchange failure gets an explanation of
/// what to compare; both name the algorithms this side supports.
pub open spec fn handshake_text(raw_message: Seq<char>, error_text: Seq<char>, supported: Seq<char>) -> Seq<char> {
    if contains_seq(lower(raw_message), "unable to exchange encryption key"@) {
        "SSH handshake failed: no compatible SFTP encryption/key-exchange algorithm was negotiated. FileZilla may connect because it supports a different SSH algorithm set. Compare the server or FileZilla SFTP log against the FastDL Desktop algorithms below. Raw error: "@
            + error_text + ". FastDL Desktop supports: "@ + supported
    } else {
        "SSH handshake failed: "@ + error_text + ". FastDL Desktop supports: "@ + supported
    }
}

/// The error of a failed SSH handshake, from the library's message, its full text, and the supported algorithms.
pub fn handshake_error(raw_message: &str, error_text: &str, supported: &str) -> (r: SftpError)
    ensures
        r matches SftpError::Handshake { message } && message@ == handshake_text(raw_message@, error_text@, supported@),
{
    let raw = chars_of(raw_message);
    let l = lower_chars(raw.as_slice());
    let needle = chars_of("unable to exchange encryption key");
    let message = if chars_find(l.as_slice(), needle.as_slice()) {
        let mut m = concat2(
            "SSH handshake failed: no compatible SFTP encryption/key-exchange algorithm was negotiated. FileZilla may connect because it supports a different SSH algorithm set. Compare the server or FileZilla SFTP log against the FastDL Desktop algorithms below. Raw error: ",
            error_text,
        );
        m.append(". FastDL Desktop supports: ");
        m.append(supported);
        m
    } else {
        let mut m = concat2("SSH handshake failed: ", error_text);
        m.append(". FastDL Desktop supports: ");
        m.append(supported);
        m
    };
    SftpError::Handshake { message }
}

/// The supported algorithms of one kind: listed with `, `, `none reported`, or why they could not be read.
pub fn supported_algorithms_text(algorithms: &Result<Vec<String>, String>) -> (r: String)
    ensures
        match algorithms {
            Ok(list) => if list@.len() > 0 {
                r@ == join_with(list@.map_values(|s: String| s@), ", "@)
            } else {
                r@ == "none reported"@
            },
            Err(e) => r@ == "could not read supported algorithms: "@ + e@,
        },
{
    match algorithms {
        Ok(list) => if list.len() > 0 {
            join_strings(list, ", ")
        } else {
            String::from_str("none reported")
        },
        Err(e) => concat2("could not read supported algorithms: ", e.as_str()),
    }
}

/// The summary of supported key exchange, host key and cipher algorithms.
pub fn supported_algorithm_summary(kex: &str, host_key: &str, cipher_cs: &str, cipher_sc: &str) -> (r: String)
    ensures
        r@ == "kex=["@ + kex@ + "]; host_key=["@ + host_key@ + "]; cipher_client_to_server=["@ + cipher_cs@
            + "]; cipher_server_to_client=["@ + cipher_sc@ + "]"@,
{
    let mut m = concat4("kex=[", kex, "]; host_key=[", host_key);
    m.append("]; cipher_client_to_server=[");
    m.append(cipher_cs);
    m.append("]; cipher_server_to_client=[");
    m.append(cipher_sc);
    m.append("]");
    m
}

// ---------------------------------------------------------------------------
// Remote paths
// ---------------------------------------------------------------------------

/// The remote path of a file: the root without trailing `/`, one `/`, and the
/// relative path without leading `/`.
pub open spec fn remote_path(root: Seq<char>, relative: Seq<char>) -> Seq<char> {
    strip_trailing(root, '/') + seq!['/'] + strip_leading(relative, '/')
}

pub fn remote_join(root: &str, relative: &str) -> (r: String)
    ensures
        r@ == remote_path(root@, relative@),
{
    let a = chars_of(root);
    let b = chars_of(relative);
    let a2 = strip_trailing_chars(a.as_slice(), '/');
    let b2 = strip_leading_chars(b.as_slice(), '/');
    let mut r = string_of(a2.as_slice());
    push_char(&mut r, '/');
    let tail = string_of(b2.as_slice());
    r.append(tail.as_str());
    r
}

/// Walking the first `n` pieces of a parent folder: the folder reached, and each folder visited in order.
pub open spec fn parent_walk(pieces: Seq<Seq<char>>, n: int) -> (Seq<char>, Seq<Seq<char>>)
    decreases n,
{
    if n <= 0 {
        (Seq::<char>::empty(), Seq::<Seq<char>>::empty())
    } else {
        let (cur, visited) = parent_walk(pieces, n - 1);
        let part = pieces[n - 1];
        if part.len() == 0 {
            (cur.push('/'), visited)
        } else {
            let base = if cur != seq!['/'] && cur.len() > 0 {
                cur.push('/')
            } else {
                cur
            };
            let next = base + part;
            (next, visited.push(next))
        }
    }
}

/// The folders that must exist before a remote file is written: each prefix
/// of its parent folder, in order (none when the path has no `/`).
pub open spec fn parent_folders(remote: Seq<char>) -> Seq<Seq<char>> {
    match last_index(remote, '/', remote.len() as int) {
        None => Seq::<Seq<char>>::empty(),
        Some(i) => {
            let pieces = split_on(remote.take(i), '/');
            parent_walk(pieces, pieces.len() as int).1
        },
    }
}

pub fn remote_parent_folders(remote: &str) -> (r: Vec<String>)
    ensures
        r@.map_values(|s: String| s@) == parent_folders(remote@),
{
    let v = chars_of(remote);
    let idx = match last_index_of(v.as_slice(), '/') {
        Some(i) => i,
        None => return Vec::new(),
    };
    assert(last_index(v@, '/', v@.len() as int) is Some);
    let parent = crate::text::substring(v.as_slice(), 0, idx);
    assert(v@.subrange(0, idx as int) =~= v@.take(idx as int));
    let pc = chars_of(parent.as_str());
    let pieces = split_chars(pc.as_slice(), '/');
    let ghost pv = pieces@.map_values(|x: Vec<char>| x@);
    let mut current: Vec<char> = Vec::new();
    let mut visited: Vec<String> = Vec::new();
    let mut i: usize = 0;
    assert(visited@.map_values(|s: String| s@) =~= Seq::<Seq<char>>::empty());
    while i < pieces.len()
        invariant
            0 <= i <= pieces.len(),
            pv == pieces@.map_values(|x: Vec<char>| x@),
            pv.len() == pieces.len(),
            parent_walk(pv, i as int) == (current@, visited@.map_values(|s: String| s@)),
        decreases pieces.len() - i,
    {
        assert(pv[i as int] == pieces@[i as int]@);
        if pieces[i].len() == 0 {
            current.push('/');
        } else {
            let is_root = current.len() == 1 && current[0] == '/';
            proof {
                if current@ == seq!['/'] {
                    assert(current@[0] == '/');
                }
                if is_root {
                    assert(current@ =~= seq!['/']);
                }
            }
            if !is_root && current.len() > 0 {
                current.push('/');
            }
            let mut k: usize = 0;
            let ghost base = current@;
            while k < pieces[i].len()
                invariant
                    0 <= i < pieces.len(),
                    0 <= k <= pieces@[i as int]@.len(),
                    current@ == base + pieces@[i as int]@.take(k as int),
                decreases pieces@[i as int]@.len() - k,
            {
                current.push(pieces[i][k]);
                k = k + 1;
                assert(base + pieces@[i as int]@.take(k as int) =~= (base + pieces@[i as int]@.take((k - 1) as int)).push(pieces@[i as int]@[k - 1]));
            }
            assert(pieces@[i as int]@.take(k as int) =~= pieces@[i as int]@);
            let ghost before = visited@.map_values(|s: String| s@);
            visited.push(string_of(current.as_slice()));
            assert(visited@.map_values(|s: String| s@) =~= before.push(current@));
        }
        i = i + 1;
    }
    visited
}

// ---------------------------------------------------------------------------
// Connections and transfers
// ---------------------------------------------------------------------------

/// Transfers happen only when SFTP is enabled and there are files.
pub open spec fn transfer_wanted(c: SftpConfig, file_count: int) -> bool {
    c.enabled && file_count > 0
}

pub fn wants_transfer(config: &SftpConfig, file_count: usize) -> (r: bool)
    ensures
        r == transfer_wanted(*config, file_count as int),
{
    config.enabled && file_count > 0
}

/// Whom to connect to and as whom.
#[derive(Debug)]
pub struct SftpConnect {
    pub username: String,
    pub host: String,
    pub port: u16,
    pub remote_root: Option<String>,
}

/// What a connection needs before the network is touched: the user name
/// first, then the host; the remote root is kept when set and not empty.
pub fn connect_plan(config: &SftpConfig) -> (r: Result<SftpConnect, SftpError>)
    ensures
        match (config.username, config.host) {
            (None, _) => r matches Err(SftpError::MissingUsername),
            (Some(_), None) => r matches Err(SftpError::MissingHost),
            (Some(u), Some(h)) => r matches Ok(c) && c.username@ == u@ && c.host@ == h@ && c.port == config.port
                && match config.remote_fastdl_root {
                Some(x) => if x@.len() > 0 {
                    c.remote_root matches Some(y) && y@ == x@
                } else {
                    c.remote_root is None
                },
                None => c.remote_root is None,
            },
        },
{
    let u = match username(config) {
        Ok(u) => u,
        Err(e) => return Err(e),
    };
    let (host, port, root) = match endpoint(config) {
        Ok(x) => x,
        Err(e) => return Err(e),
    };
    Ok(SftpConnect { username: u, host, port, remote_root: root })
}

/// What a connection test needs: the connection (see `connect_plan`) and
/// the remote path whose presence it checks, which is the remote root when
/// one is set and not empty, else `.`.
pub fn test_connection(config: &SftpConfig) -> (r: Result<(SftpConnect, String), SftpError>)
    ensures
        match (config.username, config.host) {
            (None, _) => r matches Err(SftpError::MissingUsername),
            (Some(_), None) => r matches Err(SftpError::MissingHost),
            (Some(u), Some(h)) => r matches Ok((c, path)) && c.username@ == u@ && c.host@ == h@ && c.port
                == config.port && match config.remote_fastdl_root {
                Some(x) => if x@.len() > 0 {
                    c.remote_root matches Some(y) && y@ == x@ && path@ == x@
                } else {
                    c.remote_root is None && path@ == "."@
                },
                None => c.remote_root is None && path@ == "."@,
            },
        },
{
    let c = match connect_plan(config) {
        Ok(c) => c,
        Err(e) => return Err(e),
    };
    let path = match &c.remote_root {
        Some(root) => root.clone(),
        None => String::from_str("."),
    };
    Ok((c, path))
}

/// The fingerprint of the host key a session reports; without a key or
/// its SHA-256 hash, the key is missing.
pub fn inspect_host(host: &str, port: u16, kind: Option<HostKeyKind>, sha256_hash: Option<Vec<u8>>) -> (r: Result<
    SftpHostFingerprint,
    SftpError,
>)
    ensures
        match (kind, sha256_hash) {
            (Some(k), Some(h)) => r matches Ok(f) && f.host@ == host@ && f.port == port && f.host_key_type@
                == host_key_label(k) && f.sha256@ == "SHA256:"@ + b64(h@),
            _ => r matches Err(SftpError::MissingHostKey),
        },
{
    let k = match kind {
        Some(k) => k,
        None => return Err(SftpError::MissingHostKey),
    };
    let h = match sha256_hash {
        Some(h) => h,
        None => return Err(SftpError::MissingHostKey),
    };
    Ok(host_fingerprint(host, port, k, h.as_slice()))
}

/// One file to send: where it is, where it goes, and the folders that must exist first.
#[derive(Debug)]
pub struct SftpUpload {
    pub local: String,
    pub remote: String,
    pub folders: Vec<String>,
}

/// The uploads of a transfer: each file goes to its relative path joined
/// to the remote root, after the folders above it.
pub fn publish_files(root: &str, files: &Vec<crate::storage::UploadFile>) -> (r: Vec<SftpUpload>)
    ensures
        r@.len() == files@.len(),
        forall|i: int|
            0 <= i < r@.len() ==> {
                let u = #[trigger] r@[i];
                &&& u.local@ == files@[i].local@
                &&& u.remote@ == remote_path(root@, files@[i].remote@)
                &&& u.folders@.map_values(|s: String| s@) == parent_folders(u.remote@)
            },
{
    let mut r: Vec<SftpUpload> = Vec::new();
    let mut i: usize = 0;
    while i < files.len()
        invariant
            0 <= i <= files.len(),
            r@.len() == i,
            forall|j: int|
                0 <= j < i ==> {
                    let u = #[trigger] r@[j];
                    &&& u.local@ == files@[j].local@
                    &&& u.remote@ == remote_path(root@, files@[j].remote@)
                    &&& u.folders@.map_values(|s: String| s@) == parent_folders(u.remote@)
                },
        decreases files.len() - i,
    {
        let remote = remote_join(root, files[i].remote.as_str());
        let folders = remote_parent_folders(remote.as_str());
        r.push(SftpUpload { local: files[i].local.clone(), remote, folders });
        i = i + 1;
    }
    r
}

/// A file to delete: its path relative to the remote root, and its full remote path.
#[derive(Debug)]
pub struct SftpDeletion {
    pub relative: String,
    pub remote: String,
}

/// The deletions of a transfer, in order: each relative path joined to the
/// remote root. A file that is not there is skipped; the others are
/// removed and reported by their relative paths.
pub fn delete_files(root: &str, files: &Vec<String>) -> (r: Vec<SftpDeletion>)
    ensures
        r@.len() == files@.len(),
        forall|i: int|
            0 <= i < r@.len() ==> (#[trigger] r@[i]).relative@ == files@[i]@ && r@[i].remote@ == remote_path(
                root@,
                files@[i]@,
            ),
{
    let mut r: Vec<SftpDeletion> = Vec::new();
    let mut i: usize = 0;
    while i < files.len()
        invariant
            0 <= i <= files.len(),
            r@.len() == i,
            forall|j: int|
                0 <= j < i ==> (#[trigger] r@[j]).relative@ == files@[j]@ && r@[j].remote@ == remote_path(
                    root@,
                    files@[j]@,
                ),
        decreases files.len() - i,
    {
        let remote = remote_join(root, files[i].as_str());
        r.push(SftpDeletion { relative: files[i].clone(), remote });
        i = i + 1;
    }
    r
}

} // verus!
