//! Hashing: the digests that name padding schemes and passwords, and their
//! spelling in hexadecimal.
use md5::Md5;
use sha2::Digest;
use sha2::Sha256;
use vstd::prelude::*;
use vstd::utf8::*;

verus! {

/// The MD5 digest of `data`.
pub uninterp spec fn md5_of(data: Seq<u8>) -> Seq<u8>;

/// The SHA-256 digest of `data`.
pub uninterp spec fn sha256_of(data: Seq<u8>) -> Seq<u8>;

/// `Md5::digest` of the `md5` crate: the 16 bytes of the MD5 digest of
/// `data`, which depend on `data` alone. Which bytes they are is left unsaid.
#[verifier::external_body]
pub(crate) fn md5_digest(data: &[u8]) -> (r: [u8; 16])
    ensures
        r@ == md5_of(data@),
        r@.len() == 16,
{
    Md5::digest(data).into()
}

/// `Sha256::digest` of the `sha2` crate: the 32 bytes of the SHA-256 digest
/// of `data`, which depend on `data` alone. Which bytes they are is left
/// unsaid.
#[verifier::external_body]
pub(crate) fn sha256_digest(data: &[u8]) -> (r: [u8; 32])
    ensures
        r@ == sha256_of(data@),
        r@.len() == 32,
{
    Sha256::digest(data).into()
}

/// The lower-case hexadecimal digit for a value below 16.
pub open spec fn hex_digit(n: int) -> char {
    if n < 10 {
        ('0' as int + n) as char
    } else {
        ('a' as int + (n - 10)) as char
    }
}

/// Two lower-case hexadecimal digits for each byte, high half first.
pub open spec fn hex_lower(data: Seq<u8>) -> Seq<char> {
    Seq::new(
        data.len() * 2,
        |i: int|
            hex_digit(
                if i % 2 == 0 {
                    data[i / 2] as int / 16
                } else {
                    data[i / 2] as int % 16
                },
            ),
    )
}

/// The lower-case hexadecimal digit for a value below 16.
fn hex_char(n: u8) -> (c: char)
    requires
        n < 16,
    ensures
        c == hex_digit(n as int),
{
    if n < 10 {
        ('0' as u8 + n) as char
    } else {
        ('a' as u8 + (n - 10)) as char
    }
}

/// Spells `data` in lower-case hexadecimal.
pub fn hex_text(data: &[u8]) -> (r: String)
    ensures
        r@ == hex_lower(data@),
{
    let mut s: String = String::new();
    let mut i: usize = 0;
    while i < data.len()
        invariant
            i <= data.len(),
            s@ == hex_lower(data@.take(i as int)),
        decreases data.len() - i,
    {
        s.push(hex_char(data[i] / 16));
        s.push(hex_char(data[i] % 16));
        i = i + 1;
        assert(s@ =~= hex_lower(data@.take(i as int)));
    }
    assert(data@.take(i as int) =~= data@);
    s
}

/// Hashes a password to the 32 bytes that identify it to a server.
pub fn sha256_password(password: &str) -> (r: [u8; 32])
    ensures
        r@ == sha256_of(encode_utf8(password@)),
        r@.len() == 32,
{
    sha256_digest(password.as_bytes())
}

/// The value of a lower-case hexadecimal digit.
pub open spec fn hex_value(c: char) -> int {
    if '0' <= c <= '9' {
        c as int - '0' as int
    } else {
        c as int - 'a' as int + 10
    }
}

/// Bytes are spelled by two lower-case hexadecimal digits each, the first worth
/// sixteen times as much as the second.
pub proof fn law_hex_spells_bytes(data: Seq<u8>, i: int)
    requires
        0 <= i < data.len(),
    ensures
        hex_lower(data).len() == 2 * data.len(),
        '0' <= hex_lower(data)[2 * i] <= '9' || 'a' <= hex_lower(data)[2 * i] <= 'f',
        '0' <= hex_lower(data)[2 * i + 1] <= '9' || 'a' <= hex_lower(data)[2 * i + 1] <= 'f',
        hex_value(hex_lower(data)[2 * i]) * 16 + hex_value(hex_lower(data)[2 * i + 1]) == data[i],
{
    let d = data[i] as int;
    assert(0 <= d / 16 < 16 && 0 <= d % 16 < 16);
    assert((2 * i) / 2 == i && (2 * i + 1) / 2 == i);
    assert((2 * i) % 2 == 0 && (2 * i + 1) % 2 == 1);
}

} // verus!
