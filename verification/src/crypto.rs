//! Hashes of byte strings, written in hexadecimal.

use vstd::prelude::*;

verus! {

/// The SHA-256 hash of a byte string.
pub uninterp spec fn sha256_digest(bytes: Seq<u8>) -> Seq<u8>;

/// A number below sixteen as a lower case hexadecimal digit.
pub open spec fn hex_digit(n: int) -> char {
    if n < 10 {
        ('0' as int + n) as char
    } else {
        ('a' as int + n - 10) as char
    }
}

/// Each byte as two lower case hexadecimal digits, the high one first.
pub open spec fn hex_text(bytes: Seq<u8>) -> Seq<char> {
    Seq::new(
        2 * bytes.len(),
        |i: int|
            hex_digit(
                if i % 2 == 0 {
                    bytes[i / 2] as int / 16
                } else {
                    bytes[i / 2] as int % 16
                },
            ),
    )
}

/// Calls `sodiumoxide::crypto::hash::sha256::hash`, which returns the 32 bytes of the
/// SHA-256 hash. The hash depends on the bytes alone.
#[verifier::external_body]
fn sha256(bytes: &[u8]) -> (r: Vec<u8>)
    ensures
        r@ == sha256_digest(bytes@),
        r@.len() == 32,
{
    sodiumoxide::crypto::hash::sha256::hash(bytes).as_ref().to_vec()
}

/// Calls `hex::encode`, which writes each byte as two lower case hexadecimal digits. The
/// text has to fit into memory.
#[verifier::external_body]
fn hex_encode(bytes: &[u8]) -> (r: String)
    requires
        2 * bytes@.len() <= isize::MAX,
    ensures
        r@ == hex_text(bytes@),
{
    hex::encode(bytes)
}

/// The hash of a byte string, in hexadecimal.
pub open spec fn hash_text(bytes: Seq<u8>) -> Seq<char> {
    hex_text(sha256_digest(bytes))
}

/// Writes a hash in hexadecimal.
pub fn digest_text(digest: &[u8]) -> (r: String)
    requires
        2 * digest@.len() <= isize::MAX,
    ensures
        r@ == hex_text(digest@),
{
    hex_encode(digest)
}

/// The hash of a byte string, in hexadecimal: 64 digits.
pub fn hash_hex(bytes: &[u8]) -> (r: String)
    ensures
        r@ == hash_text(bytes@),
        r@.len() == 64,
{
    let digest: Vec<u8> = sha256(bytes);
    digest_text(digest.as_slice())
}

/// A byte string can be read back from its hexadecimal digits: different byte strings are
/// written differently.
pub proof fn law_hex_is_injective(a: Seq<u8>, b: Seq<u8>)
    requires
        hex_text(a) == hex_text(b),
    ensures
        a == b,
{
    assert(hex_text(a).len() == 2 * a.len());
    assert(hex_text(b).len() == 2 * b.len());
    assert forall|i: int| 0 <= i < a.len() implies a[i] == b[i] by {
        let (high, low) = (2 * i, 2 * i + 1);
        assert(hex_text(a)[high] == hex_text(b)[high]);
        assert(hex_text(a)[low] == hex_text(b)[low]);
        assert(hex_text(a)[high] == hex_digit(a[i] as int / 16));
        assert(hex_text(b)[high] == hex_digit(b[i] as int / 16));
        assert(hex_text(a)[low] == hex_digit(a[i] as int % 16));
        assert(hex_text(b)[low] == hex_digit(b[i] as int % 16));
    }
    assert(a =~= b);
}

/// The text of a byte string has two digits for each byte: first the one for its sixteens, then
/// the one for the rest.
pub proof fn law_hex_has_two_digits_for_each_byte(bytes: Seq<u8>, i: int)
    requires
        0 <= i < bytes.len(),
    ensures
        hex_text(bytes).len() == 2 * bytes.len(),
        hex_text(bytes)[2 * i] == ("0123456789abcdef"@)[bytes[i] as int / 16],
        hex_text(bytes)[2 * i + 1] == ("0123456789abcdef"@)[bytes[i] as int % 16],
        hash_text(bytes) == hex_text(sha256_digest(bytes)),
{
    reveal_strlit("0123456789abcdef");
    let (high, low) = (bytes[i] as int / 16, bytes[i] as int % 16);
    assert((2 * i) % 2 == 0 && (2 * i) / 2 == i && (2 * i + 1) % 2 == 1 && (2 * i + 1) / 2 == i);
    assert(hex_text(bytes)[2 * i] == hex_digit(high));
    assert(hex_text(bytes)[2 * i + 1] == hex_digit(low));
    assert(0 <= high < 16 && 0 <= low < 16);
    assert(hex_digit(high) == ("0123456789abcdef"@)[high]);
    assert(hex_digit(low) == ("0123456789abcdef"@)[low]);
}

} // verus!
