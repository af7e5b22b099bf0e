//! Text and its UTF-8 bytes.

use vstd::prelude::*;
use vstd::utf8::*;

use crate::number;

verus! {

/// The characters whose code points are the given bytes.
pub open spec fn as_chars(s: Seq<u8>) -> Seq<char> {
    s.map_values(|b: u8| b as char)
}

/// The decimal digits of `n` as text.
pub open spec fn decimal_text(n: nat) -> Seq<char> {
    as_chars(number::decimal(n))
}

/// The text that bytes encode, where they are valid UTF-8.
pub open spec fn read_text(bytes: Seq<u8>) -> Option<Seq<char>> {
    if valid_utf8(bytes) {
        Some(decode_utf8(bytes))
    } else {
        None
    }
}

/// Bytes below 128 are valid UTF-8 and stand for the characters of the same code.
pub proof fn lemma_ascii_text(s: Seq<u8>)
    requires
        forall|i: int| 0 <= i < s.len() ==> #[trigger] s[i] < 128,
    ensures
        read_text(s) == Some(as_chars(s)),
        encode_utf8(as_chars(s)) == s,
{
    let chars = as_chars(s);
    assert forall|i: int| 0 <= i < chars.len() implies '\0' <= #[trigger] chars[i] <= '\u{7f}' by {
        assert(s[i] < 128);
    }
    is_ascii_chars_encode_utf8(chars);
    assert(encode_utf8(chars) =~= s) by {
        assert forall|i: int| 0 <= i < s.len() implies encode_utf8(chars)[i] == s[i] by {
            assert(chars[i] as u8 == s[i]);
        }
    }
    encode_utf8_valid_utf8(chars);
    encode_utf8_decode_utf8(chars);
}

/// Text reads back from its bytes.
pub proof fn lemma_text_reads_back(t: Seq<char>)
    ensures
        read_text(encode_utf8(t)) == Some(t),
{
    encode_utf8_valid_utf8(t);
    encode_utf8_decode_utf8(t);
}

/// Different texts have different bytes.
pub proof fn lemma_utf8_injective(a: Seq<char>, b: Seq<char>)
    requires
        encode_utf8(a) == encode_utf8(b),
    ensures
        a == b,
{
    lemma_text_reads_back(a);
    lemma_text_reads_back(b);
}

/// Calls `std::str::from_utf8`, which reads bytes as text without changing them and
/// fails exactly where they are not valid UTF-8.
#[verifier::external_body]
pub(crate) fn utf8_text(bytes: &[u8]) -> (r: Option<&str>)
    ensures
        r is Some == read_text(bytes@) is Some,
        r matches Some(t) ==> Some(t@) == read_text(bytes@),
{
    std::str::from_utf8(bytes).ok()
}

/// What `String::from_utf8` says of bytes that are not valid UTF-8.
pub uninterp spec fn utf8_flaw(bytes: Seq<u8>) -> Seq<char>;

/// Calls `String::from_utf8`, which takes bytes as text without changing them and fails
/// exactly where they are not valid UTF-8. What the error says depends on the bytes alone.
#[verifier::external_body]
fn string_from_utf8(bytes: Vec<u8>) -> (r: Result<String, String>)
    ensures
        match read_text(bytes@) {
            Some(t) => r is Ok && r->Ok_0@ == t,
            None => r is Err && r->Err_0@ == utf8_flaw(bytes@),
        },
{
    match String::from_utf8(bytes) {
        Ok(t) => Ok(t),
        Err(e) => Err(e.to_string()),
    }
}

/// Bytes as owned text, or what is wrong with them where they are not valid UTF-8.
pub fn owned_text(bytes: &[u8]) -> (r: Result<String, String>)
    ensures
        match read_text(bytes@) {
            Some(t) => r is Ok && r->Ok_0@ == t,
            None => r is Err && r->Err_0@ == utf8_flaw(bytes@),
        },
{
    string_from_utf8(vstd::slice::slice_to_vec(bytes))
}

/// The UTF-8 bytes of a text.
pub fn text_bytes(t: &str) -> (r: Vec<u8>)
    ensures
        r@ == encode_utf8(t@),
{
    vstd::slice::slice_to_vec(t.as_bytes())
}

/// Whether two texts are equal.
pub fn same_text(a: &str, b: &str) -> (r: bool)
    ensures
        r == (a@ == b@),
{
    let r: bool = crate::order::same_bytes(a.as_bytes(), b.as_bytes());
    proof {
        if encode_utf8(a@) == encode_utf8(b@) {
            lemma_utf8_injective(a@, b@);
        }
    }
    r
}

/// Writes a number in decimal.
pub fn number_text(n: u64) -> (r: String)
    ensures
        r@ == decimal_text(n as nat),
{
    let bytes: Vec<u8> = number::decimal_bytes(n);
    proof {
        number::lemma_decimal_reads_back(n as nat);
        assert forall|i: int| 0 <= i < bytes@.len() implies #[trigger] bytes@[i] < 128 by {
            assert(number::digit_value(bytes@[i]) < 10);
        }
        lemma_ascii_text(bytes@);
    }
    match owned_text(bytes.as_slice()) {
        Ok(t) => t,
        Err(_) => String::new(),
    }
}

/// Bytes are read as a text exactly where they are the UTF-8 bytes of that text.
pub proof fn law_text_is_its_bytes(bytes: Seq<u8>, t: Seq<char>)
    ensures
        read_text(bytes) == Some(t) <==> bytes == encode_utf8(t),
        read_text(bytes) is None <==> forall|u: Seq<char>| bytes != #[trigger] encode_utf8(u),
{
    lemma_text_reads_back(t);
    if valid_utf8(bytes) {
        decode_utf8_encode_utf8(bytes);
        assert(bytes == encode_utf8(decode_utf8(bytes)));
    } else {
        assert forall|u: Seq<char>| bytes != #[trigger] encode_utf8(u) by {
            encode_utf8_valid_utf8(u);
        }
    }
}

/// The decimal text of a number ends in its last digit, and starts with the decimal text of
/// the rest of the number, if there is a rest.
pub proof fn law_decimal_text_is_built_by_digit(n: nat, d: nat)
    requires
        d < 10,
    ensures
        decimal_text(d) == seq![("0123456789"@)[d as int]],
        n > 0 ==> decimal_text(10 * n + d) == decimal_text(n).push(("0123456789"@)[d as int]),
{
    reveal_strlit("0123456789");
    let c = (48 + d) as u8;
    assert(("0123456789"@)[d as int] == c as char);
    assert(decimal_text(d) =~= seq![c as char]);
    if n > 0 {
        assert((10 * n + d) / 10 == n && (10 * n + d) % 10 == d);
        assert(decimal_text(10 * n + d) =~= decimal_text(n).push(c as char));
    }
}

} // verus!
