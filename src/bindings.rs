//! Calls into other crates and into std where no specification is given for
//! the call. Each contract here is trusted: it states what the called code
//! documents, and nothing more.
use vstd::prelude::*;
use vstd::utf8::{decode_utf8, valid_utf8};
use vstd::arithmetic::power2::pow2;
use sha1::Digest;
use rand::Rng;

verus! {

/// The SHA-1 digest of a byte sequence.
pub uninterp spec fn sha1_of(data: Seq<u8>) -> Seq<u8>;

/// Relies on `sha1::Sha1::digest`: the 20-byte SHA-1 digest of `data`, which
/// depends on the bytes alone.
#[verifier::external_body]
pub fn sha1_digest(data: &[u8]) -> (r: [u8; 20])
    ensures
        r@ == sha1_of(data@),
{
    sha1::Sha1::digest(data).into()
}

/// Relies on `rand::Rng::gen_range` over `rand::thread_rng()`: a number drawn
/// from `0..n`.
#[verifier::external_body]
pub fn random_below(n: usize) -> (r: usize)
    requires
        n > 0,
    ensures
        r < n,
{
    rand::thread_rng().gen_range(0..n)
}

/// Relies on `rand::seq::SliceRandom::choose` with `rand::thread_rng()`:
/// `None` for an empty slice, otherwise one of its elements.
#[verifier::external_body]
pub fn choose_one(v: &[usize]) -> (r: Option<usize>)
    ensures
        r is None <==> v@.len() == 0,
        r matches Some(x) ==> v@.contains(x),
{
    rand::seq::SliceRandom::choose(v, &mut rand::thread_rng()).copied()
}

/// Relies on `String::from_utf8`: it succeeds exactly on valid UTF-8 and keeps
/// the characters that the bytes encode.
#[verifier::external_body]
pub fn utf8_string(b: &[u8]) -> (r: Option<String>)
    ensures
        r is Some <==> valid_utf8(b@),
        r matches Some(s) ==> s@ == decode_utf8(b@),
{
    String::from_utf8(b.to_vec()).ok()
}

/// Relies on `String::push`: appends one character.
#[verifier::external_body]
pub fn push_char(s: &mut String, c: char)
    ensures
        final(s)@ == old(s)@.push(c),
{
    s.push(c)
}

pub open spec fn is_hex_char(c: char) -> bool {
    ('0' <= c <= '9') || ('a' <= c <= 'f') || ('A' <= c <= 'F')
}

pub open spec fn hex_value(c: char) -> int {
    if '0' <= c <= '9' {
        c as int - 48
    } else if 'a' <= c <= 'f' {
        c as int - 87
    } else {
        c as int - 55
    }
}

/// The bytes that a string of hex digit pairs spells.
pub open spec fn hex_bytes(s: Seq<char>) -> Seq<u8> {
    Seq::new(s.len() / 2, |i: int| (hex_value(s[2 * i]) * 16 + hex_value(s[2 * i + 1])) as u8)
}

/// Relies on `hex::decode`: it fails on an odd length or on a character that
/// is not a hex digit, and otherwise turns each pair of digits into a byte.
#[verifier::external_body]
pub fn hex_decode(s: &str) -> (r: Option<Vec<u8>>)
    ensures
        r is Some <==> (s@.len() % 2 == 0 && forall|i: int|
            0 <= i < s@.len() ==> is_hex_char(#[trigger] s@[i])),
        r matches Some(b) ==> b@ == hex_bytes(s@),
{
    hex::decode(s).ok()
}

/// Bit `i` of `b`, counting from the most significant bit of the first byte.
pub open spec fn msb_bit(b: Seq<u8>, i: int) -> bool {
    (b[i / 8] as nat / pow2((7 - i % 8) as nat)) % 2 == 1
}

/// Relies on `bitvec`: `BitVec::<u8, Msb0>::from_vec(..).iter_ones()` yields,
/// in ascending order, the index of every set bit, most significant bit first.
/// `from_vec` panics on a vector too long to address by bit, which the bound
/// keeps out.
#[verifier::external_body]
pub fn set_bit_indices(b: &[u8]) -> (r: Vec<usize>)
    requires
        b@.len() < 0x400_0000,
    ensures
        forall|k: int, l: int| 0 <= k < l < r@.len() ==> r@[k] < r@[l],
        forall|k: int| 0 <= k < r@.len() ==> r@[k] < 8 * b@.len() && msb_bit(b@, r@[k] as int),
        forall|i: int|
            0 <= i < 8 * b@.len() && msb_bit(b@, i) ==> r@.contains(i as usize),
{
    bitvec::vec::BitVec::<u8, bitvec::order::Msb0>::from_vec(b.to_vec()).iter_ones().collect()
}

/// What a URL parser makes of a string: the scheme, the decoded query pairs in
/// order, and the serialized URL.
pub struct UrlParts {
    pub scheme: String,
    pub query: Vec<(String, String)>,
    pub text: String,
}

pub open spec fn url_parts_view(u: UrlParts) -> (Seq<char>, Seq<(Seq<char>, Seq<char>)>, Seq<char>) {
    (u.scheme@, u.query@.map_values(|p: (String, String)| (p.0@, p.1@)), u.text@)
}

/// What `url::Url::parse` makes of a string, which depends on the string alone.
pub uninterp spec fn parsed_url(s: Seq<char>) -> Option<(Seq<char>, Seq<(Seq<char>, Seq<char>)>, Seq<char>)>;

/// Relies on `url::Url::parse`, then its `scheme`, `query_pairs` and `as_str`.
#[verifier::external_body]
pub fn parse_url(s: &str) -> (r: Option<UrlParts>)
    ensures
        r is Some <==> parsed_url(s@) is Some,
        r matches Some(u) ==> parsed_url(s@) == Some(url_parts_view(u)),
{
    let u = url::Url::parse(s).ok()?;
    Some(UrlParts {
        scheme: u.scheme().to_string(),
        query: u.query_pairs().map(|(k, v)| (k.into_owned(), v.into_owned())).collect(),
        text: u.as_str().to_string(),
    })
}

} // verus!
