//! SHA-256 content hashes rendered as lowercase hexadecimal text.
use vstd::prelude::*;

verus! {

/// The 32-byte SHA-256 digest of `b`.
pub uninterp spec fn sha256_of(b: Seq<u8>) -> Seq<u8>;

/// The lowercase hexadecimal digit for `n` (which is below 16).
pub open spec fn hex_digit(n: u8) -> char {
    if n < 10 {
        (n + 48) as char
    } else {
        (n + 87) as char
    }
}

/// Two lowercase hexadecimal digits per byte, high nibble first.
pub open spec fn hex_lower(b: Seq<u8>) -> Seq<char>
    decreases b.len(),
{
    if b.len() == 0 {
        Seq::empty()
    } else {
        let last = b.last();
        hex_lower(b.drop_last()) + seq![hex_digit(last / 16), hex_digit(last % 16)]
    }
}

/// A character of the object-naming alphabet `0-9a-f`.
pub open spec fn is_hex_char(c: char) -> bool {
    ('0' <= c && c <= '9') || ('a' <= c && c <= 'f')
}

/// The name of an object: 64 lowercase hexadecimal characters.
pub open spec fn is_object_hash(s: Seq<char>) -> bool {
    s.len() == 64 && forall|i: int| 0 <= i < s.len() ==> is_hex_char(#[trigger] s[i])
}

/// The name under which the payload `b` is stored.
pub open spec fn object_hash(b: Seq<u8>) -> Seq<char> {
    hex_lower(sha256_of(b))
}

pub proof fn lemma_hex_lower(b: Seq<u8>)
    ensures
        hex_lower(b).len() == 2 * b.len(),
        forall|i: int| 0 <= i < hex_lower(b).len() ==> is_hex_char(#[trigger] hex_lower(b)[i]),
    decreases b.len(),
{
    if b.len() > 0 {
        lemma_hex_lower(b.drop_last());
        let last = b.last();
        assert(is_hex_char(hex_digit(last / 16)));
        assert(is_hex_char(hex_digit(last % 16)));
        let h = hex_lower(b);
        let p = hex_lower(b.drop_last());
        assert forall|i: int| 0 <= i < h.len() implies is_hex_char(#[trigger] h[i]) by {
            if i < p.len() {
                assert(h[i] == p[i]);
            }
        }
    }
}

/// Relies on `sha2::Sha256::digest`: the SHA-256 digest of the bytes, 32 bytes long.
#[verifier::external_body]
fn sha256_digest(bytes: &[u8]) -> (r: Vec<u8>)
    ensures
        r@ == sha256_of(bytes@),
        r@.len() == 32,
{
    <sha2::Sha256 as sha2::Digest>::digest(bytes).to_vec()
}

/// Relies on `hex::encode`: each byte becomes two lowercase digits, high nibble first.
#[verifier::external_body]
fn hex_encode(bytes: &[u8]) -> (r: String)
    ensures
        r@ == hex_lower(bytes@),
{
    hex::encode(bytes)
}

/// The object name of `bytes`: hex-encoded SHA-256, 64 lowercase characters.
pub fn sha256_hex(bytes: &[u8]) -> (r: String)
    ensures
        r@ == object_hash(bytes@),
        is_object_hash(r@),
{
    let d = sha256_digest(bytes);
    let r = hex_encode(d.as_slice());
    proof {
        lemma_hex_lower(d@);
    }
    r
}

/// The name under which the UTF-8 encoding of the text `s` is stored.
pub open spec fn text_hash(s: Seq<char>) -> Seq<char> {
    object_hash(vstd::utf8::encode_utf8(s))
}

/// The object name of the UTF-8 bytes of `s`.
pub fn text_sha256_hex(s: &str) -> (r: String)
    ensures
        r@ == text_hash(s@),
        is_object_hash(r@),
{
    sha256_hex(s.as_bytes())
}

/// Whether `s` is an object name: 64 characters from `0-9a-f`.
pub fn is_hash_text(s: &str) -> (r: bool)
    ensures
        r == is_object_hash(s@),
{
    let n = s.unicode_len();
    if n != 64 {
        return false;
    }
    let mut i: usize = 0;
    while i < n
        invariant
            n == s@.len(),
            i <= n,
            forall|q: int| 0 <= q < i ==> is_hex_char(#[trigger] s@[q]),
        decreases n - i,
    {
        let c = s.get_char(i);
        if !(('0' <= c && c <= '9') || ('a' <= c && c <= 'f')) {
            return false;
        }
        i = i + 1;
    }
    true
}

} // verus!
