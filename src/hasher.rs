//! Digests of file contents and of ordered sequences of child digests.
use vstd::prelude::*;
use vstd::utf8::encode_utf8;

verus! {

/// What SHA-256 yields for a byte sequence.
pub uninterp spec fn sha256_of(data: Seq<u8>) -> Seq<u8>;

/// Relies on `sha2::Sha256::digest` (through the `digest` crate's `Digest`
/// trait): the 32-byte SHA-256 of `data`.
#[verifier::external_body]
fn sha256(data: &[u8]) -> (r: Vec<u8>)
    ensures
        r@ == sha256_of(data@),
        r@.len() == 32,
{
    <sha2::Sha256 as sha2::Digest>::digest(data).to_vec()
}

/// Relies on `String::push`: appends one character.
#[verifier::external_body]
pub(crate) fn push_char(s: &mut String, c: char)
    ensures
        final(s)@ == old(s)@.push(c),
{
    s.push(c)
}

/// The lowercase hexadecimal digit of a value below 16.
pub open spec fn hex_digit(v: u8) -> char {
    if v < 10 {
        ((v + 48) as u8) as char
    } else {
        ((v + 87) as u8) as char
    }
}

/// Two lowercase hexadecimal digits per byte, high nibble first.
pub open spec fn hex_of(bytes: Seq<u8>) -> Seq<char>
    decreases bytes.len(),
{
    if bytes.len() == 0 {
        seq![]
    } else {
        let b = bytes.last();
        hex_of(bytes.drop_last()) + seq![hex_digit(b / 16), hex_digit(b % 16)]
    }
}

/// The digest of a byte sequence: its SHA-256 in lowercase hexadecimal.
pub open spec fn content_digest(data: Seq<u8>) -> Seq<char> {
    hex_of(sha256_of(data))
}

/// The UTF-8 bytes of a sequence of strings, one after the other.
pub open spec fn joined_bytes(parts: Seq<Seq<char>>) -> Seq<u8>
    decreases parts.len(),
{
    if parts.len() == 0 {
        seq![]
    } else {
        joined_bytes(parts.drop_last()) + encode_utf8(parts.last())
    }
}

/// The digest of an ordered sequence of digests: the digest of their
/// concatenation.
pub open spec fn children_digest(digests: Seq<Seq<char>>) -> Seq<char> {
    content_digest(joined_bytes(digests))
}

/// Files with the same bytes have the same digest, wherever they are.
pub proof fn law_same_content_same_digest(a: Seq<u8>, b: Seq<u8>)
    requires
        a == b,
    ensures
        content_digest(a) == content_digest(b),
{
}

proof fn lemma_hex_len(bytes: Seq<u8>)
    ensures
        hex_of(bytes).len() == 2 * bytes.len(),
    decreases bytes.len(),
{
    if bytes.len() > 0 {
        lemma_hex_len(bytes.drop_last());
    }
}

fn hex_char(v: u8) -> (c: char)
    requires
        v < 16,
    ensures
        c == hex_digit(v),
{
    if v < 10 {
        (v + 48) as char
    } else {
        (v + 87) as char
    }
}

/// Lowercase hexadecimal rendering of a byte sequence.
pub fn to_lower_hex(bytes: &[u8]) -> (r: String)
    ensures
        r@ == hex_of(bytes@),
        r@.len() == 2 * bytes@.len(),
{
    proof {
        lemma_hex_len(bytes@);
    }
    let mut out = String::new();
    let mut i: usize = 0;
    while i < bytes.len()
        invariant
            i <= bytes@.len(),
            out@ == hex_of(bytes@.subrange(0, i as int)),
        decreases bytes@.len() - i,
    {
        let b = bytes[i];
        push_char(&mut out, hex_char(b / 16));
        push_char(&mut out, hex_char(b % 16));
        assert(bytes@.subrange(0, i + 1).drop_last() == bytes@.subrange(0, i as int));
        i = i + 1;
    }
    assert(bytes@.subrange(0, i as int) == bytes@);
    out
}

/// The digest of a file's full byte content.
pub fn hash_content(data: &[u8]) -> (r: String)
    ensures
        r@ == content_digest(data@),
        r@.len() == 64,
{
    let d = sha256(data);
    to_lower_hex(d.as_slice())
}

/// The digest of the given digests, concatenated in the given order.
/// No reordering takes place here: callers supply the canonical order.
pub fn hash_children(digests: &Vec<String>) -> (r: String)
    ensures
        r@ == children_digest(digests.deep_view()),
{
    let mut bytes: Vec<u8> = Vec::new();
    let mut i: usize = 0;
    while i < digests.len()
        invariant
            i <= digests@.len(),
            bytes@ == joined_bytes(digests.deep_view().subrange(0, i as int)),
        decreases digests@.len() - i,
    {
        let part = digests[i].as_str().as_bytes();
        let mut j: usize = 0;
        let ghost before = bytes@;
        while j < part.len()
            invariant
                j <= part@.len(),
                bytes@ == before + part@.subrange(0, j as int),
            decreases part@.len() - j,
        {
            bytes.push(part[j]);
            assert(part@.subrange(0, j + 1) == part@.subrange(0, j as int).push(part@[j as int]));
            j = j + 1;
        }
        assert(part@.subrange(0, j as int) == part@);
        assert(digests.deep_view().subrange(0, i + 1).drop_last()
            == digests.deep_view().subrange(0, i as int));
        i = i + 1;
    }
    assert(digests.deep_view().subrange(0, i as int) == digests.deep_view());
    hash_content(bytes.as_slice())
}

} // verus!
