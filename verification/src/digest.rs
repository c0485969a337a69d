//! Deterministic identifiers and content hashes.
//!
//! A file's identifier is the lowercase hex encoding of the MD5 digest of
//! its path, so re-ingesting the same path always yields the same
//! identifier. Content hashes use the same digest over the converted text.

use vstd::prelude::*;
use crate::strings::push_char;

verus! {

/// The MD5 digest (16 bytes) of the UTF-8 encoding of `s`.
pub uninterp spec fn md5_of(s: Seq<char>) -> Seq<u8>;

/// Computes the MD5 digest of a string.
///
/// Relies on `md5::compute`: it returns the 16-byte MD5 digest of its
/// input, a pure function of the input bytes alone.
#[verifier::external_body]
fn md5_bytes(s: &str) -> (r: Vec<u8>)
    ensures
        r@ == md5_of(s@),
        r@.len() == 16,
{
    md5::compute(s.as_bytes()).0.to_vec()
}

/// Draws a fresh random point identifier.
///
/// Relies on `uuid::Uuid::new_v4` (a freshly generated random UUID) and
/// `Uuid::as_u128` (its 128-bit value). The result is random, so nothing
/// is promised of it.
#[verifier::external_body]
pub(crate) fn fresh_point_id() -> u128 {
    uuid::Uuid::new_v4().as_u128()
}

/// The lowercase hex digit for a value below 16.
pub open spec fn hex_digit(n: u8) -> char {
    if n == 0 {
        '0'
    } else if n == 1 {
        '1'
    } else if n == 2 {
        '2'
    } else if n == 3 {
        '3'
    } else if n == 4 {
        '4'
    } else if n == 5 {
        '5'
    } else if n == 6 {
        '6'
    } else if n == 7 {
        '7'
    } else if n == 8 {
        '8'
    } else if n == 9 {
        '9'
    } else if n == 10 {
        'a'
    } else if n == 11 {
        'b'
    } else if n == 12 {
        'c'
    } else if n == 13 {
        'd'
    } else if n == 14 {
        'e'
    } else {
        'f'
    }
}

/// Executable twin of `hex_digit`.
fn hex_digit_char(n: u8) -> (c: char)
    requires
        n < 16,
    ensures
        c == hex_digit(n),
{
    if n == 0 {
        '0'
    } else if n == 1 {
        '1'
    } else if n == 2 {
        '2'
    } else if n == 3 {
        '3'
    } else if n == 4 {
        '4'
    } else if n == 5 {
        '5'
    } else if n == 6 {
        '6'
    } else if n == 7 {
        '7'
    } else if n == 8 {
        '8'
    } else if n == 9 {
        '9'
    } else if n == 10 {
        'a'
    } else if n == 11 {
        'b'
    } else if n == 12 {
        'c'
    } else if n == 13 {
        'd'
    } else if n == 14 {
        'e'
    } else {
        'f'
    }
}

/// The lowercase hex encoding of a byte sequence, two digits per byte.
pub open spec fn hex_of(bytes: Seq<u8>) -> Seq<char>
    decreases bytes.len(),
{
    if bytes.len() == 0 {
        Seq::empty()
    } else {
        seq![hex_digit(bytes[0] / 16), hex_digit(bytes[0] % 16)] + hex_of(bytes.drop_first())
    }
}

/// The hex encoding is two characters per byte.
pub proof fn lemma_hex_of_len(bytes: Seq<u8>)
    ensures
        hex_of(bytes).len() == 2 * bytes.len(),
    decreases bytes.len(),
{
    if bytes.len() > 0 {
        lemma_hex_of_len(bytes.drop_first());
    }
}

/// Encodes bytes as lowercase hex, two digits per byte.
pub fn to_hex_lower(bytes: &Vec<u8>) -> (r: String)
    ensures
        r@ == hex_of(bytes@),
{
    let mut r = String::new();
    let mut i: usize = 0;
    assert(bytes@.skip(0) =~= bytes@);
    while i < bytes.len()
        invariant
            i <= bytes@.len(),
            r@ + hex_of(bytes@.skip(i as int)) == hex_of(bytes@),
        decreases bytes@.len() - i,
    {
        let ghost pre = bytes@.skip(i as int);
        assert(pre.drop_first() =~= bytes@.skip(i as int + 1));
        assert(pre[0] == bytes@[i as int]);
        let b = bytes[i];
        assert(b / 16 < 16 && b % 16 < 16) by (bit_vector);
        push_char(&mut r, hex_digit_char(b / 16));
        push_char(&mut r, hex_digit_char(b % 16));
        proof {
            assert(hex_of(pre) == seq![hex_digit(pre[0] / 16), hex_digit(pre[0] % 16)] + hex_of(
                pre.drop_first(),
            ));
            assert(r@ + hex_of(bytes@.skip(i as int + 1)) =~= hex_of(bytes@));
        }
        i = i + 1;
    }
    assert(bytes@.skip(bytes@.len() as int) =~= Seq::<u8>::empty());
    assert(r@ + hex_of(bytes@.skip(bytes@.len() as int)) =~= r@);
    r
}

/// The deterministic identifier of a file: the lowercase hex encoding of
/// the MD5 digest of its path.
pub open spec fn file_id_spec(path: Seq<char>) -> Seq<char> {
    hex_of(md5_of(path))
}

/// Computes the deterministic file identifier for a path. The identifier
/// is a pure function of the path, so re-ingesting the same path yields
/// the same identifier.
pub fn compute_file_id(path: &str) -> (r: String)
    ensures
        r@ == file_id_spec(path@),
        r@.len() == 32,
{
    let bytes = md5_bytes(path);
    proof {
        lemma_hex_of_len(bytes@);
    }
    to_hex_lower(&bytes)
}

/// Computes the content hash of a document's converted text: the lowercase
/// hex encoding of its MD5 digest.
pub fn compute_content_hash(text: &str) -> (r: String)
    ensures
        r@ == hex_of(md5_of(text@)),
        r@.len() == 32,
{
    let bytes = md5_bytes(text);
    proof {
        lemma_hex_of_len(bytes@);
    }
    to_hex_lower(&bytes)
}

} // verus!
