//! Hex text of digests, and the SHA-256 digest of file contents.
use sha2::Digest;
use vstd::prelude::*;

use crate::text::is_digit;

verus! {

/// The error of hex::decode_to_slice, carried through opaque.
#[verifier::external_type_specification]
#[verifier::external_body]
pub struct ExFromHexError(hex::FromHexError);

/// The SHA-256 digest of a byte sequence.
pub uninterp spec fn sha256_of(data: Seq<u8>) -> Seq<u8>;

pub open spec fn is_hex_lower(c: char) -> bool {
    is_digit(c) || ('a' <= c && c <= 'f')
}

pub open spec fn all_hex_lower(s: Seq<char>) -> bool {
    forall|i: int| 0 <= i < s.len() ==> is_hex_lower(#[trigger] s[i])
}

/// The lowercase hex digit of a nibble.
pub open spec fn hex_digit(n: nat) -> char {
    if n < 10 {
        (n + 48) as char
    } else {
        (n + 87) as char
    }
}

/// The value of a hex digit.
pub open spec fn hex_val(c: char) -> nat {
    if is_digit(c) {
        (c as int - 48) as nat
    } else {
        (c as int - 87) as nat
    }
}

/// Two lowercase hex digits per byte, high nibble first.
pub open spec fn hex_of(b: Seq<u8>) -> Seq<char>
    decreases b.len(),
{
    if b.len() == 0 {
        Seq::empty()
    } else {
        hex_of(b.drop_last()) + seq![hex_digit(b.last() as nat / 16), hex_digit(b.last() as nat % 16)]
    }
}

/// The bytes that pairs of hex digits stand for.
pub open spec fn bytes_of_hex(s: Seq<char>) -> Seq<u8> {
    Seq::new(s.len() / 2, |i: int| (hex_val(s[2 * i]) * 16 + hex_val(s[2 * i + 1])) as u8)
}

/// Relies on hex::encode: two lowercase digits per byte, high nibble first.
#[verifier::external_body]
pub(crate) fn hex_encode(data: &[u8; 32]) -> (r: String)
    ensures
        r@ == hex_of(data@),
{
    hex::encode(data)
}

/// Relies on hex::decode_to_slice: an even number of hex digits, two per
/// output byte, decodes without error.
#[verifier::external_body]
pub(crate) fn hex_decode(s: &str) -> (r: Result<[u8; 32], hex::FromHexError>)
    ensures
        s@.len() == 64 && all_hex_lower(s@) ==> r is Ok && r->Ok_0@ == bytes_of_hex(s@),
{
    let mut out = [0u8; 32];
    match hex::decode_to_slice(s, &mut out) {
        Ok(()) => Ok(out),
        Err(e) => Err(e),
    }
}

/// Relies on sha2::Sha256::digest: the digest depends on the bytes alone.
#[verifier::external_body]
pub(crate) fn sha256(data: &[u8]) -> (r: [u8; 32])
    ensures
        r@ == sha256_of(data@),
{
    sha2::Sha256::digest(data).into()
}

pub proof fn lemma_hex_digit(n: nat)
    requires
        n < 16,
    ensures
        is_hex_lower(hex_digit(n)),
        hex_val(hex_digit(n)) == n,
{
}

pub proof fn lemma_hex_of(b: Seq<u8>)
    ensures
        hex_of(b).len() == 2 * b.len(),
        all_hex_lower(hex_of(b)),
        forall|i: int|
            0 <= i < b.len() ==> #[trigger] hex_of(b)[2 * i] == hex_digit(b[i] as nat / 16)
                && hex_of(b)[2 * i + 1] == hex_digit(b[i] as nat % 16),
    decreases b.len(),
{
    if b.len() > 0 {
        lemma_hex_of(b.drop_last());
        lemma_hex_digit(b.last() as nat / 16);
        lemma_hex_digit(b.last() as nat % 16);
        assert forall|i: int| 0 <= i < hex_of(b).len() implies is_hex_lower(
            #[trigger] hex_of(b)[i],
        ) by {
            if i < hex_of(b.drop_last()).len() {
                assert(hex_of(b)[i] == hex_of(b.drop_last())[i]);
            }
        }
        assert forall|i: int| 0 <= i < b.len() implies #[trigger] hex_of(b)[2 * i] == hex_digit(
            b[i] as nat / 16,
        ) && hex_of(b)[2 * i + 1] == hex_digit(b[i] as nat % 16) by {
            if i < b.len() - 1 {
                assert(b.drop_last()[i] == b[i]);
                assert(hex_of(b.drop_last())[2 * i] == hex_digit(b.drop_last()[i] as nat / 16));
            }
        }
    }
}

/// Decoding the hex text of bytes gives the bytes back.
pub proof fn lemma_hex_round_trip(b: Seq<u8>)
    ensures
        bytes_of_hex(hex_of(b)) == b,
        all_hex_lower(hex_of(b)),
        hex_of(b).len() == 2 * b.len(),
{
    lemma_hex_of(b);
    let h = hex_of(b);
    assert forall|i: int| 0 <= i < b.len() implies #[trigger] bytes_of_hex(h)[i] == b[i] by {
        assert(h[2 * i] == hex_digit(b[i] as nat / 16));
        lemma_hex_digit(b[i] as nat / 16);
        lemma_hex_digit(b[i] as nat % 16);
    }
    assert(bytes_of_hex(h) =~= b);
}

} // verus!
