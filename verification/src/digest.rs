//! Checksums and their hexadecimal form.

use crypto::digest::Digest;
use crypto::sha1::Sha1;
use vstd::prelude::*;

verus! {

/// The content checksum of an object.
pub type ObjectChecksum = [u8; 20];

/// The SHA-1 digest of a byte string.
pub uninterp spec fn sha1_of(data: Seq<u8>) -> Seq<u8>;

/// Wraps `crypto::sha1::Sha1`: one `input` of all the bytes, then `result`. The
/// digest is a function of the bytes. `Sha1` counts the bits of its input in
/// 64 bits and panics where that count overflows.
#[verifier::external_body]
pub(crate) fn sha1(data: &[u8]) -> (r: ObjectChecksum)
    requires
        data@.len() < 0x2000_0000_0000_0000,
    ensures
        r@ == sha1_of(data@),
{
    let mut checksum = [0u8; 20];
    let mut hasher = Sha1::new();
    hasher.input(data);
    hasher.result(&mut checksum);
    checksum
}

/// The lower-case hexadecimal digit with the given value.
pub open spec fn hex_digit(v: int) -> char {
    if v < 10 {
        (('0' as u32) + v) as char
    } else {
        (('a' as u32) + (v - 10)) as char
    }
}

/// The value of a hexadecimal digit of either case.
pub open spec fn hex_value(c: char) -> Option<int> {
    if '0' <= c <= '9' {
        Some((c as u32) - ('0' as u32))
    } else if 'a' <= c <= 'f' {
        Some((c as u32) - ('a' as u32) + 10)
    } else if 'A' <= c <= 'F' {
        Some((c as u32) - ('A' as u32) + 10)
    } else {
        None
    }
}

/// The lower-case hexadecimal form of a byte string: two digits for each byte.
pub open spec fn hex_of(bytes: Seq<u8>) -> Seq<char> {
    Seq::new(
        2 * bytes.len(),
        |i: int|
            hex_digit(
                if i % 2 == 0 {
                    (bytes[i / 2] / 16) as int
                } else {
                    (bytes[i / 2] % 16) as int
                },
            ),
    )
}

/// The byte string with the given hexadecimal form, if it is one.
pub open spec fn unhex(s: Seq<char>) -> Option<Seq<u8>> {
    if s.len() % 2 == 0 && (forall|i: int| 0 <= i < s.len() ==> hex_value(#[trigger] s[i]) is Some) {
        Some(
            Seq::new(
                s.len() / 2,
                |i: int| (16 * hex_value(s[2 * i])->0 + hex_value(s[2 * i + 1])->0) as u8,
            ),
        )
    } else {
        None
    }
}

/// Wraps `hex::encode`: two lower-case digits for each byte, the high one first.
#[verifier::external_body]
pub(crate) fn hex_encode(bytes: &[u8]) -> (r: String)
    requires
        bytes@.len() <= usize::MAX / 2,
    ensures
        r@ == hex_of(bytes@),
{
    hex::encode(bytes)
}

/// Wraps `hex::decode`: it succeeds on an even number of hexadecimal digits of
/// either case, and gives one byte for each two.
#[verifier::external_body]
pub(crate) fn hex_decode(s: &str) -> (r: Option<Vec<u8>>)
    ensures
        r is Some <==> unhex(s@) is Some,
        r matches Some(v) ==> unhex(s@) == Some(v@),
{
    hex::decode(s).ok()
}

/// Decoding a hexadecimal form gives the bytes back.
pub proof fn law_hex_round_trip(bytes: Seq<u8>)
    ensures
        unhex(hex_of(bytes)) == Some(bytes),
{
    let s = hex_of(bytes);
    assert forall|i: int| 0 <= i < s.len() implies hex_value(#[trigger] s[i]) is Some by {
        let b = bytes[i / 2];
        assert(0 <= b / 16 < 16 && 0 <= b % 16 < 16);
    }
    assert forall|i: int| 0 <= i < bytes.len() implies 16 * hex_value(s[2 * i])->0 + hex_value(
        s[2 * i + 1],
    )->0 == #[trigger] bytes[i] by {
        let b = bytes[i];
        assert((2 * i) / 2 == i && (2 * i + 1) / 2 == i);
        assert(hex_value(hex_digit((b / 16) as int)) == Some((b / 16) as int));
        assert(hex_value(hex_digit((b % 16) as int)) == Some((b % 16) as int));
    }
    assert(unhex(s)->0 =~= bytes);
}

/// Lower case and upper case digits stand for the same values, and only digits
/// can be read.
pub proof fn law_hex_digits(c: char)
    ensures
        hex_value(c) is Some <==> ('0' <= c && c <= '9') || ('a' <= c && c <= 'f') || ('A' <= c
            && c <= 'F'),
        hex_value(c) matches Some(v) ==> 0 <= v < 16 && (hex_digit(v) == c || hex_digit(v) as int
            == c as int + 32),
{
}

} // verus!
