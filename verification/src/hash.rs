//! The 64-bit FNV-1a hash, stable across versions and machines.

use crate::numerals;
use vstd::prelude::*;
use vstd::utf8;

verus! {

/// Where the hash starts.
pub const FNV_OFFSET: u64 = 0xcbf2_9ce4_8422_2325;

/// What the hash is multiplied by after each byte.
pub const FNV_PRIME: u64 = 0x0000_0100_0000_01b3;

/// The FNV-1a hash of some bytes.
pub open spec fn spec_fnv1a(bytes: Seq<u8>) -> u64
    decreases bytes.len(),
{
    if bytes.len() == 0 {
        FNV_OFFSET
    } else {
        (spec_fnv1a(bytes.drop_last()) ^ (bytes.last() as u64)).wrapping_mul(FNV_PRIME)
    }
}

/// The FNV-1a hash of a text as sixteen hexadecimal digits.
pub open spec fn spec_digest(s: Seq<char>) -> Seq<char> {
    numerals::spec_hex(spec_fnv1a(utf8::encode_utf8(s)) as nat, 16)
}

/// The FNV-1a hash of some bytes.
pub fn fnv1a(bytes: &[u8]) -> (r: u64)
    ensures
        r == spec_fnv1a(bytes@),
{
    let mut hash: u64 = FNV_OFFSET;
    assert(bytes@.take(0) =~= Seq::empty());
    for i in 0..bytes.len()
        invariant
            hash == spec_fnv1a(bytes@.take(i as int)),
    {
        assert(bytes@.take(i + 1).drop_last() =~= bytes@.take(i as int));
        hash = (hash ^ (bytes[i] as u64)).wrapping_mul(FNV_PRIME);
    }
    assert(bytes@.take(bytes@.len() as int) =~= bytes@);
    hash
}

/// The FNV-1a hash of a text as sixteen hexadecimal digits.
pub fn digest(s: &str) -> (r: String)
    ensures
        r@ == spec_digest(s@),
{
    numerals::hex16(fnv1a(s.as_bytes()))
}

/// A hash starts at a fixed number and takes in one byte after another: the byte is mixed in by
/// exclusive or, and the outcome multiplied by a fixed prime, in sixty-four bits.
pub proof fn law_bytes_are_taken_in(bytes: Seq<u8>, b: u8)
    ensures
        spec_fnv1a(Seq::empty()) == 0xcbf2_9ce4_8422_2325,
        spec_fnv1a(bytes.push(b)) == (spec_fnv1a(bytes) ^ (b as u64)).wrapping_mul(
            0x0000_0100_0000_01b3,
        ),
{
    assert(bytes.push(b).drop_last() =~= bytes);
}

/// The digest of a text has sixteen hexadecimal digits, which stand for the hash of its bytes.
pub proof fn law_digests(s: Seq<char>)
    ensures
        spec_digest(s).len() == 16,
        numerals::hex_value(spec_digest(s)) == spec_fnv1a(utf8::encode_utf8(s)),
        forall|i: int|
            0 <= i < 16 ==> ('0' <= #[trigger] spec_digest(s)[i] <= '9' || 'a' <= spec_digest(s)[i]
                <= 'f'),
{
    numerals::law_hexadecimal(spec_fnv1a(utf8::encode_utf8(s)) as nat, 16);
    numerals::lemma_sixteen_to_sixteen();
}

} // verus!
