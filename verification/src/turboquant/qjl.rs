//! Seeds and sign bits of the projection that corrects quantized inner products.

use crate::numerals;
use crate::text;
use crate::turboquant::codebooks;
use vstd::prelude::*;

verus! {

/// The seed of one row of the projection: the seed of the whole, a colon, the row.
pub fn row_seed(seed: &str, row_index: usize) -> (r: String)
    ensures
        r@ == seed@ + ":"@ + numerals::spec_decimal(row_index as nat),
{
    text::owned(seed).concat(":").concat(numerals::decimal_usize(row_index).as_str())
}

/// Whether `buf` holds one bit for each sign, set where the projection is not negative, and
/// zeros up to a whole byte.
pub open spec fn sign_bits(signs: Seq<bool>, buf: Seq<u8>) -> bool {
    &&& buf.len() == (signs.len() + 7) / 8
    &&& forall|k: int|
        0 <= k < 8 * buf.len() ==> #[trigger] codebooks::stream_bit(buf, k) == (k < signs.len()
            && signs[k])
}

/// Pack the signs of the projections of a residual.
pub fn qjl_project(signs: &[bool]) -> (buf: Vec<u8>)
    ensures
        sign_bits(signs@, buf@),
{
    let mut ones: Vec<u8> = Vec::new();
    for i in 0..signs.len()
        invariant
            ones@.len() == i,
            forall|j: int|
                0 <= j < i ==> #[trigger] ones@[j] == if signs@[j] {
                    1u8
                } else {
                    0u8
                },
    {
        ones.push(
            if signs[i] {
                1
            } else {
                0
            },
        );
    }
    match codebooks::pack_indices(ones.as_slice(), 1) {
        Ok(buf) => {
            assert((1u8 >> 0u8) & 1 == 1 && (0u8 >> 0u8) & 1 == 0) by (bit_vector);
            assert forall|k: int| 0 <= k < 8 * buf@.len() implies #[trigger] codebooks::stream_bit(
                buf@,
                k,
            ) == (k < signs@.len() && signs@[k]) by {
                assert(codebooks::stream_bit(buf@, k) == codebooks::code_bit(ones@, 1, k));
            }
            buf
        },
        Err(_) => Vec::new(),
    }
}

} // verus!
