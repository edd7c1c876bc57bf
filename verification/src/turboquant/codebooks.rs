//! Codebooks, and packing quantization indices into bytes.
//!
//! A codebook has a centroid for each index and a boundary between every two centroids.
//!
//! Indices of one to four bits stand one after another in a stream of bits; the stream is cut
//! into bytes, lowest bit first, and the last byte is filled up with zeros.

use crate::float32;
use vstd::arithmetic::div_mod;
use vstd::prelude::*;

verus! {

/// A bit width that no codebook has.
#[derive(Debug, Clone, Copy, PartialEq, Eq)]
pub struct UnsupportedBitWidth {
    pub bits: u8,
}

/// A codebook for a specific bit width. Numbers are given by their bit patterns.
#[derive(Debug)]
pub struct Codebook {
    pub centroids: Vec<u32>,
    pub boundaries: Vec<u32>,
    pub num_levels: usize,
}

impl Codebook {
    /// Whether there is a boundary between every two centroids, and an index for each.
    pub open spec fn wf(self) -> bool {
        &&& self.centroids@.len() == self.num_levels
        &&& self.boundaries@.len() + 1 == self.num_levels
        &&& self.num_levels <= 256
    }
}

/// Where halving the range from `lo` to `hi` ends: each step keeps the half on the side of
/// the middle boundary that the value lies on.
pub open spec fn bisect(value: u32, boundaries: Seq<u32>, lo: int, hi: int) -> int
    decreases hi - lo,
{
    if lo >= hi {
        lo
    } else {
        let mid = (lo + hi) / 2;
        if float32::below(boundaries[mid], value) {
            bisect(value, boundaries, mid + 1, hi)
        } else {
            bisect(value, boundaries, lo, mid)
        }
    }
}

/// Quantize a single number to the index of its centroid (binary search). Numbers are given
/// by their bit patterns.
pub fn quantize_scalar(value: u32, boundaries: &[u32]) -> (r: u8)
    requires
        2 * boundaries@.len() <= usize::MAX,
    ensures
        r == bisect(value, boundaries@, 0, boundaries@.len() as int) % 256,
{
    let mut lo: usize = 0;
    let mut hi: usize = boundaries.len();
    while lo < hi
        invariant
            lo <= hi <= boundaries@.len(),
            2 * boundaries@.len() <= usize::MAX,
            bisect(value, boundaries@, 0, boundaries@.len() as int) == bisect(
                value,
                boundaries@,
                lo as int,
                hi as int,
            ),
        decreases hi - lo,
    {
        let mid: usize = (lo + hi) / 2;
        if float32::less(boundaries[mid], value) {
            lo = mid + 1;
        } else {
            hi = mid;
        }
    }
    (lo % 256) as u8
}

/// The index that a codebook has for a number.
pub open spec fn index_in(value: u32, boundaries: Seq<u32>) -> int {
    bisect(value, boundaries, 0, boundaries.len() as int) % 256
}

/// The indices that a codebook has for numbers.
pub open spec fn indices_in(values: Seq<u32>, boundaries: Seq<u32>) -> Seq<u8> {
    values.map_values(|v: u32| index_in(v, boundaries) as u8)
}

/// Quantize a vector of coordinates to index array.
pub fn quantize_vector(rotated: &[u32], codebook: &Codebook) -> (r: Vec<u8>)
    requires
        2 * codebook.boundaries@.len() <= usize::MAX,
    ensures
        r@ == indices_in(rotated@, codebook.boundaries@),
{
    let mut out: Vec<u8> = Vec::new();
    for i in 0..rotated.len()
        invariant
            2 * codebook.boundaries@.len() <= usize::MAX,
            out@.len() == i,
            forall|j: int|
                0 <= j < i ==> #[trigger] out@[j] == index_in(
                    rotated@[j],
                    codebook.boundaries@,
                ),
    {
        out.push(quantize_scalar(rotated[i], codebook.boundaries.as_slice()));
    }
    assert(out@ =~= indices_in(rotated@, codebook.boundaries@));
    out
}

/// Dequantize index array back to centroid values.
pub fn dequantize_vector(indices: &[u8], codebook: &Codebook) -> (r: Vec<u32>)
    requires
        forall|i: int|
            0 <= i < indices@.len() ==> (#[trigger] indices@[i]) < codebook.centroids@.len(),
    ensures
        r@ == indices@.map_values(|k: u8| codebook.centroids@[k as int]),
{
    let mut out: Vec<u32> = Vec::new();
    for i in 0..indices.len()
        invariant
            forall|i: int|
                0 <= i < indices@.len() ==> (#[trigger] indices@[i]) < codebook.centroids@.len(),
            out@.len() == i,
            forall|j: int|
                0 <= j < i ==> #[trigger] out@[j] == codebook.centroids@[indices@[j] as int],
    {
        let k: u8 = indices[i];
        assert(k < codebook.centroids@.len());
        out.push(codebook.centroids[k as usize]);
    }
    assert(out@ =~= indices@.map_values(|k: u8| codebook.centroids@[k as int]));
    out
}

proof fn lemma_bisect_range(value: u32, boundaries: Seq<u32>, lo: int, hi: int)
    requires
        lo <= hi,
    ensures
        lo <= bisect(value, boundaries, lo, hi) <= hi,
    decreases hi - lo,
{
    if lo < hi {
        let mid = (lo + hi) / 2;
        if float32::below(boundaries[mid], value) {
            lemma_bisect_range(value, boundaries, mid + 1, hi);
        } else {
            lemma_bisect_range(value, boundaries, lo, mid);
        }
    }
}

/// Every number has a centroid: what a codebook quantizes, it can dequantize.
pub proof fn law_every_number_has_a_centroid(value: u32, codebook: Codebook)
    requires
        codebook.wf(),
    ensures
        0 <= index_in(value, codebook.boundaries@) < codebook.centroids@.len(),
{
    lemma_bisect_range(value, codebook.boundaries@, 0, codebook.boundaries@.len() as int);
}

/// Among boundaries none of which lies below one before it, the index of a number is how many of them lie below it:
/// exactly the boundaries before that index do.
pub proof fn law_index_counts_the_boundaries_below(value: u32, boundaries: Seq<u32>)
    requires
        forall|i: int, j: int|
            #![trigger boundaries[i], boundaries[j]]
            0 <= i < j < boundaries.len() ==> float32::at_most(boundaries[i], boundaries[j]),
    ensures
        0 <= bisect(value, boundaries, 0, boundaries.len() as int) <= boundaries.len(),
        forall|i: int|
            0 <= i < boundaries.len() ==> (float32::below(boundaries[i], value) <==> i < bisect(
                value,
                boundaries,
                0,
                boundaries.len() as int,
            )),
{
    lemma_bisect(value, boundaries, 0, boundaries.len() as int);
}

proof fn lemma_bisect(value: u32, boundaries: Seq<u32>, lo: int, hi: int)
    requires
        0 <= lo <= hi <= boundaries.len(),
        forall|i: int, j: int|
            #![trigger boundaries[i], boundaries[j]]
            0 <= i < j < boundaries.len() ==> float32::at_most(boundaries[i], boundaries[j]),
        forall|i: int| 0 <= i < lo ==> float32::below(boundaries[i], value),
        forall|i: int| hi <= i < boundaries.len() ==> !float32::below(boundaries[i], value),
    ensures
        lo <= bisect(value, boundaries, lo, hi) <= hi,
        forall|i: int|
            0 <= i < boundaries.len() ==> (float32::below(boundaries[i], value) <==> i < bisect(
                value,
                boundaries,
                lo,
                hi,
            )),
    decreases hi - lo,
{
    if lo < hi {
        let mid = (lo + hi) / 2;
        assert forall|i: int| 0 <= i < mid && float32::below(boundaries[mid], value) implies
            float32::below(boundaries[i], value) by {
            assert(float32::at_most(boundaries[i], boundaries[mid]));
        }
        assert forall|i: int|
            mid <= i < boundaries.len() && !float32::below(boundaries[mid], value) implies !(
            float32::below(boundaries[i], value)) by {
            if i > mid {
                assert(float32::at_most(boundaries[mid], boundaries[i]));
            }
        }
        if float32::below(boundaries[mid], value) {
            lemma_bisect(value, boundaries, mid + 1, hi);
        } else {
            lemma_bisect(value, boundaries, lo, mid);
        }
    }
}

/// Whether bit `t` of a byte is set.
pub open spec fn bit_of(v: u8, t: int) -> bool {
    (v >> (t as u8)) & 1 == 1
}

/// The value an index is stored as: its low bits, or, in the one-bit code, whether it is not
/// zero.
pub open spec fn code(v: u8, bits: u8) -> u8 {
    if bits == 1 {
        if v != 0 {
            1
        } else {
            0
        }
    } else if bits == 2 {
        v & 3
    } else if bits == 3 {
        v & 7
    } else {
        v & 15
    }
}

/// Bit `k` of the stream of codes: bit `k % bits` of code `k / bits`; no bit is set after the
/// last code.
pub open spec fn code_bit(indices: Seq<u8>, bits: u8, k: int) -> bool {
    k < indices.len() * bits && bit_of(code(indices[k / (bits as int)], bits), k % (bits as int))
}

/// Bit `k` of a buffer, lowest bit of each byte first; no bit is set after its end.
pub open spec fn stream_bit(buf: Seq<u8>, k: int) -> bool {
    k / 8 < buf.len() && bit_of(buf[k / 8], k % 8)
}

/// Whether `buf` holds the stream of codes of `indices` and zeros up to a whole byte.
pub open spec fn packs(indices: Seq<u8>, bits: u8, buf: Seq<u8>) -> bool {
    &&& buf.len() == (indices.len() * bits + 7) / 8
    &&& forall|k: int|
        0 <= k < 8 * buf.len() ==> #[trigger] stream_bit(buf, k) == code_bit(indices, bits, k)
}

/// Whether `indices` are the `n` values that stand in the bits of `buf`.
pub open spec fn unpacks(buf: Seq<u8>, bits: u8, n: nat, indices: Seq<u8>) -> bool {
    &&& indices.len() == n
    &&& forall|j: int| 0 <= j < n ==> code(#[trigger] indices[j], bits) == indices[j]
    &&& forall|j: int, t: int|
        0 <= j < n && 0 <= t < bits ==> #[trigger] bit_of(indices[j], t) == stream_bit(
            buf,
            j * bits + t,
        )
}

proof fn lemma_set_bit(b: u8, s: u8)
    requires
        s < 8,
    ensures
        forall|t: int|
            0 <= t < 8 ==> #[trigger] bit_of(b | (1u8 << s), t) == (t == s || bit_of(b, t)),
{
    assert forall|t: int| 0 <= t < 8 implies #[trigger] bit_of(b | (1u8 << s), t) == (t == s
        || bit_of(b, t)) by {
        let u = t as u8;
        assert(((b | (1u8 << s)) >> u) & 1 == 1 <==> (u == s || (b >> u) & 1 == 1)) by (bit_vector)
            requires
                s < 8,
                u < 8,
        ;
    }
}

proof fn lemma_zero_bits()
    ensures
        forall|t: int| 0 <= t < 8 ==> !(#[trigger] bit_of(0, t)),
{
    assert forall|t: int| 0 <= t < 8 implies !(#[trigger] bit_of(0, t)) by {
        let u = t as u8;
        assert((0u8 >> u) & 1 == 0) by (bit_vector);
    }
}

/// Two values that keep their code and agree on the bits of the code are equal.
proof fn lemma_code_bits(a: u8, b: u8, bits: u8)
    requires
        1 <= bits <= 4,
        code(a, bits) == a,
        code(b, bits) == b,
        forall|t: int| 0 <= t < bits ==> #[trigger] bit_of(a, t) == bit_of(b, t),
    ensures
        a == b,
{
    assert(a < 16 && b < 16) by {
        assert(a & 3 < 16 && a & 7 < 16 && a & 15 < 16) by (bit_vector);
        assert(b & 3 < 16 && b & 7 < 16 && b & 15 < 16) by (bit_vector);
    }
    if bits == 1 {
        assert(bit_of(a, 0) == bit_of(b, 0));
        assert(((a >> 0u8) & 1 == 1) == ((b >> 0u8) & 1 == 1) && a <= 1 && b <= 1 ==> a == b)
            by (bit_vector);
    } else if bits == 2 {
        assert(bit_of(a, 0) == bit_of(b, 0));
        assert(bit_of(a, 1) == bit_of(b, 1));
        assert(((a >> 0u8) & 1 == 1) == ((b >> 0u8) & 1 == 1) && ((a >> 1u8) & 1 == 1) == ((b
            >> 1u8) & 1 == 1) && a & 3 == a && b & 3 == b ==> a == b) by (bit_vector);
    } else if bits == 3 {
        assert(bit_of(a, 0) == bit_of(b, 0));
        assert(bit_of(a, 1) == bit_of(b, 1));
        assert(bit_of(a, 2) == bit_of(b, 2));
        assert(((a >> 0u8) & 1 == 1) == ((b >> 0u8) & 1 == 1) && ((a >> 1u8) & 1 == 1) == ((b
            >> 1u8) & 1 == 1) && ((a >> 2u8) & 1 == 1) == ((b >> 2u8) & 1 == 1) && a & 7 == a && b
            & 7 == b ==> a == b) by (bit_vector);
    } else {
        assert(bit_of(a, 0) == bit_of(b, 0));
        assert(bit_of(a, 1) == bit_of(b, 1));
        assert(bit_of(a, 2) == bit_of(b, 2));
        assert(bit_of(a, 3) == bit_of(b, 3));
        assert(((a >> 0u8) & 1 == 1) == ((b >> 0u8) & 1 == 1) && ((a >> 1u8) & 1 == 1) == ((b
            >> 1u8) & 1 == 1) && ((a >> 2u8) & 1 == 1) == ((b >> 2u8) & 1 == 1) && ((a >> 3u8) & 1
            == 1) == ((b >> 3u8) & 1 == 1) && a & 15 == a && b & 15 == b ==> a == b) by (bit_vector);
    }
}

proof fn lemma_position(i: int, bits: int, t: int)
    requires
        0 <= i,
        0 <= t < bits,
    ensures
        (i * bits + t) / bits == i,
        (i * bits + t) % bits == t,
{
    div_mod::lemma_fundamental_div_mod_converse(i * bits + t, bits, i, t);
}

fn encode(v: u8, bits: u8) -> (r: u8)
    ensures
        r == code(v, bits),
{
    if bits == 1 {
        if v != 0 {
            1
        } else {
            0
        }
    } else if bits == 2 {
        v & 3
    } else if bits == 3 {
        v & 7
    } else {
        v & 15
    }
}

/// Pack quantization indices into compact bytes.
pub fn pack_indices(indices: &[u8], bits: u8) -> (r: Result<Vec<u8>, UnsupportedBitWidth>)
    ensures
        match r {
            Ok(buf) => 1 <= bits <= 4 && packs(indices@, bits, buf@),
            Err(e) => !(1 <= bits <= 4) && e.bits == bits,
        },
{
    if bits < 1 || bits > 4 {
        return Err(UnsupportedBitWidth { bits });
    }
    let n: usize = indices.len();
    assert(n * bits <= n * 4) by (nonlinear_arith)
        requires
            bits <= 4,
    ;
    let total: u128 = (n as u128) * (bits as u128);
    let mut buf: Vec<u8> = vec![0u8; ((total + 7) / 8) as usize];
    proof {
        lemma_zero_bits();
        assert forall|k: int| 0 <= k < 8 * buf@.len() implies !(#[trigger] stream_bit(buf@, k)) by {
            assert(buf@[k / 8] == 0);
            assert(!bit_of(0, k % 8));
        }
    }
    let mut k: u128 = 0;
    assert(0 * bits == 0);
    for i in 0..n
        invariant
            1 <= bits <= 4,
            n == indices@.len(),
            total == n * bits,
            total <= n * 4,
            buf@.len() == (total + 7) / 8,
            k == i * bits,
            forall|j: int|
                0 <= j < 8 * buf@.len() ==> #[trigger] stream_bit(buf@, j) == (j < k && code_bit(
                    indices@,
                    bits,
                    j,
                )),
    {
        let v: u8 = encode(indices[i], bits);
        assert((i + 1) * bits <= n * bits) by (nonlinear_arith)
            requires
                i + 1 <= n,
                bits >= 0,
        ;
        assert((i + 1) * bits == i * bits + bits) by (nonlinear_arith);
        for t in 0..bits
            invariant
                1 <= bits <= 4,
                n == indices@.len(),
                i < n,
                total == n * bits,
                total <= n * 4,
                i * bits + bits <= total,
                buf@.len() == (total + 7) / 8,
                v == code(indices@[i as int], bits),
                k == i * bits + t,
                forall|j: int|
                    0 <= j < 8 * buf@.len() ==> #[trigger] stream_bit(buf@, j) == (j < k
                        && code_bit(indices@, bits, j)),
        {
            let ghost before = buf@;
            proof {
                lemma_position(i as int, bits as int, t as int);
            }
            if (v >> t) & 1 == 1 {
                let p: usize = (k / 8) as usize;
                let s: u8 = (k % 8) as u8;
                proof {
                    lemma_set_bit(buf@[p as int], s);
                }
                buf.set(p, buf[p] | (1u8 << s));
            }
            assert forall|j: int| 0 <= j < 8 * buf@.len() implies #[trigger] stream_bit(buf@, j)
                == (j < k + 1 && code_bit(indices@, bits, j)) by {
                assert(stream_bit(before, j) == (j < k && code_bit(indices@, bits, j)));
            }
            k = k + 1;
        }
    }
    Ok(buf)
}

/// Unpack indices from compact bytes.
pub fn unpack_indices(buf: &[u8], bits: u8, n: usize) -> (r: Result<Vec<u8>, UnsupportedBitWidth>)
    requires
        1 <= bits <= 4 && n > 0 ==> (n - 1) * bits / 8 < buf@.len(),
    ensures
        match r {
            Ok(indices) => 1 <= bits <= 4 && unpacks(buf@, bits, n as nat, indices@),
            Err(e) => !(1 <= bits <= 4) && e.bits == bits,
        },
{
    if bits < 1 || bits > 4 {
        return Err(UnsupportedBitWidth { bits });
    }
    let mut out: Vec<u8> = Vec::new();
    let mut k: u128 = 0;
    assert(0 * bits == 0);
    assert(n * bits <= n * 4) by (nonlinear_arith)
        requires
            bits <= 4,
    ;
    for i in 0..n
        invariant
            1 <= bits <= 4,
            n * bits <= n * 4,
            k == i * bits,
            unpacks(buf@, bits, i as nat, out@),
    {
        let mut v: u8 = 0;
        proof {
            lemma_zero_bits();
        }
        assert((i + 1) * bits <= n * bits) by (nonlinear_arith)
            requires
                i + 1 <= n,
                bits >= 0,
        ;
        assert((i + 1) * bits == i * bits + bits) by (nonlinear_arith);
        for t in 0..bits
            invariant
                1 <= bits <= 4,
                k == i * bits + t,
                i * bits + bits <= n * 4,
                forall|u: int|
                    0 <= u < 8 ==> #[trigger] bit_of(v, u) == (u < t && stream_bit(
                        buf@,
                        i * bits + u,
                    )),
        {
            let p: u128 = k / 8;
            let s: u8 = (k % 8) as u8;
            let ghost before = v;
            if p < buf.len() as u128 && (buf[p as usize] >> s) & 1 == 1 {
                proof {
                    lemma_set_bit(v, t);
                }
                v = v | (1u8 << t);
            }
            assert forall|u: int| 0 <= u < 8 implies #[trigger] bit_of(v, u) == (u < t + 1
                && stream_bit(buf@, i * bits + u)) by {
                assert(bit_of(before, u) == (u < t && stream_bit(buf@, i * bits + u)));
            }
            k = k + 1;
        }
        proof {
            lemma_small(v, bits);
        }
        let ghost done = out@;
        out.push(v);
        assert forall|j: int, t: int| 0 <= j < i + 1 && 0 <= t < bits implies #[trigger] bit_of(
            out@[j],
            t,
        ) == stream_bit(buf@, j * bits + t) by {
            if j < i {
                assert(out@[j] == done[j]);
            }
        }
    }
    Ok(out)
}

/// A byte with no bit from `bits` on is its own code.
proof fn lemma_small(v: u8, bits: u8)
    requires
        1 <= bits <= 4,
        forall|t: int| bits <= t < 8 ==> !(#[trigger] bit_of(v, t)),
    ensures
        code(v, bits) == v,
{
    assert(!bit_of(v, 4) && !bit_of(v, 5) && !bit_of(v, 6) && !bit_of(v, 7));
    assert((v >> 4u8) & 1 != 1 && (v >> 5u8) & 1 != 1 && (v >> 6u8) & 1 != 1 && (v >> 7u8) & 1
        != 1 ==> v & 15 == v) by (bit_vector);
    if bits <= 3 {
        assert(!bit_of(v, 3));
        assert(v & 15 == v && (v >> 3u8) & 1 != 1 ==> v & 7 == v) by (bit_vector);
    }
    if bits <= 2 {
        assert(!bit_of(v, 2));
        assert(v & 7 == v && (v >> 2u8) & 1 != 1 ==> v & 3 == v) by (bit_vector);
    }
    if bits <= 1 {
        assert(!bit_of(v, 1));
        assert(v & 3 == v && (v >> 1u8) & 1 != 1 ==> v <= 1) by (bit_vector);
    }
}

/// How many indices have no more than `bits` bits.
pub open spec fn levels(bits: u8) -> int {
    if bits == 1 {
        2
    } else if bits == 2 {
        4
    } else if bits == 3 {
        8
    } else {
        16
    }
}

/// What was packed is long enough to be unpacked. Unpacking it, or the first `n` of it, gives
/// back the code of each index, and so the indices themselves where they have no more than
/// `bits` bits.
pub proof fn law_unpack_of_pack(indices: Seq<u8>, bits: u8, buf: Seq<u8>, n: nat, back: Seq<u8>)
    requires
        1 <= bits <= 4,
        n <= indices.len(),
        packs(indices, bits, buf),
        unpacks(buf, bits, n, back),
    ensures
        n > 0 ==> (n - 1) * bits / 8 < buf.len(),
        back == indices.take(n as int).map_values(|v: u8| code(v, bits)),
        (forall|j: int| 0 <= j < indices.len() ==> (#[trigger] indices[j]) < levels(bits))
            ==> back == indices.take(n as int),
{
    let codes = indices.take(n as int).map_values(|v: u8| code(v, bits));
    assert((n - 1) * bits + 1 <= indices.len() * bits) by (nonlinear_arith)
        requires
            n <= indices.len(),
            1 <= bits,
    ;
    assert forall|j: int| 0 <= j < n implies back[j] == codes[j] by {
        assert forall|t: int| 0 <= t < bits implies #[trigger] bit_of(back[j], t) == bit_of(
            codes[j],
            t,
        ) by {
            let k = j * bits + t;
            lemma_position(j, bits as int, t);
            assert(k < indices.len() * bits) by (nonlinear_arith)
                requires
                    k == j * bits + t,
                    t < bits,
                    j + 1 <= indices.len(),
            ;
            assert(0 <= k) by (nonlinear_arith)
                requires
                    k == j * bits + t,
                    0 <= t,
                    0 <= j,
                    bits >= 1,
            ;
            assert(stream_bit(buf, k) == code_bit(indices, bits, k));
        }
        lemma_code_code(indices[j], bits);
        lemma_code_bits(back[j], codes[j], bits);
    }
    assert(back =~= codes);
    if forall|j: int| 0 <= j < indices.len() ==> (#[trigger] indices[j]) < levels(bits) {
        assert forall|j: int| 0 <= j < n implies codes[j] == indices.take(n as int)[j] by {
            assert(indices[j] < levels(bits));
            law_small_index_is_its_code(indices[j]);
        }
        assert(codes =~= indices.take(n as int));
    }
}

proof fn lemma_code_code(v: u8, bits: u8)
    requires
        1 <= bits <= 4,
    ensures
        code(code(v, bits), bits) == code(v, bits),
{
    assert((v & 3) & 3 == v & 3 && (v & 7) & 7 == v & 7 && (v & 15) & 15 == v & 15) by (bit_vector);
}

/// Packing keeps every index that fits its width: an index below two, four, eight or sixteen
/// is its own code.
pub proof fn law_small_index_is_its_code(v: u8)
    ensures
        v < 2 ==> code(v, 1) == v,
        v < 4 ==> code(v, 2) == v,
        v < 8 ==> code(v, 3) == v,
        v < 16 ==> code(v, 4) == v,
{
    assert(v < 4 ==> v & 3 == v) by (bit_vector);
    assert(v < 8 ==> v & 7 == v) by (bit_vector);
    assert(v < 16 ==> v & 15 == v) by (bit_vector);
}

/// Packed indices follow one another without gaps, each with its lowest bit first, from the lowest
/// bit of a byte on; the bits behind the last one are not set.
pub proof fn law_indices_are_packed(indices: Seq<u8>, bits: u8, buf: Seq<u8>, j: int, t: int)
    requires
        1 <= bits <= 4,
        packs(indices, bits, buf),
        0 <= j < indices.len(),
        0 <= t < bits,
    ensures
        ({
            let k = j * bits + t;
            &&& 0 <= k < 8 * buf.len()
            &&& ((buf[k / 8] >> ((k % 8) as u8)) & 1 == 1) == ((code(indices[j], bits) >> (t as u8))
                & 1 == 1)
        }),
        buf.len() == (indices.len() * bits + 7) / 8,
{
    let b = bits as int;
    let k = j * b + t;
    assert(j * b + t < indices.len() * b) by (nonlinear_arith)
        requires
            0 <= j < indices.len(),
            0 <= t < b,
    ;
    assert(0 <= j * b) by (nonlinear_arith)
        requires
            0 <= j,
            0 < b,
    ;
    assert(k / b == j && k % b == t) by (nonlinear_arith)
        requires
            k == j * b + t,
            0 <= t < b,
            b > 0,
    ;
    assert(stream_bit(buf, k) == code_bit(indices, bits, k));
}

} // verus!
