//! Compressed embeddings: the integer side of the quantizer.
//!
//! Norms are kept as the bit patterns of single-precision numbers. Rotating, scaling and
//! measuring vectors is floating-point work and is done by the caller; everything that only
//! moves bits and counts is here.

pub mod codebooks;
pub mod qjl;
pub mod rotation;

use crate::float32;
use crate::turboquant::codebooks::{Codebook, UnsupportedBitWidth};
use vstd::prelude::*;

verus! {

/// The dimension of `TurboQuant::default`.
pub const DEFAULT_DIMENSION: usize = 1024;

/// The smallest residual norm that is corrected for: the single-precision number 1e-10.
pub const MIN_RESIDUAL_NORM: u32 = 0x2edb_e6ff;

/// How a vector was quantized.
#[derive(Debug, Clone, Copy, PartialEq, Eq, Structural)]
pub enum QuantMode {
    /// Nearest centroids only: fast, slightly biased.
    Fast,
    /// Nearest centroids and the signs of a projected residual: unbiased inner products.
    Unbiased,
}

/// Quantized representation of a vector.
#[derive(Debug, Clone)]
pub struct QuantizedVector {
    pub mse_indices: Vec<u8>,
    /// Bit pattern of the norm.
    pub norm: u32,
    pub qjl_bits: Option<Vec<u8>>,
    /// Bit pattern of the norm of the residual.
    pub residual_norm: u32,
    pub bits: u8,
    pub mode: QuantMode,
    pub original_dim: usize,
    pub padded_dim: usize,
}

/// The value of a `QuantizedVector`.
pub struct QuantizedModel {
    pub mse_indices: Seq<u8>,
    pub norm: u32,
    pub qjl_bits: Option<Seq<u8>>,
    pub residual_norm: u32,
    pub bits: u8,
    pub mode: QuantMode,
    pub original_dim: nat,
    pub padded_dim: nat,
}

impl View for QuantizedVector {
    type V = QuantizedModel;

    open spec fn view(&self) -> QuantizedModel {
        QuantizedModel {
            mse_indices: self.mse_indices@,
            norm: self.norm,
            qjl_bits: match self.qjl_bits {
                Some(v) => Some(v@),
                None => None,
            },
            residual_norm: self.residual_norm,
            bits: self.bits,
            mode: self.mode,
            original_dim: self.original_dim as nat,
            padded_dim: self.padded_dim as nat,
        }
    }
}

/// How much room a quantized vector takes.
#[derive(Debug, Clone, Copy, PartialEq, Eq)]
pub struct StorageInfo {
    pub mse_bytes: usize,
    pub qjl_bytes: usize,
    pub norm_bytes: usize,
    pub total_bytes: usize,
    /// The compression ratio is `original_bytes` over `total_bytes`.
    pub original_bytes: usize,
}

/// Whether a number is a power of two.
pub open spec fn power_of_two(p: int) -> bool
    decreases p,
{
    p == 1 || (p > 1 && p % 2 == 0 && power_of_two(p / 2))
}

/// The largest power of two that a `usize` holds.
pub open spec fn largest_power() -> int {
    usize::MAX / 2 + 1
}

/// The smallest power of two that is at least `n`.
pub fn next_pow2(n: usize) -> (p: usize)
    requires
        n <= largest_power(),
    ensures
        power_of_two(p as int),
        n <= p,
        p == 1 || p / 2 < n,
{
    let mut p: usize = 1;
    while p < n
        invariant
            n <= largest_power(),
            p >= 1,
            power_of_two(p as int),
            p == 1 || p / 2 < n,
        decreases
            if p < n {
                n - p
            } else {
                0
            },
    {
        p = p * 2;
    }
    p
}

/// The width of the codebook used for `bits` bits: one bit less, but at least one, where a
/// bit goes to the signs of the residual.
pub open spec fn spec_mse_bits(bits: u8, mode: QuantMode) -> int {
    match mode {
        QuantMode::Fast => bits as int,
        QuantMode::Unbiased => if bits <= 2 {
            1
        } else {
            bits - 1
        },
    }
}

/// The width of the codebook used for `bits` bits.
pub fn mse_bits(bits: u8, mode: QuantMode) -> (r: u8)
    requires
        bits >= 1,
    ensures
        r == spec_mse_bits(bits, mode),
{
    match mode {
        QuantMode::Fast => bits,
        QuantMode::Unbiased => if bits <= 2 {
            1
        } else {
            bits - 1
        },
    }
}

/// Whether there is a codebook for `bits` bits in a mode.
pub open spec fn supported(bits: u8, mode: QuantMode) -> bool {
    bits >= 1 && spec_mse_bits(bits, mode) <= 4
}

/// Whether `q` is what a vector is quantized to. A vector of norm zero keeps nothing but its
/// lengths; in the fast mode the packed indices are all there is; in the unbiased mode the
/// signs of the residual are kept where it is longer than `MIN_RESIDUAL_NORM`.
pub open spec fn quantizes(
    original_dim: nat,
    norm: u32,
    indices: Seq<u8>,
    residual_norm: u32,
    projections: Seq<bool>,
    bits: u8,
    mode: QuantMode,
    q: QuantizedModel,
) -> bool {
    &&& q.bits == bits
    &&& q.mode == mode
    &&& q.original_dim == original_dim
    &&& q.padded_dim == indices.len()
    &&& if float32::zero(norm) {
        &&& q.norm == 0
        &&& q.mse_indices == Seq::new(((indices.len() * bits + 7) / 8) as nat, |i: int| 0u8)
        &&& q.qjl_bits is None
        &&& q.residual_norm == 0
    } else {
        &&& supported(bits, mode)
        &&& q.norm == norm
        &&& codebooks::packs(indices, spec_mse_bits(bits, mode) as u8, q.mse_indices)
        &&& match mode {
            QuantMode::Fast => q.qjl_bits is None && q.residual_norm == 0,
            QuantMode::Unbiased => {
                &&& q.residual_norm == residual_norm
                &&& match q.qjl_bits {
                    Some(signs) => float32::below(MIN_RESIDUAL_NORM, residual_norm)
                        && qjl::sign_bits(projections, signs),
                    None => !float32::below(MIN_RESIDUAL_NORM, residual_norm),
                }
            },
        }
    }
}

/// The integer state of the quantizer: the signs that a vector is multiplied by before it is
/// transformed, and the length that vectors are padded to.
pub struct TurboQuant {
    pub sign_flips: Vec<i8>,
    pub padded_dim: usize,
}

/// The seed of the sign flips.
pub open spec fn rotation_seed() -> Seq<char> {
    "contexa-turbo-v1"@
}

impl TurboQuant {
    /// Whether the padded length is a power of two with one sign, plus or minus one, for each
    /// place.
    pub open spec fn wf(self) -> bool {
        &&& power_of_two(self.padded_dim as int)
        &&& self.sign_flips@ == rotation::sign_flips(rotation_seed(), self.padded_dim as nat)
    }

    /// Create a new engine for dimension `d`.
    pub fn new(d: usize) -> (r: Self)
        requires
            d <= largest_power(),
        ensures
            r.wf(),
            d <= r.padded_dim,
            r.padded_dim == 1 || r.padded_dim / 2 < d,
    {
        let padded_dim = next_pow2(d);
        let sign_flips = rotation::generate_sign_flips("contexa-turbo-v1", padded_dim);
        TurboQuant { sign_flips, padded_dim }
    }

    /// Create with the default dimension.
    pub fn default() -> (r: Self)
        ensures
            r.wf(),
            r.padded_dim == DEFAULT_DIMENSION,
    {
        let r = TurboQuant::new(DEFAULT_DIMENSION);
        proof {
            lemma_between_powers(r.padded_dim as int);
        }
        r
    }

    /// Quantize a vector of `original_dim` numbers, given the bit patterns of its norm and of
    /// its padded and rotated coordinates, the codebook of the width, and, for the unbiased
    /// mode, the norm of what the codebook leaves over and the signs of that residual's
    /// projections.
    pub fn quantize(
        &self,
        original_dim: usize,
        norm: u32,
        rotated: &[u32],
        codebook: &Codebook,
        residual_norm: u32,
        projections: &[bool],
        bits: u8,
        mode: QuantMode,
    ) -> (r: Result<QuantizedVector, UnsupportedBitWidth>)
        requires
            self.padded_dim * bits + 7 <= usize::MAX,
            2 * codebook.boundaries@.len() <= usize::MAX,
            rotated@.len() == self.padded_dim,
            projections@.len() == self.padded_dim,
        ensures
            match r {
                Ok(q) => quantizes(
                    original_dim as nat,
                    norm,
                    codebooks::indices_in(rotated@, codebook.boundaries@),
                    residual_norm,
                    projections@,
                    bits,
                    mode,
                    q@,
                ),
                Err(e) => !float32::zero(norm) && !supported(bits, mode) && e.bits == bits,
            },
    {
        let padded_dim: usize = self.padded_dim;
        let indices = codebooks::quantize_vector(rotated, codebook);
        if float32::is_zero(norm) {
            let mse_indices: Vec<u8> = vec![0u8; (padded_dim * bits as usize + 7) / 8];
            assert(mse_indices@ =~= Seq::new(
                ((indices@.len() * bits + 7) / 8) as nat,
                |i: int| 0u8,
            ));
            return Ok(
                QuantizedVector {
                    mse_indices,
                    norm: 0,
                    qjl_bits: None,
                    residual_norm: 0,
                    bits,
                    mode,
                    original_dim,
                    padded_dim,
                },
            );
        }
        if bits == 0 || mse_bits(bits, mode) > 4 {
            return Err(UnsupportedBitWidth { bits });
        }
        let width = mse_bits(bits, mode);
        let packed = codebooks::pack_indices(indices.as_slice(), width)?;
        let (qjl_bits, residual_norm) = match mode {
            QuantMode::Fast => (None, 0),
            QuantMode::Unbiased => if float32::less(MIN_RESIDUAL_NORM, residual_norm) {
                (Some(qjl::qjl_project(projections)), residual_norm)
            } else {
                (None, residual_norm)
            },
        };
        Ok(
            QuantizedVector {
                mse_indices: packed,
                norm,
                qjl_bits,
                residual_norm,
                bits,
                mode,
                original_dim,
                padded_dim,
            },
        )
    }

    /// Get compression statistics for `d` dimensions at `bits` bits.
    pub fn storage_info(&self, bits: u8, d: usize) -> (r: StorageInfo)
        requires
            bits >= 1,
            d * 256 + 1024 <= usize::MAX,
        ensures
            r.mse_bytes == (d * spec_mse_bits(bits, QuantMode::Unbiased) + 7) / 8,
            r.qjl_bytes == (d + 7) / 8,
            r.norm_bytes == 8,
            r.total_bytes == r.mse_bytes + r.qjl_bytes + r.norm_bytes,
            r.original_bytes == d * 4,
    {
        let width: usize = mse_bits(bits, QuantMode::Unbiased) as usize;
        assert(d * width <= d * 256) by (nonlinear_arith)
            requires
                width <= 256,
        ;
        let mse_bytes: usize = (d * width + 7) / 8;
        let qjl_bytes: usize = (d + 7) / 8;
        StorageInfo {
            mse_bytes,
            qjl_bytes,
            norm_bytes: 8,
            total_bytes: mse_bytes + qjl_bytes + 8,
            original_bytes: d * 4,
        }
    }
}

proof fn lemma_between_powers(p: int)
    requires
        power_of_two(p),
        1024 <= p,
        p / 2 < 1024,
    ensures
        p == 1024,
{
    reveal_with_fuel(power_of_two, 13);
}

/// The codebook of the fast mode has the width that is asked for; that of the unbiased mode one bit
/// less, but at least one. There are codebooks of one to four bits.
pub proof fn law_codebook_widths(bits: u8)
    requires
        bits >= 1,
    ensures
        spec_mse_bits(bits, QuantMode::Fast) == bits,
        bits >= 2 ==> spec_mse_bits(bits, QuantMode::Unbiased) == bits - 1,
        bits == 1 ==> spec_mse_bits(bits, QuantMode::Unbiased) == 1,
        supported(bits, QuantMode::Fast) <==> bits <= 4,
        supported(bits, QuantMode::Unbiased) <==> bits <= 5,
        DEFAULT_DIMENSION == 1024,
        MIN_RESIDUAL_NORM == 0x2edb_e6ff,
        rotation_seed() == "contexa-turbo-v1"@,
{
}

/// A quantized vector keeps its norm and lengths. The signs of the residual are kept in the unbiased
/// mode, where the residual is longer than 1e-10, and never in the fast mode; a vector of norm zero
/// has zeros for indices and no signs.
pub proof fn law_quantized_vectors(
    original_dim: nat,
    norm: u32,
    indices: Seq<u8>,
    residual_norm: u32,
    projections: Seq<bool>,
    bits: u8,
    mode: QuantMode,
    q: QuantizedModel,
)
    requires
        quantizes(
            original_dim,
            norm,
            indices,
            residual_norm,
            projections,
            bits,
            mode,
            q,
        ),
    ensures
        q.original_dim == original_dim && q.padded_dim == indices.len(),
        q.bits == bits && q.mode == mode,
        !float32::zero(norm) ==> q.norm == norm,
        !float32::zero(norm) && mode == QuantMode::Fast ==> q.qjl_bits is None && q.residual_norm
            == 0 && codebooks::packs(indices, bits, q.mse_indices),
        !float32::zero(norm) && mode == QuantMode::Unbiased && bits >= 2 ==> q.residual_norm
            == residual_norm && codebooks::packs(indices, (bits - 1) as u8, q.mse_indices) && (
        q.qjl_bits is Some <==> float32::below(0x2edb_e6ff, residual_norm)),
        q.qjl_bits matches Some(signs) ==> qjl::sign_bits(projections, signs),
        float32::zero(norm) ==> q.norm == 0 && q.qjl_bits is None && forall|i: int|
            0 <= i < q.mse_indices.len() ==> #[trigger] q.mse_indices[i] == 0,
{
}

} // verus!
