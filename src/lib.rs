//! Merkle commitments over field-element rows, polynomial groups and
//! extension-field polynomial evaluation for a STARK-style proof system.
pub mod field;
pub mod iop;
pub mod merkle;
pub mod poly;
pub mod poly_group;
pub mod sha;

use vstd::arithmetic::power2::pow2;
use vstd::prelude::*;

verus! {

/// Log base 2 of the largest supported trace length.
pub const MAX_CYCLES_PO2: usize = 20;

/// The largest supported trace length.
pub const MAX_CYCLES: usize = 1048576;

/// Number of queries made against each commitment (about 100 bits of
/// conjectured security together with the extension field).
pub const QUERIES: usize = 50;

/// Ratio of the evaluation domain size to the number of coefficients.
pub const INV_RATE: usize = 4;

/// Largest supported degree factor of a constraint polynomial.
pub const MAX_DEGREE: usize = 5;

/// Log base 2 of the folding factor of one outer-protocol round.
pub const FRI_FOLD_PO2: usize = 4;

/// Folding factor of one outer-protocol round.
pub const FRI_FOLD: usize = 16;

/// Why a commitment could not be built or an opening was rejected.
#[derive(Clone, Copy, Debug, PartialEq, Eq, Structural)]
pub enum VerifyError {
    /// A size is not a supported power of two, or a buffer length does not
    /// match the sizes given with it.
    ConfigurationError,
    /// The transcript holds fewer words than the protocol reads next.
    TranscriptUnderflow,
    /// An opened row does not hash up to the committed digest.
    MerkleMismatch,
    /// A queried row index is not below the number of rows.
    IndexOutOfRange,
}

/// Compute `ceil(log_2(value))`: the smallest `result` with
/// `2^result >= value`.
pub fn log2_ceil(value: usize) -> (result: usize)
    requires
        value <= 0x8000_0000_0000_0000,
    ensures
        pow2(result as nat) >= value,
        result == 0 || pow2((result - 1) as nat) < value,
{
    let mut result: usize = 0;
    let mut pow: u64 = 1;
    proof {
        vstd::arithmetic::power2::lemma2_to64();
    }
    while pow < value as u64
        invariant
            pow == pow2(result as nat),
            result <= 63,
            result == 0 || pow2((result - 1) as nat) < value,
            value <= 0x8000_0000_0000_0000,
        decreases 64 - result,
    {
        proof {
            vstd::arithmetic::power2::lemma_pow2_unfold((result + 1) as nat);
            vstd::arithmetic::power2::lemma2_to64_rest();
            if result + 1 < 63 {
                vstd::arithmetic::power2::lemma_pow2_strictly_increases((result + 1) as nat, 63);
            }
            assert(pow2(63) == 0x8000_0000_0000_0000);
            assert(result < 63);
            assert(pow * 2 <= 0x8000_0000_0000_0000);
        }
        pow = pow * 2;
        result = result + 1;
    }
    result
}

} // verus!
