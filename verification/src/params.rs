use vstd::prelude::*;

verus! {

/// Public prime modulus of the field, fixed for the whole run.
/// This is the Mersenne prime 2^61 - 1.
pub const FIELD_PRIME: u64 = 2305843009213693951;

/// Number of bits needed to write a field element: FIELD_PRIME < 2^61.
pub const FIELD_BITS: usize = 61;

/// The clear inverse of two in the field: (FIELD_PRIME + 1) / 2 = 2^60.
/// Multiplying an even residue by it halves the residue.
pub const INV_TWO: u64 = 1152921504606846976;

/// Statistical security parameter: a randomized masking step fails to hide
/// its operand with probability at most 2^-KAPPA.
pub const KAPPA: usize = 40;

/// Declared bit length of the integers that the comparison and ranking
/// suite works on: callers promise their inputs lie in [0, 2^K_BITS).
pub const K_BITS: usize = 16;

/// The run-time assertion that the engine supports a minimum register bit
/// length; a violation is a configuration error, caught before execution.
pub fn require_bit_length(n: usize) -> (ok: bool)
    ensures
        ok == (n <= FIELD_BITS),
{
    n <= FIELD_BITS
}

} // verus!
