use vstd::prelude::*;

use crate::bits::bits_wf;
use crate::field::{is_bit, SecretModp};

verus! {

/// The correlated-randomness supply of the field engine: the capability to
/// draw random secret bits that no player knows. The emulated engine uses a
/// deterministic xorshift state; the contracts promise only what holds of
/// every outcome - each draw is a secret bit, nothing more.
pub struct RandomSource {
    state: u64,
}

impl RandomSource {
    /// A fresh supply, scoped to one protocol run.
    pub fn new(seed: u64) -> (r: RandomSource) {
        RandomSource { state: seed }
    }

    /// Draw one random secret bit (interactive in the real engine).
    pub fn random_bit(&mut self) -> (r: SecretModp)
        ensures
            is_bit(r),
    {
        let mut x = self.state;
        x = x ^ (x << 13);
        x = x ^ (x >> 7);
        x = x ^ (x << 17);
        x = x ^ 0x9E3779B97F4A7C15;
        self.state = x;
        proof {
            assert(x % 2 < crate::params::FIELD_PRIME);
        }
        SecretModp::from_clear(x % 2)
    }

    /// Draw a row of n random secret bits.
    pub fn random_bits(&mut self, n: usize) -> (r: Vec<SecretModp>)
        ensures
            r@.len() == n,
            bits_wf(r@),
    {
        let mut out: Vec<SecretModp> = Vec::new();
        let mut j: usize = 0;
        while j < n
            invariant
                j <= n,
                out@.len() == j,
                bits_wf(out@),
            decreases n - j,
        {
            let b = self.random_bit();
            out.push(b);
            j = j + 1;
        }
        out
    }
}

} // verus!
