use vstd::prelude::*;

use crate::params::FIELD_PRIME;

verus! {

/// A secret field element: a value additively shared among all players
/// modulo the public prime. No player can inspect or compare it; the only
/// sanctioned way back to a plaintext is `reveal_to_all`. Clear (public)
/// values are plain `u64` and enter the shared state only through
/// `from_clear`, so secret and clear data can never be mixed by accident.
///
/// The engine here is the emulated, non-interactive implementation of the
/// field capability: a share is carried as the plaintext residue itself.
#[derive(Clone, Copy)]
pub struct SecretModp {
    pub(crate) v: u64,
}

impl View for SecretModp {
    type V = nat;

    closed spec fn view(&self) -> nat {
        self.v as nat
    }
}

impl SecretModp {
    /// A secret element is well formed when it is a reduced residue.
    pub open spec fn wf(&self) -> bool {
        self@ < FIELD_PRIME
    }
}

/// Crate-internal spec constructor for the emulated share.
pub(crate) open spec fn mk(v: u64) -> SecretModp {
    SecretModp { v }
}

/// Crate-internal bridge: the carried residue is the viewed value.
pub(crate) proof fn lemma_raw_view(s: SecretModp)
    ensures
        s@ == s.v as nat,
{
}

/// The modulus as a spec-level integer.
pub open spec fn fp() -> int {
    FIELD_PRIME as int
}

/// Field addition.
pub open spec fn fadd(a: int, b: int) -> int {
    (a + b) % fp()
}

/// Field subtraction.
pub open spec fn fsub(a: int, b: int) -> int {
    (a - b) % fp()
}

/// Field negation.
pub open spec fn fneg(a: int) -> int {
    (0 - a) % fp()
}

/// Field multiplication.
pub open spec fn fmul(a: int, b: int) -> int {
    (a * b) % fp()
}

/// A secret bit: a secret field element carrying the protocol invariant
/// "value lies in {0, 1}". The invariant is established only by the
/// constructions whose contracts state it; arithmetic that could leave the
/// range is never re-labelled as a bit.
pub open spec fn is_bit(a: SecretModp) -> bool {
    a@ == 0 || a@ == 1
}

/// Reduce a sum that is below twice the modulus.
fn reduce_once(s: u64) -> (r: u64)
    requires
        s < 2 * FIELD_PRIME,
    ensures
        r as int == (s as int) % fp(),
        r < FIELD_PRIME,
{
    if s >= FIELD_PRIME {
        proof {
            vstd::arithmetic::div_mod::lemma_mod_sub_multiples_vanish(s as int, fp());
            vstd::arithmetic::div_mod::lemma_small_mod((s - FIELD_PRIME) as nat, FIELD_PRIME as nat);
        }
        s - FIELD_PRIME
    } else {
        proof {
            vstd::arithmetic::div_mod::lemma_small_mod(s as nat, FIELD_PRIME as nat);
        }
        s
    }
}

impl SecretModp {
    /// Inject a clear (public) value into the shared state. A local
    /// operation: every player holds the same constant.
    pub fn from_clear(c: u64) -> (r: SecretModp)
        requires
            c < FIELD_PRIME,
        ensures
            r.wf(),
            r@ == c,
    {
        SecretModp { v: c }
    }

    /// The reveal/open step: reconstruct the plaintext to all players.
    /// This is the only sanctioned leakage point of the protocol.
    pub fn reveal_to_all(&self) -> (c: u64)
        requires
            self.wf(),
        ensures
            c as nat == self@,
            c < FIELD_PRIME,
    {
        self.v
    }

    /// Secret addition (local: shares add component-wise).
    pub fn add(&self, other: &SecretModp) -> (r: SecretModp)
        requires
            self.wf(),
            other.wf(),
        ensures
            r.wf(),
            r@ == fadd(self@ as int, other@ as int),
    {
        SecretModp { v: reduce_once(self.v + other.v) }
    }

    /// Secret subtraction (local).
    pub fn sub(&self, other: &SecretModp) -> (r: SecretModp)
        requires
            self.wf(),
            other.wf(),
        ensures
            r.wf(),
            r@ == fsub(self@ as int, other@ as int),
    {
        let r = SecretModp { v: reduce_once(self.v + (FIELD_PRIME - other.v)) };
        proof {
            vstd::arithmetic::div_mod::lemma_mod_add_multiples_vanish(
                self@ as int - other@ as int,
                fp(),
            );
        }
        r
    }

    /// Secret negation (local).
    pub fn neg(&self) -> (r: SecretModp)
        requires
            self.wf(),
        ensures
            r.wf(),
            r@ == fneg(self@ as int),
    {
        let r = SecretModp { v: reduce_once(FIELD_PRIME - self.v) };
        proof {
            vstd::arithmetic::div_mod::lemma_mod_add_multiples_vanish(0 - self@ as int, fp());
        }
        r
    }

    /// Secret multiplication: in the real engine the one interactive
    /// arithmetic step (a network round per call); here evaluated locally.
    pub fn mul(&self, other: &SecretModp) -> (r: SecretModp)
        requires
            self.wf(),
            other.wf(),
        ensures
            r.wf(),
            r@ == fmul(self@ as int, other@ as int),
    {
        proof {
            assert((self.v as int) * (other.v as int) <= u128::MAX as int) by (nonlinear_arith)
                requires
                    (self.v as int) < fp() && (other.v as int) < fp(),
            {
            }
        }
        let wide: u128 = (self.v as u128) * (other.v as u128);
        let m: u128 = wide % (FIELD_PRIME as u128);
        SecretModp { v: m as u64 }
    }

    /// Scale by a public constant (local).
    pub fn mul_clear(&self, c: u64) -> (r: SecretModp)
        requires
            self.wf(),
            c < FIELD_PRIME,
        ensures
            r.wf(),
            r@ == fmul(self@ as int, c as int),
    {
        let clear = SecretModp::from_clear(c);
        self.mul(&clear)
    }

    /// Add a public constant (local).
    pub fn add_clear(&self, c: u64) -> (r: SecretModp)
        requires
            self.wf(),
            c < FIELD_PRIME,
        ensures
            r.wf(),
            r@ == fadd(self@ as int, c as int),
    {
        let clear = SecretModp::from_clear(c);
        self.add(&clear)
    }
}

} // verus!
