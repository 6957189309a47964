use vstd::prelude::*;

use crate::bits::{
    bits_to_secret, bits_value, bits_wf, bitvals_wf, clear_bits_of, complement_bits,
    lemma_bits_value_bound, lemma_bits_value_complement, lemma_bits_value_mod,
    lemma_bits_value_split, lemma_bits_value_take_succ, lemma_bits_value_zero, not_bit,
    secret_bits_of_clear, u64_vals, vals, xor_val, zero_bits,
};
use crate::carry::bit_add;
use crate::compare::bit_lt_clear;
use crate::field::is_bit;
use crate::params::FIELD_BITS;
use crate::field::{fp, SecretModp};
use crate::params::{FIELD_PRIME, KAPPA};
use crate::rng::RandomSource;
use vstd::arithmetic::power2::pow2;

verus! {

/// Powers of two up to the 59th stay under the modulus, which is what the
/// masked reveal of the decomposition engine needs.
proof fn lemma_pow2_under_prime(e: nat)
    requires
        e <= 60,
    ensures
        pow2(e) <= pow2(60),
        pow2(60) < FIELD_PRIME,
{
    vstd::arithmetic::power2::lemma2_to64_rest();
    if e < 60 {
        vstd::arithmetic::power2::lemma_pow2_strictly_increases(e, 60);
    }
}

/// The bit-decomposition engine: turn a secret field element, declared by
/// its caller to write an integer below 2^k, into its m low bits (m <= k)
/// as secret bits, without revealing the element.
///
/// The masked-reveal technique: draw k + KAPPA random secret bits, add
/// their weighted sum to the element, and reveal only that masked sum -
/// safe, because the mask is KAPPA bits longer than the element and so
/// statistically hides it. The revealed sum is bit-decomposed in the
/// clear, and the carry engine subtracts the low mask bits again:
/// c - r = a modulo 2^m. The capacity bound k + KAPPA <= 59 keeps the
/// masked sum under the modulus, so the arithmetic never wraps and the
/// recovered bits are exact.
pub fn bit_dec(a: &SecretModp, k: usize, m: usize, rng: &mut RandomSource) -> (bits: Vec<
    SecretModp,
>)
    requires
        a.wf(),
        a@ < pow2(k as nat),
        1 <= m <= k,
        k + KAPPA <= 59,
    ensures
        bits@.len() == m,
        bits_wf(bits@),
        bits_value(vals(bits@)) == a@ % pow2(m as nat),
{
    let total = k + KAPPA;
    let rbits = rng.random_bits(total);
    let ghost rv = vals(rbits@);
    proof {
        assert(bitvals_wf(rv));
        lemma_bits_value_bound(rv);
        lemma_pow2_under_prime(total as nat);
        vstd::arithmetic::div_mod::lemma_small_mod(bits_value(rv), FIELD_PRIME as nat);
    }
    let r = bits_to_secret(&rbits);
    let masked = a.add(&r);
    proof {
        lemma_pow2_under_prime(k as nat);
        assert(a@ + bits_value(rv) < FIELD_PRIME) by {
            assert(pow2(k as nat) + pow2(total as nat) <= 2 * pow2(60));
            vstd::arithmetic::power2::lemma_pow2_unfold(61);
            vstd::arithmetic::power2::lemma2_to64_rest();
        }
        vstd::arithmetic::div_mod::lemma_small_mod(
            (a@ + bits_value(rv)) as nat,
            FIELD_PRIME as nat,
        );
    }
    let c = masked.reveal_to_all();
    proof {
        assert(c as nat == a@ + bits_value(rv));
    }
    let cbits = clear_bits_of(c, m);
    // inject the clear bits of the revealed sum back into shared state
    let mut csec: Vec<SecretModp> = Vec::new();
    let mut j: usize = 0;
    while j < m
        invariant
            j <= m == cbits@.len(),
            bitvals_wf(u64_vals(cbits@)),
            csec@.len() == j,
            bits_wf(csec@),
            forall|t: int| 0 <= t < j ==> vals(csec@)[t] == u64_vals(cbits@)[t],
        decreases m - j,
    {
        proof {
            assert(u64_vals(cbits@)[j as int] == cbits@[j as int] as nat);
        }
        let sb = SecretModp::from_clear(cbits[j]);
        csec.push(sb);
        j = j + 1;
    }
    proof {
        assert(vals(csec@) =~= u64_vals(cbits@));
    }
    // complement of the low m mask bits
    let mut comp: Vec<SecretModp> = Vec::new();
    let mut j: usize = 0;
    while j < m
        invariant
            j <= m <= rbits@.len(),
            bits_wf(rbits@),
            rv == vals(rbits@),
            comp@.len() == j,
            bits_wf(comp@),
            forall|t: int| 0 <= t < j ==> vals(comp@)[t] + rv[t] == 1,
        decreases m - j,
    {
        let nb = not_bit(&rbits[j]);
        comp.push(nb);
        proof {
            assert(vals(comp@)[j as int] == xor_val(rv[j as int], 1));
        }
        j = j + 1;
    }
    // subtract the mask bits from the revealed bits: c + (2^m - 1 - r) + 1
    let one = SecretModp::from_clear(1);
    let mut out = bit_add(&csec, &comp, &one);
    let ghost full = out@;
    out.truncate(m);
    proof {
        let mm = m as int;
        let big = pow2(m as nat) as int;
        vstd::arithmetic::power2::lemma_pow2_pos(m as nat);
        let rlow = bits_value(rv.take(mm)) as int;
        lemma_bits_value_mod(rv, mm);
        lemma_bits_value_complement(vals(comp@).take(mm), rv.take(mm));
        assert(vals(comp@).take(mm) =~= vals(comp@));
        let sumv = bits_value(vals(full)) as int;
        assert(out@ =~= full.take(mm));
        assert(vals(out@) =~= vals(full).take(mm));
        lemma_bits_value_mod(vals(full), mm);
        // the written sum is c mod 2^m, plus the complement row, plus one
        assert(sumv == (c as int) % big + (big - 1 - rlow) + 1);
        // reduce modulo 2^m back to the element's low bits
        assert(bits_value(vals(out@)) as int == sumv % big);
        vstd::arithmetic::div_mod::lemma_mod_add_multiples_vanish(
            (c as int) % big - rlow,
            big,
        );
        vstd::arithmetic::div_mod::lemma_mod_division_less_than_divisor(bits_value(rv) as int, big);
        vstd::arithmetic::div_mod::lemma_small_mod(rlow as nat, big as nat);
        vstd::arithmetic::div_mod::lemma_sub_mod_noop(c as int, rlow, big);
        lemma_bits_value_split(rv, mm);
        let hi = bits_value(rv.skip(mm)) as int;
        assert(c as int - rlow == big * hi + (c as int - bits_value(rv) as int));
        vstd::arithmetic::div_mod::lemma_mod_multiples_vanish(
            hi,
            c as int - bits_value(rv) as int,
            big,
        );
        assert(c as int - bits_value(rv) as int == a@ as int);
        vstd::arithmetic::div_mod::lemma_small_mod(a@ % pow2(m as nat), pow2(m as nat));
        assert((a@ as int) % big == (a@ % pow2(m as nat)) as int);
    }
    out
}

/// The round-trip law of the decomposition engine: an element declared
/// below 2^k, decomposed into its k bits, is recovered exactly by the
/// weighted re-sum of those bits - in the integers, and therefore also in
/// the field whenever the declared width fits the masking capacity.
pub proof fn lemma_decompose_round_trip(a: nat, k: nat, bits: Seq<nat>)
    requires
        a < pow2(k),
        k <= 59,
        bits_value(bits) == a % pow2(k),
    ensures
        bits_value(bits) == a,
        (bits_value(bits) as int) % fp() == a,
{
    vstd::arithmetic::power2::lemma_pow2_pos(k);
    vstd::arithmetic::div_mod::lemma_small_mod(a, pow2(k));
    lemma_pow2_under_prime(k);
    vstd::arithmetic::div_mod::lemma_small_mod(a, FIELD_PRIME as nat);
}

/// The second decomposition variant: turn a secret element into the bits
/// of its full field residue, modulo the prime itself rather than a power
/// of two.
///
/// A field element can wrap around the prime, so the mask must be a
/// uniformly drawn residue: random bit rows are drawn and tested against
/// the prime with the comparison engine, rejecting and retrying on
/// failure so no bias enters; only the acceptance bit of each draw is
/// revealed. The masked sum is revealed, decomposed in the clear, and the
/// carry engine subtracts the mask bits; the final carry of that
/// subtraction says whether the revealed sum wrapped, and an oblivious
/// conditional addition of the prime corrects the wraparound, the zero
/// boundary included. The retry loop is bounded to keep termination
/// checkable; if every draw were rejected - probability vanishing in the
/// draw count - the mask falls back to zero, which is field-valid and
/// affects correctness not at all.
pub fn bit_dec_full(a: &SecretModp, rng: &mut RandomSource) -> (bits: Vec<SecretModp>)
    requires
        a.wf(),
    ensures
        bits@.len() == FIELD_BITS,
        bits_wf(bits@),
        bits_value(vals(bits@)) == a@,
{
    let ell = FIELD_BITS;
    proof {
        vstd::arithmetic::power2::lemma2_to64_rest();
        assert(pow2(61) == FIELD_PRIME + 1);
    }
    // rejection-sample a uniform field-valid mask row
    let mut rb = rng.random_bits(ell);
    let probe = bit_lt_clear(FIELD_PRIME - 1, &rb);
    let mut good = probe.reveal_to_all() == 0;
    let mut tries: usize = 0;
    while !good && tries < 64
        invariant
            rb@.len() == ell == FIELD_BITS,
            bits_wf(rb@),
            pow2(61) == FIELD_PRIME + 1,
            good ==> bits_value(vals(rb@)) < FIELD_PRIME,
            tries <= 64,
        decreases 64 - tries,
    {
        let cand = rng.random_bits(ell);
        let probe = bit_lt_clear(FIELD_PRIME - 1, &cand);
        if probe.reveal_to_all() == 0 {
            rb = cand;
            good = true;
        }
        tries = tries + 1;
    }
    if !good {
        rb = zero_bits(ell);
    }
    let ghost rv = vals(rb@);
    proof {
        assert(bits_value(rv) < FIELD_PRIME);
        vstd::arithmetic::div_mod::lemma_small_mod(bits_value(rv), FIELD_PRIME as nat);
    }
    let r = bits_to_secret(&rb);
    let masked = a.add(&r);
    let c = masked.reveal_to_all();
    let ghost rval = bits_value(rv) as int;
    proof {
        // the revealed sum, with or without one wrap of the modulus
        if a@ + rval < FIELD_PRIME {
            vstd::arithmetic::div_mod::lemma_small_mod((a@ + rval) as nat, FIELD_PRIME as nat);
        } else {
            vstd::arithmetic::div_mod::lemma_mod_sub_multiples_vanish(a@ + rval, fp());
            vstd::arithmetic::div_mod::lemma_small_mod(
                (a@ + rval - FIELD_PRIME) as nat,
                FIELD_PRIME as nat,
            );
        }
    }
    let cbits = clear_bits_of(c, ell);
    proof {
        vstd::arithmetic::div_mod::lemma_small_mod(c as nat, pow2(61));
    }
    let csec = secret_bits_of_clear(&cbits);
    let comp = complement_bits(&rb);
    let one = SecretModp::from_clear(1);
    // c + (2^61 - 1 - r) + 1: the low bits are c - r modulo 2^61 and the
    // carry says whether c >= r
    let s = bit_add(&csec, &comp, &one);
    let u = s[ell];
    let ghost sv = vals(s@);
    let mut s_low = s;
    let ghost s_full = s_low@;
    s_low.truncate(ell);
    proof {
        lemma_bits_value_complement(vals(comp@), rv);
        assert(bits_value(sv) == c + (pow2(61) - 1 - rval) + 1);
        assert(s_low@ =~= s_full.take(ell as int));
        assert(vals(s_low@) =~= vals(s_full).take(ell as int));
        lemma_bits_value_mod(vals(s_full), ell as int);
        lemma_bits_value_take_succ(vals(s_full), ell as int);
        assert(vals(s_full).take(ell as int + 1) =~= vals(s_full));
        lemma_bits_value_bound(vals(s_low@));
        vstd::arithmetic::mul::lemma_mul_basics(pow2(61) as int);
        assert(u@ == vals(s_full)[ell as int]);
        // the carry splits the two cases exactly
        assert(u@ == 1 ==> bits_value(vals(s_low@)) == c - rval);
        assert(u@ == 0 ==> bits_value(vals(s_low@)) == c - rval + pow2(61));
    }
    // oblivious wraparound correction: add the prime exactly when c < r
    let w = not_bit(&u);
    let pclear = clear_bits_of(FIELD_PRIME, ell);
    proof {
        vstd::arithmetic::div_mod::lemma_small_mod(FIELD_PRIME as nat, pow2(61));
    }
    let mut pc: Vec<SecretModp> = Vec::new();
    let mut j: usize = 0;
    while j < ell
        invariant
            j <= ell == FIELD_BITS,
            pclear@.len() == ell,
            bitvals_wf(u64_vals(pclear@)),
            is_bit(w),
            pc@.len() == j,
            bits_wf(pc@),
            forall|t: int|
                0 <= t < j ==> #[trigger] vals(pc@)[t] == (if u64_vals(pclear@)[t] == 1 {
                    w@
                } else {
                    0nat
                }),
        decreases ell - j,
    {
        proof {
            assert(u64_vals(pclear@)[j as int] == pclear@[j as int] as nat);
        }
        let ghost old_pc = pc@;
        if pclear[j] == 1 {
            pc.push(w);
        } else {
            pc.push(SecretModp::from_clear(0));
        }
        proof {
            assert forall|t: int|
                0 <= t < j + 1 implies #[trigger] vals(pc@)[t] == (if u64_vals(pclear@)[t] == 1 {
                w@
            } else {
                0nat
            }) by {
                assert(vals(pc@)[t] == pc@[t]@);
                if t < j {
                    assert(vals(old_pc)[t] == (if u64_vals(pclear@)[t] == 1 {
                        w@
                    } else {
                        0nat
                    }));
                    assert(pc@[t] == old_pc[t]);
                }
            }
        }
        j = j + 1;
    }
    proof {
        if w@ == 1 {
            assert(vals(pc@) =~= u64_vals(pclear@));
        } else {
            assert(forall|t: int| 0 <= t < pc@.len() ==> #[trigger] vals(pc@)[t] == 0);
            lemma_bits_value_zero(vals(pc@));
        }
    }
    let zero = SecretModp::from_clear(0);
    let fin = bit_add(&s_low, &pc, &zero);
    let ghost f_full = fin@;
    let mut out = fin;
    out.truncate(ell);
    proof {
        assert(out@ =~= f_full.take(ell as int));
        assert(vals(out@) =~= vals(f_full).take(ell as int));
        lemma_bits_value_mod(vals(f_full), ell as int);
        let big = pow2(61) as int;
        if u@ == 1 {
            // no wrap: the low bits already write c - r == a
            assert(a@ + rval < FIELD_PRIME);
            assert(bits_value(vals(f_full)) == a@);
            vstd::arithmetic::div_mod::lemma_small_mod(a@, pow2(61));
        } else {
            // wrapped: c - r == a - p, and adding p and 2^61 restores a
            assert(c < rval);
            assert(a@ + rval >= FIELD_PRIME);
            assert(bits_value(vals(f_full)) as int == a@ + big);
            vstd::arithmetic::div_mod::lemma_mod_add_multiples_vanish(a@ as int, big);
            vstd::arithmetic::div_mod::lemma_small_mod(a@, pow2(61));
        }
    }
    out
}

} // verus!
