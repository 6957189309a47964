use vstd::prelude::*;

use crate::bits::{
    and_bits, and_val, bits_value, bits_wf, bitvals_wf, clear_bits_of, lemma_bits_value_bound,
    pow2_u64, u64_vals, vals, xor_bits, xor_val,
};
use crate::carry::{carry_chain, carry_out, lemma_carry_chain_is_bit, lemma_carry_chain_value,
    lemma_fold_pairs_carry, pairs_match, CarryPair};
use crate::decompose::bit_dec;
use crate::field::{fp, is_bit, SecretModp};
use crate::params::{FIELD_PRIME, K_BITS};
use crate::rng::RandomSource;
use crate::prefix::{any_bit_set, prefix_or, scan_inv, ScanOp};
use vstd::arithmetic::power2::pow2;

verus! {

/// No bit position from p upward differs between the two rows.
pub open spec fn no_diff_from(x: Seq<nat>, y: Seq<nat>, p: int) -> bool {
    forall|t: int| p <= t < x.len() ==> x[t] == y[t]
}

/// Among the positions from p upward, the most significant differing one
/// carries a 1 in y: the bitwise "x < y" decision restricted to a suffix.
pub open spec fn lt_bits_from(x: Seq<nat>, y: Seq<nat>, p: int) -> bool {
    exists|t: int|
        p <= t < x.len() && x[t] != y[t] && y[t] == 1 && (forall|u: int|
            t < u < x.len() ==> x[u] == y[u])
}

/// The most-significant-differing-bit rule decides the written integers'
/// order.
pub proof fn lemma_lt_bits_value(x: Seq<nat>, y: Seq<nat>)
    requires
        bitvals_wf(x),
        bitvals_wf(y),
        x.len() == y.len(),
    ensures
        lt_bits_from(x, y, 0) <==> bits_value(x) < bits_value(y),
    decreases x.len(),
{
    if x.len() == 0 {
    } else {
        let k = x.len() as int;
        let xd = x.drop_last();
        let yd = y.drop_last();
        lemma_bits_value_bound(xd);
        lemma_bits_value_bound(yd);
        vstd::arithmetic::mul::lemma_mul_basics(pow2((k - 1) as nat) as int);
        assert(bits_value(x) == bits_value(xd) + x.last() * pow2((k - 1) as nat));
        assert(bits_value(y) == bits_value(yd) + y.last() * pow2((k - 1) as nat));
        if x.last() != y.last() {
            if y.last() == 1 {
                assert(x[k - 1] != y[k - 1] && y[k - 1] == 1 && (forall|u: int|
                    k - 1 < u < k ==> x[u] == y[u]));
                assert(lt_bits_from(x, y, 0));
                assert(bits_value(x) < bits_value(y));
            } else {
                assert(bits_value(y) < bits_value(x) + 1);
                if lt_bits_from(x, y, 0) {
                    let t = choose|t: int|
                        0 <= t < k && x[t] != y[t] && y[t] == 1 && (forall|u: int|
                            t < u < k ==> x[u] == y[u]);
                    assert(x[k - 1] == y[k - 1]);
                    assert(false);
                }
            }
        } else {
            lemma_lt_bits_value(xd, yd);
            assert(lt_bits_from(xd, yd, 0) <==> lt_bits_from(x, y, 0)) by {
                if lt_bits_from(xd, yd, 0) {
                    let t = choose|t: int|
                        0 <= t < k - 1 && xd[t] != yd[t] && yd[t] == 1 && (forall|u: int|
                            t < u < k - 1 ==> xd[u] == yd[u]);
                    assert(x[t] != y[t] && y[t] == 1);
                    assert forall|u: int| t < u < k implies x[u] == y[u] by {
                        if u < k - 1 {
                            assert(xd[u] == yd[u]);
                        }
                    }
                    assert(lt_bits_from(x, y, 0));
                }
                if lt_bits_from(x, y, 0) {
                    let t = choose|t: int|
                        0 <= t < k && x[t] != y[t] && y[t] == 1 && (forall|u: int|
                            t < u < k ==> x[u] == y[u]);
                    assert(t != k - 1);
                    assert(xd[t] != yd[t] && yd[t] == 1);
                    assert(forall|u: int| t < u < k - 1 ==> xd[u] == yd[u]);
                    assert(lt_bits_from(xd, yd, 0));
                }
            }
        }
    }
}

/// Secure less-than over two equal-length secret bit rows, low bit first:
/// XOR per position gives the difference indicators, the prefix OR run from
/// the most significant end finds every position with a more significant
/// difference, XOR of adjacent OR results isolates the single most
/// significant differing position, and the answer is the sum of the
/// isolators weighted by the bits of the right operand. Constant rounds,
/// no branching on secret data.
pub fn bit_lt(a: &Vec<SecretModp>, b: &Vec<SecretModp>) -> (r: SecretModp)
    requires
        bits_wf(a@),
        bits_wf(b@),
        a@.len() == b@.len(),
        1 <= a@.len() < 0x4000_0000,
    ensures
        is_bit(r),
        r@ == 1 <==> bits_value(vals(a@)) < bits_value(vals(b@)),
{
    let ghost x = vals(a@);
    let ghost y = vals(b@);
    let k = a.len();
    // difference indicators, most significant position first
    let mut diffs: Vec<SecretModp> = Vec::new();
    let mut j: usize = 0;
    while j < k
        invariant
            j <= k,
            k == a@.len() == b@.len(),
            bits_wf(a@),
            bits_wf(b@),
            x == vals(a@),
            y == vals(b@),
            diffs@.len() == j,
            bits_wf(diffs@),
            forall|t: int|
                0 <= t < j ==> (#[trigger] diffs@[t])@ == xor_val(x[k - 1 - t], y[k - 1 - t]),
        decreases k - j,
    {
        let d = xor_bits(&a[k - 1 - j], &b[k - 1 - j]);
        diffs.push(d);
        j = j + 1;
    }
    let ors = prefix_or(&diffs);
    // isolate the most significant differing position and read y's bit there
    let mut acc = SecretModp::from_clear(0);
    let mut prev = SecretModp::from_clear(0);
    let mut j: usize = 0;
    while j < k
        invariant
            j <= k,
            k == a@.len() == b@.len(),
            bits_wf(a@),
            bits_wf(b@),
            x == vals(a@),
            y == vals(b@),
            diffs@.len() == k,
            bits_wf(diffs@),
            forall|t: int|
                0 <= t < k ==> (#[trigger] diffs@[t])@ == xor_val(x[k - 1 - t], y[k - 1 - t]),
            ors@.len() == k,
            bits_wf(ors@),
            forall|t: int|
                0 <= t < k ==> (#[trigger] ors@[t])@ == (if any_bit_set(vals(diffs@.take(t + 1))) {
                    1nat
                } else {
                    0nat
                }),
            is_bit(prev),
            prev@ == 1 <==> !no_diff_from(x, y, k - j),
            is_bit(acc),
            acc@ == 1 <==> lt_bits_from(x, y, k - j),
        decreases k - j,
    {
        let ghost p = k - j;
        proof {
            lemma_or_window(x, y, diffs@, j as int);
            if prev@ == 1 {
                assert(!no_diff_from(x, y, p));
                let t = choose|t: int| p <= t < x.len() && x[t] != y[t];
                assert(ors@[j as int]@ == 1) by {
                    assert(vals(diffs@.take(j as int + 1))[k - 1 - t] == xor_val(x[t], y[t]));
                }
            }
        }
        let f = ors[j].sub(&prev);
        proof {
            vstd::arithmetic::div_mod::lemma_small_mod(
                (ors@[j as int]@ - prev@) as nat,
                FIELD_PRIME as nat,
            );
        }
        let term = and_bits(&f, &b[k - 1 - j]);
        proof {
            if term@ == 1 && acc@ == 1 {
                assert(no_diff_from(x, y, p));
                let t = choose|t: int|
                    p <= t < x.len() && x[t] != y[t] && y[t] == 1 && (forall|u: int|
                        t < u < x.len() ==> x[u] == y[u]);
                assert(false);
            }
            vstd::arithmetic::div_mod::lemma_small_mod(
                (acc@ + term@) as nat,
                FIELD_PRIME as nat,
            );
        }
        let ghost old_acc = acc@;
        acc = acc.add(&term);
        prev = ors[j];
        j = j + 1;
        proof {
            let q = k - j;
            // the new suffix decision is the old one, or a fresh difference
            // at the new most significant open position
            assert(prev@ == 1 <==> !no_diff_from(x, y, q));
            if term@ == 1 {
                assert(x[q] != y[q] && y[q] == 1 && no_diff_from(x, y, q + 1));
                assert(lt_bits_from(x, y, q));
            }
            if acc@ == 1 && term@ != 1 {
                assert(old_acc == 1);
                let t = choose|t: int|
                    q + 1 <= t < x.len() && x[t] != y[t] && y[t] == 1 && (forall|u: int|
                        t < u < x.len() ==> x[u] == y[u]);
                assert(lt_bits_from(x, y, q));
            }
            if lt_bits_from(x, y, q) && acc@ == 0 {
                let t = choose|t: int|
                    q <= t < x.len() && x[t] != y[t] && y[t] == 1 && (forall|u: int|
                        t < u < x.len() ==> x[u] == y[u]);
                if t == q {
                    assert(no_diff_from(x, y, q + 1));
                    assert(term@ == 1);
                } else {
                    assert(lt_bits_from(x, y, q + 1));
                    assert(old_acc == 1);
                }
                assert(false);
            }
        }
    }
    proof {
        lemma_lt_bits_value(x, y);
    }
    acc
}

/// The OR of the first j+1 difference indicators says whether any position
/// from k-1-j upward differs.
proof fn lemma_or_window(x: Seq<nat>, y: Seq<nat>, diffs: Seq<SecretModp>, j: int)
    requires
        x.len() == y.len() == diffs.len(),
        0 <= j < diffs.len(),
        forall|t: int|
            0 <= t < diffs.len() ==> (#[trigger] diffs[t])@ == xor_val(
                x[diffs.len() - 1 - t],
                y[diffs.len() - 1 - t],
            ),
    ensures
        any_bit_set(vals(diffs.take(j + 1))) <==> !no_diff_from(x, y, x.len() - 1 - j),
{
    let k = diffs.len() as int;
    if any_bit_set(vals(diffs.take(j + 1))) {
        let t = choose|t: int| 0 <= t < j + 1 && #[trigger] vals(diffs.take(j + 1))[t] == 1;
        assert(diffs[t]@ == xor_val(x[k - 1 - t], y[k - 1 - t]));
        assert(x[k - 1 - t] != y[k - 1 - t]);
    }
    if !no_diff_from(x, y, k - 1 - j) {
        let t = choose|t: int| k - 1 - j <= t < k && x[t] != y[t];
        assert(vals(diffs.take(j + 1))[k - 1 - t] == xor_val(x[t], y[t]));
        assert(any_bit_set(vals(diffs.take(j + 1))));
    }
}

/// The second entry point of the comparison engine: less-than between a
/// revealed (clear) comparand and a secret bit row, folded straight into
/// the carry engine. The clear complement of the comparand and the secret
/// bits are turned into carry pairs, and the standalone carry-out
/// reduction's bit is the answer: the row (2^k - 1 - a) + b overflows
/// position k exactly when a < b.
pub fn bit_lt_clear(a: u64, b: &Vec<SecretModp>) -> (r: SecretModp)
    requires
        bits_wf(b@),
        1 <= b@.len() < 62,
        (a as nat) < pow2(b@.len() as nat),
    ensures
        is_bit(r),
        r@ == 1 <==> (a as nat) < bits_value(vals(b@)),
{
    let ghost y = vals(b@);
    let k = b.len();
    let top = pow2_u64(k);
    let compl = top - 1 - a;
    let cbits = clear_bits_of(compl, k);
    let ghost x = u64_vals(cbits@);
    proof {
        vstd::arithmetic::power2::lemma_pow2_pos(k as nat);
        vstd::arithmetic::div_mod::lemma_small_mod((compl) as nat, pow2(k as nat));
    }
    // build the carry pairs of the mixed clear/secret addition locally:
    // where the clear bit is 1 the position propagates on a 0 and
    // generates on a 1; where it is 0 it propagates on the secret bit
    let mut pairs: Vec<CarryPair> = Vec::new();
    let mut j: usize = 0;
    while j < k
        invariant
            j <= k,
            k == b@.len() == cbits@.len(),
            bits_wf(b@),
            y == vals(b@),
            x == u64_vals(cbits@),
            bitvals_wf(x),
            pairs@.len() == j,
            scan_inv(pairs@),
            forall|t: int|
                0 <= t < j ==> (#[trigger] pairs@[t]).p@ == xor_val(x[t], y[t]) && pairs@[t].g@
                    == and_val(x[t], y[t]),
        decreases k - j,
    {
        let zero = SecretModp::from_clear(0);
        let one = SecretModp::from_clear(1);
        let (p, g) = if cbits[j] == 1 {
            (one.sub(&b[j]), b[j])
        } else {
            (b[j], zero)
        };
        proof {
            vstd::arithmetic::div_mod::lemma_small_mod((1 - b@[j as int]@) as nat,
                FIELD_PRIME as nat);
        }
        pairs.push(CarryPair { p, g });
        j = j + 1;
    }
    proof {
        assert(pairs_match(pairs@, x, y));
    }
    let c = carry_out(&pairs);
    proof {
        lemma_fold_pairs_carry(pairs@, x, y, 0, k - 1);
        assert(pairs@.take(k as int) =~= pairs@);
        let f = crate::prefix::fold_scan(pairs@);
        assert(f.inv());
        assert(and_val(f.p@, 0) == 0);
        assert(crate::bits::or_val(f.g@, 0) == f.g@);
        assert(c@ == carry_chain(x, y, 0, k - 1));
        lemma_carry_chain_is_bit(x, y, 0, k - 1);
        vstd::arithmetic::mul::lemma_mul_basics(pow2(k as nat) as int);
        lemma_carry_chain_value(x, y, 0, k - 1);
        assert(x.take(k as int) =~= x);
        assert(y.take(k as int) =~= y);
        lemma_bits_value_bound(y);
        assert(bits_value(x) == (compl as nat));
        assert(carry_chain(x, y, 0, k - 1) == 1 <==> bits_value(x) + bits_value(y)
            >= pow2(k as nat));
    }
    c
}

/// Secure less-or-equal between two secret field elements that hold
/// integers below 2^K_BITS, the secret-integer comparison capability the
/// ranking layer uses: decompose b - a + 2^K_BITS, which cannot wrap, and
/// read its top bit.
pub fn le(a: &SecretModp, b: &SecretModp, rng: &mut RandomSource) -> (r: SecretModp)
    requires
        a.wf(),
        b.wf(),
        a@ < pow2(K_BITS as nat),
        b@ < pow2(K_BITS as nat),
    ensures
        is_bit(r),
        r@ == 1 <==> a@ <= b@,
{
    let diff = b.sub(a);
    let top = pow2_u64(K_BITS);
    proof {
        vstd::arithmetic::power2::lemma2_to64();
        vstd::arithmetic::power2::lemma2_to64_rest();
    }
    let t = diff.add_clear(top);
    proof {
        let v = b@ as int - a@ as int + pow2(K_BITS as nat);
        vstd::arithmetic::div_mod::lemma_small_mod(top as nat, FIELD_PRIME as nat);
        vstd::arithmetic::div_mod::lemma_add_mod_noop(b@ as int - a@ as int, top as int, fp());
        assert(t@ == v % fp());
        vstd::arithmetic::power2::lemma_pow2_unfold((K_BITS + 1) as nat);
        assert(0 <= v < pow2((K_BITS + 1) as nat));
        vstd::arithmetic::div_mod::lemma_small_mod(v as nat, FIELD_PRIME as nat);
        assert(t@ == v);
    }
    let bits = bit_dec(&t, K_BITS + 1, K_BITS + 1, rng);
    proof {
        let w = vals(bits@);
        vstd::arithmetic::div_mod::lemma_small_mod(t@, pow2((K_BITS + 1) as nat));
        assert(bits_value(w) == t@);
        crate::bits::lemma_bits_value_take_succ(w, K_BITS as int);
        assert(w.take(K_BITS as int + 1) =~= w);
        assert(bitvals_wf(w.take(K_BITS as int)));
        lemma_bits_value_bound(w.take(K_BITS as int));
        vstd::arithmetic::mul::lemma_mul_basics(pow2(K_BITS as nat) as int);
        assert(w[K_BITS as int] == 1 <==> a@ <= b@);
    }
    let r = bits[K_BITS];
    r
}

/// The secret equality indicator: one bit, 1 exactly when the two hidden
/// integers are equal, built from the two one-sided comparisons.
pub fn eq_indicator(a: &SecretModp, b: &SecretModp, rng: &mut RandomSource) -> (r: SecretModp)
    requires
        a.wf(),
        b.wf(),
        a@ < pow2(K_BITS as nat),
        b@ < pow2(K_BITS as nat),
    ensures
        is_bit(r),
        r@ == 1 <==> a@ == b@,
{
    let l1 = le(a, b, rng);
    let l2 = le(b, a, rng);
    and_bits(&l1, &l2)
}

} // verus!
