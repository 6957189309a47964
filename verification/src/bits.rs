use vstd::prelude::*;

use crate::field::{fp, is_bit, SecretModp};
use crate::params::{FIELD_BITS, FIELD_PRIME};
use vstd::arithmetic::power2::pow2;

verus! {

/// Boolean XOR, stated over bit values.
pub open spec fn xor_val(a: nat, b: nat) -> nat {
    if a == b {
        0
    } else {
        1
    }
}

/// Boolean AND, stated over bit values.
pub open spec fn and_val(a: nat, b: nat) -> nat {
    if a == 1 && b == 1 {
        1
    } else {
        0
    }
}

/// Boolean OR, stated over bit values.
pub open spec fn or_val(a: nat, b: nat) -> nat {
    if a == 0 && b == 0 {
        0
    } else {
        1
    }
}

/// The values carried by a sequence of secret elements.
pub open spec fn vals(s: Seq<SecretModp>) -> Seq<nat> {
    s.map_values(|x: SecretModp| x@)
}

/// Every element of the sequence is a secret bit.
pub open spec fn bits_wf(s: Seq<SecretModp>) -> bool {
    forall|i: int| 0 <= i < s.len() ==> is_bit(#[trigger] s[i])
}

/// Every entry of a value sequence is 0 or 1.
pub open spec fn bitvals_wf(s: Seq<nat>) -> bool {
    forall|i: int| 0 <= i < s.len() ==> #[trigger] s[i] <= 1
}

/// The integer written by an ordered bit vector, index 0 least significant.
pub open spec fn bits_value(s: Seq<nat>) -> nat
    decreases s.len(),
{
    if s.len() == 0 {
        0
    } else {
        bits_value(s.drop_last()) + s.last() * pow2((s.len() - 1) as nat)
    }
}

/// The values of a sequence of clear bits.
pub open spec fn u64_vals(s: Seq<u64>) -> Seq<nat> {
    s.map_values(|x: u64| x as nat)
}

proof fn lemma_mod_small(x: int)
    requires
        0 <= x < fp(),
    ensures
        x % fp() == x,
{
    vstd::arithmetic::div_mod::lemma_small_mod(x as nat, FIELD_PRIME as nat);
}

/// The product of two bit values is their AND.
proof fn lemma_bit_product(a: nat, b: nat)
    requires
        a <= 1,
        b <= 1,
    ensures
        a * b == and_val(a, b),
{
    assert(a * b == and_val(a, b)) by (nonlinear_arith)
        requires
            a <= 1 && b <= 1,
    {
    }
}

/// Secret XOR of two secret bits: a + b - 2ab, one interactive product.
pub fn xor_bits(a: &SecretModp, b: &SecretModp) -> (r: SecretModp)
    requires
        is_bit(*a),
        is_bit(*b),
    ensures
        is_bit(r),
        r@ == xor_val(a@, b@),
{
    let prod = a.mul(b);
    let s = a.add(b);
    let twice = prod.add(&prod);
    let r = s.sub(&twice);
    proof {
        lemma_bit_product(a@, b@);
        lemma_mod_small((a@ * b@) as int);
        lemma_mod_small(a@ + b@ as int);
        lemma_mod_small((a@ * b@ + a@ * b@) as int);
        lemma_mod_small(a@ + b@ - 2 * (a@ * b@));
    }
    r
}

/// Secret AND of two secret bits: the interactive product itself.
pub fn and_bits(a: &SecretModp, b: &SecretModp) -> (r: SecretModp)
    requires
        is_bit(*a),
        is_bit(*b),
    ensures
        is_bit(r),
        r@ == and_val(a@, b@),
{
    let r = a.mul(b);
    proof {
        lemma_bit_product(a@, b@);
        lemma_mod_small((a@ * b@) as int);
    }
    r
}

/// Secret OR of two secret bits: a + b - ab, one interactive product.
pub fn or_bits(a: &SecretModp, b: &SecretModp) -> (r: SecretModp)
    requires
        is_bit(*a),
        is_bit(*b),
    ensures
        is_bit(r),
        r@ == or_val(a@, b@),
{
    let prod = a.mul(b);
    let s = a.add(b);
    let r = s.sub(&prod);
    proof {
        lemma_bit_product(a@, b@);
        lemma_mod_small((a@ * b@) as int);
        lemma_mod_small(a@ + b@ as int);
        lemma_mod_small(a@ + b@ - a@ * b@);
    }
    r
}

/// Secret complement of a secret bit: 1 - a, a local operation.
pub fn not_bit(a: &SecretModp) -> (r: SecretModp)
    requires
        is_bit(*a),
    ensures
        is_bit(r),
        r@ == xor_val(a@, 1),
{
    let one = SecretModp::from_clear(1);
    let r = one.sub(a);
    proof {
        lemma_mod_small(1 - a@);
    }
    r
}

/// Appending a bit raises the written integer by its weighted value.
pub proof fn lemma_bits_value_push(s: Seq<nat>, b: nat)
    ensures
        bits_value(s.push(b)) == bits_value(s) + b * pow2(s.len()),
{
    assert(s.push(b).drop_last() =~= s);
    assert(s.push(b).last() == b);
}

/// The written integer of a prefix grows positionally.
pub proof fn lemma_bits_value_take_succ(s: Seq<nat>, i: int)
    requires
        0 <= i < s.len(),
    ensures
        bits_value(s.take(i + 1)) == bits_value(s.take(i)) + s[i] * pow2(i as nat),
{
    assert(s.take(i + 1).drop_last() =~= s.take(i));
    assert(s.take(i + 1).last() == s[i]);
}

/// A vector of k bits writes an integer below 2^k.
pub proof fn lemma_bits_value_bound(s: Seq<nat>)
    requires
        bitvals_wf(s),
    ensures
        bits_value(s) < pow2(s.len()),
    decreases s.len(),
{
    vstd::arithmetic::power2::lemma_pow2_pos(s.len());
    if s.len() > 0 {
        lemma_bits_value_bound(s.drop_last());
        vstd::arithmetic::power2::lemma_pow2_unfold(s.len());
        assert(s.last() * pow2((s.len() - 1) as nat) <= pow2((s.len() - 1) as nat)) by {
            vstd::arithmetic::mul::lemma_mul_inequality(
                s.last() as int,
                1,
                pow2((s.len() - 1) as nat) as int,
            );
        }
    }
}

/// A vector of zero bits writes zero.
pub proof fn lemma_bits_value_zero(s: Seq<nat>)
    requires
        forall|i: int| 0 <= i < s.len() ==> #[trigger] s[i] == 0,
    ensures
        bits_value(s) == 0,
    decreases s.len(),
{
    if s.len() > 0 {
        lemma_bits_value_zero(s.drop_last());
    }
}

/// Complementing every bit of a k-bit row complements its written integer
/// against 2^k - 1.
pub proof fn lemma_bits_value_complement(x: Seq<nat>, y: Seq<nat>)
    requires
        x.len() == y.len(),
        forall|j: int| 0 <= j < x.len() ==> x[j] + #[trigger] y[j] == 1,
    ensures
        bits_value(x) + bits_value(y) == pow2(x.len()) - 1,
    decreases x.len(),
{
    vstd::arithmetic::power2::lemma_pow2_pos(x.len());
    vstd::arithmetic::power2::lemma2_to64();
    if x.len() > 0 {
        let w = pow2((x.len() - 1) as nat);
        assert(forall|j: int|
            0 <= j < x.len() - 1 ==> x.drop_last()[j] + #[trigger] y.drop_last()[j] == 1);
        lemma_bits_value_complement(x.drop_last(), y.drop_last());
        vstd::arithmetic::power2::lemma_pow2_unfold(x.len());
        vstd::arithmetic::mul::lemma_mul_basics(w as int);
        assert(x.last() + y.last() == 1);
        assert(x.last() * w + y.last() * w == w) by {
            if x.last() == 0 {
                assert(y.last() == 1);
            } else {
                assert(x.last() == 1 && y.last() == 0);
            }
        }
    }
}

/// Splitting a bit vector splits its written integer at the cut's weight.
pub proof fn lemma_bits_value_split(s: Seq<nat>, m: int)
    requires
        0 <= m <= s.len(),
    ensures
        bits_value(s) == bits_value(s.take(m)) + pow2(m as nat) * bits_value(s.skip(m)),
    decreases s.len(),
{
    if m == s.len() {
        assert(s.take(m) =~= s);
        assert(s.skip(m) =~= Seq::<nat>::empty());
    } else {
        let len = s.len() as int;
        lemma_bits_value_split(s.drop_last(), m);
        assert(s.drop_last().take(m) =~= s.take(m));
        assert(s.drop_last().skip(m) =~= s.skip(m).drop_last());
        let tail = s.skip(m);
        assert(tail.len() == len - m);
        assert(tail.last() == s.last());
        assert(bits_value(tail) == bits_value(tail.drop_last()) + s.last() * pow2(
            (len - m - 1) as nat,
        ));
        assert(pow2(m as nat) * bits_value(tail) == pow2(m as nat) * bits_value(tail.drop_last())
            + pow2(m as nat) * (s.last() * pow2((len - m - 1) as nat))) by {
            vstd::arithmetic::mul::lemma_mul_is_distributive_add(
                pow2(m as nat) as int,
                bits_value(tail.drop_last()) as int,
                (s.last() * pow2((len - m - 1) as nat)) as int,
            );
        }
        assert(pow2(m as nat) * (s.last() * pow2((len - m - 1) as nat)) == s.last() * pow2(
            (len - 1) as nat,
        )) by {
            vstd::arithmetic::power2::lemma_pow2_adds(m as nat, (len - m - 1) as nat);
            vstd::arithmetic::mul::lemma_mul_is_associative(
                pow2(m as nat) as int,
                s.last() as int,
                pow2((len - m - 1) as nat) as int,
            );
            vstd::arithmetic::mul::lemma_mul_is_commutative(
                pow2(m as nat) as int,
                s.last() as int,
            );
            vstd::arithmetic::mul::lemma_mul_is_associative(
                s.last() as int,
                pow2(m as nat) as int,
                pow2((len - m - 1) as nat) as int,
            );
        }
    }
}

/// The low m bits of a bit vector write its integer reduced modulo 2^m.
pub proof fn lemma_bits_value_mod(s: Seq<nat>, m: int)
    requires
        bitvals_wf(s),
        0 <= m <= s.len(),
    ensures
        bits_value(s.take(m)) == bits_value(s) % pow2(m as nat),
{
    lemma_bits_value_split(s, m);
    assert(bitvals_wf(s.take(m)));
    lemma_bits_value_bound(s.take(m));
    assert(s.take(m).len() == m);
    vstd::arithmetic::power2::lemma_pow2_pos(m as nat);
    vstd::arithmetic::mul::lemma_mul_is_commutative(
        pow2(m as nat) as int,
        bits_value(s.skip(m)) as int,
    );
    vstd::arithmetic::div_mod::lemma_fundamental_div_mod_converse_mod(
        bits_value(s) as int,
        pow2(m as nat) as int,
        bits_value(s.skip(m)) as int,
        bits_value(s.take(m)) as int,
    );
}

/// A clear power of two, used as a positional weight.
pub fn pow2_u64(e: usize) -> (r: u64)
    requires
        e <= 63,
    ensures
        r as nat == pow2(e as nat),
{
    proof {
        vstd::arithmetic::power2::lemma2_to64();
    }
    let mut r: u64 = 1;
    let mut i: usize = 0;
    while i < e
        invariant
            i <= e <= 63,
            r as nat == pow2(i as nat),
        decreases e - i,
    {
        proof {
            vstd::arithmetic::power2::lemma2_to64_rest();
            if (i as nat) < 62 {
                vstd::arithmetic::power2::lemma_pow2_strictly_increases(i as nat, 62);
            }
            vstd::arithmetic::power2::lemma_pow2_unfold((i + 1) as nat);
        }
        r = r * 2;
        i = i + 1;
    }
    r
}

/// Re-sum a secret bit vector into one secret field element: the weighted
/// sum of the bits, reduced modulo the field.
pub fn bits_to_secret(bits: &Vec<SecretModp>) -> (r: SecretModp)
    requires
        bits_wf(bits@),
        bits@.len() <= FIELD_BITS,
    ensures
        r.wf(),
        r@ == (bits_value(vals(bits@)) as int) % fp(),
{
    let mut acc = SecretModp::from_clear(0);
    let mut i: usize = 0;
    proof {
        assert(vals(bits@).take(0) =~= Seq::<nat>::empty());
        lemma_mod_small(0);
    }
    while i < bits.len()
        invariant
            bits_wf(bits@),
            bits@.len() <= FIELD_BITS,
            i <= bits@.len(),
            acc.wf(),
            acc@ == (bits_value(vals(bits@).take(i as int)) as int) % fp(),
        decreases bits@.len() - i,
    {
        proof {
            vstd::arithmetic::power2::lemma2_to64();
            vstd::arithmetic::power2::lemma2_to64_rest();
            vstd::arithmetic::power2::lemma_pow2_strictly_increases(i as nat, 61);
        }
        let w = pow2_u64(i);
        let term = bits[i].mul_clear(w);
        acc = acc.add(&term);
        proof {
            let bseq = vals(bits@);
            lemma_bits_value_take_succ(bseq, i as int);
            assert(bseq[i as int] == bits@[i as int]@);
            vstd::arithmetic::div_mod::lemma_add_mod_noop(
                bits_value(bseq.take(i as int)) as int,
                (bseq[i as int] * pow2(i as nat)) as int,
                fp(),
            );
            lemma_mod_small((bseq[i as int] * pow2(i as nat)) as int);
        }
        i = i + 1;
    }
    proof {
        assert(vals(bits@).take(bits@.len() as int) =~= vals(bits@));
    }
    acc
}

/// Inject a row of clear bits into shared state, one local injection per
/// position.
pub fn secret_bits_of_clear(bits: &Vec<u64>) -> (out: Vec<SecretModp>)
    requires
        bitvals_wf(u64_vals(bits@)),
    ensures
        out@.len() == bits@.len(),
        bits_wf(out@),
        vals(out@) == u64_vals(bits@),
{
    let n = bits.len();
    let mut out: Vec<SecretModp> = Vec::new();
    let mut j: usize = 0;
    while j < n
        invariant
            j <= n == bits@.len(),
            bitvals_wf(u64_vals(bits@)),
            out@.len() == j,
            bits_wf(out@),
            forall|t: int| 0 <= t < j ==> vals(out@)[t] == u64_vals(bits@)[t],
        decreases n - j,
    {
        proof {
            assert(u64_vals(bits@)[j as int] == bits@[j as int] as nat);
        }
        let sb = SecretModp::from_clear(bits[j]);
        out.push(sb);
        j = j + 1;
    }
    proof {
        assert(vals(out@) =~= u64_vals(bits@));
    }
    out
}

/// The bitwise complement of a secret bit row, one local operation per
/// position.
pub fn complement_bits(b: &Vec<SecretModp>) -> (out: Vec<SecretModp>)
    requires
        bits_wf(b@),
    ensures
        out@.len() == b@.len(),
        bits_wf(out@),
        forall|t: int| 0 <= t < b@.len() ==> vals(out@)[t] + #[trigger] vals(b@)[t] == 1,
{
    let n = b.len();
    let mut out: Vec<SecretModp> = Vec::new();
    let mut j: usize = 0;
    while j < n
        invariant
            j <= n == b@.len(),
            bits_wf(b@),
            out@.len() == j,
            bits_wf(out@),
            forall|t: int| 0 <= t < j ==> vals(out@)[t] + #[trigger] vals(b@)[t] == 1,
        decreases n - j,
    {
        let nb = not_bit(&b[j]);
        out.push(nb);
        proof {
            assert(vals(out@)[j as int] == xor_val(vals(b@)[j as int], 1));
        }
        j = j + 1;
    }
    out
}

/// A row of secret zero bits.
pub fn zero_bits(n: usize) -> (out: Vec<SecretModp>)
    ensures
        out@.len() == n,
        bits_wf(out@),
        forall|t: int| 0 <= t < n ==> #[trigger] vals(out@)[t] == 0,
        bits_value(vals(out@)) == 0,
{
    let mut out: Vec<SecretModp> = Vec::new();
    let mut j: usize = 0;
    while j < n
        invariant
            j <= n,
            out@.len() == j,
            forall|t: int| 0 <= t < j ==> #[trigger] vals(out@)[t] == 0,
        decreases n - j,
    {
        let ghost old_out = out@;
        out.push(SecretModp::from_clear(0));
        proof {
            assert forall|t: int| 0 <= t < j + 1 implies #[trigger] vals(out@)[t] == 0 by {
                assert(vals(out@)[t] == out@[t]@);
                if t < j {
                    assert(vals(old_out)[t] == 0);
                    assert(out@[t] == old_out[t]);
                }
            }
        }
        j = j + 1;
    }
    proof {
        assert forall|t: int| 0 <= t < out@.len() implies is_bit(#[trigger] out@[t]) by {
            assert(vals(out@)[t] == out@[t]@);
        }
        lemma_bits_value_zero(vals(out@));
    }
    out
}

/// Decompose a clear value into its m low bits, in the clear.
pub fn clear_bits_of(c: u64, m: usize) -> (r: Vec<u64>)
    requires
        m <= 64,
    ensures
        r@.len() == m,
        bitvals_wf(u64_vals(r@)),
        bits_value(u64_vals(r@)) == (c as nat) % pow2(m as nat),
{
    let mut out: Vec<u64> = Vec::new();
    let mut cur: u64 = c;
    let mut i: usize = 0;
    proof {
        vstd::arithmetic::power2::lemma2_to64();
        assert(u64_vals(out@) =~= Seq::<nat>::empty());
    }
    while i < m
        invariant
            i <= m <= 64,
            out@.len() == i,
            bitvals_wf(u64_vals(out@)),
            cur as nat == (c as nat) / pow2(i as nat),
            bits_value(u64_vals(out@)) == (c as nat) % pow2(i as nat),
        decreases m - i,
    {
        let b = cur % 2;
        let ghost old_out = out@;
        let ghost old_cur = cur as nat;
        out.push(b);
        cur = cur / 2;
        proof {
            assert(u64_vals(out@) =~= u64_vals(old_out).push(b as nat));
            lemma_bits_value_push(u64_vals(old_out), b as nat);
            vstd::arithmetic::power2::lemma_pow2_pos(i as nat);
            vstd::arithmetic::power2::lemma_pow2_unfold((i + 1) as nat);
            vstd::arithmetic::power2::lemma_pow2_adds(i as nat, 1);
            vstd::arithmetic::power2::lemma2_to64();
            // c % 2^(i+1) == 2^i * ((c / 2^i) % 2) + c % 2^i
            vstd::arithmetic::div_mod::lemma_breakdown(c as int, pow2(i as nat) as int, 2);
            // (c / 2^i) / 2 == c / 2^(i+1)
            vstd::arithmetic::div_mod::lemma_div_denominator(c as int, pow2(i as nat) as int, 2);
            vstd::arithmetic::mul::lemma_mul_is_commutative(b as int, pow2(i as nat) as int);
            assert(b as nat == old_cur % 2);
            assert(pow2(i as nat) * 2 == pow2((i + 1) as nat));
        }
        i = i + 1;
    }
    out
}

} // verus!
