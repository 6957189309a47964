use vstd::prelude::*;

use crate::bits::{
    and_bits, and_val, bits_value, bits_wf, lemma_bits_value_push, lemma_bits_value_take_succ,
    lemma_bits_value_zero, or_bits, or_val, vals, xor_bits, xor_val,
};
use crate::field::{is_bit, lemma_raw_view, mk, SecretModp};
use crate::prefix::{
    fold_scan, lemma_fold_scan_inv, lemma_fold_scan_merge, parallel_prefix, scan_inv, ScanOp,
};
use vstd::arithmetic::power2::pow2;

verus! {

/// The carry generate/propagate pair of one bit position: `p` says "this
/// position propagates an incoming carry", `g` says "this position generates
/// a carry". A well-formed pair never has both set.
#[derive(Clone, Copy)]
pub struct CarryPair {
    pub p: SecretModp,
    pub g: SecretModp,
}

/// The protocol invariant of a carry pair.
pub open spec fn pair_wf(c: CarryPair) -> bool {
    &&& is_bit(c.p)
    &&& is_bit(c.g)
    &&& !(c.p@ == 1 && c.g@ == 1)
}

/// The carry-pair reduction: combining the state of a less significant
/// span (self) with a more significant span (other) gives
/// (p1 * p2, g2 + p2 * g1). The operator is associative, so the prefix
/// engine can fold carry chains in logarithmic depth.
impl ScanOp for CarryPair {
    open spec fn inv(self) -> bool {
        pair_wf(self)
    }

    closed spec fn combine_spec(self, other: Self) -> Self {
        CarryPair {
            p: mk(
                if self.p.v == 1 && other.p.v == 1 {
                    1
                } else {
                    0
                },
            ),
            g: mk(
                if other.g.v == 1 || (other.p.v == 1 && self.g.v == 1) {
                    1
                } else {
                    0
                },
            ),
        }
    }

    proof fn lemma_combine_inv(a: Self, b: Self) {
        let r = a.combine_spec(b);
        lemma_raw_view(a.p);
        lemma_raw_view(a.g);
        lemma_raw_view(b.p);
        lemma_raw_view(b.g);
        lemma_raw_view(r.p);
        lemma_raw_view(r.g);
    }

    proof fn lemma_combine_assoc(a: Self, b: Self, c: Self) {
        lemma_raw_view(a.combine_spec(b).combine_spec(c).p);
    }

    /// Two interactive products per combination.
    fn combine(&self, other: &Self) -> (r: Self) {
        let p = and_bits(&self.p, &other.p);
        let t = and_bits(&other.p, &self.g);
        let g = other.g.add(&t);
        proof {
            vstd::arithmetic::div_mod::lemma_small_mod(
                (other.g@ + and_val(other.p@, self.g@)) as nat,
                crate::params::FIELD_PRIME as nat,
            );
            let rs = self.combine_spec(*other);
            lemma_raw_view(self.p);
            lemma_raw_view(self.g);
            lemma_raw_view(other.p);
            lemma_raw_view(other.g);
            lemma_raw_view(p);
            lemma_raw_view(g);
            lemma_raw_view(rs.p);
            lemma_raw_view(rs.g);
        }
        CarryPair { p, g }
    }
}

/// The pair sequence is the half-adder state of the two addend bit rows.
pub open spec fn pairs_match(pairs: Seq<CarryPair>, a: Seq<nat>, b: Seq<nat>) -> bool {
    &&& pairs.len() == a.len()
    &&& pairs.len() == b.len()
    &&& forall|j: int|
        0 <= j < pairs.len() ==> (#[trigger] pairs[j]).p@ == xor_val(a[j], b[j]) && pairs[j].g@
            == and_val(a[j], b[j])
}

/// The ripple carry of the textbook adder: the carry leaving position i,
/// with carry cin entering position 0. The prefix-folded pairs are proved
/// to compute exactly this chain.
pub open spec fn carry_chain(a: Seq<nat>, b: Seq<nat>, cin: nat, i: int) -> nat
    decreases i + 1,
{
    if i < 0 {
        cin
    } else {
        or_val(and_val(a[i], b[i]), and_val(xor_val(a[i], b[i]), carry_chain(a, b, cin, i - 1)))
    }
}

/// The sum bit of position j.
pub open spec fn sum_bit_val(a: Seq<nat>, b: Seq<nat>, cin: nat, j: int) -> nat {
    xor_val(xor_val(a[j], b[j]), carry_chain(a, b, cin, j - 1))
}

/// Carries are bits.
pub proof fn lemma_carry_chain_is_bit(a: Seq<nat>, b: Seq<nat>, cin: nat, i: int)
    requires
        cin <= 1,
    ensures
        carry_chain(a, b, cin, i) <= 1,
{
}

/// The ripple carry leaving position i is exactly the overflow of the
/// partial sum of positions 0..=i past the weight of position i+1.
pub proof fn lemma_carry_chain_value(x: Seq<nat>, y: Seq<nat>, cin: nat, i: int)
    requires
        crate::bits::bitvals_wf(x),
        crate::bits::bitvals_wf(y),
        x.len() == y.len(),
        cin <= 1,
        -1 <= i < x.len(),
    ensures
        carry_chain(x, y, cin, i) * pow2((i + 1) as nat) <= bits_value(x.take(i + 1))
            + bits_value(y.take(i + 1)) + cin,
        bits_value(x.take(i + 1)) + bits_value(y.take(i + 1)) + cin < carry_chain(x, y, cin, i)
            * pow2((i + 1) as nat) + pow2((i + 1) as nat),
    decreases i + 1,
{
    if i == -1 {
        assert(x.take(0) =~= Seq::<nat>::empty());
        assert(y.take(0) =~= Seq::<nat>::empty());
        assert(carry_chain(x, y, cin, -1) == cin);
        assert(pow2(0) == 1) by {
            vstd::arithmetic::power2::lemma2_to64();
        }
        assert(cin * pow2(0) == cin) by {
            vstd::arithmetic::mul::lemma_mul_basics(cin as int);
        }
    } else {
        lemma_carry_chain_value(x, y, cin, i - 1);
        lemma_bits_value_take_succ(x, i);
        lemma_bits_value_take_succ(y, i);
        let cprev = carry_chain(x, y, cin, i - 1);
        let c = carry_chain(x, y, cin, i);
        let s = sum_bit_val(x, y, cin, i);
        lemma_carry_chain_is_bit(x, y, cin, i - 1);
        lemma_carry_chain_is_bit(x, y, cin, i);
        assert(x[i] <= 1 && y[i] <= 1);
        assert(s <= 1);
        assert(x[i] + y[i] + cprev == 2 * c + s);
        vstd::arithmetic::power2::lemma_pow2_unfold((i + 1) as nat);
        assert(c * pow2((i + 1) as nat) <= bits_value(x.take(i + 1)) + bits_value(y.take(i + 1))
            + cin < c * pow2((i + 1) as nat) + pow2((i + 1) as nat)) by (nonlinear_arith)
            requires
                bits_value(x.take(i + 1)) == bits_value(x.take(i)) + x[i] * pow2(i as nat),
                bits_value(y.take(i + 1)) == bits_value(y.take(i)) + y[i] * pow2(i as nat),
                cprev * pow2(i as nat) <= bits_value(x.take(i)) + bits_value(y.take(i)) + cin,
                bits_value(x.take(i)) + bits_value(y.take(i)) + cin < cprev * pow2(i as nat)
                    + pow2(i as nat),
                x[i] + y[i] + cprev == 2 * c + s,
                s <= 1,
                pow2((i + 1) as nat) == 2 * pow2(i as nat),
        {
        }
    }
}

/// Folding the half-adder pairs of positions 0..=i through the carry-pair
/// reduction yields the ripple carry leaving position i: the fold's
/// generate bit, or its propagate bit passing the incoming carry.
pub proof fn lemma_fold_pairs_carry(
    pairs: Seq<CarryPair>,
    a: Seq<nat>,
    b: Seq<nat>,
    cin: nat,
    i: int,
)
    requires
        pairs_match(pairs, a, b),
        scan_inv(pairs),
        cin <= 1,
        0 <= i < pairs.len(),
    ensures
        fold_scan(pairs.take(i + 1)).inv(),
        or_val(fold_scan(pairs.take(i + 1)).g@, and_val(fold_scan(pairs.take(i + 1)).p@, cin))
            == carry_chain(a, b, cin, i),
    decreases i,
{
    assert(scan_inv(pairs.take(i + 1)));
    lemma_fold_scan_inv(pairs.take(i + 1));
    if i == 0 {
        assert(fold_scan(pairs.take(1)) == pairs[0]);
        assert(carry_chain(a, b, cin, -1) == cin);
    } else {
        lemma_fold_pairs_carry(pairs, a, b, cin, i - 1);
        assert(pairs.take(i + 1).drop_last() =~= pairs.take(i));
        let fprev = fold_scan(pairs.take(i));
        let f = fold_scan(pairs.take(i + 1));
        assert(f == fprev.combine_spec(pairs[i]));
        lemma_raw_view(fprev.p);
        lemma_raw_view(fprev.g);
        lemma_raw_view(pairs[i].p);
        lemma_raw_view(pairs[i].g);
        lemma_raw_view(f.p);
        lemma_raw_view(f.g);
        lemma_carry_chain_is_bit(a, b, cin, i - 1);
        assert(pairs[i].inv());
        assert(pairs[i].p@ == xor_val(a[i], b[i]) && pairs[i].g@ == and_val(a[i], b[i]));
        assert(f.p@ == and_val(fprev.p@, pairs[i].p@));
        assert(f.g@ == or_val(pairs[i].g@, and_val(pairs[i].p@, fprev.g@)));
        assert(carry_chain(a, b, cin, i) == or_val(
            and_val(a[i], b[i]),
            and_val(xor_val(a[i], b[i]), carry_chain(a, b, cin, i - 1)),
        ));
    }
}

/// Build the half-adder pairs of two equal-length secret bit rows:
/// p = a XOR b, g = a AND b per position.
pub fn half_adder_pairs(a: &Vec<SecretModp>, b: &Vec<SecretModp>) -> (pairs: Vec<CarryPair>)
    requires
        bits_wf(a@),
        bits_wf(b@),
        a@.len() == b@.len(),
    ensures
        pairs@.len() == a@.len(),
        pairs_match(pairs@, vals(a@), vals(b@)),
        scan_inv(pairs@),
{
    let n = a.len();
    let mut pairs: Vec<CarryPair> = Vec::new();
    let mut j: usize = 0;
    while j < n
        invariant
            j <= n,
            n == a@.len() == b@.len(),
            bits_wf(a@),
            bits_wf(b@),
            pairs@.len() == j,
            forall|t: int|
                0 <= t < j ==> (#[trigger] pairs@[t]).p@ == xor_val(vals(a@)[t], vals(b@)[t])
                    && pairs@[t].g@ == and_val(vals(a@)[t], vals(b@)[t]) && pairs@[t].inv(),
        decreases n - j,
    {
        let p = xor_bits(&a[j], &b[j]);
        let g = and_bits(&a[j], &b[j]);
        pairs.push(CarryPair { p, g });
        j = j + 1;
    }
    pairs
}

/// The carry engine's binary addition: given two equal-length secret bit
/// rows and a carry-in bit, return the (k+1)-bit sum, low bit first, whose
/// top bit is the total carry out. The carry chain is folded by the
/// parallel-prefix engine in O(log k) interactive rounds, never by a
/// sequential ripple. The written value is exact:
/// value(out) == value(a) + value(b) + cin.
pub fn bit_add(a: &Vec<SecretModp>, b: &Vec<SecretModp>, cin: &SecretModp) -> (out: Vec<
    SecretModp,
>)
    requires
        bits_wf(a@),
        bits_wf(b@),
        a@.len() == b@.len(),
        1 <= a@.len() < 0x4000_0000,
        is_bit(*cin),
    ensures
        out@.len() == a@.len() + 1,
        bits_wf(out@),
        bits_value(vals(out@)) == bits_value(vals(a@)) + bits_value(vals(b@)) + cin@,
        forall|t: int|
            0 <= t < a@.len() ==> (#[trigger] out@[t])@ == sum_bit_val(
                vals(a@),
                vals(b@),
                cin@,
                t,
            ),
        out@.last()@ == carry_chain(vals(a@), vals(b@), cin@, a@.len() - 1),
{
    let ghost va = vals(a@);
    let ghost vb = vals(b@);
    let k = a.len();
    let pairs = half_adder_pairs(a, b);
    let folds = parallel_prefix(&pairs);
    let mut out: Vec<SecretModp> = Vec::new();
    let mut j: usize = 0;
    proof {
        assert(vals(out@) =~= Seq::<nat>::empty());
        assert(va.take(0) =~= Seq::<nat>::empty());
        assert(vb.take(0) =~= Seq::<nat>::empty());
        vstd::arithmetic::power2::lemma2_to64();
    }
    while j < k
        invariant
            j <= k,
            k == a@.len() == b@.len(),
            1 <= k < 0x4000_0000,
            va == vals(a@),
            vb == vals(b@),
            bits_wf(a@),
            bits_wf(b@),
            is_bit(*cin),
            pairs@.len() == k,
            pairs_match(pairs@, va, vb),
            scan_inv(pairs@),
            folds@.len() == k,
            forall|t: int| 0 <= t < k ==> folds@[t] == fold_scan(pairs@.take(t + 1)),
            out@.len() == j,
            bits_wf(out@),
            forall|t: int|
                0 <= t < j ==> (#[trigger] out@[t])@ == sum_bit_val(va, vb, cin@, t),
            bits_value(vals(out@)) + carry_chain(va, vb, cin@, j - 1) * pow2(j as nat)
                == bits_value(va.take(j as int)) + bits_value(vb.take(j as int)) + cin@,
        decreases k - j,
    {
        let cprev: SecretModp = if j == 0 {
            *cin
        } else {
            proof {
                lemma_fold_pairs_carry(pairs@, va, vb, cin@, j - 1);
            }
            let t = and_bits(&folds[j - 1].p, cin);
            or_bits(&folds[j - 1].g, &t)
        };
        proof {
            lemma_carry_chain_is_bit(va, vb, cin@, j - 1);
            assert(cprev@ == carry_chain(va, vb, cin@, j - 1));
        }
        let s = xor_bits(&pairs[j].p, &cprev);
        let ghost old_vals = vals(out@);
        out.push(s);
        j = j + 1;
        proof {
            let jj = j - 1;
            assert(vals(out@) =~= old_vals.push(s@));
            lemma_bits_value_push(old_vals, s@);
            lemma_bits_value_take_succ(va, jj);
            lemma_bits_value_take_succ(vb, jj);
            assert(s@ == sum_bit_val(va, vb, cin@, jj));
            let cnew = carry_chain(va, vb, cin@, jj);
            let cold = carry_chain(va, vb, cin@, jj - 1);
            vstd::arithmetic::power2::lemma_pow2_unfold((jj + 1) as nat);
            assert(s@ + 2 * cnew == cold + va[jj] + vb[jj]);
            assert(bits_value(vals(out@)) + cnew * pow2((jj + 1) as nat) == bits_value(
                va.take(jj + 1),
            ) + bits_value(vb.take(jj + 1)) + cin@) by (nonlinear_arith)
                requires
                    bits_value(vals(out@)) == bits_value(old_vals) + s@ * pow2(jj as nat),
                    bits_value(old_vals) + cold * pow2(jj as nat) == bits_value(va.take(jj))
                        + bits_value(vb.take(jj)) + cin@,
                    bits_value(va.take(jj + 1)) == bits_value(va.take(jj)) + va[jj] * pow2(
                        jj as nat,
                    ),
                    bits_value(vb.take(jj + 1)) == bits_value(vb.take(jj)) + vb[jj] * pow2(
                        jj as nat,
                    ),
                    s@ + 2 * cnew == cold + va[jj] + vb[jj],
                    pow2((jj + 1) as nat) == 2 * pow2(jj as nat),
            {
            }
        }
    }
    // the final output bit is the total carry out of the row
    proof {
        lemma_fold_pairs_carry(pairs@, va, vb, cin@, k - 1);
        lemma_carry_chain_is_bit(va, vb, cin@, k - 1);
    }
    let t = and_bits(&folds[k - 1].p, cin);
    let cout = or_bits(&folds[k - 1].g, &t);
    let ghost old_vals = vals(out@);
    out.push(cout);
    proof {
        assert(vals(out@) =~= old_vals.push(cout@));
        lemma_bits_value_push(old_vals, cout@);
        assert(va.take(k as int) =~= va);
        assert(vb.take(k as int) =~= vb);
    }
    out
}

/// The degenerate single-operand variant: add the constant one to a bit
/// row through the same carry machinery.
pub fn bit_increment(a: &Vec<SecretModp>) -> (out: Vec<SecretModp>)
    requires
        bits_wf(a@),
        1 <= a@.len() < 0x4000_0000,
    ensures
        out@.len() == a@.len() + 1,
        bits_wf(out@),
        bits_value(vals(out@)) == bits_value(vals(a@)) + 1,
{
    let k = a.len();
    let mut zeros: Vec<SecretModp> = Vec::new();
    let mut j: usize = 0;
    while j < k
        invariant
            j <= k,
            zeros@.len() == j,
            forall|t: int| 0 <= t < j ==> (#[trigger] zeros@[t])@ == 0,
        decreases k - j,
    {
        zeros.push(SecretModp::from_clear(0));
        j = j + 1;
    }
    proof {
        assert(bits_wf(zeros@));
        lemma_bits_value_zero(vals(zeros@));
    }
    let one = SecretModp::from_clear(1);
    bit_add(a, &zeros, &one)
}

/// The standalone carry-out reduction: collapse a pair sequence by
/// recursive pairwise folding, an odd tail carried forward unpaired, and
/// return only the generate bit of the total fold - the carry that would
/// leave the row with no carry entering it. Used directly by comparisons.
pub fn carry_out(pairs: &Vec<CarryPair>) -> (c: SecretModp)
    requires
        scan_inv(pairs@),
        1 <= pairs@.len() < 0x4000_0000,
    ensures
        is_bit(c),
        c@ == fold_scan(pairs@).g@,
{
    let ghost orig = pairs@;
    let mut cur: Vec<CarryPair> = Vec::new();
    let mut k: usize = 0;
    while k < pairs.len()
        invariant
            k <= pairs@.len(),
            orig == pairs@,
            cur@ =~= pairs@.take(k as int),
        decreases pairs@.len() - k,
    {
        cur.push(pairs[k]);
        k = k + 1;
    }
    proof {
        assert(cur@ =~= orig);
    }
    while cur.len() > 1
        invariant
            1 <= cur@.len(),
            scan_inv(cur@),
            scan_inv(orig),
            orig.len() >= 1,
            fold_scan(cur@) == fold_scan(orig),
        decreases cur@.len(),
    {
        let m = cur.len();
        let mut nxt: Vec<CarryPair> = Vec::new();
        let mut j: usize = 0;
        while j + 1 < m
            invariant
                m == cur@.len() >= 2,
                scan_inv(cur@),
                j % 2 == 0,
                j <= m,
                nxt@.len() == j / 2,
                scan_inv(nxt@),
                j > 0 ==> fold_scan(nxt@) == fold_scan(cur@.take(j as int)),
            decreases m - j,
        {
            proof {
                lemma_fold_scan_inv(cur@.take(j as int + 2));
                if j > 0 {
                    lemma_fold_scan_merge(cur@.take(j as int + 2), j as int);
                    assert(cur@.take(j as int + 2).take(j as int) =~= cur@.take(j as int));
                    assert(cur@.take(j as int + 2).skip(j as int) =~= cur@.subrange(
                        j as int,
                        j as int + 2,
                    ));
                }
                let two = cur@.subrange(j as int, j as int + 2);
                assert(two.drop_last() =~= seq![cur@[j as int]]);
                assert(two.len() == 2);
                assert(two.last() == cur@[j as int + 1]);
                assert(fold_scan(seq![cur@[j as int]]) == cur@[j as int]);
                assert(fold_scan(two) == fold_scan(two.drop_last()).combine_spec(two.last()));
                assert(fold_scan(two) == cur@[j as int].combine_spec(cur@[j as int + 1]));
                assert(cur@[j as int].inv() && cur@[j as int + 1].inv());
                CarryPair::lemma_combine_inv(cur@[j as int], cur@[j as int + 1]);
                if j > 0 {
                    assert(cur@.take(j as int + 2).skip(j as int) =~= two);
                }
            }
            let combined = cur[j].combine(&cur[j + 1]);
            let ghost old_nxt = nxt@;
            nxt.push(combined);
            proof {
                assert(combined.inv());
                assert(forall|t: int|
                    0 <= t < nxt@.len() ==> (#[trigger] nxt@[t]).inv());
                if j > 0 {
                    assert(nxt@.drop_last() =~= old_nxt);
                    assert(fold_scan(nxt@) == fold_scan(old_nxt).combine_spec(nxt@.last()));
                    lemma_fold_scan_merge(cur@.take(j as int + 2), j as int);
                } else {
                    assert(nxt@ =~= seq![combined]);
                    assert(cur@.take(2).drop_last() =~= seq![cur@[0]]);
                }
            }
            j = j + 2;
        }
        if j < m {
            // odd length: the last pair is carried forward to the next level
            proof {
                assert(j == m - 1);
                lemma_fold_scan_merge(cur@, j as int);
                assert(cur@.skip(j as int) =~= seq![cur@[j as int]]);
                assert(cur@.take(m as int) =~= cur@);
            }
            let last = cur[j];
            let ghost old_nxt = nxt@;
            nxt.push(last);
            proof {
                assert(nxt@.drop_last() =~= old_nxt);
                assert(fold_scan(nxt@) == fold_scan(old_nxt).combine_spec(cur@[j as int]));
            }
        } else {
            proof {
                assert(cur@.take(j as int) =~= cur@);
            }
        }
        cur = nxt;
    }
    proof {
        assert(cur@.len() == 1);
        assert(fold_scan(cur@) == cur@[0]);
        lemma_fold_scan_inv(orig);
        lemma_raw_view(fold_scan(orig).g);
    }
    let front = cur[0];
    front.g
}

} // verus!
