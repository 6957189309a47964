use vstd::prelude::*;

use crate::bits::vals;
use crate::compare::le;
use crate::field::{fp, SecretModp};
use crate::params::{FIELD_PRIME, INV_TWO, K_BITS};
use crate::rng::RandomSource;
use vstd::arithmetic::power2::pow2;
use vstd::pervasive::VecAdditionalExecFns;

verus! {

/// The signed order indicator of the all-pairs tournament: -1 when the
/// left value is at most the right one, +1 otherwise. The "at most"
/// convention makes ties asymmetric: which operand stands left decides.
pub open spec fn cmp_int(a: nat, b: nat) -> int {
    if a <= b {
        -1
    } else {
        1
    }
}

/// The same indicator as a field residue.
pub open spec fn cmp_val(a: nat, b: nat) -> nat {
    if a <= b {
        (FIELD_PRIME - 1) as nat
    } else {
        1nat
    }
}

proof fn lemma_cmp_val(a: nat, b: nat)
    ensures
        cmp_val(a, b) as int == cmp_int(a, b) % fp(),
{
    if a <= b {
        vstd::arithmetic::div_mod::lemma_mod_add_multiples_vanish(-1, fp());
        vstd::arithmetic::div_mod::lemma_small_mod((FIELD_PRIME - 1) as nat, FIELD_PRIME as nat);
    } else {
        vstd::arithmetic::div_mod::lemma_small_mod(1nat, FIELD_PRIME as nat);
    }
}

/// What the tournament pair (l, r), l < r, adds to the rank accumulator of
/// index tgt: the indicator goes to the left side and its negation to the
/// right side, with the orientation of the requested order.
pub open spec fn pair_term(v: Seq<nat>, desc: bool, l: int, r: int, tgt: int) -> int {
    let c = cmp_int(v[l], v[r]);
    if desc {
        if tgt == l {
            -c
        } else if tgt == r {
            c
        } else {
            0
        }
    } else {
        if tgt == l {
            c
        } else if tgt == r {
            -c
        } else {
            0
        }
    }
}

/// The pair terms of row l accumulated over right indices l+1..r.
pub open spec fn row_done(v: Seq<nat>, desc: bool, tgt: int, l: int, r: int) -> int
    decreases r - l,
{
    if r <= l + 1 {
        0
    } else {
        row_done(v, desc, tgt, l, r - 1) + pair_term(v, desc, l, r - 1, tgt)
    }
}

/// The pair terms of all fully processed rows 0..l.
pub open spec fn rows_done(v: Seq<nat>, desc: bool, tgt: int, l: int) -> int
    decreases l,
{
    if l <= 0 {
        0
    } else {
        rows_done(v, desc, tgt, l - 1) + row_done(v, desc, tgt, l - 1, v.len() as int)
    }
}

/// Does index t, standing before i, count as ranked ahead of i?
pub open spec fn before_ind(v: Seq<nat>, desc: bool, i: int, t: int) -> int {
    if desc {
        if v[t] > v[i] {
            1
        } else {
            0
        }
    } else {
        if v[t] <= v[i] {
            1
        } else {
            0
        }
    }
}

/// Does index t, standing after i, count as ranked ahead of i?
pub open spec fn after_ind(v: Seq<nat>, desc: bool, i: int, t: int) -> int {
    if desc {
        if v[t] >= v[i] {
            1
        } else {
            0
        }
    } else {
        if v[t] < v[i] {
            1
        } else {
            0
        }
    }
}

/// How many of the indices 0..j stand ahead of i.
pub open spec fn cnt_before(v: Seq<nat>, desc: bool, i: int, j: int) -> int
    decreases j,
{
    if j <= 0 {
        0
    } else {
        cnt_before(v, desc, i, j - 1) + before_ind(v, desc, i, j - 1)
    }
}

/// How many of the indices i+1..r stand ahead of i.
pub open spec fn cnt_after(v: Seq<nat>, desc: bool, i: int, r: int) -> int
    decreases r - i,
{
    if r <= i + 1 {
        0
    } else {
        cnt_after(v, desc, i, r - 1) + after_ind(v, desc, i, r - 1)
    }
}

/// The rank the tournament assigns to index i: one more than the number of
/// indices ranked ahead of it. Earlier indices win ties against i exactly
/// under the "left is at most right" convention, so equal values receive
/// distinct, position-dependent ranks.
pub open spec fn rank_spec(v: Seq<nat>, desc: bool, i: int) -> int {
    1 + cnt_before(v, desc, i, i) + cnt_after(v, desc, i, v.len() as int)
}

proof fn lemma_cnt_before_bounds(v: Seq<nat>, desc: bool, i: int, j: int)
    ensures
        0 <= cnt_before(v, desc, i, j),
        cnt_before(v, desc, i, j) <= (if j >= 0 {
            j
        } else {
            0
        }),
    decreases j,
{
    if j > 0 {
        lemma_cnt_before_bounds(v, desc, i, j - 1);
    }
}

proof fn lemma_cnt_after_bounds(v: Seq<nat>, desc: bool, i: int, r: int)
    ensures
        0 <= cnt_after(v, desc, i, r),
        cnt_after(v, desc, i, r) <= (if r >= i + 1 {
            r - i - 1
        } else {
            0
        }),
    decreases r - i,
{
    if r > i + 1 {
        lemma_cnt_after_bounds(v, desc, i, r - 1);
    }
}

/// A row strictly above the target index never touches its accumulator.
proof fn lemma_row_zero(v: Seq<nat>, desc: bool, tgt: int, l: int, r: int)
    requires
        tgt < l,
    ensures
        row_done(v, desc, tgt, l, r) == 0,
    decreases r - l,
{
    if r > l + 1 {
        lemma_row_zero(v, desc, tgt, l, r - 1);
    }
}

/// The target's own row counts the later indices ranked ahead of it.
proof fn lemma_row_at_tgt(v: Seq<nat>, desc: bool, tgt: int, r: int)
    requires
        tgt + 1 <= r,
    ensures
        row_done(v, desc, tgt, tgt, r) == 2 * cnt_after(v, desc, tgt, r) - (r - tgt - 1),
    decreases r - tgt,
{
    if r > tgt + 1 {
        lemma_row_at_tgt(v, desc, tgt, r - 1);
    }
}

/// A row below the target contributes exactly its one pair with the
/// target, once the inner scan has passed it.
proof fn lemma_row_below(v: Seq<nat>, desc: bool, tgt: int, l: int, r: int)
    requires
        l < tgt,
    ensures
        row_done(v, desc, tgt, l, r) == (if r > tgt {
            2 * before_ind(v, desc, tgt, l) - 1
        } else {
            0
        }),
    decreases r - l,
{
    if r > l + 1 {
        lemma_row_below(v, desc, tgt, l, r - 1);
    }
}

/// After the whole tournament, the accumulator of index tgt is twice the
/// number of indices ranked ahead of it, shifted down by n - 1.
proof fn lemma_rows_done_total(v: Seq<nat>, desc: bool, tgt: int, l: int)
    requires
        0 <= tgt < v.len(),
        0 <= l <= v.len() - 1,
    ensures
        rows_done(v, desc, tgt, l) == 2 * cnt_before(v, desc, tgt, (if l <= tgt {
            l
        } else {
            tgt
        })) - (if l <= tgt {
            l
        } else {
            tgt
        }) + (if l > tgt {
            2 * cnt_after(v, desc, tgt, v.len() as int) - (v.len() - tgt - 1)
        } else {
            0
        }),
    decreases l,
{
    let n = v.len() as int;
    if l > 0 {
        lemma_rows_done_total(v, desc, tgt, l - 1);
        if l - 1 < tgt {
            lemma_row_below(v, desc, tgt, l - 1, n);
        } else if l - 1 == tgt {
            lemma_row_at_tgt(v, desc, tgt, n);
        } else {
            lemma_row_zero(v, desc, tgt, l - 1, n);
        }
    }
}

/// The secret comparison of the ranking tournament: a secret -1 when
/// a <= b, a secret +1 otherwise, computed through the comparison engine
/// so that neither value nor the outcome is revealed.
pub fn cmp(a: &SecretModp, b: &SecretModp, rng: &mut RandomSource) -> (r: SecretModp)
    requires
        a.wf(),
        b.wf(),
        a@ < pow2(K_BITS as nat),
        b@ < pow2(K_BITS as nat),
    ensures
        r.wf(),
        r@ == cmp_val(a@, b@),
{
    let l = le(a, b, rng);
    let one = SecretModp::from_clear(1);
    let twice = l.add(&l);
    let r = one.sub(&twice);
    proof {
        vstd::arithmetic::div_mod::lemma_small_mod((l@ + l@) as nat, FIELD_PRIME as nat);
        if a@ <= b@ {
            vstd::arithmetic::div_mod::lemma_mod_add_multiples_vanish(-1, fp());
            vstd::arithmetic::div_mod::lemma_small_mod(
                (FIELD_PRIME - 1) as nat,
                FIELD_PRIME as nat,
            );
        } else {
            vstd::arithmetic::div_mod::lemma_small_mod(1nat, FIELD_PRIME as nat);
        }
    }
    r
}

/// Rank n secret values without revealing anything: for every unordered
/// pair the tournament adds a secret order indicator to one accumulator
/// and subtracts it from the other, with the sign chosen by the requested
/// order, so each input ends with an accumulator in {-(n-1), ..., n-1} in
/// steps of two; the final rescale maps those onto the dense range 1..=n.
/// Output position i holds the rank of input position i. The comparisons
/// are O(n^2) and independent; no value and no pairwise outcome is ever
/// revealed.
pub fn secretly_rank(values: &Vec<SecretModp>, descending: bool, rng: &mut RandomSource) -> (out:
    Vec<SecretModp>)
    requires
        1 <= values@.len() < 0x10000,
        forall|i: int|
            0 <= i < values@.len() ==> (#[trigger] values@[i])@ < pow2(K_BITS as nat),
    ensures
        out@.len() == values@.len(),
        forall|i: int|
            0 <= i < values@.len() ==> (#[trigger] out@[i])@ as int == rank_spec(
                vals(values@),
                descending,
                i,
            ),
{
    let ghost v = vals(values@);
    let n = values.len();
    proof {
        vstd::arithmetic::power2::lemma2_to64();
        vstd::arithmetic::power2::lemma2_to64_rest();
        assert(pow2(K_BITS as nat) < FIELD_PRIME);
    }
    let mut ranks: Vec<SecretModp> = Vec::new();
    let mut j: usize = 0;
    while j < n
        invariant
            j <= n,
            ranks@.len() == j,
            forall|t: int| 0 <= t < j ==> (#[trigger] ranks@[t])@ == 0,
        decreases n - j,
    {
        ranks.push(SecretModp::from_clear(0));
        j = j + 1;
    }
    proof {
        vstd::arithmetic::div_mod::lemma_small_mod(0, FIELD_PRIME as nat);
    }
    let mut left: usize = 0;
    while left < n - 1
        invariant
            left <= n - 1,
            1 <= n == values@.len() < 0x10000,
            v == vals(values@),
            forall|i: int|
                0 <= i < n ==> (#[trigger] values@[i])@ < pow2(K_BITS as nat),
            pow2(K_BITS as nat) < FIELD_PRIME,
            ranks@.len() == n,
            forall|t: int|
                0 <= t < n ==> (#[trigger] ranks@[t]).wf() && ranks@[t]@ as int == rows_done(
                    v,
                    descending,
                    t,
                    left as int,
                ) % fp(),
        decreases n - left,
    {
        let mut right: usize = left + 1;
        while right < n
            invariant
                left < right <= n,
                left < n - 1,
                1 <= n == values@.len() < 0x10000,
                v == vals(values@),
                forall|i: int|
                    0 <= i < n ==> (#[trigger] values@[i])@ < pow2(K_BITS as nat),
                pow2(K_BITS as nat) < FIELD_PRIME,
                ranks@.len() == n,
                forall|t: int|
                    0 <= t < n ==> (#[trigger] ranks@[t]).wf() && ranks@[t]@ as int == (rows_done(
                        v,
                        descending,
                        t,
                        left as int,
                    ) + row_done(v, descending, t, left as int, right as int)) % fp(),
            decreases n - right,
        {
            let c = cmp(&values[left], &values[right], rng);
            proof {
                lemma_cmp_val(v[left as int], v[right as int]);
            }
            let ghost pre = ranks@;
            let rl = ranks[left];
            let rr = ranks[right];
            if descending {
                ranks.set(left, rl.sub(&c));
                ranks.set(right, rr.add(&c));
            } else {
                ranks.set(left, rl.add(&c));
                ranks.set(right, rr.sub(&c));
            }
            right = right + 1;
            proof {
                let ci = cmp_int(v[left as int], v[right - 1]);
                assert forall|t: int| 0 <= t < n implies (#[trigger] ranks@[t]).wf()
                    && ranks@[t]@ as int == (rows_done(v, descending, t, left as int) + row_done(
                    v,
                    descending,
                    t,
                    left as int,
                    right as int,
                )) % fp() by {
                    let base = rows_done(v, descending, t, left as int);
                    let older = row_done(v, descending, t, left as int, right - 1);
                    let term = pair_term(v, descending, left as int, right - 1, t);
                    assert(row_done(v, descending, t, left as int, right as int) == older + term);
                    if t == left {
                        vstd::arithmetic::div_mod::lemma_sub_mod_noop(
                            base + older,
                            ci,
                            fp(),
                        );
                        vstd::arithmetic::div_mod::lemma_add_mod_noop(
                            base + older,
                            ci,
                            fp(),
                        );
                        vstd::arithmetic::div_mod::lemma_mod_twice(base + older, fp());
                        vstd::arithmetic::div_mod::lemma_mod_twice(ci, fp());
                    } else if t == right - 1 {
                        vstd::arithmetic::div_mod::lemma_sub_mod_noop(
                            base + older,
                            ci,
                            fp(),
                        );
                        vstd::arithmetic::div_mod::lemma_add_mod_noop(
                            base + older,
                            ci,
                            fp(),
                        );
                        vstd::arithmetic::div_mod::lemma_mod_twice(base + older, fp());
                        vstd::arithmetic::div_mod::lemma_mod_twice(ci, fp());
                    } else {
                        assert(ranks@[t] == pre[t]);
                    }
                }
            }
        }
        left = left + 1;
        proof {
            assert forall|t: int| 0 <= t < n implies (#[trigger] ranks@[t]).wf()
                && ranks@[t]@ as int == rows_done(v, descending, t, left as int) % fp() by {
                assert(rows_done(v, descending, t, left as int) == rows_done(
                    v,
                    descending,
                    t,
                    left - 1,
                ) + row_done(v, descending, t, left - 1, n as int));
            }
        }
    }
    proof {
        assert forall|t: int| 0 <= t < n implies rescale_ready(ranks@[t]@, n as int) by {
            lemma_rows_done_total(v, descending, t, n - 1);
            lemma_cnt_before_bounds(v, descending, t, t);
            lemma_cnt_after_bounds(v, descending, t, n as int);
            let d = rows_done(v, descending, t, n - 1);
            let q = cnt_before(v, descending, t, t) + cnt_after(v, descending, t, n as int);
            assert(d == 2 * q - (n - 1));
            vstd::arithmetic::div_mod::lemma_add_mod_noop(d, n - 1, fp());
            vstd::arithmetic::div_mod::lemma_mod_twice(d, fp());
            vstd::arithmetic::div_mod::lemma_small_mod((n - 1) as nat, FIELD_PRIME as nat);
            vstd::arithmetic::div_mod::lemma_small_mod((2 * q) as nat, FIELD_PRIME as nat);
            assert(shifted_val(ranks@[t]@, n as int) == 2 * q);
        }
    }
    let out = rescale(&ranks);
    proof {
        assert forall|i: int| 0 <= i < n implies (#[trigger] out@[i])@ as int == rank_spec(
            v,
            descending,
            i,
        ) by {
            lemma_rows_done_total(v, descending, i, n - 1);
            let d = rows_done(v, descending, i, n - 1);
            let q = cnt_before(v, descending, i, i) + cnt_after(v, descending, i, n as int);
            lemma_cnt_before_bounds(v, descending, i, i);
            lemma_cnt_after_bounds(v, descending, i, n as int);
            vstd::arithmetic::div_mod::lemma_add_mod_noop(d, n - 1, fp());
            vstd::arithmetic::div_mod::lemma_mod_twice(d, fp());
            vstd::arithmetic::div_mod::lemma_small_mod((n - 1) as nat, FIELD_PRIME as nat);
            vstd::arithmetic::div_mod::lemma_small_mod((2 * q) as nat, FIELD_PRIME as nat);
            assert(shifted_val(ranks@[i]@, n as int) == 2 * q);
        }
    }
    out
}

/// The accumulator shifted up by n - 1, as the rescale step sees it.
pub open spec fn shifted_val(x: nat, n: int) -> int {
    (x + n - 1) % fp()
}

/// An accumulator the rescale step accepts: shifted, it is even and at
/// most 2(n - 1).
pub open spec fn rescale_ready(x: nat, n: int) -> bool {
    &&& shifted_val(x, n) % 2 == 0
    &&& shifted_val(x, n) <= 2 * (n - 1)
}

/// Halving an even residue by the clear constant (p + 1) / 2.
proof fn lemma_halve_even(x: int)
    requires
        0 <= x < fp(),
        x % 2 == 0,
    ensures
        (x * (INV_TWO as int)) % fp() == x / 2,
{
    let q = x / 2;
    assert(x == 2 * q);
    assert(x * (INV_TWO as int) == fp() * q + q) by (nonlinear_arith)
        requires
            x == 2 * q,
    {
    }
    vstd::arithmetic::div_mod::lemma_mod_multiples_vanish(q, q, fp());
    vstd::arithmetic::div_mod::lemma_small_mod(q as nat, FIELD_PRIME as nat);
}

/// Rescale raw tournament accumulators onto the dense rank range: each
/// entry v becomes (v + (n - 1)) / 2 + 1, evaluated inside the field by
/// the clear constant (p + 1) / 2, so values {-(n-1), ..., n-1} in steps
/// of two map to 1..=n.
pub fn rescale(indexes: &Vec<SecretModp>) -> (out: Vec<SecretModp>)
    requires
        1 <= indexes@.len() < 0x10000,
        forall|i: int| 0 <= i < indexes@.len() ==> (#[trigger] indexes@[i]).wf(),
        forall|i: int|
            0 <= i < indexes@.len() ==> rescale_ready((#[trigger] indexes@[i])@, indexes@.len() as int),
    ensures
        out@.len() == indexes@.len(),
        forall|i: int|
            0 <= i < indexes@.len() ==> (#[trigger] out@[i])@ as int == shifted_val(
                indexes@[i]@,
                indexes@.len() as int,
            ) / 2 + 1,
        forall|i: int| 0 <= i < indexes@.len() ==> (#[trigger] out@[i]).wf(),
{
    let n = indexes.len();
    let mut out: Vec<SecretModp> = Vec::new();
    let mut i: usize = 0;
    while i < n
        invariant
            i <= n == indexes@.len(),
            1 <= n < 0x10000,
            forall|t: int| 0 <= t < n ==> (#[trigger] indexes@[t]).wf(),
            forall|t: int|
                0 <= t < n ==> rescale_ready((#[trigger] indexes@[t])@, n as int),
            out@.len() == i,
            forall|t: int|
                0 <= t < i ==> (#[trigger] out@[t])@ as int == shifted_val(indexes@[t]@, n as int)
                    / 2 + 1 && out@[t].wf(),
        decreases n - i,
    {
        let w = indexes[i].add_clear((n - 1) as u64);
        let h = w.mul_clear(INV_TWO);
        let r = h.add_clear(1);
        proof {
            let sv = shifted_val(indexes@[i as int]@, n as int);
            assert(w@ as int == sv);
            lemma_halve_even(sv);
            vstd::arithmetic::div_mod::lemma_small_mod((sv / 2 + 1) as nat, FIELD_PRIME as nat);
        }
        out.push(r);
        i = i + 1;
    }
    out
}

} // verus!
