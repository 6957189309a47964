use vstd::prelude::*;

use crate::bits::{bits_wf, or_bits, vals};
use crate::field::{is_bit, SecretModp};

verus! {

/// An associative (not necessarily commutative) binary operator over secret
/// protocol state, as the parallel-prefix engine needs it: a protocol
/// invariant on operands, a specification of the operator, proofs that the
/// operator preserves the invariant and is associative, and the executable
/// (interactive) operator itself.
pub trait ScanOp: Sized + Copy {
    /// The protocol invariant that every scanned operand carries.
    spec fn inv(self) -> bool;

    /// What the operator returns, stated at the specification level.
    spec fn combine_spec(self, other: Self) -> Self;

    /// The operator keeps operands inside the protocol invariant.
    proof fn lemma_combine_inv(a: Self, b: Self)
        requires
            a.inv(),
            b.inv(),
        ensures
            a.combine_spec(b).inv(),
    ;

    /// The operator is associative on operands inside the invariant.
    proof fn lemma_combine_assoc(a: Self, b: Self, c: Self)
        requires
            a.inv(),
            b.inv(),
            c.inv(),
        ensures
            a.combine_spec(b).combine_spec(c) == a.combine_spec(b.combine_spec(c)),
    ;

    /// The executable operator; on secret operands this is where the
    /// interactive multiplications happen.
    fn combine(&self, other: &Self) -> (r: Self)
        requires
            self.inv(),
            other.inv(),
        ensures
            r == self.combine_spec(*other),
    ;
}

/// Every operand of the sequence satisfies the protocol invariant.
pub open spec fn scan_inv<T: ScanOp>(s: Seq<T>) -> bool {
    forall|i: int| 0 <= i < s.len() ==> (#[trigger] s[i]).inv()
}

/// The left fold of the operator over a nonempty sequence:
/// op(s[0], op(s[1], ..., s[len-1])) in the associative sense.
pub open spec fn fold_scan<T: ScanOp>(s: Seq<T>) -> T
    recommends
        s.len() >= 1,
    decreases s.len(),
{
    if s.len() <= 1 {
        s[0]
    } else {
        fold_scan(s.drop_last()).combine_spec(s.last())
    }
}

/// A fold of operands inside the invariant stays inside the invariant.
pub proof fn lemma_fold_scan_inv<T: ScanOp>(s: Seq<T>)
    requires
        scan_inv(s),
        s.len() >= 1,
    ensures
        fold_scan(s).inv(),
    decreases s.len(),
{
    if s.len() > 1 {
        assert(scan_inv(s.drop_last()));
        lemma_fold_scan_inv(s.drop_last());
        T::lemma_combine_inv(fold_scan(s.drop_last()), s.last());
    }
}

/// Associativity lets a fold be cut anywhere: folding the two halves and
/// combining them folds the whole.
pub proof fn lemma_fold_scan_merge<T: ScanOp>(s: Seq<T>, m: int)
    requires
        scan_inv(s),
        1 <= m < s.len(),
    ensures
        fold_scan(s) == fold_scan(s.take(m)).combine_spec(fold_scan(s.skip(m))),
    decreases s.len(),
{
    if m == s.len() - 1 {
        assert(s.take(m) =~= s.drop_last());
        assert(s.skip(m) =~= seq![s.last()]);
    } else {
        let dl = s.drop_last();
        assert(scan_inv(dl));
        lemma_fold_scan_merge(dl, m);
        assert(dl.take(m) =~= s.take(m));
        assert(dl.skip(m) =~= s.skip(m).drop_last());
        assert(scan_inv(s.take(m)));
        assert(scan_inv(s.skip(m).drop_last()));
        lemma_fold_scan_inv(s.take(m));
        lemma_fold_scan_inv(s.skip(m).drop_last());
        T::lemma_combine_assoc(
            fold_scan(s.take(m)),
            fold_scan(s.skip(m).drop_last()),
            s.last(),
        );
        assert(fold_scan(s.skip(m)) == fold_scan(s.skip(m).drop_last()).combine_spec(s.last()));
    }
}

/// A scan of a single operand returns it unchanged: the running fold of
/// the one-element prefix is the element itself, so the engine's contract
/// pins output[0] to input[0].
pub proof fn lemma_scan_single<T: ScanOp>(s: Seq<T>)
    requires
        s.len() >= 1,
    ensures
        fold_scan(s.take(1)) == s[0],
{
    assert(s.take(1) =~= seq![s[0]]);
}

/// The lower edge of the combination window that ends at index i when the
/// schedule has merged strides up to d.
pub open spec fn window_lo(i: int, d: int) -> int {
    if i + 1 - d >= 0 {
        i + 1 - d
    } else {
        0
    }
}

/// The parallel-prefix engine: given n secret operands of an associative
/// operator, return the running fold, output[i] = op(items[0], ...,
/// items[i]). The schedule is the iterative doubling one: O(log n) levels,
/// each level combining pairs at one stride, never a sequential chain, so a
/// scan costs O(log n) rounds of interaction. A single operand is returned
/// unchanged; lengths off a power of two only combine the index pairs that
/// stay in range.
pub fn parallel_prefix<T: ScanOp>(items: &Vec<T>) -> (out: Vec<T>)
    requires
        scan_inv(items@),
        1 <= items@.len() < 0x4000_0000,
    ensures
        out@.len() == items@.len(),
        forall|i: int| 0 <= i < out@.len() ==> out@[i] == fold_scan(items@.take(i + 1)),
{
    let ghost s = items@;
    let n = items.len();
    let mut cur: Vec<T> = Vec::new();
    let mut k: usize = 0;
    while k < n
        invariant
            k <= n == s.len(),
            items@ == s,
            cur@ =~= s.take(k as int),
        decreases n - k,
    {
        cur.push(items[k]);
        k = k + 1;
    }
    proof {
        assert(cur@ =~= s);
        assert(forall|i: int|
            0 <= i < n ==> s.subrange(window_lo(i, 1), i + 1) =~= seq![s[i]]);
    }
    let mut d: usize = 1;
    while d < n
        invariant
            1 <= d < 2 * n,
            n == s.len() < 0x4000_0000,
            items@ == s,
            scan_inv(s),
            cur@.len() == n,
            forall|i: int|
                0 <= i < n ==> cur@[i] == fold_scan(s.subrange(window_lo(i, d as int), i + 1)),
        decreases 2 * n - d,
    {
        let ghost prev = cur@;
        let mut next: Vec<T> = Vec::new();
        let mut j: usize = 0;
        while j < n
            invariant
                j <= n == s.len(),
                items@ == s,
                scan_inv(s),
                1 <= d < n,
                cur@ == prev,
                cur@.len() == n,
                forall|i: int|
                    0 <= i < n ==> prev[i] == fold_scan(s.subrange(window_lo(i, d as int), i + 1)),
                next@.len() == j,
                forall|i: int|
                    0 <= i < j ==> next@[i] == fold_scan(
                        s.subrange(window_lo(i, 2 * d as int), i + 1),
                    ),
            decreases n - j,
        {
            if j < d {
                proof {
                    assert(window_lo(j as int, d as int) == 0);
                    assert(window_lo(j as int, 2 * d as int) == 0);
                }
                next.push(cur[j]);
            } else {
                proof {
                    let lo = window_lo((j - d) as int, d as int);
                    let cut = j - d + 1 - lo;
                    let win = s.subrange(lo, j + 1);
                    assert(scan_inv(win));
                    assert(1 <= cut < win.len());
                    lemma_fold_scan_merge(win, cut);
                    assert(win.take(cut) =~= s.subrange(lo, j - d + 1));
                    assert(win.skip(cut) =~= s.subrange(j - d + 1, j + 1));
                    assert(window_lo(j as int, 2 * d as int) == lo);
                    assert(window_lo(j as int, d as int) == j - d + 1);
                    assert(scan_inv(s.subrange(lo, j - d + 1)));
                    assert(scan_inv(s.subrange(j - d + 1, j + 1)));
                    lemma_fold_scan_inv(s.subrange(lo, j - d + 1));
                    lemma_fold_scan_inv(s.subrange(j - d + 1, j + 1));
                }
                let combined = cur[j - d].combine(&cur[j]);
                next.push(combined);
            }
            j = j + 1;
        }
        cur = next;
        d = d * 2;
    }
    proof {
        assert(forall|i: int|
            0 <= i < n ==> s.subrange(window_lo(i, d as int), i + 1) =~= s.take(i + 1));
    }
    cur
}

/// Some bit of the value sequence is set.
pub open spec fn any_bit_set(s: Seq<nat>) -> bool {
    exists|j: int| 0 <= j < s.len() && s[j] == 1
}

/// The OR operator on secret bits, the scan instance used by prefix_or.
impl ScanOp for SecretModp {
    /// An OR operand is a secret bit.
    open spec fn inv(self) -> bool {
        is_bit(self)
    }

    /// Boolean OR over the carried bit values.
    closed spec fn combine_spec(self, other: Self) -> Self {
        SecretModp { v: if self.v == 0 && other.v == 0 { 0 } else { 1 } }
    }

    proof fn lemma_combine_inv(a: Self, b: Self) {
        crate::field::lemma_raw_view(a);
        crate::field::lemma_raw_view(b);
        crate::field::lemma_raw_view(a.combine_spec(b));
    }

    proof fn lemma_combine_assoc(a: Self, b: Self, c: Self) {
    }

    /// One interactive product: a + b - ab.
    fn combine(&self, other: &Self) -> (r: Self) {
        let r = or_bits(self, other);
        proof {
            crate::field::lemma_raw_view(r);
            crate::field::lemma_raw_view(*self);
            crate::field::lemma_raw_view(*other);
            crate::field::lemma_raw_view(self.combine_spec(*other));
            assert(r == self.combine_spec(*other));
        }
        r
    }
}

/// Prefix OR over secret bits: the specialization of the engine that the
/// comparison circuits use to find the most significant differing bit.
/// output[i] is the OR of bits[0..=i].
pub fn prefix_or(bits: &Vec<SecretModp>) -> (out: Vec<SecretModp>)
    requires
        bits_wf(bits@),
        1 <= bits@.len() < 0x4000_0000,
    ensures
        out@.len() == bits@.len(),
        bits_wf(out@),
        forall|i: int|
            0 <= i < out@.len() ==> (#[trigger] out@[i])@ == (if any_bit_set(
                vals(bits@.take(i + 1)),
            ) {
                1nat
            } else {
                0nat
            }),
{
    proof {
        assert(scan_inv(bits@)) by {
            assert(forall|i: int| 0 <= i < bits@.len() ==> is_bit(#[trigger] bits@[i]));
        }
    }
    let out = parallel_prefix(bits);
    proof {
        assert forall|i: int| 0 <= i < out@.len() implies is_bit(#[trigger] out@[i]) && (out@[i]@
            == (if any_bit_set(vals(bits@.take(i + 1))) {
            1nat
        } else {
            0nat
        })) by {
            lemma_fold_or_value(bits@.take(i + 1));
        }
    }
    out
}

/// The fold of the OR operator over secret bits is the boolean OR of their
/// values.
proof fn lemma_fold_or_value(s: Seq<SecretModp>)
    requires
        bits_wf(s),
        s.len() >= 1,
    ensures
        is_bit(fold_scan(s)),
        fold_scan(s)@ == (if any_bit_set(vals(s)) {
            1nat
        } else {
            0nat
        }),
    decreases s.len(),
{
    if s.len() == 1 {
        assert(vals(s).len() == 1);
        assert(vals(s)[0] == s[0]@);
        assert(is_bit(s[0]));
        if s[0]@ == 1 {
            assert(any_bit_set(vals(s)));
        } else {
            assert(forall|j: int| 0 <= j < vals(s).len() ==> vals(s)[j] != 1);
        }
    } else {
        assert(bits_wf(s.drop_last()));
        lemma_fold_or_value(s.drop_last());
        assert(vals(s.drop_last()) =~= vals(s).drop_last());
        assert(vals(s).last() == s.last()@);
        crate::field::lemma_raw_view(fold_scan(s.drop_last()));
        crate::field::lemma_raw_view(s.last());
        crate::field::lemma_raw_view(fold_scan(s));
        assert(fold_scan(s) == fold_scan(s.drop_last()).combine_spec(s.last()));
        assert(any_bit_set(vals(s)) == (any_bit_set(vals(s).drop_last()) || vals(s).last()
            == 1)) by {
            lemma_bit_seq_set_step(vals(s));
        }
    }
}

/// Unfolding "some bit is set" at the last position.
proof fn lemma_bit_seq_set_step(s: Seq<nat>)
    requires
        s.len() >= 1,
    ensures
        any_bit_set(s) == (any_bit_set(s.drop_last()) || s.last() == 1),
{
    if any_bit_set(s.drop_last()) {
        let j = choose|j: int| 0 <= j < s.drop_last().len() && s.drop_last()[j] == 1;
        assert(s[j] == 1);
    }
    if s.last() == 1 {
        assert(s[s.len() - 1] == 1);
    }
    if any_bit_set(s) {
        let j = choose|j: int| 0 <= j < s.len() && s[j] == 1;
        if j < s.len() - 1 {
            assert(s.drop_last()[j] == 1);
        }
    }
}

} // verus!
