//! Unbounded non-negative integers, as little-endian base-2^64 limb vectors.
//!
//! Within one length bucket of n lines, comparing the Shannon entropies of
//! two columns is equivalent to comparing the integer products of
//! `count^count` over each column's value distribution, because
//! `H = log2(n) - log2(product) / n` is strictly decreasing in the product.
//! Those products outgrow machine words, so the engine compares them with
//! this exact big-integer arithmetic instead of floating point.

use vstd::prelude::*;

verus! {

/// `b` to the power `e` over naturals.
pub open spec fn npow(b: nat, e: nat) -> nat
    decreases e,
{
    if e == 0 {
        1
    } else {
        b * npow(b, (e - 1) as nat)
    }
}

/// `2^64` to the power `e`: the weight of limb `e`.
pub open spec fn pow64(e: nat) -> nat {
    npow(0x1_0000_0000_0000_0000, e)
}

/// `b^0` is one.
pub proof fn lemma_npow_zero(b: nat)
    ensures
        npow(b, 0) == 1,
{
}

/// `b^e` unfolds one step.
pub proof fn lemma_npow_succ(b: nat, e: nat)
    requires
        e > 0,
    ensures
        npow(b, e) == b * npow(b, (e - 1) as nat),
{
}

/// `b^1` is `b`.
pub proof fn lemma_npow_one_exp(b: nat)
    ensures
        npow(b, 1) == b,
{
    reveal_with_fuel(npow, 2);
}

/// The number denoted by a little-endian limb sequence.
pub open spec fn limbs_val(s: Seq<u64>) -> nat
    decreases s.len(),
{
    if s.len() == 0 {
        0
    } else {
        limbs_val(s.drop_last()) + (s.last() as nat) * pow64((s.len() - 1) as nat)
    }
}

/// An unbounded non-negative integer.
pub struct BigNat {
    limbs: Vec<u64>,
}

impl BigNat {
    /// The number this value denotes.
    pub closed spec fn value(&self) -> nat {
        limbs_val(self.limbs@)
    }

    /// The number one.
    pub fn one() -> (r: BigNat)
        ensures
            r.value() == 1,
    {
        let mut limbs: Vec<u64> = Vec::new();
        limbs.push(1);
        proof {
            assert(limbs@.drop_last() =~= Seq::<u64>::empty());
            assert(limbs_val(Seq::<u64>::empty()) == 0);
            assert(pow64(0) == 1);
            assert(limbs@.last() == 1u64);
            assert(limbs_val(limbs@) == 1);
        }
        BigNat { limbs }
    }

    /// Multiply in place by a small factor.
    pub fn mul_small(&mut self, k: u64)
        ensures
            final(self).value() == old(self).value() * k,
    {
        let ghost orig = self.limbs@;
        let len = self.limbs.len();
        let mut carry: u64 = 0;
        let mut i: usize = 0;
        proof {
            assert(self.limbs@.take(0) =~= Seq::<u64>::empty());
            assert(orig.take(0) =~= Seq::<u64>::empty());
            assert(limbs_val(Seq::<u64>::empty()) == 0);
            assert(pow64(0) == 1);
            assert((0 as nat) * (k as nat) == 0) by (nonlinear_arith);
        }
        while i < len
            invariant
                i <= len,
                len == self.limbs@.len(),
                orig.len() == len,
                forall|j: int| i <= j < len ==> self.limbs@[j] == orig[j],
                limbs_val(self.limbs@.take(i as int)) + carry * pow64(i as nat) == limbs_val(
                    orig.take(i as int),
                ) * k,
            decreases len - i,
        {
            let a: u64 = self.limbs[i];
            assert(((a as u128) * (k as u128)) <= 0xFFFF_FFFF_FFFF_FFFE_0000_0000_0000_0001u128)
                by (bit_vector);
            let prod: u128 = (a as u128) * (k as u128) + (carry as u128);
            let lo: u64 = #[verifier::truncate] (prod as u64);
            let hi: u64 = #[verifier::truncate] ((prod >> 64) as u64);
            assert(prod == (prod as u64 as u128) + ((prod >> 64) as u64 as u128)
                * 0x1_0000_0000_0000_0000u128) by (bit_vector);
            let ghost before = self.limbs@;
            self.limbs.set(i, lo);
            proof {
                assert(self.limbs@.take(i as int) =~= before.take(i as int));
                assert(self.limbs@.take(i + 1).drop_last() =~= self.limbs@.take(i as int));
                assert(orig.take(i + 1).drop_last() =~= orig.take(i as int));
                assert(self.limbs@.take(i + 1).last() == lo);
                assert(limbs_val(self.limbs@.take(i + 1)) == limbs_val(self.limbs@.take(i as int))
                    + lo * pow64(i as nat));
                assert(limbs_val(orig.take(i + 1)) == limbs_val(orig.take(i as int)) + a * pow64(
                    i as nat,
                ));
                assert(pow64(i as nat + 1) == 0x1_0000_0000_0000_0000 * pow64(i as nat));
                assert((lo as nat) + (hi as nat) * 0x1_0000_0000_0000_0000 == (a as nat) * (
                k as nat) + (carry as nat));
                assert(limbs_val(self.limbs@.take(i + 1)) + (hi as nat) * pow64(i as nat + 1)
                    == limbs_val(orig.take(i + 1)) * k) by (nonlinear_arith)
                    requires
                        limbs_val(self.limbs@.take(i as int)) + (carry as nat) * pow64(i as nat)
                            == limbs_val(orig.take(i as int)) * k,
                        (lo as nat) + (hi as nat) * 0x1_0000_0000_0000_0000 == (a as nat) * (
                        k as nat) + (carry as nat),
                        pow64(i as nat + 1) == 0x1_0000_0000_0000_0000 * pow64(i as nat),
                        limbs_val(self.limbs@.take(i + 1)) == limbs_val(
                            self.limbs@.take(i as int),
                        ) + lo * pow64(i as nat),
                        limbs_val(orig.take(i + 1)) == limbs_val(orig.take(i as int)) + a * pow64(
                            i as nat,
                        ),
                ;
            }
            carry = hi;
            i += 1;
        }
        proof {
            assert(self.limbs@.take(len as int) =~= self.limbs@);
            assert(orig.take(len as int) =~= orig);
        }
        if carry != 0 {
            let ghost before = self.limbs@;
            self.limbs.push(carry);
            proof {
                assert(self.limbs@.drop_last() =~= before);
                assert(self.limbs@.last() == carry);
                assert(pow64(len as nat) == pow64((self.limbs@.len() - 1) as nat));
            }
        }
    }
}

impl BigNat {
    /// Multiply in place by `b` to the power `e`.
    pub fn mul_pow(&mut self, b: u64, e: usize)
        ensures
            final(self).value() == old(self).value() * npow(b as nat, e as nat),
    {
        let ghost start = self.value();
        let mut t: usize = 0;
        proof {
            assert(npow(b as nat, 0) == 1);
        }
        while t < e
            invariant
                t <= e,
                self.value() == start * npow(b as nat, t as nat),
            decreases e - t,
        {
            self.mul_small(b);
            proof {
                assert(npow(b as nat, t as nat + 1) == (b as nat) * npow(b as nat, t as nat));
                assert((start * npow(b as nat, t as nat)) * (b as nat) == start * npow(
                    b as nat,
                    t as nat + 1,
                )) by (nonlinear_arith)
                    requires
                        npow(b as nat, t as nat + 1) == (b as nat) * npow(b as nat, t as nat),
                ;
            }
            t += 1;
        }
    }
}

spec fn limb_at(s: Seq<u64>, i: int) -> u64 {
    if 0 <= i < s.len() {
        s[i]
    } else {
        0
    }
}

spec fn valm(s: Seq<u64>, m: nat) -> nat
    decreases m,
{
    if m == 0 {
        0
    } else {
        valm(s, (m - 1) as nat) + (limb_at(s, m - 1) as nat) * pow64((m - 1) as nat)
    }
}

proof fn lemma_valm_take(s: Seq<u64>, m: nat)
    requires
        m <= s.len(),
    ensures
        valm(s, m) == limbs_val(s.take(m as int)),
    decreases m,
{
    if m > 0 {
        lemma_valm_take(s, (m - 1) as nat);
        assert(s.take(m as int).drop_last() =~= s.take(m - 1));
        assert(s.take(m as int).last() == s[m - 1]);
    } else {
        assert(s.take(0) =~= Seq::<u64>::empty());
    }
}

proof fn lemma_valm_full(s: Seq<u64>, m: nat)
    requires
        m >= s.len(),
    ensures
        valm(s, m) == limbs_val(s),
    decreases m,
{
    if m == 0 {
        assert(s =~= Seq::<u64>::empty());
        assert(limbs_val(s) == 0);
    } else if m - 1 >= s.len() {
        lemma_valm_full(s, (m - 1) as nat);
        assert(limb_at(s, m - 1) == 0);
        assert(valm(s, m) == valm(s, (m - 1) as nat) + (limb_at(s, m - 1) as nat) * pow64(
            (m - 1) as nat,
        ));
    } else {
        lemma_valm_take(s, m);
        assert(s.take(m as int) =~= s);
    }
}

proof fn lemma_valm_bound(s: Seq<u64>, m: nat)
    ensures
        valm(s, m) < pow64(m),
    decreases m,
{
    if m == 0 {
    } else {
        lemma_valm_bound(s, (m - 1) as nat);
        assert(pow64(m) == 0x1_0000_0000_0000_0000 * pow64((m - 1) as nat));
        assert(valm(s, m) < pow64(m)) by (nonlinear_arith)
            requires
                valm(s, m) == valm(s, (m - 1) as nat) + limb_at(s, m - 1) * pow64((m - 1) as nat),
                valm(s, (m - 1) as nat) < pow64((m - 1) as nat),
                limb_at(s, m - 1) <= 0xFFFF_FFFF_FFFF_FFFFu64,
                pow64(m) == 0x1_0000_0000_0000_0000 * pow64((m - 1) as nat),
        ;
    }
}

spec fn lt_from(a: Seq<u64>, b: Seq<u64>, m: nat) -> bool
    decreases m,
{
    if m == 0 {
        false
    } else if limb_at(a, m - 1) != limb_at(b, m - 1) {
        limb_at(a, m - 1) < limb_at(b, m - 1)
    } else {
        lt_from(a, b, (m - 1) as nat)
    }
}

proof fn lemma_lt_from(a: Seq<u64>, b: Seq<u64>, m: nat)
    ensures
        lt_from(a, b, m) == (valm(a, m) < valm(b, m)),
    decreases m,
{
    if m > 0 {
        let p = pow64((m - 1) as nat);
        let la = limb_at(a, m - 1);
        let lb = limb_at(b, m - 1);
        lemma_lt_from(a, b, (m - 1) as nat);
        lemma_valm_bound(a, (m - 1) as nat);
        lemma_valm_bound(b, (m - 1) as nat);
        if la < lb {
            assert(valm(a, m) < valm(b, m)) by (nonlinear_arith)
                requires
                    valm(a, m) == valm(a, (m - 1) as nat) + la * p,
                    valm(b, m) == valm(b, (m - 1) as nat) + lb * p,
                    valm(a, (m - 1) as nat) < p,
                    la < lb,
            ;
        } else if la > lb {
            assert(valm(b, m) < valm(a, m)) by (nonlinear_arith)
                requires
                    valm(a, m) == valm(a, (m - 1) as nat) + la * p,
                    valm(b, m) == valm(b, (m - 1) as nat) + lb * p,
                    valm(b, (m - 1) as nat) < p,
                    lb < la,
            ;
        }
    }
}

fn lt_from_exec(a: &BigNat, b: &BigNat, m: usize) -> (r: bool)
    ensures
        r == lt_from(a.limbs@, b.limbs@, m as nat),
    decreases m,
{
    if m == 0 {
        false
    } else {
        let la: u64 = if m - 1 < a.limbs.len() {
            a.limbs[m - 1]
        } else {
            0
        };
        let lb: u64 = if m - 1 < b.limbs.len() {
            b.limbs[m - 1]
        } else {
            0
        };
        if la != lb {
            la < lb
        } else {
            lt_from_exec(a, b, m - 1)
        }
    }
}

/// Exact comparison: whether `a` denotes a strictly smaller number than `b`.
pub fn big_lt(a: &BigNat, b: &BigNat) -> (r: bool)
    ensures
        r == (a.value() < b.value()),
{
    let m = if a.limbs.len() < b.limbs.len() {
        b.limbs.len()
    } else {
        a.limbs.len()
    };
    let r = lt_from_exec(a, b, m);
    proof {
        lemma_lt_from(a.limbs@, b.limbs@, m as nat);
        lemma_valm_full(a.limbs@, m as nat);
        lemma_valm_full(b.limbs@, m as nat);
    }
    r
}

} // verus!
