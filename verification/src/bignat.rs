use vstd::prelude::*;

verus! {

/// An arbitrary-precision natural number: base 2^32 limbs, least
/// significant first, with no leading zero limb. Posterior scores are
/// compared through products of many counts, which can exceed any fixed
/// machine width; these numbers keep the comparison exact.
pub struct BigNat {
    limbs: Vec<u32>,
}

/// The value of a little-endian limb sequence.
pub open spec fn limbs_val(s: Seq<u32>) -> nat
    decreases s.len(),
{
    if s.len() == 0 {
        0
    } else {
        s.first() as nat + 0x1_0000_0000nat * limbs_val(s.drop_first())
    }
}

/// 2^32 raised to the power `n`.
pub open spec fn pow_base(n: nat) -> nat
    decreases n,
{
    if n == 0 {
        1
    } else {
        0x1_0000_0000nat * pow_base((n - 1) as nat)
    }
}

/// No leading zero limb.
pub open spec fn canon(s: Seq<u32>) -> bool {
    s.len() == 0 || s.last() != 0
}

pub proof fn lemma_pow_base_pos(n: nat)
    ensures
        pow_base(n) >= 1,
    decreases n,
{
    if n > 0 {
        lemma_pow_base_pos((n - 1) as nat);
    }
}

pub proof fn lemma_pow_base_mono(m: nat, n: nat)
    requires
        m <= n,
    ensures
        pow_base(m) <= pow_base(n),
    decreases n,
{
    if m < n {
        lemma_pow_base_mono(m, (n - 1) as nat);
        lemma_pow_base_pos((n - 1) as nat);
        assert(pow_base(n) == 0x1_0000_0000nat * pow_base((n - 1) as nat));
        assert(pow_base((n - 1) as nat) <= 0x1_0000_0000nat * pow_base((n - 1) as nat))
            by (nonlinear_arith)
            requires
                pow_base((n - 1) as nat) >= 1,
        ;
    }
}

/// Appending a limb adds its value at the next power of the base.
pub proof fn lemma_limbs_val_push(s: Seq<u32>, x: u32)
    ensures
        limbs_val(s.push(x)) == limbs_val(s) + (x as nat) * pow_base(s.len()),
    decreases s.len(),
{
    if s.len() == 0 {
        assert(s.push(x).first() == x);
        assert(s.push(x).drop_first() =~= Seq::<u32>::empty());
        assert(limbs_val(s.push(x).drop_first()) == 0);
        assert(limbs_val(s.push(x)) == x as nat);
        assert((x as nat) * 1 == x as nat) by (nonlinear_arith);
    } else {
        assert(s.push(x).first() == s.first());
        assert(s.push(x).drop_first() =~= s.drop_first().push(x));
        lemma_limbs_val_push(s.drop_first(), x);
        let b = 0x1_0000_0000nat;
        let a0 = s.first() as nat;
        let rest = limbs_val(s.drop_first());
        let p = pow_base((s.len() - 1) as nat);
        assert(limbs_val(s.push(x)) == a0 + b * (rest + (x as nat) * p));
        assert(b * (rest + (x as nat) * p) == b * rest + (x as nat) * (b * p))
            by (nonlinear_arith);
        assert(pow_base(s.len()) == b * p);
    }
}

/// A limb sequence's value is below the base raised to its length.
pub proof fn lemma_limbs_val_bound(s: Seq<u32>)
    ensures
        limbs_val(s) < pow_base(s.len()),
    decreases s.len(),
{
    if s.len() == 0 {
    } else {
        lemma_limbs_val_bound(s.drop_first());
        let b = 0x1_0000_0000nat;
        let rest = limbs_val(s.drop_first());
        let p = pow_base((s.len() - 1) as nat);
        assert(s.first() as nat + b * rest < b * p) by (nonlinear_arith)
            requires
                s.first() < b,
                rest < p,
        ;
        assert(pow_base(s.len()) == b * p);
    }
}

/// A canonical, nonempty limb sequence reaches the base raised to one
/// less than its length.
pub proof fn lemma_limbs_val_lower(s: Seq<u32>)
    requires
        canon(s),
        s.len() > 0,
    ensures
        limbs_val(s) >= pow_base((s.len() - 1) as nat),
    decreases s.len(),
{
    if s.len() == 1 {
        assert(s.first() == s.last());
        assert(limbs_val(s) >= 1);
    } else {
        assert(s.drop_first().last() == s.last());
        lemma_limbs_val_lower(s.drop_first());
        let b = 0x1_0000_0000nat;
        let rest = limbs_val(s.drop_first());
        let p = pow_base((s.len() - 2) as nat);
        assert(b * rest >= b * p) by (nonlinear_arith)
            requires
                rest >= p,
        ;
        assert(pow_base((s.len() - 1) as nat) == b * p);
    }
}

/// The value of a sequence splits at any point into a low part and a
/// shifted high part.
pub proof fn lemma_limbs_val_split(s: Seq<u32>, k: int)
    requires
        0 <= k <= s.len(),
    ensures
        limbs_val(s) == limbs_val(s.take(k)) + pow_base(k as nat) * limbs_val(s.skip(k)),
    decreases k,
{
    if k == 0 {
        assert(s.take(0) =~= Seq::<u32>::empty());
        assert(s.skip(0) =~= s);
        assert(1 * limbs_val(s) == limbs_val(s)) by (nonlinear_arith);
    } else {
        assert(s.len() > 0);
        let b = 0x1_0000_0000nat;
        assert(s.take(k).first() == s.first());
        assert(s.take(k).drop_first() =~= s.drop_first().take(k - 1));
        assert(s.skip(k) =~= s.drop_first().skip(k - 1));
        lemma_limbs_val_split(s.drop_first(), k - 1);
        let lo = limbs_val(s.drop_first().take(k - 1));
        let hi = limbs_val(s.drop_first().skip(k - 1));
        let p = pow_base((k - 1) as nat);
        assert(limbs_val(s) == s.first() as nat + b * (lo + p * hi));
        assert(b * (lo + p * hi) == b * lo + (b * p) * hi) by (nonlinear_arith);
        assert(limbs_val(s.take(k)) == s.first() as nat + b * lo);
        assert(pow_base(k as nat) == b * p);
    }
}

/// If two equally long sequences agree above position `i` and differ in
/// favour of the first at `i`, the first has the larger value.
proof fn lemma_limbs_cmp_at(s1: Seq<u32>, s2: Seq<u32>, i: int)
    requires
        s1.len() == s2.len(),
        0 <= i < s1.len(),
        forall|j: int| i < j < s1.len() ==> s1[j] == s2[j],
        s1[i] > s2[i],
    ensures
        limbs_val(s1) > limbs_val(s2),
{
    lemma_limbs_val_split(s1, i + 1);
    lemma_limbs_val_split(s2, i + 1);
    assert(s1.skip(i + 1) =~= s2.skip(i + 1));
    assert(s1.take(i + 1) =~= s1.take(i).push(s1[i]));
    assert(s2.take(i + 1) =~= s2.take(i).push(s2[i]));
    lemma_limbs_val_push(s1.take(i), s1[i]);
    lemma_limbs_val_push(s2.take(i), s2[i]);
    lemma_limbs_val_bound(s2.take(i));
    let p = pow_base(i as nat);
    assert(limbs_val(s1.take(i + 1)) > limbs_val(s2.take(i + 1))) by (nonlinear_arith)
        requires
            limbs_val(s1.take(i + 1)) == limbs_val(s1.take(i)) + (s1[i] as nat) * p,
            limbs_val(s2.take(i + 1)) == limbs_val(s2.take(i)) + (s2[i] as nat) * p,
            limbs_val(s2.take(i)) < p,
            s1[i] > s2[i],
            limbs_val(s1.take(i)) >= 0,
    ;
    let hi = limbs_val(s1.skip(i + 1));
    let q = pow_base((i + 1) as nat);
    assert(limbs_val(s1) > limbs_val(s2)) by (nonlinear_arith)
        requires
            limbs_val(s1) == limbs_val(s1.take(i + 1)) + q * hi,
            limbs_val(s2) == limbs_val(s2.take(i + 1)) + q * hi,
            limbs_val(s1.take(i + 1)) > limbs_val(s2.take(i + 1)),
    ;
}

impl View for BigNat {
    type V = nat;

    closed spec fn view(&self) -> nat {
        limbs_val(self.limbs@)
    }
}

impl BigNat {
    /// Structural invariant: canonical limb sequence.
    pub closed spec fn wf(self) -> bool {
        canon(self.limbs@)
    }

    /// The number with value `x`.
    pub fn from_u32(x: u32) -> (r: BigNat)
        ensures
            r.wf(),
            r@ == x as nat,
    {
        if x == 0 {
            let r = BigNat { limbs: Vec::new() };
            proof {
                assert(r.limbs@ =~= Seq::<u32>::empty());
            }
            r
        } else {
            let mut limbs: Vec<u32> = Vec::new();
            limbs.push(x);
            let r = BigNat { limbs };
            proof {
                assert(r.limbs@.first() == x);
                assert(r.limbs@.drop_first() =~= Seq::<u32>::empty());
                assert(limbs_val(r.limbs@.drop_first()) == 0);
            }
            r
        }
    }

    /// Multiplies this number by `m`, exactly.
    pub fn mul_u32(&mut self, m: u32)
        requires
            old(self).wf(),
        ensures
            final(self).wf(),
            final(self)@ == old(self)@ * m,
    {
        let ghost a = self.limbs@;
        if m == 0 {
            self.limbs = Vec::new();
            proof {
                assert(self.limbs@ =~= Seq::<u32>::empty());
                assert(limbs_val(a) * 0 == 0) by (nonlinear_arith);
            }
            return ;
        }
        if self.limbs.len() == 0 {
            proof {
                assert(0 * (m as nat) == 0) by (nonlinear_arith);
            }
            return ;
        }
        let n = self.limbs.len();
        let mut out: Vec<u32> = Vec::new();
        let mut carry: u64 = 0;
        let mut i: usize = 0;
        while i < n
            invariant
                0 <= i <= n,
                n == self.limbs@.len(),
                self.limbs@ == a,
                out@.len() == i,
                carry < 0x1_0000_0000u64,
                limbs_val(out@) + (carry as nat) * pow_base(i as nat) == limbs_val(
                    a.take(i as int),
                ) * (m as nat),
            decreases n - i,
        {
            let d = self.limbs[i];
            proof {
                assert((d as u64) * (m as u64) + carry <= 0xFFFF_FFFF_0000_0000u64)
                    by (nonlinear_arith)
                    requires
                        d <= 0xFFFF_FFFFu64,
                        m <= 0xFFFF_FFFFu64,
                        carry < 0x1_0000_0000u64,
                ;
            }
            let t: u64 = d as u64 * m as u64 + carry;
            let lo: u32 = (t & 0xFFFF_FFFF) as u32;
            let hi: u64 = t >> 32;
            proof {
                assert((t & 0xFFFF_FFFFu64) < 0x1_0000_0000u64) by (bit_vector);
                assert(t == (t & 0xFFFF_FFFFu64) + (t >> 32u64) * 0x1_0000_0000u64)
                    by (bit_vector);
                assert((t >> 32u64) < 0x1_0000_0000u64) by (bit_vector)
                    requires
                        t <= 0xFFFF_FFFF_0000_0000u64,
                ;
            }
            let ghost oout = out@;
            out.push(lo);
            proof {
                lemma_limbs_val_push(oout, lo);
                assert(a.take(i as int + 1) =~= a.take(i as int).push(a[i as int]));
                lemma_limbs_val_push(a.take(i as int), a[i as int]);
                let p = pow_base(i as nat);
                let b = 0x1_0000_0000nat;
                // The new partial product extends the old one by d * m at
                // position i, re-split into a limb and a carry.
                assert(limbs_val(out@) + ((hi as nat) * b) * p == limbs_val(oout) + (
                (carry as nat) + (d as nat) * (m as nat)) * p) by (nonlinear_arith)
                    requires
                        limbs_val(out@) == limbs_val(oout) + (lo as nat) * p,
                        (lo as nat) + (hi as nat) * b == (d as nat) * (m as nat) + carry as nat,
                ;
                assert(limbs_val(a.take(i as int + 1)) * (m as nat) == limbs_val(a.take(i as int))
                    * (m as nat) + ((d as nat) * (m as nat)) * p) by (nonlinear_arith)
                    requires
                        limbs_val(a.take(i as int + 1)) == limbs_val(a.take(i as int)) + (
                        d as nat) * p,
                ;
                assert((carry as nat + (d as nat) * (m as nat)) * p == (carry as nat) * p + ((
                d as nat) * (m as nat)) * p) by (nonlinear_arith);
                assert(pow_base((i + 1) as nat) == b * p);
                assert((hi as nat) * (b * p) == ((hi as nat) * b) * p) by (nonlinear_arith);
            }
            carry = hi;
            i = i + 1;
        }
        proof {
            assert(a.take(n as int) =~= a);
        }
        if carry > 0 {
            let ghost oout = out@;
            out.push(carry as u32);
            proof {
                lemma_limbs_val_push(oout, carry as u32);
                assert(out@.last() != 0);
            }
        } else {
            proof {
                assert(limbs_val(out@) == limbs_val(a) * (m as nat));
                if out@.last() == 0 {
                    assert(out@ =~= out@.take(n as int - 1).push(0u32));
                    lemma_limbs_val_push(out@.take(n as int - 1), 0u32);
                    lemma_limbs_val_bound(out@.take(n as int - 1));
                    assert(limbs_val(out@) < pow_base((n - 1) as nat)) by (nonlinear_arith)
                        requires
                            limbs_val(out@) == limbs_val(out@.take(n as int - 1)) + 0nat
                                * pow_base((n - 1) as nat),
                            limbs_val(out@.take(n as int - 1)) < pow_base((n - 1) as nat),
                    ;
                    lemma_limbs_val_lower(a);
                    assert(limbs_val(a) * (m as nat) >= pow_base((n - 1) as nat))
                        by (nonlinear_arith)
                        requires
                            limbs_val(a) >= pow_base((n - 1) as nat),
                            m >= 1,
                    ;
                }
            }
        }
        self.limbs = out;
    }

    /// Strict comparison: does this number exceed `other`?
    pub fn gt(&self, other: &BigNat) -> (r: bool)
        requires
            self.wf(),
            other.wf(),
        ensures
            r == (self@ > other@),
    {
        let n1 = self.limbs.len();
        let n2 = other.limbs.len();
        if n1 != n2 {
            proof {
                if n1 > n2 {
                    lemma_limbs_val_lower(self.limbs@);
                    lemma_limbs_val_bound(other.limbs@);
                    lemma_pow_base_mono(n2 as nat, (n1 - 1) as nat);
                } else {
                    lemma_limbs_val_lower(other.limbs@);
                    lemma_limbs_val_bound(self.limbs@);
                    lemma_pow_base_mono(n1 as nat, (n2 - 1) as nat);
                }
            }
            return n1 > n2;
        }
        let mut i: usize = n1;
        while i > 0
            invariant
                0 <= i <= n1,
                n1 == self.limbs@.len(),
                n1 == other.limbs@.len(),
                forall|j: int| i <= j < n1 ==> self.limbs@[j] == other.limbs@[j],
            decreases i,
        {
            i = i - 1;
            let d1 = self.limbs[i];
            let d2 = other.limbs[i];
            if d1 != d2 {
                proof {
                    if d1 > d2 {
                        lemma_limbs_cmp_at(self.limbs@, other.limbs@, i as int);
                    } else {
                        lemma_limbs_cmp_at(other.limbs@, self.limbs@, i as int);
                    }
                }
                return d1 > d2;
            }
        }
        proof {
            assert(self.limbs@ =~= other.limbs@);
        }
        false
    }
}

} // verus!
