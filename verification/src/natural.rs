//! Natural numbers of any size.
//!
//! Reading a decimal number exactly, or writing one out, needs integers far wider than a machine
//! word: the smallest double is a multiple of 2^-1074 and the largest reaches 2^1024. This is the
//! small amount of arithmetic those conversions take, and nothing more.
use vstd::arithmetic::mul::*;
use vstd::arithmetic::power::*;
use vstd::arithmetic::power2::*;
use vstd::prelude::*;

verus! {

/// The number that little-endian 64-bit limbs stand for.
pub open spec fn limbs_value(s: Seq<u64>) -> nat
    decreases s.len(),
{
    if s.len() == 0 {
        0
    } else {
        limbs_value(s.drop_last()) + s.last() as nat * pow2((64 * (s.len() - 1)) as nat)
    }
}

/// A natural number; its view is the number.
pub struct Natural {
    limbs: Vec<u64>,
}

impl View for Natural {
    type V = nat;

    closed spec fn view(&self) -> nat {
        limbs_value(self.limbs@)
    }
}

proof fn lemma_push(s: Seq<u64>, x: u64)
    ensures
        limbs_value(s.push(x)) == limbs_value(s) + x as nat * pow2((64 * s.len()) as nat),
{
    assert(s.push(x).drop_last() =~= s);
}

proof fn lemma_bound(s: Seq<u64>)
    ensures
        limbs_value(s) < pow2((64 * s.len()) as nat),
    decreases s.len(),
{
    if s.len() == 0 {
        lemma_pow2_pos(0);
    } else {
        let below = s.drop_last();
        let p = pow2((64 * below.len()) as nat);
        lemma_bound(below);
        lemma_pow2_adds((64 * below.len()) as nat, 64);
        lemma2_to64();
        lemma2_to64_rest();
        let top = s.last() as nat;
        assert(top * p + p <= 0x1_0000_0000_0000_0000 * p) by (nonlinear_arith)
            requires
                top < 0x1_0000_0000_0000_0000,
        ;
        assert(p * 0x1_0000_0000_0000_0000 == 0x1_0000_0000_0000_0000 * p) by (nonlinear_arith);
    }
}

proof fn lemma_split(s: Seq<u64>, i: int)
    requires
        0 <= i <= s.len(),
    ensures
        limbs_value(s) == limbs_value(s.take(i)) + pow2((64 * i) as nat) * limbs_value(s.skip(i)),
    decreases s.len() - i,
{
    if i == s.len() {
        assert(s.take(i) =~= s);
        assert(s.skip(i).len() == 0);
        assert(limbs_value(s.skip(i)) == 0);
        assert(pow2((64 * i) as nat) * 0 == 0);
    } else {
        let shorter = s.drop_last();
        lemma_split(shorter, i);
        assert(shorter.take(i) =~= s.take(i));
        assert(s.skip(i).drop_last() =~= shorter.skip(i));
        assert(s.skip(i).last() == s.last());
        let n = s.len() - 1;
        lemma_pow2_adds((64 * i) as nat, (64 * (n - i)) as nat);
        let a = pow2((64 * i) as nat);
        let b = pow2((64 * (n - i)) as nat);
        let t = s.last() as nat;
        let v = limbs_value(shorter.skip(i));
        assert(limbs_value(s.skip(i)) == v + t * b);
        assert(a * (v + t * b) == a * v + t * (a * b)) by (nonlinear_arith);
    }
}

proof fn lemma_zeros(n: nat)
    ensures
        limbs_value(Seq::new(n, |x: int| 0u64)) == 0,
    decreases n,
{
    if n > 0 {
        assert(Seq::new(n, |x: int| 0u64).drop_last() =~= Seq::new((n - 1) as nat, |x: int| 0u64));
        lemma_zeros((n - 1) as nat);
        assert(0 * pow2((64 * (n - 1)) as nat) == 0);
    }
}

impl Natural {
    /// The number `n`.
    pub fn from_u64(n: u64) -> (r: Natural)
        ensures
            r@ == n,
    {
        let mut limbs: Vec<u64> = Vec::new();
        limbs.push(n);
        proof {
            lemma_push(Seq::empty(), n);
            lemma2_to64();
            assert(limbs@ =~= Seq::<u64>::empty().push(n));
            assert(n as nat * 1 == n as nat);
        }
        Natural { limbs }
    }

    /// A copy.
    pub fn copy(&self) -> (r: Natural)
        ensures
            r@ == self@,
    {
        let limbs: Vec<u64> = self.limbs.clone();
        assert(limbs@ =~= self.limbs@);
        Natural { limbs }
    }

    /// Multiply by `m`, then add `a`.
    pub fn mul_add(&mut self, m: u64, a: u64)
        ensures
            final(self)@ == old(self)@ * m + a,
    {
        let mut out: Vec<u64> = Vec::new();
        let mut carry: u64 = a;
        let mut i: usize = 0;
        let n: usize = self.limbs.len();
        proof {
            lemma2_to64();
            assert(self.limbs@.take(0) =~= Seq::empty());
            assert(limbs_value(self.limbs@.take(0)) == 0);
            assert(limbs_value(out@) == 0);
            assert(carry as nat * pow2(0) == carry);
            assert(0 * m as int == 0);
        }
        while i < n
            invariant
                n == self.limbs.len(),
                i <= n,
                out.len() == i,
                limbs_value(out@) + carry as nat * pow2((64 * i) as nat) == limbs_value(
                    self.limbs@.take(i as int),
                ) * m + a,
            decreases n - i,
        {
            let limb: u64 = self.limbs[i];
            assert((limb as int) * (m as int) <= 0xffff_ffff_ffff_ffff * 0xffff_ffff_ffff_ffff)
                by (nonlinear_arith)
                requires
                    0 <= limb <= 0xffff_ffff_ffff_ffff,
                    0 <= m <= 0xffff_ffff_ffff_ffff,
            ;
            let t: u128 = (limb as u128) * (m as u128) + (carry as u128);
            let low: u64 = (t % 0x1_0000_0000_0000_0000) as u64;
            let high: u64 = (t / 0x1_0000_0000_0000_0000) as u64;
            proof {
                let p = pow2((64 * i) as nat) as int;
                let before = limbs_value(out@) as int;
                let v = limbs_value(self.limbs@.take(i as int)) as int;
                lemma_push(out@, low);
                lemma_pow2_adds((64 * i) as nat, 64);
                lemma2_to64_rest();
                assert(self.limbs@.take(i + 1) =~= self.limbs@.take(i as int).push(limb));
                lemma_push(self.limbs@.take(i as int), limb);
                let b = 0x1_0000_0000_0000_0000int;
                assert(t == low + high * b);
                assert(before + low * p + high * (p * b) == before + t * p) by (nonlinear_arith)
                    requires
                        t == low + high * b,
                ;
                assert(before + t * p == (v + limb * p) * m + a) by (nonlinear_arith)
                    requires
                        t == limb * m + carry,
                        before + carry * p == v * m + a,
                ;
            }
            out.push(low);
            carry = high;
            i = i + 1;
        }
        proof {
            assert(self.limbs@.take(n as int) =~= self.limbs@);
            lemma_push(out@, carry);
        }
        out.push(carry);
        self.limbs = out;
    }

    /// Multiply by 2^`k`.
    pub fn mul_pow2(&mut self, k: u64)
        ensures
            final(self)@ == old(self)@ * pow2(k as nat),
    {
        let whole: u64 = k / 64;
        let rest: u64 = k % 64;
        let mut factor: u64 = 1;
        let mut i: u64 = 0;
        proof {
            lemma2_to64();
        }
        while i < rest
            invariant
                i <= rest < 64,
                factor == pow2(i as nat),
            decreases rest - i,
        {
            proof {
                lemma_pow2_adds(i as nat, 1);
                lemma2_to64();
                lemma2_to64_rest();
                lemma_pow2_monotone(i as nat, 62);
            }
            factor = factor * 2;
            i = i + 1;
        }
        self.mul_add(factor, 0);
        let ghost low = self.limbs@;
        let mut out: Vec<u64> = Vec::new();
        let mut j: u64 = 0;
        while j < whole
            invariant
                j <= whole,
                out@ =~= Seq::new(j as nat, |x: int| 0u64),
            decreases whole - j,
        {
            out.push(0);
            j = j + 1;
        }
        let ghost zeros = out@;
        let mut n: usize = 0;
        while n < self.limbs.len()
            invariant
                n <= self.limbs.len(),
                self.limbs@ == low,
                out@ =~= zeros + low.take(n as int),
            decreases self.limbs.len() - n,
        {
            out.push(self.limbs[n]);
            n = n + 1;
        }
        proof {
            assert(low.take(n as int) =~= low);
            let all = zeros + low;
            lemma_split(all, whole as int);
            assert(all.take(whole as int) =~= zeros);
            assert(all.skip(whole as int) =~= low);
            lemma_zeros(whole as nat);
            lemma_pow2_adds(rest as nat, (64 * whole) as nat);
            let v = old(self)@ as int;
            let f = factor as int;
            let p = pow2((64 * whole) as nat) as int;
            assert(p * (v * f) == v * (f * p)) by (nonlinear_arith);
        }
        self.limbs = out;
    }

    /// Multiply by 10^`k`.
    pub fn mul_pow10(&mut self, k: u128)
        ensures
            final(self)@ == old(self)@ * pow(10, k as nat),
    {
        let mut left: u128 = k;
        proof {
            lemma_pow0(10);
            assert(self@ * pow(10, 0) == self@);
        }
        while left >= 9
            invariant
                left <= k,
                self@ == old(self)@ * pow(10, (k - left) as nat),
            decreases left,
        {
            proof {
                lemma_pow_adds(10, (k - left) as nat, 9);
                reveal_with_fuel(pow, 10);
                assert(pow(10, 9) == 1_000_000_000);
                lemma_mul_is_associative(
                    old(self)@ as int,
                    pow(10, (k - left) as nat) as int,
                    1_000_000_000,
                );
            }
            self.mul_add(1_000_000_000, 0);
            left = left - 9;
        }
        while left > 0
            invariant
                left <= k,
                self@ == old(self)@ * pow(10, (k - left) as nat),
            decreases left,
        {
            proof {
                lemma_pow_adds(10, (k - left) as nat, 1);
                lemma_pow1(10);
                lemma_mul_is_associative(old(self)@ as int, pow(10, (k - left) as nat) as int, 10);
            }
            self.mul_add(10, 0);
            left = left - 1;
        }
    }

    /// Is this number at most `other`?
    pub fn le(&self, other: &Natural) -> (r: bool)
        ensures
            r == (self@ <= other@),
    {
        let n: usize = self.limbs.len();
        let m: usize = other.limbs.len();
        let mut i: usize = if n < m { m } else { n };
        let ghost a = self.limbs@;
        let ghost b = other.limbs@;
        proof {
            assert(a.take(n as int) =~= a);
            assert(b.take(m as int) =~= b);
        }
        while i > 0
            invariant
                n == self.limbs.len(),
                m == other.limbs.len(),
                a == self.limbs@,
                b == other.limbs@,
                limbs_value(a) - limbs_value(a.take(low_end(i, n))) == limbs_value(b)
                    - limbs_value(b.take(low_end(i, m))),
            decreases i,
        {
            let x: u64 = if i <= n { self.limbs[i - 1] } else { 0 };
            let y: u64 = if i <= m { other.limbs[i - 1] } else { 0 };
            proof {
                lemma_top(a, i as int);
                lemma_top(b, i as int);
                let p = pow2((64 * (i - 1)) as nat) as int;
                lemma_bound(a.take(low_end((i - 1) as usize, n)));
                lemma_bound(b.take(low_end((i - 1) as usize, m)));
                lemma_pow2_monotone(
                    (64 * low_end((i - 1) as usize, n)) as nat,
                    (64 * (i - 1)) as nat,
                );
                lemma_pow2_monotone(
                    (64 * low_end((i - 1) as usize, m)) as nat,
                    (64 * (i - 1)) as nat,
                );
                if x < y {
                    assert(x * p + p <= y * p) by (nonlinear_arith)
                        requires
                            x + 1 <= y,
                            0 <= p,
                    ;
                }
                if y < x {
                    assert(y * p + p <= x * p) by (nonlinear_arith)
                        requires
                            y + 1 <= x,
                            0 <= p,
                    ;
                }
            }
            if x < y {
                return true;
            }
            if y < x {
                return false;
            }
            i = i - 1;
        }
        true
    }

    /// Is this number zero?
    pub fn is_zero(&self) -> (r: bool)
        ensures
            r == (self@ == 0),
    {
        let zero: Natural = Natural::from_u64(0);
        self.le(&zero)
    }

    /// Divide by `d`, leaving the quotient and returning the remainder.
    pub fn div_rem(&mut self, d: u64) -> (rem: u64)
        requires
            d > 0,
        ensures
            old(self)@ == final(self)@ * d + rem,
            rem < d,
    {
        let n: usize = self.limbs.len();
        let mut i: usize = n;
        let mut rem: u64 = 0;
        let ghost s = self.limbs@;
        proof {
            assert(s.take(n as int) =~= s);
            assert(s.skip(n as int) =~= Seq::empty());
            assert(limbs_value(s.skip(n as int)) == 0);
            assert((pow2((64 * n) as nat) * 0) * d as int == 0) by (nonlinear_arith);
            assert(0 * pow2((64 * n) as nat) == 0);
        }
        while i > 0
            invariant
                d > 0,
                rem < d,
                i <= n,
                self.limbs.len() == n,
                s.len() == n,
                self.limbs@.take(i as int) =~= s.take(i as int),
                limbs_value(s) == limbs_value(s.take(i as int)) + (pow2((64 * i) as nat)
                    * limbs_value(self.limbs@.skip(i as int))) * d + rem * pow2((64 * i) as nat),
            decreases i,
        {
            let ghost before = self.limbs@;
            let limb: u64 = self.limbs[i - 1];
            let t: u128 = (rem as u128) * 0x1_0000_0000_0000_0000 + (limb as u128);
            assert(t / (d as u128) < 0x1_0000_0000_0000_0000) by (nonlinear_arith)
                requires
                    t < d * 0x1_0000_0000_0000_0000,
                    d > 0,
            ;
            let q: u64 = (t / (d as u128)) as u64;
            let rem_next: u64 = (t % (d as u128)) as u64;
            self.limbs.set(i - 1, q);
            proof {
                let j = i - 1;
                assert(before.take(i as int)[j] == s.take(i as int)[j]);
                assert(s[j] == limb);
                assert(s.take(i as int) =~= s.take(j).push(limb));
                lemma_push(s.take(j), limb);
                assert(self.limbs@.take(j) =~= s.take(j)) by {
                    assert forall|k: int| 0 <= k < j implies self.limbs@[k] == s[k] by {
                        assert(before.take(i as int)[k] == s.take(i as int)[k]);
                    }
                }
                lemma_skip_step(self.limbs@, j);
                assert(self.limbs@.skip(i as int) =~= before.skip(i as int));
                let p = pow2((64 * j) as nat) as int;
                let hi = limbs_value(before.skip(i as int)) as int;
                lemma_pow2_adds((64 * j) as nat, 64);
                lemma2_to64_rest();
                assert(t == q * d + rem_next) by {
                    vstd::arithmetic::div_mod::lemma_fundamental_div_mod(t as int, d as int);
                    lemma_mul_is_commutative(d as int, q as int);
                }
                let w = 0x1_0000_0000_0000_0000int;
                assert(limbs_value(self.limbs@.skip(j)) == q + w * hi);
                let dd = d as int;
                let rr = rem as int;
                let rn = rem_next as int;
                let qq = q as int;
                let ll = limb as int;
                assert(ll * p + rr * (p * w) == p * (rr * w + ll)) by (nonlinear_arith);
                assert((p * (qq + w * hi)) * dd + rn * p == p * (qq * dd + rn) + ((p * w) * hi)
                    * dd) by {
                    lemma_mul_is_distributive_add(p, qq, w * hi);
                    lemma_mul_is_distributive_add_other_way(dd, p * qq, p * (w * hi));
                    lemma_mul_is_associative(p, qq, dd);
                    lemma_mul_is_associative(p, w, hi);
                    lemma_mul_is_distributive_add(p, qq * dd, rn);
                    lemma_mul_is_commutative(p, rn);
                }
                assert(rr * w + ll == qq * dd + rn);
            }
            rem = rem_next;
            i = i - 1;
        }
        proof {
            lemma2_to64();
            assert(self.limbs@.skip(0) =~= self.limbs@);
            assert(s.take(0) =~= Seq::empty());
            assert(limbs_value(s.take(0)) == 0);
            lemma_mul_basics(limbs_value(self.limbs@) as int);
            lemma_mul_basics(rem as int);
        }
        rem
    }
}

impl Natural {
    /// Divide by 2^`k`, discarding the remainder.
    pub fn div_pow2(&mut self, k: u64)
        ensures
            final(self)@ == old(self)@ / pow2(k as nat),
    {
        let mut left: u64 = k;
        proof {
            lemma2_to64();
            vstd::arithmetic::div_mod::lemma_div_basics(self@ as int);
        }
        while left > 0
            invariant
                left <= k,
                self@ == old(self)@ / pow2((k - left) as nat),
            decreases left,
        {
            let step: u64 = if left >= 32 { 32 } else { 1 };
            let d: u64 = if left >= 32 { 0x1_0000_0000 } else { 2 };
            let ghost before = self@;
            self.div_rem(d);
            proof {
                lemma2_to64();
                lemma_pow2_pos((k - left) as nat);
                lemma_pow2_adds((k - left) as nat, step as nat);
                vstd::arithmetic::div_mod::lemma_fundamental_div_mod_converse(
                    before as int,
                    d as int,
                    self@ as int,
                    before - self@ * d,
                );
                vstd::arithmetic::div_mod::lemma_div_denominator(
                    old(self)@ as int,
                    pow2((k - left) as nat) as int,
                    d as int,
                );
            }
            left = left - step;
        }
    }

    /// The number, where it fits 64 bits.
    pub fn to_u64(&self) -> (r: Option<u64>)
        ensures
            r == (if self@ <= u64::MAX {
                Some(self@ as u64)
            } else {
                None::<u64>
            }),
    {
        let top: Natural = Natural::from_u64(u64::MAX);
        if !self.le(&top) {
            return None;
        }
        proof {
            lemma2_to64();
            lemma2_to64_rest();
            if self.limbs.len() > 0 {
                lemma_skip_step(self.limbs@, 0);
                assert(self.limbs@.skip(0) =~= self.limbs@);
                assert(self.limbs@.skip(1).len() == self.limbs.len() - 1);
            }
        }
        if self.limbs.len() == 0 {
            Some(0)
        } else {
            Some(self.limbs[0])
        }
    }
}

spec fn low_end(i: usize, n: usize) -> int {
    if i < n {
        i as int
    } else {
        n as int
    }
}

proof fn lemma_pow2_monotone(a: nat, b: nat)
    requires
        a <= b,
    ensures
        pow2(a) <= pow2(b),
{
    if a < b {
        lemma_pow2_strictly_increases(a, b);
    }
}

proof fn lemma_top(s: Seq<u64>, i: int)
    requires
        0 < i,
        s.len() <= usize::MAX,
        i <= usize::MAX,
    ensures
        limbs_value(s.take(low_end(i as usize, s.len() as usize))) == limbs_value(
            s.take(low_end((i - 1) as usize, s.len() as usize)),
        ) + (if i <= s.len() {
            s[i - 1] as nat
        } else {
            0
        }) * pow2((64 * (i - 1)) as nat),
{
    if i <= s.len() {
        assert(s.take(i) =~= s.take(i - 1).push(s[i - 1]));
        lemma_push(s.take(i - 1), s[i - 1]);
    }
}

proof fn lemma_skip_step(s: Seq<u64>, j: int)
    requires
        0 <= j < s.len(),
    ensures
        limbs_value(s.skip(j)) == s[j] + 0x1_0000_0000_0000_0000 * limbs_value(s.skip(j + 1)),
{
    let t = s.skip(j);
    lemma_split(t, 1);
    assert(t.take(1) =~= Seq::empty().push(s[j]));
    lemma_push(Seq::empty(), s[j]);
    lemma2_to64();
    lemma2_to64_rest();
    assert(limbs_value(Seq::<u64>::empty()) == 0);
    lemma_mul_basics(s[j] as int);
    assert(t.skip(1) =~= s.skip(j + 1));
}

} // verus!
