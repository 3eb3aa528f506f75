//! Double-precision numbers, held as their IEEE-754 bit pattern.
//!
//! Everything that decides something about a gain, a frequency or a coefficient does so here, on
//! integers, with a meaning that can be written down: a finite double is a whole number of
//! *quanta*, the smallest positive double (2^-1074) being one. Rounding is stated once, as the
//! nearest double with ties to the even one, and every operation that rounds is stated through it.
use crate::natural::Natural;
use vstd::arithmetic::mul::*;
use vstd::arithmetic::power2::*;
use vstd::prelude::*;

verus! {

/// 2^63: the sign bit, and one past the largest pattern of a magnitude.
pub const SIGN: u64 = 0x8000_0000_0000_0000;

/// 2^52: one past the largest fraction field.
pub const FRACTION: u64 = 0x10_0000_0000_0000;

/// The magnitude pattern of infinity; every finite magnitude is below it.
pub const INFINITE: u64 = 0x7ff0_0000_0000_0000;

/// The magnitude pattern of the quiet NaN.
pub const QUIET_NAN: u64 = 0x7ff8_0000_0000_0000;

/// The pattern of one.
pub const ONE: u64 = 0x3ff0_0000_0000_0000;

/// A double-precision number, as its bit pattern.
#[derive(Clone, Copy, PartialEq, Eq, Structural, Debug)]
pub struct Double {
    pub bits: u64,
}

/// Positive zero.
pub open spec fn zero() -> Double {
    Double { bits: 0 }
}

/// Binary exponent of a magnitude's last place, in quanta.
pub open spec fn scale(m: u64) -> nat {
    if m / FRACTION == 0 {
        0
    } else {
        (m / FRACTION - 1) as nat
    }
}

/// Integer significand of a magnitude.
pub open spec fn significand(m: u64) -> nat {
    if m / FRACTION == 0 {
        (m % FRACTION) as nat
    } else {
        (m % FRACTION + FRACTION) as nat
    }
}

/// The size, in quanta, of the number whose magnitude pattern is `m`. Infinity counts as 2^1024,
/// the first number too large for the format.
pub open spec fn magnitude(m: u64) -> nat {
    significand(m) * pow2(scale(m))
}

/// The distance between `m` and the quotient `num / den`, in units of 1/`den` quanta.
pub open spec fn gap(num: nat, den: nat, m: u64) -> int {
    if magnitude(m) * den <= num {
        num - magnitude(m) * den
    } else {
        magnitude(m) * den - num
    }
}

/// Is `m` the double nearest to `num / den` quanta, the even one where two are equally near?
pub open spec fn rounds_to(num: nat, den: nat, m: u64) -> bool {
    &&& m <= INFINITE
    &&& forall|o: u64|
        o <= INFINITE && o != m ==> #[trigger] gap(num, den, o) > gap(num, den, m) || (gap(
            num,
            den,
            o,
        ) == gap(num, den, m) && m % 2 == 0)
}

/// The magnitude pattern nearest to `num / den` quanta.
pub open spec fn nearest(num: nat, den: nat) -> u64 {
    choose|m: u64| rounds_to(num, den, m)
}

/// The next magnitude up is one unit in the last place away.
pub proof fn lemma_next(m: u64)
    requires
        m < INFINITE,
    ensures
        magnitude((m + 1) as u64) == magnitude(m) + pow2(scale(m)),
{
    let n = (m + 1) as u64;
    let e = m / FRACTION;
    lemma2_to64();
    if m % FRACTION + 1 < FRACTION {
        assert(n / FRACTION == e && n % FRACTION == m % FRACTION + 1);
        assert((significand(m) + 1) * pow2(scale(m)) == significand(m) * pow2(scale(m)) + pow2(
            scale(m),
        )) by (nonlinear_arith);
    } else {
        assert(n / FRACTION == e + 1 && n % FRACTION == 0);
        let p = pow2(scale(m)) as int;
        if e == 0 {
            assert(significand(m) == FRACTION - 1);
            assert(scale(n) == 0 && scale(m) == 0);
            assert((FRACTION - 1) * p + p == FRACTION * p) by (nonlinear_arith);
        } else {
            assert(significand(m) == 2 * FRACTION - 1);
            assert(significand(n) == FRACTION);
            assert(scale(n) == scale(m) + 1);
            lemma_pow2_unfold(scale(n));
            assert(FRACTION * (2 * p) == (2 * FRACTION - 1) * p + p) by (nonlinear_arith);
        }
    }
}

/// Magnitudes are ordered as their patterns are.
pub proof fn lemma_ordered(a: u64, b: u64)
    requires
        a < b <= INFINITE,
    ensures
        magnitude(a) < magnitude(b),
    decreases b,
{
    let c = (b - 1) as u64;
    lemma_next(c);
    lemma_pow2_pos(scale(c));
    if a < c {
        lemma_ordered(a, c);
    }
}

/// At most one pattern is nearest.
pub proof fn lemma_rounds_once(num: nat, den: nat, a: u64, b: u64)
    requires
        rounds_to(num, den, a),
        rounds_to(num, den, b),
        den > 0,
    ensures
        a == b,
{
    if a != b {
        assert(gap(num, den, a) == gap(num, den, b));
        // Two equally near patterns lie on either side of the quotient with nothing between them.
        let (lo, hi) = if a < b {
            (a, b)
        } else {
            (b, a)
        };
        lemma_ordered(lo, hi);
        lemma_mul_strict_inequality(magnitude(lo) as int, magnitude(hi) as int, den as int);
        let mid = (lo + 1) as u64;
        assert(lo % 2 == 0 && hi % 2 == 0);
        assert(mid < hi);
        lemma_ordered(lo, mid);
        lemma_ordered(mid, hi);
        lemma_mul_strict_inequality(magnitude(lo) as int, magnitude(mid) as int, den as int);
        lemma_mul_strict_inequality(magnitude(mid) as int, magnitude(hi) as int, den as int);
        assert(gap(num, den, mid) < gap(num, den, a));
        assert(false);
    }
}

/// Between two neighbouring patterns, the nearer one is nearest of all.
pub proof fn lemma_rounds_between(num: nat, den: nat, m: u64)
    requires
        den > 0,
        m < INFINITE,
        magnitude(m) * den <= num < magnitude((m + 1) as u64) * den,
    ensures
        2 * num < (2 * magnitude(m) + pow2(scale(m))) * den ==> rounds_to(num, den, m),
        2 * num > (2 * magnitude(m) + pow2(scale(m))) * den ==> rounds_to(
            num,
            den,
            (m + 1) as u64,
        ),
        2 * num == (2 * magnitude(m) + pow2(scale(m))) * den ==> rounds_to(
            num,
            den,
            if m % 2 == 0 {
                m
            } else {
                (m + 1) as u64
            },
        ),
{
    let n = (m + 1) as u64;
    lemma_next(m);
    let u = pow2(scale(m)) as int;
    let g = magnitude(m) as int;
    let d = den as int;
    assert((2 * g + u) * d == g * d + (g + u) * d) by (nonlinear_arith);
    assert(gap(num, den, m) == num - g * d);
    assert(gap(num, den, n) == (g + u) * d - num);
    assert forall|o: u64| o <= INFINITE && o < m implies #[trigger] gap(num, den, o) > gap(
        num,
        den,
        m,
    ) by {
        lemma_ordered(o, m);
        lemma_mul_strict_inequality(magnitude(o) as int, g, d);
    }
    assert forall|o: u64| o <= INFINITE && n < o implies #[trigger] gap(num, den, o) > gap(
        num,
        den,
        n,
    ) by {
        lemma_ordered(n, o);
        lemma_mul_strict_inequality(g + u, magnitude(o) as int, d);
    }
}

/// The nearest pattern is the one that rounds.
pub proof fn lemma_nearest_is(num: nat, den: nat, m: u64)
    requires
        den > 0,
        rounds_to(num, den, m),
    ensures
        nearest(num, den) == m,
{
    lemma_rounds_once(num, den, nearest(num, den), m);
}

/// There is always a nearest pattern.
pub proof fn lemma_nearest_rounds(num: nat, den: nat)
    requires
        den > 0,
    ensures
        rounds_to(num, den, nearest(num, den)),
{
    assert(significand(0) == 0);
    lemma_mul_basics(pow2(scale(0)) as int);
    lemma_mul_basics(den as int);
    if magnitude(INFINITE) * den <= num {
        lemma_rounds_beyond(num, den);
    } else {
        let m = lemma_floor(num, den, INFINITE);
        lemma_rounds_between(num, den, m);
    }
}

proof fn lemma_floor(num: nat, den: nat, hi: u64) -> (m: u64)
    requires
        0 < hi <= INFINITE,
        magnitude(0) * den <= num < magnitude(hi) * den,
    ensures
        m < hi,
        magnitude(m) * den <= num < magnitude((m + 1) as u64) * den,
    decreases hi,
{
    let below = (hi - 1) as u64;
    if magnitude(below) * den <= num {
        below
    } else {
        lemma_floor(num, den, below)
    }
}

/// What lies no further than half a last place above the largest finite number rounds to a finite
/// one.
pub proof fn lemma_nearest_finite(num: nat, den: nat, m: u64, slack: nat)
    requires
        den > 0,
        m < INFINITE,
        num <= magnitude(m) * den + slack,
        2 * slack < pow2(2045) * den,
    ensures
        nearest(num, den) < INFINITE,
{
    lemma_nearest_rounds(num, den);
    let top = (INFINITE - 1) as u64;
    lemma_next(top);
    assert(scale(top) == 2045);
    if m < top {
        lemma_ordered(m, top);
    }
    let g = magnitude(top) as int;
    let u = pow2(2045) as int;
    let d = den as int;
    lemma_mul_inequality(magnitude(m) as int, g, d);
    assert((g + u) * d == g * d + u * d) by (nonlinear_arith);
    if nearest(num, den) == INFINITE {
        assert(gap(num, den, top) > gap(num, den, INFINITE) || gap(num, den, top) == gap(
            num,
            den,
            INFINITE,
        ));
    }
}

/// Beyond the largest finite magnitude, rounding gives infinity.
pub proof fn lemma_rounds_beyond(num: nat, den: nat)
    requires
        den > 0,
        magnitude(INFINITE) * den <= num,
    ensures
        rounds_to(num, den, INFINITE),
{
    assert forall|o: u64| o <= INFINITE && o != INFINITE implies #[trigger] gap(num, den, o) > gap(
        num,
        den,
        INFINITE,
    ) by {
        lemma_ordered(o, INFINITE);
        lemma_mul_strict_inequality(
            magnitude(o) as int,
            magnitude(INFINITE) as int,
            den as int,
        );
    }
}

/// The magnitude of a number, its sign dropped.
pub open spec fn unsigned(x: Double) -> u64 {
    (x.bits % SIGN) as u64
}

pub open spec fn is_negative(x: Double) -> bool {
    x.bits >= SIGN
}

pub open spec fn is_nan(x: Double) -> bool {
    unsigned(x) > INFINITE
}

pub open spec fn is_finite(x: Double) -> bool {
    unsigned(x) < INFINITE
}

/// The number as a signed count of quanta.
pub open spec fn quanta(x: Double) -> int {
    if is_negative(x) {
        -(magnitude(unsigned(x)) as int)
    } else {
        magnitude(unsigned(x)) as int
    }
}

/// `a < b`; false where either is not a number.
pub open spec fn less(a: Double, b: Double) -> bool {
    !is_nan(a) && !is_nan(b) && quanta(a) < quanta(b)
}

/// `a <= b`; false where either is not a number.
pub open spec fn at_most(a: Double, b: Double) -> bool {
    !is_nan(a) && !is_nan(b) && quanta(a) <= quanta(b)
}

/// The number of that sign and magnitude.
pub open spec fn signed(negative: bool, m: u64) -> Double {
    Double {
        bits: if negative {
            (m + SIGN) as u64
        } else {
            m
        },
    }
}

/// The number with its sign turned.
pub open spec fn negated(x: Double) -> Double {
    signed(!is_negative(x), unsigned(x))
}

/// Half the number, rounded; infinities and NaN stay as they are.
pub open spec fn halved(x: Double) -> Double {
    if is_finite(x) {
        signed(is_negative(x), nearest(magnitude(unsigned(x)), 2))
    } else {
        x
    }
}

/// The signed ordering key of a pattern: patterns compare as these do.
spec fn key(x: Double) -> int {
    if is_negative(x) {
        -(unsigned(x) as int)
    } else {
        unsigned(x) as int
    }
}

pub proof fn lemma_zero()
    ensures
        magnitude(0) == 0,
{
    assert(significand(0) == 0);
    lemma_mul_basics(pow2(scale(0)) as int);
}

proof fn lemma_key_order(a: Double, b: Double)
    requires
        !is_nan(a),
        !is_nan(b),
        key(a) < key(b),
    ensures
        quanta(a) < quanta(b),
{
    lemma_zero();
    let m = unsigned(a);
    let n = unsigned(b);
    if m > 0 {
        lemma_ordered(0, m);
    }
    if n > 0 {
        lemma_ordered(0, n);
    }
    if m < n {
        lemma_ordered(m, n);
    }
    if n < m {
        lemma_ordered(n, m);
    }
}

impl Double {
    /// Neither infinite nor NaN?
    pub fn is_finite(self) -> (r: bool)
        ensures
            r == is_finite(self),
    {
        self.bits % SIGN < INFINITE
    }

    /// Not a number?
    pub fn is_nan(self) -> (r: bool)
        ensures
            r == is_nan(self),
    {
        self.bits % SIGN > INFINITE
    }

    /// `self < other`, false where either is NaN.
    pub fn lt(self, other: Double) -> (r: bool)
        ensures
            r == less(self, other),
    {
        if self.is_nan() || other.is_nan() {
            return false;
        }
        let a: i64 = self.order();
        let b: i64 = other.order();
        proof {
            if a < b {
                lemma_key_order(self, other);
            } else if b < a {
                lemma_key_order(other, self);
            } else {
                lemma_zero();
            }
        }
        a < b
    }

    /// `self <= other`, false where either is NaN.
    pub fn le(self, other: Double) -> (r: bool)
        ensures
            r == at_most(self, other),
    {
        if self.is_nan() || other.is_nan() {
            return false;
        }
        let a: i64 = self.order();
        let b: i64 = other.order();
        proof {
            if a < b {
                lemma_key_order(self, other);
            } else if b < a {
                lemma_key_order(other, self);
            } else {
                lemma_zero();
            }
        }
        a <= b
    }

    fn order(self) -> (r: i64)
        ensures
            r == key(self),
    {
        let m: u64 = self.bits % SIGN;
        if self.bits >= SIGN {
            -(m as i64)
        } else {
            m as i64
        }
    }

    /// The number with its sign turned.
    pub fn negate(self) -> (r: Double)
        ensures
            r == negated(self),
    {
        if self.bits >= SIGN {
            Double { bits: self.bits - SIGN }
        } else {
            Double { bits: self.bits + SIGN }
        }
    }

    /// Half the number.
    pub fn half(self) -> (r: Double)
        ensures
            r == halved(self),
    {
        if !self.is_finite() {
            return self;
        }
        let m: u64 = self.bits % SIGN;
        let one: Natural = Natural::from_u64(1);
        let two: Natural = Natural::from_u64(2);
        let num: Natural = scaled_magnitude(m, &one);
        assert(magnitude(m) * 1 == magnitude(m));
        let h: u64 = nearest_magnitude(&num, &two);
        if self.bits >= SIGN {
            Double { bits: h + SIGN }
        } else {
            Double { bits: h }
        }
    }
}

/// The nearest integer to `num / den`, the even one where two are equally near.
pub open spec fn round_even(num: nat, den: nat) -> nat {
    let q = num / den;
    let r = num % den;
    if 2 * r < den {
        q
    } else if 2 * r > den {
        q + 1
    } else {
        q + q % 2
    }
}

/// A thousand times the number, rounded as a double, then to the nearest integer with halves away
/// from zero, then held to the range of a 64-bit integer. Zero for NaN.
pub open spec fn milli(x: Double) -> int {
    if is_nan(x) {
        0
    } else {
        let product = magnitude(nearest(magnitude(unsigned(x)) * 1000, 1));
        let whole = (2 * product + pow2(1074)) / pow2(1075);
        if is_negative(x) {
            if whole > 0x8000_0000_0000_0000 {
                i64::MIN as int
            } else {
                -(whole as int)
            }
        } else {
            if whole > 0x7fff_ffff_ffff_ffff {
                i64::MAX as int
            } else {
                whole as int
            }
        }
    }
}

/// The absolute value.
pub open spec fn absolute(n: int) -> nat {
    if n < 0 {
        (-n) as nat
    } else {
        n as nat
    }
}

/// `n` thousandths: the integer rounded to a double, then divided by a thousand.
pub open spec fn from_milli(n: int) -> Double {
    signed(n < 0, nearest(magnitude(nearest(absolute(n) * pow2(1074), 1)), 1000))
}

/// The quotient of two positive magnitudes, at most one of them infinite.
pub open spec fn quotient(a: u64, b: u64) -> u64 {
    if a == INFINITE {
        INFINITE
    } else if b == INFINITE {
        0
    } else {
        nearest(magnitude(a) * pow2(1074), magnitude(b))
    }
}

/// Is neither of two positive numbers more than `limit` times the other?
pub open spec fn within_ratio(a: Double, b: Double, limit: Double) -> bool {
    &&& at_most(signed(false, quotient(unsigned(a), unsigned(b))), limit)
    &&& at_most(signed(false, quotient(unsigned(b), unsigned(a))), limit)
}

/// Floor of the half-shifted quotient: adding one to a floored quotient and halving it is the same
/// as rounding halves up.
proof fn lemma_half_up(n: nat, k: nat)
    ensures
        (n / pow2(k) + 1) / 2 == (n + pow2(k)) / pow2(k + 1),
{
    let q = pow2(k) as int;
    lemma_pow2_pos(k);
    lemma_pow2_unfold(k + 1);
    vstd::arithmetic::div_mod::lemma_div_plus_one(n as int, q);
    vstd::arithmetic::div_mod::lemma_div_denominator(n + q, q, 2);
    lemma_mul_is_commutative(2, q);
}

impl Double {
    /// The number in thousandths, as an integer.
    pub fn milli(self) -> (r: i64)
        ensures
            r == milli(self),
    {
        if self.is_nan() {
            return 0;
        }
        let m: u64 = self.bits % SIGN;
        let one: Natural = Natural::from_u64(1);
        let two: Natural = Natural::from_u64(2);
        let thousand: Natural = Natural::from_u64(1000);
        let scaled: Natural = scaled_magnitude(m, &thousand);
        let product: u64 = nearest_magnitude(&scaled, &one);
        let mut whole: Natural = scaled_magnitude(product, &two);
        whole.div_pow2(1074);
        whole.mul_add(1, 1);
        whole.div_rem(2);
        proof {
            let n = 2 * magnitude(product);
            lemma_mul_is_commutative(2, magnitude(product) as int);
            lemma_half_up(n, 1074);
            let t = n / pow2(1074) + 1;
            assert(t * 1 == t);
            assert(whole@ == t / 2);
        }
        match whole.to_u64() {
            Some(w) => {
                if self.bits >= SIGN {
                    if w > 0x8000_0000_0000_0000 {
                        i64::MIN
                    } else if w == 0x8000_0000_0000_0000 {
                        i64::MIN
                    } else {
                        -(w as i64)
                    }
                } else if w > 0x7fff_ffff_ffff_ffff {
                    i64::MAX
                } else {
                    w as i64
                }
            },
            None => if self.bits >= SIGN {
                i64::MIN
            } else {
                i64::MAX
            },
        }
    }

    /// The number of `n` thousandths.
    pub fn from_milli(n: i64) -> (r: Double)
        ensures
            r == from_milli(n as int),
    {
        let a: u64 = if n < 0 {
            (-(n as i128)) as u64
        } else {
            n as u64
        };
        let one: Natural = Natural::from_u64(1);
        let thousand: Natural = Natural::from_u64(1000);
        let mut exact: Natural = Natural::from_u64(a);
        exact.mul_pow2(1074);
        let whole: u64 = nearest_magnitude(&exact, &one);
        let num: Natural = scaled_magnitude(whole, &one);
        assert(magnitude(whole) * 1 == magnitude(whole));
        let m: u64 = nearest_magnitude(&num, &thousand);
        if n < 0 {
            Double { bits: m + SIGN }
        } else {
            Double { bits: m }
        }
    }

    /// Is neither of two positive numbers more than `limit` times the other?
    pub fn within_ratio(self, other: Double, limit: Double) -> (r: bool)
        requires
            0 < unsigned(self) <= INFINITE,
            0 < unsigned(other) <= INFINITE,
            unsigned(self) < INFINITE || unsigned(other) < INFINITE,
        ensures
            r == within_ratio(self, other, limit),
    {
        let a: u64 = self.bits % SIGN;
        let b: u64 = other.bits % SIGN;
        let p: u64 = quotient_magnitude(a, b);
        let q: u64 = quotient_magnitude(b, a);
        Double { bits: p }.le(limit) && Double { bits: q }.le(limit)
    }
}

fn quotient_magnitude(a: u64, b: u64) -> (r: u64)
    requires
        0 < a <= INFINITE,
        0 < b <= INFINITE,
    ensures
        r == quotient(a, b),
        r <= INFINITE,
{
    if a == INFINITE {
        return INFINITE;
    }
    if b == INFINITE {
        return 0;
    }
    let one: Natural = Natural::from_u64(1);
    let mut num: Natural = scaled_magnitude(a, &one);
    num.mul_pow2(1074);
    let den: Natural = scaled_magnitude(b, &one);
    proof {
        assert(magnitude(a) * 1 == magnitude(a));
        assert(magnitude(b) * 1 == magnitude(b));
        lemma_ordered(0, b);
    }
    nearest_magnitude(&num, &den)
}

/// `den` times the magnitude `m`.
pub fn scaled_magnitude(m: u64, den: &Natural) -> (r: Natural)
    requires
        m <= INFINITE,
    ensures
        r@ == magnitude(m) * den@,
{
    let e: u64 = m / FRACTION;
    let mut r: Natural = den.copy();
    if e == 0 {
        r.mul_add(m % FRACTION, 0);
        proof {
            lemma2_to64();
            assert(significand(m) * pow2(0) == significand(m));
            lemma_mul_is_commutative(den@ as int, significand(m) as int);
        }
    } else {
        r.mul_add(m % FRACTION + FRACTION, 0);
        r.mul_pow2(e - 1);
        proof {
            let s = significand(m) as int;
            let p = pow2(scale(m)) as int;
            let d = den@ as int;
            assert((d * s) * p == (s * p) * d) by (nonlinear_arith);
        }
    }
    r
}

/// The magnitude pattern nearest to `num / den` quanta, ties to even.
pub fn nearest_magnitude(num: &Natural, den: &Natural) -> (m: u64)
    requires
        den@ > 0,
    ensures
        m == nearest(num@, den@),
        rounds_to(num@, den@, m),
{
    let mut lo: u64 = 0;
    let mut hi: u64 = INFINITE + 1;
    proof {
        lemma2_to64();
        assert(significand(0) == 0);
        lemma_mul_basics(pow2(scale(0)) as int);
        lemma_mul_basics(den@ as int);
    }
    while hi - lo > 1
        invariant
            lo < hi <= INFINITE + 1,
            magnitude(lo) * den@ <= num@,
            hi <= INFINITE ==> num@ < magnitude(hi) * den@,
        decreases hi - lo,
    {
        let mid: u64 = lo + (hi - lo) / 2;
        let at: Natural = scaled_magnitude(mid, den);
        if at.le(num) {
            lo = mid;
        } else {
            hi = mid;
        }
    }
    if lo == INFINITE {
        proof {
            lemma_rounds_beyond(num@, den@);
            lemma_nearest_is(num@, den@, INFINITE);
        }
        return INFINITE;
    }
    // Twice the quotient against the sum of its two neighbours.
    let e: u64 = lo / FRACTION;
    let mut middle: Natural = den.copy();
    let mut twice: Natural = num.copy();
    twice.mul_add(2, 0);
    let s: u64 = if e == 0 {
        lo % FRACTION
    } else {
        lo % FRACTION + FRACTION
    };
    middle.mul_add(2 * s + 1, 0);
    middle.mul_pow2(if e == 0 { 0 } else { e - 1 });
    proof {
        let p = pow2(scale(lo)) as int;
        let d = den@ as int;
        let si = s as int;
        assert((d * (2 * si + 1)) * p == (2 * (si * p) + p) * d) by (nonlinear_arith);
        assert(middle@ == (2 * magnitude(lo) + pow2(scale(lo))) * den@);
        lemma_rounds_between(num@, den@, lo);
    }
    let below: bool = twice.le(&middle);
    let above: bool = middle.le(&twice);
    let m: u64 = if below && (!above || lo % 2 == 0) {
        lo
    } else {
        lo + 1
    };
    proof {
        lemma_nearest_is(num@, den@, m);
    }
    m
}

/// The sum of one and a number below one in size, rounded.
pub open spec fn one_plus(x: Double) -> u64 {
    nearest((pow2(1074) + quanta(x)) as nat, 1)
}

/// 2^-53 in quanta: the last place of a number just below one.
spec fn unit() -> nat {
    pow2(1021)
}

/// The pattern of one half.
const HALF: u64 = 0x3fe0_0000_0000_0000;

/// Rounding a number that lies between two neighbours.
proof fn lemma_round_step(num: nat, m: u64)
    requires
        m < INFINITE,
        magnitude(m) <= num < magnitude((m + 1) as u64),
    ensures
        nearest(num, 1) == (if 2 * (num - magnitude(m)) < pow2(scale(m)) {
            m
        } else if 2 * (num - magnitude(m)) > pow2(scale(m)) {
            (m + 1) as u64
        } else {
            (m + m % 2) as u64
        }),
{
    let r: u64 = if 2 * (num - magnitude(m)) < pow2(scale(m)) {
        m
    } else if 2 * (num - magnitude(m)) > pow2(scale(m)) {
        (m + 1) as u64
    } else {
        (m + m % 2) as u64
    };
    assert(magnitude(m) * 1 == magnitude(m));
    assert(magnitude((m + 1) as u64) * 1 == magnitude((m + 1) as u64));
    lemma_rounds_between(num, 1, m);
    assert((2 * magnitude(m) + pow2(scale(m))) * 1 == 2 * magnitude(m) + pow2(scale(m)));
    lemma_nearest_is(num, 1, r);
}

/// A short multiple of a power of two is a magnitude.
proof fn lemma_representable(v: nat, k: nat) -> (m: u64)
    requires
        v < 2 * FRACTION,
        k <= 2045,
    ensures
        m < INFINITE,
        magnitude(m) == v * pow2(k),
    decreases k,
{
    lemma2_to64();
    if v >= FRACTION {
        let m = ((k + 1) * FRACTION + (v - FRACTION)) as u64;
        assert(m / FRACTION == k + 1 && m % FRACTION == v - FRACTION) by {
            vstd::arithmetic::div_mod::lemma_fundamental_div_mod_converse(
                m as int,
                FRACTION as int,
                (k + 1) as int,
                v - FRACTION,
            );
        }
        m
    } else if k == 0 {
        let m = v as u64;
        assert(m / FRACTION == 0 && m % FRACTION == m);
        m
    } else {
        lemma_pow2_unfold(k);
        let p = pow2((k - 1) as nat) as int;
        assert((2 * v) * p == v * (2 * p)) by (nonlinear_arith);
        lemma_representable(2 * v, (k - 1) as nat)
    }
}

/// A number that is itself a magnitude rounds to itself.
proof fn lemma_exact(num: nat, m: u64)
    requires
        m < INFINITE,
        magnitude(m) == num,
    ensures
        nearest(num, 1) == m,
{
    assert forall|o: u64| o <= INFINITE && o != m implies #[trigger] gap(num, 1, o) > gap(
        num,
        1,
        m,
    ) by {
        if o < m {
            lemma_ordered(o, m);
        } else {
            lemma_ordered(m, o);
        }
    }
    lemma_nearest_is(num, 1, m);
}

/// The patterns from one half up to two, by their count of units.
proof fn lemma_units(t: int)
    requires
        0 <= t <= FRACTION,
    ensures
        magnitude((HALF + t) as u64) == (FRACTION + t) * unit(),
        magnitude((ONE + t) as u64) == 2 * (FRACTION + t) * unit(),
        t < FRACTION ==> scale((HALF + t) as u64) == 1021 && scale((ONE + t) as u64) == 1022,
{
    lemma_pow2_unfold(1022);
    lemma_pow2_unfold(1023);
    let u = unit() as int;
    let h = (HALF + t) as u64;
    let o = (ONE + t) as u64;
    assert((FRACTION + t) * (2 * u) == 2 * (FRACTION + t) * u) by (nonlinear_arith);
    if t < FRACTION {
        assert(h / FRACTION == 1022 && h % FRACTION == t);
        assert(o / FRACTION == 1023 && o % FRACTION == t);
    } else {
        assert(h / FRACTION == 1023 && h % FRACTION == 0);
        assert(o / FRACTION == 1024 && o % FRACTION == 0);
        assert(FRACTION * (2 * u) == (FRACTION + t) * u) by (nonlinear_arith)
            requires
                t == FRACTION,
        ;
        assert(FRACTION * (4 * u) == 2 * (FRACTION + t) * u) by (nonlinear_arith)
            requires
                t == FRACTION,
        ;
    }
}

/// One is 2^1074 quanta.
pub proof fn lemma_one()
    ensures
        magnitude(ONE) == pow2(1074),
{
    lemma_pow2_adds(52, 1022);
    lemma2_to64();
    lemma2_to64_rest();
    assert(pow2(52) == FRACTION);
    assert(ONE / FRACTION == 1023 && ONE % FRACTION == 0);
}

/// Dividing by a power of two, for a significand.
proof fn lemma_shifted(s: nat, d: nat, k: nat)
    requires
        d > 0,
    ensures
        s * pow2(k) == (s / d) * (d * pow2(k)) + (s % d) * pow2(k),
{
    vstd::arithmetic::div_mod::lemma_fundamental_div_mod(s as int, d as int);
    let q = (s / d) as int;
    let r = (s % d) as int;
    let p = pow2(k) as int;
    let di = d as int;
    assert((di * q + r) * p == q * (di * p) + r * p) by (nonlinear_arith);
}

/// The facts shared by both signs of a number `m` below one: its significand, how far its last
/// place lies below `unit()`, and how it divides.
proof fn lemma_below_one(m: u64)
    requires
        m < ONE,
    ensures
        scale(m) <= 1021,
        significand(m) < 2 * FRACTION,
        unit() == pow2(scale(m)) * pow2((1021 - scale(m)) as nat),
        pow2(1074) == 2 * FRACTION * unit(),
        magnitude(m) < 2 * FRACTION * unit(),
        m < HALF ==> magnitude(m) < FRACTION * unit(),
        m >= HALF ==> scale(m) == 1021 && significand(m) >= FRACTION,
{
    lemma_pow2_adds(scale(m), (1021 - scale(m)) as nat);
    lemma_pow2_adds(53, 1021);
    lemma2_to64();
    lemma_units(0);
    assert(pow2(53) == 2 * FRACTION) by {
        lemma2_to64_rest();
        lemma_pow2_unfold(53);
    }
    lemma_ordered(m, ONE);
    if m < HALF {
        lemma_ordered(m, HALF);
    }
}

proof fn lemma_one_minus(m: u64)
    requires
        m < ONE,
    ensures
        round_even(significand(m), pow2((1021 - scale(m)) as nat)) <= 2 * FRACTION,
        magnitude(nearest((pow2(1074) - magnitude(m)) as nat, 1)) == (2 * FRACTION - round_even(
            significand(m),
            pow2((1021 - scale(m)) as nat),
        )) * unit(),
{
    lemma_below_one(m);
    let s = significand(m);
    let k = scale(m);
    let sh = (1021 - k) as nat;
    let d = pow2(sh);
    let u = unit() as int;
    let p = pow2(k) as int;
    let num = (pow2(1074) - magnitude(m)) as nat;
    lemma_pow2_pos(sh);
    lemma_pow2_pos(k);
    lemma_shifted(s, d, k);
    let q = (s / d) as int;
    let r = (s % d) as int;
    let di = d as int;
    lemma_mul_is_commutative(p, di);
    assert(magnitude(m) == q * u + r * p);
    if m >= HALF {
        lemma2_to64();
        assert(d == 1);
        vstd::arithmetic::div_mod::lemma_div_basics(s as int);
        assert(q == s && r == 0);
        assert(0 * p == 0);
        let v = (2 * FRACTION - s) as nat;
        assert((2 * FRACTION) * u - s * u == v * u) by (nonlinear_arith)
            requires
                v == 2 * FRACTION - s,
        ;
        let w = lemma_representable(v, 1021);
        lemma_exact(num, w);
    } else {
        assert(0 <= r * p) by (nonlinear_arith)
            requires
                0 <= r,
                0 < p,
        ;
        assert(q < FRACTION) by (nonlinear_arith)
            requires
                q * u <= magnitude(m),
                magnitude(m) < FRACTION * u,
                u > 0,
        ;
        let whole = 2 * FRACTION - q;
        assert((2 * FRACTION) * u - q * u == whole * u) by (nonlinear_arith)
            requires
                whole == 2 * FRACTION - q,
        ;
        if r == 0 {
            assert(0 * p == 0);
            lemma_units(FRACTION - q);
            let w = (HALF + (FRACTION - q)) as u64;
            lemma_exact(num, w);
            assert(round_even(s, d) == q);
        } else {
            let t = FRACTION - q - 1;
            lemma_units(t);
            lemma_units(t + 1);
            let w = (HALF + t) as u64;
            assert((whole - 1) * u == whole * u - u) by (nonlinear_arith);
            assert(di * p - r * p == (di - r) * p) by (nonlinear_arith);
            assert(0 < (di - r) * p) by (nonlinear_arith)
                requires
                    r < di,
                    0 < p,
            ;
            assert(0 < r * p) by (nonlinear_arith)
                requires
                    0 < r,
                    0 < p,
            ;
            lemma_round_step(num, w);
            assert(num - magnitude(w) == (di - r) * p);
            assert(2 * ((di - r) * p) < di * p <==> 2 * r > di) by (nonlinear_arith)
                requires
                    0 < p,
            ;
            assert(2 * ((di - r) * p) > di * p <==> 2 * r < di) by (nonlinear_arith)
                requires
                    0 < p,
            ;
        }
    }
}

proof fn lemma_one_more(m: u64)
    requires
        m < ONE,
    ensures
        round_even(significand(m), pow2((1022 - scale(m)) as nat)) <= FRACTION,
        magnitude(nearest(pow2(1074) + magnitude(m), 1)) == 2 * (FRACTION + round_even(
            significand(m),
            pow2((1022 - scale(m)) as nat),
        )) * unit(),
{
    lemma_below_one(m);
    let s = significand(m);
    let k = scale(m);
    let sh = (1022 - k) as nat;
    let d = pow2(sh);
    let u = unit() as int;
    let p = pow2(k) as int;
    let num = pow2(1074) + magnitude(m);
    lemma_pow2_pos(sh);
    lemma_pow2_pos(k);
    lemma_pow2_adds(k, sh);
    lemma_pow2_unfold(1022);
    lemma_shifted(s, d, k);
    let q = (s / d) as int;
    let r = (s % d) as int;
    let di = d as int;
    lemma_mul_is_commutative(p, di);
    assert(magnitude(m) == q * (2 * u) + r * p);
    assert(0 <= r * p < di * p) by (nonlinear_arith)
        requires
            0 <= r < di,
            0 < p,
    ;
    assert(q < FRACTION) by (nonlinear_arith)
        requires
            q * (2 * u) <= magnitude(m),
            magnitude(m) < 2 * FRACTION * u,
            u > 0,
    ;
    let w = (ONE + q) as u64;
    lemma_units(q);
    lemma_units(q + 1);
    assert(2 * (FRACTION + q) * u == 2 * FRACTION * u + q * (2 * u)) by (nonlinear_arith);
    assert(2 * (FRACTION + (q + 1)) * u == 2 * (FRACTION + q) * u + 2 * u) by (nonlinear_arith);
    lemma_round_step(num, w);
    assert(2 * (r * p) < di * p <==> 2 * r < di) by (nonlinear_arith)
        requires
            0 < p,
    ;
    assert(2 * (r * p) > di * p <==> 2 * r > di) by (nonlinear_arith)
        requires
            0 < p,
    ;
}

/// A significand divided by 2^`sh`, rounded to the nearest integer with ties to even.
fn round_shift(s: u64, sh: u64) -> (r: u64)
    requires
        s < 2 * FRACTION,
    ensures
        r == round_even(s as nat, pow2(sh as nat)),
{
    proof {
        lemma2_to64();
        lemma2_to64_rest();
    }
    if sh > 60 {
        proof {
            lemma_pow2_strictly_increases(60, sh as nat);
            vstd::arithmetic::div_mod::lemma_basic_div(s as int, pow2(sh as nat) as int);
            vstd::arithmetic::div_mod::lemma_small_mod(s as nat, pow2(sh as nat));
        }
        return 0;
    }
    proof {
        if sh < 60 {
            lemma_pow2_strictly_increases(sh as nat, 60);
        }
        lemma_pow2_pos(sh as nat);
        vstd::bits::lemma_u64_shl_is_mul(1, sh);
    }
    let d: u64 = 1u64 << sh;
    assert(d == pow2(sh as nat));
    let q: u64 = s / d;
    let r: u64 = s % d;
    proof {
        vstd::arithmetic::div_mod::lemma_div_nonincreasing(s as int, d as int);
        vstd::arithmetic::div_mod::lemma_mod_bound(s as int, d as int);
    }
    if 2 * r < d {
        q
    } else if 2 * r > d {
        q + 1
    } else {
        q + q % 2
    }
}

/// Is the magnitude `a` below the rounded sum of one and a number of magnitude `m` below one?
///
/// Exact, on machine words alone: everything from zero to two is counted in units of 2^-53, where
/// the rounded sum is a whole number of them.
pub fn below_one_plus(a: u64, negative: bool, m: u64) -> (r: bool)
    requires
        a < INFINITE,
        m < ONE,
    ensures
        r == (magnitude(a) < magnitude(one_plus(signed(negative, m)))),
{
    let e: u64 = m / FRACTION;
    let s: u64 = if e == 0 {
        m % FRACTION
    } else {
        m % FRACTION + FRACTION
    };
    let k: u64 = if e == 0 { 0 } else { e - 1 };
    proof {
        lemma_below_one(m);
        lemma_one_minus(m);
        lemma_one_more(m);
        assert(unsigned(signed(negative, m)) == m);
        assert(is_negative(signed(negative, m)) == negative);
    }
    let sum: u64 = if negative {
        2 * FRACTION - round_shift(s, 1021 - k)
    } else {
        2 * (FRACTION + round_shift(s, 1022 - k))
    };
    let ghost u = unit() as int;
    assert(magnitude(one_plus(signed(negative, m))) == sum * u);
    proof {
        lemma_units(FRACTION as int);
        lemma_pow2_pos(1021);
        assert(sum * u <= 4 * FRACTION * u) by (nonlinear_arith)
            requires
                sum <= 4 * FRACTION,
                0 < u,
        ;
    }
    let two: u64 = ONE + FRACTION;
    if a >= two {
        proof {
            if a > two {
                lemma_ordered(two, a);
            }
        }
        return false;
    }
    let ea: u64 = a / FRACTION;
    if ea == 1023 {
        let f: u64 = 2 * (a % FRACTION + FRACTION);
        proof {
            let t = (a % FRACTION) as int;
            assert(ONE + t == a);
            lemma_units(t);
            assert(f * u < sum * u <==> f < sum) by (nonlinear_arith)
                requires
                    0 < u,
            ;
        }
        return f < sum;
    }
    let sa: u64 = if ea == 0 {
        a % FRACTION
    } else {
        a % FRACTION + FRACTION
    };
    let ka: u64 = if ea == 0 { 0 } else { ea - 1 };
    let sh: u64 = 1021 - ka;
    let f: u64 = floor_shift(sa, sh);
    proof {
        lemma_pow2_adds(ka as nat, sh as nat);
        lemma_pow2_pos(ka as nat);
        lemma_pow2_pos(sh as nat);
        lemma_shifted(sa as nat, pow2(sh as nat), ka as nat);
        let p = pow2(ka as nat) as int;
        let d = pow2(sh as nat) as int;
        lemma_mul_is_commutative(p, d);
        let rest = (sa as nat % pow2(sh as nat)) as int;
        assert(magnitude(a) == f * u + rest * p);
        assert(0 <= rest * p < d * p) by (nonlinear_arith)
            requires
                0 <= rest < d,
                0 < p,
        ;
        assert(f * u + rest * p < sum * u <==> f < sum) by (nonlinear_arith)
            requires
                0 <= rest * p < u,
                0 < u,
        ;
    }
    f < sum
}

/// A significand divided by 2^`sh`, rounded down.
fn floor_shift(s: u64, sh: u64) -> (r: u64)
    requires
        s < 2 * FRACTION,
    ensures
        r == s as nat / pow2(sh as nat),
{
    proof {
        lemma2_to64();
        lemma2_to64_rest();
    }
    if sh > 60 {
        proof {
            lemma_pow2_strictly_increases(60, sh as nat);
            vstd::arithmetic::div_mod::lemma_basic_div(s as int, pow2(sh as nat) as int);
        }
        return 0;
    }
    proof {
        if sh < 60 {
            lemma_pow2_strictly_increases(sh as nat, 60);
        }
        lemma_pow2_pos(sh as nat);
        vstd::bits::lemma_u64_shl_is_mul(1, sh);
    }
    let d: u64 = 1u64 << sh;
    assert(d == pow2(sh as nat));
    s / d
}

/// A double below a rounded sum is below the sum itself.
pub proof fn lemma_below_rounded(a: u64, num: nat)
    requires
        a < INFINITE,
        magnitude(a) < magnitude(nearest(num, 1)),
    ensures
        magnitude(a) < num,
{
    lemma_nearest_rounds(num, 1);
    let n = nearest(num, 1);
    if magnitude(a) >= num {
        // Then `a` is at least as near as what was chosen, from the same side.
        assert(magnitude(a) * 1 == magnitude(a));
        assert(magnitude(n) * 1 == magnitude(n));
        assert(gap(num, 1, a) < gap(num, 1, n));
        assert(gap(num, 1, a) > gap(num, 1, n) || gap(num, 1, a) == gap(num, 1, n));
    }
}

/// Thousandths of a 64-bit integer are finite.
pub proof fn lemma_from_milli_finite(n: int)
    requires
        i64::MIN <= n <= i64::MAX,
    ensures
        is_finite(from_milli(n)),
{
    let top: u64 = 0x43f0_0000_0000_0000;
    lemma2_to64();
    lemma2_to64_rest();
    lemma_pow2_adds(64, 1074);
    lemma_pow2_adds(52, 1086);
    lemma_pow2_pos(1074);
    lemma_pow2_pos(2045);
    assert(top / FRACTION == 1087 && top % FRACTION == 0);
    assert(magnitude(top) == pow2(1138));
    let num = absolute(n) * pow2(1074);
    let a = absolute(n) as int;
    let one = pow2(1074) as int;
    assert(a * one <= 0x1_0000_0000_0000_0000 * one) by (nonlinear_arith)
        requires
            a <= 0x1_0000_0000_0000_0000,
            one > 0,
    ;
    lemma_mul_basics(magnitude(top) as int);
    lemma_nearest_finite(num, 1, top, 0);
    let whole = nearest(num, 1);
    lemma_nearest_finite(magnitude(whole), 1000, whole, 0);
    let m = nearest(magnitude(whole), 1000);
    assert(unsigned(signed(n < 0, m)) == m);
}

/// A number above zero is positive and has a magnitude.
pub proof fn lemma_positive(x: Double)
    requires
        less(zero(), x),
    ensures
        !is_negative(x),
        0 < unsigned(x) <= INFINITE,
{
    lemma_zero();
    assert(unsigned(zero()) == 0);
}

/// A number times a positive finite one of magnitude `p`.
pub open spec fn times(x: Double, p: u64) -> Double {
    if is_finite(x) {
        signed(is_negative(x), nearest(magnitude(unsigned(x)) * magnitude(p), pow2(1074)))
    } else {
        x
    }
}

/// The nearest integer to a number that is not negative, halves up, held to the range from one to
/// the largest 32-bit number. One for NaN and below zero.
pub open spec fn count(x: Double) -> int {
    if is_nan(x) || is_negative(x) {
        1
    } else {
        let whole = (2 * magnitude(unsigned(x)) + pow2(1074)) / pow2(1075);
        if whole < 1 {
            1
        } else if whole > u32::MAX {
            u32::MAX as int
        } else {
            whole as int
        }
    }
}

impl Double {
    /// The number times a positive finite one of magnitude `p`.
    pub fn times(self, p: u64) -> (r: Double)
        requires
            p < INFINITE,
        ensures
            r == times(self, p),
    {
        if !self.is_finite() {
            return self;
        }
        let m: u64 = self.bits % SIGN;
        let one: Natural = Natural::from_u64(1);
        let factor: Natural = scaled_magnitude(p, &one);
        let num: Natural = scaled_magnitude(m, &factor);
        let mut den: Natural = Natural::from_u64(1);
        den.mul_pow2(1074);
        proof {
            assert(magnitude(p) * 1 == magnitude(p));
            assert(1 * pow2(1074) == pow2(1074));
            lemma_pow2_pos(1074);
        }
        let n: u64 = nearest_magnitude(&num, &den);
        if self.bits >= SIGN {
            Double { bits: n + SIGN }
        } else {
            Double { bits: n }
        }
    }

    /// The nearest integer, halves up, from one to the largest 32-bit number.
    pub fn count(self) -> (r: u32)
        ensures
            r == count(self),
    {
        if self.is_nan() || self.bits >= SIGN {
            return 1;
        }
        let two: Natural = Natural::from_u64(2);
        let mut whole: Natural = scaled_magnitude(self.bits % SIGN, &two);
        whole.div_pow2(1074);
        whole.mul_add(1, 1);
        whole.div_rem(2);
        proof {
            let m = unsigned(self);
            let n = 2 * magnitude(m);
            lemma_mul_is_commutative(2, magnitude(m) as int);
            lemma_half_up(n, 1074);
            let t = n / pow2(1074) + 1;
            assert(t * 1 == t);
            assert(whole@ == t / 2);
        }
        match whole.to_u64() {
            Some(w) => if w < 1 {
                1
            } else if w > 0xffff_ffff {
                0xffff_ffff
            } else {
                w as u32
            },
            None => 0xffff_ffff,
        }
    }
}

/// Rounding keeps the order.
pub proof fn lemma_nearest_monotone(a: nat, b: nat, den: nat)
    requires
        den > 0,
        a <= b,
    ensures
        nearest(a, den) <= nearest(b, den),
{
    lemma_nearest_rounds(a, den);
    lemma_nearest_rounds(b, den);
    let m = nearest(a, den);
    let n = nearest(b, den);
    if n < m {
        lemma_ordered(n, m);
        lemma_mul_strict_inequality(magnitude(n) as int, magnitude(m) as int, den as int);
        assert(gap(a, den, n) >= gap(a, den, m));
        assert(gap(b, den, m) >= gap(b, den, n));
        assert(a == b);
    }
}

/// Of two positive numbers, the larger one's count is no smaller.
pub proof fn lemma_count_monotone(x: Double, p: u64, q: u64)
    requires
        p <= q < INFINITE,
    ensures
        count(times(x, p)) <= count(times(x, q)),
{
    if is_finite(x) {
        let m = unsigned(x);
        if p < q {
            lemma_ordered(p, q);
        }
        lemma_pow2_pos(1074);
        lemma_pow2_pos(1075);
        lemma_mul_inequality(magnitude(p) as int, magnitude(q) as int, magnitude(m) as int);
        lemma_mul_is_commutative(magnitude(p) as int, magnitude(m) as int);
        lemma_mul_is_commutative(magnitude(q) as int, magnitude(m) as int);
        let a = magnitude(m) * magnitude(p);
        let b = magnitude(m) * magnitude(q);
        lemma_nearest_monotone(a, b, pow2(1074));
        lemma_nearest_rounds(a, pow2(1074));
        lemma_nearest_rounds(b, pow2(1074));
        let r = nearest(a, pow2(1074));
        let t = nearest(b, pow2(1074));
        assert(unsigned(signed(is_negative(x), r)) == r);
        assert(unsigned(signed(is_negative(x), t)) == t);
        if r < t {
            lemma_ordered(r, t);
        }
        vstd::arithmetic::div_mod::lemma_div_is_ordered(
            (2 * magnitude(r) + pow2(1074)) as int,
            (2 * magnitude(t) + pow2(1074)) as int,
            pow2(1075) as int,
        );
    }
}

/// A quotient is within twice, and within four times, exactly where it is in exact arithmetic, but for
/// the last part in a thousand that rounding may decide.
pub proof fn law_ratio_limits(a: u64, b: u64)
    requires
        a < INFINITE,
        b < INFINITE,
        magnitude(b) > 0,
    ensures
        ({
            let q = magnitude(quotient(a, b));
            let v = magnitude(a);
            let o = magnitude(b);
            &&& v <= 2 * o ==> q <= magnitude(0x4000_0000_0000_0000)
            &&& v <= 4 * o ==> q <= magnitude(0x4010_0000_0000_0000)
            &&& 1024 * v >= 2049 * o ==> q > magnitude(0x4000_0000_0000_0000)
            &&& 1024 * v >= 4097 * o ==> q > magnitude(0x4010_0000_0000_0000)
            &&& quotient(a, b) <= INFINITE
        }),
{
    let v = magnitude(a);
    let o = magnitude(b);
    let num = v * pow2(1074);
    lemma_nearest_rounds(num, o);
    lemma2_to64();
    lemma2_to64_rest();
    lemma_two_point(0x4000_0000_0000_0000, 0x400, 0x10_0000_0000_0000, 52, 1023, 1, 1075);
    lemma_two_point(0x4010_0000_0000_0000, 0x401, 0x10_0000_0000_0000, 52, 1024, 1, 1076);
    lemma_two_point(0x4000_0200_0000_0000, 0x400, 0x10_0200_0000_0000, 41, 1023, 2049, 1064);
    lemma_two_point(0x4010_0100_0000_0000, 0x401, 0x10_0100_0000_0000, 40, 1024, 4097, 1064);
    lemma_ordered(0x4000_0000_0000_0000, 0x4000_0200_0000_0000);
    lemma_ordered(0x4010_0000_0000_0000, 0x4010_0100_0000_0000);
    lemma_pow2_adds(1074, 1);
    lemma_pow2_adds(1074, 2);
    lemma_pow2_adds(1064, 10);
    assert(pow2(1075) == 2 * pow2(1074));
    assert(pow2(1076) == 4 * pow2(1074));
    assert(pow2(1074) == 1024 * pow2(1064));
    if v <= 2 * o {
        let top = o * pow2(1075);
        assert(num <= top) by (nonlinear_arith)
            requires
                v <= 2 * o,
                num == v * pow2(1074),
                top == o * pow2(1075),
                pow2(1075) == 2 * pow2(1074),
        ;
        lemma_quotient_at(top, o, 0x4000_0000_0000_0000);
        lemma_nearest_monotone(num, top, o);
        lemma_not_above(quotient(a, b), 0x4000_0000_0000_0000);
    }
    if v <= 4 * o {
        let top = o * pow2(1076);
        assert(num <= top) by (nonlinear_arith)
            requires
                v <= 4 * o,
                num == v * pow2(1074),
                top == o * pow2(1076),
                pow2(1076) == 4 * pow2(1074),
        ;
        lemma_quotient_at(top, o, 0x4010_0000_0000_0000);
        lemma_nearest_monotone(num, top, o);
        lemma_not_above(quotient(a, b), 0x4010_0000_0000_0000);
    }
    if 1024 * v >= 2049 * o {
        let low = o * (2049 * pow2(1064));
        assert(low <= num) by (nonlinear_arith)
            requires
                1024 * v >= 2049 * o,
                num == v * pow2(1074),
                low == o * (2049 * pow2(1064)),
                pow2(1074) == 1024 * pow2(1064),
        ;
        lemma_quotient_at(low, o, 0x4000_0200_0000_0000);
        lemma_nearest_monotone(low, num, o);
        lemma_not_above(0x4000_0200_0000_0000, quotient(a, b));
    }
    if 1024 * v >= 4097 * o {
        let low = o * (4097 * pow2(1064));
        assert(low <= num) by (nonlinear_arith)
            requires
                1024 * v >= 4097 * o,
                num == v * pow2(1074),
                low == o * (4097 * pow2(1064)),
                pow2(1074) == 1024 * pow2(1064),
        ;
        lemma_quotient_at(low, o, 0x4010_0100_0000_0000);
        lemma_nearest_monotone(low, num, o);
        lemma_not_above(0x4010_0100_0000_0000, quotient(a, b));
    }
}

proof fn lemma_not_above(a: u64, b: u64)
    requires
        a <= b <= INFINITE,
    ensures
        magnitude(a) <= magnitude(b),
{
    if a < b {
        lemma_ordered(a, b);
    }
}

/// A quotient that is exact is itself.
proof fn lemma_quotient_at(num: nat, den: nat, m: u64)
    requires
        den > 0,
        m < INFINITE,
        num == den * magnitude(m),
        m % 2 == 0,
    ensures
        nearest(num, den) == m,
{
    assert(magnitude(m) * den == num) by (nonlinear_arith)
        requires
            num == den * magnitude(m),
    ;
    assert(gap(num, den, m) == 0);
    lemma_nearest_is(num, den, m);
}

/// The size of a pattern, from its exponent and its significand as a number times a power of two.
proof fn lemma_two_point(m: u64, e: u64, sig: nat, k: nat, s: nat, odd: nat, p: nat)
    requires
        m / FRACTION == e,
        e == s + 1,
        sig == m % FRACTION + FRACTION,
        k <= 60,
        sig == odd * pow2(k),
        k + s == p,
    ensures
        magnitude(m) == odd * pow2(p),
{
    lemma_pow2_adds(k, s);
    assert(sig * pow2(s) == odd * (pow2(k) * pow2(s))) by (nonlinear_arith)
        requires
            sig == odd * pow2(k),
    ;
}

/// Turning the sign turns the number, and twice is not at all.
pub proof fn law_negation_turns_the_sign(x: Double)
    ensures
        quanta(negated(x)) == -quanta(x),
        negated(negated(x)) == x,
        is_finite(negated(x)) == is_finite(x),
{
}

/// A whole number is that many counted, and a thousand times as many in thousandths.
pub proof fn law_whole_numbers_are_counted(x: Double, k: nat)
    requires
        is_finite(x),
        !is_negative(x),
        quanta(x) == k * pow2(1074),
        k <= 0xffff_ffff,
    ensures
        milli(x) == 1000 * k,
        milli(negated(x)) == -1000 * k,
        count(x) == (if k == 0 {
            1
        } else {
            k as int
        }),
{
    let p = pow2(1074);
    lemma2_to64();
    lemma_pow2_pos(1074);
    lemma_pow2_unfold(1075);
    let m = lemma_representable(1000 * k, 1074);
    assert((k * p) * 1000 == (1000 * k) * p) by (nonlinear_arith);
    lemma_exact(magnitude(unsigned(x)) * 1000, m);
    lemma_whole(1000 * k, p);
    lemma_whole(k, p);
}

proof fn lemma_whole(k: nat, p: nat)
    requires
        p > 0,
    ensures
        (2 * (k * p) + p) / (2 * p) == k,
{
    assert(2 * (k * p) + p == k * (2 * p) + p) by (nonlinear_arith);
    vstd::arithmetic::div_mod::lemma_fundamental_div_mod_converse(
        (2 * (k * p) + p) as int,
        (2 * p) as int,
        k as int,
        p as int,
    );
}

/// Half of a number, twice, is the number, but for those so small that half of it has no pattern of
/// its own.
pub proof fn law_two_halves_make_the_number(x: Double)
    requires
        is_finite(x),
        unsigned(x) >= 2 * FRACTION,
    ensures
        2 * quanta(halved(x)) == quanta(x),
{
    let u = unsigned(x);
    let h = (u - FRACTION) as u64;
    assert(h / FRACTION == u / FRACTION - 1 && h % FRACTION == u % FRACTION) by {
        vstd::arithmetic::div_mod::lemma_fundamental_div_mod(u as int, FRACTION as int);
        vstd::arithmetic::div_mod::lemma_fundamental_div_mod_converse(
            h as int,
            FRACTION as int,
            u / FRACTION - 1,
            (u % FRACTION) as int,
        );
    }
    lemma_pow2_unfold(scale(u));
    let s = significand(u);
    let q = pow2(scale(h));
    assert(s * (2 * q) == 2 * (s * q)) by (nonlinear_arith);
    lemma_half_is(magnitude(u), h);
}

proof fn lemma_half_is(num: nat, h: u64)
    requires
        h < INFINITE,
        num == 2 * magnitude(h),
    ensures
        nearest(num, 2) == h,
{
    assert forall|o: u64| o <= INFINITE && o != h implies #[trigger] gap(num, 2, o) > gap(
        num,
        2,
        h,
    ) by {
        if o < h {
            lemma_ordered(o, h);
        } else {
            lemma_ordered(h, o);
        }
    }
    lemma_nearest_is(num, 2, h);
}

} // verus!
