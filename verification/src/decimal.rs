//! Doubles as decimal text: reading a number, and writing one with a fixed number of places.
use crate::double;
use crate::double::Double;
use crate::double::{INFINITE, QUIET_NAN, SIGN};
use crate::natural::Natural;
use crate::text;
use vstd::arithmetic::mul::*;
use vstd::arithmetic::power::*;
use vstd::arithmetic::power2::*;
use vstd::prelude::*;
use vstd::slice::*;

verus! {

pub open spec fn is_digit(c: char) -> bool {
    '0' <= c <= '9'
}

/// The value of a digit.
pub open spec fn digit(c: char) -> nat {
    (c as int - '0' as int) as nat
}

/// How many digits `s` begins with.
pub open spec fn digit_run(s: Seq<char>) -> int
    decreases s.len(),
{
    if s.len() == 0 || !is_digit(s[0]) {
        0
    } else {
        1 + digit_run(s.skip(1))
    }
}

/// The number that a run of digits stands for.
pub open spec fn digits_value(s: Seq<char>) -> nat
    decreases s.len(),
{
    if s.len() == 0 {
        0
    } else {
        digits_value(s.drop_last()) * 10 + digit(s.last())
    }
}

/// An unsigned decimal literal: digits with an optional point among or around them, and an
/// optional exponent. The literal stands for `mantissa` times ten to the `exponent`.
pub struct Literal {
    pub mantissa: nat,
    pub exponent: int,
}

/// The exponent part of a literal: nothing, or `e`, an optional sign and digits.
pub open spec fn exponent_part(s: Seq<char>) -> Option<int> {
    if s.len() == 0 {
        Some(0)
    } else if s[0] == 'e' || s[0] == 'E' {
        let x = s.skip(1);
        let has_sign = x.len() > 0 && (x[0] == '-' || x[0] == '+');
        let y = if has_sign {
            x.skip(1)
        } else {
            x
        };
        if y.len() > 0 && digit_run(y) == y.len() {
            Some(
                if has_sign && x[0] == '-' {
                    -(digits_value(y) as int)
                } else {
                    digits_value(y) as int
                },
            )
        } else {
            None
        }
    } else {
        None
    }
}

/// `s` read as an unsigned decimal literal.
pub open spec fn literal(s: Seq<char>) -> Option<Literal> {
    let a = digit_run(s);
    let dotted = a < s.len() && s[a] == '.';
    let after = if dotted {
        s.skip(a + 1)
    } else {
        s.skip(a)
    };
    let b = if dotted {
        digit_run(after)
    } else {
        0
    };
    match exponent_part(after.skip(b)) {
        Some(e) if a + b > 0 => Some(
            Literal { mantissa: digits_value(s.take(a) + after.take(b)), exponent: e - b },
        ),
        _ => None,
    }
}

/// The magnitude of the double nearest to a literal.
pub open spec fn literal_magnitude(l: Literal) -> u64 {
    if l.exponent >= 0 {
        double::nearest(
            (l.mantissa * pow(10, l.exponent as nat) * pow2(1074)) as nat,
            1,
        )
    } else {
        double::nearest(l.mantissa * pow2(1074), pow(10, (-l.exponent) as nat) as nat)
    }
}

/// An ASCII letter in lower case; any other character as it is.
pub open spec fn lower(c: char) -> char {
    if 'A' <= c <= 'Z' {
        (c as int + 32) as char
    } else {
        c
    }
}

/// Is `s` the word `w`, letter case aside?
pub open spec fn is_word(s: Seq<char>, w: Seq<char>) -> bool {
    s.len() == w.len() && forall|i: int| 0 <= i < s.len() ==> lower(#[trigger] s[i]) == w[i]
}

/// `s` read as a double: an optional sign, then a literal, `inf`, `infinity` or `nan`.
pub open spec fn parsed(s: Seq<char>) -> Option<Double> {
    let has_sign = s.len() > 0 && (s[0] == '-' || s[0] == '+');
    let negative = has_sign && s[0] == '-';
    let body = if has_sign {
        s.skip(1)
    } else {
        s
    };
    if is_word(body, "inf"@) || is_word(body, "infinity"@) {
        Some(double::signed(negative, INFINITE))
    } else if is_word(body, "nan"@) {
        Some(double::signed(negative, QUIET_NAN))
    } else {
        match literal(body) {
            Some(l) => Some(double::signed(negative, literal_magnitude(l))),
            None => None,
        }
    }
}

proof fn lemma_digit_run(s: Seq<char>)
    ensures
        0 <= digit_run(s) <= s.len(),
        forall|i: int| 0 <= i < digit_run(s) ==> is_digit(#[trigger] s[i]),
        digit_run(s) < s.len() ==> !is_digit(s[digit_run(s)]),
    decreases s.len(),
{
    if s.len() > 0 && is_digit(s[0]) {
        let t = s.skip(1);
        lemma_digit_run(t);
        assert forall|i: int| 0 <= i < digit_run(s) implies is_digit(#[trigger] s[i]) by {
            if i > 0 {
                assert(is_digit(t[i - 1]));
            }
        }
    }
}

/// A run of digits that ends, or meets something else, is as long as it looks.
proof fn lemma_digit_run_is(s: Seq<char>, n: int)
    requires
        0 <= n <= s.len(),
        forall|i: int| 0 <= i < n ==> is_digit(#[trigger] s[i]),
        n < s.len() ==> !is_digit(s[n]),
    ensures
        digit_run(s) == n,
{
    lemma_digit_run(s);
}

proof fn lemma_digits_bound(s: Seq<char>)
    requires
        forall|i: int| 0 <= i < s.len() ==> is_digit(#[trigger] s[i]),
    ensures
        digits_value(s) < pow(10, s.len()),
    decreases s.len(),
{
    if s.len() == 0 {
        lemma_pow0(10);
    } else {
        lemma_digits_bound(s.drop_last());
        lemma_pow_adds(10, (s.len() - 1) as nat, 1);
        lemma_pow1(10);
        assert(is_digit(s.last()));
    }
}

proof fn lemma_ten_over_two(n: nat)
    ensures
        pow(10, n) >= pow2(3 * n),
    decreases n,
{
    if n == 0 {
        lemma_pow0(10);
        lemma2_to64();
    } else {
        lemma_ten_over_two((n - 1) as nat);
        lemma_pow_adds(10, (n - 1) as nat, 1);
        lemma_pow1(10);
        lemma_pow2_adds((3 * (n - 1)) as nat, 3);
        lemma2_to64();
    }
}

/// Far above the range, a literal is infinite.
proof fn lemma_overflow(l: Literal)
    requires
        l.mantissa > 0,
        l.exponent > 400,
    ensures
        literal_magnitude(l) == INFINITE,
{
    let e = l.exponent as nat;
    let num = (l.mantissa * pow(10, e) * pow2(1074)) as nat;
    lemma_ten_over_two(e);
    lemma_pow2_strictly_increases(1200, 3 * e);
    lemma_pow2_adds(1200, 1074);
    lemma_pow2_pos(1074);
    let t = pow(10, e);
    let q = pow2(1074) as int;
    let m = l.mantissa as int;
    assert(m * t * q >= pow2(1200) * q) by (nonlinear_arith)
        requires
            m >= 1,
            t >= pow2(1200),
            q > 0,
    ;
    lemma_infinite();
    lemma_pow2_strictly_increases(2098, 2274);
    double::lemma_rounds_beyond(num, 1);
    double::lemma_nearest_is(num, 1, INFINITE);
}

proof fn lemma_infinite()
    ensures
        double::magnitude(INFINITE) == pow2(2098),
{
    lemma_pow2_adds(52, 2046);
    lemma2_to64();
    lemma2_to64_rest();
    assert(INFINITE / double::FRACTION == 2047);
    assert(INFINITE % double::FRACTION == 0);
    assert(pow2(52) == double::FRACTION);
}

/// Far below the range, a literal is zero.
proof fn lemma_underflow(l: Literal, n: nat)
    requires
        l.mantissa < pow(10, n),
        n + l.exponent < -400,
    ensures
        literal_magnitude(l) == 0,
{
    let e = (-l.exponent) as nat;
    let den = pow(10, e) as nat;
    let num = l.mantissa * pow2(1074);
    lemma_pow_positive(10, e);
    lemma_pow_adds(10, n, (e - n) as nat);
    lemma_ten_over_two((e - n) as nat);
    lemma_pow2_strictly_increases(1200, (3 * (e - n)) as nat);
    lemma_pow2_strictly_increases(1075, 1200);
    lemma_pow2_unfold(1075);
    let t = pow(10, n);
    let b = pow(10, (e - n) as nat);
    let q = pow2(1074) as int;
    let m = l.mantissa as int;
    lemma_pow2_pos(1074);
    assert(2 * (m * q) < t * b) by (nonlinear_arith)
        requires
            0 <= m < t,
            2 * q < b,
            0 < q,
    ;
    lemma_small_rounds_down(num, den);
}

proof fn lemma_small_rounds_down(num: nat, den: nat)
    requires
        2 * num < den,
    ensures
        double::nearest(num, den) == 0,
{
    lemma2_to64();
    double::lemma_next(0);
    assert(double::significand(0) == 0);
    lemma_mul_basics(pow2(double::scale(0)) as int);
    assert(double::magnitude(0) == 0);
    lemma_mul_basics(den as int);
    double::lemma_rounds_between(num, den, 0);
    double::lemma_nearest_is(num, den, 0);
}

fn decimal_digit(c: char) -> (r: bool)
    ensures
        r == is_digit(c),
{
    '0' <= c && c <= '9'
}

fn count_digits(s: &[char]) -> (r: usize)
    ensures
        r == digit_run(s@),
        r <= s.len(),
{
    let mut i: usize = 0;
    assert(s@.skip(0) =~= s@);
    while i < s.len() && decimal_digit(s[i])
        invariant
            i <= s.len(),
            digit_run(s@) == i + digit_run(s@.skip(i as int)),
        decreases s.len() - i,
    {
        assert(s@.skip(i as int).skip(1) =~= s@.skip(i + 1));
        i = i + 1;
    }
    i
}

/// Append the digits of `s` to the number `n`.
fn append_digits(n: &mut Natural, s: &[char], Ghost(before): Ghost<Seq<char>>)
    requires
        old(n)@ == digits_value(before),
        forall|i: int| 0 <= i < s@.len() ==> is_digit(#[trigger] s@[i]),
    ensures
        final(n)@ == digits_value(before + s@),
{
    let mut i: usize = 0;
    assert(before + s@.take(0) =~= before);
    while i < s.len()
        invariant
            i <= s.len(),
            forall|j: int| 0 <= j < s@.len() ==> is_digit(#[trigger] s@[j]),
            n@ == digits_value(before + s@.take(i as int)),
        decreases s.len() - i,
    {
        let c: char = s[i];
        assert(is_digit(s@[i as int]));
        let d: u64 = (c as u64) - ('0' as u64);
        n.mul_add(10, d);
        proof {
            let t = before + s@.take(i + 1);
            assert(t.drop_last() =~= before + s@.take(i as int));
            assert(t.last() == c);
        }
        i = i + 1;
    }
    assert(s@.take(s@.len() as int) =~= s@);
}

/// A number too large to matter: beyond any length of text.
const FAR: i128 = 0x1_0000_0000_0000_0000_0000_0000;

/// The value of a run of digits, or `FAR` where it is at least that large.
fn small_value(s: &[char]) -> (r: i128)
    requires
        forall|i: int| 0 <= i < s@.len() ==> is_digit(#[trigger] s@[i]),
    ensures
        0 <= r <= FAR,
        r < FAR ==> r == digits_value(s@),
        r == FAR ==> digits_value(s@) >= FAR,
{
    let mut i: usize = 0;
    let mut v: i128 = 0;
    assert(s@.take(0) =~= Seq::empty());
    while i < s.len()
        invariant
            i <= s.len(),
            forall|j: int| 0 <= j < s@.len() ==> is_digit(#[trigger] s@[j]),
            0 <= v <= FAR,
            v < FAR ==> v == digits_value(s@.take(i as int)),
            v == FAR ==> digits_value(s@.take(i as int)) >= FAR,
        decreases s.len() - i,
    {
        let c: char = s[i];
        assert(is_digit(s@[i as int]));
        let d: i128 = (c as i128) - ('0' as i128);
        proof {
            let t = s@.take(i + 1);
            assert(t.drop_last() =~= s@.take(i as int));
            assert(t.last() == c);
        }
        let next: i128 = v * 10 + d;
        v = if v == FAR || next >= FAR {
            FAR
        } else {
            next
        };
        i = i + 1;
    }
    assert(s@.take(s@.len() as int) =~= s@);
    v
}

/// The exponent of a literal, brought to within `FAR` of zero.
fn read_exponent(s: &[char]) -> (r: Option<i128>)
    ensures
        r is Some <==> exponent_part(s@) is Some,
        r is Some ==> {
            let e = exponent_part(s@)->0;
            &&& -FAR <= r->0 <= FAR
            &&& -FAR < r->0 < FAR ==> r->0 == e
            &&& r->0 == FAR ==> e >= FAR
            &&& r->0 == -FAR ==> e <= -FAR
        },
{
    if s.len() == 0 {
        return Some(0);
    }
    if s[0] != 'e' && s[0] != 'E' {
        return None;
    }
    let x: &[char] = slice_subrange(s, 1, s.len());
    assert(x@ =~= s@.skip(1));
    let has_sign: bool = x.len() > 0 && (x[0] == '-' || x[0] == '+');
    let y: &[char] = if has_sign {
        slice_subrange(x, 1, x.len())
    } else {
        x
    };
    proof {
        if has_sign {
            assert(y@ =~= x@.skip(1));
        }
        lemma_digit_run(y@);
    }
    if y.len() == 0 || count_digits(y) != y.len() {
        return None;
    }
    let v: i128 = small_value(y);
    if has_sign && x[0] == '-' {
        Some(-v)
    } else {
        Some(v)
    }
}

/// The magnitude nearest to an unsigned literal.
fn read_literal(s: &[char]) -> (r: Option<u64>)
    ensures
        r == (match literal(s@) {
            Some(l) => Some(literal_magnitude(l)),
            None => None,
        }),
        r is Some ==> r->0 <= INFINITE,
{
    let a: usize = count_digits(s);
    let dotted: bool = a < s.len() && s[a] == '.';
    let after: &[char] = slice_subrange(
        s,
        if dotted {
            a + 1
        } else {
            a
        },
        s.len(),
    );
    assert(after@ =~= if dotted {
        s@.skip(a + 1)
    } else {
        s@.skip(a as int)
    });
    let b: usize = if dotted {
        count_digits(after)
    } else {
        0
    };
    let tail: &[char] = slice_subrange(after, b, after.len());
    assert(tail@ =~= after@.skip(b as int));
    let e: i128 = match read_exponent(tail) {
        Some(e) => e,
        None => {
            return None;
        },
    };
    if a == 0 && b == 0 {
        return None;
    }
    let whole: &[char] = slice_subrange(s, 0, a);
    let fraction: &[char] = slice_subrange(after, 0, b);
    let ghost l = literal(s@)->0;
    proof {
        assert(whole@ =~= s@.take(a as int));
        assert(fraction@ =~= after@.take(b as int));
        lemma_digit_run(s@);
        lemma_digit_run(after@);
        assert forall|i: int| 0 <= i < whole@.len() implies is_digit(#[trigger] whole@[i]) by {
            assert(is_digit(s@[i]));
        }
        assert forall|i: int| 0 <= i < fraction@.len() implies is_digit(
            #[trigger] fraction@[i],
        ) by {
            assert(is_digit(after@[i]));
        }
    }
    let mut d: Natural = Natural::from_u64(0);
    append_digits(&mut d, whole, Ghost(Seq::empty()));
    assert(Seq::<char>::empty() + whole@ =~= whole@);
    append_digits(&mut d, fraction, Ghost(whole@));
    proof {
        let all = whole@ + fraction@;
        assert(d@ == l.mantissa);
        assert forall|i: int| 0 <= i < all.len() implies is_digit(#[trigger] all[i]) by {
            if i < a {
                assert(is_digit(whole@[i]));
            } else {
                assert(is_digit(fraction@[i - a]));
            }
        }
        lemma_digits_bound(all);
    }
    if d.is_zero() {
        proof {
            lemma_zero_literal(l);
        }
        return Some(0);
    }
    let exponent: i128 = e - (b as i128);
    if exponent > 400 {
        proof {
            lemma_overflow(l);
        }
        return Some(INFINITE);
    }
    if (a as i128) + (b as i128) + exponent < -400 {
        proof {
            lemma_underflow(l, (a + b) as nat);
        }
        return Some(0);
    }
    assert(exponent == l.exponent);
    let one: Natural = Natural::from_u64(1);
    if exponent >= 0 {
        d.mul_pow10(exponent as u128);
        d.mul_pow2(1074);
        Some(double::nearest_magnitude(&d, &one))
    } else {
        d.mul_pow2(1074);
        let mut den: Natural = one;
        den.mul_pow10((-exponent) as u128);
        proof {
            lemma_pow_positive(10, (-exponent) as nat);
            lemma_mul_basics(pow(10, (-exponent) as nat));
        }
        Some(double::nearest_magnitude(&d, &den))
    }
}

proof fn lemma_zero_literal(l: Literal)
    requires
        l.mantissa == 0,
    ensures
        literal_magnitude(l) == 0,
{
    if l.exponent >= 0 {
        let t = pow(10, l.exponent as nat);
        assert(0 * t == 0);
        lemma_mul_basics(pow2(1074) as int);
        lemma_small_rounds_down(0, 1);
    } else {
        lemma_pow_positive(10, (-l.exponent) as nat);
        lemma_mul_basics(pow2(1074) as int);
        lemma_small_rounds_down(0, pow(10, (-l.exponent) as nat) as nat);
    }
}

/// A run of digits as a 32-bit number; none where there are no digits, something else, or too much.
pub fn parse_u32(s: &[char]) -> (r: Option<u32>)
    ensures
        r is Some <==> s@.len() > 0 && digit_run(s@) == s@.len() && digits_value(s@) <= u32::MAX,
        r is Some ==> r->0 == digits_value(s@),
{
    if s.len() == 0 || count_digits(s) != s.len() {
        return None;
    }
    proof {
        lemma_digit_run(s@);
    }
    let v: i128 = small_value(s);
    if v > 0xffff_ffff {
        return None;
    }
    Some(v as u32)
}

/// Digits with an optional plus sign, standing for a 64-bit number.
pub open spec fn unsigned_value(s: Seq<char>) -> Option<nat> {
    let d = if s.len() > 0 && s[0] == '+' {
        s.skip(1)
    } else {
        s
    };
    if d.len() > 0 && digit_run(d) == d.len() && digits_value(d) <= u64::MAX {
        Some(digits_value(d))
    } else {
        None
    }
}

/// Read a 64-bit number.
pub fn parse_u64(s: &[char]) -> (r: Option<u64>)
    ensures
        match r {
            Some(v) => unsigned_value(s@) == Some(v as nat),
            None => unsigned_value(s@) is None,
        },
{
    let d: &[char] = if s.len() > 0 && s[0] == '+' {
        slice_subrange(s, 1, s.len())
    } else {
        s
    };
    proof {
        if s.len() > 0 && s@[0] == '+' {
            assert(d@ =~= s@.skip(1));
        }
        lemma_digit_run(d@);
    }
    if d.len() == 0 || count_digits(d) != d.len() {
        return None;
    }
    let v: i128 = small_value(d);
    if v > 0xffff_ffff_ffff_ffff {
        return None;
    }
    Some(v as u64)
}

fn lower_is(c: char, w: char) -> (r: bool)
    ensures
        r == (lower(c) == w),
{
    if 'A' <= c && c <= 'Z' {
        'a' <= w && w <= 'z' && (w as u32) - ('a' as u32) == (c as u32) - ('A' as u32)
    } else {
        c == w
    }
}

fn word_is(s: &[char], w: &str) -> (r: bool)
    ensures
        r == is_word(s@, w@),
{
    let v: Vec<char> = text::chars_of(w);
    if s.len() != v.len() {
        return false;
    }
    let mut i: usize = 0;
    while i < s.len()
        invariant
            s.len() == v.len(),
            v@ == w@,
            i <= s.len(),
            forall|j: int| 0 <= j < i ==> lower(#[trigger] s@[j]) == w@[j],
        decreases s.len() - i,
    {
        if !lower_is(s[i], v[i]) {
            assert(lower(s@[i as int]) != w@[i as int]);
            return false;
        }
        i = i + 1;
    }
    true
}

/// Read a number. Accepts an optional sign followed by digits with an optional point and exponent,
/// or by `inf`, `infinity` or `nan` in any letter case; the result is the nearest double.
pub fn parse(s: &[char]) -> (r: Option<Double>)
    ensures
        r == parsed(s@),
{
    let has_sign: bool = s.len() > 0 && (s[0] == '-' || s[0] == '+');
    let negative: bool = has_sign && s[0] == '-';
    let body: &[char] = if has_sign {
        slice_subrange(s, 1, s.len())
    } else {
        s
    };
    proof {
        if has_sign {
            assert(body@ =~= s@.skip(1));
        }
    }
    let m: u64 = if word_is(body, "inf") || word_is(body, "infinity") {
        INFINITE
    } else if word_is(body, "nan") {
        QUIET_NAN
    } else {
        match read_literal(body) {
            Some(m) => m,
            None => {
                return None;
            },
        }
    };
    Some(Double { bits: if negative { m + SIGN } else { m } })
}

/// The digit of value `n`.
pub open spec fn digit_char(n: nat) -> char {
    ('0' as int + n) as char
}

/// A number written in decimal, without leading zeros.
pub open spec fn digits(n: nat) -> Seq<char>
    decreases n,
{
    if n < 10 {
        seq![digit_char(n)]
    } else {
        digits(n / 10).push(digit_char(n % 10))
    }
}

/// The last `k` decimal digits of a number.
pub open spec fn last_digits(n: nat, k: nat) -> Seq<char>
    decreases k,
{
    if k == 0 {
        Seq::empty()
    } else {
        last_digits(n / 10, (k - 1) as nat).push(digit_char(n % 10))
    }
}

/// The number scaled by 10^`places` and rounded to an integer, ties to even.
pub open spec fn scaled(x: Double, places: nat) -> nat {
    double::round_even(
        (double::magnitude(double::unsigned(x)) * pow(10, places)) as nat,
        pow2(1074),
    )
}

/// The text of a scaled number: the whole part, and `places` digits behind a point.
pub open spec fn point_text(n: nat, places: nat) -> Seq<char> {
    let whole = digits((n / (pow(10, places) as nat)) as nat);
    if places == 0 {
        whole
    } else {
        whole + seq!['.'] + last_digits(n, places)
    }
}

/// A number written with `places` digits behind the point.
pub open spec fn fixed(x: Double, places: nat) -> Seq<char> {
    let sign = if double::is_negative(x) {
        seq!['-']
    } else {
        Seq::empty()
    };
    if double::is_nan(x) {
        "NaN"@
    } else if !double::is_finite(x) {
        sign + "inf"@
    } else {
        sign + point_text(scaled(x, places), places)
    }
}

fn char_of_digit(d: u64) -> (c: char)
    requires
        d < 10,
    ensures
        c == digit_char(d as nat),
{
    (48u8 + (d as u8)) as char
}

/// A natural number in decimal.
pub fn digits_of(mut n: Natural) -> (r: Vec<char>)
    ensures
        r@ == digits(n@),
{
    let mut out: Vec<char> = Vec::new();
    let ten: Natural = Natural::from_u64(10);
    let ghost start = n@;
    assert(digits(n@) + out@ =~= digits(start));
    while ten.le(&n)
        invariant
            ten@ == 10,
            digits(n@) + out@ == digits(start),
        decreases n@,
    {
        let ghost before = n@;
        let d: u64 = n.div_rem(10);
        let c: char = char_of_digit(d);
        proof {
            assert(n@ == before / 10 && d == before % 10);
            assert(digits(before) == digits(n@).push(c));
            assert(digits(before) + out@ =~= digits(n@) + out@.insert(0, c));
        }
        out.insert(0, c);
    }
    let d: u64 = n.div_rem(10);
    let c: char = char_of_digit(d);
    out.insert(0, c);
    assert(out@ =~= digits(start));
    out
}

/// A 64-bit number in decimal.
pub fn digits_of_u64(n: u64) -> (r: Vec<char>)
    ensures
        r@ == digits(n as nat),
{
    digits_of(Natural::from_u64(n))
}

proof fn lemma_split_digit(n: nat, i: nat)
    ensures
        (n / (pow(10, i) as nat)) / 10 == n / (pow(10, i + 1) as nat),
{
    lemma_pow_positive(10, i);
    lemma_pow_adds(10, i, 1);
    lemma_pow1(10);
    vstd::arithmetic::div_mod::lemma_div_denominator(n as int, pow(10, i), 10);
}

/// Twice a floored half tells on which side of the middle a number lies.
proof fn lemma_round_from_halves(n: nat, d: nat)
    requires
        d > 0,
    ensures
        ({
            let t = (2 * n) / d;
            round_from(t, t * d == 2 * n) == double::round_even(n, d)
        }),
{
    let t = (2 * n) / d;
    let q = n / d;
    let r = n % d;
    vstd::arithmetic::div_mod::lemma_fundamental_div_mod(n as int, d as int);
    let di = d as int;
    let qi = q as int;
    let ri = r as int;
    assert(2 * n == (2 * qi) * di + 2 * ri) by (nonlinear_arith)
        requires
            n == di * qi + ri,
    ;
    if 2 * r < d {
        vstd::arithmetic::div_mod::lemma_fundamental_div_mod_converse(
            2 * n as int,
            di,
            2 * qi,
            2 * ri,
        );
    } else {
        assert((2 * qi + 1) * di == (2 * qi) * di + di) by (nonlinear_arith);
        vstd::arithmetic::div_mod::lemma_fundamental_div_mod_converse(
            2 * n as int,
            di,
            2 * qi + 1,
            2 * ri - di,
        );
    }
}

/// Rounding to an integer, given twice the number rounded down and whether that was exact.
spec fn round_from(t: nat, exact: bool) -> nat {
    if t % 2 == 0 {
        t / 2
    } else if exact {
        t / 2 + (t / 2) % 2
    } else {
        t / 2 + 1
    }
}

/// A finite number scaled by 10^`places` and rounded to an integer, ties to even.
fn scaled_integer(x: Double, places: u64) -> (r: Natural)
    requires
        double::is_finite(x),
    ensures
        r@ == scaled(x, places as nat),
{
    let m: u64 = x.bits % SIGN;
    let mut unit: Natural = Natural::from_u64(2);
    unit.mul_pow10(places as u128);
    let twice: Natural = double::scaled_magnitude(m, &unit);
    let mut t: Natural = twice.copy();
    t.div_pow2(1074);
    let mut back: Natural = t.copy();
    back.mul_pow2(1074);
    let exact: bool = twice.le(&back);
    let ghost n = (double::magnitude(m) * pow(10, places as nat)) as nat;
    proof {
        lemma_pow_positive(10, places as nat);
        lemma_pow2_pos(1074);
        let g = double::magnitude(m) as int;
        let w = pow(10, places as nat);
        assert(g * (2 * w) == 2 * (g * w)) by (nonlinear_arith);
        assert(0 <= g * w) by (nonlinear_arith)
            requires
                0 <= g,
                0 < w,
        ;
        assert(twice@ == 2 * n);
        vstd::arithmetic::div_mod::lemma_fundamental_div_mod(2 * n as int, pow2(1074) as int);
        lemma_mul_is_commutative(t@ as int, pow2(1074) as int);
        lemma_round_from_halves(n, pow2(1074));
    }
    let ghost floor = t@;
    let odd: u64 = t.div_rem(2);
    if odd == 1 {
        if !exact {
            t.mul_add(1, 1);
        } else {
            let mut half: Natural = t.copy();
            let parity: u64 = half.div_rem(2);
            t.mul_add(1, parity);
        }
    }
    assert(t@ == round_from(floor, exact));
    t
}

/// Write a number with `places` digits behind the point.
pub fn format_fixed(x: Double, places: u64) -> (r: Vec<char>)
    ensures
        r@ == fixed(x, places as nat),
{
    if x.is_nan() {
        return text::chars_of("NaN");
    }
    let negative: bool = x.bits >= SIGN;
    let mut out: Vec<char> = Vec::new();
    if negative {
        out.push('-');
    }
    let ghost sign = out@;
    assert(sign =~= if double::is_negative(x) {
        seq!['-']
    } else {
        Seq::empty()
    });
    if !x.is_finite() {
        let mut inf: Vec<char> = text::chars_of("inf");
        out.append(&mut inf);
        return out;
    }
    let mut n: Natural = scaled_integer(x, places);
    let ghost start = n@;
    let mut tail: Vec<char> = Vec::new();
    let mut i: u64 = 0;
    proof {
        lemma_pow0(10);
        vstd::arithmetic::div_mod::lemma_div_basics(start as int);
        assert(last_digits(n@, places as nat) + tail@ =~= last_digits(start, places as nat));
    }
    while i < places
        invariant
            i <= places,
            n@ == start / (pow(10, i as nat) as nat),
            last_digits(n@, (places - i) as nat) + tail@ == last_digits(start, places as nat),
        decreases places - i,
    {
        let ghost before = n@;
        let d: u64 = n.div_rem(10);
        let c: char = char_of_digit(d);
        proof {
            assert(n@ == before / 10 && d == before % 10);
            lemma_split_digit(start, i as nat);
            assert(last_digits(before, (places - i) as nat) + tail@ =~= last_digits(
                n@,
                (places - i - 1) as nat,
            ) + tail@.insert(0, c));
        }
        tail.insert(0, c);
        i = i + 1;
    }
    assert(tail@ =~= last_digits(start, places as nat));
    let mut whole: Vec<char> = digits_of(n);
    out.append(&mut whole);
    if places > 0 {
        out.push('.');
        out.append(&mut tail);
    }
    proof {
        let w = digits(n@);
        assert(out@ =~= sign + point_text(start, places as nat));
    }
    out
}

pub proof fn lemma_digits_shape(n: nat)
    ensures
        digits(n).len() >= 1,
        forall|i: int| 0 <= i < digits(n).len() ==> is_digit(#[trigger] digits(n)[i]),
        digits_value(digits(n)) == n,
    decreases n,
{
    if n < 10 {
        assert(digits(n).drop_last() =~= Seq::empty());
        assert(digits_value(digits(n).drop_last()) == 0);
    } else {
        lemma_digits_shape(n / 10);
        assert(digits(n).drop_last() =~= digits(n / 10));
        assert forall|i: int| 0 <= i < digits(n).len() implies is_digit(
            #[trigger] digits(n)[i],
        ) by {
            if i < digits(n).len() - 1 {
                assert(is_digit(digits(n / 10)[i]));
            }
        }
    }
}

pub proof fn lemma_last_digits_shape(n: nat, k: nat)
    ensures
        last_digits(n, k).len() == k,
        forall|i: int| 0 <= i < k ==> is_digit(#[trigger] last_digits(n, k)[i]),
    decreases k,
{
    if k > 0 {
        lemma_last_digits_shape(n / 10, (k - 1) as nat);
        assert forall|i: int| 0 <= i < k implies is_digit(#[trigger] last_digits(n, k)[i]) by {
            if i < k - 1 {
                assert(is_digit(last_digits(n / 10, (k - 1) as nat)[i]));
            }
        }
    }
}

proof fn lemma_point_value(n: nat, k: nat)
    ensures
        digits_value(digits((n / (pow(10, k) as nat)) as nat) + last_digits(n, k)) == n,
    decreases k,
{
    let whole = digits((n / (pow(10, k) as nat)) as nat);
    if k == 0 {
        lemma_pow0(10);
        vstd::arithmetic::div_mod::lemma_div_basics(n as int);
        lemma_digits_shape(n);
        assert(whole + last_digits(n, k) =~= digits(n));
    } else {
        let j = (k - 1) as nat;
        lemma_point_value(n / 10, j);
        lemma_pow_positive(10, j);
        lemma_pow_adds(10, 1, j);
        lemma_pow1(10);
        vstd::arithmetic::div_mod::lemma_div_denominator(n as int, 10, pow(10, j));
        assert((whole + last_digits(n, k)).drop_last() =~= whole + last_digits(n / 10, j));
        assert((whole + last_digits(n, k)).last() == digit_char(n % 10));
    }
}

proof fn lemma_point_text_reads(n: nat, places: nat)
    ensures
        literal(point_text(n, places)) == Some(Literal { mantissa: n, exponent: -(places as int) }),
        point_text(n, places).len() > 0,
        is_digit(point_text(n, places)[0]),
{
    let q = (n / (pow(10, places) as nat)) as nat;
    let whole = digits(q);
    let tail = last_digits(n, places);
    let s = point_text(n, places);
    lemma_digits_shape(q);
    lemma_last_digits_shape(n, places);
    lemma_point_value(n, places);
    let a = whole.len() as int;
    assert forall|i: int| 0 <= i < a implies is_digit(#[trigger] s[i]) by {
        assert(is_digit(whole[i]));
    }
    if places == 0 {
        lemma_digit_run_is(s, a);
        assert(s.skip(a) =~= Seq::empty());
        assert(s.skip(a).skip(0) =~= Seq::empty());
        assert(s.take(a) + s.skip(a).take(0) =~= whole + tail);
    } else {
        assert(s[a] == '.');
        lemma_digit_run_is(s, a);
        let after = s.skip(a + 1);
        assert(after =~= tail);
        lemma_digit_run_is(after, places as int);
        assert(after.skip(places as int) =~= Seq::empty());
        assert(s.take(a) + after.take(places as int) =~= whole + tail);
    }
}

/// What is written with a fixed number of places reads back as the double nearest to the written
/// decimal.
pub proof fn law_fixed_reads_back(x: Double, places: nat)
    requires
        double::is_finite(x),
    ensures
        parsed(fixed(x, places)) == Some(
            double::signed(
                double::is_negative(x),
                literal_magnitude(
                    Literal { mantissa: scaled(x, places), exponent: -(places as int) },
                ),
            ),
        ),
{
    let n = scaled(x, places);
    let body = point_text(n, places);
    let s = fixed(x, places);
    lemma_point_text_reads(n, places);
    reveal_strlit("inf");
    reveal_strlit("infinity");
    reveal_strlit("nan");
    if double::is_negative(x) {
        assert(s[0] == '-');
        assert(s.skip(1) =~= body);
    } else {
        assert(s =~= body);
    }
    assert(lower(body[0]) == body[0]);
    assert("inf"@[0] == 'i' && "infinity"@[0] == 'i' && "nan"@[0] == 'n');
    assert(!is_word(body, "inf"@));
    assert(!is_word(body, "infinity"@));
    assert(!is_word(body, "nan"@));
}

/// A written number is one token.
pub proof fn lemma_fixed_is_token(x: Double, places: nat)
    ensures
        text::is_token(fixed(x, places)),
        places > 0 ==> fixed(x, places).len() >= 2,
{
    reveal_strlit("NaN");
    reveal_strlit("inf");
    let n = scaled(x, places);
    let q = (n / (pow(10, places) as nat)) as nat;
    lemma_digits_shape(q);
    lemma_last_digits_shape(n, places);
    let whole = digits(q);
    let tail = last_digits(n, places);
    let body = point_text(n, places);
    let a = whole.len() as int;
    assert forall|i: int| 0 <= i < body.len() implies !text::is_space(#[trigger] body[i]) by {
        if i < a {
            assert(is_digit(whole[i]));
        } else if i > a {
            assert(is_digit(tail[i - a - 1]));
        }
    }
    let s = fixed(x, places);
    assert forall|i: int| 0 <= i < s.len() implies !text::is_space(#[trigger] s[i]) by {
        if !double::is_finite(x) {
            if !double::is_nan(x) && double::is_negative(x) && i > 0 {
                assert(s[i] == "inf"@[i - 1]);
            }
        } else if double::is_negative(x) {
            if i > 0 {
                assert(s[i] == body[i - 1]);
            }
        } else {
            assert(s[i] == body[i]);
        }
    }
}

/// A number as it reads back after being written with `places` digits behind the point.
pub open spec fn at_places(x: Double, places: nat) -> Double {
    double::signed(
        double::is_negative(x),
        literal_magnitude(Literal { mantissa: scaled(x, places), exponent: -(places as int) }),
    )
}

/// Rounding to an integer moves by at most a half.
proof fn lemma_round_even_near(n: nat, d: nat)
    requires
        d > 0,
    ensures
        2 * (double::round_even(n, d) * d) <= 2 * n + d,
        2 * n <= 2 * (double::round_even(n, d) * d) + d,
{
    vstd::arithmetic::div_mod::lemma_fundamental_div_mod(n as int, d as int);
    let q = (n / d) as int;
    let r = (n % d) as int;
    let di = d as int;
    lemma_mul_is_commutative(di, q);
    assert((q + 1) * di == q * di + di) by (nonlinear_arith);
    assert((q + q % 2) * di == q * di + (q % 2) * di) by (nonlinear_arith);
    assert(q % 2 == 0 || q % 2 == 1);
    lemma_mul_basics(di);
}

/// No power of two is divisible by five.
proof fn lemma_pow2_mod_five(n: nat)
    ensures
        pow2(n) % 5 != 0,
    decreases n,
{
    if n == 0 {
        lemma2_to64();
    } else {
        lemma_pow2_mod_five((n - 1) as nat);
        lemma_pow2_unfold(n);
    }
}

/// A whole number of quanta is never one unit of a decimal place.
proof fn lemma_never_one_unit(k: int, places: nat)
    requires
        places > 0,
    ensures
        k * pow(10, places) != pow2(1074),
{
    lemma_pow2_mod_five(1074);
    let p = pow(10, (places - 1) as nat);
    assert(pow(10, places) == 10 * p) by {
        reveal(pow);
    }
    assert(k * (10 * p) == 5 * (2 * k * p)) by (nonlinear_arith);
}

/// A finite number written with `places` digits behind the point reads back finite, and less than one
/// unit of its last place from where it was.
pub proof fn law_written_number_stays_near(x: Double, places: nat)
    requires
        double::is_finite(x),
        places > 0,
    ensures
        double::is_finite(at_places(x, places)),
        (double::quanta(at_places(x, places)) - double::quanta(x)) * pow(10, places) < pow2(1074),
        (double::quanta(x) - double::quanta(at_places(x, places))) * pow(10, places) < pow2(1074),
{
    let m = double::unsigned(x);
    let g = double::magnitude(m) as int;
    let w = pow(10, places);
    let one = pow2(1074);
    lemma_pow_positive(10, places);
    lemma_pow2_pos(1074);
    let n = scaled(x, places);
    let den = w as nat;
    let num = n * one;
    assert(0 <= g * w) by (nonlinear_arith)
        requires
            0 <= g,
            0 < w,
    ;
    lemma_round_even_near((g * w) as nat, one);
    double::lemma_nearest_rounds(num, den);
    let r = double::nearest(num, den);
    assert(literal_magnitude(Literal { mantissa: n, exponent: -(places as int) }) == r);
    // The written decimal lies within half a unit of x, and the nearest double is nearer still.
    assert(double::gap(num, den, m) <= one);
    assert(2 * double::gap(num, den, m) <= one);
    assert(double::gap(num, den, r) <= double::gap(num, den, m));
    let h = double::magnitude(r) as int;
    assert((h - g) * w == h * w - g * w) by (nonlinear_arith);
    assert((g - h) * w == g * w - h * w) by (nonlinear_arith);
    lemma_pow2_strictly_increases(1074, 2044);
    lemma_pow2_unfold(2045);
    assert(2 * one < pow2(2045) * w) by (nonlinear_arith)
        requires
            2 * one < pow2(2045),
            w >= 1,
    ;
    double::lemma_nearest_finite(num, den, m, one);
    lemma_never_one_unit(h - g, places);
    lemma_never_one_unit(g - h, places);
    assert(double::unsigned(double::signed(double::is_negative(x), r)) == r);
    if double::is_negative(x) {
        assert((-h - -g) * w == g * w - h * w) by (nonlinear_arith);
        assert((-g - -h) * w == h * w - g * w) by (nonlinear_arith);
    }
}

/// What lies within half a unit of an integer rounds to it, and so does what lies half a unit away
/// where the integer is even.
proof fn lemma_round_even_is(n: nat, d: nat, k: nat)
    requires
        d > 0,
        2 * n <= 2 * (k * d) + d,
        2 * (k * d) <= 2 * n + d,
        2 * n == 2 * (k * d) + d || 2 * (k * d) == 2 * n + d ==> k % 2 == 0,
    ensures
        double::round_even(n, d) == k,
{
    vstd::arithmetic::div_mod::lemma_fundamental_div_mod(n as int, d as int);
    let q = (n / d) as int;
    let r = (n % d) as int;
    let di = d as int;
    let ki = k as int;
    lemma_mul_is_commutative(di, q);
    // q is k or the integer below it.
    assert((q + 2) * di == q * di + 2 * di) by (nonlinear_arith);
    assert((q + 1) * di == q * di + di) by (nonlinear_arith);
    assert((q - 1) * di == q * di - di) by (nonlinear_arith);
    if ki >= q + 2 {
        lemma_mul_inequality(q + 2, ki, di);
    } else if ki <= q - 1 {
        lemma_mul_inequality(ki, q - 1, di);
    }
}

/// Rounding to an integer from half way gives an even one.
proof fn lemma_round_even_ties(n: nat, d: nat)
    requires
        d > 0,
        2 * n == 2 * (double::round_even(n, d) * d) + d || 2 * (double::round_even(n, d) * d) == 2
            * n + d,
    ensures
        double::round_even(n, d) % 2 == 0,
{
    vstd::arithmetic::div_mod::lemma_fundamental_div_mod(n as int, d as int);
    let q = (n / d) as int;
    let di = d as int;
    lemma_mul_is_commutative(di, q);
    assert((q + 1) * di == q * di + di) by (nonlinear_arith);
    assert((q + q % 2) * di == q * di + (q % 2) * di) by (nonlinear_arith);
    lemma_mul_basics(di);
}

/// A number that was written and read back is written the same again.
pub proof fn law_read_back_number_is_written_the_same(x: Double, places: nat)
    requires
        double::is_finite(x),
        places > 0,
    ensures
        fixed(at_places(x, places), places) == fixed(x, places),
        at_places(at_places(x, places), places) == at_places(x, places),
{
    let m = double::unsigned(x);
    let g = double::magnitude(m) as int;
    let w = pow(10, places);
    let one = pow2(1074);
    lemma_pow_positive(10, places);
    lemma_pow2_pos(1074);
    law_written_number_stays_near(x, places);
    let n = scaled(x, places);
    let den = w as nat;
    let num = n * one;
    assert(0 <= g * w) by (nonlinear_arith)
        requires
            0 <= g,
            0 < w,
    ;
    lemma_round_even_near((g * w) as nat, one);
    double::lemma_nearest_rounds(num, den);
    let r = double::nearest(num, den);
    let y = at_places(x, places);
    assert(literal_magnitude(Literal { mantissa: n, exponent: -(places as int) }) == r);
    assert(double::unsigned(y) == r);
    assert(double::is_negative(y) == double::is_negative(x));
    assert(double::gap(num, den, r) <= double::gap(num, den, m));
    let h = double::magnitude(r) as int;
    assert(0 <= h * w) by (nonlinear_arith)
        requires
            0 <= h,
            0 < w,
    ;
    if 2 * double::gap(num, den, r) == one {
        lemma_round_even_ties((g * w) as nat, one);
    }
    lemma_round_even_is((h * w) as nat, one, n);
    assert(scaled(y, places) == n);
}

/// A finite number that has no more than `places` digits behind the point, being `n` units of the
/// last of them, reads back exactly.
pub proof fn law_short_number_reads_back_exactly(x: Double, places: nat, n: nat)
    requires
        double::is_finite(x),
        places > 0,
        double::magnitude(double::unsigned(x)) * pow(10, places) == n * pow2(1074),
    ensures
        at_places(x, places) == x,
{
    let m = double::unsigned(x);
    let one = pow2(1074);
    lemma_pow_positive(10, places);
    lemma_pow2_pos(1074);
    let den = pow(10, places) as nat;
    let num = n * one;
    vstd::arithmetic::div_mod::lemma_div_multiples_vanish(n as int, one as int);
    vstd::arithmetic::div_mod::lemma_mod_multiples_basic(n as int, one as int);
    lemma_mul_is_commutative(n as int, one as int);
    assert(scaled(x, places) == n);
    assert(double::gap(num, den, m) == 0);
    assert forall|o: u64| o <= double::INFINITE && o != m implies #[trigger] double::gap(
        num,
        den,
        o,
    ) > 0 by {
        if o < m {
            double::lemma_ordered(o, m);
            lemma_mul_strict_inequality(
                double::magnitude(o) as int,
                double::magnitude(m) as int,
                den as int,
            );
        } else {
            double::lemma_ordered(m, o);
            lemma_mul_strict_inequality(
                double::magnitude(m) as int,
                double::magnitude(o) as int,
                den as int,
            );
        }
    }
    double::lemma_nearest_is(num, den, m);
}

/// A signed number written in decimal.
pub open spec fn signed_digits(n: int) -> Seq<char> {
    if n < 0 {
        seq!['-'] + digits((-n) as nat)
    } else {
        digits(n as nat)
    }
}

/// A signed 32-bit number in decimal.
pub fn digits_of_i32(n: i32) -> (r: Vec<char>)
    ensures
        r@ == signed_digits(n as int),
{
    if n < 0 {
        let mut r: Vec<char> = Vec::new();
        r.push('-');
        let mut d: Vec<char> = digits_of_u64((-(n as i64)) as u64);
        r.append(&mut d);
        assert(r@ =~= signed_digits(n as int));
        r
    } else {
        digits_of_u64(n as u64)
    }
}

/// A whole number that is written reads back as itself, with or without a plus sign.
pub proof fn law_written_number_is_read_back(n: u64)
    ensures
        unsigned_value(digits(n as nat)) == Some(n as nat),
        unsigned_value(seq!['+'] + digits(n as nat)) == Some(n as nat),
{
    let d = digits(n as nat);
    lemma_digits_shape(n as nat);
    lemma_digit_run_is(d, d.len() as int);
    assert(is_digit(d[0]));
    assert((seq!['+'] + d).skip(1) =~= d);
}

/// A minus sign turns the number and a plus sign leaves it.
pub proof fn law_sign_turns_the_number(s: Seq<char>)
    requires
        s.len() == 0 || (s[0] != '-' && s[0] != '+'),
    ensures
        parsed(seq!['+'] + s) == parsed(s),
        parsed(seq!['-'] + s) is Some <==> parsed(s) is Some,
        parsed(s) is Some ==> parsed(seq!['-'] + s) == Some(double::negated(parsed(s)->0)),
{
    assert((seq!['+'] + s).skip(1) =~= s);
    assert((seq!['-'] + s).skip(1) =~= s);
    if let Some(l) = literal(s) {
        if l.exponent >= 0 {
            double::lemma_nearest_rounds(
                (l.mantissa * pow(10, l.exponent as nat) * pow2(1074)) as nat,
                1,
            );
        } else {
            lemma_pow_positive(10, (-l.exponent) as nat);
            double::lemma_nearest_rounds(
                l.mantissa * pow2(1074),
                pow(10, (-l.exponent) as nat) as nat,
            );
        }
    }
}

/// Digits behind a point count for as many places less, and an exponent for as many more, or fewer
/// where it is negative.
pub proof fn law_point_and_exponent_shift(whole: Seq<char>, fraction: Seq<char>, k: nat)
    requires
        whole.len() > 0,
        forall|i: int| 0 <= i < whole.len() ==> is_digit(#[trigger] whole[i]),
        forall|i: int| 0 <= i < fraction.len() ==> is_digit(#[trigger] fraction[i]),
    ensures
        ({
            let plain = whole + seq!['.'] + fraction;
            let m = digits_value(whole + fraction);
            &&& literal(whole) == Some(Literal { mantissa: digits_value(whole), exponent: 0 })
            &&& literal(plain) == Some(Literal { mantissa: m, exponent: -(fraction.len() as int) })
            &&& literal(plain + seq!['e'] + digits(k)) == Some(
                Literal { mantissa: m, exponent: k - fraction.len() },
            )
            &&& literal(plain + seq!['E', '-'] + digits(k)) == Some(
                Literal { mantissa: m, exponent: -(k as int) - fraction.len() },
            )
        }),
{
    let plain = whole + seq!['.'] + fraction;
    let d = digits(k);
    lemma_digits_shape(k);
    lemma_digit_run_is(d, d.len() as int);
    assert(is_digit(d[0]));
    lemma_digit_run_is(whole, whole.len() as int);
    assert(whole.skip(whole.len() as int).skip(0) =~= Seq::empty());
    assert(whole.take(whole.len() as int) + whole.skip(whole.len() as int).take(0) =~= whole);
    lemma_tail_literal(whole, fraction, Seq::empty(), 0);
    assert(plain + Seq::empty() =~= plain);
    assert((seq!['e'] + d).skip(1) =~= d);
    lemma_tail_literal(whole, fraction, seq!['e'] + d, k as int);
    assert(plain + (seq!['e'] + d) =~= plain + seq!['e'] + d);
    let x = seq!['-'] + d;
    assert((seq!['E', '-'] + d).skip(1) =~= x);
    assert(x.skip(1) =~= d);
    lemma_tail_literal(whole, fraction, seq!['E', '-'] + d, -(k as int));
    assert(plain + (seq!['E', '-'] + d) =~= plain + seq!['E', '-'] + d);
}

proof fn lemma_tail_literal(whole: Seq<char>, fraction: Seq<char>, tail: Seq<char>, e: int)
    requires
        whole.len() > 0,
        forall|i: int| 0 <= i < whole.len() ==> is_digit(#[trigger] whole[i]),
        forall|i: int| 0 <= i < fraction.len() ==> is_digit(#[trigger] fraction[i]),
        tail.len() == 0 || !is_digit(tail[0]),
        exponent_part(tail) == Some(e),
    ensures
        literal(whole + seq!['.'] + fraction + tail) == Some(
            Literal {
                mantissa: digits_value(whole + fraction),
                exponent: e - fraction.len(),
            },
        ),
{
    let s = whole + seq!['.'] + fraction + tail;
    let a = whole.len() as int;
    let b = fraction.len() as int;
    assert forall|i: int| 0 <= i < a implies is_digit(#[trigger] s[i]) by {
        assert(s[i] == whole[i]);
    }
    assert(s[a] == '.');
    lemma_digit_run_is(s, a);
    let after = s.skip(a + 1);
    assert(after =~= fraction + tail);
    assert forall|i: int| 0 <= i < b implies is_digit(#[trigger] after[i]) by {
        assert(after[i] == fraction[i]);
    }
    if tail.len() > 0 {
        assert(after[b] == tail[0]);
    }
    lemma_digit_run_is(after, b);
    assert(after.skip(b) =~= tail);
    assert(s.take(a) =~= whole);
    assert(after.take(b) =~= fraction);
}

} // verus!
