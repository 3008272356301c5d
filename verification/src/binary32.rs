//! IEEE 754 single-precision numbers, carried as their 32-bit patterns.
//!
//! Every finite single-precision number is a whole multiple of `2^-149`, so the
//! value of a bit pattern is modelled as an integer count of that unit. The
//! arithmetic here works on the patterns with integer operations only and is
//! proved to round to nearest, ties to even, as the standard prescribes.
use vstd::arithmetic::div_mod::{
    lemma_fundamental_div_mod, lemma_fundamental_div_mod_converse, lemma_mod_multiples_basic,
};
use vstd::arithmetic::power2::{lemma2_to64, lemma_pow2_adds, lemma_pow2_pos, lemma_pow2_unfold, pow2};
use vstd::prelude::*;

verus! {

/// The bit that carries the sign.
pub const SIGN_BIT: u32 = 0x8000_0000;

/// The magnitude bits of infinity; every larger magnitude is a NaN.
pub const INFINITY_BITS: u32 = 0x7f80_0000;

/// The pattern of the NaN that the operations here return.
pub const NAN_BITS: u32 = 0x7fc0_0000;

/// The weight of the leading significand bit of a normal number, `2^23`.
pub const HIDDEN_BIT: u32 = 0x0080_0000;

/// One more than the largest significand, `2^24`.
pub const SIGNIFICAND_LIMIT: u32 = 0x0100_0000;

/// The exponent of the unit in which a magnitude's significand counts: `0` for
/// the subnormal numbers and the lowest normal binade, one more for each binade
/// above.
pub open spec fn scale(m: nat) -> nat {
    if m < 0x100_0000 {
        0
    } else {
        (m / 0x80_0000 - 1) as nat
    }
}

/// The significand of a magnitude, hidden bit included.
pub open spec fn significand(m: nat) -> nat {
    (m - scale(m) * 0x80_0000) as nat
}

/// The value of the magnitude bits `m`, counted in units of `2^-149`.
/// Infinity, `0x7f80_0000`, comes out as `2^277`, one binade above the largest
/// finite number.
pub open spec fn decode(m: nat) -> nat {
    significand(m) * pow2(scale(m))
}

/// The exponent of the spacing between representable numbers around `x`, where
/// `x` counts units of `2^-149`.
pub open spec fn ulp_exponent(x: nat) -> nat
    decreases x,
{
    if x < 0x100_0000 {
        0
    } else {
        1 + ulp_exponent(x / 2)
    }
}

/// The magnitude bits of the representable value `v`.
pub open spec fn encode(v: nat) -> nat {
    ulp_exponent(v) * 0x80_0000 + v / pow2(ulp_exponent(v))
}

/// `x` rounded to the nearest multiple of the spacing around it; of two equally
/// near multiples the even one.
pub open spec fn round_nearest_even(x: nat) -> nat {
    let ulp = pow2(ulp_exponent(x));
    let q = x / ulp;
    let r = x % ulp;
    if 2 * r > ulp || (2 * r == ulp && q % 2 == 1) {
        (q + 1) * ulp
    } else {
        q * ulp
    }
}

/// `v` is a value that the format holds, were its range unbounded: a whole
/// multiple of the spacing around it.
pub open spec fn representable(v: nat) -> bool {
    v % pow2(ulp_exponent(v)) == 0
}

/// The magnitude bits of the number nearest to `x`; whatever rounds to `2^277`
/// or beyond becomes infinity.
pub open spec fn nearest_magnitude(x: nat) -> nat {
    let v = round_nearest_even(x);
    if v >= pow2(277) {
        0x7f80_0000
    } else {
        encode(v)
    }
}

/// Half of `v`, rounded to a whole number; of two equally near ones the even one.
pub open spec fn half_nearest_even(v: nat) -> nat {
    if v % 2 == 1 && (v / 2) % 2 == 1 {
        v / 2 + 1
    } else {
        v / 2
    }
}

/// The distance of `s` from zero.
pub open spec fn distance(s: int) -> nat {
    if s < 0 {
        (-s) as nat
    } else {
        s as nat
    }
}

/// The number nearest to the exact sum `s`, counted in units of `2^-149`. A
/// sum of zero is negative only where both addends are.
pub open spec fn rounded_sum(s: int, both_negative: bool) -> Binary32 {
    Binary32::pack(s < 0 || (s == 0 && both_negative), nearest_magnitude(distance(s)))
}

/// A single-precision number, held as its bit pattern.
#[derive(Clone, Copy, Debug)]
pub struct Binary32 {
    pub bits: u32,
}

impl Binary32 {
    /// The pattern without its sign bit.
    pub open spec fn magnitude(self) -> nat {
        (self.bits % 0x8000_0000) as nat
    }

    /// The sign bit is set; so it is for the negative zero.
    pub open spec fn is_negative(self) -> bool {
        self.bits >= 0x8000_0000
    }

    /// The pattern is no number.
    pub open spec fn spec_is_nan(self) -> bool {
        self.magnitude() > 0x7f80_0000
    }

    /// The pattern is one of the two infinities.
    pub open spec fn is_infinite(self) -> bool {
        self.magnitude() == 0x7f80_0000
    }

    /// The pattern is a number other than the infinities.
    pub open spec fn is_finite(self) -> bool {
        self.magnitude() < 0x7f80_0000
    }

    /// The value in units of `2^-149`; meaningful when the number is no NaN.
    pub open spec fn units(self) -> int {
        if self.is_negative() {
            -(decode(self.magnitude()) as int)
        } else {
            decode(self.magnitude()) as int
        }
    }

    /// The number with the given sign and magnitude bits.
    pub open spec fn pack(negative: bool, magnitude: nat) -> Binary32 {
        Binary32 {
            bits: if negative {
                (magnitude + 0x8000_0000) as u32
            } else {
                magnitude as u32
            },
        }
    }

    /// `self < rhs` as numbers: false whenever either is a NaN, and the two
    /// zeros are equal.
    pub open spec fn spec_lt(self, rhs: Binary32) -> bool {
        !self.spec_is_nan() && !rhs.spec_is_nan() && self.units() < rhs.units()
    }

    /// `self <= rhs` as numbers: false whenever either is a NaN.
    pub open spec fn spec_le(self, rhs: Binary32) -> bool {
        !self.spec_is_nan() && !rhs.spec_is_nan() && self.units() <= rhs.units()
    }

    /// The number with the pattern `bits`.
    pub fn from_bits(bits: u32) -> (r: Binary32)
        ensures
            r.bits == bits,
    {
        Binary32 { bits }
    }

    /// The pattern of the number.
    pub fn to_bits(self) -> (r: u32)
        ensures
            r == self.bits,
    {
        self.bits
    }

    /// Whether the pattern is no number.
    pub fn is_nan(self) -> (r: bool)
        ensures
            r == self.spec_is_nan(),
    {
        self.bits % SIGN_BIT > INFINITY_BITS
    }

    /// The comparison `self < rhs`.
    pub fn lt(self, rhs: Binary32) -> (r: bool)
        ensures
            r == self.spec_lt(rhs),
    {
        let a: u32 = self.bits % SIGN_BIT;
        let b: u32 = rhs.bits % SIGN_BIT;
        if a > INFINITY_BITS || b > INFINITY_BITS {
            return false;
        }
        proof {
            lemma_decode_order(a as nat, b as nat);
            lemma_decode_order(0, a as nat);
            lemma_decode_order(0, b as nat);
        }
        if self.bits >= SIGN_BIT {
            if rhs.bits >= SIGN_BIT {
                b < a
            } else {
                a != 0 || b != 0
            }
        } else {
            rhs.bits < SIGN_BIT && a < b
        }
    }

    /// The comparison `self <= rhs`.
    pub fn le(self, rhs: Binary32) -> (r: bool)
        ensures
            r == self.spec_le(rhs),
    {
        let a: u32 = self.bits % SIGN_BIT;
        let b: u32 = rhs.bits % SIGN_BIT;
        if a > INFINITY_BITS || b > INFINITY_BITS {
            return false;
        }
        proof {
            lemma_decode_order(a as nat, b as nat);
            lemma_decode_order(0, a as nat);
            lemma_decode_order(0, b as nat);
        }
        if self.bits >= SIGN_BIT {
            rhs.bits < SIGN_BIT || b <= a
        } else if rhs.bits >= SIGN_BIT {
            a == 0 && b == 0
        } else {
            a <= b
        }
    }
    /// The sum `self + rhs`, rounded to nearest, ties to even. A NaN addend,
    /// or infinities of opposite sign, give the NaN `NAN_BITS`.
    pub open spec fn spec_add(self, rhs: Binary32) -> Binary32 {
        if self.spec_is_nan() || rhs.spec_is_nan() {
            Binary32 { bits: NAN_BITS }
        } else if self.is_infinite() && rhs.is_infinite() && self.is_negative()
            != rhs.is_negative() {
            Binary32 { bits: NAN_BITS }
        } else if self.is_infinite() {
            self
        } else if rhs.is_infinite() {
            rhs
        } else {
            rounded_sum(self.units() + rhs.units(), self.is_negative() && rhs.is_negative())
        }
    }

    /// Half of `self`, rounded to nearest, ties to even; the sign stays.
    pub open spec fn spec_half(self) -> Binary32 {
        if self.spec_is_nan() {
            Binary32 { bits: NAN_BITS }
        } else if self.is_infinite() {
            self
        } else {
            Binary32::pack(
                self.is_negative(),
                encode(half_nearest_even(decode(self.magnitude()))),
            )
        }
    }

    /// The sum `self + rhs`.
    pub fn add(self, rhs: Binary32) -> (r: Binary32)
        ensures
            r == self.spec_add(rhs),
    {
        let a: u32 = self.bits % SIGN_BIT;
        let b: u32 = rhs.bits % SIGN_BIT;
        let a_neg = self.bits >= SIGN_BIT;
        let b_neg = rhs.bits >= SIGN_BIT;
        if a > INFINITY_BITS || b > INFINITY_BITS {
            return Binary32 { bits: NAN_BITS };
        }
        if a == INFINITY_BITS {
            if b == INFINITY_BITS && a_neg != b_neg {
                return Binary32 { bits: NAN_BITS };
            }
            return self;
        }
        if b == INFINITY_BITS {
            return rhs;
        }
        proof {
            lemma_pack_parts(self);
            lemma_pack_parts(rhs);
        }
        let (negative, mag) = if a >= b {
            add_ordered(a, a_neg, b, b_neg)
        } else {
            add_ordered(b, b_neg, a, a_neg)
        };
        let r = Binary32 { bits: if negative { mag + SIGN_BIT } else { mag } };
        assert(r == Binary32::pack(negative, mag as nat));
        assert(r == rounded_sum(
            self.units() + rhs.units(),
            self.is_negative() && rhs.is_negative(),
        ));
        r
    }

    /// Half of `self`.
    pub fn half(self) -> (r: Binary32)
        ensures
            r == self.spec_half(),
    {
        let a: u32 = self.bits % SIGN_BIT;
        if a > INFINITY_BITS {
            return Binary32 { bits: NAN_BITS };
        }
        if a == INFINITY_BITS {
            return self;
        }
        let h: u32 = if a < SIGNIFICAND_LIMIT {
            let q: u32 = a / 2;
            let h: u32 = if a % 2 == 1 && q % 2 == 1 { q + 1 } else { q };
            proof {
                lemma_small(a as nat);
                lemma_small(h as nat);
            }
            h
        } else {
            proof {
                let m = significand(a as nat);
                let e = scale(a as nat);
                let p = pow2(e) as int;
                let l = pow2((e - 1) as nat) as int;
                lemma_pow2_unfold(e);
                assert(m * p == 2 * (m * l)) by (nonlinear_arith)
                    requires
                        p == 2 * l,
                ;
                lemma_encode_normal(m, (e - 1) as nat);
            }
            a - HIDDEN_BIT
        };
        Binary32 { bits: if self.bits >= SIGN_BIT { h + SIGN_BIT } else { h } }
    }
}

/// The significand and the scale of the magnitude bits of a finite number.
fn unpack(mag: u32) -> (r: (u64, u32))
    requires
        mag < INFINITY_BITS,
    ensures
        r.0 == significand(mag as nat),
        r.1 == scale(mag as nat),
        r.0 < 0x100_0000,
        r.1 <= 253,
        r.1 > 0 ==> r.0 >= 0x80_0000,
{
    let e: u32 = if mag < SIGNIFICAND_LIMIT {
        0
    } else {
        mag / HIDDEN_BIT - 1
    };
    ((mag - e * HIDDEN_BIT) as u64, e)
}

/// `2^k` for a small `k`.
fn two_pow(k: u32) -> (r: u64)
    requires
        k <= 32,
    ensures
        r == pow2(k as nat),
        r <= 0x1_0000_0000,
{
    let mut r: u64 = 1;
    let mut i: u32 = 0;
    proof {
        lemma2_to64();
    }
    while i < k
        invariant
            i <= k <= 32,
            r == pow2(i as nat),
            pow2(32) == 0x1_0000_0000,
        decreases k - i,
    {
        proof {
            lemma_pow2_unfold((i + 1) as nat);
            lemma_pow2_order((i + 1) as nat, 32);
        }
        r = r * 2;
        i = i + 1;
    }
    proof {
        lemma_pow2_order(k as nat, 32);
    }
    r
}

/// The magnitude bits of the number nearest to `t * 2^s` units.
fn round_pack(t: u64, s: u32) -> (mag: u32)
    requires
        t < 0x4000_0000_0000_0000,
        s <= 253,
    ensures
        mag == nearest_magnitude((t as nat) * pow2(s as nat)),
        mag <= INFINITY_BITS,
{
    let mut m: u64 = t;
    let mut e: u32 = s;
    while m < 0x80_0000 && e > 0
        invariant
            m * pow2(e as nat) == t * pow2(s as nat),
            e <= s,
            m < 0x4000_0000_0000_0000,
        decreases e,
    {
        proof {
            let p = pow2(e as nat) as int;
            let h = pow2((e - 1) as nat) as int;
            lemma_pow2_unfold(e as nat);
            assert((m * 2) * h == m * p) by (nonlinear_arith)
                requires
                    p == 2 * h,
            ;
        }
        m = m * 2;
        e = e - 1;
    }
    let ghost x: nat = (t as nat) * pow2(s as nat);
    let ghost first: nat = e as nat;
    let ghost mut steps: nat = 0;
    let ghost mut rem: nat = 0;
    let mut above = false;
    let mut tie = false;
    let mut dirty = false;
    proof {
        lemma_pow2_pos(e as nat);
        lemma2_to64();
    }
    while m >= 0x100_0000
        invariant
            m * pow2(e as nat) + rem == x,
            rem < pow2(e as nat),
            e == 0 || m >= 0x80_0000,
            steps <= 64,
            first <= 253,
            e == first + steps,
            m < pow2((64 - steps) as nat),
            above == (2 * rem > pow2(e as nat)),
            tie == (2 * rem == pow2(e as nat)),
            dirty == (rem != 0),
        decreases m,
    {
        let bit = m % 2 == 1;
        proof {
            let p = pow2(e as nat) as int;
            let q = pow2((e + 1) as nat) as int;
            lemma_pow2_unfold((e + 1) as nat);
            lemma2_to64();
            if steps < 64 {
                lemma_pow2_unfold((64 - steps) as nat);
            }
            steps = steps + 1;
            assert(m * p == (m / 2) * q + (m % 2) * p) by (nonlinear_arith)
                requires
                    q == 2 * p,
                    m == 2 * (m / 2) + m % 2,
            ;
            assert((m % 2) * p == if bit { p } else { 0 }) by (nonlinear_arith)
                requires
                    bit == (m % 2 == 1),
                    0 <= m % 2 < 2,
            ;
            rem = rem + if bit { p as nat } else { 0 };
        }
        above = bit && dirty;
        tie = bit && !dirty;
        dirty = dirty || bit;
        m = m / 2;
        e = e + 1;
    }
    let up = above || (tie && m % 2 == 1);
    let rounded: u64 = if up { m + 1 } else { m };
    proof {
        lemma_round(x, m as nat, e as nat, rem);
        lemma_finish(round_nearest_even(x), rounded as nat, e as nat);
    }
    if e >= 254 {
        INFINITY_BITS
    } else {
        e * HIDDEN_BIT + rounded as u32
    }
}

/// The sign and the magnitude bits of the sum of two finite numbers, the first
/// of them the larger in magnitude.
fn add_ordered(big: u32, big_neg: bool, small: u32, small_neg: bool) -> (r: (bool, u32))
    requires
        small <= big < INFINITY_BITS,
    ensures
        ({
            let a = Binary32::pack(big_neg, big as nat);
            let b = Binary32::pack(small_neg, small as nat);
            Binary32::pack(r.0, r.1 as nat) == rounded_sum(a.units() + b.units(), big_neg && small_neg)
        }),
        r.1 <= INFINITY_BITS,
{
    let (mb, eb) = unpack(big);
    let (ms, es) = unpack(small);
    let ghost pb = pow2(eb as nat) as int;
    let ghost ps = pow2(es as nat) as int;
    let ghost va = decode(big as nat) as int;
    let ghost vb = decode(small as nat) as int;
    let ghost a = Binary32::pack(big_neg, big as nat);
    let ghost b = Binary32::pack(small_neg, small as nat);
    proof {
        lemma_decode_order(small as nat, big as nat);
        lemma_pow2_pos(es as nat);
        lemma_pow2_pos(eb as nat);
        lemma2_to64();
        assert(a.magnitude() == big && a.is_negative() == big_neg);
        assert(b.magnitude() == small && b.is_negative() == small_neg);
    }
    let gap: u32 = eb - es;
    if gap >= 26 {
        proof {
            lemma_pow2_adds(24, es as nat);
            assert(ms * ps < 0x100_0000 * ps) by (nonlinear_arith)
                requires
                    ms < 0x100_0000,
                    ps > 0,
            ;
            lemma_pow2_order((24 + es) as nat, (eb - 2) as nat);
            lemma_pow2_unfold(eb as nat);
            lemma_pow2_unfold((eb - 1) as nat);
            assert(mb * pb >= 0x80_0000 * pb) by (nonlinear_arith)
                requires
                    mb >= 0x80_0000,
                    pb > 0,
            ;
            let x = if big_neg == small_neg { va + vb } else { va - vb };
            lemma_far(mb as nat, eb as nat, vb as nat, x as nat);
            lemma_finish(va as nat, mb as nat, eb as nat);
            assert(distance(a.units() + b.units()) == x);
        }
        return (big_neg, big);
    }
    let g = two_pow(gap);
    proof {
        lemma_pow2_order(gap as nat, 25);
        lemma_pow2_adds(gap as nat, es as nat);
        assert(mb * g < 0x100_0000 * 0x200_0000) by (nonlinear_arith)
            requires
                mb < 0x100_0000,
                0 < g <= 0x200_0000,
        ;
        assert((mb * g) * ps == mb * pb) by (nonlinear_arith)
            requires
                pb == g * ps,
        ;
    }
    let lifted: u64 = mb * g;
    if big_neg == small_neg {
        let total: u64 = lifted + ms;
        proof {
            assert(total * ps == va + vb) by (nonlinear_arith)
                requires
                    total == lifted + ms,
                    lifted * ps == va,
                    ms * ps == vb,
            ;
            assert(distance(a.units() + b.units()) == va + vb);
        }
        let mag = round_pack(total, es);
        (big_neg, mag)
    } else {
        proof {
            assert(lifted >= ms) by (nonlinear_arith)
                requires
                    lifted * ps >= ms * ps,
                    ps > 0,
            ;
        }
        let total: u64 = lifted - ms;
        proof {
            assert(total * ps == va - vb) by (nonlinear_arith)
                requires
                    total == lifted - ms,
                    lifted * ps == va,
                    ms * ps == vb,
            ;
            assert((total != 0) == (va - vb != 0)) by (nonlinear_arith)
                requires
                    total * ps == va - vb,
                    ps > 0,
            ;
            assert(distance(a.units() + b.units()) == va - vb);
        }
        let mag = round_pack(total, es);
        (big_neg && total != 0, mag)
    }
}

/// A power of two grows with its exponent.
pub proof fn lemma_pow2_order(a: nat, b: nat)
    requires
        a <= b,
    ensures
        pow2(a) <= pow2(b),
    decreases b - a,
{
    if a < b {
        lemma_pow2_order(a, (b - 1) as nat);
        lemma_pow2_unfold(b);
    }
}

/// The value of a magnitude grows strictly with its bits, and zero bits are
/// the value zero.
pub proof fn lemma_decode_order(a: nat, b: nat)
    requires
        a < 0x8000_0000,
        b < 0x8000_0000,
    ensures
        a < b <==> decode(a) < decode(b),
        a == b <==> decode(a) == decode(b),
        decode(0) == 0,
{
    lemma2_to64();
    assert(decode(0) == 0);
    if a < b {
        lemma_decode_increasing(a, b);
    } else if b < a {
        lemma_decode_increasing(b, a);
    }
}

/// Below `2^24` the magnitude bits are the value itself.
pub proof fn lemma_small(m: nat)
    requires
        m < 0x100_0000,
    ensures
        decode(m) == m,
        encode(m) == m,
{
    lemma2_to64();
    let p = pow2(0) as int;
    assert(m * p == m) by (nonlinear_arith)
        requires
            p == 1,
    ;
    lemma_encode_normal(m, 0);
}

/// The value of every magnitude up to infinity is representable, and its bits
/// are that magnitude.
pub proof fn lemma_encode_decode(m: nat)
    requires
        m <= 0x7f80_0000,
    ensures
        representable(decode(m)),
        encode(decode(m)) == m,
        decode(m) <= pow2(277),
{
    let p = pow2(scale(m)) as int;
    let g = significand(m) as int;
    lemma_pow2_pos(scale(m));
    lemma_ulp_exponent(decode(m), significand(m), scale(m));
    lemma_fundamental_div_mod_converse(decode(m) as int, p, g, 0);
    lemma_encode_normal(significand(m), scale(m));
    lemma_infinity_units();
    lemma_pow2_order(scale(m), 254);
    if scale(m) == 254 {
        assert(g == 0x80_0000);
    } else {
        lemma_pow2_order(scale(m), 253);
        let top = pow2(253) as int;
        assert(g * p <= 0x100_0000 * top) by (nonlinear_arith)
            requires
                0 <= g <= 0x100_0000,
                0 < p <= top,
        ;
    }
}

/// Every representable value up to `2^277` is the value of its bits, and
/// these are a magnitude up to infinity.
pub proof fn lemma_decode_encode(v: nat)
    requires
        representable(v),
        v <= pow2(277),
    ensures
        encode(v) <= 0x7f80_0000,
        decode(encode(v)) == v,
{
    let e = ulp_exponent(v);
    let p = pow2(e) as int;
    let q = (v / pow2(e)) as int;
    lemma_pow2_pos(e);
    lemma_ulp_exponent_bounds(v);
    lemma_fundamental_div_mod(v as int, p);
    assert(v == p * q);
    assert(p * q == q * p) by (nonlinear_arith);
    assert(q < 0x100_0000) by (nonlinear_arith)
        requires
            q * p < 0x100_0000 * p,
            p > 0,
    ;
    if e > 0 {
        assert(q >= 0x80_0000) by (nonlinear_arith)
            requires
                q * p >= 0x80_0000 * p,
                p > 0,
        ;
    }
    lemma_infinity_units();
    if e >= 254 {
        let top = pow2(254) as int;
        lemma_pow2_order(254, e);
        if e > 254 {
            lemma_pow2_order(255, e);
            lemma_pow2_unfold(255);
        }
        assert(q * p >= 0x80_0000 * p) by (nonlinear_arith)
            requires
                q >= 0x80_0000,
                p > 0,
        ;
        assert(e == 254);
        assert(q == 0x80_0000) by (nonlinear_arith)
            requires
                q * p <= 0x80_0000 * p,
                q >= 0x80_0000,
                p > 0,
        ;
    }
}

/// The spacing around `x` is such that `x` has a significand of 24 bits at
/// most, and of exactly 24 bits above the lowest binade.
pub proof fn lemma_ulp_exponent_bounds(x: nat)
    ensures
        x < 0x100_0000 * pow2(ulp_exponent(x)),
        ulp_exponent(x) > 0 ==> x >= 0x80_0000 * pow2(ulp_exponent(x)),
    decreases x,
{
    lemma2_to64();
    if x >= 0x100_0000 {
        lemma_ulp_exponent_bounds(x / 2);
        lemma_pow2_unfold(ulp_exponent(x));
    }
}

/// Rounding gives a representable value, and no representable value is
/// nearer: `round_nearest_even(x)` is at most as far from `x` as any other.
/// Where `x` lies half way between two of them, it gives the one with the even
/// significand.
pub proof fn lemma_round_is_nearest(x: nat, v: nat)
    requires
        representable(v),
    ensures
        representable(round_nearest_even(x)),
        distance(round_nearest_even(x) - x) <= distance(v - x),
        2 * (x % pow2(ulp_exponent(x))) == pow2(ulp_exponent(x)) ==> (round_nearest_even(x) / pow2(
            ulp_exponent(x),
        )) % 2 == 0,
{
    let e = ulp_exponent(x);
    let p = pow2(e) as int;
    let q = (x / pow2(e)) as int;
    let r = (x % pow2(e)) as int;
    lemma_pow2_pos(e);
    lemma_ulp_exponent_bounds(x);
    lemma_fundamental_div_mod(x as int, p);
    assert(p * q == q * p) by (nonlinear_arith);
    assert((q + 1) * p == q * p + p) by (nonlinear_arith);
    assert(q < 0x100_0000) by (nonlinear_arith)
        requires
            q * p < 0x100_0000 * p,
            p > 0,
    ;
    if e > 0 {
        assert(q >= 0x80_0000) by (nonlinear_arith)
            requires
                q * p + p > 0x80_0000 * p,
                p > 0,
        ;
    }
    let lo = q * p;
    let hi = q * p + p;
    let w = round_nearest_even(x) as int;
    assert(w == lo || w == hi);
    // The result is representable.
    if w == lo {
        if q == 0 {
            assert(lo == 0) by (nonlinear_arith)
                requires
                    lo == q * p,
                    q == 0,
            ;
            lemma2_to64();
            assert(ulp_exponent(0) == 0);
        } else {
            lemma_ulp_exponent(lo as nat, q as nat, e);
            lemma_mod_multiples_basic(q, p);
        }
        lemma_fundamental_div_mod_converse(lo, p, q, 0);
    } else {
        if q + 1 < 0x100_0000 {
            lemma_ulp_exponent(hi as nat, (q + 1) as nat, e);
            lemma_mod_multiples_basic(q + 1, p);
        } else {
            let p2 = pow2(e + 1) as int;
            lemma_pow2_unfold(e + 1);
            assert(hi == 0x80_0000 * p2) by (nonlinear_arith)
                requires
                    hi == (q + 1) * p,
                    q + 1 == 0x100_0000,
                    p2 == 2 * p,
            ;
            lemma_ulp_exponent(hi as nat, 0x80_0000, e + 1);
            lemma_mod_multiples_basic(0x80_0000, p2);
        }
        lemma_fundamental_div_mod_converse(hi, p, q + 1, 0);
    }
    // No representable value lies strictly between the two neighbours.
    if lo < v < hi {
        lemma_ulp_exponent(v, q as nat, e);
        lemma_fundamental_div_mod(v as int, p);
        let k = (v / pow2(e)) as int;
        assert(p * k == k * p) by (nonlinear_arith);
        assert(false) by (nonlinear_arith)
            requires
                q * p < k * p < q * p + p,
                p > 0,
        ;
    }
}

/// A value that the format holds rounds to itself: the nearest number to the
/// value of any magnitude up to infinity is that magnitude.
pub proof fn lemma_representable_is_nearest(m: nat)
    requires
        m <= 0x7f80_0000,
    ensures
        round_nearest_even(decode(m)) == decode(m),
        nearest_magnitude(decode(m)) == m,
{
    lemma_pow2_pos(scale(m));
    lemma_round(decode(m), significand(m), scale(m), 0);
    lemma_finish(decode(m), significand(m), scale(m));
}

/// Adding a positive zero changes no number but the negative zero, which it
/// turns into the positive one.
pub proof fn lemma_add_zero(x: Binary32)
    requires
        !x.spec_is_nan(),
    ensures
        x.spec_add(Binary32 { bits: 0 }) == if x.bits == 0x8000_0000 {
            Binary32 { bits: 0 }
        } else {
            x
        },
{
    let zero = Binary32 { bits: 0 };
    lemma_small(0);
    lemma_decode_order(0, x.magnitude());
    lemma_representable_is_nearest(x.magnitude());
    lemma_pack_parts(x);
    assert(zero.units() == 0);
    assert(distance(x.units() + zero.units()) == decode(x.magnitude()));
}

/// The sum does not depend on the order of the addends.
pub proof fn lemma_add_commutes(a: Binary32, b: Binary32)
    ensures
        a.spec_add(b) == b.spec_add(a),
{
    if a.is_infinite() && b.is_infinite() && a.is_negative() == b.is_negative() {
        lemma_pack_parts(a);
        lemma_pack_parts(b);
    }
}

/// A number is its sign and its magnitude bits, packed.
proof fn lemma_pack_parts(x: Binary32)
    ensures
        Binary32::pack(x.is_negative(), x.magnitude()) == x,
{
}

/// A value in a lower binade is below every normal value in a higher one.
proof fn lemma_binade_order(ma: nat, ea: nat, mb: nat, eb: nat)
    requires
        ma < 0x100_0000,
        mb >= 0x80_0000,
        ea < eb,
    ensures
        ma * pow2(ea) < mb * pow2(eb),
{
    let pa = pow2(ea) as int;
    let pb = pow2(eb) as int;
    lemma_pow2_pos(ea);
    lemma_pow2_order(ea + 1, eb);
    lemma_pow2_unfold(ea + 1);
    assert(2 * pa <= pb);
    assert(ma * pa < 0x100_0000 * pa) by (nonlinear_arith)
        requires
            ma < 0x100_0000,
            pa > 0,
    ;
    assert(0x80_0000 * pb <= mb * pb) by (nonlinear_arith)
        requires
            mb >= 0x80_0000,
            pb > 0,
    ;
}

/// Larger magnitude bits have the larger value.
proof fn lemma_decode_increasing(a: nat, b: nat)
    requires
        a < b < 0x8000_0000,
    ensures
        decode(a) < decode(b),
{
    let ea = scale(a);
    let eb = scale(b);
    let ma = significand(a) as int;
    let mb = significand(b) as int;
    if ea == eb {
        let p = pow2(ea) as int;
        lemma_pow2_pos(ea);
        assert(ma * p < mb * p) by (nonlinear_arith)
            requires
                ma < mb,
                p > 0,
        ;
    } else {
        lemma_binade_order(ma as nat, ea, mb as nat, eb);
    }
}

/// Between two neighbouring multiples of `2^e` that the format holds, the
/// spacing is `2^e`.
proof fn lemma_ulp_exponent(x: nat, m: nat, e: nat)
    requires
        m < 0x100_0000,
        e == 0 || m >= 0x80_0000,
        m * pow2(e) <= x < m * pow2(e) + pow2(e),
    ensures
        ulp_exponent(x) == e,
    decreases e,
{
    lemma2_to64();
    let p = pow2(e) as int;
    if e == 0 {
        assert(m * p == m) by (nonlinear_arith)
            requires
                p == 1,
        ;
    } else {
        let h = pow2((e - 1) as nat) as int;
        lemma_pow2_unfold(e);
        lemma_pow2_pos((e - 1) as nat);
        assert(m * p == 2 * (m * h)) by (nonlinear_arith)
            requires
                p == 2 * h,
        ;
        assert(m * h >= 0x80_0000) by (nonlinear_arith)
            requires
                m >= 0x80_0000,
                h >= 1,
        ;
        lemma_ulp_exponent(x / 2, m, (e - 1) as nat);
    }
}

/// What rounding does to a value given as a significand, a scale and what lies
/// below the scale.
proof fn lemma_round(x: nat, m: nat, e: nat, rem: nat)
    requires
        m < 0x100_0000,
        e == 0 || m >= 0x80_0000,
        rem < pow2(e),
        x == m * pow2(e) + rem,
    ensures
        round_nearest_even(x) == if 2 * rem > pow2(e) || (2 * rem == pow2(e) && m % 2 == 1) {
            (m + 1) * pow2(e)
        } else {
            m * pow2(e)
        },
{
    lemma_ulp_exponent(x, m, e);
    lemma_fundamental_div_mod_converse(x as int, pow2(e) as int, m as int, rem as int);
}

/// The bits of a value given as a significand and a scale that the format
/// holds.
proof fn lemma_encode_normal(m: nat, e: nat)
    requires
        m < 0x100_0000,
        e == 0 || m >= 0x80_0000,
    ensures
        encode(m * pow2(e)) == e * 0x80_0000 + m,
{
    lemma_pow2_pos(e);
    lemma_ulp_exponent(m * pow2(e), m, e);
    lemma_fundamental_div_mod_converse((m * pow2(e)) as int, pow2(e) as int, m as int, 0);
}

/// As `lemma_encode_normal`, and a significand that rounding carried up to
/// `2^24` lands on the first value of the next binade.
proof fn lemma_encode(m: nat, e: nat)
    requires
        m <= 0x100_0000,
        e == 0 || m >= 0x80_0000,
    ensures
        encode(m * pow2(e)) == e * 0x80_0000 + m,
{
    if m < 0x100_0000 {
        lemma_encode_normal(m, e);
    } else {
        let p = pow2(e) as int;
        let q = pow2(e + 1) as int;
        lemma_pow2_unfold(e + 1);
        assert(m * p == 0x80_0000 * q) by (nonlinear_arith)
            requires
                m == 0x100_0000,
                q == 2 * p,
        ;
        lemma_encode_normal(0x80_0000, e + 1);
    }
}

/// `2^277` is `2^24` times `2^253`, and `2^23` times `2^254`.
proof fn lemma_infinity_units()
    ensures
        pow2(277) == 0x100_0000 * pow2(253),
        pow2(277) == 0x80_0000 * pow2(254),
{
    lemma2_to64();
    lemma_pow2_adds(24, 253);
    lemma_pow2_adds(23, 254);
}

/// The bits of a rounded value: a scale beyond the format's gives infinity,
/// and a carry out of the top binade gives infinity by itself.
proof fn lemma_finish(v: nat, m: nat, e: nat)
    requires
        m <= 0x100_0000,
        e == 0 || m >= 0x80_0000,
        v == m * pow2(e),
    ensures
        (if v >= pow2(277) {
            0x7f80_0000
        } else {
            encode(v)
        }) == (if e >= 254 {
            0x7f80_0000
        } else {
            e * 0x80_0000 + m
        }),
{
    lemma_infinity_units();
    lemma_encode(m, e);
    let p = pow2(e) as int;
    let top = pow2(253) as int;
    lemma_pow2_pos(e);
    if e >= 254 {
        lemma_pow2_order(254, e);
        assert(m * p >= 0x80_0000 * p) by (nonlinear_arith)
            requires
                m >= 0x80_0000,
                p > 0,
        ;
    } else if e == 253 {
        if m < 0x100_0000 {
            assert(m * p < 0x100_0000 * p) by (nonlinear_arith)
                requires
                    m < 0x100_0000,
                    p > 0,
            ;
        }
    } else {
        lemma_pow2_order(e + 1, 253);
        lemma_pow2_unfold(e + 1);
        assert(m * p <= 0x100_0000 * p) by (nonlinear_arith)
            requires
                m <= 0x100_0000,
                p > 0,
        ;
    }
}

/// An addend below a quarter of the spacing leaves a normal value where it is.
proof fn lemma_far(m: nat, e: nat, delta: nat, x: nat)
    requires
        0x80_0000 <= m < 0x100_0000,
        e >= 2,
        4 * delta < pow2(e),
        x == m * pow2(e) + delta || x == m * pow2(e) - delta,
    ensures
        round_nearest_even(x) == m * pow2(e),
{
    let p = pow2(e) as int;
    let h = pow2((e - 1) as nat) as int;
    lemma_pow2_unfold(e);
    lemma_pow2_pos((e - 1) as nat);
    if x == m * pow2(e) + delta {
        lemma_round(x, m, e, delta);
    } else if m > 0x80_0000 {
        assert((m - 1) * p + p == m * p) by (nonlinear_arith);
        lemma_round(x, (m - 1) as nat, e, (p - delta) as nat);
    } else {
        assert(m * p == 0xff_ffff * h + h) by (nonlinear_arith)
            requires
                m == 0x80_0000,
                p == 2 * h,
        ;
        assert((0xff_ffff + 1) * h == m * p) by (nonlinear_arith)
            requires
                m == 0x80_0000,
                p == 2 * h,
        ;
        lemma_round(x, 0xff_ffff, (e - 1) as nat, (h - delta) as nat);
    }
}

} // verus!
