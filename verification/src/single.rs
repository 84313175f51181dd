//! IEEE 754 single-precision values held as their bit patterns.
//!
//! Dot products and distances are only ever compared, sorted and subtracted
//! from one, so the library carries their bits and gives each of those
//! operations an integer meaning.
use vstd::arithmetic::power2::{
    lemma2_to64, lemma2_to64_rest, lemma_pow2_adds, lemma_pow2_pos, lemma_pow2_strictly_increases,
    lemma_pow2_unfold, pow2,
};
use vstd::prelude::*;

verus! {

/// A single-precision value, held as its bit pattern.
#[derive(Clone, Copy, Debug, PartialEq, Eq, Hash, Structural)]
pub struct Single {
    pub bits: u32,
}

/// The bit that holds the sign.
pub const SIGN: u32 = 0x8000_0000;

/// The magnitude of an infinity; a larger magnitude is a NaN.
pub const INFINITE: u32 = 0x7f80_0000;

/// The bits of `1.0`.
pub const ONE: u32 = 0x3f80_0000;

/// The bits of negative infinity.
pub const NEG_INFINITY: u32 = 0xff80_0000;

/// The weight of the exponent field's lowest bit.
pub const HIDDEN: u32 = 0x80_0000;

/// The value of the finite magnitude `m`, in units of the smallest positive
/// single (two to the power of -149).
pub open spec fn magnitude_value(m: int) -> int {
    if m < HIDDEN {
        m
    } else {
        (m % HIDDEN as int + HIDDEN) * pow2((m / HIDDEN as int - 1) as nat)
    }
}

/// The value at position `rank` among the finite singles in ascending order,
/// position zero being zero, in units of the smallest positive single.
pub open spec fn rank_value(rank: int) -> int {
    if rank < 0 {
        -magnitude_value(-rank)
    } else {
        magnitude_value(rank)
    }
}

/// The value of `1.0`, in units of the smallest positive single.
pub open spec fn one_value() -> int {
    rank_value(ONE as int)
}

pub open spec fn distance_between(a: int, b: int) -> int {
    if a < b {
        b - a
    } else {
        a - b
    }
}

/// Whether `r` is what round-to-nearest, ties-to-even makes of the exact value
/// `v`, both in units of the smallest positive single.
pub open spec fn rounds_to(v: int, r: Single) -> bool {
    &&& r.is_finite()
    &&& forall|q: Single| #[trigger]
        q.is_finite() ==> {
            ||| distance_between(r.value(), v) < distance_between(q.value(), v)
            ||| r.value() == q.value()
            ||| distance_between(r.value(), v) == distance_between(q.value(), v) && r.bits % 2 == 0
        }
}

impl Single {
    pub open spec fn is_negative(self) -> bool {
        self.bits >= SIGN
    }

    /// The bits without the sign.
    pub open spec fn magnitude(self) -> int {
        if self.bits >= SIGN {
            self.bits - SIGN
        } else {
            self.bits as int
        }
    }

    pub open spec fn is_nan(self) -> bool {
        self.magnitude() > INFINITE
    }

    pub open spec fn is_finite(self) -> bool {
        self.magnitude() < INFINITE
    }

    /// Where a value stands among all values that are not NaN: a larger rank is
    /// a larger value, and the two zeros share a rank.
    pub open spec fn rank(self) -> int {
        if self.is_negative() {
            -self.magnitude()
        } else {
            self.magnitude()
        }
    }

    /// Where a bit pattern stands in the IEEE 754 total order, which sets the
    /// zeros apart and orders the NaNs outside the infinities.
    pub open spec fn total_rank(self) -> int {
        if self.is_negative() {
            -self.magnitude() - 1
        } else {
            self.magnitude()
        }
    }

    /// The value of a finite single, in units of the smallest positive one.
    pub open spec fn value(self) -> int {
        rank_value(self.rank())
    }

    /// `self > other` of two floating-point values: false when either is NaN.
    pub open spec fn greater(self, other: Single) -> bool {
        !self.is_nan() && !other.is_nan() && self.rank() > other.rank()
    }

    /// Whether `r` is the floating-point result of `1.0 - self`.
    pub open spec fn is_one_minus(self, r: Single) -> bool {
        if self.is_finite() {
            &&& rounds_to(one_value() - self.value(), r)
            &&& r.rank() == 0 ==> r.bits == 0
        } else {
            r.bits == (if self.is_negative() {
                INFINITE
            } else {
                NEG_INFINITY
            })
        }
    }

    fn magnitude_bits(self) -> (m: u32)
        ensures
            m == self.magnitude(),
            m < SIGN,
    {
        if self.bits >= SIGN {
            self.bits - SIGN
        } else {
            self.bits
        }
    }

    /// Whether `self > other`, as floating-point comparison has it.
    pub fn gt(self, other: Single) -> (r: bool)
        ensures
            r == self.greater(other),
    {
        let a: u32 = self.magnitude_bits();
        let b: u32 = other.magnitude_bits();
        if a > INFINITE || b > INFINITE {
            false
        } else if self.bits < SIGN {
            if other.bits < SIGN {
                a > b
            } else {
                a > 0 || b > 0
            }
        } else {
            other.bits >= SIGN && a < b
        }
    }

    /// Whether `self >= other`, as floating-point comparison has it.
    pub fn ge(self, other: Single) -> (r: bool)
        ensures
            r == (!self.is_nan() && !other.is_nan() && self.rank() >= other.rank()),
    {
        let a: u32 = self.magnitude_bits();
        let b: u32 = other.magnitude_bits();
        a <= INFINITE && b <= INFINITE && !other.gt(self)
    }

    /// An unsigned integer that orders bit patterns as the total order does.
    pub fn total_key(self) -> (key: u32)
        ensures
            key == self.total_rank() + SIGN,
    {
        if self.bits >= SIGN {
            u32::MAX - self.bits
        } else {
            self.bits + SIGN
        }
    }

    /// The bit pattern that [`Single::total_key`] turns into `key`.
    pub fn from_total_key(key: u32) -> (r: Single)
        ensures
            r.total_rank() + SIGN == key,
    {
        if key < SIGN {
            Single { bits: u32::MAX - key }
        } else {
            Single { bits: key - SIGN }
        }
    }
}

/// The gap between the finite magnitude `m` and the next one.
spec fn gap(m: int) -> int {
    if m < HIDDEN {
        1
    } else {
        pow2((m / HIDDEN as int - 1) as nat) as int
    }
}

proof fn lemma_step(m: int)
    requires
        0 <= m,
    ensures
        magnitude_value(m + 1) == magnitude_value(m) + gap(m),
        gap(m) > 0,
        m > 0 ==> gap(m) <= 2 * gap(m - 1),
        m > 0 ==> gap(m - 1) <= gap(m),
{
    let h = HIDDEN as int;
    let e = m / h;
    let f = m % h;
    assert(m == e * h + f) by (nonlinear_arith)
        requires
            e == m / h,
            f == m % h,
            h == 0x80_0000,
    ;
    if m >= h {
        let p = pow2((e - 1) as nat) as int;
        lemma_pow2_pos((e - 1) as nat);
        if f + 1 < h {
            assert((m + 1) / h == e && (m + 1) % h == f + 1);
            assert((f + 1 + h) * p == (f + h) * p + p) by (nonlinear_arith);
        } else {
            assert((m + 1) / h == e + 1 && (m + 1) % h == 0);
            lemma_pow2_unfold(e as nat);
            assert((0 + h) * (2 * p) == (f + h) * p + p) by (nonlinear_arith)
                requires
                    f == h - 1,
            ;
        }
        if m - 1 >= h {
            if f == 0 {
                assert((m - 1) / h == e - 1);
                lemma_pow2_unfold((e - 1) as nat);
            } else {
                assert((m - 1) / h == e);
            }
        } else {
            assert(m == h && e == 1);
            lemma2_to64();
        }
    } else if m + 1 == h {
        assert((m + 1) / h == 1 && (m + 1) % h == 0);
        lemma2_to64();
        assert((0 + h) * 1 == h);
    }
}

/// Values rise with their rank.
pub proof fn lemma_rank_value_increases(a: int, b: int)
    requires
        a < b,
    ensures
        rank_value(a) < rank_value(b),
    decreases b - a,
{
    if b > a + 1 {
        lemma_rank_value_increases(a, b - 1);
    }
    if b > 0 {
        lemma_step(b - 1);
    } else {
        lemma_step(-b);
    }
}

/// A rank whose neighbours lie no nearer to `v` is the one `v` rounds to.
proof fn lemma_nearest(v: int, r: Single)
    requires
        r.is_finite(),
        2 * v <= r.value() + rank_value(r.rank() + 1),
        2 * v >= r.value() + rank_value(r.rank() - 1),
        2 * v == r.value() + rank_value(r.rank() + 1) ==> r.bits % 2 == 0,
        2 * v == r.value() + rank_value(r.rank() - 1) ==> r.bits % 2 == 0,
    ensures
        rounds_to(v, r),
{
    let k = r.rank();
    lemma_rank_value_increases(k, k + 1);
    lemma_rank_value_increases(k - 1, k);
    assert forall|q: Single| #[trigger] q.is_finite() implies {
        ||| distance_between(r.value(), v) < distance_between(q.value(), v)
        ||| r.value() == q.value()
        ||| distance_between(r.value(), v) == distance_between(q.value(), v) && r.bits % 2 == 0
    } by {
        let m = q.rank();
        if m > k + 1 {
            lemma_rank_value_increases(k + 1, m);
        } else if m < k - 1 {
            lemma_rank_value_increases(m, k - 1);
        }
    }
}

proof fn lemma_highest_bit(a: u64)
    requires
        a > 0,
    ensures
        0 <= vstd::std_specs::bits::u64_leading_zeros(a) <= 63,
        pow2((63 - vstd::std_specs::bits::u64_leading_zeros(a)) as nat) <= a,
        a < 2 * pow2((63 - vstd::std_specs::bits::u64_leading_zeros(a)) as nat),
    decreases a,
{
    reveal(vstd::std_specs::bits::u64_leading_zeros);
    vstd::std_specs::bits::axiom_u64_leading_zeros(a);
    lemma2_to64();
    if a >= 2 {
        lemma_highest_bit(a / 2);
        lemma_pow2_unfold((63 - vstd::std_specs::bits::u64_leading_zeros(a)) as nat);
    } else {
        reveal_with_fuel(vstd::std_specs::bits::u64_leading_zeros, 2);
    }
}

/// The magnitude that holds `kept`, scaled by two to the power of `field`.
proof fn lemma_encoded(field: int, kept: int)
    requires
        0 <= field,
        HIDDEN <= kept < 2 * HIDDEN,
    ensures
        magnitude_value(field * HIDDEN + kept) == kept * pow2(field as nat),
        magnitude_value(field * HIDDEN + kept + 1) == (kept + 1) * pow2(field as nat),
{
    let h = HIDDEN as int;
    let m = field * h + kept;
    assert(m / h == field + 1 && m % h == kept - h) by (nonlinear_arith)
        requires
            m == field * h + kept,
            h == 0x80_0000,
            h <= kept < 2 * h,
    ;
    lemma_step(m);
    assert(field * h >= 0) by (nonlinear_arith)
        requires
            field >= 0,
            h > 0,
    ;
    let p = pow2(field as nat) as int;
    assert(kept * p + p == (kept + 1) * p) by (nonlinear_arith);
}

/// How far `kept` units of two to the power of `field` fall short of `a` units
/// of two to the power of `unit`.
spec fn shortfall(a: int, unit: int, field: int, kept: int) -> int {
    a * pow2(unit as nat) - kept * pow2(field as nat)
}

proof fn lemma_widened(a: u64, unit: nat, shift: u64, field: nat)
    requires
        shift <= 23,
        field + shift == unit,
        pow2((23 - shift) as nat) <= a < 2 * pow2((23 - shift) as nat),
    ensures
        HIDDEN <= (a << shift) < 2 * HIDDEN,
        shortfall(a as int, unit as int, field as int, (a << shift) as int) == 0,
{
    let d = pow2(shift as nat) as int;
    let t = pow2((23 - shift) as nat) as int;
    lemma2_to64();
    lemma_pow2_adds((23 - shift) as nat, shift as nat);
    lemma_pow2_pos(shift as nat);
    assert(0x80_0000 <= a * d < 2 * 0x80_0000) by (nonlinear_arith)
        requires
            t <= a < 2 * t,
            t * d == 0x80_0000,
            d > 0,
    ;
    vstd::bits::lemma_u64_shl_is_mul(a, shift);
    lemma_pow2_adds(shift as nat, field);
    let p = pow2(field) as int;
    assert(a * (d * p) == (a * d) * p) by (nonlinear_arith);
}

proof fn lemma_narrowed(a: u64, unit: nat, shift: u64, field: nat)
    requires
        0 < shift <= 40,
        unit + shift == field,
        pow2((23 + shift) as nat) <= a < 2 * pow2((23 + shift) as nat),
    ensures
        HIDDEN <= (a >> shift) < 2 * HIDDEN,
        (1u64 << shift) == pow2(shift as nat),
        pow2(shift as nat) == 2 * pow2((shift - 1) as nat),
        ({
            let d = pow2(shift as nat) as int;
            let half = pow2((shift - 1) as nat) as int;
            let rest = a as int % d;
            let p = pow2(field) as int;
            let e = shortfall(a as int, unit as int, field as int, (a >> shift) as int);
            &&& 0 <= e < p
            &&& rest < half ==> 2 * e < p
            &&& rest == half ==> 2 * e == p
            &&& rest > half ==> 2 * e > p
        }),
{
    let d = pow2(shift as nat) as int;
    let t = pow2((23 + shift) as nat) as int;
    let u = pow2(unit) as int;
    let p = pow2(field) as int;
    lemma2_to64();
    lemma_pow2_adds(23, shift as nat);
    lemma_pow2_adds(unit, shift as nat);
    lemma_pow2_unfold(shift as nat);
    lemma_pow2_pos(shift as nat);
    lemma_pow2_pos(unit);
    vstd::bits::lemma_u64_shr_is_div(a, shift);
    assert(d <= t) by (nonlinear_arith)
        requires
            t == 0x80_0000 * d,
            d > 0,
    ;
    vstd::bits::lemma_u64_shl_is_mul(1, shift);
    let q = a as int / d;
    let rest = a as int % d;
    let half = pow2((shift - 1) as nat) as int;
    assert(a == q * d + rest && 0 <= rest < d && 0x80_0000 <= q < 2 * 0x80_0000)
        by (nonlinear_arith)
        requires
            q == a as int / d,
            rest == a as int % d,
            d > 0,
            0x80_0000 * d <= a < 2 * (0x80_0000 * d),
    ;
    assert((q * d + rest) * u == q * p + rest * u && 0 <= rest * u < p) by (nonlinear_arith)
        requires
            p == u * d,
            0 <= rest < d,
            u > 0,
    ;
    assert(rest < half ==> 2 * (rest * u) < p) by (nonlinear_arith)
        requires
            p == u * (2 * half),
            u > 0,
    ;
    assert(rest > half ==> 2 * (rest * u) > p) by (nonlinear_arith)
        requires
            p == u * (2 * half),
            u > 0,
    ;
    assert(rest == half ==> 2 * (rest * u) == p) by (nonlinear_arith)
        requires
            p == u * (2 * half),
    ;
}

/// The 24 leading bits of `a` units of two to the power of `unit`: their
/// exponent, the bits, and whether rounding to nearest takes the next larger.
fn leading_bits(a: u64, unit: u32) -> (r: (u32, u32, bool))
    requires
        a > 0,
        23 <= unit <= 139,
    ensures
        r.0 <= 179,
        HIDDEN <= r.1 < 2 * HIDDEN,
        ({
            let p = pow2(r.0 as nat) as int;
            let e = shortfall(a as int, unit as int, r.0 as int, r.1 as int);
            &&& 0 <= e < p
            &&& r.2 == (2 * e > p || (2 * e == p && r.1 % 2 == 1))
        }),
{
    proof {
        lemma_highest_bit(a);
    }
    // The position of the highest set bit.
    let top: u32 = 63 - a.leading_zeros();
    let field: u32 = top + unit - 23;
    proof {
        lemma_pow2_pos(field as nat);
    }
    if top <= 23 {
        let shift: u64 = (23 - top) as u64;
        proof {
            lemma_widened(a, unit as nat, shift, field as nat);
        }
        (field, (a << shift) as u32, false)
    } else {
        let shift: u64 = (top - 23) as u64;
        proof {
            lemma_narrowed(a, unit as nat, shift, field as nat);
            lemma_pow2_pos(shift as nat);
        }
        let kept: u32 = (a >> shift) as u32;
        let divisor: u64 = 1u64 << shift;
        let rest: u64 = a % divisor;
        let half: u64 = divisor / 2;
        (field, kept, rest > half || (rest == half && kept % 2 == 1))
    }
}

/// The magnitude that rounding to nearest makes of a value `e` above `kept`
/// units of two to the power of `field`.
proof fn lemma_rounded(field: int, kept: int, e: int, up: bool, r: Single)
    requires
        0 <= field <= 179,
        HIDDEN <= kept < 2 * HIDDEN,
        0 <= e < pow2(field as nat),
        up == (2 * e > pow2(field as nat) || (2 * e == pow2(field as nat) && kept % 2 == 1)),
        r.magnitude() == field * HIDDEN + kept + (if up {
            1int
        } else {
            0int
        }),
    ensures
        rounds_to(
            if r.is_negative() {
                -(kept * pow2(field as nat) + e)
            } else {
                kept * pow2(field as nat) + e
            },
            r,
        ),
        r.rank() != 0,
{
    let m = r.magnitude();
    let p = pow2(field as nat) as int;
    let v = kept * p + e;
    lemma_encoded(field, kept);
    lemma_step(m);
    lemma_step(m - 1);
    let below = magnitude_value(m - 1);
    let at = magnitude_value(m);
    let above = magnitude_value(m + 1);
    assert((kept + 1) * p == kept * p + p) by (nonlinear_arith);
    assert(m % 2 == (kept + (if up {
        1int
    } else {
        0int
    })) % 2);
    assert(2 * v <= at + above && 2 * v >= below + at);
    assert(2 * v == at + above ==> m % 2 == 0);
    assert(2 * v == below + at ==> m % 2 == 0);
    assert(r.bits % 2 == m % 2);
    if r.is_negative() {
        assert(r.value() == -at && rank_value(r.rank() + 1) == -below && rank_value(r.rank() - 1)
            == -above);
        lemma_nearest(-v, r);
    } else {
        assert(r.value() == at && rank_value(r.rank() + 1) == above && rank_value(r.rank() - 1)
            == below);
        lemma_nearest(v, r);
    }
}

/// The single nearest to `a` units of two to the power of `unit` (itself
/// counted in smallest positive singles), negated if `negative`.
fn round_scaled(a: u64, unit: u32, negative: bool) -> (r: Single)
    requires
        a > 0,
        23 <= unit <= 139,
    ensures
        rounds_to(
            if negative {
                -(a * pow2(unit as nat))
            } else {
                a * pow2(unit as nat)
            },
            r,
        ),
        r.rank() != 0,
{
    let (field, kept, up) = leading_bits(a, unit);
    let mag: u32 = field * HIDDEN + kept + (if up {
        1
    } else {
        0
    });
    let r = if negative {
        Single { bits: mag + SIGN }
    } else {
        Single { bits: mag }
    };
    proof {
        let e = shortfall(a as int, unit as int, field as int, kept as int);
        lemma_rounded(field as int, kept as int, e, up, r);
    }
    r
}

proof fn lemma_one()
    ensures
        one_value() == pow2(149),
        pow2(149) == pow2(49) * pow2(100),
        pow2(149) == pow2(10) * pow2(139),
        pow2(49) == 0x2_0000_0000_0000,
        pow2(10) == 0x400,
{
    lemma2_to64();
    lemma2_to64_rest();
    lemma_pow2_adds(49, 100);
    lemma_pow2_adds(10, 139);
    lemma_pow2_adds(23, 126);
    assert(ONE as int / HIDDEN as int == 127 && ONE as int % HIDDEN as int == 0);
}

/// A magnitude too small to move `1.0`.
proof fn lemma_absorbed_by_one(x: Single)
    requires
        x.magnitude() < 101 * HIDDEN,
    ensures
        x.is_one_minus((Single { bits: ONE })),
{
    let one = Single { bits: ONE };
    lemma_one();
    lemma_pow2_pos(149);
    lemma_rank_value_increases(x.magnitude(), 101 * HIDDEN as int);
    lemma_rank_value_increases(-101 * HIDDEN as int, -x.magnitude());
    let h = HIDDEN as int;
    assert((101 * h) / h == 101 && (101 * h) % h == 0);
    lemma2_to64();
    lemma_pow2_adds(23, 100);
    lemma_pow2_unfold(124);
    lemma_pow2_unfold(125);
    lemma_pow2_unfold(126);
    lemma_step(ONE as int);
    lemma_step(ONE - 1);
    assert((ONE - 1) / h == 126 && ONE as int / h == 127);
    assert(ONE % 2 == 0);
    lemma_nearest(one_value() - x.value(), one);
}

/// A magnitude so large that `1.0` does not move it.
proof fn lemma_absorbs_one(x: Single, r: Single)
    requires
        153 * HIDDEN <= x.magnitude() < INFINITE,
        r.magnitude() == x.magnitude(),
        r.is_negative() != x.is_negative(),
    ensures
        x.is_one_minus(r),
{
    let h = HIDDEN as int;
    let m = x.magnitude();
    lemma_one();
    lemma_step(m);
    lemma_step(m - 1);
    let e = (m - 1) / h;
    assert(e >= 152);
    if e > 152 {
        lemma_pow2_strictly_increases(151, (e - 1) as nat);
    }
    lemma_pow2_unfold(151);
    lemma_pow2_unfold(150);
    lemma_pow2_pos(149);
    lemma_rank_value_increases(0, m);
    lemma_nearest(one_value() - x.value(), r);
}

impl Single {
    /// The floating-point result of `1.0 - self`.
    pub fn one_minus(self) -> (r: Single)
        requires
            !self.is_nan(),
        ensures
            self.is_one_minus(r),
    {
        let mag: u32 = self.magnitude_bits();
        let negative = self.bits >= SIGN;
        if mag < 101 * HIDDEN {
            proof {
                lemma_absorbed_by_one(self);
            }
            return Single { bits: ONE };
        }
        if mag >= 153 * HIDDEN {
            let r = Single {
                bits: if negative {
                    mag
                } else {
                    mag + SIGN
                },
            };
            proof {
                if mag < INFINITE {
                    lemma_absorbs_one(self, r);
                }
            }
            return r;
        }
        let field: u32 = mag / HIDDEN;
        let significand: u64 = (mag % HIDDEN + HIDDEN) as u64;
        let (base, one): (u32, u64) = if field < 140 {
            (101, 0x2_0000_0000_0000)
        } else {
            (140, 0x400)
        };
        let shift: u64 = (field - base) as u64;
        let ghost u: int = pow2((base - 1) as nat) as int;
        proof {
            let d = pow2(shift as nat) as int;
            lemma_one();
            lemma2_to64();
            lemma2_to64_rest();
            lemma_pow2_pos(shift as nat);
            if shift < 38 {
                lemma_pow2_strictly_increases(shift as nat, 38);
            }
            assert(0 < significand * d <= 0x4000_0000_0000_0000) by (nonlinear_arith)
                requires
                    0 < significand < 0x100_0000,
                    0 < d <= 0x40_0000_0000,
            ;
            vstd::bits::lemma_u64_shl_is_mul(significand, shift);
            lemma_pow2_adds(shift as nat, (base - 1) as nat);
            assert(significand * (d * u) == (significand * d) * u) by (nonlinear_arith);
        }
        let scaled: u64 = significand << shift;
        let ghost w: int = scaled * u;
        assert(magnitude_value(mag as int) == w);
        assert(one_value() == one * u);
        assert((one + scaled) * u == one * u + w && (one - scaled) * u == one * u - w && (scaled
            - one) * u == w - one * u) by (nonlinear_arith)
            requires
                w == scaled * u,
        ;
        if negative {
            round_scaled(one + scaled, base - 1, false)
        } else if one > scaled {
            round_scaled(one - scaled, base - 1, false)
        } else if one < scaled {
            round_scaled(scaled - one, base - 1, true)
        } else {
            let r = Single { bits: 0 };
            proof {
                lemma_nearest(0, r);
            }
            r
        }
    }
}

/// Only one single is what an exact value rounds to.
pub proof fn lemma_rounds_to_one_value(v: int, a: Single, b: Single)
    requires
        rounds_to(v, a),
        rounds_to(v, b),
    ensures
        a.rank() == b.rank(),
{
    lemma_rounding_is_not_split(v, a, b);
    lemma_rounding_is_not_split(v, b, a);
}

proof fn lemma_rounding_is_not_split(v: int, a: Single, b: Single)
    requires
        rounds_to(v, a),
        rounds_to(v, b),
    ensures
        b.rank() <= a.rank(),
{
    if a.rank() < b.rank() {
        lemma_rank_value_increases(a.rank(), b.rank());
        let next = if a.rank() == -1 {
            Single { bits: 0 }
        } else if a.is_negative() && a.magnitude() > 0 {
            Single { bits: (a.bits - 1) as u32 }
        } else {
            Single { bits: (a.magnitude() + 1) as u32 }
        };
        assert(next.rank() == a.rank() + 1);
        lemma_rank_value_increases(a.rank(), next.rank());
        if next.rank() < b.rank() {
            lemma_rank_value_increases(next.rank(), b.rank());
            assert(next.is_finite());
        } else {
            assert(a.is_finite() && b.is_finite());
            assert(a.bits % 2 == 0 && b.bits % 2 == 0);
        }
    }
}

/// The larger of two values leaves the smaller difference: `1.0 - x` never
/// rises as `x` does, and two values of one rank leave one difference.
pub proof fn lemma_one_minus_reverses(x: Single, y: Single, a: Single, b: Single)
    requires
        !x.is_nan(),
        !y.is_nan(),
        x.rank() >= y.rank(),
        x.is_one_minus(a),
        y.is_one_minus(b),
    ensures
        !a.is_nan(),
        !b.is_nan(),
        a.total_rank() <= b.total_rank(),
        x.rank() == y.rank() ==> a == b,
{
    if x.is_finite() && y.is_finite() {
        if x.rank() == y.rank() {
            lemma_rounds_to_one_value(one_value() - x.value(), a, b);
        } else {
            lemma_rank_value_increases(y.rank(), x.rank());
            if a.rank() > b.rank() {
                lemma_rank_value_increases(b.rank(), a.rank());
                assert(a.is_finite() && b.is_finite());
            }
        }
    }
}

/// The value that a finite bit pattern encodes, in units of two to the power of -149:
/// the fraction in the low 23 bits, with a leading one and scaled by the exponent in the
/// next eight unless that is zero, negated where the highest bit is set.
pub open spec fn encoded_value(bits: u32) -> int {
    let (exponent, fraction) = (bits / 0x80_0000 % 0x100, bits % 0x80_0000);
    let size = if exponent == 0 {
        fraction as int
    } else {
        (fraction + 0x80_0000) * pow2((exponent - 1) as nat)
    };
    if bits / 0x8000_0000 == 1 {
        -size
    } else {
        size
    }
}

/// A bit pattern is finite, infinite or not a number by its exponent and fraction, and
/// the value of a finite one is what they encode.
pub proof fn lemma_value_is_encoded(x: Single)
    ensures
        x.is_finite() <==> x.bits / 0x80_0000 % 0x100 != 0xff,
        x.is_nan() <==> x.bits / 0x80_0000 % 0x100 == 0xff && x.bits % 0x80_0000 != 0,
        x.is_negative() <==> x.bits / 0x8000_0000 == 1,
        x.is_finite() ==> x.value() == encoded_value(x.bits),
{
    let bits = x.bits;
    let m = x.magnitude();
    let (e, f) = (bits / 0x80_0000 % 0x100, bits % 0x80_0000);
    assert(bits == bits / 0x8000_0000 * 0x8000_0000 + e * 0x80_0000 + f && e < 0x100 && f
        < 0x80_0000 && bits / 0x8000_0000 <= 1) by (bit_vector)
        requires
            e == bits / 0x80_0000 % 0x100,
            f == bits % 0x80_0000,
    ;
    assert(m == e * 0x80_0000 + f);
    assert(m / 0x80_0000 == e && m % 0x80_0000 == f);
    if x.is_negative() && m == 0 {
        assert(x.value() == 0);
    }
}

/// One single is greater than another exactly where neither is a NaN and the value that
/// it encodes is the larger, an infinity being beyond every finite value.
pub proof fn lemma_greater_by_value(x: Single, y: Single, r: bool, also: bool)
    requires
        call_ensures(Single::gt, (x, y), r),
        call_ensures(Single::ge, (x, y), also),
    ensures
        r == x.greater(y),
        x.is_nan() || y.is_nan() ==> !r && !also,
        x.is_finite() && y.is_finite() ==> (r <==> encoded_value(x.bits) > encoded_value(y.bits)),
        x.is_finite() && y.is_finite() ==> (also <==> encoded_value(x.bits) >= encoded_value(
            y.bits,
        )),
        x.bits == 0x7f80_0000 && !y.is_nan() ==> also && (r <==> y.bits != 0x7f80_0000),
        y.bits == 0x7f80_0000 && !x.is_nan() ==> !r && (also <==> x.bits == 0x7f80_0000),
        y.bits == 0xff80_0000 && !x.is_nan() ==> also && (r <==> x.bits != 0xff80_0000),
        x.bits == 0xff80_0000 && !y.is_nan() ==> !r && (also <==> y.bits == 0xff80_0000),
{
    lemma_value_is_encoded(x);
    lemma_value_is_encoded(y);
    if x.rank() < y.rank() {
        lemma_rank_value_increases(x.rank(), y.rank());
    }
    if y.rank() < x.rank() {
        lemma_rank_value_increases(y.rank(), x.rank());
    }
}

/// The key of a bit pattern orders all of them: those with the sign bit before those
/// without it, the former by descending bits and the latter by ascending ones. No two
/// share a key, and each is had back from its key.
pub proof fn lemma_key_orders_totally(x: Single, y: Single, a: u32, b: u32, back: Single)
    requires
        call_ensures(Single::total_key, (x,), a),
        call_ensures(Single::total_key, (y,), b),
        call_ensures(Single::from_total_key, (a,), back),
    ensures
        back == x,
        a == x.total_rank() + 0x8000_0000,
        x.bits >= 0x8000_0000 && y.bits < 0x8000_0000 ==> a < b,
        x.bits < 0x8000_0000 && y.bits < 0x8000_0000 ==> (a < b <==> x.bits < y.bits),
        x.bits >= 0x8000_0000 && y.bits >= 0x8000_0000 ==> (a < b <==> x.bits > y.bits),
        x.greater(y) ==> a > b,
{
}

/// What `1 - x` comes to is a finite single nearest to the exact difference of the values,
/// the even one of two that are as near, and the positive of the two zeros; of an
/// infinity it is the other one.
pub proof fn lemma_one_minus_is_nearest(x: Single, r: Single)
    requires
        call_ensures(Single::one_minus, (x,), r),
        !x.is_nan(),
    ensures
        x.bits == 0x7f80_0000 ==> r.bits == 0xff80_0000,
        x.bits == 0xff80_0000 ==> r.bits == 0x7f80_0000,
        x.is_finite() ==> {
            let exact = pow2(149) - encoded_value(x.bits);
            &&& r.is_finite()
            &&& r.bits != 0x8000_0000
            &&& forall|q: Single| #[trigger]
                q.is_finite() ==> {
                    let (own, other) = (
                        encoded_value(r.bits) - exact,
                        encoded_value(q.bits) - exact,
                    );
                    let (near, far) = (
                        if own < 0 {
                            -own
                        } else {
                            own
                        },
                        if other < 0 {
                            -other
                        } else {
                            other
                        },
                    );
                    &&& near <= far
                    &&& near == far && own != other ==> r.bits % 2 == 0
                }
        },
{
    lemma_value_is_encoded(x);
    lemma_value_is_encoded(r);
    lemma_one();
    if x.is_finite() {
        assert forall|q: Single| #[trigger] q.is_finite() implies {
            let exact = pow2(149) - encoded_value(x.bits);
            let (own, other) = (encoded_value(r.bits) - exact, encoded_value(q.bits) - exact);
            let (near, far) = (
                if own < 0 {
                    -own
                } else {
                    own
                },
                if other < 0 {
                    -other
                } else {
                    other
                },
            );
            &&& near <= far
            &&& near == far && own != other ==> r.bits % 2 == 0
        } by {
            lemma_value_is_encoded(q);
        }
    }
}

} // verus!
