//! World coordinates as IEEE-754 binary64 bit patterns.
//!
//! A coordinate is stored, published and compared by its bits alone. The model
//! gives every pattern that is not NaN an exact integer value, counted in units
//! of 2^-1074 (the smallest positive binary64 number), so comparisons and block
//! rounding are stated without rounding error. An infinity is given a value
//! beyond every finite one.
use vstd::arithmetic::div_mod::*;
use vstd::arithmetic::mul::*;
use vstd::arithmetic::power2::*;
use vstd::prelude::*;

verus! {

/// Number of distinct fractions of one exponent: 2^52.
pub const FRACTION_SPAN: u64 = 0x10_0000_0000_0000;

/// Weight of the sign bit: 2^63.
pub const SIGN_WEIGHT: u64 = 0x8000_0000_0000_0000;

/// One coordinate, as the bits of a binary64 number. `==` compares the numbers: both
/// zeros are equal, and NaN equals nothing.
#[derive(Clone, Copy, Debug)]
pub struct Coord {
    pub bits: u64,
}

/// The exponent field of a bit pattern.
pub open spec fn exponent_of(bits: u64) -> nat {
    ((bits / FRACTION_SPAN) % 2048) as nat
}

/// The fraction field of a bit pattern.
pub open spec fn fraction_of(bits: u64) -> nat {
    (bits % FRACTION_SPAN) as nat
}

/// The absolute value of a number with these fields, in units of 2^-1074.
pub open spec fn magnitude(exponent: nat, fraction: nat) -> nat {
    if exponent == 0 {
        fraction
    } else {
        (FRACTION_SPAN as nat + fraction) * pow2((exponent - 1) as nat)
    }
}

/// One block, in units of 2^-1074.
pub open spec fn block_unit() -> nat {
    pow2(1074)
}

/// The nearest `i32` to an integer.
pub open spec fn clamp_i32(v: int) -> int {
    if v < i32::MIN {
        i32::MIN as int
    } else if v > i32::MAX {
        i32::MAX as int
    } else {
        v
    }
}

impl PartialEq for Coord {
    fn eq(&self, other: &Coord) -> (r: bool) {
        self.le(*other) && other.le(*self)
    }
}

impl vstd::std_specs::cmp::PartialEqSpecImpl for Coord {
    open spec fn obeys_eq_spec() -> bool {
        true
    }

    open spec fn eq_spec(&self, other: &Coord) -> bool {
        self.equals(*other)
    }
}

impl Coord {
    pub open spec fn is_nan(self) -> bool {
        exponent_of(self.bits) == 2047 && fraction_of(self.bits) != 0
    }

    pub open spec fn is_negative(self) -> bool {
        self.bits >= SIGN_WEIGHT
    }

    /// The number itself, in units of 2^-1074.
    pub open spec fn value(self) -> int {
        let m = magnitude(exponent_of(self.bits), fraction_of(self.bits)) as int;
        if self.is_negative() {
            -m
        } else {
            m
        }
    }

    /// `self <= other`; false when either side is NaN.
    pub open spec fn at_most(self, other: Coord) -> bool {
        !self.is_nan() && !other.is_nan() && self.value() <= other.value()
    }

    /// `self < other`; false when either side is NaN.
    pub open spec fn below(self, other: Coord) -> bool {
        !self.is_nan() && !other.is_nan() && self.value() < other.value()
    }

    /// `self == other` as numbers; false when either side is NaN.
    pub open spec fn equals(self, other: Coord) -> bool {
        !self.is_nan() && !other.is_nan() && self.value() == other.value()
    }

    /// Greatest block coordinate not above the number, clamped to `i32`; 0 for NaN.
    pub open spec fn floor_block(self) -> int {
        if self.is_nan() {
            0
        } else {
            clamp_i32(self.value() / block_unit() as int)
        }
    }

    /// Least block coordinate not below the number, clamped to `i32`; 0 for NaN.
    pub open spec fn ceil_block(self) -> int {
        if self.is_nan() {
            0
        } else {
            clamp_i32(-((-self.value()) / block_unit() as int))
        }
    }
}

/// Bit patterns of one sign are ordered as their magnitudes are.
proof fn lemma_magnitude_ordered(a: nat, b: nat)
    requires
        a < b < 2048 * FRACTION_SPAN,
    ensures
        magnitude(a / FRACTION_SPAN as nat, a % FRACTION_SPAN as nat) < magnitude(
            b / FRACTION_SPAN as nat,
            b % FRACTION_SPAN as nat,
        ),
{
    let span = FRACTION_SPAN as nat;
    let (ea, fa) = (a / span, a % span);
    let (eb, fb) = (b / span, b % span);
    assert(ea <= eb);
    if ea == eb {
        assert(fa < fb);
        if ea > 0 {
            let p = pow2((ea - 1) as nat);
            lemma_pow2_pos((ea - 1) as nat);
            lemma_mul_strict_inequality((span + fa) as int, (span + fb) as int, p as int);
        }
    } else {
        let pb = pow2((eb - 1) as nat);
        lemma_pow2_pos((eb - 1) as nat);
        lemma_mul_inequality(span as int, (span + fb) as int, pb as int);
        assert(magnitude(eb, fb) >= span * pb);
        if ea == 0 {
            lemma_mul_inequality(1, pb as int, span as int);
            assert(span * pb == pb * span) by (nonlinear_arith);
            assert(magnitude(ea, fa) < span);
        } else {
            let pa = pow2((ea - 1) as nat);
            lemma_pow2_pos((ea - 1) as nat);
            lemma_mul_strict_inequality((span + fa) as int, (2 * span) as int, pa as int);
            lemma_pow2_adds(1, (ea - 1) as nat);
            lemma2_to64();
            assert(pow2(ea) == 2 * pa);
            assert((2 * span) * pa == span * pow2(ea)) by (nonlinear_arith)
                requires
                    pow2(ea) == 2 * pa,
            ;
            if ea < eb - 1 {
                lemma_pow2_strictly_increases(ea, (eb - 1) as nat);
            }
            lemma_mul_inequality(pow2(ea) as int, pb as int, span as int);
            assert(pow2(ea) * span == span * pow2(ea)) by (nonlinear_arith);
            assert(pb * span == span * pb) by (nonlinear_arith);
        }
    }
}

/// The distance between two values.
pub open spec fn distance(a: int, b: int) -> nat {
    if a <= b {
        (b - a) as nat
    } else {
        (a - b) as nat
    }
}

/// The absolute value of the pattern `n`, which carries no sign.
spec fn pattern_value(n: nat) -> int {
    magnitude(n / FRACTION_SPAN as nat, n % FRACTION_SPAN as nat) as int
}

/// The pattern of infinity, without a sign.
pub const INFINITY_BITS: u64 = 0x7ff0_0000_0000_0000;

/// `n` is the pattern nearest to `x`, the even one of two equally near.
spec fn nearest_pattern(n: nat, x: int) -> bool {
    &&& n <= INFINITY_BITS
    &&& forall|c: nat|
        #![trigger pattern_value(c)]
        c <= INFINITY_BITS ==> {
            &&& distance(pattern_value(n), x) <= distance(pattern_value(c), x)
            &&& c != n && distance(pattern_value(n), x) == distance(pattern_value(c), x) ==> n % 2
                == 0
        }
}

/// A pattern is nearest when its two neighbours are no nearer.
proof fn lemma_nearest(n: nat, x: int)
    requires
        n <= INFINITY_BITS,
        n > 0 ==> distance(pattern_value(n), x) <= distance(pattern_value((n - 1) as nat), x),
        n > 0 && distance(pattern_value(n), x) == distance(pattern_value((n - 1) as nat), x) ==> n
            % 2 == 0,
        n < INFINITY_BITS ==> distance(pattern_value(n), x) <= distance(
            pattern_value((n + 1) as nat),
            x,
        ),
        n < INFINITY_BITS && distance(pattern_value(n), x) == distance(
            pattern_value((n + 1) as nat),
            x,
        ) ==> n % 2 == 0,
    ensures
        nearest_pattern(n, x),
{
    assert forall|c: nat|
        #![trigger pattern_value(c)]
        c <= INFINITY_BITS implies {
        &&& distance(pattern_value(n), x) <= distance(pattern_value(c), x)
        &&& c != n && distance(pattern_value(n), x) == distance(pattern_value(c), x) ==> n % 2 == 0
    } by {
        if c < n {
            lemma_magnitude_ordered((n - 1) as nat, n);
            if c < n - 1 {
                lemma_magnitude_ordered(c, (n - 1) as nat);
            }
        } else if c > n {
            lemma_magnitude_ordered(n, (n + 1) as nat);
            if c > n + 1 {
                lemma_magnitude_ordered((n + 1) as nat, c);
            }
        }
    }
}

/// The value of the pattern that has `scale` for its exponent field and `q`
/// added to it, where `q` carries the leading bit of the significand.
proof fn lemma_scaled_pattern(q: nat, scale: nat)
    requires
        q <= 2 * FRACTION_SPAN,
        scale == 0 || FRACTION_SPAN <= q,
    ensures
        pattern_value((scale * FRACTION_SPAN + q) as nat) == q * pow2(scale),
{
    let span = FRACTION_SPAN as nat;
    let n = (scale * span + q) as nat;
    lemma2_to64();
    if q < span {
        assert(n / span == 0 && n % span == q) by {
            lemma_fundamental_div_mod_converse(n as int, span as int, 0, q as int);
        }
    } else if q < 2 * span {
        assert(n / span == scale + 1 && n % span == q - span) by {
            assert(n == (scale + 1) * span + (q - span)) by (nonlinear_arith)
                requires
                    n == scale * span + q,
            ;
            lemma_fundamental_div_mod_converse(
                n as int,
                span as int,
                (scale + 1) as int,
                (q - span) as int,
            );
        }
    } else {
        assert(n / span == scale + 2 && n % span == 0) by {
            assert(n == (scale + 2) * span + 0) by (nonlinear_arith)
                requires
                    n == scale * span + q,
                    q == 2 * span,
            ;
            lemma_fundamental_div_mod_converse(n as int, span as int, (scale + 2) as int, 0);
        }
        lemma_pow2_unfold((scale + 1) as nat);
        assert(span * pow2((scale + 1) as nat) == q * pow2(scale)) by (nonlinear_arith)
            requires
                pow2((scale + 1) as nat) == 2 * pow2(scale),
                q == 2 * span,
        ;
    }
}

/// The pattern nearest to `s * 2^scale`, for a number below 2^119 times the
/// scale, ties to even; the pattern of infinity stands for 2^1024.
#[verifier::spinoff_prover]
#[verifier::rlimit(40)]
fn round_scaled(s: u128, scale: u64) -> (n: u64)
    requires
        s < 0x80_0000_0000_0000_0000_0000_0000_0000,
        scale <= 2045,
    ensures
        nearest_pattern(n as nat, (s * pow2(scale as nat)) as int),
        s == 0 ==> n == 0,
{
    let ghost x: int = (s * pow2(scale as nat)) as int;
    proof {
        lemma2_to64();
        lemma2_to64_rest();
        lemma_pow2_pos(scale as nat);
    }
    if s == 0 {
        proof {
            assert(x == 0) by (nonlinear_arith)
                requires
                    s == 0,
                    x == s * pow2(scale as nat),
            ;
            lemma_magnitude_ordered(0, 1);
            lemma_nearest(0, x);
        }
        return 0;
    }
    if s < 2 * FRACTION_SPAN as u128 {
        // Exact: bring the leading bit up as far as the scale allows.
        let mut q: u64 = s as u64;
        let mut k: u64 = scale;
        while q < FRACTION_SPAN && k > 0
            invariant
                0 < q < 2 * FRACTION_SPAN,
                k <= 2045,
                q * pow2(k as nat) == x,
            decreases k,
        {
            proof {
                lemma_pow2_unfold(k as nat);
                assert((2 * q) * pow2((k - 1) as nat) == x) by (nonlinear_arith)
                    requires
                        q * pow2(k as nat) == x,
                        pow2(k as nat) == 2 * pow2((k - 1) as nat),
                ;
            }
            q = 2 * q;
            k = k - 1;
        }
        proof {
            lemma_scaled_pattern(q as nat, k as nat);
            let n = (k * FRACTION_SPAN + q) as nat;
            if n > 0 {
                lemma_magnitude_ordered((n - 1) as nat, n);
            }
            lemma_magnitude_ordered(n, (n + 1) as nat);
            lemma_nearest(n, x);
        }
        return k * FRACTION_SPAN + q;
    }
    let mut unit: u128 = 2;
    let mut dropped: u64 = 1;
    proof {
        assert(unit / 2 == 1);
        assert(s / 1 == s);
    }
    while s / unit >= 2 * FRACTION_SPAN as u128
        invariant
            0 < unit,
            unit == pow2(dropped as nat),
            1 <= dropped <= 66,
            s < 0x80_0000_0000_0000_0000_0000_0000_0000,
            s / (unit / 2) as u128 >= 2 * FRACTION_SPAN,
        decreases 66 - dropped,
    {
        proof {
            lemma2_to64();
            lemma2_to64_rest();
            lemma_pow2_unfold((dropped + 1) as nat);
            lemma_pow2_unfold(65);
            lemma_pow2_unfold(66);
            assert(dropped < 66) by {
                if dropped == 66 {
                    assert(unit == 0x4_0000_0000_0000_0000);
                    assert(s / 0x4_0000_0000_0000_0000 < 2 * FRACTION_SPAN);
                }
            }
            if dropped < 65 {
                lemma_pow2_strictly_increases(dropped as nat, 65);
            }
        }
        unit = 2 * unit;
        dropped = dropped + 1;
    }
    let q: u64 = (s / unit) as u64;
    let rem: u128 = s % unit;
    let k: u64 = scale + dropped;
    proof {
        lemma_pow2_unfold(65);
        lemma_pow2_unfold(66);
        if dropped < 66 {
            lemma_pow2_strictly_increases(dropped as nat, 66);
        }
        lemma_pow2_unfold(dropped as nat);
        assert(q >= FRACTION_SPAN) by {
            let h = (unit / 2) as int;
            assert(unit == 2 * h);
            lemma_div_denominator(s as int, h, 2);
            assert(h * 2 == unit);
            assert((s as int / h) / 2 == s as int / unit as int);
        }
    }
    let up: bool = 2 * rem > unit || (2 * rem == unit && q % 2 == 1);
    let ghost p = pow2(scale as nat) as int;
    let ghost low = (k * FRACTION_SPAN + q) as nat;
    proof {
        lemma_pow2_adds(scale as nat, dropped as nat);
        lemma_fundamental_div_mod(s as int, unit as int);
        lemma_scaled_pattern(q as nat, k as nat);
        lemma_scaled_pattern((q + 1) as nat, k as nat);
        let v = pattern_value(low);
        assert(v == q * unit * p) by (nonlinear_arith)
            requires
                v == q * pow2(k as nat),
                pow2(k as nat) == p * unit,
        ;
        assert(pattern_value((low + 1) as nat) == v + unit * p) by (nonlinear_arith)
            requires
                v == q * unit * p,
                pattern_value((low + 1) as nat) == (q + 1) * pow2(k as nat),
                pow2(k as nat) == p * unit,
        ;
        assert(x == v + rem * p) by (nonlinear_arith)
            requires
                x == s * p,
                s == unit * q + rem,
                v == q * unit * p,
        ;
        assert(0 <= rem * p < unit * p) by (nonlinear_arith)
            requires
                0 <= rem < unit,
                0 < p,
        ;
        assert((2 * rem > unit) == (2 * (rem * p) > unit * p)) by (nonlinear_arith)
            requires
                0 < p,
        ;
        assert((2 * rem == unit) == (2 * (rem * p) == unit * p)) by (nonlinear_arith)
            requires
                0 < p,
        ;
        assert(low % 2 == q % 2) by {
            assert(low == 2 * (k * 0x8_0000_0000_0000) + q);
        }
    }
    if k >= 2046 {
        proof {
            let inf = INFINITY_BITS as nat;
            lemma_scaled_pattern(FRACTION_SPAN as nat, 2046);
            assert(pattern_value(low) >= pattern_value(inf)) by {
                if low > inf {
                    assert(q * pow2(k as nat) >= FRACTION_SPAN * pow2(2046)) by {
                        if k > 2046 {
                            lemma_pow2_strictly_increases(2046, k as nat);
                        }
                        assert(q * pow2(k as nat) >= FRACTION_SPAN * pow2(2046)) by (nonlinear_arith)
                            requires
                                q >= FRACTION_SPAN,
                                pow2(k as nat) >= pow2(2046),
                        ;
                    }
                }
            }
            lemma_magnitude_ordered((inf - 1) as nat, inf);
            lemma_nearest(inf, x);
        }
        return INFINITY_BITS;
    }
    let n: u64 = if up {
        k * FRACTION_SPAN + q + 1
    } else {
        k * FRACTION_SPAN + q
    };
    proof {
        lemma_magnitude_ordered((low - 1) as nat, low);
        if low + 1 < INFINITY_BITS {
            lemma_magnitude_ordered((low + 1) as nat, (low + 2) as nat);
        }
        lemma_nearest(n as nat, x);
    }
    n
}

/// Whole blocks and remainder of a number at least 1 and below 2^31: dropping
/// the common power of two leaves a division of the significand alone.
proof fn lemma_significand_split(exponent: nat, fraction: nat, unit: nat)
    requires
        1023 <= exponent < 1054,
        fraction < FRACTION_SPAN,
        unit == pow2((1075 - exponent) as nat),
    ensures
        magnitude(exponent, fraction) / block_unit() == (FRACTION_SPAN as nat + fraction) / unit,
        (magnitude(exponent, fraction) % block_unit() != 0) == ((FRACTION_SPAN as nat + fraction)
            % unit != 0),
{
    let s = (FRACTION_SPAN as nat + fraction) as int;
    let p = pow2((exponent - 1) as nat) as int;
    let u = unit as int;
    lemma_pow2_pos((exponent - 1) as nat);
    lemma_pow2_pos((1075 - exponent) as nat);
    lemma_pow2_adds((exponent - 1) as nat, (1075 - exponent) as nat);
    assert(block_unit() == p * u);
    let q = s / u;
    let r = s % u;
    lemma_fundamental_div_mod(s, u);
    assert(s * p == q * (p * u) + r * p) by (nonlinear_arith)
        requires
            s == u * q + r,
    ;
    assert(0 <= r * p < p * u) by (nonlinear_arith)
        requires
            0 <= r < u,
            0 < p,
    ;
    lemma_fundamental_div_mod_converse(s * p, p * u, q, r * p);
    assert((r * p != 0) == (r != 0)) by (nonlinear_arith)
        requires
            0 < p,
    ;
}

/// Rounding a negative number down: one further when there is a remainder.
proof fn lemma_negative_division(m: int, unit: int)
    requires
        0 <= m,
        0 < unit,
    ensures
        (-m) / unit == -(m / unit) - (if m % unit != 0 {
            1int
        } else {
            0int
        }),
{
    lemma_fundamental_div_mod(m, unit);
    let q = m / unit;
    let r = m % unit;
    if r == 0 {
        assert(-m == (-q) * unit + 0) by (nonlinear_arith)
            requires
                m == unit * q + r,
                r == 0,
        ;
        lemma_fundamental_div_mod_converse(-m, unit, -q, 0);
    } else {
        assert(-m == (-q - 1) * unit + (unit - r)) by (nonlinear_arith)
            requires
                m == unit * q + r,
        ;
        lemma_fundamental_div_mod_converse(-m, unit, -q - 1, unit - r);
    }
}

/// The two coordinate orders agree with block rounding: rounding down and
/// rounding up never reverse the order of two numbers, and rounding down never
/// exceeds rounding up.
pub proof fn lemma_rounding_monotone(a: Coord, b: Coord)
    requires
        a.at_most(b),
    ensures
        a.floor_block() <= b.floor_block(),
        a.ceil_block() <= b.ceil_block(),
        a.floor_block() <= b.ceil_block(),
{
    let u = block_unit() as int;
    lemma_pow2_pos(1074);
    lemma_div_is_ordered(a.value(), b.value(), u);
    lemma_div_is_ordered(-b.value(), -a.value(), u);
    lemma_fundamental_div_mod(a.value(), u);
    lemma_fundamental_div_mod(-a.value(), u);
    let fl = a.value() / u;
    let ce = -((-a.value()) / u);
    assert(fl <= ce) by (nonlinear_arith)
        requires
            a.value() == u * fl + a.value() % u,
            -a.value() == u * (-ce) + (-a.value()) % u,
            0 <= a.value() % u,
            0 <= (-a.value()) % u,
            0 < u,
    ;
}

/// Rounding down never exceeds rounding up, and both fit in `i32`.
pub proof fn lemma_floor_at_most_ceil(c: Coord)
    ensures
        i32::MIN <= c.floor_block() <= c.ceil_block() <= i32::MAX,
{
    if !c.is_nan() {
        lemma_rounding_monotone(c, c);
    }
}

impl Coord {
    /// The coordinate with these bits.
    pub fn from_bits(bits: u64) -> (c: Coord)
        ensures
            c.bits == bits,
    {
        Coord { bits }
    }

    /// The bits of the coordinate.
    pub fn to_bits(self) -> (bits: u64)
        ensures
            bits == self.bits,
    {
        self.bits
    }

    /// Whether the pattern is a NaN.
    pub fn is_not_number(self) -> (r: bool)
        ensures
            r == self.is_nan(),
    {
        (self.bits / FRACTION_SPAN) % 2048 == 2047 && self.bits % FRACTION_SPAN != 0
    }

    /// A signed key that orders patterns as their values are ordered.
    fn order_key(self) -> (key: i64)
        ensures
            key == (if self.is_negative() {
                -((self.bits - SIGN_WEIGHT) as int)
            } else {
                self.bits as int
            }),
    {
        if self.bits >= SIGN_WEIGHT {
            -((self.bits - SIGN_WEIGHT) as i64)
        } else {
            self.bits as i64
        }
    }

    /// The pattern without its sign.
    spec fn unsigned_bits(self) -> nat {
        if self.is_negative() {
            (self.bits - SIGN_WEIGHT) as nat
        } else {
            self.bits as nat
        }
    }

    proof fn lemma_unsigned(self)
        ensures
            self.unsigned_bits() < 2048 * FRACTION_SPAN,
            exponent_of(self.bits) == self.unsigned_bits() / FRACTION_SPAN as nat,
            fraction_of(self.bits) == self.unsigned_bits() % FRACTION_SPAN as nat,
    {
    }

    /// The keys of two numbers stand in the order of their values.
    proof fn lemma_order_key(self, other: Coord)
        ensures
            (if self.is_negative() { -self.unsigned_bits() } else { self.unsigned_bits() as int })
                <= (if other.is_negative() {
                -other.unsigned_bits()
            } else {
                other.unsigned_bits() as int
            }) <==> self.value() <= other.value(),
    {
        let (a, b) = (self.unsigned_bits(), other.unsigned_bits());
        self.lemma_unsigned();
        other.lemma_unsigned();
        if a < b {
            lemma_magnitude_ordered(a, b);
        }
        if b < a {
            lemma_magnitude_ordered(b, a);
        }
        assert(magnitude(0, 0) == 0);
        if a > 0 {
            lemma_magnitude_ordered(0, a);
        }
        if b > 0 {
            lemma_magnitude_ordered(0, b);
        }
    }

    /// Between numbers that are not negative, the value order is the bit order.
    pub proof fn lemma_at_most_bits(self, other: Coord)
        requires
            self.at_most(other),
            0 < self.value() || !self.is_negative(),
            0 < other.value() || !other.is_negative(),
        ensures
            self.bits <= other.bits,
            !self.is_negative(),
            !other.is_negative(),
    {
        self.lemma_order_key(other);
    }

    /// Numeric `self <= other`.
    pub fn le(self, other: Coord) -> (r: bool)
        ensures
            r == self.at_most(other),
            self.is_nan() || other.is_nan() ==> !r,
            !self.is_nan() && !other.is_nan() ==> (r <==> self.value() <= other.value()),
    {
        proof {
            self.lemma_order_key(other);
        }
        !self.is_not_number() && !other.is_not_number() && self.order_key() <= other.order_key()
    }

    /// Numeric `self < other`.
    pub fn lt(self, other: Coord) -> (r: bool)
        ensures
            r == self.below(other),
            self.is_nan() || other.is_nan() ==> !r,
            !self.is_nan() && !other.is_nan() ==> (r <==> self.value() < other.value()),
    {
        proof {
            other.lemma_order_key(self);
        }
        !self.is_not_number() && !other.is_not_number() && self.order_key() < other.order_key()
    }

    /// Whole blocks in the absolute value, and whether a fraction of a block is
    /// left over; `None` when the absolute value is at least 2^31 blocks.
    fn split_blocks(self) -> (r: Option<(u64, bool)>)
        ensures
            match r {
                Some((whole, rest)) => {
                    let m = magnitude(exponent_of(self.bits), fraction_of(self.bits));
                    &&& whole < 0x8000_0000
                    &&& whole == m / block_unit()
                    &&& rest == (m % block_unit() != 0)
                },
                None => magnitude(exponent_of(self.bits), fraction_of(self.bits)) / block_unit()
                    >= 0x8000_0000,
            },
    {
        let exponent: u64 = (self.bits / FRACTION_SPAN) % 2048;
        let fraction: u64 = self.bits % FRACTION_SPAN;
        proof {
            lemma2_to64();
            lemma2_to64_rest();
            lemma_pow2_pos(1074);
        }
        if exponent >= 1054 {
            proof {
                let e = exponent as nat;
                let p = pow2((e - 1) as nat);
                if e > 1054 {
                    lemma_pow2_strictly_increases(1053, (e - 1) as nat);
                }
                lemma_pow2_adds(1053, 52);
                lemma_pow2_adds(1074, 31);
                assert(pow2(1053) * pow2(52) == pow2(1074) * pow2(31));
                let s = FRACTION_SPAN + fraction;
                assert(s * p >= FRACTION_SPAN * pow2(1053)) by (nonlinear_arith)
                    requires
                        s >= FRACTION_SPAN,
                        p >= pow2(1053),
                ;
                assert(FRACTION_SPAN * pow2(1053) == pow2(1053) * FRACTION_SPAN)
                    by (nonlinear_arith);
                lemma_div_is_ordered((0x8000_0000 * block_unit()) as int, s * p, block_unit() as int);
                lemma_div_multiples_vanish(0x8000_0000, block_unit() as int);
                assert(block_unit() * 0x8000_0000 == 0x8000_0000 * block_unit());
            }
            None
        } else if exponent < 1023 {
            proof {
                let e = exponent as nat;
                let m = magnitude(e, fraction as nat) as int;
                lemma_pow2_adds(1022, 52);
                assert(m < block_unit()) by {
                    lemma_pow2_pos(1022);
                    if e == 0 {
                        lemma_mul_inequality(1, pow2(1022) as int, FRACTION_SPAN as int);
                    } else {
                        let p = pow2((e - 1) as nat);
                        if e < 1022 {
                            lemma_pow2_strictly_increases((e - 1) as nat, 1021);
                        }
                        lemma_pow2_pos((e - 1) as nat);
                        lemma_pow2_unfold(1022);
                        let s = FRACTION_SPAN + fraction;
                        assert(s * p < (2 * FRACTION_SPAN) * pow2(1021)) by (nonlinear_arith)
                            requires
                                0 <= s < 2 * FRACTION_SPAN,
                                0 < p <= pow2(1021),
                        ;
                        assert((2 * FRACTION_SPAN) * pow2(1021) == pow2(1022) * FRACTION_SPAN)
                            by (nonlinear_arith)
                            requires
                                pow2(1022) == 2 * pow2(1021),
                        ;
                    }
                }
                if e > 0 {
                    lemma_pow2_pos((e - 1) as nat);
                    lemma_mul_strictly_positive(
                        FRACTION_SPAN + fraction,
                        pow2((e - 1) as nat) as int,
                    );
                }
                lemma_fundamental_div_mod_converse(m, block_unit() as int, 0, m);
            }
            Some((0, exponent != 0 || fraction != 0))
        } else {
            let shift: u64 = 1075 - exponent;
            proof {
                lemma_pow2_strictly_increases(shift as nat, 53);
                vstd::bits::lemma_u64_shl_is_mul(1, shift);
                lemma_significand_split(exponent as nat, fraction as nat, pow2(shift as nat));
            }
            let unit: u64 = 1u64 << shift;
            let significand: u64 = FRACTION_SPAN + fraction;
            proof {
                lemma_pow2_pos(shift as nat);
                assert(pow2(22) <= unit) by {
                    if shift > 22 {
                        lemma_pow2_strictly_increases(22, shift as nat);
                    }
                }
                lemma_div_is_ordered(significand as int, (2 * FRACTION_SPAN - 1) as int, unit as int);
                assert((2 * FRACTION_SPAN - 1) / unit as int <= (2 * FRACTION_SPAN - 1) / 0x40_0000int)
                    by {
                    lemma_div_is_ordered_by_denominator(
                        2 * FRACTION_SPAN - 1,
                        0x40_0000,
                        unit as int,
                    );
                }
            }
            Some((significand / unit, significand % unit != 0))
        }
    }

    /// The block coordinate the number falls in, rounding down.
    pub fn floor_to_block(self) -> (block: i32)
        ensures
            block == self.floor_block(),
    {
        if self.is_not_number() {
            return 0;
        }
        proof {
            lemma_pow2_pos(1074);
            let m = magnitude(exponent_of(self.bits), fraction_of(self.bits)) as int;
            lemma_negative_division(m, block_unit() as int);
        }
        match self.split_blocks() {
            Some((whole, rest)) => {
                if self.bits < SIGN_WEIGHT {
                    whole as i32
                } else if rest {
                    -(whole as i32) - 1
                } else {
                    -(whole as i32)
                }
            },
            None => {
                if self.bits < SIGN_WEIGHT {
                    i32::MAX
                } else {
                    i32::MIN
                }
            },
        }
    }

    /// The block coordinate the number falls in, rounding up.
    pub fn ceil_to_block(self) -> (block: i32)
        ensures
            block == self.ceil_block(),
    {
        if self.is_not_number() {
            return 0;
        }
        proof {
            lemma_pow2_pos(1074);
            let m = magnitude(exponent_of(self.bits), fraction_of(self.bits)) as int;
            lemma_negative_division(m, block_unit() as int);
        }
        match self.split_blocks() {
            Some((whole, rest)) => {
                if self.bits >= SIGN_WEIGHT {
                    -(whole as i32)
                } else if rest {
                    if whole == 0x7fff_ffff {
                        i32::MAX
                    } else {
                        whole as i32 + 1
                    }
                } else {
                    whole as i32
                }
            },
            None => {
                if self.bits < SIGN_WEIGHT {
                    i32::MAX
                } else {
                    i32::MIN
                }
            },
        }
    }
}

/// `r` is the number nearest to `exact`, the one with an even pattern of two
/// equally near. An infinity counts as 2^1024, so overflow is covered too.
pub open spec fn rounds_to(exact: int, r: Coord) -> bool {
    &&& !r.is_nan()
    &&& forall|c: Coord|
        #![trigger c.value()]
        !c.is_nan() ==> {
            &&& distance(r.value(), exact) <= distance(c.value(), exact)
            &&& c.value() != r.value() && distance(r.value(), exact) == distance(c.value(), exact)
                ==> r.bits % 2 == 0
        }
}

/// A nearest unsigned pattern with the sign put in front is nearest overall.
proof fn lemma_signed_nearest(n: u64, x: int, negative: bool, r: Coord)
    requires
        nearest_pattern(n as nat, x),
        0 <= x,
        r.bits == (if negative {
            SIGN_WEIGHT + n
        } else {
            n as int
        }),
    ensures
        rounds_to(
            if negative {
                -x
            } else {
                x
            },
            r,
        ),
        r.is_negative() == negative,
        r.unsigned_bits() == n,
{
    let exact = if negative {
        -x
    } else {
        x
    };
    r.lemma_unsigned();
    assert(r.unsigned_bits() == n);
    assert(!r.is_nan());
    assert forall|c: Coord| #![trigger c.value()] !c.is_nan() implies {
        &&& distance(r.value(), exact) <= distance(c.value(), exact)
        &&& c.value() != r.value() && distance(r.value(), exact) == distance(c.value(), exact)
            ==> r.bits % 2 == 0
    } by {
        c.lemma_unsigned();
        let m = c.unsigned_bits();
        assert(m <= INFINITY_BITS);
        assert(pattern_value(m) >= 0);
        assert(pattern_value(0) == 0);
    }
}

impl Coord {
    /// A positive or negative infinity.
    pub open spec fn is_infinite(self) -> bool {
        exponent_of(self.bits) == 2047 && fraction_of(self.bits) == 0
    }

    /// Neither an infinity nor NaN.
    pub open spec fn is_finite(self) -> bool {
        exponent_of(self.bits) != 2047
    }

    /// The significand and the scale of a finite number: its absolute value is
    /// the significand times 2 to the scale.
    fn parts(self) -> (r: (u64, u64))
        requires
            self.is_finite(),
        ensures
            r.0 < 2 * FRACTION_SPAN,
            r.1 <= 2045,
            r.1 == 0 || FRACTION_SPAN <= r.0,
            magnitude(exponent_of(self.bits), fraction_of(self.bits)) == r.0 * pow2(r.1 as nat),
            self.unsigned_bits() == r.1 * FRACTION_SPAN + r.0,
    {
        proof {
            lemma2_to64();
            self.lemma_unsigned();
        }
        let exponent: u64 = (self.bits / FRACTION_SPAN) % 2048;
        let fraction: u64 = self.bits % FRACTION_SPAN;
        if exponent == 0 {
            (fraction, 0)
        } else {
            (FRACTION_SPAN + fraction, exponent - 1)
        }
    }

    /// The sum of two finite numbers of which the second has the smaller scale.
    fn sum_ordered(self, other: Coord, scale: u64, gap: u64, s1: u64, s2: u64) -> (r: Coord)
        requires
            self.is_finite(),
            other.is_finite(),
            s1 < 2 * FRACTION_SPAN,
            s2 < 2 * FRACTION_SPAN,
            scale + gap <= 2045,
            scale + gap == 0 || FRACTION_SPAN <= s1,
            magnitude(exponent_of(self.bits), fraction_of(self.bits)) == s1 * pow2(
                (scale + gap) as nat,
            ),
            magnitude(exponent_of(other.bits), fraction_of(other.bits)) == s2 * pow2(scale as nat),
            self.unsigned_bits() == (scale + gap) * FRACTION_SPAN + s1,
        ensures
            rounds_to(self.value() + other.value(), r),
            self.value() + other.value() == 0 ==> r.bits == (if self.is_negative()
                && other.is_negative() {
                SIGN_WEIGHT
            } else {
                0
            }),
    {
        let negative: bool = self.bits >= SIGN_WEIGHT;
        let same: bool = negative == (other.bits >= SIGN_WEIGHT);
        let ghost p = pow2(scale as nat) as int;
        proof {
            lemma2_to64();
            lemma2_to64_rest();
            lemma_pow2_adds(scale as nat, gap as nat);
            lemma_pow2_pos(scale as nat);
            lemma_pow2_pos(gap as nat);
        }
        if gap > 64 {
            proof {
                self.lemma_far_sum(other, scale, gap, s1, s2);
            }
            return self;
        }
        let mut a: u128 = s1 as u128;
        let mut i: u64 = 0;
        while i < gap
            invariant
                i <= gap <= 64,
                s1 < 2 * FRACTION_SPAN,
                a == s1 * pow2(i as nat),
                a < 2 * FRACTION_SPAN * pow2(i as nat),
            decreases gap - i,
        {
            proof {
                lemma2_to64();
                lemma2_to64_rest();
                lemma_pow2_strictly_increases(i as nat, 64);
                lemma_pow2_unfold((i + 1) as nat);
                assert(a < 0x4000_0000_0000_0000_0000_0000_0000_0000) by (nonlinear_arith)
                    requires
                        a < 2 * FRACTION_SPAN * pow2(i as nat),
                        pow2(i as nat) <= 0x1_0000_0000_0000_0000,
                        FRACTION_SPAN == 0x10_0000_0000_0000,
                ;
                assert(2 * a == s1 * pow2((i + 1) as nat)) by (nonlinear_arith)
                    requires
                        a == s1 * pow2(i as nat),
                        pow2((i + 1) as nat) == 2 * pow2(i as nat),
                ;
                assert(2 * a < 2 * FRACTION_SPAN * pow2((i + 1) as nat)) by (nonlinear_arith)
                    requires
                        a < 2 * FRACTION_SPAN * pow2(i as nat),
                        pow2((i + 1) as nat) == 2 * pow2(i as nat),
                ;
            }
            a = 2 * a;
            i = i + 1;
        }
        let b: u128 = s2 as u128;
        proof {
            if gap < 64 {
                lemma_pow2_strictly_increases(gap as nat, 64);
            }
            assert(a < 0x20_0000_0000_0000_0000_0000_0000_0000) by (nonlinear_arith)
                requires
                    a < 2 * FRACTION_SPAN * pow2(gap as nat),
                    pow2(gap as nat) <= 0x1_0000_0000_0000_0000,
                    FRACTION_SPAN == 0x10_0000_0000_0000,
            ;
            let ma = magnitude(exponent_of(self.bits), fraction_of(self.bits)) as int;
            assert(ma == a * p) by (nonlinear_arith)
                requires
                    ma == s1 * pow2((scale + gap) as nat),
                    pow2((scale + gap) as nat) == p * pow2(gap as nat),
                    a == s1 * pow2(gap as nat),
            ;
            assert((a + b) * p == a * p + b * p) by (nonlinear_arith);
            assert((a - b) * p == a * p - b * p) by (nonlinear_arith);
            assert((b - a) * p == b * p - a * p) by (nonlinear_arith);
            assert(a < b ==> a * p < b * p) by (nonlinear_arith)
                requires
                    0 < p,
            ;
            assert(b < a ==> b * p < a * p) by (nonlinear_arith)
                requires
                    0 < p,
            ;
            assert(0 <= a * p && 0 <= b * p) by (nonlinear_arith)
                requires
                    0 < p,
                    0 <= a,
                    0 <= b,
            ;
            assert(a > 0 ==> a * p > 0) by (nonlinear_arith)
                requires
                    0 < p,
            ;
            assert(b > 0 ==> b * p > 0) by (nonlinear_arith)
                requires
                    0 < p,
            ;
        }
        if same {
            let n: u64 = round_scaled(a + b, scale);
            let r = Coord { bits: if negative { SIGN_WEIGHT + n } else { n } };
            proof {
                lemma_signed_nearest(n, (a + b) * p, negative, r);
            }
            r
        } else if a == b {
            let r = Coord { bits: 0 };
            proof {
                assert(self.value() + other.value() == 0);
                assert(r.value() == 0);
            }
            r
        } else if a > b {
            let n: u64 = round_scaled((a - b) as u128, scale);
            let r = Coord { bits: if negative { SIGN_WEIGHT + n } else { n } };
            proof {
                lemma_signed_nearest(n, (a - b) * p, negative, r);
            }
            r
        } else {
            let n: u64 = round_scaled((b - a) as u128, scale);
            let r = Coord { bits: if negative { n } else { SIGN_WEIGHT + n } };
            proof {
                lemma_signed_nearest(n, (b - a) * p, !negative, r);
            }
            r
        }
    }

    /// Adding a number more than 64 binary orders smaller changes nothing.
    proof fn lemma_far_sum(self, other: Coord, scale: u64, gap: u64, s1: u64, s2: u64)
        requires
            self.is_finite(),
            other.is_finite(),
            s1 < 2 * FRACTION_SPAN,
            s2 < 2 * FRACTION_SPAN,
            64 < gap,
            scale + gap <= 2045,
            FRACTION_SPAN <= s1,
            magnitude(exponent_of(self.bits), fraction_of(self.bits)) == s1 * pow2(
                (scale + gap) as nat,
            ),
            magnitude(exponent_of(other.bits), fraction_of(other.bits)) == s2 * pow2(scale as nat),
            self.unsigned_bits() == (scale + gap) * FRACTION_SPAN + s1,
        ensures
            rounds_to(self.value() + other.value(), self),
            self.value() + other.value() != 0,
    {
        let k = (scale + gap) as nat;
        let n = self.unsigned_bits();
        let v = pattern_value(n);
        let p = pow2(scale as nat) as int;
        let w = s2 * p;
        self.lemma_unsigned();
        lemma2_to64();
        lemma2_to64_rest();
        lemma_pow2_pos(scale as nat);
        lemma_pow2_adds(scale as nat, 64);
        lemma_pow2_strictly_increases((scale + 64) as nat, k);
        lemma_pow2_unfold(k);
        let half = pow2((k - 1) as nat) as int;
        assert(v == s1 * pow2(k));
        // The smaller number is well under a quarter of the spacing here.
        assert(0 <= 4 * w < pow2(k)) by {
            assert(0 <= w <= 2 * FRACTION_SPAN * p) by (nonlinear_arith)
                requires
                    0 <= s2 < 2 * FRACTION_SPAN,
                    0 < p,
                    w == s2 * p,
            ;
            assert(8 * FRACTION_SPAN * p <= p * 0x1_0000_0000_0000_0000) by (nonlinear_arith)
                requires
                    0 < p,
                    FRACTION_SPAN == 0x10_0000_0000_0000,
            ;
        }
        let x = if self.is_negative() == other.is_negative() {
            v + w
        } else {
            v - w
        };
        lemma_scaled_pattern((s1 + 1) as nat, k);
        assert((s1 + 1) * pow2(k) == v + pow2(k)) by (nonlinear_arith)
            requires
                v == s1 * pow2(k),
        ;
        assert(v >= pow2(k)) by (nonlinear_arith)
            requires
                v == s1 * pow2(k),
                s1 >= 1,
                pow2(k) > 0,
        ;
        assert(pattern_value((n + 1) as nat) == v + pow2(k));
        // The number below is at least half a spacing away.
        assert(pattern_value((n - 1) as nat) <= v - half) by {
            if s1 > FRACTION_SPAN {
                lemma_scaled_pattern((s1 - 1) as nat, k);
                assert((s1 - 1) * pow2(k) == v - pow2(k)) by (nonlinear_arith)
                    requires
                        v == s1 * pow2(k),
                ;
            } else {
                lemma_scaled_pattern((2 * FRACTION_SPAN - 1) as nat, (k - 1) as nat);
                assert(n - 1 == (k - 1) * FRACTION_SPAN + (2 * FRACTION_SPAN - 1));
                assert((2 * FRACTION_SPAN - 1) * half == v - half) by (nonlinear_arith)
                    requires
                        v == s1 * pow2(k),
                        s1 == FRACTION_SPAN,
                        pow2(k) == 2 * half,
                ;
            }
        }
        assert(4 * w < 2 * half);
        lemma_nearest(n, x);
        lemma_signed_nearest(n as u64, x, self.is_negative(), self);
    }

    /// `r` is the binary64 sum of `self` and `other`: NaN when a side is NaN or
    /// when opposite infinities meet, an infinity when a side is one, and else
    /// the nearest number. A zero sum is negative only when both sides are.
    pub open spec fn adds_to(self, other: Coord, r: Coord) -> bool {
        if self.is_nan() || other.is_nan() || (self.is_infinite() && other.is_infinite() && self
            != other) {
            r.is_nan()
        } else if self.is_infinite() {
            r == self
        } else if other.is_infinite() {
            r == other
        } else {
            &&& rounds_to(self.value() + other.value(), r)
            &&& self.value() + other.value() == 0 ==> r.bits == (if self.is_negative()
                && other.is_negative() {
                SIGN_WEIGHT
            } else {
                0
            })
        }
    }

    /// The number with its sign turned.
    pub open spec fn negation(self) -> Coord {
        Coord {
            bits: (if self.is_negative() {
                self.bits - SIGN_WEIGHT
            } else {
                self.bits + SIGN_WEIGHT
            }) as u64,
        }
    }

    /// Turning the sign keeps the number and turns its value.
    pub proof fn lemma_negation(self)
        ensures
            self.negation().is_nan() == self.is_nan(),
            self.negation().is_infinite() == self.is_infinite(),
            self.negation().is_finite() == self.is_finite(),
            self.negation().value() == -self.value(),
            self.negation().negation() == self,
    {
    }

    /// Numeric `self + other`, rounded to nearest with ties to even.
    pub fn plus(self, other: Coord) -> (r: Coord)
        ensures
            self.adds_to(other, r),
    {
        let nan = Coord { bits: 0x7ff8_0000_0000_0000 };
        proof {
            assert(nan.is_nan());
        }
        if self.is_not_number() || other.is_not_number() {
            return nan;
        }
        if (self.bits / FRACTION_SPAN) % 2048 == 2047 {
            if (other.bits / FRACTION_SPAN) % 2048 == 2047 && self.bits != other.bits {
                return nan;
            }
            return self;
        }
        if (other.bits / FRACTION_SPAN) % 2048 == 2047 {
            return other;
        }
        let (s1, k1) = self.parts();
        let (s2, k2) = other.parts();
        if k1 >= k2 {
            self.sum_ordered(other, k2, k1 - k2, s1, s2)
        } else {
            other.sum_ordered(self, k1, k2 - k1, s2, s1)
        }
    }

    /// The number with its sign turned.
    pub fn negated(self) -> (r: Coord)
        ensures
            r == self.negation(),
    {
        if self.bits >= SIGN_WEIGHT {
            Coord { bits: self.bits - SIGN_WEIGHT }
        } else {
            Coord { bits: self.bits + SIGN_WEIGHT }
        }
    }

    /// The number without its sign.
    pub open spec fn absolute(self) -> Coord {
        if self.is_negative() {
            self.negation()
        } else {
            self
        }
    }

    /// The number without its sign.
    pub fn abs(self) -> (r: Coord)
        ensures
            r == self.absolute(),
    {
        if self.bits >= SIGN_WEIGHT {
            self.negated()
        } else {
            self
        }
    }

    /// Numeric `self - other`, rounded to nearest with ties to even.
    pub fn minus(self, other: Coord) -> (r: Coord)
        ensures
            self.adds_to(other.negation(), r),
    {
        self.plus(other.negated())
    }

    /// Adding a number that is not negative never lowers the result, and raises
    /// it by at most twice the amount.
    pub proof fn lemma_sum_bounds(self, amount: Coord, r: Coord)
        requires
            self.adds_to(amount, r),
            !self.is_nan(),
            amount.is_finite(),
            amount.value() >= 0,
        ensures
            self.at_most(r),
            r.value() <= self.value() + 2 * amount.value(),
    {
        if self.is_finite() {
            let exact = self.value() + amount.value();
            assert(distance(r.value(), exact) <= distance(self.value(), exact));
        }
    }

    /// Taking away a number that is not negative never raises the result, and
    /// lowers it by at most twice the amount.
    pub proof fn lemma_difference_bounds(self, amount: Coord, r: Coord)
        requires
            self.adds_to(amount.negation(), r),
            !self.is_nan(),
            amount.is_finite(),
            amount.value() >= 0,
        ensures
            r.at_most(self),
            self.value() - 2 * amount.value() <= r.value(),
    {
        amount.lemma_negation();
        if self.is_finite() {
            let exact = self.value() - amount.value();
            assert(distance(r.value(), exact) <= distance(self.value(), exact));
        }
    }
}

/// `n` is the pattern whose value times `unit` is nearest to `x`, the even one of
/// two equally near.
spec fn nearest_multiple(n: nat, x: int, unit: int) -> bool {
    &&& n <= INFINITY_BITS
    &&& forall|c: nat|
        #![trigger pattern_value(c)]
        c <= INFINITY_BITS ==> {
            &&& distance(pattern_value(n) * unit, x) <= distance(pattern_value(c) * unit, x)
            &&& c != n && distance(pattern_value(n) * unit, x) == distance(
                pattern_value(c) * unit,
                x,
            ) ==> n % 2 == 0
        }
}

/// A pattern is nearest when its two neighbours are no nearer.
proof fn lemma_nearest_multiple(n: nat, x: int, unit: int)
    requires
        0 < unit,
        n <= INFINITY_BITS,
        n > 0 ==> distance(pattern_value(n) * unit, x) <= distance(
            pattern_value((n - 1) as nat) * unit,
            x,
        ),
        n > 0 && distance(pattern_value(n) * unit, x) == distance(
            pattern_value((n - 1) as nat) * unit,
            x,
        ) ==> n % 2 == 0,
        n < INFINITY_BITS ==> distance(pattern_value(n) * unit, x) <= distance(
            pattern_value((n + 1) as nat) * unit,
            x,
        ),
        n < INFINITY_BITS && distance(pattern_value(n) * unit, x) == distance(
            pattern_value((n + 1) as nat) * unit,
            x,
        ) ==> n % 2 == 0,
    ensures
        nearest_multiple(n, x, unit),
{
    assert forall|c: nat|
        #![trigger pattern_value(c)]
        c <= INFINITY_BITS implies {
        &&& distance(pattern_value(n) * unit, x) <= distance(pattern_value(c) * unit, x)
        &&& c != n && distance(pattern_value(n) * unit, x) == distance(pattern_value(c) * unit, x)
            ==> n % 2 == 0
    } by {
        if c < n {
            lemma_multiples_ordered((n - 1) as nat, n, unit);
            if c < n - 1 {
                lemma_multiples_ordered(c, (n - 1) as nat, unit);
            }
        } else if c > n {
            lemma_multiples_ordered(n, (n + 1) as nat, unit);
            if c > n + 1 {
                lemma_multiples_ordered((n + 1) as nat, c, unit);
            }
        }
    }
}

/// Multiples of pattern values are ordered as the patterns are.
proof fn lemma_multiples_ordered(a: nat, b: nat, unit: int)
    requires
        a < b < 2048 * FRACTION_SPAN,
        0 < unit,
    ensures
        pattern_value(a) * unit < pattern_value(b) * unit,
{
    lemma_magnitude_ordered(a, b);
    lemma_mul_strict_inequality(pattern_value(a), pattern_value(b), unit);
}

/// The pattern whose value is nearest to `s` divided by 2^`down`, ties to even.
fn round_divided(s: u128, down: u64) -> (n: u64)
    requires
        s < 0x400_0000_0000_0000_0000_0000_0000,
        0 < down <= 107,
    ensures
        nearest_multiple(n as nat, s as int, pow2(down as nat) as int),
{
    proof {
        lemma2_to64();
        lemma2_to64_rest();
    }
    let mut unit: u128 = 1;
    let mut dropped: u64 = 0;
    while dropped < down
        invariant
            dropped <= down <= 107,
            unit == pow2(dropped as nat),
            unit <= 0x800_0000_0000_0000_0000_0000_0000,
            dropped < 107 ==> unit <= 0x400_0000_0000_0000_0000_0000_0000,
        decreases down - dropped,
    {
        proof {
            lemma_pow2_unfold((dropped + 1) as nat);
            lemma_small_powers(dropped as nat);
            lemma_small_powers((dropped + 1) as nat);
        }
        unit = 2 * unit;
        dropped = dropped + 1;
    }
    let ghost u = pow2(down as nat) as int;
    proof {
        lemma_pow2_pos(down as nat);
    }
    while s / unit >= 2 * FRACTION_SPAN as u128
        invariant
            s < 0x400_0000_0000_0000_0000_0000_0000,
            0 < unit,
            unit == pow2(dropped as nat),
            down <= dropped <= 107,
            u == pow2(down as nat),
            dropped > down ==> s / (unit / 2) as u128 >= 2 * FRACTION_SPAN,
            dropped > down ==> unit % 2 == 0,
        decreases 107 - dropped,
    {
        proof {
            lemma_small_powers(dropped as nat);
            lemma_pow2_unfold((dropped + 1) as nat);
            assert(dropped < 53) by {
                if dropped >= 53 {
                    lemma2_to64();
                    lemma2_to64_rest();
                    if dropped > 53 {
                        lemma_pow2_strictly_increases(53, dropped as nat);
                    }
                    assert(unit >= 0x20_0000_0000_0000);
                    lemma_div_is_ordered_by_denominator(
                        s as int,
                        0x20_0000_0000_0000,
                        unit as int,
                    );
                    assert(s / 0x20_0000_0000_0000 < 2 * FRACTION_SPAN);
                }
            }
        }
        unit = 2 * unit;
        dropped = dropped + 1;
        assert(unit / 2 == pow2((dropped - 1) as nat));
    }
    let q: u64 = (s / unit) as u64;
    let rem: u128 = s % unit;
    let k: u64 = dropped - down;
    proof {
        lemma_small_powers(dropped as nat);
        if k > 0 {
            let h = (unit / 2) as int;
            assert(unit == 2 * h);
            lemma_div_denominator(s as int, h, 2);
            assert(h * 2 == unit);
            assert((s as int / h) / 2 == s as int / unit as int);
            assert(q >= FRACTION_SPAN);
        }
    }
    let up: bool = 2 * rem > unit || (2 * rem == unit && q % 2 == 1);
    let ghost low = (k * FRACTION_SPAN + q) as nat;
    proof {
        lemma_pow2_adds(k as nat, down as nat);
        lemma_fundamental_div_mod(s as int, unit as int);
        lemma_scaled_pattern(q as nat, k as nat);
        lemma_scaled_pattern((q + 1) as nat, k as nat);
        let p = pow2(k as nat) as int;
        assert(pattern_value(low) * u == q * unit) by (nonlinear_arith)
            requires
                pattern_value(low) == q * p,
                p * u == unit,
        ;
        assert(pattern_value((low + 1) as nat) * u == q * unit + unit) by (nonlinear_arith)
            requires
                pattern_value((low + 1) as nat) == (q + 1) * p,
                p * u == unit,
        ;
        assert(s == q * unit + rem) by (nonlinear_arith)
            requires
                s == unit * q + rem,
        ;
        assert(low % 2 == q % 2) by {
            assert(low == 2 * (k * 0x8_0000_0000_0000) + q);
        }
        assert(k <= 107);
        assert(low + 2 <= INFINITY_BITS);
    }
    let n: u64 = if up {
        k * FRACTION_SPAN + q + 1
    } else {
        k * FRACTION_SPAN + q
    };
    proof {
        if low > 0 {
            lemma_multiples_ordered((low - 1) as nat, low, u);
        }
        lemma_multiples_ordered((low + 1) as nat, (low + 2) as nat, u);
        lemma_nearest_multiple(n as nat, s as int, u);
    }
    n
}

/// Powers of two up to 2^107 stay below 2^108.
proof fn lemma_small_powers(n: nat)
    requires
        n <= 108,
    ensures
        0 < pow2(n) <= 0x1000_0000_0000_0000_0000_0000_0000,
        n <= 107 ==> pow2(n) <= 0x800_0000_0000_0000_0000_0000_0000,
        n <= 106 ==> pow2(n) <= 0x400_0000_0000_0000_0000_0000_0000,
{
    lemma2_to64();
    lemma2_to64_rest();
    lemma_pow2_pos(n);
    lemma_pow2_adds(54, 54);
    lemma_pow2_unfold(108);
    lemma_pow2_unfold(107);
    if n < 106 {
        lemma_pow2_strictly_increases(n, 106);
    }
}

/// Scaling the number and the unit alike changes nothing.
proof fn lemma_nearest_scales(n: nat, x: int, unit: int, p: int)
    requires
        nearest_multiple(n, x, unit),
        0 < p,
    ensures
        nearest_multiple(n, x * p, unit * p),
{
    assert forall|c: nat| #![trigger pattern_value(c)] c <= INFINITY_BITS implies {
        &&& distance(pattern_value(n) * (unit * p), x * p) <= distance(
            pattern_value(c) * (unit * p),
            x * p,
        )
        &&& c != n && distance(pattern_value(n) * (unit * p), x * p) == distance(
            pattern_value(c) * (unit * p),
            x * p,
        ) ==> n % 2 == 0
    } by {
        lemma_distance_scales(pattern_value(n), x, unit, p);
        lemma_distance_scales(pattern_value(c), x, unit, p);
        let (a, b) = (
            distance(pattern_value(n) * unit, x) as int,
            distance(pattern_value(c) * unit, x) as int,
        );
        assert(a <= b ==> a * p <= b * p) by (nonlinear_arith)
            requires
                0 < p,
        ;
        assert(a * p == b * p ==> a == b) by (nonlinear_arith)
            requires
                0 < p,
        ;
    }
}

proof fn lemma_distance_scales(v: int, x: int, unit: int, p: int)
    requires
        0 < p,
    ensures
        distance(v * (unit * p), x * p) == distance(v * unit, x) * p,
{
    let w = v * unit;
    assert(v * (unit * p) == w * p) by (nonlinear_arith)
        requires
            w == v * unit,
    ;
    assert(w <= x ==> w * p <= x * p) by (nonlinear_arith)
        requires
            0 < p,
    ;
    assert(x < w ==> x * p < w * p) by (nonlinear_arith)
        requires
            0 < p,
    ;
    assert((x - w) * p == x * p - w * p) by (nonlinear_arith);
    assert((w - x) * p == w * p - x * p) by (nonlinear_arith);
}

/// `r` is the number nearest to `exact` divided by `unit`, the one with an even
/// pattern of two equally near. An infinity counts as 2^1024.
pub open spec fn rounds_to_ratio(exact: int, unit: int, r: Coord) -> bool {
    &&& !r.is_nan()
    &&& forall|c: Coord|
        #![trigger c.value()]
        !c.is_nan() ==> {
            &&& distance(r.value() * unit, exact) <= distance(c.value() * unit, exact)
            &&& c.value() != r.value() && distance(r.value() * unit, exact) == distance(
                c.value() * unit,
                exact,
            ) ==> r.bits % 2 == 0
        }
}

/// A nearest unsigned pattern with the sign put in front is nearest overall.
proof fn lemma_signed_nearest_multiple(n: u64, x: int, unit: int, negative: bool, r: Coord)
    requires
        nearest_multiple(n as nat, x, unit),
        0 <= x,
        0 < unit,
        r.bits == (if negative {
            SIGN_WEIGHT + n
        } else {
            n as int
        }),
    ensures
        rounds_to_ratio(
            if negative {
                -x
            } else {
                x
            },
            unit,
            r,
        ),
        r.is_negative() == negative,
{
    let exact = if negative {
        -x
    } else {
        x
    };
    r.lemma_unsigned();
    assert(r.unsigned_bits() == n);
    assert(!r.is_nan());
    assert forall|c: Coord| #![trigger c.value()] !c.is_nan() implies {
        &&& distance(r.value() * unit, exact) <= distance(c.value() * unit, exact)
        &&& c.value() != r.value() && distance(r.value() * unit, exact) == distance(
            c.value() * unit,
            exact,
        ) ==> r.bits % 2 == 0
    } by {
        c.lemma_unsigned();
        let m = c.unsigned_bits();
        let (v, w) = (pattern_value(n as nat), pattern_value(m));
        assert(m <= INFINITY_BITS);
        assert(w >= 0 && v >= 0);
        assert(pattern_value(0) == 0);
        assert((-w) * unit == -(w * unit)) by (nonlinear_arith);
        assert((-v) * unit == -(v * unit)) by (nonlinear_arith);
        assert(w * unit >= 0 && v * unit >= 0) by (nonlinear_arith)
            requires
                w >= 0,
                v >= 0,
                unit > 0,
        ;
        assert(0 * unit == 0) by (nonlinear_arith);
        assert(w > 0 ==> w * unit > 0) by (nonlinear_arith)
            requires
                unit > 0,
        ;
        assert(distance(v * unit, x) <= distance(pattern_value(0) * unit, x));
    }
}

impl Coord {
    /// `r` is the binary64 product of `self` and `other`: NaN when a side is NaN or
    /// when an infinity meets a zero, an infinity when a side is one, and else the
    /// nearest number. The sign is that of the signs multiplied.
    pub open spec fn multiplies_to(self, other: Coord, r: Coord) -> bool {
        if self.is_nan() || other.is_nan() || (self.is_infinite() && other.value() == 0) || (
        other.is_infinite() && self.value() == 0) {
            r.is_nan()
        } else {
            &&& r.is_negative() == (self.is_negative() != other.is_negative())
            &&& if self.is_infinite() || other.is_infinite() {
                r.is_infinite()
            } else {
                rounds_to_ratio(self.value() * other.value(), block_unit() as int, r)
            }
        }
    }

    /// The pattern of the product of two significands with scales, without a sign.
    fn round_product(s1: u64, k1: u64, s2: u64, k2: u64) -> (n: u64)
        requires
            s1 < 2 * FRACTION_SPAN,
            s2 < 2 * FRACTION_SPAN,
            k1 <= 2045,
            k2 <= 2045,
            k1 == 0 || FRACTION_SPAN <= s1,
            k2 == 0 || FRACTION_SPAN <= s2,
        ensures
            nearest_multiple(
                n as nat,
                (s1 * pow2(k1 as nat)) * (s2 * pow2(k2 as nat)),
                block_unit() as int,
            ),
    {
        let ghost u = block_unit() as int;
        let ghost x = (s1 * pow2(k1 as nat)) * (s2 * pow2(k2 as nat));
        proof {
            assert(s1 * s2 < 0x400_0000_0000_0000_0000_0000_0000) by (nonlinear_arith)
                requires
                    0 <= s1 < 0x20_0000_0000_0000,
                    0 <= s2 < 0x20_0000_0000_0000,
            ;
            lemma_pow2_pos(1074);
        }
        let s: u128 = s1 as u128 * s2 as u128;
        let k: u64 = k1 + k2;
        proof {
            lemma_pow2_adds(k1 as nat, k2 as nat);
            let (p1, p2) = (pow2(k1 as nat) as int, pow2(k2 as nat) as int);
            assert(x == s * pow2(k as nat)) by (nonlinear_arith)
                requires
                    x == (s1 * p1) * (s2 * p2),
                    s == s1 * s2,
                    pow2(k as nat) == p1 * p2,
            ;
        }
        if k >= 1074 {
            let up: u64 = k - 1074;
            let ghost y = (s * pow2(up as nat)) as int;
            proof {
                lemma_pow2_adds(up as nat, 1074);
                assert(x == y * u) by (nonlinear_arith)
                    requires
                        x == s * pow2(k as nat),
                        y == s * pow2(up as nat),
                        pow2(k as nat) == pow2(up as nat) * u,
                ;
            }
            let n: u64 = if up > 2045 {
                proof {
                    // Both numbers are large, so the product is beyond every finite one.
                    let inf = INFINITY_BITS as nat;
                    lemma2_to64();
                    lemma2_to64_rest();
                    lemma_scaled_pattern(FRACTION_SPAN as nat, 2046);
                    if up > 2046 {
                        lemma_pow2_strictly_increases(2046, up as nat);
                    }
                    assert(s >= FRACTION_SPAN) by (nonlinear_arith)
                        requires
                            s == s1 * s2,
                            s1 >= FRACTION_SPAN,
                            s2 >= 1,
                    ;
                    assert(y >= FRACTION_SPAN * pow2(2046)) by (nonlinear_arith)
                        requires
                            y == s * pow2(up as nat),
                            s >= FRACTION_SPAN,
                            pow2(up as nat) >= pow2(2046),
                    ;
                    assert(inf == 2046 * FRACTION_SPAN + FRACTION_SPAN);
                    lemma_magnitude_ordered((inf - 1) as nat, inf);
                    lemma_nearest(inf, y);
                }
                INFINITY_BITS
            } else {
                round_scaled(s, up)
            };
            proof {
                assert(nearest_multiple(n as nat, y, 1)) by {
                    assert forall|c: nat| #![trigger pattern_value(c)] pattern_value(c) * 1
                        == pattern_value(c) by {}
                }
                lemma_nearest_scales(n as nat, y, 1, u);
                assert(1 * u == u);
            }
            return n;
        }
        let down: u64 = 1074 - k;
        let ghost p = pow2(k as nat) as int;
        proof {
            lemma_pow2_adds(down as nat, k as nat);
            lemma_pow2_pos(k as nat);
            lemma_pow2_pos(down as nat);
            assert(u == pow2(down as nat) * p);
        }
        let n: u64 = if down > 107 {
            proof {
                let d = pow2(down as nat) as int;
                lemma_small_powers(107);
                lemma_pow2_adds(53, 54);
                lemma2_to64();
                lemma2_to64_rest();
                lemma_pow2_strictly_increases(107, down as nat);
                assert(d > 0x800_0000_0000_0000_0000_0000_0000);
                assert(pattern_value(0) == 0 && pattern_value(1) == 1);
                assert(0 * d == 0 && 1 * d == d);
                lemma_nearest_multiple(0, s as int, d);
            }
            0
        } else {
            round_divided(s, down)
        };
        proof {
            lemma_nearest_scales(n as nat, s as int, pow2(down as nat) as int, p);
        }
        n
    }

    /// Numeric `self * other`, rounded to nearest with ties to even.
    pub fn times(self, other: Coord) -> (r: Coord)
        ensures
            self.multiplies_to(other, r),
    {
        let nan = Coord { bits: 0x7ff8_0000_0000_0000 };
        proof {
            assert(nan.is_nan());
            self.lemma_unsigned();
            other.lemma_unsigned();
            self.lemma_zero();
            other.lemma_zero();
        }
        if self.is_not_number() || other.is_not_number() {
            return nan;
        }
        let negative: bool = (self.bits >= SIGN_WEIGHT) != (other.bits >= SIGN_WEIGHT);
        let left_infinite: bool = (self.bits / FRACTION_SPAN) % 2048 == 2047;
        let right_infinite: bool = (other.bits / FRACTION_SPAN) % 2048 == 2047;
        if left_infinite || right_infinite {
            if self.bits % SIGN_WEIGHT == 0 || other.bits % SIGN_WEIGHT == 0 {
                return nan;
            }
            let r = Coord {
                bits: if negative {
                    SIGN_WEIGHT + INFINITY_BITS
                } else {
                    INFINITY_BITS
                },
            };
            assert(r.is_infinite());
            return r;
        }
        let (s1, k1) = self.parts();
        let (s2, k2) = other.parts();
        let n: u64 = Coord::round_product(s1, k1, s2, k2);
        let r = Coord { bits: if negative { SIGN_WEIGHT + n } else { n } };
        proof {
            let a = magnitude(exponent_of(self.bits), fraction_of(self.bits)) as int;
            let b = magnitude(exponent_of(other.bits), fraction_of(other.bits)) as int;
            lemma_pow2_pos(1074);
            assert(0 <= a * b) by (nonlinear_arith)
                requires
                    0 <= a,
                    0 <= b,
            ;
            assert((-a) * b == -(a * b)) by (nonlinear_arith);
            assert(a * (-b) == -(a * b)) by (nonlinear_arith);
            assert((-a) * (-b) == a * b) by (nonlinear_arith);
            lemma_signed_nearest_multiple(n, a * b, block_unit() as int, negative, r);
        }
        r
    }

    /// A number is zero when its pattern without the sign is.
    proof fn lemma_zero(self)
        ensures
            (self.value() == 0) == (self.bits % SIGN_WEIGHT == 0),
    {
        self.lemma_unsigned();
        let n = self.unsigned_bits();
        assert(self.bits % SIGN_WEIGHT == n);
        assert(pattern_value(0) == 0);
        if n > 0 {
            lemma_magnitude_ordered(0, n);
        }
    }
}

impl Coord {
    /// The key that orders patterns as their values are ordered.
    spec fn key(self) -> int {
        if self.is_negative() {
            -self.unsigned_bits()
        } else {
            self.unsigned_bits() as int
        }
    }

    /// Both are the same pattern, or both are NaN.
    pub open spec fn same_number(self, other: Coord) -> bool {
        self == other || (self.is_nan() && other.is_nan())
    }
}

/// The number with this key.
spec fn with_key(key: int) -> Coord {
    Coord {
        bits: (if key >= 0 {
            key
        } else {
            SIGN_WEIGHT - key
        }) as u64,
    }
}

/// Two numbers that are both nearest cannot lie on different sides.
proof fn lemma_nearest_on_one_side(exact: int, unit: int, low: Coord, high: Coord)
    requires
        0 < unit,
        rounds_to_ratio(exact, unit, low),
        rounds_to_ratio(exact, unit, high),
    ensures
        low.value() >= high.value(),
{
    if low.value() < high.value() {
        low.lemma_unsigned();
        high.lemma_unsigned();
        high.lemma_order_key(low);
        low.lemma_order_key(high);
        assert(low.key() < high.key());
        assert(distance(low.value() * unit, exact) == distance(high.value() * unit, exact));
        assert(low.bits % 2 == 0 && high.bits % 2 == 0);
        let mid = with_key(low.key() + 1);
        mid.lemma_unsigned();
        assert(-INFINITY_BITS <= low.key() && high.key() <= INFINITY_BITS);
        assert(mid.key() == low.key() + 1);
        assert(mid.unsigned_bits() <= INFINITY_BITS);
        assert(!mid.is_nan());
        assert(low.key() + 2 <= high.key());
        mid.lemma_order_key(low);
        high.lemma_order_key(mid);
        let (a, m, b) = (low.value(), mid.value(), high.value());
        assert(a < m && m < b);
        lemma_mul_strict_inequality(a, m, unit);
        lemma_mul_strict_inequality(m, b, unit);
        assert(distance(m * unit, exact) < distance(a * unit, exact));
    }
}

/// Rounding has one result: two numbers nearest to the same ratio are equal.
pub proof fn law_rounding_is_unique(exact: int, unit: int, r1: Coord, r2: Coord)
    requires
        0 < unit,
        rounds_to_ratio(exact, unit, r1),
        rounds_to_ratio(exact, unit, r2),
    ensures
        r1.value() == r2.value(),
        r1.is_negative() == r2.is_negative() ==> r1 == r2,
{
    lemma_nearest_on_one_side(exact, unit, r1, r2);
    lemma_nearest_on_one_side(exact, unit, r2, r1);
    lemma_same_value(r1, r2);
}

proof fn lemma_same_value(r1: Coord, r2: Coord)
    requires
        r1.value() == r2.value(),
    ensures
        r1.is_negative() == r2.is_negative() ==> r1 == r2,
        r1.value() != 0 ==> r1 == r2,
{
    r1.lemma_unsigned();
    r2.lemma_unsigned();
    r1.lemma_order_key(r2);
    r2.lemma_order_key(r1);
    assert(r1.key() == r2.key());
    r1.lemma_zero();
}

proof fn lemma_rounds_to_whole(exact: int, r: Coord)
    requires
        rounds_to(exact, r),
    ensures
        rounds_to_ratio(exact, 1, r),
{
    assert forall|c: Coord| #![trigger c.value()] c.value() * 1 == c.value() by {}
}

/// Rounding keeps order: of two exact numbers, the smaller one rounds to no more.
pub proof fn law_rounding_keeps_order(x: int, y: int, rx: Coord, ry: Coord)
    requires
        x <= y,
        rounds_to(x, rx),
        rounds_to(y, ry),
    ensures
        rx.at_most(ry),
{
    if rx.value() > ry.value() {
        assert(distance(rx.value(), x) <= distance(ry.value(), x));
        assert(distance(ry.value(), y) <= distance(rx.value(), y));
        assert(x == y);
        lemma_rounds_to_whole(x, rx);
        lemma_rounds_to_whole(y, ry);
        law_rounding_is_unique(x, 1, rx, ry);
    }
}

/// A number rounds to itself, and to no other number but for the sign of zero.
pub proof fn law_number_rounds_to_itself(c: Coord, r: Coord)
    requires
        !c.is_nan(),
        rounds_to(c.value(), r),
    ensures
        rounds_to(c.value(), c),
        r.value() == c.value(),
        c.value() != 0 ==> r == c,
{
    assert(distance(c.value(), c.value()) == 0);
    assert(rounds_to(c.value(), c));
    law_rounding_keeps_order(c.value(), c.value(), c, r);
    law_rounding_keeps_order(c.value(), c.value(), r, c);
    lemma_same_value(c, r);
}

/// Numbers with the same value are equal, but for the sign of zero.
pub proof fn lemma_value_tells(a: Coord, b: Coord)
    requires
        a.value() == b.value(),
        a.value() != 0,
    ensures
        a == b,
{
    lemma_same_value(a, b);
}

/// A sum has one result, up to which NaN it is.
pub proof fn law_sum_is_unique(a: Coord, b: Coord, r1: Coord, r2: Coord)
    requires
        a.adds_to(b, r1),
        a.adds_to(b, r2),
    ensures
        r1.same_number(r2),
{
    if a.is_finite() && b.is_finite() {
        let exact = a.value() + b.value();
        assert forall|r: Coord| #[trigger] rounds_to(exact, r) implies rounds_to_ratio(
            exact,
            1,
            r,
        ) by {
            assert forall|c: Coord| #![trigger c.value()] c.value() * 1 == c.value() by {}
        }
        assert(rounds_to(exact, r1) && rounds_to(exact, r2));
        law_rounding_is_unique(exact, 1, r1, r2);
        if exact != 0 {
            // A sum is a whole number of units, so a sum other than zero never
            // rounds to zero.
            let one = with_key(if exact > 0 { 1 } else { -1 });
            assert(one.value() == (if exact > 0 { 1int } else { -1int }));
            assert(!one.is_nan());
            assert(distance(r1.value(), exact) <= distance(one.value(), exact));
            assert(r1.value() != 0);
            lemma_same_value(r1, r2);
        }
    }
}

/// A product has one result, up to which NaN it is.
pub proof fn law_product_is_unique(a: Coord, b: Coord, r1: Coord, r2: Coord)
    requires
        a.multiplies_to(b, r1),
        a.multiplies_to(b, r2),
    ensures
        r1.same_number(r2),
{
    lemma_pow2_pos(1074);
    if a.is_finite() && b.is_finite() {
        law_rounding_is_unique(a.value() * b.value(), block_unit() as int, r1, r2);
    } else if !r1.is_nan() && !r2.is_nan() {
        r1.lemma_unsigned();
        r2.lemma_unsigned();
    }
}

/// Numbers compare as their values do, and NaN compares with nothing.
pub proof fn law_comparisons_in_numbers(a: Coord, b: Coord)
    ensures
        !a.is_nan() && !b.is_nan() ==> {
            &&& a.at_most(b) <==> a.value() <= b.value()
            &&& a.below(b) <==> a.value() < b.value()
            &&& a.equals(b) <==> a.value() == b.value()
        },
        a.is_nan() || b.is_nan() ==> !a.at_most(b) && !a.below(b) && !a.equals(b),
        a.equals(b) <==> a.at_most(b) && b.at_most(a),
{
}

/// The block of a number within the range of block coordinates is the one that it lies
/// in; its upper block is the first one that does not lie below it.
pub proof fn law_blocks_in_numbers(c: Coord, block: int)
    requires
        !c.is_nan(),
        i32::MIN <= block <= i32::MAX,
    ensures
        i32::MIN < block < i32::MAX ==> (c.floor_block() == block <==> block * pow2(1074)
            <= c.value() < (block + 1) * pow2(1074)),
        i32::MIN < block < i32::MAX ==> (c.ceil_block() == block <==> (block - 1) * pow2(1074)
            < c.value() <= block * pow2(1074)),
        c.value() >= i32::MAX * pow2(1074) ==> c.floor_block() == i32::MAX && c.ceil_block()
            == i32::MAX,
        c.value() <= i32::MIN * pow2(1074) ==> c.floor_block() == i32::MIN && c.ceil_block()
            == i32::MIN,
{
    lemma_pow2_pos(1074);
    let u = block_unit() as int;
    let v = c.value();
    lemma_block_division(v, u, block);
    lemma_block_division(-v, u, -block);
    lemma_block_division(v, u, i32::MAX as int);
    lemma_block_division(-v, u, -(i32::MAX as int));
    lemma_block_division(v, u, i32::MIN as int);
    lemma_block_division(-v, u, -(i32::MIN as int));
    assert((-block) * u == -(block * u)) by (nonlinear_arith);
    assert((-block + 1) * u == -((block - 1) * u)) by (nonlinear_arith);
    assert((-(i32::MAX as int)) * u == -(i32::MAX as int * u)) by (nonlinear_arith);
    assert((-(i32::MIN as int)) * u == -(i32::MIN as int * u)) by (nonlinear_arith);
}

/// A quotient is at least `q` exactly where the dividend is at least `q` units.
proof fn lemma_block_division(v: int, u: int, q: int)
    requires
        u > 0,
    ensures
        v / u >= q <==> v >= q * u,
        v / u == q <==> q * u <= v < (q + 1) * u,
{
    let d = v / u;
    lemma_fundamental_div_mod(v, u);
    assert(v == u * d + v % u);
    assert(0 <= v % u < u);
    assert(d >= q ==> u * d >= q * u) by (nonlinear_arith)
        requires
            u > 0,
    ;
    assert(d <= q - 1 ==> u * d <= q * u - u) by (nonlinear_arith)
        requires
            u > 0,
    ;
    assert(d >= q + 1 ==> u * d >= q * u + u) by (nonlinear_arith)
        requires
            u > 0,
    ;
    assert((q + 1) * u == q * u + u) by (nonlinear_arith);
    assert(u * q == q * u) by (nonlinear_arith);
    assert(v / u == q ==> u * d == u * q);
}

/// NaN lies in block 0.
pub proof fn law_nan_lies_in_block_zero(c: Coord)
    requires
        c.is_nan(),
    ensures
        c.floor_block() == 0,
        c.ceil_block() == 0,
{
}

/// No number is nearer to the exact sum of two finite numbers than their sum is.
pub proof fn law_sum_is_nearest(a: Coord, b: Coord, r: Coord, c: Coord)
    requires
        a.is_finite(),
        b.is_finite(),
        a.adds_to(b, r),
        !c.is_nan(),
    ensures
        !r.is_nan(),
        c.value() <= a.value() + b.value() ==> c.value() <= r.value(),
        c.value() >= a.value() + b.value() ==> c.value() >= r.value(),
        c.value() < a.value() + b.value() < r.value() ==> r.value() - (a.value() + b.value()) <= (
        a.value() + b.value()) - c.value(),
        c.value() > a.value() + b.value() > r.value() ==> (a.value() + b.value()) - r.value()
            <= c.value() - (a.value() + b.value()),
{
    let exact = a.value() + b.value();
    assert(rounds_to(exact, r));
    assert(distance(r.value(), exact) <= distance(c.value(), exact));
}

/// No number is nearer to the exact product of two finite numbers than their product is.
pub proof fn law_product_is_nearest(a: Coord, b: Coord, r: Coord, c: Coord)
    requires
        a.is_finite(),
        b.is_finite(),
        a.multiplies_to(b, r),
        !c.is_nan(),
    ensures
        !r.is_nan(),
        c.value() * pow2(1074) <= a.value() * b.value() ==> c.value() * pow2(1074) <= r.value()
            * pow2(1074),
        c.value() * pow2(1074) >= a.value() * b.value() ==> c.value() * pow2(1074) >= r.value()
            * pow2(1074),
        r.is_negative() == (a.is_negative() != b.is_negative()),
{
    let exact = a.value() * b.value();
    let u = block_unit() as int;
    assert(rounds_to_ratio(exact, u, r));
    assert(distance(r.value() * u, exact) <= distance(c.value() * u, exact));
}

/// Turning the sign turns the value, and taking the sign away leaves a value that is
/// not negative.
pub proof fn law_signs_in_numbers(c: Coord)
    ensures
        c.negation().value() == -c.value(),
        c.negation().is_negative() != c.is_negative(),
        !c.absolute().is_negative(),
        c.absolute().value() >= 0,
        c.absolute().value() == c.value() || c.absolute().value() == -c.value(),
        c.negation().is_nan() == c.is_nan(),
{
    c.lemma_negation();
    assert(magnitude(exponent_of(c.absolute().bits), fraction_of(c.absolute().bits)) >= 0);
}

/// Sums with a side that is not finite, and sums of nothing: NaN and opposite
/// infinities give NaN, an infinity stays what it is, and a zero sum is positive unless
/// both sides are negative.
pub proof fn law_special_sums(a: Coord, b: Coord, r: Coord)
    requires
        a.adds_to(b, r),
    ensures
        a.is_nan() || b.is_nan() ==> r.is_nan(),
        a.is_infinite() && b.is_infinite() && a.bits != b.bits ==> r.is_nan(),
        a.is_infinite() && b.is_infinite() && a.bits == b.bits ==> r.bits == a.bits,
        a.is_infinite() && b.is_finite() ==> r.bits == a.bits,
        a.is_finite() && b.is_infinite() ==> r.bits == b.bits,
        a.is_finite() && b.is_finite() && a.value() + b.value() == 0 && a.is_negative()
            && b.is_negative() ==> r.bits == 0x8000_0000_0000_0000,
        a.is_finite() && b.is_finite() && a.value() + b.value() == 0 && !(a.is_negative()
            && b.is_negative()) ==> r.bits == 0,
{
}

/// Products with a side that is not finite: NaN and an infinity times zero give NaN,
/// and otherwise an infinity gives one.
pub proof fn law_special_products(a: Coord, b: Coord, r: Coord)
    requires
        a.multiplies_to(b, r),
    ensures
        a.is_nan() || b.is_nan() ==> r.is_nan(),
        a.is_infinite() && b.value() == 0 ==> r.is_nan(),
        b.is_infinite() && a.value() == 0 ==> r.is_nan(),
        !a.is_nan() && !b.is_nan() && a.is_infinite() && b.value() != 0 ==> r.is_infinite(),
        !a.is_nan() && !b.is_nan() && b.is_infinite() && a.value() != 0 ==> r.is_infinite(),
{
}

} // verus!
