//! Decimal fixed-point numbers with six fractional digits.
//!
//! A [`Scalar`] stores a real number as a count of millionths in an `i64`.
//! Every operation computes the exact integer result, rounds it toward zero
//! where a division is involved, and clamps it to the range of `i64`, so that
//! no operation overflows and each result is an exact function of its inputs.

use vstd::prelude::*;

verus! {

/// Number of raw units in the value one.
pub const SCALE: i64 = 1_000_000;

/// Clamps an integer to the range of raw values.
pub open spec fn sat(x: int) -> int {
    if x < i64::MIN {
        i64::MIN as int
    } else if x > i64::MAX {
        i64::MAX as int
    } else {
        x
    }
}

/// Quotient of `a` by `b`, rounded toward zero.
pub open spec fn trunc_div(a: int, b: int) -> int
    recommends
        b != 0,
{
    if a >= 0 && b > 0 {
        a / b
    } else if a < 0 && b > 0 {
        -((-a) / b)
    } else if a >= 0 {
        -(a / (-b))
    } else {
        (-a) / (-b)
    }
}

/// Whether `r` is the integer square root of `n`: the largest integer whose
/// square does not exceed `n`.
pub open spec fn is_isqrt(n: int, r: int) -> bool {
    0 <= r && r * r <= n && n < (r + 1) * (r + 1)
}

/// Integer square root of `n`, for `n >= 0`.
pub open spec fn isqrt(n: int) -> int
    recommends
        n >= 0,
{
    choose|r: int| is_isqrt(n, r)
}

/// Two integer square roots of one number are equal.
pub proof fn lemma_isqrt_unique(n: int, r1: int, r2: int)
    requires
        is_isqrt(n, r1),
        is_isqrt(n, r2),
    ensures
        r1 == r2,
{
    if r1 < r2 {
        assert((r1 + 1) * (r1 + 1) <= r2 * r2) by (nonlinear_arith)
            requires
                0 <= r1,
                r1 + 1 <= r2,
        ;
    } else if r2 < r1 {
        assert((r2 + 1) * (r2 + 1) <= r1 * r1) by (nonlinear_arith)
            requires
                0 <= r2,
                r2 + 1 <= r1,
        ;
    }
}

/// Every natural number has an integer square root.
pub proof fn lemma_isqrt_exists(n: int)
    requires
        n >= 0,
    ensures
        is_isqrt(n, isqrt(n)),
    decreases n,
{
    if n == 0 {
        assert(is_isqrt(0, 0));
    } else {
        lemma_isqrt_exists(n - 1);
        let r = isqrt(n - 1);
        if n < (r + 1) * (r + 1) {
            assert(is_isqrt(n, r));
        } else {
            assert((r + 2) * (r + 2) == (r + 1) * (r + 1) + 2 * r + 3) by (nonlinear_arith);
            assert(is_isqrt(n, r + 1));
        }
    }
}

/// A number that satisfies the defining bounds is the integer square root.
pub proof fn lemma_isqrt_is(n: int, r: int)
    requires
        is_isqrt(n, r),
    ensures
        isqrt(n) == r,
{
    lemma_isqrt_unique(n, r, isqrt(n));
}

/// The integer square root of a raw value times the scale fits a raw value.
pub proof fn lemma_sqrt_fits(raw: int)
    requires
        0 <= raw <= i64::MAX,
    ensures
        is_isqrt(raw * SCALE, isqrt(raw * SCALE)),
        0 <= isqrt(raw * SCALE) <= i64::MAX,
{
    assert(0 <= raw * SCALE <= 0x7fff_ffff_ffff_ffff * 1_000_000) by (nonlinear_arith)
        requires
            0 <= raw <= 0x7fff_ffff_ffff_ffff,
            SCALE == 1_000_000,
    ;
    lemma_isqrt_exists(raw * SCALE);
    let r = isqrt(raw * SCALE);
    if r > i64::MAX {
        assert(r * r >= 0x7fff_ffff_ffff_ffffint * 0x7fff_ffff_ffff_ffffint) by (nonlinear_arith)
            requires
                r >= 0x7fff_ffff_ffff_ffff,
        ;
        assert(0x7fff_ffff_ffff_ffffint * 0x7fff_ffff_ffff_ffffint > 0x7fff_ffff_ffff_ffffint
            * 1_000_000) by (nonlinear_arith);
    }
}

/// A fixed-point number: `raw` counts millionths.
#[derive(Clone, Copy, Debug, PartialEq, Eq, Structural)]
pub struct Scalar {
    pub raw: i64,
}

impl View for Scalar {
    type V = int;

    /// The raw count of millionths, as a mathematical integer.
    open spec fn view(&self) -> int {
        self.raw as int
    }
}

/// Clamps a wide integer to the range of raw values.
pub(crate) fn clamp_wide(x: i128) -> (r: i64)
    ensures
        r == sat(x as int),
{
    if x > i64::MAX as i128 {
        i64::MAX
    } else if x < i64::MIN as i128 {
        i64::MIN
    } else {
        x as i64
    }
}

/// Integer square root by bisection.
pub fn isqrt_u128(n: u128) -> (r: u64)
    ensures
        is_isqrt(n as int, r as int),
        r as int == isqrt(n as int),
{
    let mut lo: u128 = 0;
    let mut hi: u128 = 0x1_0000_0000_0000_0000;
    assert(0x1_0000_0000_0000_0000int * 0x1_0000_0000_0000_0000int > u128::MAX) by (nonlinear_arith);
    while hi - lo > 1
        invariant
            lo < hi <= 0x1_0000_0000_0000_0000,
            lo * lo <= n,
            n < hi * hi,
        decreases hi - lo,
    {
        let mid: u128 = lo + (hi - lo) / 2;
        assert(mid * mid < 0x1_0000_0000_0000_0000int * 0x1_0000_0000_0000_0000int)
            by (nonlinear_arith)
            requires
                0 <= mid < 0x1_0000_0000_0000_0000,
        ;
        assert(0x1_0000_0000_0000_0000int * 0x1_0000_0000_0000_0000int
            == 0x1_0000_0000_0000_0000_0000_0000_0000_0000int) by (nonlinear_arith);
        if mid * mid <= n {
            lo = mid;
        } else {
            hi = mid;
        }
    }
    proof {
        lemma_isqrt_is(n as int, lo as int);
    }
    lo as u64
}

impl Scalar {
    /// The scalar whose raw value is `x` clamped to the range of `i64`.
    pub open spec fn clip(x: int) -> Scalar {
        Scalar { raw: sat(x) as i64 }
    }

    /// The scalar with the given count of millionths.
    pub fn new(raw: i64) -> (r: Scalar)
        ensures
            r.raw == raw,
    {
        Scalar { raw }
    }

    /// The value zero.
    pub fn zero() -> (r: Scalar)
        ensures
            r.raw == 0,
    {
        Scalar { raw: 0 }
    }

    /// The value one.
    pub fn one() -> (r: Scalar)
        ensures
            r.raw == SCALE,
    {
        Scalar { raw: SCALE }
    }

    /// The largest representable value, which stands for an unbounded limit.
    pub fn max_value() -> (r: Scalar)
        ensures
            r.raw == i64::MAX,
    {
        Scalar { raw: i64::MAX }
    }

    /// The whole number `n`, clamped to the representable range.
    pub open spec fn from_int_spec(n: int) -> Scalar {
        Scalar::clip(n * SCALE)
    }

    /// The whole number `n`, clamped to the representable range.
    pub fn from_int(n: i64) -> (r: Scalar)
        ensures
            r == Scalar::from_int_spec(n as int),
    {
        assert(-0x8000_0000_0000_0000 * 1_000_000 <= n * SCALE <= 0x8000_0000_0000_0000 * 1_000_000)
            by (nonlinear_arith)
            requires
                -0x8000_0000_0000_0000 <= n <= 0x8000_0000_0000_0000,
                SCALE == 1_000_000,
        ;
        let wide: i128 = (n as i128) * (SCALE as i128);
        Scalar { raw: clamp_wide(wide) }
    }

    /// The negation, clamped.
    pub open spec fn negated(self) -> Scalar {
        Scalar::clip(-self@)
    }

    /// The sum, clamped.
    pub open spec fn plus(self, rhs: Scalar) -> Scalar {
        Scalar::clip(self@ + rhs@)
    }

    /// The difference, clamped.
    pub open spec fn minus(self, rhs: Scalar) -> Scalar {
        Scalar::clip(self@ - rhs@)
    }

    /// The product, rounded toward zero and clamped.
    pub open spec fn times(self, rhs: Scalar) -> Scalar {
        Scalar::clip(trunc_div(self@ * rhs@, SCALE as int))
    }

    /// The quotient, rounded toward zero and clamped.
    pub open spec fn over(self, rhs: Scalar) -> Scalar
        recommends
            rhs.raw != 0,
    {
        Scalar::clip(trunc_div(self@ * SCALE, rhs@))
    }

    /// The magnitude: the value itself, or its clamped negation where it is
    /// negative.
    pub open spec fn abs_spec(self) -> Scalar {
        if self.raw < 0 {
            self.negated()
        } else {
            self
        }
    }

    /// Absolute value; the most negative raw value maps to the largest.
    pub fn abs(self) -> (r: Scalar)
        ensures
            r == self.abs_spec(),
    {
        if self.raw < 0 {
            Scalar { raw: clamp_wide(-(self.raw as i128)) }
        } else {
            self
        }
    }

    /// The smaller of two scalars.
    pub open spec fn min_spec(self, other: Scalar) -> Scalar {
        if self.raw <= other.raw {
            self
        } else {
            other
        }
    }

    /// The smaller of two scalars.
    pub fn min(self, other: Scalar) -> (r: Scalar)
        ensures
            r == self.min_spec(other),
    {
        if self.raw <= other.raw {
            self
        } else {
            other
        }
    }

    /// The square root, rounded down: the integer square root of the raw
    /// value times the scale.
    pub open spec fn sqrt_spec(self) -> Scalar
        recommends
            self.raw >= 0,
    {
        Scalar { raw: isqrt(self@ * SCALE) as i64 }
    }

    /// Square root, rounded down to the nearest millionth.
    pub fn sqrt(self) -> (r: Scalar)
        requires
            self.raw >= 0,
        ensures
            r == self.sqrt_spec(),
            is_isqrt(self@ * SCALE, r@),
    {
        proof {
            lemma_sqrt_fits(self@);
        }
        let wide: u128 = (self.raw as u128) * (SCALE as u128);
        let root: u64 = isqrt_u128(wide);
        Scalar { raw: root as i64 }
    }
}

/// Negation. The most negative value has none and gives the largest.
impl core::ops::Neg for Scalar {
    type Output = Scalar;

    fn neg(self) -> (r: Scalar) {
        Scalar { raw: clamp_wide(-(self.raw as i128)) }
    }
}

/// What `-a` means in contracts.
impl vstd::std_specs::ops::NegSpecImpl for Scalar {
    open spec fn obeys_neg_spec() -> bool {
        true
    }

    open spec fn neg_req(self) -> bool {
        true
    }

    open spec fn neg_spec(self) -> Scalar {
        self.negated()
    }
}

/// Addition, clamped to the representable range.
impl core::ops::Add for Scalar {
    type Output = Scalar;

    fn add(self, rhs: Scalar) -> (r: Scalar) {
        Scalar { raw: clamp_wide(self.raw as i128 + rhs.raw as i128) }
    }
}

/// What `a + b` means in contracts.
impl vstd::std_specs::ops::AddSpecImpl for Scalar {
    open spec fn obeys_add_spec() -> bool {
        true
    }

    open spec fn add_req(self, rhs: Scalar) -> bool {
        true
    }

    open spec fn add_spec(self, rhs: Scalar) -> Scalar {
        self.plus(rhs)
    }
}

/// Subtraction, clamped to the representable range.
impl core::ops::Sub for Scalar {
    type Output = Scalar;

    fn sub(self, rhs: Scalar) -> (r: Scalar) {
        Scalar { raw: clamp_wide(self.raw as i128 - rhs.raw as i128) }
    }
}

/// What `a - b` means in contracts.
impl vstd::std_specs::ops::SubSpecImpl for Scalar {
    open spec fn obeys_sub_spec() -> bool {
        true
    }

    open spec fn sub_req(self, rhs: Scalar) -> bool {
        true
    }

    open spec fn sub_spec(self, rhs: Scalar) -> Scalar {
        self.minus(rhs)
    }
}

/// The product of two raw values fits in 128 bits.
pub proof fn lemma_raw_product_bounds(a: int, b: int)
    requires
        i64::MIN <= a <= i64::MAX,
        i64::MIN <= b <= i64::MAX,
    ensures
        -0x4000_0000_0000_0000_0000_0000_0000_0000 <= a * b
            <= 0x4000_0000_0000_0000_0000_0000_0000_0000,
{
    assert(-0x8000_0000_0000_0000int * 0x8000_0000_0000_0000int <= a * b
        <= 0x8000_0000_0000_0000int * 0x8000_0000_0000_0000int) by (nonlinear_arith)
        requires
            -0x8000_0000_0000_0000 <= a <= 0x8000_0000_0000_0000,
            -0x8000_0000_0000_0000 <= b <= 0x8000_0000_0000_0000,
    ;
    assert(0x8000_0000_0000_0000int * 0x8000_0000_0000_0000int
        == 0x4000_0000_0000_0000_0000_0000_0000_0000int) by (nonlinear_arith);
}

/// Multiplication: the exact product, rounded toward zero to millionths and
/// clamped.
impl core::ops::Mul for Scalar {
    type Output = Scalar;

    fn mul(self, rhs: Scalar) -> (r: Scalar) {
        proof {
            lemma_raw_product_bounds(self@, rhs@);
        }
        let wide: i128 = (self.raw as i128) * (rhs.raw as i128);
        Scalar { raw: clamp_wide(wide / (SCALE as i128)) }
    }
}

/// What `a * b` means in contracts.
impl vstd::std_specs::ops::MulSpecImpl for Scalar {
    open spec fn obeys_mul_spec() -> bool {
        true
    }

    open spec fn mul_req(self, rhs: Scalar) -> bool {
        true
    }

    open spec fn mul_spec(self, rhs: Scalar) -> Scalar {
        self.times(rhs)
    }
}

/// Division by a scalar other than zero: the exact quotient, rounded toward
/// zero to millionths and clamped.
impl core::ops::Div for Scalar {
    type Output = Scalar;

    fn div(self, rhs: Scalar) -> (r: Scalar) {
        let wide: i128 = (self.raw as i128) * (SCALE as i128);
        let den: i128 = rhs.raw as i128;
        let quotient: i128 = if den > 0 {
            wide / den
        } else {
            (-wide) / (-den)
        };
        Scalar { raw: clamp_wide(quotient) }
    }
}

/// What `a / b` means in contracts, and when it may be written.
impl vstd::std_specs::ops::DivSpecImpl for Scalar {
    open spec fn obeys_div_spec() -> bool {
        true
    }

    open spec fn div_req(self, rhs: Scalar) -> bool {
        rhs.raw != 0
    }

    open spec fn div_spec(self, rhs: Scalar) -> Scalar {
        self.over(rhs)
    }
}

} // verus!
