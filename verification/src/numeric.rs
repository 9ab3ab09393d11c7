//! Exact decimal numeric values.
//!
//! A finite value is `(-1)^neg * mag / 10^scale` for an integer magnitude
//! `mag < 10^37` and a scale of at most 36 fractional digits.  Arithmetic
//! that leaves this range saturates to an infinite value, and undefined
//! operations (such as zero divided by zero) produce a not-a-number value,
//! mirroring the special values of machine floats.

use vstd::prelude::*;

verus! {

/// Exclusive bound on the magnitude of a finite value: `10^37`.
pub const MAG_LIMIT: u128 = 10_000_000_000_000_000_000_000_000_000_000_000_000;

/// Largest number of fractional digits a finite value may carry.
pub const SCALE_MAX: u32 = 36;

/// A calculator number: an exact decimal, or one of the two special states
/// that stand in for float overflow and undefined results.
#[derive(Clone, Copy, Debug, PartialEq, Eq, Structural)]
pub enum NumericValue {
    /// `(-1)^neg * mag / 10^scale`.  `neg` with `mag == 0` is a negative zero.
    Finite { neg: bool, mag: u128, scale: u32 },
    /// Signed infinity: the result of arithmetic that left the finite range,
    /// or of dividing a non-zero value by zero.
    Infinite { neg: bool },
    /// Undefined result, such as zero divided by zero.
    NotANumber,
}

/// `10^n` as a mathematical integer.
pub open spec fn pow10(n: nat) -> nat
    decreases n,
{
    if n == 0 {
        1
    } else {
        10 * pow10((n - 1) as nat)
    }
}

pub proof fn lemma_pow10_pos(n: nat)
    ensures
        pow10(n) >= 1,
    decreases n,
{
    if n > 0 {
        lemma_pow10_pos((n - 1) as nat);
    }
}

pub proof fn lemma_pow10_adds(a: nat, b: nat)
    ensures
        pow10(a + b) == pow10(a) * pow10(b),
    decreases a,
{
    if a == 0 {
        assert(pow10(a) == 1);
        assert(a + b == b);
        assert(pow10(a + b) == pow10(a) * pow10(b));
    } else {
        let a1 = (a - 1) as nat;
        lemma_pow10_adds(a1, b);
        assert(pow10(a) == 10 * pow10(a1));
        assert(pow10(a + b) == 10 * pow10(a1 + b));
        assert(10 * (pow10(a1) * pow10(b)) == (10 * pow10(a1)) * pow10(b)) by (nonlinear_arith);
        assert(pow10(a + b) == pow10(a) * pow10(b));
    }
}

pub proof fn lemma_pow10_mono(a: nat, b: nat)
    requires
        a <= b,
    ensures
        pow10(a) <= pow10(b),
    decreases b,
{
    if a < b && b > 0 {
        lemma_pow10_mono(a, (b - 1) as nat);
        lemma_pow10_pos((b - 1) as nat);
    }
}

pub proof fn lemma_pow10_37()
    ensures
        pow10(37) == MAG_LIMIT,
        pow10(36) * 10 == MAG_LIMIT,
{
    reveal_with_fuel(pow10, 40);
    assert(pow10(37) == MAG_LIMIT);
    assert(pow10(36) * 10 == MAG_LIMIT);
}

/// Number of decimal digits in `n`, counting `0` as one digit.
pub open spec fn ndigits(n: nat) -> nat
    decreases n,
{
    if n < 10 {
        1
    } else {
        1 + ndigits(n / 10)
    }
}

/// A value is smaller than ten to the power of its digit count.
pub proof fn lemma_ndigits_upper(n: nat)
    ensures
        n < pow10(ndigits(n)),
    decreases n,
{
    if n < 10 {
        assert(pow10(0) == 1);
        assert(pow10(1) == 10);
        assert(ndigits(n) == 1);
    } else {
        lemma_ndigits_upper(n / 10);
        vstd::arithmetic::div_mod::lemma_fundamental_div_mod(n as int, 10);
        assert(n < 10 * (n / 10) + 10);
        assert(10 * (n / 10) + 10 == 10 * (n / 10 + 1));
        assert(10 * (n / 10 + 1) <= 10 * pow10(ndigits(n / 10)));
        assert(pow10(ndigits(n)) == 10 * pow10(ndigits(n / 10)));
    }
}

/// A non-zero value is at least ten to the power of one less than its digit count.
pub proof fn lemma_ndigits_lower(n: nat)
    requires
        n >= 1,
    ensures
        n >= pow10((ndigits(n) - 1) as nat),
    decreases n,
{
    if n < 10 {
        assert(pow10(0) == 1);
    } else {
        lemma_ndigits_lower(n / 10);
        vstd::arithmetic::div_mod::lemma_fundamental_div_mod(n as int, 10);
        assert(n % 10 >= 0);
        assert(n >= 10 * (n / 10));
        assert(10 * (n / 10) >= 10 * pow10((ndigits(n / 10) - 1) as nat));
        assert(pow10((ndigits(n) - 1) as nat) == 10 * pow10((ndigits(n / 10) - 1) as nat));
    }
}

/// A value below `pow10(k)` has at most `k` digits (for `k >= 1`).
pub proof fn lemma_ndigits_bound(n: nat, k: nat)
    requires
        k >= 1,
        n < pow10(k),
    ensures
        ndigits(n) <= k,
{
    if ndigits(n) > k {
        lemma_ndigits_lower(n);
        lemma_pow10_mono(k, (ndigits(n) - 1) as nat);
        if n == 0 {
        } else {
            assert(n >= pow10((ndigits(n) - 1) as nat));
        }
    }
}

impl NumericValue {
    /// Range invariant: a finite magnitude stays under `10^37` and the scale
    /// under 37 fractional digits.
    pub open spec fn wf(self) -> bool {
        match self {
            NumericValue::Finite { neg, mag, scale } => mag < MAG_LIMIT && scale <= SCALE_MAX,
            _ => true,
        }
    }

    pub open spec fn is_finite(self) -> bool {
        self is Finite
    }

    pub open spec fn f_neg(self) -> bool {
        self->Finite_neg
    }

    pub open spec fn f_mag(self) -> nat {
        self->Finite_mag as nat
    }

    pub open spec fn f_scale(self) -> nat {
        self->Finite_scale as nat
    }

    /// The value of a finite number multiplied by `10^36`, as an integer.
    /// Two finite numbers are numerically equal exactly when their `scaled`
    /// values agree.
    pub open spec fn scaled(self) -> int {
        (if self.f_neg() {
            -1
        } else {
            1
        }) * self.f_mag() * pow10((SCALE_MAX - self.f_scale()) as nat)
    }

    /// Sign flip; not-a-number is unchanged.
    pub open spec fn spec_negated(self) -> NumericValue {
        match self {
            NumericValue::Finite { neg, mag, scale } => NumericValue::Finite {
                neg: !neg,
                mag,
                scale,
            },
            NumericValue::Infinite { neg } => NumericValue::Infinite { neg: !neg },
            NumericValue::NotANumber => NumericValue::NotANumber,
        }
    }

    /// Flips the sign of the value.
    pub fn negated(self) -> (r: NumericValue)
        ensures
            r == self.spec_negated(),
            self.wf() ==> r.wf(),
    {
        match self {
            NumericValue::Finite { neg, mag, scale } => NumericValue::Finite {
                neg: !neg,
                mag,
                scale,
            },
            NumericValue::Infinite { neg } => NumericValue::Infinite { neg: !neg },
            NumericValue::NotANumber => NumericValue::NotANumber,
        }
    }
}

/// Trailing-zero stripping: divides the magnitude by ten while the scale is
/// positive and the magnitude ends in zero.  This is the canonical form of a
/// finite value, the one a user would read back.
pub open spec fn norm_spec(neg: bool, mag: nat, scale: nat) -> NumericValue
    decreases scale,
{
    if scale > 0 && mag % 10 == 0 {
        norm_spec(neg, mag / 10, (scale - 1) as nat)
    } else {
        NumericValue::Finite { neg, mag: mag as u128, scale: scale as u32 }
    }
}

pub proof fn lemma_norm_props(neg: bool, mag: nat, scale: nat)
    requires
        mag < MAG_LIMIT,
        scale <= SCALE_MAX,
    ensures
        (norm_spec(neg, mag, scale) is Finite),
        norm_spec(neg, mag, scale).wf(),
        norm_spec(neg, mag, scale).f_neg() == neg,
        norm_spec(neg, mag, scale).f_mag() <= mag,
        norm_spec(neg, mag, scale).f_scale() <= scale,
        norm_spec(neg, mag, scale).scaled() == (if neg {
            -1
        } else {
            1
        }) * mag * pow10((SCALE_MAX - scale) as nat),
        norm_spec(neg, mag, scale).f_scale() > 0 ==> norm_spec(neg, mag, scale).f_mag() % 10 != 0,
        mag == 0 ==> norm_spec(neg, mag, scale).f_mag() == 0 && norm_spec(neg, mag, scale).f_scale()
            == 0,
    decreases scale,
{
    if scale > 0 && mag % 10 == 0 {
        lemma_norm_props(neg, mag / 10, (scale - 1) as nat);
        let e = (SCALE_MAX - scale) as nat;
        lemma_pow10_pos(e);
        assert(pow10(e + 1) == 10 * pow10(e)) by {
            lemma_pow10_adds(1, e);
        }
        let s: int = if neg {
            -1
        } else {
            1
        };
        assert(s * (mag / 10) * pow10(e + 1) == s * mag * pow10(e)) by (nonlinear_arith)
            requires
                mag % 10 == 0,
                pow10(e + 1) == 10 * pow10(e),
                s == -1 || s == 1,
        ;
        assert(norm_spec(neg, mag, scale).scaled() == s * (mag / 10) * pow10(e + 1));
    }
}

/// `10^k` as a machine integer.
pub fn pow10_u128(k: u32) -> (r: u128)
    requires
        k <= 38,
    ensures
        r == pow10(k as nat),
{
    let mut i: u32 = 0;
    let mut r: u128 = 1;
    proof {
        lemma_pow10_37();
    }
    while i < k
        invariant
            i <= k,
            k <= 38,
            r == pow10(i as nat),
            pow10(37) == MAG_LIMIT,
        decreases k - i,
    {
        proof {
            lemma_pow10_mono((i + 1) as nat, 38);
            lemma_pow10_adds(37, 1);
        }
        r = r * 10;
        i = i + 1;
    }
    r
}

/// Decimal digit count of `n`, counting `0` as one digit.
pub fn ndigits_u128(n: u128) -> (d: u32)
    ensures
        d == ndigits(n as nat),
        1 <= d <= 39,
{
    let mut m: u128 = n;
    let mut d: u32 = 1;
    proof {
        lemma_ndigits_count_bound(n as nat);
    }
    while m >= 10
        invariant
            ndigits(n as nat) == d + ndigits(m as nat) - 1,
            d >= 1,
            d + ndigits(m as nat) - 1 <= 39,
        decreases m,
    {
        m = m / 10;
        d = d + 1;
    }
    d
}

/// Every `u128` has at most 39 decimal digits.
pub proof fn lemma_ndigits_count_bound(n: nat)
    ensures
        n <= u128::MAX ==> ndigits(n) <= 39,
{
    if n <= u128::MAX {
        assert(pow10(39) > u128::MAX) by {
            reveal_with_fuel(pow10, 40);
        }
        lemma_ndigits_bound(n, 39);
    }
}

pub open spec fn nmax(a: nat, b: nat) -> nat {
    if a >= b {
        a
    } else {
        b
    }
}

pub open spec fn nmin(a: nat, b: nat) -> nat {
    if a <= b {
        a
    } else {
        b
    }
}

/// If `x < q * d` then `x / d < q`.
pub proof fn lemma_div_bound(x: nat, d: nat, q: nat)
    requires
        d >= 1,
        x < q * d,
    ensures
        x / d < q,
{
    vstd::arithmetic::div_mod::lemma_fundamental_div_mod(x as int, d as int);
    if x / d >= q {
        assert(d * (x / d) >= d * q) by (nonlinear_arith)
            requires
                x / d >= q,
                d >= 1,
        ;
        assert(d * q == q * d) by (nonlinear_arith);
    }
}

/// `x` is below `d * (x / d + 1)`.
pub proof fn lemma_div_mul_upper(x: nat, d: nat)
    requires
        d >= 1,
    ensures
        x < d * (x / d + 1),
{
    vstd::arithmetic::div_mod::lemma_fundamental_div_mod(x as int, d as int);
    assert(d * (x / d + 1) == d * (x / d) + d) by (nonlinear_arith);
}

/// Strict product bound from factor bounds.
pub proof fn lemma_mul_lt(a: nat, b: nat, x: nat, y: nat)
    requires
        a < x,
        b < y,
    ensures
        a * b < x * y,
{
    assert(a * b < x * y) by (nonlinear_arith)
        requires
            a < x,
            b < y,
    ;
}

/// Digit count of the integer part of `mag / 10^scale`.
pub open spec fn spec_int_digits(mag: nat, scale: nat) -> nat {
    ndigits(mag / pow10(scale))
}

/// A finite magnitude is below ten to the power of its integer digit count
/// plus its scale.
pub proof fn lemma_mag_bound(mag: nat, scale: nat)
    ensures
        mag < pow10(spec_int_digits(mag, scale) + scale),
{
    let p = pow10(scale);
    let i = spec_int_digits(mag, scale);
    lemma_pow10_pos(scale);
    lemma_ndigits_upper(mag / p);
    lemma_div_mul_upper(mag, p);
    assert(mag / p + 1 <= pow10(i));
    assert(p * (mag / p + 1) <= p * pow10(i)) by (nonlinear_arith)
        requires
            mag / p + 1 <= pow10(i),
            p >= 1,
    ;
    lemma_pow10_adds(i, scale);
    assert(p * pow10(i) == pow10(i) * p);
}

/// The scale at which two finite values are aligned before addition: their
/// larger scale, reduced so that the aligned magnitudes keep at most 36
/// significant digits.
pub open spec fn spec_add_scale(ma: nat, sa: nat, mb: nat, sb: nat) -> nat {
    let i = nmax(spec_int_digits(ma, sa), spec_int_digits(mb, sb));
    let f: nat = if i >= 36 {
        0
    } else {
        (36 - i) as nat
    };
    nmin(nmax(sa, sb), f)
}

/// `mag / 10^scale` rescaled to `s` fractional digits, truncating toward
/// zero when digits are dropped.
pub open spec fn spec_align(mag: nat, scale: nat, s: nat) -> nat {
    if scale > s {
        mag / pow10((scale - s) as nat)
    } else {
        mag * pow10((s - scale) as nat)
    }
}

/// An aligned magnitude keeps the bound given by its integer digit count.
pub proof fn lemma_align_bound(mag: nat, scale: nat, s: nat)
    ensures
        spec_align(mag, scale, s) < pow10(spec_int_digits(mag, scale) + s),
{
    let i = spec_int_digits(mag, scale);
    lemma_mag_bound(mag, scale);
    if scale > s {
        let d = pow10((scale - s) as nat);
        lemma_pow10_pos((scale - s) as nat);
        lemma_pow10_adds(i + s, (scale - s) as nat);
        assert(pow10(i + scale) == pow10(i + s) * d);
        lemma_div_bound(mag, d, pow10(i + s));
    } else {
        let f = pow10((s - scale) as nat);
        lemma_pow10_pos((s - scale) as nat);
        lemma_pow10_adds(i + scale, (s - scale) as nat);
        assert(mag * f < pow10(i + scale) * f) by (nonlinear_arith)
            requires
                mag < pow10(i + scale),
                f >= 1,
        ;
    }
}

/// Bounds used by addition: at the chosen common scale both aligned
/// magnitudes fit, and strictly under `10^36` whenever the scale is positive.
pub proof fn lemma_add_align_fits(ma: nat, sa: nat, mb: nat, sb: nat)
    requires
        ma < MAG_LIMIT,
        sa <= SCALE_MAX,
        mb < MAG_LIMIT,
        sb <= SCALE_MAX,
    ensures
        spec_add_scale(ma, sa, mb, sb) <= SCALE_MAX,
        spec_align(ma, sa, spec_add_scale(ma, sa, mb, sb)) < MAG_LIMIT,
        spec_align(mb, sb, spec_add_scale(ma, sa, mb, sb)) < MAG_LIMIT,
        spec_add_scale(ma, sa, mb, sb) > 0 ==> spec_align(ma, sa, spec_add_scale(ma, sa, mb, sb))
            < pow10(36) && spec_align(mb, sb, spec_add_scale(ma, sa, mb, sb)) < pow10(36),
{
    let ia = spec_int_digits(ma, sa);
    let ib = spec_int_digits(mb, sb);
    let i = nmax(ia, ib);
    let s = spec_add_scale(ma, sa, mb, sb);
    lemma_pow10_37();
    lemma_align_bound(ma, sa, s);
    lemma_align_bound(mb, sb, s);
    if s > 0 {
        assert(i < 36 && s + i <= 36);
        lemma_pow10_mono(ia + s, 36);
        lemma_pow10_mono(ib + s, 36);
        lemma_pow10_mono(36, 37);
        assert(spec_align(ma, sa, s) < pow10(36));
        assert(spec_align(mb, sb, s) < pow10(36));
    } else {
        if sa > 0 {
            let d = pow10(sa);
            lemma_pow10_pos(sa);
            vstd::arithmetic::div_mod::lemma_div_nonincreasing(ma as int, d as int);
            assert(spec_align(ma, sa, 0) == ma / d);
        } else {
            assert(pow10(0) == 1);
            assert(spec_align(ma, sa, 0) == ma * 1 == ma);
        }
        if sb > 0 {
            let d = pow10(sb);
            lemma_pow10_pos(sb);
            vstd::arithmetic::div_mod::lemma_div_nonincreasing(mb as int, d as int);
            assert(spec_align(mb, sb, 0) == mb / d);
        } else {
            assert(pow10(0) == 1);
            assert(spec_align(mb, sb, 0) == mb * 1 == mb);
        }
    }
}

/// Addition.  The operands are aligned at `spec_add_scale`, truncating
/// toward zero any fractional digits that do not fit; magnitudes then add or
/// cancel by sign.  Same-signed overflow past `10^37` saturates to infinity;
/// exact cancellation yields positive zero.
pub open spec fn spec_add(a: NumericValue, b: NumericValue) -> NumericValue {
    match (a, b) {
        (NumericValue::NotANumber, _) => NumericValue::NotANumber,
        (_, NumericValue::NotANumber) => NumericValue::NotANumber,
        (NumericValue::Infinite { neg: x }, NumericValue::Infinite { neg: y }) => if x == y {
            NumericValue::Infinite { neg: x }
        } else {
            NumericValue::NotANumber
        },
        (NumericValue::Infinite { neg: x }, NumericValue::Finite { .. }) => NumericValue::Infinite {
            neg: x,
        },
        (NumericValue::Finite { .. }, NumericValue::Infinite { neg: y }) => NumericValue::Infinite {
            neg: y,
        },
        (
            NumericValue::Finite { neg: na, mag: ma, scale: sa },
            NumericValue::Finite { neg: nb, mag: mb, scale: sb },
        ) => {
            let s = spec_add_scale(ma as nat, sa as nat, mb as nat, sb as nat);
            let xa = spec_align(ma as nat, sa as nat, s);
            let xb = spec_align(mb as nat, sb as nat, s);
            if na == nb {
                if xa + xb >= MAG_LIMIT {
                    NumericValue::Infinite { neg: na }
                } else {
                    NumericValue::Finite { neg: na, mag: (xa + xb) as u128, scale: s as u32 }
                }
            } else if xa == xb {
                NumericValue::Finite { neg: false, mag: 0, scale: 0 }
            } else if xa > xb {
                NumericValue::Finite { neg: na, mag: (xa - xb) as u128, scale: s as u32 }
            } else {
                NumericValue::Finite { neg: nb, mag: (xb - xa) as u128, scale: s as u32 }
            }
        },
    }
}

/// Subtraction is addition of the negated second operand.
pub open spec fn spec_sub(a: NumericValue, b: NumericValue) -> NumericValue {
    spec_add(a, b.spec_negated())
}

/// Aligning to a coarser-or-equal scale rescales exactly: the scaled value
/// is unchanged.
proof fn lemma_align_scaled(mag: nat, scale: nat, s: nat)
    requires
        scale <= s <= SCALE_MAX,
    ensures
        spec_align(mag, scale, s) * pow10((SCALE_MAX - s) as nat) == mag * pow10(
            (SCALE_MAX - scale) as nat,
        ),
{
    let d = (s - scale) as nat;
    let e = (SCALE_MAX - s) as nat;
    lemma_pow10_adds(d, e);
    assert((mag * pow10(d)) * pow10(e) == mag * (pow10(d) * pow10(e))) by (nonlinear_arith);
}

/// When neither operand loses fractional digits at the common scale,
/// addition is exact: the scaled values add.  (Digits are only dropped when
/// integer and fractional digits together would pass 36; everyday operands
/// never reach that.)
pub proof fn lemma_add_exact(a: NumericValue, b: NumericValue)
    requires
        a.wf(),
        b.wf(),
        a is Finite,
        b is Finite,
        nmax(a.f_scale(), b.f_scale()) <= spec_add_scale(
            a.f_mag(),
            a.f_scale(),
            b.f_mag(),
            b.f_scale(),
        ),
        (spec_add(a, b) is Finite),
    ensures
        spec_add(a, b).scaled() == a.scaled() + b.scaled(),
{
    let ma = a.f_mag();
    let sa = a.f_scale();
    let mb = b.f_mag();
    let sb = b.f_scale();
    let s = spec_add_scale(ma, sa, mb, sb);
    assert(s == nmax(sa, sb));
    let xa = spec_align(ma, sa, s);
    let xb = spec_align(mb, sb, s);
    let e = (SCALE_MAX - s) as nat;
    lemma_align_scaled(ma, sa, s);
    lemma_align_scaled(mb, sb, s);
    let pa: int = if a.f_neg() {
        -1
    } else {
        1
    };
    let pb: int = if b.f_neg() {
        -1
    } else {
        1
    };
    assert(a.scaled() == pa * (xa * pow10(e))) by (nonlinear_arith)
        requires
            a.scaled() == pa * ma * pow10((SCALE_MAX - sa) as nat),
            xa * pow10(e) == ma * pow10((SCALE_MAX - sa) as nat),
    ;
    assert(b.scaled() == pb * (xb * pow10(e))) by (nonlinear_arith)
        requires
            b.scaled() == pb * mb * pow10((SCALE_MAX - sb) as nat),
            xb * pow10(e) == mb * pow10((SCALE_MAX - sb) as nat),
    ;
    lemma_add_align_fits(ma, sa, mb, sb);
    let r = spec_add(a, b);
    if a.f_neg() == b.f_neg() {
        assert(r == (NumericValue::Finite {
            neg: a.f_neg(),
            mag: (xa + xb) as u128,
            scale: s as u32,
        }));
        assert(r.scaled() == pa * (xa + xb) * pow10(e));
        assert(pa * (xa + xb) * pow10(e) == pa * (xa * pow10(e)) + pa * (xb * pow10(e)))
            by (nonlinear_arith);
    } else if xa == xb {
        assert(r == (NumericValue::Finite { neg: false, mag: 0, scale: 0 }));
        assert(r.scaled() == 1 * 0 * pow10(36));
        assert(1 * 0 * pow10(36) == 0) by (nonlinear_arith);
        assert(pa * (xa * pow10(e)) + pb * (xb * pow10(e)) == 0) by (nonlinear_arith)
            requires
                xa == xb,
                pa + pb == 0,
        ;
    } else if xa > xb {
        assert(r == (NumericValue::Finite {
            neg: a.f_neg(),
            mag: (xa - xb) as u128,
            scale: s as u32,
        }));
        assert(r.scaled() == pa * (xa - xb) * pow10(e));
        assert(pa * (xa - xb) * pow10(e) == pa * (xa * pow10(e)) + pb * (xb * pow10(e)))
            by (nonlinear_arith)
            requires
                pa + pb == 0,
        ;
    } else {
        assert(r == (NumericValue::Finite {
            neg: b.f_neg(),
            mag: (xb - xa) as u128,
            scale: s as u32,
        }));
        assert(r.scaled() == pb * (xb - xa) * pow10(e));
        assert(pb * (xb - xa) * pow10(e) == pa * (xa * pow10(e)) + pb * (xb * pow10(e)))
            by (nonlinear_arith)
            requires
                pa + pb == 0,
        ;
    }
}

/// When no digit is dropped (magnitudes together within 38 digits, scales
/// within 36, product within range), multiplication is exact up to the
/// fixed scaling: scaled values multiply.
pub proof fn lemma_mul_exact(a: NumericValue, b: NumericValue)
    requires
        a.wf(),
        b.wf(),
        a is Finite,
        b is Finite,
        spec_mul_drop(a.f_mag(), b.f_mag()) == 0,
        a.f_scale() + b.f_scale() <= SCALE_MAX,
        a.f_mag() * b.f_mag() < MAG_LIMIT,
    ensures
        (spec_mul(a, b) is Finite),
        spec_mul(a, b).scaled() * pow10(SCALE_MAX as nat) == a.scaled() * b.scaled(),
{
    let ma = a.f_mag();
    let sa = a.f_scale();
    let mb = b.f_mag();
    let sb = b.f_scale();
    assert(pow10(0) == 1);
    vstd::arithmetic::div_mod::lemma_fundamental_div_mod(ma as int, 1);
    vstd::arithmetic::div_mod::lemma_fundamental_div_mod(mb as int, 1);
    assert(ma / pow10(0) == ma && mb / pow10(0) == mb);
    let p = ma * mb;
    vstd::arithmetic::div_mod::lemma_fundamental_div_mod(p as int, 1);
    assert(p / pow10(0) == p);
    let r = spec_mul(a, b);
    assert(r == (NumericValue::Finite {
        neg: a.f_neg() != b.f_neg(),
        mag: p as u128,
        scale: (sa + sb) as u32,
    }));
    let pa: int = if a.f_neg() {
        -1
    } else {
        1
    };
    let pb: int = if b.f_neg() {
        -1
    } else {
        1
    };
    let pr: int = if a.f_neg() != b.f_neg() {
        -1
    } else {
        1
    };
    let ea = (SCALE_MAX - sa) as nat;
    let eb = (SCALE_MAX - sb) as nat;
    let er = (SCALE_MAX - (sa + sb)) as nat;
    lemma_pow10_adds(er, SCALE_MAX as nat);
    lemma_pow10_adds(ea, eb);
    assert(er + SCALE_MAX as nat == ea + eb);
    let x: nat = (p * pow10(er)) * pow10(SCALE_MAX as nat);
    let y: nat = (ma * pow10(ea)) * (mb * pow10(eb));
    assert(x == y) by (nonlinear_arith)
        requires
            pow10(er) * pow10(SCALE_MAX as nat) == pow10(ea) * pow10(eb),
            p == ma * mb,
            x == (p * pow10(er)) * pow10(SCALE_MAX as nat),
            y == (ma * pow10(ea)) * (mb * pow10(eb)),
    ;
    assert((pr * p * pow10(er)) * pow10(SCALE_MAX as nat) == (pa * ma * pow10(ea)) * (pb * mb
        * pow10(eb))) by (nonlinear_arith)
        requires
            x == y,
            x == (p * pow10(er)) * pow10(SCALE_MAX as nat),
            y == (ma * pow10(ea)) * (mb * pow10(eb)),
            pr == pa * pb,
            pa == -1 || pa == 1,
            pb == -1 || pb == 1,
    ;
    assert((p as u128) as nat == p);
}

/// Digit count of the integer part of a finite value.
fn int_digits_exec(mag: u128, scale: u32) -> (r: u32)
    requires
        scale <= SCALE_MAX,
    ensures
        r == spec_int_digits(mag as nat, scale as nat),
        1 <= r <= 39,
{
    let p = pow10_u128(scale);
    proof {
        lemma_pow10_pos(scale as nat);
    }
    ndigits_u128(mag / p)
}

/// The common scale for adding two finite values.
fn add_scale_exec(ma: u128, sa: u32, mb: u128, sb: u32) -> (r: u32)
    requires
        sa <= SCALE_MAX,
        sb <= SCALE_MAX,
    ensures
        r == spec_add_scale(ma as nat, sa as nat, mb as nat, sb as nat),
        r <= SCALE_MAX,
{
    let ia = int_digits_exec(ma, sa);
    let ib = int_digits_exec(mb, sb);
    let i = if ia >= ib {
        ia
    } else {
        ib
    };
    let f: u32 = if i >= 36 {
        0
    } else {
        36 - i
    };
    let m = if sa >= sb {
        sa
    } else {
        sb
    };
    if m <= f {
        m
    } else {
        f
    }
}

/// Rescales `mag / 10^scale` to `s` fractional digits.
fn align_exec(mag: u128, scale: u32, s: u32) -> (r: u128)
    requires
        scale <= 38,
        s <= 38,
        spec_align(mag as nat, scale as nat, s as nat) <= u128::MAX,
    ensures
        r == spec_align(mag as nat, scale as nat, s as nat),
{
    if scale > s {
        let d = pow10_u128(scale - s);
        proof {
            lemma_pow10_pos((scale - s) as nat);
        }
        mag / d
    } else {
        let f = pow10_u128(s - scale);
        mag * f
    }
}

/// Digits to drop from the operands of a product so that the product
/// magnitude keeps at most 38 digits.
pub open spec fn spec_mul_drop(ma: nat, mb: nat) -> nat {
    let la = ndigits(ma);
    let lb = ndigits(mb);
    if la + lb > 38 {
        (la + lb - 38) as nat
    } else {
        0
    }
}

/// Multiplication.  When the operand magnitudes together exceed 38 digits,
/// low-order fractional digits are dropped (truncating toward zero) to make
/// the product fit; a product that cannot shed enough fractional digits, or
/// that still exceeds `10^37` at scale zero, saturates to infinity.
pub open spec fn spec_mul(a: NumericValue, b: NumericValue) -> NumericValue {
    match (a, b) {
        (NumericValue::NotANumber, _) => NumericValue::NotANumber,
        (_, NumericValue::NotANumber) => NumericValue::NotANumber,
        (NumericValue::Infinite { neg: x }, NumericValue::Infinite { neg: y }) => {
            NumericValue::Infinite { neg: x != y }
        },
        (NumericValue::Infinite { neg: x }, NumericValue::Finite { neg: nb, mag: mb, .. }) => {
            if mb == 0 {
                NumericValue::NotANumber
            } else {
                NumericValue::Infinite { neg: x != nb }
            }
        },
        (NumericValue::Finite { neg: na, mag: ma, .. }, NumericValue::Infinite { neg: y }) => {
            if ma == 0 {
                NumericValue::NotANumber
            } else {
                NumericValue::Infinite { neg: na != y }
            }
        },
        (
            NumericValue::Finite { neg: na, mag: ma, scale: sa },
            NumericValue::Finite { neg: nb, mag: mb, scale: sb },
        ) => {
            let n = na != nb;
            let d = spec_mul_drop(ma as nat, mb as nat);
            if d > sa + sb {
                NumericValue::Infinite { neg: n }
            } else {
                let da = nmin(d, sa as nat);
                let db = (d - da) as nat;
                let p0 = (ma as nat / pow10(da)) * (mb as nat / pow10(db));
                let sp0 = ((sa + sb) as nat - d) as nat;
                let e: nat = if sp0 > 36 {
                    (sp0 - 36) as nat
                } else {
                    0
                };
                let p1 = p0 / pow10(e);
                let sp1 = (sp0 - e) as nat;
                if p1 >= MAG_LIMIT && sp1 > 0 {
                    NumericValue::Finite { neg: n, mag: (p1 / 10) as u128, scale: (sp1 - 1) as u32 }
                } else if p1 >= MAG_LIMIT {
                    NumericValue::Infinite { neg: n }
                } else {
                    NumericValue::Finite { neg: n, mag: p1 as u128, scale: sp1 as u32 }
                }
            }
        },
    }
}

/// A magnitude with `da` low digits dropped keeps under
/// `10^(ndigits - da)` (or is zero once every digit is gone).
pub proof fn lemma_drop_bound(m: nat, da: nat)
    ensures
        da <= ndigits(m) ==> m / pow10(da) < pow10((ndigits(m) - da) as nat),
        da > ndigits(m) ==> m / pow10(da) == 0,
{
    let l = ndigits(m);
    lemma_ndigits_upper(m);
    lemma_pow10_pos(da);
    if da <= l {
        lemma_pow10_adds((l - da) as nat, da);
        lemma_div_bound(m, pow10(da), pow10((l - da) as nat));
    } else {
        lemma_pow10_mono(l, da);
        lemma_div_bound(m, pow10(da), 1);
    }
}

/// The dropped product of two well-formed magnitudes keeps at most 38
/// digits, so it fits in a machine word.
pub proof fn lemma_mul_fits(ma: nat, mb: nat, da: nat, db: nat)
    requires
        ma < MAG_LIMIT,
        mb < MAG_LIMIT,
        da + db >= spec_mul_drop(ma, mb),
    ensures
        (ma / pow10(da)) * (mb / pow10(db)) < pow10(38),
        pow10(38) < u128::MAX,
{
    let la = ndigits(ma);
    let lb = ndigits(mb);
    lemma_drop_bound(ma, da);
    lemma_drop_bound(mb, db);
    let qa = ma / pow10(da);
    let qb = mb / pow10(db);
    let xa: nat = if da <= la {
        (la - da) as nat
    } else {
        0
    };
    let xb: nat = if db <= lb {
        (lb - db) as nat
    } else {
        0
    };
    lemma_pow10_pos(xa);
    lemma_pow10_pos(xb);
    if da > la {
        assert(qa == 0);
        assert(qa * qb == 0) by (nonlinear_arith)
            requires
                qa == 0,
        ;
        lemma_pow10_pos(38);
    } else if db > lb {
        assert(qb == 0);
        assert(qa * qb == 0) by (nonlinear_arith)
            requires
                qb == 0,
        ;
        lemma_pow10_pos(38);
    } else {
        lemma_mul_lt(qa, qb, pow10(xa), pow10(xb));
        lemma_pow10_adds(xa, xb);
        assert(xa + xb <= 38);
        lemma_pow10_mono(xa + xb, 38);
    }
    assert(pow10(38) < u128::MAX) by {
        reveal_with_fuel(pow10, 40);
    }
}

/// Long division, one decimal digit per step.  Starting from the integer
/// quotient and remainder of `n / d`, each step appends the next fractional
/// digit to `q` until the remainder is exhausted, the quotient carries 37
/// significant digits, or 80 digits have been produced.  Returns the final
/// quotient, remainder and step count.
pub open spec fn div_steps(q: nat, rem: nat, k: nat, d: nat) -> (nat, nat, nat)
    decreases 80 - k,
{
    if k >= 80 || rem == 0 || q >= pow10(36) {
        (q, rem, k)
    } else {
        div_steps(10 * q + (10 * rem) / d, (10 * rem) % d, k + 1, d)
    }
}

/// The long-division invariant: after any number of steps the quotient and
/// remainder satisfy `q * d + rem == n * 10^k`, with `rem < d`, and the
/// process stops only once the division is exact or the quotient carries the
/// full precision.  This pins the produced quotient to the truncation of the
/// exact ratio.
pub proof fn lemma_div_steps_euclid(q: nat, rem: nat, k: nat, d: nat, n: nat)
    requires
        d >= 1,
        rem < d,
        q * d + rem == n * pow10(k),
    ensures
        ({
            let (q2, rem2, k2) = div_steps(q, rem, k, d);
            &&& q2 * d + rem2 == n * pow10(k2)
            &&& rem2 < d
            &&& (rem2 == 0 || q2 >= pow10(36) || k2 >= 80)
        }),
    decreases 80 - k,
{
    if k >= 80 || rem == 0 || q >= pow10(36) {
    } else {
        let t = (10 * rem) / d;
        let u = (10 * rem) % d;
        vstd::arithmetic::div_mod::lemma_fundamental_div_mod(10 * rem as int, d as int);
        vstd::arithmetic::div_mod::lemma_mod_bound(10 * rem as int, d as int);
        assert((10 * q + t) * d + u == n * pow10(k + 1)) by (nonlinear_arith)
            requires
                10 * rem == d * t + u,
                q * d + rem == n * pow10(k),
                pow10(k + 1) == 10 * pow10(k),
        ;
        lemma_div_steps_euclid(10 * q + t, u, k + 1, d, n);
    }
}

/// The quotient of `div_steps` stays below `10^37`.
pub proof fn lemma_div_steps_q_bound(q: nat, rem: nat, k: nat, d: nat)
    requires
        d >= 1,
        rem < d,
        q < pow10(37),
    ensures
        div_steps(q, rem, k, d).0 < pow10(37),
    decreases 80 - k,
{
    if k >= 80 || rem == 0 || q >= pow10(36) {
    } else {
        let t = (10 * rem) / d;
        lemma_div_bound(10 * rem, d, 10);
        vstd::arithmetic::div_mod::lemma_mod_bound(10 * rem as int, d as int);
        assert(pow10(37) == 10 * pow10(36));
        lemma_div_steps_q_bound(10 * q + t, (10 * rem) % d, k + 1, d);
    }
}

/// Division.  The quotient is produced digit by digit to 37 significant
/// digits (`div_steps`), then placed at the scale `sb - sa` dictates;
/// quotients past `10^37` saturate to infinity and fractional digits past
/// scale 36 are truncated.  Zero divisors follow the float convention:
/// `0 / 0` is not a number, anything else over zero is a signed infinity.
pub open spec fn spec_div(a: NumericValue, b: NumericValue) -> NumericValue {
    match (a, b) {
        (NumericValue::NotANumber, _) => NumericValue::NotANumber,
        (_, NumericValue::NotANumber) => NumericValue::NotANumber,
        (NumericValue::Infinite { neg: x }, NumericValue::Infinite { neg: y }) => {
            NumericValue::NotANumber
        },
        (NumericValue::Infinite { neg: x }, NumericValue::Finite { neg: nb, .. }) => {
            NumericValue::Infinite { neg: x != nb }
        },
        (NumericValue::Finite { neg: na, .. }, NumericValue::Infinite { neg: y }) => {
            NumericValue::Finite { neg: na != y, mag: 0, scale: 0 }
        },
        (
            NumericValue::Finite { neg: na, mag: ma, scale: sa },
            NumericValue::Finite { neg: nb, mag: mb, scale: sb },
        ) => {
            let n = na != nb;
            if mb == 0 {
                if ma == 0 {
                    NumericValue::NotANumber
                } else {
                    NumericValue::Infinite { neg: n }
                }
            } else if ma == 0 {
                NumericValue::Finite { neg: n, mag: 0, scale: 0 }
            } else {
                let (q, rem, k) = div_steps(ma as nat / mb as nat, ma as nat % mb as nat, 0, mb as nat);
                if k + sa >= sb {
                    let t = (k + sa - sb) as nat;
                    if t > 36 {
                        NumericValue::Finite {
                            neg: n,
                            mag: (q / pow10((t - 36) as nat)) as u128,
                            scale: 36,
                        }
                    } else {
                        NumericValue::Finite { neg: n, mag: q as u128, scale: t as u32 }
                    }
                } else {
                    let u = (sb - sa - k) as nat;
                    if q * pow10(u) >= MAG_LIMIT {
                        NumericValue::Infinite { neg: n }
                    } else {
                        NumericValue::Finite { neg: n, mag: (q * pow10(u)) as u128, scale: 0 }
                    }
                }
            }
        },
    }
}

impl NumericValue {
    /// Divides `self` by `other`, as `spec_div` describes.
    pub fn div_values(self, other: NumericValue) -> (r: NumericValue)
        requires
            self.wf(),
            other.wf(),
        ensures
            r == spec_div(self, other),
            r.wf(),
    {
        match (self, other) {
            (NumericValue::NotANumber, _) => NumericValue::NotANumber,
            (_, NumericValue::NotANumber) => NumericValue::NotANumber,
            (NumericValue::Infinite { neg: x }, NumericValue::Infinite { neg: y }) => {
                NumericValue::NotANumber
            },
            (NumericValue::Infinite { neg: x }, NumericValue::Finite { neg: nb, .. }) => {
                NumericValue::Infinite { neg: x != nb }
            },
            (NumericValue::Finite { neg: na, .. }, NumericValue::Infinite { neg: y }) => {
                NumericValue::Finite { neg: na != y, mag: 0, scale: 0 }
            },
            (
                NumericValue::Finite { neg: na, mag: ma, scale: sa },
                NumericValue::Finite { neg: nb, mag: mb, scale: sb },
            ) => {
                let n = na != nb;
                if mb == 0 {
                    if ma == 0 {
                        NumericValue::NotANumber
                    } else {
                        NumericValue::Infinite { neg: n }
                    }
                } else if ma == 0 {
                    NumericValue::Finite { neg: n, mag: 0, scale: 0 }
                } else {
                    proof {
                        lemma_pow10_37();
                        vstd::arithmetic::div_mod::lemma_fundamental_div_mod(
                            ma as int,
                            mb as int,
                        );
                        vstd::arithmetic::div_mod::lemma_mod_bound(ma as int, mb as int);
                        vstd::arithmetic::div_mod::lemma_div_nonincreasing(ma as int, mb as int);
                    }
                    let mut q: u128 = ma / mb;
                    let mut rem: u128 = ma % mb;
                    let mut k: u32 = 0;
                    let p36 = pow10_u128(36);
                    let ghost gq0 = q as nat;
                    let ghost grem0 = rem as nat;
                    proof {
                        assert(gq0 * mb + grem0 == ma * pow10(0)) by (nonlinear_arith)
                            requires
                                ma == mb * gq0 + grem0,
                                pow10(0) == 1,
                        ;
                    }
                    while rem != 0 && q < p36 && k < 80
                        invariant
                            mb >= 1,
                            mb < MAG_LIMIT,
                            rem < mb,
                            q < pow10(37),
                            p36 == pow10(36),
                            pow10(37) == MAG_LIMIT,
                            k <= 80,
                            div_steps(q as nat, rem as nat, k as nat, mb as nat) == div_steps(
                                gq0,
                                grem0,
                                0,
                                mb as nat,
                            ),
                        decreases 80 - k,
                    {
                        proof {
                            assert(pow10(37) == 10 * pow10(36));
                            lemma_div_bound((10 * rem) as nat, mb as nat, 10);
                            vstd::arithmetic::div_mod::lemma_mod_bound(
                                10 * rem as int,
                                mb as int,
                            );
                        }
                        let t = (10 * rem) / mb;
                        let u = (10 * rem) % mb;
                        q = 10 * q + t;
                        rem = u;
                        k = k + 1;
                    }
                    proof {
                        lemma_div_steps_q_bound(gq0, grem0, 0, mb as nat);
                    }
                    if k + sa >= sb {
                        let t = k + sa - sb;
                        if t > 36 {
                            let q2 = if t - 36 > 38 {
                                proof {
                                    lemma_pow10_mono(37, (t - 36) as nat);
                                    lemma_div_bound(q as nat, pow10((t - 36) as nat), 1);
                                    lemma_pow10_pos((t - 36) as nat);
                                }
                                0
                            } else {
                                let pd = pow10_u128(t - 36);
                                proof {
                                    lemma_pow10_pos((t - 36) as nat);
                                    vstd::arithmetic::div_mod::lemma_div_nonincreasing(
                                        q as int,
                                        pd as int,
                                    );
                                }
                                q / pd
                            };
                            NumericValue::Finite { neg: n, mag: q2, scale: 36 }
                        } else {
                            NumericValue::Finite { neg: n, mag: q, scale: t }
                        }
                    } else {
                        let u = sb - sa - k;
                        let pu = pow10_u128(u);
                        proof {
                            lemma_pow10_pos(u as nat);
                        }
                        let cap = (MAG_LIMIT - 1) / pu;
                        if q <= cap {
                            proof {
                                vstd::arithmetic::div_mod::lemma_fundamental_div_mod(
                                    (MAG_LIMIT - 1) as int,
                                    pu as int,
                                );
                                vstd::arithmetic::div_mod::lemma_mod_bound(
                                    (MAG_LIMIT - 1) as int,
                                    pu as int,
                                );
                                assert(q * pu < MAG_LIMIT) by (nonlinear_arith)
                                    requires
                                        q <= cap,
                                        pu >= 1,
                                        MAG_LIMIT - 1 == pu * cap + ((MAG_LIMIT - 1) as int % (
                                        pu as int)),
                                        (MAG_LIMIT - 1) as int % (pu as int) >= 0,
                                ;
                            }
                            NumericValue::Finite { neg: n, mag: q * pu, scale: 0 }
                        } else {
                            proof {
                                vstd::arithmetic::div_mod::lemma_fundamental_div_mod(
                                    (MAG_LIMIT - 1) as int,
                                    pu as int,
                                );
                                vstd::arithmetic::div_mod::lemma_mod_bound(
                                    (MAG_LIMIT - 1) as int,
                                    pu as int,
                                );
                                assert(q * pu >= MAG_LIMIT) by (nonlinear_arith)
                                    requires
                                        q > cap,
                                        pu >= 1,
                                        MAG_LIMIT - 1 == pu * cap + ((MAG_LIMIT - 1) as int % (
                                        pu as int)),
                                        ((MAG_LIMIT - 1) as int % (pu as int)) < pu,
                                ;
                            }
                            NumericValue::Infinite { neg: n }
                        }
                    }
                }
            },
        }
    }

    /// Multiplies two values, as `spec_mul` describes.
    pub fn mul_values(self, other: NumericValue) -> (r: NumericValue)
        requires
            self.wf(),
            other.wf(),
        ensures
            r == spec_mul(self, other),
            r.wf(),
    {
        match (self, other) {
            (NumericValue::NotANumber, _) => NumericValue::NotANumber,
            (_, NumericValue::NotANumber) => NumericValue::NotANumber,
            (NumericValue::Infinite { neg: x }, NumericValue::Infinite { neg: y }) => {
                NumericValue::Infinite { neg: x != y }
            },
            (NumericValue::Infinite { neg: x }, NumericValue::Finite { neg: nb, mag: mb, .. }) => {
                if mb == 0 {
                    NumericValue::NotANumber
                } else {
                    NumericValue::Infinite { neg: x != nb }
                }
            },
            (NumericValue::Finite { neg: na, mag: ma, .. }, NumericValue::Infinite { neg: y }) => {
                if ma == 0 {
                    NumericValue::NotANumber
                } else {
                    NumericValue::Infinite { neg: na != y }
                }
            },
            (
                NumericValue::Finite { neg: na, mag: ma, scale: sa },
                NumericValue::Finite { neg: nb, mag: mb, scale: sb },
            ) => {
                let n = na != nb;
                let la = ndigits_u128(ma);
                let lb = ndigits_u128(mb);
                let d: u32 = if la + lb > 38 {
                    la + lb - 38
                } else {
                    0
                };
                if d > sa + sb {
                    NumericValue::Infinite { neg: n }
                } else {
                    let da = if d <= sa {
                        d
                    } else {
                        sa
                    };
                    let db = d - da;
                    proof {
                        lemma_mul_fits(ma as nat, mb as nat, da as nat, db as nat);
                        lemma_pow10_37();
                        lemma_pow10_pos(da as nat);
                        lemma_pow10_pos(db as nat);
                    }
                    let qa = ma / pow10_u128(da);
                    let qb = mb / pow10_u128(db);
                    let p0 = qa * qb;
                    let sp0 = sa + sb - d;
                    let e: u32 = if sp0 > 36 {
                        sp0 - 36
                    } else {
                        0
                    };
                    let pe = pow10_u128(e);
                    proof {
                        lemma_pow10_pos(e as nat);
                        vstd::arithmetic::div_mod::lemma_div_nonincreasing(
                            p0 as int,
                            pe as int,
                        );
                    }
                    let p1 = p0 / pe;
                    let sp1 = sp0 - e;
                    proof {
                        assert(pow10(38) == 10 * pow10(37));
                        lemma_div_bound(p1 as nat, 10, MAG_LIMIT as nat);
                    }
                    if p1 >= MAG_LIMIT && sp1 > 0 {
                        NumericValue::Finite { neg: n, mag: p1 / 10, scale: sp1 - 1 }
                    } else if p1 >= MAG_LIMIT {
                        NumericValue::Infinite { neg: n }
                    } else {
                        NumericValue::Finite { neg: n, mag: p1, scale: sp1 }
                    }
                }
            },
        }
    }

    /// Adds two values, as `spec_add` describes.
    pub fn add_values(self, other: NumericValue) -> (r: NumericValue)
        requires
            self.wf(),
            other.wf(),
        ensures
            r == spec_add(self, other),
            r.wf(),
    {
        match (self, other) {
            (NumericValue::NotANumber, _) => NumericValue::NotANumber,
            (_, NumericValue::NotANumber) => NumericValue::NotANumber,
            (NumericValue::Infinite { neg: x }, NumericValue::Infinite { neg: y }) => {
                if x == y {
                    NumericValue::Infinite { neg: x }
                } else {
                    NumericValue::NotANumber
                }
            },
            (NumericValue::Infinite { neg: x }, NumericValue::Finite { .. }) => {
                NumericValue::Infinite { neg: x }
            },
            (NumericValue::Finite { .. }, NumericValue::Infinite { neg: y }) => {
                NumericValue::Infinite { neg: y }
            },
            (
                NumericValue::Finite { neg: na, mag: ma, scale: sa },
                NumericValue::Finite { neg: nb, mag: mb, scale: sb },
            ) => {
                proof {
                    lemma_add_align_fits(ma as nat, sa as nat, mb as nat, sb as nat);
                    lemma_pow10_37();
                }
                let s = add_scale_exec(ma, sa, mb, sb);
                let xa = align_exec(ma, sa, s);
                let xb = align_exec(mb, sb, s);
                if na == nb {
                    let m = xa + xb;
                    if m >= MAG_LIMIT {
                        NumericValue::Infinite { neg: na }
                    } else {
                        NumericValue::Finite { neg: na, mag: m, scale: s }
                    }
                } else if xa == xb {
                    NumericValue::Finite { neg: false, mag: 0, scale: 0 }
                } else if xa > xb {
                    NumericValue::Finite { neg: na, mag: xa - xb, scale: s }
                } else {
                    NumericValue::Finite { neg: nb, mag: xb - xa, scale: s }
                }
            },
        }
    }

    /// Subtracts `other` from `self`, as `spec_sub` describes.
    pub fn sub_values(self, other: NumericValue) -> (r: NumericValue)
        requires
            self.wf(),
            other.wf(),
        ensures
            r == spec_sub(self, other),
            r.wf(),
    {
        self.add_values(other.negated())
    }
}

/// Strips trailing zeros from a finite value, yielding its canonical form.
pub fn normalize(neg: bool, mag: u128, scale: u32) -> (r: NumericValue)
    requires
        mag < MAG_LIMIT,
        scale <= SCALE_MAX,
    ensures
        r == norm_spec(neg, mag as nat, scale as nat),
        r.wf(),
{
    let mut m: u128 = mag;
    let mut s: u32 = scale;
    while s > 0 && m % 10 == 0
        invariant
            m <= mag,
            s <= scale,
            norm_spec(neg, m as nat, s as nat) == norm_spec(neg, mag as nat, scale as nat),
        decreases s,
    {
        m = m / 10;
        s = s - 1;
    }
    proof {
        lemma_norm_props(neg, mag as nat, scale as nat);
    }
    NumericValue::Finite { neg, mag: m, scale: s }
}

} // verus!
