//! Fixed-point arithmetic in `i64` micro-units.
//!
//! A quantity `x` stands for the real number `x / FX_ONE`. All operations
//! saturate at the `i64` range instead of wrapping or panicking, and the
//! sigmoid used for node activation is a deterministic integer
//! approximation of the logistic function `1 / (1 + exp(-a * x))` that is
//! exactly `FX_HALF` at zero and saturates to `0` or `FX_ONE` once the
//! scaled argument leaves `(-FX_CUT, FX_CUT)`.

use vstd::prelude::*;
use vstd::arithmetic::div_mod::lemma_div_is_ordered;
use vstd::arithmetic::div_mod::lemma_div_is_ordered_by_denominator;
use vstd::arithmetic::div_mod::lemma_div_multiples_vanish;
use vstd::arithmetic::div_mod::lemma_remainder_lower;
use vstd::arithmetic::mul::lemma_mul_inequality;
use vstd::arithmetic::mul::lemma_mul_nonnegative;

verus! {

/// One whole unit: fixed-point values carry six decimal places.
pub const FX_ONE: i64 = 1_000_000;

/// One half, exactly.
pub const FX_HALF: i64 = 500_000;

/// Cutoff for the scaled sigmoid argument: beyond `exp(15)` the logistic
/// function is within half a micro-unit of its asymptote, so the result
/// saturates to an exact `0` or `FX_ONE`.
pub const FX_CUT: i64 = 15_000_000;

/// Euler's number in micro-units.
pub const E_MICROS: u64 = 2_718_282;

/// Number of Taylor terms used for `exp` on the fractional part.
pub const TAYLOR_TERMS: u64 = 12;

/// Clips an unbounded integer to the `i64` range.
pub open spec fn clip(x: int) -> int {
    if x > i64::MAX as int {
        i64::MAX as int
    } else if x < i64::MIN as int {
        i64::MIN as int
    } else {
        x
    }
}

/// Absolute value.
pub open spec fn fx_abs(x: int) -> int {
    if x < 0 {
        -x
    } else {
        x
    }
}

/// Saturating sum.
pub open spec fn sat_add_spec(a: int, b: int) -> int {
    clip(a + b)
}

/// Saturating fixed-point product: the mathematical product rescaled by
/// `FX_ONE`, truncated toward zero, then clipped.
pub open spec fn fx_mul_spec(a: int, b: int) -> int {
    let p = (fx_abs(a) * fx_abs(b)) / (FX_ONE as int);
    if (a < 0) != (b < 0) {
        clip(-p)
    } else {
        clip(p)
    }
}

/// Saturating absolute difference.
pub open spec fn abs_diff_spec(a: int, b: int) -> int {
    clip(fx_abs(a - b))
}

/// Magnitude of an `i128` that came from an `i64`.
fn mag(x: i128) -> (r: u128)
    requires
        i64::MIN as i128 <= x <= i64::MAX as i128,
    ensures
        r == fx_abs(x as int),
{
    if x < 0 {
        (-x) as u128
    } else {
        x as u128
    }
}

/// Adds two fixed-point values, saturating at the `i64` range.
pub fn sat_add(a: i64, b: i64) -> (r: i64)
    ensures
        r == sat_add_spec(a as int, b as int),
{
    let s: i128 = a as i128 + b as i128;
    if s > i64::MAX as i128 {
        i64::MAX
    } else if s < i64::MIN as i128 {
        i64::MIN
    } else {
        s as i64
    }
}

/// Multiplies two fixed-point values, saturating at the `i64` range.
pub fn fx_mul(a: i64, b: i64) -> (r: i64)
    ensures
        r == fx_mul_spec(a as int, b as int),
{
    let xa: u128 = mag(a as i128);
    let xb: u128 = mag(b as i128);
    proof {
        assert(xa * xb <= 0x8000_0000_0000_0000u128 * 0x8000_0000_0000_0000u128)
            by (nonlinear_arith)
            requires
                xa <= 0x8000_0000_0000_0000u128,
                xb <= 0x8000_0000_0000_0000u128,
        ;
        lemma_mul_nonnegative(xa as int, xb as int);
        lemma_div_is_ordered(0, (xa * xb) as int, FX_ONE as int);
    }
    let p: u128 = (xa * xb) / (FX_ONE as u128);
    let neg: bool = (a < 0) != (b < 0);
    if neg {
        if p > i64::MAX as u128 + 1 {
            i64::MIN
        } else {
            (-(p as i128)) as i64
        }
    } else {
        if p > i64::MAX as u128 {
            i64::MAX
        } else {
            p as i64
        }
    }
}

/// Absolute difference of two fixed-point values, saturating at the
/// `i64` range.
pub fn abs_diff(a: i64, b: i64) -> (r: i64)
    ensures
        r == abs_diff_spec(a as int, b as int),
{
    let d: i128 = a as i128 - b as i128;
    let m: u128 = if d < 0 {
        (-d) as u128
    } else {
        d as u128
    };
    if m > i64::MAX as u128 {
        i64::MAX
    } else {
        m as i64
    }
}

/// Taylor term `f^n / n!` in micro-units, computed with truncating
/// divisions exactly as the executable loop does.
pub open spec fn eterm(f: nat, n: nat) -> nat
    decreases n,
{
    if n == 0 {
        FX_ONE as nat
    } else {
        (eterm(f, (n - 1) as nat) * f) / (n * (FX_ONE as nat))
    }
}

/// Partial Taylor sum for `exp(f / FX_ONE)` in micro-units.
pub open spec fn esum(f: nat, n: nat) -> nat
    decreases n,
{
    if n == 0 {
        FX_ONE as nat
    } else {
        esum(f, (n - 1) as nat) + eterm(f, n)
    }
}

/// `e^k` in micro-units, by repeated fixed-point multiplication.
pub open spec fn epow(k: nat) -> nat
    decreases k,
{
    if k == 0 {
        FX_ONE as nat
    } else {
        (epow((k - 1) as nat) * (E_MICROS as nat)) / (FX_ONE as nat)
    }
}

/// `exp(t / FX_ONE)` in micro-units for `0 <= t < FX_CUT`: the integer and
/// fractional parts are handled separately and recombined.
pub open spec fn exp_spec(t: nat) -> nat {
    let k = t / (FX_ONE as nat);
    let f = t % (FX_ONE as nat);
    (epow(k) * esum(f, TAYLOR_TERMS as nat)) / (FX_ONE as nat)
}

/// The fixed-point logistic function `1 / (1 + exp(-(a * x)))` with the
/// argument scaled by `a`, saturating to the exact asymptote outside
/// `(-FX_CUT, FX_CUT)`.
pub open spec fn sigmoid_spec(x: int, a: int) -> int {
    let z = fx_mul_spec(a, x);
    if z >= FX_CUT as int {
        FX_ONE as int
    } else if z <= -(FX_CUT as int) {
        0
    } else if z >= 0 {
        let e = exp_spec(z as nat) as int;
        (e * (FX_ONE as int)) / (e + FX_ONE as int)
    } else {
        let e = exp_spec((-z) as nat) as int;
        ((FX_ONE as int) * (FX_ONE as int)) / (e + FX_ONE as int)
    }
}

/// Every Taylor term is at most one unit.
proof fn lemma_eterm_le_one(f: nat, n: nat)
    requires
        f < FX_ONE as nat,
    ensures
        eterm(f, n) <= FX_ONE as nat,
    decreases n,
{
    if n > 0 {
        lemma_eterm_le_one(f, (n - 1) as nat);
        let prev = eterm(f, (n - 1) as nat);
        assert(prev * f <= prev * (FX_ONE as nat)) by {
            lemma_mul_inequality(f as int, FX_ONE as int, prev as int);
            vstd::arithmetic::mul::lemma_mul_is_commutative(prev as int, f as int);
            vstd::arithmetic::mul::lemma_mul_is_commutative(prev as int, FX_ONE as int);
        }
        lemma_div_is_ordered_by_denominator((prev * f) as int, FX_ONE as int, (n * (FX_ONE as nat)) as int);
        lemma_div_is_ordered((prev * f) as int, (prev * (FX_ONE as nat)) as int, FX_ONE as int);
        lemma_div_multiples_vanish(prev as int, FX_ONE as int);
    }
}

/// The partial sums grow by at most one unit per term.
proof fn lemma_esum_bound(f: nat, n: nat)
    requires
        f < FX_ONE as nat,
    ensures
        esum(f, n) <= (n + 1) * (FX_ONE as nat),
    decreases n,
{
    if n == 0 {
        assert((0 + 1) * (FX_ONE as nat) == FX_ONE as nat) by (nonlinear_arith);
    } else {
        lemma_esum_bound(f, (n - 1) as nat);
        lemma_eterm_le_one(f, n);
        assert(n * (FX_ONE as nat) + FX_ONE as nat == (n + 1) * (FX_ONE as nat)) by (nonlinear_arith);
    }
}

/// Each fixed-point multiplication by `e` at most triples the value.
proof fn lemma_epow_bound(k: nat)
    requires
        k <= 15,
    ensures
        epow(k) <= 14_348_907_000_000,
    decreases k,
{
    lemma_epow_pow3(k);
    lemma_pow3_15_bound(k);
    assert((FX_ONE as nat) * pow3(k) <= (FX_ONE as nat) * pow3(15)) by {
        lemma_mul_inequality(pow3(k) as int, pow3(15) as int, FX_ONE as int);
        vstd::arithmetic::mul::lemma_mul_is_commutative(FX_ONE as int, pow3(k) as int);
        vstd::arithmetic::mul::lemma_mul_is_commutative(FX_ONE as int, pow3(15) as int);
    }
    assert(pow3(15) == 14_348_907) by {
        reveal_with_fuel(pow3, 16);
    }
}

/// Powers of three.
pub open spec fn pow3(k: nat) -> nat
    decreases k,
{
    if k == 0 {
        1
    } else {
        3 * pow3((k - 1) as nat)
    }
}

proof fn lemma_pow3_15_bound(k: nat)
    requires
        k <= 15,
    ensures
        pow3(k) <= pow3(15),
    decreases 15 - k,
{
    if k < 15 {
        lemma_pow3_15_bound(k + 1);
        assert(pow3(k + 1) == 3 * pow3(k));
        assert(pow3(k) <= 3 * pow3(k)) by (nonlinear_arith);
    }
}

proof fn lemma_epow_pow3(k: nat)
    ensures
        epow(k) <= (FX_ONE as nat) * pow3(k),
    decreases k,
{
    if k == 0 {
        assert((FX_ONE as nat) * pow3(0) == FX_ONE as nat) by (nonlinear_arith)
            requires
                pow3(0) == 1,
        ;
    }
    if k > 0 {
        lemma_epow_pow3((k - 1) as nat);
        let prev = epow((k - 1) as nat);
        let bnd = (FX_ONE as nat) * pow3((k - 1) as nat);
        assert(prev * (E_MICROS as nat) <= (FX_ONE as int) * (3 * prev)) by (nonlinear_arith)
            requires
                prev >= 0,
        ;
        lemma_div_is_ordered((prev * (E_MICROS as nat)) as int, (FX_ONE as int) * (3 * prev), FX_ONE as int);
        lemma_div_multiples_vanish(3 * prev as int, FX_ONE as int);
        assert(epow(k) <= 3 * prev);
        assert(3 * bnd == (FX_ONE as nat) * pow3(k)) by (nonlinear_arith)
            requires
                bnd == (FX_ONE as nat) * pow3((k - 1) as nat),
                pow3(k) == 3 * pow3((k - 1) as nat),
        ;
    }
}

/// Computes `exp(t / FX_ONE)` in micro-units.
fn exp_micros(t: u64) -> (r: u64)
    requires
        t < FX_CUT as u64,
    ensures
        r == exp_spec(t as nat),
        r <= 200_000_000_000_000,
{
    let k: u64 = t / (FX_ONE as u64);
    let f: u64 = t % (FX_ONE as u64);
    proof {
        lemma_div_is_ordered(t as int, 14_999_999, FX_ONE as int);
        assert(14_999_999int / 1_000_000int == 14) by (nonlinear_arith);
        lemma_remainder_lower(t as int, FX_ONE as int);
        vstd::arithmetic::div_mod::lemma_mod_division_less_than_divisor(t as int, FX_ONE as int);
    }

    // e^k by repeated fixed-point multiplication
    let mut p: u64 = FX_ONE as u64;
    let mut j: u64 = 0;
    proof {
        lemma_epow_bound(0);
    }
    while j < k
        invariant
            j <= k,
            k <= 14,
            p == epow(j as nat),
            p <= 14_348_907_000_000,
        decreases k - j,
    {
        let wide: u128 = (p as u128) * (E_MICROS as u128) / (FX_ONE as u128);
        proof {
            lemma_epow_bound((j + 1) as nat);
            assert((p as u128) * (E_MICROS as u128) <= 14_348_907_000_000u128 * 2_718_282u128)
                by (nonlinear_arith)
                requires
                    p <= 14_348_907_000_000u64,
            ;
        }
        p = wide as u64;
        j = j + 1;
    }

    // exp of the fractional part by Taylor series
    let mut term: u64 = FX_ONE as u64;
    let mut acc: u64 = FX_ONE as u64;
    let mut n: u64 = 1;
    while n <= TAYLOR_TERMS
        invariant
            1 <= n <= TAYLOR_TERMS + 1,
            f < FX_ONE as u64,
            term == eterm(f as nat, (n - 1) as nat),
            acc == esum(f as nat, (n - 1) as nat),
            term <= FX_ONE as u64,
            acc <= n * (FX_ONE as u64),
        decreases TAYLOR_TERMS + 1 - n,
    {
        proof {
            assert(term * f <= 1_000_000u64 * 1_000_000u64) by (nonlinear_arith)
                requires
                    term <= 1_000_000u64,
                    f < 1_000_000u64,
            ;
            lemma_eterm_le_one(f as nat, n as nat);
            lemma_esum_bound(f as nat, n as nat);
            assert(1_000_000u64 <= n * (FX_ONE as u64) <= 12_000_000u64) by (nonlinear_arith)
                requires
                    1u64 <= n <= 12u64,
                    FX_ONE == 1_000_000i64,
            ;
        }
        term = (term * f) / (n * (FX_ONE as u64));
        acc = acc + term;
        n = n + 1;
    }

    proof {
        lemma_epow_bound(k as nat);
        assert((p as u128) * (acc as u128) <= 14_348_907_000_000u128 * 13_000_000u128)
            by (nonlinear_arith)
            requires
                p <= 14_348_907_000_000u64,
                acc <= 13_000_000u64,
        ;
        lemma_div_is_ordered(((p as u128) * (acc as u128)) as int, 14_348_907_000_000int * 13_000_000int, FX_ONE as int);
        assert(14_348_907_000_000int * 13_000_000int / (FX_ONE as int) <= 200_000_000_000_000) by (nonlinear_arith);
    }
    let wide: u128 = (p as u128) * (acc as u128) / (FX_ONE as u128);
    wide as u64
}

/// Zero feeds nothing into the Taylor series beyond its leading term.
proof fn lemma_eterm_zero(n: nat)
    requires
        n >= 1,
    ensures
        eterm(0, n) == 0,
    decreases n,
{
    if n > 1 {
        lemma_eterm_zero((n - 1) as nat);
    }
    assert(eterm(0, (n - 1) as nat) * 0 == 0) by (nonlinear_arith);
    assert(0nat / (n * (FX_ONE as nat)) == 0) by (nonlinear_arith)
        requires
            n >= 1,
    ;
}

proof fn lemma_esum_zero(n: nat)
    ensures
        esum(0, n) == FX_ONE as nat,
    decreases n,
{
    if n > 0 {
        lemma_esum_zero((n - 1) as nat);
        lemma_eterm_zero(n);
    }
}

/// The fixed-point exponential is exactly one at zero.
pub proof fn lemma_exp_zero()
    ensures
        exp_spec(0) == FX_ONE as nat,
{
    lemma_esum_zero(TAYLOR_TERMS as nat);
    assert(0nat / (FX_ONE as nat) == 0) by (nonlinear_arith);
    assert(0nat % (FX_ONE as nat) == 0) by (nonlinear_arith);
    assert(epow(0) == FX_ONE as nat);
    lemma_div_multiples_vanish(FX_ONE as int, FX_ONE as int);
    assert((FX_ONE as nat) * (FX_ONE as nat) / (FX_ONE as nat) == FX_ONE as nat) by (nonlinear_arith);
}

/// The fixed-point sigmoid is exactly one half at zero, whatever the
/// activation coefficient.
pub proof fn lemma_sigmoid_zero(a: int)
    ensures
        sigmoid_spec(0, a) == FX_HALF,
{
    assert(fx_abs(a) * fx_abs(0) == 0) by (nonlinear_arith);
    assert(0int / (FX_ONE as int) == 0) by (nonlinear_arith);
    assert(fx_mul_spec(a, 0) == 0);
    lemma_exp_zero();
    assert((1_000_000int * 1_000_000int) / (1_000_000int + 1_000_000int) == 500_000int)
        by (nonlinear_arith);
}

/// Fixed-point logistic activation: `sigmoid(x, a)` approximates
/// `1 / (1 + exp(-a * x))` and always lies in `[0, FX_ONE]`; at `x == 0`
/// it is exactly `FX_HALF`.
pub fn sigmoid(x: i64, a: i64) -> (r: i64)
    ensures
        r == sigmoid_spec(x as int, a as int),
        0 <= r <= FX_ONE,
        x == 0 ==> r == FX_HALF,
{
    proof {
        if x == 0 {
            lemma_sigmoid_zero(a as int);
        }
    }
    let z: i64 = fx_mul(a, x);
    if z >= FX_CUT {
        FX_ONE
    } else if z <= -FX_CUT {
        0
    } else if z >= 0 {
        let e: u64 = exp_micros(z as u64);
        let q: u128 = ((e as u128) * (FX_ONE as u128)) / ((e as u128) + (FX_ONE as u128));
        proof {
            let ei = e as int;
            let d = ei + FX_ONE as int;
            lemma_mul_nonnegative(ei, FX_ONE as int);
            lemma_div_is_ordered(0, ei * (FX_ONE as int), d);
            assert(ei * (FX_ONE as int) <= d * (FX_ONE as int)) by (nonlinear_arith)
                requires
                    ei >= 0,
                    d == ei + 1_000_000,
            ;
            lemma_div_is_ordered(ei * (FX_ONE as int), d * (FX_ONE as int), d);
            lemma_div_multiples_vanish(FX_ONE as int, d);
        }
        q as i64
    } else {
        let e: u64 = exp_micros((-(z as i128)) as u64);
        let q: u128 = ((FX_ONE as u128) * (FX_ONE as u128)) / ((e as u128) + (FX_ONE as u128));
        proof {
            let ei = e as int;
            let d = ei + FX_ONE as int;
            let nm = (FX_ONE as int) * (FX_ONE as int);
            lemma_div_is_ordered(0, nm, d);
            assert(nm <= d * (FX_ONE as int)) by (nonlinear_arith)
                requires
                    ei >= 0,
                    d == ei + 1_000_000,
                    nm == 1_000_000int * 1_000_000int,
            ;
            lemma_div_is_ordered(nm, d * (FX_ONE as int), d);
            lemma_div_multiples_vanish(FX_ONE as int, d);
        }
        q as i64
    }
}

} // verus!
