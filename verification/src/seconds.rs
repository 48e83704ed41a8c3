//! Times in seconds as 64-bit floating-point numbers hold them.
//!
//! A time is exact in nanoseconds, but where a decision is a close call it is made as a
//! 64-bit floating-point number of seconds makes it. Such numbers are whole numbers here, of
//! units that are powers of two.

use vstd::prelude::*;

use crate::utterance::SECOND;

verus! {

/// `a / b` as a whole number: the nearest, and of two equally near ones the even one.
pub open spec fn nearest(a: int, b: int) -> int {
    let below = a / b;
    let rest = a % b;
    if 2 * rest > b || (2 * rest == b && below % 2 == 1) {
        below + 1
    } else {
        below
    }
}

/// As many nanoseconds as 2^52 seconds have: whole seconds from there on take all 53
/// significant bits of a 64-bit floating-point number.
pub const FULL_PRECISION: u128 = 4_503_599_627_370_496_000_000_000;

/// How many units a second has where a time in seconds is held as a 64-bit floating-point
/// number: the power of two that makes the time take 53 significant bits.
pub open spec fn units_per_second(nanos: int) -> int
    decreases 2 * FULL_PRECISION - nanos,
{
    if nanos <= 0 || nanos >= FULL_PRECISION {
        1
    } else {
        2 * units_per_second(2 * nanos)
    }
}

/// A time in the units that it is held in: the 64-bit floating-point number of seconds that
/// is nearest to it.
pub open spec fn held_time(nanos: int) -> int {
    nearest(nanos * units_per_second(nanos), SECOND as int)
}

/// Rounds `a / b` to a whole number, halves to the even one.
pub fn round_to_even(a: u128, b: u128) -> (rounded: u128)
    requires
        0 < b <= 0x4000_0000_0000_0000_0000_0000_0000_0000,
        a < u128::MAX,
    ensures
        rounded == nearest(a as int, b as int),
{
    let below: u128 = a / b;
    let rest: u128 = a % b;
    assert(below <= a) by (nonlinear_arith)
        requires
            b > 0,
            below == a / b,
    ;
    if 2 * rest > b || (2 * rest == b && below % 2 == 1) {
        below + 1
    } else {
        below
    }
}

/// Holds a time as the nearest 64-bit floating-point number of seconds: how many units it
/// has, and how many of them make a second.
pub fn hold(nanos: u64) -> (held: (u128, u128))
    ensures
        held.0 == held_time(nanos as int),
        held.1 == units_per_second(nanos as int),
        0 < held.1 <= 2 * FULL_PRECISION,
{
    let mut scaled: u128 = nanos as u128;
    let mut unit: u128 = 1;
    while scaled != 0 && scaled < FULL_PRECISION
        invariant
            scaled == nanos * unit,
            unit * units_per_second(scaled as int) == units_per_second(nanos as int),
            1 <= unit <= 2 * FULL_PRECISION,
            scaled != 0 ==> unit <= scaled,
            scaled < 2 * FULL_PRECISION,
        decreases 2 * FULL_PRECISION - scaled,
    {
        let ghost finer = units_per_second(2 * scaled as int);
        assert(unit * (2 * finer) == (2 * unit) * finer) by (nonlinear_arith);
        assert(2 * (nanos * unit) == nanos * (2 * unit)) by (nonlinear_arith);
        scaled = 2 * scaled;
        unit = 2 * unit;
    }
    (round_to_even(scaled, 1_000_000_000), unit)
}

/// A rounded quotient is at most half off.
pub proof fn lemma_nearest(a: int, b: int)
    requires
        b > 0,
    ensures
        2 * (nearest(a, b) * b - a) <= b,
        2 * (a - nearest(a, b) * b) <= b,
{
    let below = a / b;
    vstd::arithmetic::div_mod::lemma_fundamental_div_mod(a, b);
    assert(below * b == b * below) by (nonlinear_arith);
    assert((below + 1) * b == b * below + b) by (nonlinear_arith);
}

/// A whole number that is less than half off is the rounded quotient.
pub proof fn lemma_nearest_is(a: int, b: int, q: int)
    requires
        b > 0,
        2 * (q * b - a) < b,
        2 * (a - q * b) < b,
    ensures
        nearest(a, b) == q,
{
    lemma_nearest(a, b);
    let n = nearest(a, b);
    assert(n == q) by (nonlinear_arith)
        requires
            b > 0,
            2 * (q * b - a) < b,
            2 * (a - q * b) < b,
            2 * (n * b - a) <= b,
            2 * (a - n * b) <= b,
    ;
}

/// A second has at least one unit, and a time takes all the bits it is held with.
pub proof fn lemma_units(nanos: int)
    ensures
        units_per_second(nanos) >= 1,
        nanos > 0 ==> nanos * units_per_second(nanos) >= FULL_PRECISION,
    decreases 2 * FULL_PRECISION - nanos,
{
    if 0 < nanos < FULL_PRECISION {
        lemma_units(2 * nanos);
        let finer = units_per_second(2 * nanos);
        assert(nanos * (2 * finer) == (2 * nanos) * finer) by (nonlinear_arith);
    } else {
        assert(nanos * 1 == nanos);
    }
}

/// A time is held as the nearest floating-point number: at most half a unit off.
pub proof fn law_times_are_held_to_the_nearest_unit(nanos: int)
    requires
        nanos >= 0,
    ensures
        units_per_second(nanos) >= 1,
        2 * (held_time(nanos) * SECOND - nanos * units_per_second(nanos)) <= SECOND,
        2 * (nanos * units_per_second(nanos) - held_time(nanos) * SECOND) <= SECOND,
{
    lemma_units(nanos);
    lemma_nearest(nanos * units_per_second(nanos), SECOND as int);
}

/// How many of the finest units that a time of whole nanoseconds can be held in make a
/// second: 2^82.
pub const TICKS_PER_SECOND: u128 = 4_835_703_278_458_516_698_824_704;

/// The least whole number that takes more than the 53 significant bits of a 64-bit
/// floating-point number.
pub const MANTISSA_LIMIT: u128 = 9_007_199_254_740_992;

/// A time in nanoseconds as the 64-bit floating-point number of seconds that is nearest to
/// it, in ticks.
pub open spec fn time_ticks(nanos: int) -> int {
    if nanos < 0 {
        -(held_time(-nanos) * (TICKS_PER_SECOND as int / units_per_second(-nanos)))
    } else {
        held_time(nanos) * (TICKS_PER_SECOND as int / units_per_second(nanos))
    }
}

/// The spacing of 64-bit floating-point numbers around the whole number `x`, which is not
/// negative, as far as they are whole.
pub open spec fn spacing(x: int) -> int
    decreases x,
{
    if x < MANTISSA_LIMIT {
        1
    } else {
        2 * spacing(x / 2)
    }
}

/// The 64-bit floating-point number that is nearest to the whole number `x`: what a sum or a
/// product of such numbers, counted in ticks, is rounded to.
pub open spec fn as_float(x: int) -> int {
    if x < 0 {
        -(nearest(-x, spacing(-x)) * spacing(-x))
    } else {
        nearest(x, spacing(x)) * spacing(x)
    }
}

/// How near to a limit a comparison is a close call: nearer than this, in nanoseconds, it is
/// made as 64-bit floating-point numbers make it.
pub const CLOSE_CALL_NANOS: i64 = 16_000;

/// A rounded quotient grows with the dividend.
pub proof fn lemma_nearest_ordered(a: int, b: int, unit: int)
    requires
        unit > 0,
        a <= b,
    ensures
        nearest(a, unit) <= nearest(b, unit),
{
    vstd::arithmetic::div_mod::lemma_div_is_ordered(a, b, unit);
    vstd::arithmetic::div_mod::lemma_fundamental_div_mod(a, unit);
    vstd::arithmetic::div_mod::lemma_fundamental_div_mod(b, unit);
}

/// A multiple of the divisor divides evenly.
pub proof fn lemma_nearest_of_multiple(m: int, unit: int)
    requires
        unit > 0,
    ensures
        nearest(m * unit, unit) == m,
{
    lemma_nearest_is(m * unit, unit, m);
}

/// Scaling dividend and divisor alike changes neither the quotient nor how it is rounded.
pub proof fn lemma_scaled(a: int, b: int, c: int)
    requires
        b > 0,
        c > 0,
    ensures
        b * c > 0,
        (a * c) / (b * c) == a / b,
        (a * c) % (b * c) == (a % b) * c,
        nearest(a * c, b * c) == nearest(a, b),
{
    let q = a / b;
    let r = a % b;
    vstd::arithmetic::div_mod::lemma_fundamental_div_mod(a, b);
    assert(a * c == q * (b * c) + r * c) by (nonlinear_arith)
        requires
            a == b * q + r,
    ;
    assert(0 <= r * c < b * c) by (nonlinear_arith)
        requires
            0 <= r < b,
            c > 0,
    ;
    vstd::arithmetic::div_mod::lemma_fundamental_div_mod_converse(a * c, b * c, q, r * c);
    assert(2 * (r * c) > b * c <==> 2 * r > b) by (nonlinear_arith)
        requires
            c > 0,
    ;
    assert(2 * (r * c) == b * c <==> 2 * r == b) by (nonlinear_arith)
        requires
            c > 0,
    ;
}

/// A time takes no more than the bits it is held with.
proof fn lemma_units_upper(nanos: int)
    requires
        0 < nanos < 2 * FULL_PRECISION,
    ensures
        nanos * units_per_second(nanos) < 2 * FULL_PRECISION,
    decreases 2 * FULL_PRECISION - nanos,
{
    if nanos < FULL_PRECISION {
        lemma_units_upper(2 * nanos);
        let finer = units_per_second(2 * nanos);
        assert(nanos * (2 * finer) == (2 * nanos) * finer) by (nonlinear_arith);
    } else {
        assert(nanos * 1 == nanos);
    }
}

/// The units of an earlier time are as fine as those of a later one, or finer by an even
/// number.
proof fn lemma_units_ordered(x: int, y: int) -> (k: int)
    requires
        0 < x <= y,
    ensures
        units_per_second(x) == k * units_per_second(y),
        k == 1 || k >= 2,
    decreases 2 * FULL_PRECISION - x,
{
    lemma_units(x);
    if y >= FULL_PRECISION {
        let k = units_per_second(x);
        assert(k * 1 == k);
        k
    } else {
        let k = lemma_units_ordered(2 * x, 2 * y);
        let finer = units_per_second(2 * y);
        assert(2 * (k * finer) == k * (2 * finer)) by (nonlinear_arith);
        k
    }
}

/// Twice as much `count` times over.
spec fn doubled(count: nat) -> int
    decreases count,
{
    if count == 0 {
        1
    } else {
        2 * doubled((count - 1) as nat)
    }
}

/// A second has a whole number of ticks for each unit.
proof fn lemma_units_divide(nanos: int, count: nat) -> (q: int)
    requires
        nanos > 0,
        nanos * doubled(count) >= FULL_PRECISION,
    ensures
        units_per_second(nanos) * q == doubled(count),
        q >= 1,
    decreases count,
{
    if nanos >= FULL_PRECISION {
        lemma_doubled_positive(count);
        doubled(count)
    } else {
        assert(count > 0) by {
            assert(nanos * 1 == nanos);
        }
        let fewer = (count - 1) as nat;
        assert(nanos * (2 * doubled(fewer)) == (2 * nanos) * doubled(fewer)) by (nonlinear_arith);
        let q = lemma_units_divide(2 * nanos, fewer);
        let finer = units_per_second(2 * nanos);
        assert((2 * finer) * q == 2 * (finer * q)) by (nonlinear_arith);
        q
    }
}

proof fn lemma_doubled_positive(count: nat)
    ensures
        doubled(count) >= 1,
    decreases count,
{
    if count > 0 {
        lemma_doubled_positive((count - 1) as nat);
    }
}

/// How many ticks a unit has.
pub proof fn lemma_ticks_per_unit(nanos: int) -> (q: int)
    requires
        nanos >= 0,
    ensures
        q >= 1,
        units_per_second(nanos) >= 1,
        units_per_second(nanos) * q == TICKS_PER_SECOND,
        TICKS_PER_SECOND as int / units_per_second(nanos) == q,
        time_ticks(nanos) == held_time(nanos) * q,
{
    lemma_units(nanos);
    let unit = units_per_second(nanos);
    let q = if nanos == 0 {
        TICKS_PER_SECOND as int
    } else {
        assert(doubled(82) == TICKS_PER_SECOND) by {
            reveal_with_fuel(doubled, 83);
        }
        assert(nanos * doubled(82) >= doubled(82)) by (nonlinear_arith)
            requires
                nanos >= 1,
                doubled(82) >= 0,
        ;
        lemma_units_divide(nanos, 82)
    };
    assert(TICKS_PER_SECOND == q * unit + 0) by (nonlinear_arith)
        requires
            unit * q == TICKS_PER_SECOND,
    ;
    vstd::arithmetic::div_mod::lemma_fundamental_div_mod_converse(
        TICKS_PER_SECOND as int,
        unit,
        q,
        0,
    );
    q
}

/// A later time is never held as an earlier one.
pub proof fn law_held_times_keep_order(x: int, y: int)
    requires
        x <= y,
    ensures
        time_ticks(x) <= time_ticks(y),
{
    if x >= 0 {
        lemma_ticks_ordered(x, y);
    } else if y < 0 {
        lemma_ticks_ordered(-y, -x);
    } else {
        lemma_ticks_ordered(0, -x);
        lemma_ticks_ordered(0, y);
    }
}

proof fn lemma_ticks_ordered(x: int, y: int)
    requires
        0 <= x <= y,
    ensures
        0 <= time_ticks(x) <= time_ticks(y),
        x == 0 ==> time_ticks(x) == 0,
{
    let qx = lemma_ticks_per_unit(x);
    let qy = lemma_ticks_per_unit(y);
    let ux = units_per_second(x);
    let uy = units_per_second(y);
    let hx = held_time(x);
    let hy = held_time(y);
    lemma_nearest_of_multiple(0, SECOND as int);
    assert(x * ux >= 0) by (nonlinear_arith)
        requires
            x >= 0,
            ux >= 1,
    ;
    assert(y * uy >= 0) by (nonlinear_arith)
        requires
            y >= 0,
            uy >= 1,
    ;
    lemma_nearest_ordered(0, x * ux, SECOND as int);
    lemma_nearest_ordered(0, y * uy, SECOND as int);
    assert(hx * qx >= 0 && hy * qy >= 0) by (nonlinear_arith)
        requires
            hx >= 0,
            hy >= 0,
            qx >= 1,
            qy >= 1,
    ;
    if x == 0 {
        assert(0 * ux == 0);
        assert(hx == 0);
        assert(0 * qx == 0);
    } else {
        let k = lemma_units_ordered(x, y);
        assert(qy == k * qx) by (nonlinear_arith)
            requires
                ux * qx == TICKS_PER_SECOND,
                uy * qy == TICKS_PER_SECOND,
                ux == k * uy,
                uy >= 1,
        ;
        assert(hx <= hy * k) by {
            if k == 1 {
                assert(x * ux <= y * uy) by (nonlinear_arith)
                    requires
                        x <= y,
                        ux == 1 * uy,
                        uy >= 1,
                ;
                lemma_nearest_ordered(x * ux, y * uy, SECOND as int);
                assert(hy * 1 == hy);
            } else {
                assert(x < FULL_PRECISION) by {
                    if x >= FULL_PRECISION {
                        assert(k * 1 == k);
                    }
                }
                lemma_units_upper(x);
                lemma_units(y);
                lemma_nearest_ordered(x * ux, 2 * FULL_PRECISION, SECOND as int);
                lemma_nearest_of_multiple(MANTISSA_LIMIT as int, SECOND as int);
                lemma_nearest_ordered(FULL_PRECISION as int, y * uy, SECOND as int);
                lemma_nearest_of_multiple(MANTISSA_LIMIT as int / 2, SECOND as int);
                assert(hy * k >= MANTISSA_LIMIT) by (nonlinear_arith)
                    requires
                        2 * hy >= MANTISSA_LIMIT,
                        k >= 2,
                ;
            }
        }
        assert(hx * qx <= (hy * k) * qx) by (nonlinear_arith)
            requires
                hx <= hy * k,
                qx >= 1,
        ;
        assert((hy * k) * qx == hy * (k * qx)) by (nonlinear_arith);
    }
}

/// How wide the spacing around a number is.
proof fn lemma_spacing(x: int)
    requires
        x >= 0,
    ensures
        spacing(x) >= 1,
        x < MANTISSA_LIMIT * spacing(x),
        x >= MANTISSA_LIMIT ==> 2 * x >= MANTISSA_LIMIT * spacing(x),
        x > 0 ==> spacing(x) <= x,
    decreases x,
{
    if x >= MANTISSA_LIMIT {
        lemma_spacing(x / 2);
    }
}

/// The spacing around a larger number is the same, or wider by an even number.
proof fn lemma_spacing_ordered(x: int, y: int) -> (k: int)
    requires
        0 <= x <= y,
    ensures
        spacing(y) == k * spacing(x),
        k == 1 || (k >= 2 && y >= MANTISSA_LIMIT),
    decreases x,
{
    lemma_spacing(y);
    if x < MANTISSA_LIMIT {
        let k = spacing(y);
        if y >= MANTISSA_LIMIT {
            lemma_spacing(y / 2);
        }
        assert(k * 1 == k);
        k
    } else {
        let k = lemma_spacing_ordered(x / 2, y / 2);
        let narrow = spacing(x / 2);
        assert(2 * (k * narrow) == k * (2 * narrow)) by (nonlinear_arith);
        k
    }
}

proof fn lemma_as_float_ordered(x: int, y: int)
    requires
        0 <= x <= y,
    ensures
        0 <= as_float(x) <= as_float(y),
{
    let sx = spacing(x);
    let sy = spacing(y);
    lemma_spacing(x);
    lemma_spacing(y);
    let k = lemma_spacing_ordered(x, y);
    let nx = nearest(x, sx);
    let ny = nearest(y, sy);
    lemma_nearest_of_multiple(0, sx);
    assert(0 * sx == 0);
    lemma_nearest_ordered(0, x, sx);
    assert(nx * sx >= 0) by (nonlinear_arith)
        requires
            nx >= 0,
            sx >= 1,
    ;
    if k == 1 {
        assert(1 * sx == sx);
        lemma_nearest_ordered(x, y, sx);
        assert(nx * sx <= ny * sx) by (nonlinear_arith)
            requires
                nx <= ny,
                sx >= 1,
        ;
    } else {
        let half = MANTISSA_LIMIT as int / 2;
        lemma_nearest_ordered(x, MANTISSA_LIMIT * sx, sx);
        lemma_nearest_of_multiple(MANTISSA_LIMIT as int, sx);
        assert(half * sy <= y) by (nonlinear_arith)
            requires
                2 * y >= MANTISSA_LIMIT * sy,
                2 * half == MANTISSA_LIMIT,
        ;
        lemma_nearest_ordered(half * sy, y, sy);
        lemma_nearest_of_multiple(half, sy);
        assert(nx * sx <= ny * sy) by (nonlinear_arith)
            requires
                nx <= 2 * half,
                half <= ny,
                sy == k * sx,
                k >= 2,
                sx >= 1,
                half >= 0,
        ;
    }
}

/// Rounding keeps order: of two numbers, the larger is never rounded to less.
pub proof fn law_rounding_keeps_order(x: int, y: int)
    requires
        x <= y,
    ensures
        as_float(x) <= as_float(y),
{
    if x >= 0 {
        lemma_as_float_ordered(x, y);
    } else if y < 0 {
        lemma_as_float_ordered(-y, -x);
    } else {
        lemma_as_float_ordered(0, y);
        lemma_as_float_ordered(0, -x);
    }
}

/// Rounding is off by at most one part in 2^53.
pub proof fn law_rounding_is_close(x: int)
    ensures
        x >= 0 ==> -x <= MANTISSA_LIMIT * (as_float(x) - x) <= x,
        x <= 0 ==> x <= MANTISSA_LIMIT * (as_float(x) - x) <= -x,
{
    let size = if x < 0 {
        -x
    } else {
        x
    };
    lemma_spacing(size);
    let unit = spacing(size);
    lemma_nearest(size, unit);
    if size < MANTISSA_LIMIT {
        lemma_small_is_exact(size);
    }
}

/// A time is held to within one part in 2^53.
pub proof fn law_held_times_are_close(nanos: int)
    ensures
        ({
            let off = SECOND * time_ticks(nanos) - nanos * TICKS_PER_SECOND;
            &&& nanos >= 0 ==> -0x2000_0000 * nanos <= off <= 0x2000_0000 * nanos
            &&& nanos <= 0 ==> 0x2000_0000 * nanos <= off <= -0x2000_0000 * nanos
        }),
{
    let size = if nanos < 0 {
        -nanos
    } else {
        nanos
    };
    lemma_units(size);
    let unit = units_per_second(size);
    let held = held_time(size);
    let q = lemma_ticks_per_unit(size);
    lemma_nearest(size * unit, SECOND as int);
    let off = 1_000_000_000 * (held * q) - size * 4_835_703_278_458_516_698_824_704;
    assert(time_ticks(size) == held * q);
    assert(nanos < 0 ==> time_ticks(nanos) == -(held * q));
    assert(nanos >= 0 ==> off == SECOND * time_ticks(nanos) - nanos * TICKS_PER_SECOND);
    assert(nanos < 0 ==> -off == SECOND * time_ticks(nanos) - nanos * TICKS_PER_SECOND);
    let rough = held * 1_000_000_000 - size * unit;
    assert(off == rough * q) by (nonlinear_arith)
        requires
            off == 1_000_000_000 * (held * q) - size * 4_835_703_278_458_516_698_824_704,
            rough == held * 1_000_000_000 - size * unit,
            unit * q == 4_835_703_278_458_516_698_824_704,
    ;
    if size == 0 {
        lemma_ticks_ordered(0, 0);
        assert(held * q == 0);
    } else {
        assert(1_000_000_000 * q <= 0x4000_0000 * size) by (nonlinear_arith)
            requires
                size * unit >= 4_503_599_627_370_496_000_000_000,
                unit * q == 4_835_703_278_458_516_698_824_704,
                size > 0,
                unit >= 1,
                q >= 1,
        ;
        assert(2 * off <= 1_000_000_000 * q && -2 * off <= 1_000_000_000 * q) by (nonlinear_arith)
            requires
                -1_000_000_000 <= 2 * rough <= 1_000_000_000,
                off == rough * q,
                q >= 1,
        ;
        assert(off <= 0x2000_0000 * size);
        assert(-off <= 0x2000_0000 * size);
    }
}

/// Rounding at most doubles a number.
pub proof fn lemma_rounded_bound(x: int)
    ensures
        -2 * x <= as_float(x) <= 2 * x || 2 * x <= as_float(x) <= -2 * x,
{
    let size = if x < 0 {
        -x
    } else {
        x
    };
    lemma_spacing(size);
    let unit = spacing(size);
    lemma_nearest(size, unit);
    lemma_nearest_of_multiple(0, unit);
    assert(0 * unit == 0);
    lemma_nearest_ordered(0, size, unit);
    let n = nearest(size, unit);
    assert(n * unit >= 0) by (nonlinear_arith)
        requires
            n >= 0,
            unit >= 1,
    ;
}

/// A number that takes no more than 53 bits is held as it is.
pub proof fn lemma_small_is_exact(x: int)
    requires
        0 <= x < MANTISSA_LIMIT,
    ensures
        as_float(x) == x,
{
    assert(x * 1 == x);
    lemma_nearest_of_multiple(x, 1);
}

/// Rounds a whole number to the nearest 64-bit floating-point number.
pub fn round_to_float(x: i128) -> (rounded: i128)
    requires
        -0x1000_0000_0000_0000_0000_0000_0000_0000 < x,
        x < 0x1000_0000_0000_0000_0000_0000_0000_0000,
    ensures
        rounded == as_float(x as int),
        -0x2000_0000_0000_0000_0000_0000_0000_0000 < rounded,
        rounded < 0x2000_0000_0000_0000_0000_0000_0000_0000,
{
    let size: u128 = if x < 0 {
        (-x) as u128
    } else {
        x as u128
    };
    let mut rest: u128 = size;
    let mut unit: u128 = 1;
    while rest >= MANTISSA_LIMIT
        invariant
            rest == size as int / unit as int,
            unit * spacing(rest as int) == spacing(size as int),
            unit >= 1,
            unit == 1 || unit <= size,
            size < 0x1000_0000_0000_0000_0000_0000_0000_0000,
        decreases rest,
    {
        let ghost narrow = spacing(rest as int / 2);
        proof {
            vstd::arithmetic::div_mod::lemma_div_denominator(size as int, unit as int, 2);
            assert(unit * (2 * narrow) == (2 * unit) * narrow) by (nonlinear_arith);
            assert(2 * unit <= size) by (nonlinear_arith)
                requires
                    rest == size as int / unit as int,
                    rest >= 2,
                    unit >= 1,
            ;
        }
        rest = rest / 2;
        unit = 2 * unit;
    }
    let count = round_to_even(size, unit);
    proof {
        lemma_spacing(size as int);
        lemma_nearest(size as int, unit as int);
        lemma_nearest_of_multiple(0, unit as int);
        assert(0 * unit as int == 0);
        lemma_nearest_ordered(0, size as int, unit as int);
        if size == 0 {
            assert(0 * unit == 0);
        }
    }
    let found: u128 = count * unit;
    if x < 0 {
        -(found as i128)
    } else {
        found as i128
    }
}

/// A time in ticks.
pub fn ticks_of(nanos: i64) -> (ticks: i128)
    ensures
        ticks == time_ticks(nanos as int),
        -0x40_0000_0000_0000_0000_0000_0000_0000 <= ticks,
        ticks <= 0x40_0000_0000_0000_0000_0000_0000_0000,
{
    let size: u64 = if nanos < 0 {
        (-(nanos as i128)) as u64
    } else {
        nanos as u64
    };
    let (held, unit) = hold(size);
    let per_unit: u128 = TICKS_PER_SECOND / unit;
    proof {
        let q = lemma_ticks_per_unit(size as int);
        lemma_ticks_bound(size as int);
    }
    let found: u128 = held * per_unit;
    if nanos < 0 {
        -(found as i128)
    } else {
        found as i128
    }
}

/// How many ticks a time of 64 bits of nanoseconds can have.
proof fn lemma_ticks_bound(nanos: int)
    requires
        0 <= nanos <= 0x8000_0000_0000_0000,
    ensures
        0 <= time_ticks(nanos) <= 0x40_0000_0000_0000_0000_0000_0000_0000,
{
    let q = lemma_ticks_per_unit(nanos);
    let unit = units_per_second(nanos);
    let held = held_time(nanos);
    lemma_ticks_ordered(0, nanos);
    lemma_nearest(nanos * unit, SECOND as int);
    assert(held * q <= 0x40_0000_0000_0000_0000_0000_0000_0000) by (nonlinear_arith)
        requires
            2 * (held * 1_000_000_000 - nanos * unit) <= 1_000_000_000,
            unit * q == 4_835_703_278_458_516_698_824_704,
            unit >= 1,
            q >= 1,
            0 <= nanos <= 0x8000_0000_0000_0000,
    ;
}

/// How many units a second has for a time that takes `count` doublings to take all bits.
proof fn lemma_units_are(nanos: int, count: nat)
    requires
        nanos > 0,
        nanos * doubled(count) >= FULL_PRECISION,
        count > 0 ==> nanos * doubled((count - 1) as nat) < FULL_PRECISION,
    ensures
        units_per_second(nanos) == doubled(count),
    decreases count,
{
    if count == 0 {
        assert(nanos * 1 == nanos);
    } else {
        let fewer = (count - 1) as nat;
        lemma_doubled_positive(fewer);
        assert(nanos < FULL_PRECISION) by (nonlinear_arith)
            requires
                nanos > 0,
                doubled(fewer) >= 1,
                nanos * doubled(fewer) < FULL_PRECISION,
        ;
        assert(nanos * (2 * doubled(fewer)) == (2 * nanos) * doubled(fewer)) by (nonlinear_arith);
        if fewer > 0 {
            let least = doubled((fewer - 1) as nat);
            assert(nanos * (2 * least) == (2 * nanos) * least) by (nonlinear_arith);
        }
        lemma_units_are(2 * nanos, fewer);
    }
}

/// The ticks of a time that takes `count` doublings to take all bits and is then held as
/// `held`.
proof fn lemma_ticks_are(nanos: int, count: nat, held: int, ticks: int)
    requires
        nanos > 0,
        nanos * doubled(count) >= FULL_PRECISION,
        count > 0 ==> nanos * doubled((count - 1) as nat) < FULL_PRECISION,
        -1_000_000_000 < 2 * (held * 1_000_000_000 - nanos * doubled(count)) < 1_000_000_000,
        held * TICKS_PER_SECOND == ticks * doubled(count),
    ensures
        time_ticks(nanos) == ticks,
{
    let unit = doubled(count);
    lemma_units_are(nanos, count);
    lemma_nearest_is(nanos * unit, SECOND as int, held);
    let q = lemma_ticks_per_unit(nanos);
    assert(held * q == ticks) by (nonlinear_arith)
        requires
            unit * q == TICKS_PER_SECOND,
            held * TICKS_PER_SECOND == ticks * unit,
            unit >= 1,
    ;
}

/// The times that limits are made of, in ticks: 0.8, 7, 0.25, 0.09 and 0.5 seconds.
pub proof fn lemma_ticks_of_limits()
    ensures
        time_ticks(800_000_000) == 3_868_562_622_766_813_573_808_128,
        time_ticks(7_000_000_000) == 33_849_922_949_209_616_891_772_928,
        time_ticks(250_000_000) == 1_208_925_819_614_629_174_706_176,
        time_ticks(90_000_000) == 435_213_295_061_266_486_788_096,
        time_ticks(500_000_000) == 2_417_851_639_229_258_349_412_352,
{
    assert(doubled(49) == 562_949_953_421_312) by {
        reveal_with_fuel(doubled, 50);
    }
    assert(doubled(50) == 1_125_899_906_842_624);
    assert(doubled(51) == 2_251_799_813_685_248);
    assert(doubled(52) == 4_503_599_627_370_496);
    assert(doubled(53) == 9_007_199_254_740_992);
    assert(doubled(54) == 18_014_398_509_481_984);
    assert(doubled(55) == 36_028_797_018_963_968);
    assert(doubled(56) == 72_057_594_037_927_936);
    lemma_ticks_are(
        800_000_000,
        53,
        7_205_759_403_792_794,
        3_868_562_622_766_813_573_808_128,
    );
    lemma_ticks_are(
        7_000_000_000,
        50,
        7_881_299_347_898_368,
        33_849_922_949_209_616_891_772_928,
    );
    lemma_ticks_are(
        250_000_000,
        54,
        4_503_599_627_370_496,
        1_208_925_819_614_629_174_706_176,
    );
    lemma_ticks_are(90_000_000, 56, 6_485_183_463_413_514, 435_213_295_061_266_486_788_096);
    lemma_ticks_are(
        500_000_000,
        53,
        4_503_599_627_370_496,
        2_417_851_639_229_258_349_412_352,
    );
}

/// A quotient that lies in the middle between two whole numbers is rounded to the even one.
pub proof fn law_halves_go_to_even(a: int, b: int)
    requires
        b > 0,
        a % b * 2 == b,
    ensures
        nearest(a, b) % 2 == 0,
        nearest(a, b) == a / b || nearest(a, b) == a / b + 1,
{
}

/// A time is held with 53 significant bits: as many units as at least 2^52 and at most 2^53.
pub proof fn law_held_times_take_all_bits(nanos: int)
    requires
        0 < nanos < 2 * 4_503_599_627_370_496_000_000_000,
    ensures
        4_503_599_627_370_496 <= held_time(nanos) <= 9_007_199_254_740_992,
{
    lemma_units(nanos);
    lemma_units_upper(nanos);
    let scaled = nanos * units_per_second(nanos);
    lemma_nearest_ordered(FULL_PRECISION as int, scaled, SECOND as int);
    lemma_nearest_of_multiple(4_503_599_627_370_496, SECOND as int);
    lemma_nearest_ordered(scaled, 2 * FULL_PRECISION, SECOND as int);
    lemma_nearest_of_multiple(9_007_199_254_740_992, SECOND as int);
}

} // verus!
