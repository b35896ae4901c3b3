//! Volume levels and gains.
//!
//! A level is counted in millionths: one million is full volume. A gain is the
//! factor, in millionths too, by which a device is louder or quieter than its
//! group: the device plays at the group's level times its gain, and what it
//! reports is read as its level divided by its gain.

use vstd::prelude::*;

verus! {

/// Full volume, and the gain that changes nothing.
pub const FULL: i64 = 1_000_000;

/// The largest gain.
pub const MAX_GAIN: i64 = 2_000_000;

/// A smaller gain than this is read as this when a level is divided by it.
pub const MIN_DIVISOR: i64 = 50_000;

pub open spec fn clamp_level(x: int) -> int {
    if x < 0 {
        0
    } else if x > FULL {
        FULL as int
    } else {
        x
    }
}

/// A level times a gain, to the nearest millionth, between silence and full volume.
pub open spec fn scaled(level: int, gain: int) -> int {
    if level * gain <= 0 {
        0
    } else {
        clamp_level((level * gain + 500_000) / 1_000_000)
    }
}

/// The gain that a level is divided by.
pub open spec fn divisor(gain: int) -> int {
    if gain < MIN_DIVISOR {
        MIN_DIVISOR as int
    } else {
        gain
    }
}

/// A level divided by a gain, to the nearest millionth, between silence and full
/// volume.
pub open spec fn unscaled(level: int, gain: int) -> int {
    if level <= 0 {
        0
    } else {
        clamp_level((level * 1_000_000 + divisor(gain) / 2) / divisor(gain))
    }
}

pub open spec fn distance(a: int, b: int) -> int {
    if a >= b {
        a - b
    } else {
        b - a
    }
}

pub fn clamp_volume(x: i64) -> (r: i64)
    ensures
        r == clamp_level(x as int),
        0 <= r <= FULL,
{
    if x < 0 {
        0
    } else if x > FULL {
        FULL
    } else {
        x
    }
}

/// A gain between none and the largest.
pub fn clamp_gain(x: i64) -> (r: i64)
    ensures
        r == (if x < 0 {
            0
        } else if x > MAX_GAIN {
            MAX_GAIN as int
        } else {
            x as int
        }),
{
    if x < 0 {
        0
    } else if x > MAX_GAIN {
        MAX_GAIN
    } else {
        x
    }
}

pub fn scale(level: i64, gain: i64) -> (r: i64)
    ensures
        r == scaled(level as int, gain as int),
        0 <= r <= FULL,
{
    proof {
        lemma_product(level as int, gain as int);
    }
    let p: i128 = level as i128 * gain as i128;
    if p <= 0 {
        0
    } else {
        let q: i128 = (p + 500_000) / 1_000_000;
        if q > FULL as i128 {
            FULL
        } else {
            q as i64
        }
    }
}

/// The product of two numbers of 64 bits has at most 126.
pub proof fn lemma_product(a: int, b: int)
    requires
        -0x8000_0000_0000_0000 <= a <= 0x8000_0000_0000_0000,
        -0x8000_0000_0000_0000 <= b <= 0x8000_0000_0000_0000,
    ensures
        -0x4000_0000_0000_0000_0000_0000_0000_0000 <= a * b <= 0x4000_0000_0000_0000_0000_0000_0000_0000,
{
    assert(-0x8000_0000_0000_0000 * 0x8000_0000_0000_0000 <= a * b <= 0x8000_0000_0000_0000 * 0x8000_0000_0000_0000)
        by (nonlinear_arith)
        requires
            -0x8000_0000_0000_0000 <= a <= 0x8000_0000_0000_0000,
            -0x8000_0000_0000_0000 <= b <= 0x8000_0000_0000_0000,
    ;
}

pub fn unscale(level: i64, gain: i64) -> (r: i64)
    ensures
        r == unscaled(level as int, gain as int),
        0 <= r <= FULL,
{
    let g: i64 = if gain < MIN_DIVISOR {
        MIN_DIVISOR
    } else {
        gain
    };
    if level <= 0 {
        0
    } else {
        let a: i128 = level as i128 * 1_000_000 + (g / 2) as i128;
        let q: i128 = a / g as i128;
        proof {
            assert(0 <= a as int / (g as int) <= a) by (nonlinear_arith)
                requires
                    0 <= a,
                    1 <= g,
            ;
        }
        if q > FULL as i128 {
            FULL
        } else {
            q as i64
        }
    }
}

pub fn distance_of(a: i64, b: i64) -> (r: u64)
    ensures
        r == distance(a as int, b as int),
{
    if a >= b {
        (a as i128 - b as i128) as u64
    } else {
        (b as i128 - a as i128) as u64
    }
}

/// A level as whole per cent, between 0 and 255.
pub open spec fn percent_of(level: int) -> int {
    if level <= 0 {
        0
    } else if (level + 5_000) / 10_000 > 255 {
        255
    } else {
        (level + 5_000) / 10_000
    }
}

pub fn percent(level: i64) -> (r: u8)
    ensures
        r == percent_of(level as int),
{
    if level <= 0 {
        0
    } else {
        let p: i128 = (level as i128 + 5_000) / 10_000;
        if p > 255 {
            255
        } else {
            p as u8
        }
    }
}

/// The level of whole per cent.
pub fn from_percent(p: u8) -> (r: i64)
    ensures
        r == 10_000 * p,
{
    10_000 * p as i64
}

/// With the gain that changes nothing a device plays at its group's level, and the
/// group takes over the device's.
pub proof fn law_unit_gain(level: int)
    requires
        0 <= level <= FULL,
    ensures
        scaled(level, FULL as int) == level,
        unscaled(level, FULL as int) == level,
{
    assert(divisor(1_000_000) == 1_000_000);
    if level > 0 {
        assert((level * 1_000_000 + 500_000) / 1_000_000 == level);
    }
}

/// A device at half gain plays at half its group's level, and what it reports is
/// read at double.
pub proof fn law_half_gain(level: int)
    requires
        0 <= level <= FULL,
    ensures
        level % 2 == 0 ==> scaled(level, 500_000) == level / 2,
        unscaled(level, 500_000) == clamp_level(2 * level),
{
    assert(divisor(500_000) == 500_000);
    if level > 0 {
        assert((level * 1_000_000 + 250_000) / 500_000 == 2 * level);
    }
}

/// What a device at a whole-number gain plays is read back as the level that it
/// was given, unless the device is already at full volume.
pub proof fn law_gain_round_trip(level: int, gain: int)
    requires
        0 <= level <= FULL,
        gain == 500_000 && level % 2 == 0 || gain == 1_000_000 || gain == 2_000_000,
        scaled(level, gain) < FULL,
    ensures
        unscaled(scaled(level, gain), gain) == level,
{
    let x = scaled(level, gain);
    assert(divisor(gain) == gain);
    if gain == 500_000 {
        law_half_gain(level);
        law_half_gain(x);
    } else if gain == 1_000_000 {
        law_unit_gain(level);
    } else {
        assert(x == 2 * level);
        if x > 0 {
            assert((x * 1_000_000 + 1_000_000) / 2_000_000 == level);
        }
    }
}

/// A gain never turns a louder level into a quieter one.
pub proof fn law_scaling_keeps_order(a: int, b: int, gain: int)
    requires
        0 <= a <= b,
        0 <= gain,
    ensures
        scaled(a, gain) <= scaled(b, gain),
{
    assert(a * gain <= b * gain) by (nonlinear_arith)
        requires
            0 <= a <= b,
            0 <= gain,
    ;
}

/// A level times a gain is the whole number of millionths nearest to the product, and full
/// volume where the product is beyond it.
pub proof fn law_scaled_is_the_product(level: int, gain: int)
    requires
        0 <= level,
        0 <= gain,
    ensures
        0 <= scaled(level, gain) <= 1_000_000,
        scaled(level, gain) < 1_000_000 ==> -500_000 <= level * gain - 1_000_000 * scaled(level, gain) <= 500_000,
        scaled(level, gain) == 1_000_000 ==> level * gain >= 1_000_000_000_000 - 500_000,
{
    let p = level * gain;
    assert(p >= 0) by (nonlinear_arith)
        requires
            p == level * gain,
            0 <= level,
            0 <= gain,
    ;
}

/// A level divided by a gain is the whole number of millionths that times the gain comes
/// nearest to the level, and full volume where that is beyond it. A gain below a twentieth
/// counts as a twentieth.
pub proof fn law_unscaled_is_the_quotient(level: int, gain: int)
    requires
        0 <= level,
    ensures
        0 <= unscaled(level, gain) <= 1_000_000,
        gain < 50_000 ==> unscaled(level, gain) == unscaled(level, 50_000),
        gain >= 50_000 && unscaled(level, gain) < 1_000_000 ==> -gain <= 2 * (1_000_000 * level - unscaled(level, gain)
            * gain) <= gain,
        gain >= 50_000 && unscaled(level, gain) == 1_000_000 ==> 2 * (1_000_000 * level) >= 2 * (1_000_000 * gain)
            - gain,
{
    if gain >= 50_000 && level > 0 {
        let a = level * 1_000_000 + gain / 2;
        let q = a / gain;
        vstd::arithmetic::div_mod::lemma_fundamental_div_mod(a, gain);
        vstd::arithmetic::div_mod::lemma_mod_bound(a, gain);
        assert(gain * q == q * gain) by (nonlinear_arith);
        assert(q >= 0) by (nonlinear_arith)
            requires
                q == a / gain,
                a >= 0,
                gain > 0,
        ;
        if q >= 1_000_000 {
            assert(gain * q >= gain * 1_000_000) by (nonlinear_arith)
                requires
                    q >= 1_000_000,
                    gain > 0,
            ;
        }
    }
}

/// Whole per cent are the level's nearest ones.
pub proof fn law_percent_is_nearest(level: int)
    requires
        0 <= level <= 1_000_000,
    ensures
        0 <= percent_of(level) <= 100,
        -5_000 <= level - 10_000 * percent_of(level) <= 5_000,
{
}

/// How far two numbers are apart does not depend on their order.
pub proof fn law_distance(a: int, b: int)
    ensures
        distance(a, b) == distance(b, a),
        distance(a, b) >= 0,
        distance(a, b) == a - b || distance(a, b) == b - a,
{
}

/// Full volume is a million, a gain doubles at most, and none below a twentieth is divided by.
pub proof fn law_bounds_of_levels(x: int)
    ensures
        FULL == 1_000_000,
        MAX_GAIN == 2_000_000,
        MIN_DIVISOR == 50_000,
        0 <= x <= 1_000_000 ==> clamp_level(x) == x,
        x < 0 ==> clamp_level(x) == 0,
        x > 1_000_000 ==> clamp_level(x) == 1_000_000,
{
}

} // verus!
