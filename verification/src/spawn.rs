//! Where a newly connected player is placed.
//!
//! A spawn point is drawn from a square of 40 units, centred on the origin,
//! on a grid of 1024 steps per unit. Coordinates are built directly as
//! single-precision bit patterns, from integers alone: a sign bit, a biased
//! exponent of 8 bits and a fraction of 23 bits.

use crate::wire::Translation;
use vstd::arithmetic::power2::{lemma2_to64, lemma_pow2_unfold, pow2};
use vstd::prelude::*;

verus! {

/// Grid steps per unit of length.
pub const STEPS_PER_UNIT: u32 = 1024;

/// Grid steps from the centre of the spawn square to its edge: 20 units.
pub const SPAWN_HALF_STEPS: u32 = 20480;

/// Grid steps across the spawn square.
pub const SPAWN_STEPS: u32 = 40960;

/// Two to the power of 23: the weight of the exponent field.
pub const FRACTION_RANGE: u32 = 8388608;

/// The sign bit.
pub const SIGN_BIT: u32 = 2147483648;

/// The bit pattern of 20.
pub const TWENTY: u32 = 1101004800;

/// The biased exponent of a number between one grid step and two.
pub const STEP_EXPONENT: u32 = 117;

/// `bits` is the bit pattern of the non-negative single-precision number
/// `steps / 1024`: zero is all zeroes, and a pattern with the biased
/// exponent `x` and the fraction `f` stands for
/// `(1 + f / 2^23) * 2^(x - 127)`.
pub open spec fn represents(bits: u32, steps: nat) -> bool {
    if steps == 0 {
        bits == 0
    } else {
        let x = bits as nat / FRACTION_RANGE as nat;
        let f = bits as nat % FRACTION_RANGE as nat;
        &&& STEP_EXPONENT <= x <= 131
        &&& (FRACTION_RANGE + f) * pow2((x - STEP_EXPONENT) as nat) == steps * FRACTION_RANGE
    }
}

/// The distance, in grid steps, of draw `draw` from the centre of the spawn
/// square.
pub open spec fn spec_offset(draw: u32) -> nat {
    let k = draw % SPAWN_STEPS;
    if k >= SPAWN_HALF_STEPS {
        (k - SPAWN_HALF_STEPS) as nat
    } else {
        (SPAWN_HALF_STEPS - k) as nat
    }
}

/// Whether draw `draw` falls on the negative side of the centre.
pub open spec fn spec_negative(draw: u32) -> bool {
    draw % SPAWN_STEPS < SPAWN_HALF_STEPS
}

/// `bits` is the coordinate of draw `draw`: `spec_offset(draw) / 1024`,
/// negated on the negative side.
pub open spec fn is_coordinate(bits: u32, draw: u32) -> bool {
    &&& bits >= SIGN_BIT <==> spec_negative(draw)
    &&& represents((bits % SIGN_BIT) as u32, spec_offset(draw))
}

/// `t` lies in the spawn square: neither horizontal coordinate is further
/// than 20 from zero, and the third is zero. Bit patterns of non-negative
/// numbers are ordered as the numbers are.
pub open spec fn in_spawn_region(t: Translation) -> bool {
    &&& t.x % SIGN_BIT <= TWENTY
    &&& t.y % SIGN_BIT <= TWENTY
    &&& t.z == 0
}

/// The bit pattern of `steps / 1024`, for a distance inside the spawn
/// square.
fn magnitude_bits(steps: u32) -> (bits: u32)
    requires
        steps <= SPAWN_HALF_STEPS,
    ensures
        represents(bits, steps as nat),
        bits <= TWENTY,
{
    if steps == 0 {
        return 0;
    }
    let mut power: u32 = 1;
    let mut scale: u32 = FRACTION_RANGE;
    let mut exponent: u32 = 0;
    proof {
        lemma2_to64();
    }
    while power <= steps / 2
        invariant
            1 <= steps <= SPAWN_HALF_STEPS,
            exponent <= 14,
            power == pow2(exponent as nat),
            scale == pow2((23 - exponent) as nat),
            power <= steps,
            power * scale == FRACTION_RANGE,
        decreases steps - power,
    {
        proof {
            lemma2_to64();
            lemma_pow2_unfold((exponent + 1) as nat);
            lemma_pow2_unfold((23 - exponent) as nat);
            assert(exponent < 14) by {
                if exponent == 14 {
                    assert(power == 16384);
                }
            }
            assert((power * 2) * (scale / 2) == FRACTION_RANGE) by (nonlinear_arith)
                requires
                    power * scale == FRACTION_RANGE,
                    scale % 2 == 0,
            ;
        }
        power = power * 2;
        scale = scale / 2;
        exponent = exponent + 1;
    }
    let rest = steps - power;
    assert(rest < power);
    assert(rest * scale < FRACTION_RANGE && rest * scale >= 0) by (nonlinear_arith)
        requires
            0 <= rest < power,
            power * scale == FRACTION_RANGE,
            scale > 0,
    ;
    let fraction = rest * scale;
    let bits = (STEP_EXPONENT + exponent) * FRACTION_RANGE + fraction;
    proof {
        let x = bits as nat / FRACTION_RANGE as nat;
        let f = bits as nat % FRACTION_RANGE as nat;
        assert(x == STEP_EXPONENT + exponent && f == fraction) by (nonlinear_arith)
            requires
                bits == (STEP_EXPONENT + exponent) * FRACTION_RANGE + fraction,
                0 <= fraction < FRACTION_RANGE,
                x == bits as nat / FRACTION_RANGE as nat,
                f == bits as nat % FRACTION_RANGE as nat,
                FRACTION_RANGE == 8388608,
        ;
        assert((FRACTION_RANGE + fraction) * power == steps * FRACTION_RANGE) by (nonlinear_arith)
            requires
                fraction == rest * scale,
                rest == steps - power,
                power * scale == FRACTION_RANGE,
        ;
        if exponent == 14 {
            assert(power == 16384 && scale == 512);
        }
    }
    bits
}

/// The coordinate of draw `draw`.
pub fn coordinate(draw: u32) -> (bits: u32)
    ensures
        is_coordinate(bits, draw),
        bits % SIGN_BIT <= TWENTY,
{
    let k = draw % SPAWN_STEPS;
    if k >= SPAWN_HALF_STEPS {
        magnitude_bits(k - SPAWN_HALF_STEPS)
    } else {
        let magnitude = magnitude_bits(SPAWN_HALF_STEPS - k);
        SIGN_BIT + magnitude
    }
}

/// The spawn point of the draws `draw_x` and `draw_y`: a point of the grid
/// inside the spawn square, at height zero.
pub fn spawn_translation(draw_x: u32, draw_y: u32) -> (t: Translation)
    ensures
        in_spawn_region(t),
        is_coordinate(t.x, draw_x),
        is_coordinate(t.y, draw_y),
{
    Translation { x: coordinate(draw_x), y: coordinate(draw_y), z: 0 }
}

} // verus!
