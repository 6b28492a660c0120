//! The two rates of the simulation in whole numbers: the logistic growth of a
//! population in millionths of a pregnancy, and the chance to die at an age
//! in parts of `DEATH_SCALE`.

use vstd::prelude::*;

verus! {

/// One whole pregnancy of growth, in the units of the growth accumulator.
pub const GROWTH_UNIT: i64 = 1_000_000;

/// The growth accumulator stays between ten pregnancies either way.
pub const GROWTH_LIMIT: i64 = 10_000_000;

/// The growth rate of a tenth, in the units of the growth accumulator.
pub const GROWTH_RATE: u32 = 100_000;

/// The denominator of the chance to die.
pub const DEATH_SCALE: u32 = 0x8000_0000;

/// The age of least mortality.
pub const SAFEST_AGE: u32 = 26;

/// The number one of the fixed-point numbers that `decay` works in.
pub const DECAY_ONE: u64 = 0x4000_0000_0000_0000;

/// The factor by which the chance to survive falls with each unit of the
/// squared distance from the safest age: the exponential of minus one in ten
/// thousand, as a fixed-point number.
pub const DECAY_STEP: u64 = 4_611_224_872_883_206_662;

/// Logistic growth `coefficient * curr * (1 - curr / cap)`, rounded towards
/// zero.
pub open spec fn logistic_growth(curr: u32, cap: u32, coefficient: u32) -> int {
    if curr <= cap {
        coefficient * curr * (cap - curr) / (cap as int)
    } else {
        -(coefficient * curr * (curr - cap) / (cap as int))
    }
}

/// `sum` held to the limits of the growth accumulator.
pub open spec fn held(sum: int) -> int {
    if sum > GROWTH_LIMIT {
        GROWTH_LIMIT as int
    } else if sum < -GROWTH_LIMIT {
        -GROWTH_LIMIT
    } else {
        sum
    }
}

/// The growth that has built up after one more tick of a population of
/// `size` people with room for `capacity`: the logistic growth of the tick
/// added and the sum held to ten pregnancies either way. A population
/// without room for anybody falls to the lower limit at once.
pub open spec fn grown_of(growth: int, size: u32, capacity: u32) -> int {
    if capacity > 0 {
        held(growth + logistic_growth(size, capacity, GROWTH_RATE))
    } else if size > 0 {
        -GROWTH_LIMIT
    } else {
        held(growth)
    }
}

/// `DECAY_STEP` to the power `exponent`, by squaring, each product rounded
/// down to a fixed-point number.
pub open spec fn decay(exponent: nat) -> int
    decreases exponent,
{
    if exponent == 0 {
        DECAY_ONE as int
    } else {
        let half = decay(exponent / 2);
        let square = half * half / (DECAY_ONE as int);
        if exponent % 2 == 1 {
            square * (DECAY_STEP as int) / (DECAY_ONE as int)
        } else {
            square
        }
    }
}

/// The distance of an age from the safest age.
pub open spec fn distance_from_safest(age: u32) -> nat {
    if age >= SAFEST_AGE {
        (age - SAFEST_AGE) as nat
    } else {
        (SAFEST_AGE - age) as nat
    }
}

/// The chance to die within a tick at an age, in parts of `DEATH_SCALE`: one
/// less the chance to survive, which decays with the square of the distance
/// from the safest age.
pub open spec fn death_chance(age: u32) -> int {
    let distance = distance_from_safest(age);
    (DECAY_ONE - decay(distance * distance)) / 0x8000_0000
}

/// A product of fixed-point numbers that are at most one is at most one.
proof fn lemma_product_at_most_one(a: int, b: int)
    requires
        0 <= a <= DECAY_ONE,
        0 <= b <= DECAY_ONE,
    ensures
        0 <= a * b <= DECAY_ONE * DECAY_ONE,
        0 <= a * b / (DECAY_ONE as int) <= DECAY_ONE,
{
    assert(0 <= a * b <= DECAY_ONE * DECAY_ONE) by (nonlinear_arith)
        requires
            0 <= a <= DECAY_ONE,
            0 <= b <= DECAY_ONE,
    ;
    assert(0 <= a * b / (DECAY_ONE as int) <= DECAY_ONE) by (nonlinear_arith)
        requires
            0 <= a * b <= DECAY_ONE * DECAY_ONE,
            DECAY_ONE > 0,
    ;
}

/// The chance to survive is at most one.
pub proof fn lemma_decay_at_most_one(exponent: nat)
    ensures
        0 <= decay(exponent) <= DECAY_ONE,
    decreases exponent,
{
    if exponent > 0 {
        lemma_decay_at_most_one(exponent / 2);
        let half = decay(exponent / 2);
        lemma_product_at_most_one(half, half);
        lemma_product_at_most_one(half * half / (DECAY_ONE as int), DECAY_STEP as int);
    }
}

/// The chance to die is a chance, and it is nil at the safest age.
pub proof fn lemma_death_chance(age: u32)
    ensures
        0 <= death_chance(age) <= DEATH_SCALE,
        age == SAFEST_AGE ==> death_chance(age) == 0,
{
    let distance = distance_from_safest(age);
    lemma_decay_at_most_one(distance * distance);
    if age == SAFEST_AGE {
        assert(distance == 0);
        assert(distance * distance == 0) by (nonlinear_arith)
            requires
                distance == 0,
        ;
    }
}

/// Two ages equally far from the safest age have the same chance to die.
pub proof fn lemma_death_chance_symmetric(younger: u32, older: u32)
    requires
        younger <= SAFEST_AGE <= older,
        SAFEST_AGE - younger == older - SAFEST_AGE,
    ensures
        death_chance(younger) == death_chance(older),
{
}

/// Logistic growth is a number of at most 96 bits.
pub proof fn lemma_growth_bound(curr: u32, cap: u32, coefficient: u32)
    requires
        cap > 0,
    ensures
        -0x1_0000_0000_0000_0000_0000_0000 <= logistic_growth(curr, cap, coefficient)
            <= 0x1_0000_0000_0000_0000_0000_0000,
{
    let far: int = if curr <= cap { cap - curr } else { curr - cap };
    assert(0 <= coefficient * curr * far <= 0xffff_ffff * 0xffff_ffff * 0xffff_ffff)
        by (nonlinear_arith)
        requires
            0 <= coefficient <= 0xffff_ffff,
            0 <= curr <= 0xffff_ffff,
            0 <= far <= 0xffff_ffff,
    ;
    assert(0 <= coefficient * curr * far / (cap as int) <= coefficient * curr * far)
        by (nonlinear_arith)
        requires
            0 <= coefficient * curr * far,
            cap >= 1,
    ;
}

/// Logistic growth of a population of `curr` people towards a capacity of
/// `cap`, at the rate `coefficient`.
pub fn logistic(curr: u32, cap: u32, coefficient: u32) -> (r: i128)
    requires
        cap > 0,
    ensures
        r == logistic_growth(curr, cap, coefficient),
{
    let rate: u128 = coefficient as u128;
    let size: u128 = curr as u128;
    if curr <= cap {
        let room: u128 = (cap - curr) as u128;
        assert(rate * size <= 0xffff_ffff * 0xffff_ffff) by (nonlinear_arith)
            requires
                rate <= 0xffff_ffff,
                size <= 0xffff_ffff,
        ;
        assert(rate * size * room <= 0xffff_ffff * 0xffff_ffff * 0xffff_ffff) by (nonlinear_arith)
            requires
                rate * size <= 0xffff_ffff * 0xffff_ffff,
                room <= 0xffff_ffff,
        ;
        let grown: u128 = rate * size * room / (cap as u128);
        grown as i128
    } else {
        let excess: u128 = (curr - cap) as u128;
        assert(rate * size <= 0xffff_ffff * 0xffff_ffff) by (nonlinear_arith)
            requires
                rate <= 0xffff_ffff,
                size <= 0xffff_ffff,
        ;
        assert(rate * size * excess <= 0xffff_ffff * 0xffff_ffff * 0xffff_ffff) by (nonlinear_arith)
            requires
                rate * size <= 0xffff_ffff * 0xffff_ffff,
                excess <= 0xffff_ffff,
        ;
        let shrunk: u128 = rate * size * excess / (cap as u128);
        -(shrunk as i128)
    }
}

/// `DECAY_STEP` to the power `exponent`.
fn decay_power(exponent: u64) -> (r: u64)
    ensures
        r == decay(exponent as nat),
        r <= DECAY_ONE,
    decreases exponent,
{
    if exponent == 0 {
        DECAY_ONE
    } else {
        let half: u64 = decay_power(exponent / 2);
        proof {
            lemma_product_at_most_one(half as int, half as int);
            lemma_product_at_most_one(
                (half as int) * (half as int) / (DECAY_ONE as int),
                DECAY_STEP as int,
            );
        }
        let square: u64 = ((half as u128) * (half as u128) / (DECAY_ONE as u128)) as u64;
        if exponent % 2 == 1 {
            ((square as u128) * (DECAY_STEP as u128) / (DECAY_ONE as u128)) as u64
        } else {
            square
        }
    }
}

/// The chance to die within a tick at the age `age`, in parts of
/// `DEATH_SCALE`.
pub fn death_by_age_probability(age: u32) -> (r: u32)
    ensures
        r == death_chance(age),
        r <= DEATH_SCALE,
{
    let distance: u64 = if age >= SAFEST_AGE {
        (age - SAFEST_AGE) as u64
    } else {
        (SAFEST_AGE - age) as u64
    };
    assert(distance * distance <= 0xffff_ffff * 0xffff_ffff) by (nonlinear_arith)
        requires
            distance <= 0xffff_ffff,
    ;
    let survival: u64 = decay_power(distance * distance);
    ((DECAY_ONE - survival) / 0x8000_0000) as u32
}

} // verus!
