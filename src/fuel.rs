//! Fuel needed to launch a module of a given mass.
use vstd::prelude::*;
use vstd::string::StringSliceAdditionalSpecFns;

use crate::text::{integer_in, parse_integer, ParseError};

verus! {

/// Fuel for a mass alone: a third of it, rounded down, less two, and never negative.
pub open spec fn direct_fuel(mass: int) -> int {
    if mass / 3 - 2 > 0 {
        mass / 3 - 2
    } else {
        0
    }
}

/// Fuel for a mass and for all the fuel that it needs in turn.
pub open spec fn total_fuel(mass: int) -> int
    decreases mass,
{
    if mass <= 0 {
        0
    } else {
        direct_fuel(mass) + total_fuel(direct_fuel(mass))
    }
}

pub proof fn lemma_total_fuel_bounded(mass: int)
    requires
        mass >= 0,
    ensures
        0 <= total_fuel(mass) <= mass,
    decreases mass,
{
    if mass > 0 {
        lemma_total_fuel_bounded(direct_fuel(mass));
    }
}

/// The fuel for `mass` alone.
pub fn direct_fuel_for_mass(mass: i64) -> (r: i64)
    ensures
        r == direct_fuel(mass as int),
{
    if mass < 9 {
        0
    } else {
        mass / 3 - 2
    }
}

/// The fuel for `mass`, counting the fuel that the fuel needs.
pub fn fuel_for_mass(mass: i64) -> (r: i64)
    ensures
        r == total_fuel(mass as int),
    decreases mass,
{
    if mass <= 0 {
        0
    } else {
        let fuel = direct_fuel_for_mass(mass);
        proof {
            lemma_total_fuel_bounded(fuel as int);
        }
        fuel + fuel_for_mass(fuel)
    }
}

/// The mass that a line of text spells.
pub fn parse_mass(mass: &str) -> (r: Result<i64, ParseError>)
    ensures
        match integer_in(mass.spec_bytes(), i64::MIN as int, i64::MAX as int) {
            Some(v) => r == Ok::<i64, ParseError>(v as i64),
            None => r == Err::<i64, ParseError>(ParseError::InvalidInteger),
        },
{
    let b = mass.as_bytes();
    proof {
        assert(b@.subrange(0, b@.len() as int) =~= b@);
    }
    match parse_integer(b, 0, b.len(), i64::MIN, i64::MAX) {
        Some(v) => Ok(v),
        None => Err(ParseError::InvalidInteger),
    }
}

} // verus!
