//! Lengths, directions and what the heuristics read of a road's center line.
//!
//! All quantities are exact fixed-point numbers, so that every comparison with a threshold
//! has one answer.

use vstd::prelude::*;

verus! {

/// The number of length units in one metre.
pub const UNITS_PER_METER: u64 = 10_000;

/// The number of angle units in one degree.
pub const UNITS_PER_DEGREE: u32 = 1_000;

/// The number of angle units in a full turn.
pub const FULL_TURN: u32 = 360_000;

/// The number of angle units in half a turn.
pub const HALF_TURN: u32 = 180_000;

/// A length that is not negative, in ten-thousandths of a metre.
#[derive(Clone, Copy, Debug, PartialEq, Eq, Structural, PartialOrd, Ord, Hash)]
pub struct Distance {
    pub units: u64,
}

impl View for Distance {
    type V = nat;

    /// The length in ten-thousandths of a metre.
    open spec fn view(&self) -> nat {
        self.units as nat
    }
}

impl Distance {
    /// The length of `units` ten-thousandths of a metre.
    pub fn from_units(units: u64) -> (d: Distance)
        ensures
            d == (Distance { units }),
    {
        Distance { units }
    }

    /// The length of `whole` metres.
    pub fn meters(whole: u32) -> (d: Distance)
        ensures
            d@ == whole * UNITS_PER_METER,
    {
        assert(whole * UNITS_PER_METER <= u64::MAX) by (nonlinear_arith)
            requires
                whole <= u32::MAX,
                UNITS_PER_METER == 10_000,
        ;
        let wide: u64 = whole as u64;
        Distance { units: wide * UNITS_PER_METER }
    }

    /// The length in ten-thousandths of a metre.
    pub fn to_units(&self) -> (units: u64)
        ensures
            units == self@,
    {
        self.units
    }

    /// Whether `self` is strictly shorter than `other`.
    pub fn shorter_than(&self, other: &Distance) -> (b: bool)
        ensures
            b == (self@ < other@),
    {
        self.units < other.units
    }

    /// Whether `self` is at most as long as `other`.
    pub fn at_most(&self, other: &Distance) -> (b: bool)
        ensures
            b == (self@ <= other@),
    {
        self.units <= other.units
    }
}

/// A direction in the plane, in thousandths of a degree and less than a full turn.
#[derive(Clone, Copy, Debug, PartialEq, Eq, Structural, Hash)]
pub struct Angle {
    units: u32,
}

/// How far a turn from direction `b` to direction `a` is from no turn at all, in thousandths
/// of a degree: the shorter way round, so between 0 and half a turn.
pub open spec fn rotation_between(a: nat, b: nat) -> nat {
    let shifted = ((a + 3 * HALF_TURN - b) % (FULL_TURN as int)) - HALF_TURN;
    if shifted < 0 {
        (-shifted) as nat
    } else {
        shifted as nat
    }
}

/// The direction opposite to `a`.
pub open spec fn opposite_of(a: nat) -> nat {
    ((a + HALF_TURN) % (FULL_TURN as int)) as nat
}

/// Whether directions `a` and `b` differ by less than `within`.
pub open spec fn nearly_equal(a: nat, b: nat, within: nat) -> bool {
    rotation_between(a, b) < within
}

/// Whether the lines of directions `a` and `b` are parallel to within `within`, whichever
/// way along its line each of them points.
pub open spec fn nearly_parallel_angles(a: nat, b: nat, within: nat) -> bool {
    nearly_equal(a, b, within) || nearly_equal(opposite_of(a), b, within)
}

impl View for Angle {
    type V = nat;

    /// The direction in thousandths of a degree.
    open spec fn view(&self) -> nat {
        self.units() as nat
    }
}

impl Angle {
    /// The direction in thousandths of a degree, as the machine holds it.
    pub closed spec fn units(self) -> u32 {
        self.units
    }

    #[verifier::type_invariant]
    spec fn below_full_turn(self) -> bool {
        self.units < FULL_TURN
    }

    /// The direction of `units` thousandths of a degree, full turns left out.
    pub fn from_units(units: u32) -> (a: Angle)
        ensures
            a@ == units % FULL_TURN,
    {
        Angle { units: units % FULL_TURN }
    }

    /// The direction of `whole` degrees, full turns left out.
    pub fn degrees(whole: u16) -> (a: Angle)
        ensures
            a@ == (whole * UNITS_PER_DEGREE) % (FULL_TURN as int),
    {
        assert(whole * UNITS_PER_DEGREE <= u32::MAX) by (nonlinear_arith)
            requires
                whole <= u16::MAX,
                UNITS_PER_DEGREE == 1_000,
        ;
        let wide: u32 = whole as u32;
        Angle { units: (wide * UNITS_PER_DEGREE) % FULL_TURN }
    }

    /// The direction in thousandths of a degree.
    pub fn to_units(&self) -> (units: u32)
        ensures
            units == self@,
    {
        self.units
    }

    /// The opposite direction.
    pub fn opposite(&self) -> (a: Angle)
        ensures
            a@ == opposite_of(self@),
    {
        proof {
            use_type_invariant(self);
        }
        Angle { units: (self.units + HALF_TURN) % FULL_TURN }
    }

    /// Whether `self` and `other` differ by less than `within` thousandths of a degree.
    pub fn approx_eq(&self, other: &Angle, within: u32) -> (b: bool)
        ensures
            b == nearly_equal(self@, other@, within as nat),
    {
        proof {
            use_type_invariant(self);
            use_type_invariant(other);
        }
        let shifted: u32 = (self.units + 3 * HALF_TURN - other.units) % FULL_TURN;
        let rotation: u32 = if shifted < HALF_TURN {
            HALF_TURN - shifted
        } else {
            shifted - HALF_TURN
        };
        rotation < within
    }

    /// Whether the lines of directions `self` and `other` are parallel to within `within`
    /// thousandths of a degree.
    pub fn approx_parallel(&self, other: &Angle, within: u32) -> (b: bool)
        ensures
            b == nearly_parallel_angles(self@, other@, within as nat),
    {
        self.approx_eq(other, within) || self.opposite().approx_eq(other, within)
    }
}

/// What the heuristics read of a road's trimmed center line: how long it is, and in which
/// direction its first and its last segment run.
#[derive(Clone, Copy, Debug, PartialEq, Eq, Structural, Hash)]
pub struct CenterLine {
    pub length: Distance,
    pub first_angle: Angle,
    pub last_angle: Angle,
}

impl CenterLine {
    /// The center line of the given length whose segments run in the given directions.
    pub fn new(length: Distance, first_angle: Angle, last_angle: Angle) -> (line: CenterLine)
        ensures
            line == (CenterLine { length, first_angle, last_angle }),
    {
        CenterLine { length, first_angle, last_angle }
    }

    /// A straight center line of the given length that runs in direction `angle`.
    pub fn straight(length: Distance, angle: Angle) -> (line: CenterLine)
        ensures
            line == (CenterLine { length, first_angle: angle, last_angle: angle }),
    {
        CenterLine { length, first_angle: angle, last_angle: angle }
    }

    /// The length of the line.
    pub fn length(&self) -> (d: Distance)
        ensures
            d == self.length,
    {
        self.length
    }
}

} // verus!
