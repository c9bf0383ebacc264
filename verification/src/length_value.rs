//! Lengths in pixels or as parts of a whole.

use vstd::prelude::*;

use crate::geometry::{int_max, int_min, trunc_div};
use crate::placement::{share_pixels, PIXEL_TOLERANCE};
use crate::shares::{floor_div, WHOLE};

verus! {

#[derive(Debug, Clone, Copy, PartialEq, Eq, Structural)]
pub enum LengthUnit {
    Percentage,
    Pixel,
}

/// A length. The amount is counted in parts of a pixel or of the whole, as many as a whole
/// share has.
#[derive(Debug, Clone, Copy, PartialEq, Eq, Structural)]
pub struct LengthValue {
    pub amount: i64,
    pub unit: LengthUnit,
}

impl LengthValue {
    /// The length in pixels of a total, rounded towards zero.
    pub open spec fn px(self, total: int) -> int {
        match self.unit {
            LengthUnit::Percentage => share_pixels(self.amount as int, total),
            LengthUnit::Pixel => int_max(
                i32::MIN as int,
                int_min(trunc_div(self.amount as int, WHOLE as int), i32::MAX as int),
            ),
        }
    }

    /// The length as a share of a total, rounded down.
    pub open spec fn share(self, total: int) -> int {
        match self.unit {
            LengthUnit::Percentage => self.amount as int,
            LengthUnit::Pixel => (self.amount as int) / total,
        }
    }

    pub open spec fn of_px(px: int) -> LengthValue {
        LengthValue { amount: (px * WHOLE) as i64, unit: LengthUnit::Pixel }
    }

    /// A length of some pixels.
    pub fn from_px(px: i32) -> (res: LengthValue)
        ensures
            res == LengthValue::of_px(px as int),
            res.amount == px * WHOLE,
    {
        LengthValue { amount: px as i64 * 1073741824, unit: LengthUnit::Pixel }
    }

    /// The length in pixels of a total.
    pub fn to_px(&self, total: i32) -> (res: i32)
        ensures
            res == self.px(total as int),
    {
        assert(-0x4000_0000_0000_0000_0000_0000 <= self.amount * total
            <= 0x4000_0000_0000_0000_0000_0000) by (nonlinear_arith)
            requires
                -0x8000_0000_0000_0000 <= self.amount <= 0x8000_0000_0000_0000,
                -0x8000_0000 <= total <= 0x8000_0000,
        ;
        let (parts, missing): (i128, i128) = match self.unit {
            LengthUnit::Percentage => (
                self.amount as i128 * total as i128,
                PIXEL_TOLERANCE as i128,
            ),
            LengthUnit::Pixel => (self.amount as i128, 0),
        };
        let px: i128 = if parts >= 0 {
            (parts + missing) / (WHOLE as i128)
        } else {
            -((-parts + missing) / (WHOLE as i128))
        };
        if px > 2147483647 {
            2147483647
        } else if px < -2147483648 {
            -2147483648
        } else {
            px as i32
        }
    }

    /// The length as a share of a total.
    pub fn to_percentage(&self, total: i32) -> (res: i64)
        requires
            total > 0,
        ensures
            res == self.share(total as int),
    {
        match self.unit {
            LengthUnit::Percentage => self.amount,
            LengthUnit::Pixel => {
                let share: i128 = floor_div(self.amount as i128, total as i128);
                proof {
                    let a = self.amount as int;
                    let b = total as int;
                    assert(-0x8000_0000_0000_0000 <= a / b <= 0x7fff_ffff_ffff_ffff)
                        by (nonlinear_arith)
                        requires
                            -0x8000_0000_0000_0000 <= a <= 0x7fff_ffff_ffff_ffff,
                            b >= 1,
                    ;
                }
                share as i64
            },
        }
    }
}

/// Pixels come back as they went in.
pub proof fn pixels_come_back(px: int, total: int)
    requires
        i32::MIN <= px <= i32::MAX,
    ensures
        LengthValue::of_px(px).px(total) == px,
{
}

/// A tile that is given some pixels gets them: as a share of a length and back, they are what they
/// were.
pub proof fn shares_give_pixels_back(px: int, total: int)
    requires
        0 <= px <= i32::MAX,
        0 < total <= PIXEL_TOLERANCE,
    ensures
        share_pixels(LengthValue::of_px(px).share(total), total) == px,
{
    let whole = WHOLE as int;
    let parts = px * whole;
    let share = parts / total;
    assert(LengthValue::of_px(px).share(total) == share);
    assert(0 <= share && parts - total < share * total <= parts) by (nonlinear_arith)
        requires
            share == parts / total,
            0 <= parts,
            0 < total,
    ;
    assert((share * total + PIXEL_TOLERANCE) / whole == px) by (nonlinear_arith)
        requires
            parts == px * whole,
            parts - total < share * total <= parts,
            total <= PIXEL_TOLERANCE,
            PIXEL_TOLERANCE == 65536,
            whole == 1073741824,
    ;
}

/// A percentage of a length is that part of it, to the pixel: it is not more than a pixel short of
/// it and hardly above it. It has the sign of the part.
pub proof fn percentages_are_parts(amount: i64, total: int)
    requires
        -0x8000_0000 <= amount * total / (WHOLE as int) < 0x7fff_ffff,
    ensures
        ({
            let px = LengthValue { amount, unit: LengthUnit::Percentage }.px(total);
            &&& amount * total >= 0 ==> px >= 0 && amount * total - WHOLE < px * WHOLE <= amount
                * total + PIXEL_TOLERANCE
            &&& amount * total < 0 ==> px <= 0 && amount * total - PIXEL_TOLERANCE <= px * WHOLE
                < amount * total + WHOLE
        }),
{
    let parts = amount * total;
    let whole = WHOLE as int;
    let tolerance = PIXEL_TOLERANCE as int;
    if parts >= 0 {
        let q = (parts + tolerance) / whole;
        assert(parts - whole < q * whole && q * whole <= parts + tolerance && q >= 0 && q
            <= parts / whole + 1) by (nonlinear_arith)
            requires
                q == (parts + tolerance) / whole,
                parts >= 0,
                tolerance == 65536,
                whole == 1073741824,
        ;
    } else {
        let q = (-parts + tolerance) / whole;
        assert(-parts - whole < q * whole && q * whole <= -parts + tolerance && q >= 0 && -q
            >= parts / whole - 1) by (nonlinear_arith)
            requires
                q == (-parts + tolerance) / whole,
                parts < 0,
                tolerance == 65536,
                whole == 1073741824,
        ;
        assert((-q) * whole == -(q * whole)) by (nonlinear_arith);
    }
}

/// A share is what a percentage says, and a length in pixels is the share of the total that it
/// takes: it does not take more of it than its pixels, and not a unit less.
pub proof fn lengths_are_shares_of_the_total(value: LengthValue, total: int)
    requires
        total > 0,
    ensures
        value.unit == LengthUnit::Percentage ==> value.share(total) == value.amount,
        value.unit == LengthUnit::Pixel ==> value.amount - total < value.share(total) * total
            <= value.amount,
{
    let a = value.amount as int;
    assert(a - total < (a / total) * total <= a) by (nonlinear_arith)
        requires
            total > 0,
    ;
}

} // verus!
