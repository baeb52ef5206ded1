//! CSS-style font weights.

use vstd::prelude::*;

verus! {

/// CSS-style font weight.
#[derive(Debug, Clone, Copy, PartialEq, Eq, PartialOrd, Ord, Hash, Structural)]
pub enum FontWeight {
    /// Thin (100).
    Thin,
    /// Extra-Light (200).
    ExtraLight,
    /// Light (300).
    Light,
    /// Regular (400).
    Regular,
    /// Medium (500).
    Medium,
    /// Semi-Bold (600).
    SemiBold,
    /// Bold (700).
    Bold,
    /// Extra-Bold (800).
    ExtraBold,
    /// Black (900).
    Black,
}

/// Numeric CSS value of a weight (100 -- 900).
pub open spec fn weight_value(w: FontWeight) -> u16 {
    match w {
        FontWeight::Thin => 100,
        FontWeight::ExtraLight => 200,
        FontWeight::Light => 300,
        FontWeight::Regular => 400,
        FontWeight::Medium => 500,
        FontWeight::SemiBold => 600,
        FontWeight::Bold => 700,
        FontWeight::ExtraBold => 800,
        FontWeight::Black => 900,
    }
}

/// The named weight whose value is nearest to `v`: each name owns the values
/// within 50 below and 49 above its own, and `Black` owns everything from 850 up.
pub open spec fn weight_for_value(v: u16) -> FontWeight {
    if v < 150 {
        FontWeight::Thin
    } else if v < 250 {
        FontWeight::ExtraLight
    } else if v < 350 {
        FontWeight::Light
    } else if v < 450 {
        FontWeight::Regular
    } else if v < 550 {
        FontWeight::Medium
    } else if v < 650 {
        FontWeight::SemiBold
    } else if v < 750 {
        FontWeight::Bold
    } else if v < 850 {
        FontWeight::ExtraBold
    } else {
        FontWeight::Black
    }
}

impl FontWeight {
    /// Numeric value (100 -- 900).
    pub fn value(&self) -> (v: u16)
        ensures
            v == weight_value(*self),
    {
        match self {
            Self::Thin => 100,
            Self::ExtraLight => 200,
            Self::Light => 300,
            Self::Regular => 400,
            Self::Medium => 500,
            Self::SemiBold => 600,
            Self::Bold => 700,
            Self::ExtraBold => 800,
            Self::Black => 900,
        }
    }

    /// Construct from a numeric value, snapping to the nearest named weight.
    pub fn from_value(v: u16) -> (w: Self)
        ensures
            w == weight_for_value(v),
    {
        if v <= 149 {
            Self::Thin
        } else if v <= 249 {
            Self::ExtraLight
        } else if v <= 349 {
            Self::Light
        } else if v <= 449 {
            Self::Regular
        } else if v <= 549 {
            Self::Medium
        } else if v <= 649 {
            Self::SemiBold
        } else if v <= 749 {
            Self::Bold
        } else if v <= 849 {
            Self::ExtraBold
        } else {
            Self::Black
        }
    }

    /// CSS keyword.
    pub fn keyword(&self) -> (k: &'static str)
        ensures
            k@ == (match *self {
                FontWeight::Thin => "thin"@,
                FontWeight::ExtraLight => "extra-light"@,
                FontWeight::Light => "light"@,
                FontWeight::Regular => "normal"@,
                FontWeight::Medium => "medium"@,
                FontWeight::SemiBold => "semi-bold"@,
                FontWeight::Bold => "bold"@,
                FontWeight::ExtraBold => "extra-bold"@,
                FontWeight::Black => "black"@,
            }),
    {
        match self {
            Self::Thin => "thin",
            Self::ExtraLight => "extra-light",
            Self::Light => "light",
            Self::Regular => "normal",
            Self::Medium => "medium",
            Self::SemiBold => "semi-bold",
            Self::Bold => "bold",
            Self::ExtraBold => "extra-bold",
            Self::Black => "black",
        }
    }

    /// Returns `true` for weights >= `SemiBold`.
    pub fn is_bold(&self) -> (b: bool)
        ensures
            b == (weight_value(*self) >= 600),
    {
        self.value() >= 600
    }
}

/// Snapping a named weight's own value gives that weight back.
pub proof fn lemma_from_value_of_value(w: FontWeight)
    ensures
        weight_for_value(weight_value(w)) == w,
{
}

/// `from_value` snaps to the nearest named weight: no named weight is strictly
/// closer to `v` than the one chosen.
pub proof fn lemma_from_value_is_nearest(v: u16, other: FontWeight)
    ensures
        abs_diff(weight_value(weight_for_value(v)) as int, v as int) <= abs_diff(
            weight_value(other) as int,
            v as int,
        ),
{
}

/// Distance between two integers.
pub open spec fn abs_diff(a: int, b: int) -> int {
    if a >= b {
        a - b
    } else {
        b - a
    }
}

} // verus!
