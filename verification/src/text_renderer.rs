//! Text alignment and font weight descriptors for broadcast text rendering.

use vstd::prelude::*;

verus! {

/// Horizontal or vertical alignment of rendered text.
#[derive(Debug, Clone, Copy, PartialEq, Eq, Structural)]
pub enum TextAlignment {
    /// Left-align text within the bounding box.
    Left,
    /// Centre-align text horizontally.
    Center,
    /// Right-align text.
    Right,
    /// Justify text to both edges.
    Justify,
    /// Align text to the top of its container.
    Top,
    /// Align text to the vertical centre of its container.
    Middle,
    /// Align text to the bottom of its container.
    Bottom,
}

/// The alignment works on the horizontal axis.
pub open spec fn spec_is_horizontal(a: TextAlignment) -> bool {
    a == TextAlignment::Left || a == TextAlignment::Center || a == TextAlignment::Right || a
        == TextAlignment::Justify
}

impl TextAlignment {
    /// Returns `true` for alignments that operate on the horizontal axis.
    pub fn is_horizontal(&self) -> (b: bool)
        ensures
            b == spec_is_horizontal(*self),
    {
        match self {
            TextAlignment::Left | TextAlignment::Center | TextAlignment::Right
            | TextAlignment::Justify => true,
            _ => false,
        }
    }

    /// Returns `true` for alignments that operate on the vertical axis.
    pub fn is_vertical(&self) -> (b: bool)
        ensures
            b == !spec_is_horizontal(*self),
    {
        !self.is_horizontal()
    }
}

/// Font weight descriptor.
#[derive(Debug, Clone, Copy, PartialEq, Eq, Structural)]
pub enum FontWeight {
    /// Thin (100).
    Thin,
    /// Extra-light (200).
    ExtraLight,
    /// Light (300).
    Light,
    /// Regular (400).
    Regular,
    /// Medium (500).
    Medium,
    /// Semi-bold (600).
    SemiBold,
    /// Bold (700).
    Bold,
    /// Extra-bold (800).
    ExtraBold,
    /// Black (900).
    Black,
}

/// Numeric CSS-style weight value.
pub open spec fn spec_numeric_value(w: FontWeight) -> u16 {
    match w {
        FontWeight::Thin => 100,
        FontWeight::ExtraLight => 200,
        FontWeight::Light => 300,
        FontWeight::Regular => 400,
        FontWeight::Medium => 500,
        FontWeight::SemiBold => 600,
        FontWeight::Bold => 700,
        FontWeight::ExtraBold => 800,
        FontWeight::Black => 900,
    }
}

impl FontWeight {
    /// Returns `true` for weights ≥ Bold (700).
    pub fn is_bold(&self) -> (b: bool)
        ensures
            b == (spec_numeric_value(*self) >= 700),
    {
        match self {
            FontWeight::Bold | FontWeight::ExtraBold | FontWeight::Black => true,
            _ => false,
        }
    }

    /// Numeric CSS-style weight value.
    pub fn numeric_value(&self) -> (v: u16)
        ensures
            v == spec_numeric_value(*self),
    {
        match self {
            FontWeight::Thin => 100,
            FontWeight::ExtraLight => 200,
            FontWeight::Light => 300,
            FontWeight::Regular => 400,
            FontWeight::Medium => 500,
            FontWeight::SemiBold => 600,
            FontWeight::Bold => 700,
            FontWeight::ExtraBold => 800,
            FontWeight::Black => 900,
        }
    }
}

} // verus!
