//! Alignment, overflow and line-breaking modes of the broadcast text layout engine.

use vstd::prelude::*;

verus! {

/// Horizontal text alignment.
#[derive(Clone, Copy, Debug, PartialEq, Eq, Structural)]
pub enum TextAlign {
    /// Left-aligned text.
    Left,
    /// Center-aligned text.
    Center,
    /// Right-aligned text.
    Right,
    /// Justified text (both edges aligned).
    Justify,
}

impl TextAlign {
    /// The lower-case name of the alignment, as it is displayed.
    pub fn to_string(&self) -> (s: String)
        ensures
            s@ == (match *self {
                TextAlign::Left => "left"@,
                TextAlign::Center => "center"@,
                TextAlign::Right => "right"@,
                TextAlign::Justify => "justify"@,
            }),
    {
        match self {
            Self::Left => "left".to_owned(),
            Self::Center => "center".to_owned(),
            Self::Right => "right".to_owned(),
            Self::Justify => "justify".to_owned(),
        }
    }
}

impl Default for TextAlign {
    fn default() -> (a: Self)
        ensures
            a == TextAlign::Left,
    {
        TextAlign::Left
    }
}

/// Vertical text alignment within a bounding box.
#[derive(Clone, Copy, Debug, PartialEq, Eq, Structural)]
pub enum VerticalAlign {
    /// Top-aligned text.
    Top,
    /// Middle-aligned text.
    Middle,
    /// Bottom-aligned text.
    Bottom,
}

impl Default for VerticalAlign {
    fn default() -> (a: Self)
        ensures
            a == VerticalAlign::Top,
    {
        VerticalAlign::Top
    }
}

/// Text overflow behavior when text exceeds the bounding box.
#[derive(Clone, Copy, Debug, PartialEq, Eq, Structural)]
pub enum TextOverflow {
    /// Clip text at the boundary.
    Clip,
    /// Add ellipsis (...) at the end.
    Ellipsis,
    /// Allow text to overflow.
    Visible,
    /// Shrink font size to fit.
    ShrinkToFit,
}

impl Default for TextOverflow {
    fn default() -> (o: Self)
        ensures
            o == TextOverflow::Clip,
    {
        TextOverflow::Clip
    }
}

/// Line break mode for text wrapping.
#[derive(Clone, Copy, Debug, PartialEq, Eq, Structural)]
pub enum LineBreakMode {
    /// Break at word boundaries.
    WordWrap,
    /// Break at character boundaries.
    CharWrap,
    /// No wrapping (single line).
    NoWrap,
    /// Break at word boundaries, fall back to character wrap if word is too long.
    WordCharWrap,
}

impl Default for LineBreakMode {
    fn default() -> (m: Self)
        ensures
            m == LineBreakMode::WordWrap,
    {
        LineBreakMode::WordWrap
    }
}

} // verus!
