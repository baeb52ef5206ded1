//! The SVG renderer handle.

use vstd::prelude::*;

verus! {

/// Builds and serialises SVG documents to SVG markup.
#[derive(Debug, Default, Clone, Copy, PartialEq, Eq)]
pub struct SvgRenderer;

impl SvgRenderer {
    /// Creates a new renderer.
    pub fn new() -> (r: Self)
        ensures
            r == SvgRenderer,
    {
        SvgRenderer
    }
}

} // verus!
