//! Logo regions of the delogo filter: rectangles and their geometry, the removal
//! methods, and the inpainting neighbourhood.

use vstd::prelude::*;

verus! {

/// Rectangle region for logo specification.
#[derive(Clone, Copy, Debug, PartialEq, Eq)]
pub struct Rectangle {
    /// X coordinate of top-left corner.
    pub x: u32,
    /// Y coordinate of top-left corner.
    pub y: u32,
    /// Width of the rectangle.
    pub width: u32,
    /// Height of the rectangle.
    pub height: u32,
}

/// Whether the right and bottom edges of `r` fit in a `u32`.
pub open spec fn edges_fit(r: Rectangle) -> bool {
    r.x + r.width <= u32::MAX && r.y + r.height <= u32::MAX
}

/// Whether point `(px, py)` lies in `r` (right and bottom edges excluded).
pub open spec fn spec_contains(r: Rectangle, px: int, py: int) -> bool {
    r.x <= px < r.x + r.width && r.y <= py < r.y + r.height
}

/// `a - b`, or 0 where `b` exceeds `a`.
pub open spec fn sat_sub(a: int, b: int) -> int {
    if a >= b {
        a - b
    } else {
        0
    }
}

/// `r` grown by `amount` on every side, its left and top edges stopping at 0.
pub open spec fn spec_expand(r: Rectangle, amount: u32) -> Rectangle {
    Rectangle {
        x: sat_sub(r.x as int, amount as int) as u32,
        y: sat_sub(r.y as int, amount as int) as u32,
        width: (r.width + 2 * amount) as u32,
        height: (r.height + 2 * amount) as u32,
    }
}

/// The least of two integers.
pub open spec fn min(a: int, b: int) -> int {
    if a <= b {
        a
    } else {
        b
    }
}

/// `r` clamped to a `max_width` by `max_height` frame: the corner is moved to the
/// last column and row at most, and the size cut to what remains of the frame.
pub open spec fn spec_clamp(r: Rectangle, max_width: u32, max_height: u32) -> Rectangle {
    let x = min(r.x as int, sat_sub(max_width as int, 1));
    let y = min(r.y as int, sat_sub(max_height as int, 1));
    Rectangle {
        x: x as u32,
        y: y as u32,
        width: min(r.width as int, sat_sub(max_width as int, x)) as u32,
        height: min(r.height as int, sat_sub(max_height as int, y)) as u32,
    }
}

impl Rectangle {
    /// Create a new rectangle.
    pub fn new(x: u32, y: u32, width: u32, height: u32) -> (r: Self)
        ensures
            r == (Rectangle { x, y, width, height }),
    {
        Rectangle { x, y, width, height }
    }

    /// Get the right edge coordinate.
    pub fn right(&self) -> (r: u32)
        requires
            self.x + self.width <= u32::MAX,
        ensures
            r == self.x + self.width,
    {
        self.x + self.width
    }

    /// Get the bottom edge coordinate.
    pub fn bottom(&self) -> (b: u32)
        requires
            self.y + self.height <= u32::MAX,
        ensures
            b == self.y + self.height,
    {
        self.y + self.height
    }

    /// Check if a point is inside the rectangle.
    pub fn contains(&self, x: u32, y: u32) -> (b: bool)
        requires
            edges_fit(*self),
        ensures
            b == spec_contains(*self, x as int, y as int),
    {
        x >= self.x && x < self.right() && y >= self.y && y < self.bottom()
    }

    /// Expand the rectangle by a given amount.
    pub fn expand(&self, amount: u32) -> (r: Self)
        requires
            self.width + 2 * amount <= u32::MAX,
            self.height + 2 * amount <= u32::MAX,
        ensures
            r == spec_expand(*self, amount),
    {
        Rectangle {
            x: self.x.saturating_sub(amount),
            y: self.y.saturating_sub(amount),
            width: self.width + amount * 2,
            height: self.height + amount * 2,
        }
    }

    /// Clamp the rectangle to fit within given dimensions.
    pub fn clamp(&self, max_width: u32, max_height: u32) -> (r: Self)
        ensures
            r == spec_clamp(*self, max_width, max_height),
    {
        let x = if self.x <= max_width.saturating_sub(1) {
            self.x
        } else {
            max_width.saturating_sub(1)
        };
        let y = if self.y <= max_height.saturating_sub(1) {
            self.y
        } else {
            max_height.saturating_sub(1)
        };
        let width = if self.width <= max_width.saturating_sub(x) {
            self.width
        } else {
            max_width.saturating_sub(x)
        };
        let height = if self.height <= max_height.saturating_sub(y) {
            self.height
        } else {
            max_height.saturating_sub(y)
        };
        Rectangle { x, y, width, height }
    }

    /// Get the area of the rectangle.
    pub fn area(&self) -> (a: u32)
        requires
            self.width * self.height <= u32::MAX,
        ensures
            a == self.width * self.height,
    {
        self.width * self.height
    }

    /// Scale the rectangle for chroma planes.
    pub fn scale_for_chroma(&self, h_ratio: u32, v_ratio: u32) -> (r: Self)
        requires
            h_ratio > 0,
            v_ratio > 0,
        ensures
            r == (Rectangle {
                x: self.x / h_ratio,
                y: self.y / v_ratio,
                width: self.width / h_ratio,
                height: self.height / v_ratio,
            }),
    {
        Rectangle {
            x: self.x / h_ratio,
            y: self.y / v_ratio,
            width: self.width / h_ratio,
            height: self.height / v_ratio,
        }
    }
}

/// A clamped rectangle lies inside its frame: for a frame of at least one pixel
/// each way, its corner is a pixel of the frame and its right and bottom edges do
/// not pass the frame's.
pub proof fn lemma_clamp_within(r: Rectangle, max_width: u32, max_height: u32)
    requires
        max_width > 0,
        max_height > 0,
    ensures
        ({
            let c = spec_clamp(r, max_width, max_height);
            &&& c.x < max_width
            &&& c.y < max_height
            &&& c.x + c.width <= max_width
            &&& c.y + c.height <= max_height
            &&& c.width <= r.width
            &&& c.height <= r.height
        }),
{
}

/// Expanding a rectangle keeps every point it contained.
pub proof fn lemma_expand_keeps_points(r: Rectangle, amount: u32, px: int, py: int)
    requires
        r.width + 2 * amount <= u32::MAX,
        r.height + 2 * amount <= u32::MAX,
        spec_contains(r, px, py),
    ensures
        spec_contains(spec_expand(r, amount), px, py),
{
}

/// Logo removal method.
#[derive(Clone, Copy, Debug, PartialEq, Eq)]
pub enum DelogoMethod {
    /// Simple Gaussian blur.
    Blur,
    /// PDE-based inpainting (Navier-Stokes).
    Inpainting,
    /// Fast marching method inpainting.
    FastMarching,
    /// Exemplar-based inpainting (patch matching).
    ExemplarBased,
    /// Patch-based texture synthesis.
    TextureSynthesis,
    /// Edge-aware interpolation.
    EdgeAware,
    /// Temporal interpolation using neighboring frames.
    TemporalInterpolation,
}

impl Default for DelogoMethod {
    fn default() -> (m: Self)
        ensures
            m == DelogoMethod::Inpainting,
    {
        DelogoMethod::Inpainting
    }
}

/// Telea's fast marching inpainting.
pub struct TeleaInpainting {
    /// Neighborhood radius.
    radius: usize,
}

impl TeleaInpainting {
    /// The neighbourhood radius.
    pub closed spec fn spec_radius(&self) -> nat {
        self.radius as nat
    }

    /// Create a new Telea inpainter.
    pub fn new(radius: usize) -> (t: Self)
        ensures
            t.spec_radius() == radius,
    {
        TeleaInpainting { radius }
    }

    /// The neighbourhood radius.
    pub fn radius(&self) -> (r: usize)
        ensures
            r == self.spec_radius(),
    {
        self.radius
    }

    /// The known neighbours of pixel `(x, y)` in a `width` by `height` plane, within
    /// the radius in both directions, the pixel itself aside: row by row from the
    /// top and left to right, the squared distance and the sample of each neighbour
    /// inside the plane that the mask does not cover (a sample past the data reads
    /// as 128, a mask entry past the mask as uncovered). The distances stay within
    /// an `i32` and the pixel indices within a `u32`.
    pub fn known_neighbours(
        &self,
        data: &[u8],
        mask: &[bool],
        x: u32,
        y: u32,
        width: u32,
        height: u32,
    ) -> (ns: Vec<(u32, u8)>)
        requires
            self.spec_radius() <= 32767,
            x + self.spec_radius() <= i32::MAX,
            y + self.spec_radius() <= i32::MAX,
            width <= i32::MAX,
            height <= i32::MAX,
            width * height <= u32::MAX,
        ensures
            ns@ == grid_neighbours(
                data@,
                mask@,
                x as int,
                y as int,
                width as int,
                height as int,
                self.spec_radius() as int,
                (2 * self.spec_radius() + 1) as nat,
            ),
    {
        let r: i64 = self.radius as i64;
        let side: i64 = 2 * r + 1;
        let mut ns: Vec<(u32, u8)> = Vec::new();
        let mut i: i64 = 0;
        while i < side
            invariant
                r == self.spec_radius(),
                r <= 32767,
                side == 2 * r + 1,
                0 <= i <= side,
                x + r <= i32::MAX,
                y + r <= i32::MAX,
                width <= i32::MAX,
                height <= i32::MAX,
                width * height <= u32::MAX,
                ns@ == grid_neighbours(data@, mask@, x as int, y as int, width as int, height as int, r as int, i as nat),
            decreases side - i,
        {
            let dy = i - r;
            let ghost before = ns@;
            let mut j: i64 = 0;
            while j < side
                invariant
                    r <= 32767,
                    side == 2 * r + 1,
                    0 <= j <= side,
                    -r <= dy <= r,
                    x + r <= i32::MAX,
                    y + r <= i32::MAX,
                    width <= i32::MAX,
                    height <= i32::MAX,
                    width * height <= u32::MAX,
                    ns@ == before + row_neighbours(data@, mask@, x as int, y as int, width as int, height as int, r as int, dy as int, j as nat),
                decreases side - j,
            {
                let dx = j - r;
                let ghost prefix = row_neighbours(data@, mask@, x as int, y as int, width as int, height as int, r as int, dy as int, j as nat);
                let nx = x as i64 + dx;
                let ny = y as i64 + dy;
                if !(dx == 0 && dy == 0) && 0 <= nx && nx < width as i64 && 0 <= ny && ny < height as i64 {
                    proof {
                        assert(ny * width + nx <= (height - 1) * width + width - 1) by (nonlinear_arith)
                            requires
                                0 <= ny < height,
                                0 <= nx < width,
                        ;
                        assert((height - 1) * width + width - 1 == width * height - 1) by (nonlinear_arith);
                    }
                    let idx = (ny as u64 * width as u64 + nx as u64) as usize;
                    let covered = idx < mask.len() && mask[idx];
                    if !covered {
                        let sample = if idx < data.len() {
                            data[idx]
                        } else {
                            128
                        };
                        proof {
                            assert(dx * dx <= 32767 * 32767 && dy * dy <= 32767 * 32767) by (nonlinear_arith)
                                requires
                                    -32767 <= dx <= 32767,
                                    -32767 <= dy <= 32767,
                            ;
                            assert(dx * dx >= 0 && dy * dy >= 0) by (nonlinear_arith);
                        }
                        let d = (dx * dx + dy * dy) as u32;
                        ns.push((d, sample));
                        proof {
                            assert(ns@ =~= before + prefix.push((d, sample)));
                        }
                    }
                }
                j += 1;
            }
            i += 1;
        }
        ns
    }
}

/// The known neighbour at offset `(dx, dy)` from pixel `(x, y)`, if any: its squared
/// distance and its sample.
pub open spec fn neighbour_at(
    data: Seq<u8>,
    mask: Seq<bool>,
    x: int,
    y: int,
    w: int,
    h: int,
    dx: int,
    dy: int,
) -> Option<(u32, u8)> {
    let nx = x + dx;
    let ny = y + dy;
    let idx = ny * w + nx;
    if (dx == 0 && dy == 0) || !(0 <= nx < w && 0 <= ny < h) {
        None
    } else if idx < mask.len() && mask[idx] {
        None
    } else {
        Some(((dx * dx + dy * dy) as u32, if idx < data.len() { data[idx] } else { 128u8 }))
    }
}

/// The known neighbours in row `dy` of the neighbourhood of radius `r`, for the
/// first `cols` offsets `dx` from `-r` on.
pub open spec fn row_neighbours(
    data: Seq<u8>,
    mask: Seq<bool>,
    x: int,
    y: int,
    w: int,
    h: int,
    r: int,
    dy: int,
    cols: nat,
) -> Seq<(u32, u8)>
    decreases cols,
{
    if cols == 0 {
        Seq::empty()
    } else {
        let prev = row_neighbours(data, mask, x, y, w, h, r, dy, (cols - 1) as nat);
        match neighbour_at(data, mask, x, y, w, h, cols - 1 - r, dy) {
            Some(n) => prev.push(n),
            None => prev,
        }
    }
}

/// The known neighbours in the first `rows` rows of the neighbourhood of radius `r`
/// (from `dy == -r` on), row by row.
pub open spec fn grid_neighbours(
    data: Seq<u8>,
    mask: Seq<bool>,
    x: int,
    y: int,
    w: int,
    h: int,
    r: int,
    rows: nat,
) -> Seq<(u32, u8)>
    decreases rows,
{
    if rows == 0 {
        Seq::empty()
    } else {
        grid_neighbours(data, mask, x, y, w, h, r, (rows - 1) as nat) + row_neighbours(
            data,
            mask,
            x,
            y,
            w,
            h,
            r,
            rows - 1 - r,
            (2 * r + 1) as nat,
        )
    }
}

} // verus!
