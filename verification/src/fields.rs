//! Field operations of inverse telecine on a picture plane given row by row:
//! weaving the fields of two frames, smoothing an orphan field, block-matching
//! motion search and shifting a plane by a motion vector, the combing and field
//! visualisations, and the integer totals behind the field-match, field-metric,
//! combing and scene-change measures.
//!
//! A plane is read through its rows: `rows[y]` holds the bytes of row `y` (as the
//! plane hands them out), and a byte past the end of a row reads as 0.

use vstd::prelude::*;

verus! {

/// The rows of a plane as byte sequences.
pub open spec fn rows_view(rows: Seq<Vec<u8>>) -> Seq<Seq<u8>> {
    rows.map_values(|r: Vec<u8>| r@)
}

/// Byte `x` of row `y`, or 0 past the end of the row.
pub open spec fn px(rows: Seq<Seq<u8>>, y: int, x: int) -> int {
    if 0 <= x < rows[y].len() {
        rows[y][x] as int
    } else {
        0
    }
}

/// The `w` by `h` image whose pixel `(x, y)` is `f(y, x)`, row by row.
pub open spec fn image(w: nat, h: nat, f: spec_fn(int, int) -> u8) -> Seq<u8> {
    Seq::new(w * h, |i: int| f(i / (w as int), i % (w as int)))
}

proof fn lemma_pixel_position(w: int, y: int, x: int)
    requires
        0 <= x < w,
        0 <= y,
    ensures
        (y * w + x) / w == y,
        (y * w + x) % w == x,
{
    vstd::arithmetic::div_mod::lemma_fundamental_div_mod_converse(y * w + x, w, y, x);
}

/// Byte `x` of a row, or 0 past its end.
fn byte_at(row: &Vec<u8>, x: usize) -> (v: u8)
    ensures
        v as int == (if x < row@.len() { row@[x as int] as int } else { 0 }),
{
    if x < row.len() {
        row[x]
    } else {
        0
    }
}

/// Weaving: row `y` of the result comes from the first frame when `y` has the
/// parity of `field1`, from the second otherwise.
pub open spec fn weave_pixel(rows1: Seq<Seq<u8>>, rows2: Seq<Seq<u8>>, field1: u8, y: int, x: int) -> u8 {
    (if y % 2 == field1 as int {
        px(rows1, y, x)
    } else {
        px(rows2, y, x)
    }) as u8
}

/// Combine the fields of two frames into one `width` by `height` plane: even or odd
/// rows (as `field1` says) from the first frame, the others from the second.
pub fn weave_fields(rows1: &Vec<Vec<u8>>, rows2: &Vec<Vec<u8>>, width: usize, height: usize, field1: u8) -> (out: Vec<u8>)
    requires
        rows1@.len() >= height,
        rows2@.len() >= height,
        width * height <= usize::MAX,
    ensures
        out@ == image(
            width as nat,
            height as nat,
            |y: int, x: int| weave_pixel(rows_view(rows1@), rows_view(rows2@), field1, y, x),
        ),
{
    let ghost r1 = rows_view(rows1@);
    let ghost r2 = rows_view(rows2@);
    let ghost f = |y: int, x: int| weave_pixel(r1, r2, field1, y, x);
    let mut out: Vec<u8> = Vec::new();
    let mut y: usize = 0;
    while y < height
        invariant
            y <= height,
            rows1@.len() >= height,
            rows2@.len() >= height,
            width * height <= usize::MAX,
            r1 == rows_view(rows1@),
            r2 == rows_view(rows2@),
            f == (|y: int, x: int| weave_pixel(r1, r2, field1, y, x)),
            out@.len() == y * width,
            forall|i: int| 0 <= i < out@.len() ==> #[trigger] out@[i] == f(i / (width as int), i % (width as int)),
        decreases height - y,
    {
        let use_first = (y % 2) == field1 as usize;
        let row = if use_first {
            &rows1[y]
        } else {
            &rows2[y]
        };
        let mut x: usize = 0;
        while x < width
            invariant
                y < height,
                x <= width,
                rows1@.len() >= height,
                rows2@.len() >= height,
                width * height <= usize::MAX,
                r1 == rows_view(rows1@),
                r2 == rows_view(rows2@),
                f == (|y: int, x: int| weave_pixel(r1, r2, field1, y, x)),
                use_first == (y % 2 == field1 as int),
                row@ == (if use_first { r1[y as int] } else { r2[y as int] }),
                out@.len() == y * width + x,
                forall|i: int| 0 <= i < out@.len() ==> #[trigger] out@[i] == f(i / (width as int), i % (width as int)),
            decreases width - x,
        {
            let v = byte_at(row, x);
            proof {
                lemma_pixel_position(width as int, y as int, x as int);
            }
            out.push(v);
            x += 1;
        }
        proof {
            assert(y * width + width == (y + 1) * width) by (nonlinear_arith);
        }
        y += 1;
    }
    proof {
        assert(height * width == width * height) by (nonlinear_arith);
        assert(out@ =~= image(width as nat, height as nat, f));
    }
    out
}

/// Smoothing of an orphan field: the first and last rows are kept, every other pixel
/// becomes `(above + 2 * pixel + below) / 4`.
pub open spec fn orphan_pixel(rows: Seq<Seq<u8>>, h: int, y: int, x: int) -> u8 {
    (if y == 0 || y == h - 1 {
        px(rows, y, x)
    } else {
        (px(rows, y - 1, x) + 2 * px(rows, y, x) + px(rows, y + 1, x)) / 4
    }) as u8
}

/// Deinterlace a field that has no match by blending each inner row with its
/// neighbours (weights 1, 2, 1).
pub fn blend_orphan_field(rows: &Vec<Vec<u8>>, width: usize, height: usize) -> (out: Vec<u8>)
    requires
        rows@.len() >= height,
        width * height <= usize::MAX,
    ensures
        out@ == image(width as nat, height as nat, |y: int, x: int| orphan_pixel(rows_view(rows@), height as int, y, x)),
{
    let ghost r = rows_view(rows@);
    let ghost f = |y: int, x: int| orphan_pixel(r, height as int, y, x);
    let mut out: Vec<u8> = Vec::new();
    let mut y: usize = 0;
    while y < height
        invariant
            y <= height,
            rows@.len() >= height,
            width * height <= usize::MAX,
            r == rows_view(rows@),
            f == (|y: int, x: int| orphan_pixel(r, height as int, y, x)),
            out@.len() == y * width,
            forall|i: int| 0 <= i < out@.len() ==> #[trigger] out@[i] == f(i / (width as int), i % (width as int)),
        decreases height - y,
    {
        let edge = y == 0 || y == height - 1;
        let mut x: usize = 0;
        while x < width
            invariant
                y < height,
                x <= width,
                rows@.len() >= height,
                width * height <= usize::MAX,
                r == rows_view(rows@),
                f == (|y: int, x: int| orphan_pixel(r, height as int, y, x)),
                edge == (y == 0 || y == height - 1),
                out@.len() == y * width + x,
                forall|i: int| 0 <= i < out@.len() ==> #[trigger] out@[i] == f(i / (width as int), i % (width as int)),
            decreases width - x,
        {
            let v: u8 = if edge {
                byte_at(&rows[y], x)
            } else {
                let prev = byte_at(&rows[y - 1], x) as u16;
                let curr = byte_at(&rows[y], x) as u16;
                let next = byte_at(&rows[y + 1], x) as u16;
                ((prev + curr * 2 + next) / 4) as u8
            };
            proof {
                lemma_pixel_position(width as int, y as int, x as int);
            }
            out.push(v);
            x += 1;
        }
        proof {
            assert(y * width + width == (y + 1) * width) by (nonlinear_arith);
        }
        y += 1;
    }
    proof {
        assert(height * width == width * height) by (nonlinear_arith);
        assert(out@ =~= image(width as nat, height as nat, f));
    }
    out
}

/// `v` limited to `lo..=hi`.
pub open spec fn clamp_int(v: int, lo: int, hi: int) -> int {
    if v < lo {
        lo
    } else if v > hi {
        hi
    } else {
        v
    }
}

/// Motion compensation: pixel `(x, y)` comes from `(x + mvx, y + mvy)`, clamped to
/// the plane.
pub open spec fn shifted_pixel(rows: Seq<Seq<u8>>, w: int, h: int, mvx: int, mvy: int, y: int, x: int) -> u8 {
    px(rows, clamp_int(y + mvy, 0, h - 1), clamp_int(x + mvx, 0, w - 1)) as u8
}

/// The plane shifted by a motion vector: each pixel is read `(mvx, mvy)` away, the
/// position clamped to the plane's edges.
pub fn shift_plane(rows: &Vec<Vec<u8>>, width: usize, height: usize, mvx: i32, mvy: i32) -> (out: Vec<u8>)
    requires
        rows@.len() >= height,
        width * height <= usize::MAX,
        width > 0 && height > 0 ==> {
            &&& width <= i32::MAX
            &&& height <= i32::MAX
            &&& width - 1 + mvx <= i32::MAX
            &&& height - 1 + mvy <= i32::MAX
        },
    ensures
        out@ == image(
            width as nat,
            height as nat,
            |y: int, x: int| shifted_pixel(rows_view(rows@), width as int, height as int, mvx as int, mvy as int, y, x),
        ),
{
    let ghost r = rows_view(rows@);
    let ghost f = |y: int, x: int| shifted_pixel(r, width as int, height as int, mvx as int, mvy as int, y, x);
    if width == 0 || height == 0 {
        proof {
            assert(width * height == 0) by (nonlinear_arith)
                requires
                    width == 0 || height == 0,
            ;
            assert(image(width as nat, height as nat, f) =~= Seq::<u8>::empty());
        }
        return Vec::new();
    }
    let mut out: Vec<u8> = Vec::new();
    let mut y: usize = 0;
    while y < height
        invariant
            y <= height,
            rows@.len() >= height,
            width * height <= usize::MAX,
            0 < width <= i32::MAX,
            0 < height <= i32::MAX,
            width - 1 + mvx <= i32::MAX,
            height - 1 + mvy <= i32::MAX,
            r == rows_view(rows@),
            f == (|y: int, x: int| shifted_pixel(r, width as int, height as int, mvx as int, mvy as int, y, x)),
            out@.len() == y * width,
            forall|i: int| 0 <= i < out@.len() ==> #[trigger] out@[i] == f(i / (width as int), i % (width as int)),
        decreases height - y,
    {
        let sy = y as i64 + mvy as i64;
        let src_y: usize = if sy < 0 {
            0
        } else if sy > height as i64 - 1 {
            height - 1
        } else {
            sy as usize
        };
        let mut x: usize = 0;
        while x < width
            invariant
                y < height,
                x <= width,
                rows@.len() >= height,
                width * height <= usize::MAX,
                0 < width <= i32::MAX,
                width - 1 + mvx <= i32::MAX,
                r == rows_view(rows@),
                f == (|y: int, x: int| shifted_pixel(r, width as int, height as int, mvx as int, mvy as int, y, x)),
                src_y as int == clamp_int(y + mvy, 0, height - 1),
                src_y < height,
                out@.len() == y * width + x,
                forall|i: int| 0 <= i < out@.len() ==> #[trigger] out@[i] == f(i / (width as int), i % (width as int)),
            decreases width - x,
        {
            let sx = x as i64 + mvx as i64;
            let src_x: usize = if sx < 0 {
                0
            } else if sx > width as i64 - 1 {
                width - 1
            } else {
                sx as usize
            };
            let v = byte_at(&rows[src_y], src_x);
            proof {
                lemma_pixel_position(width as int, y as int, x as int);
            }
            out.push(v);
            x += 1;
        }
        proof {
            assert(y * width + width == (y + 1) * width) by (nonlinear_arith);
        }
        y += 1;
    }
    proof {
        assert(height * width == width * height) by (nonlinear_arith);
        assert(out@ =~= image(width as nat, height as nat, f));
    }
    out
}

/// Combing visualisation: on inner rows, the distance of a pixel from the mean of the
/// pixels above and below, ten-fold and capped at 255 (255 outright above 15); the
/// first and last rows are 0.
pub open spec fn combing_pixel(rows: Seq<Seq<u8>>, h: int, y: int, x: int) -> u8 {
    if 1 <= y < h - 1 {
        let interp = (px(rows, y - 1, x) + px(rows, y + 1, x)) / 2;
        let d = px(rows, y, x) - interp;
        let diff = if d >= 0 {
            d
        } else {
            -d
        };
        (if diff > 15 {
            255
        } else if diff * 10 < 255 {
            diff * 10
        } else {
            255
        }) as u8
    } else {
        0
    }
}

/// Generate a visual representation of field combing of a plane.
pub fn visualize_combing(rows: &Vec<Vec<u8>>, width: usize, height: usize) -> (out: Vec<u8>)
    requires
        height >= 1,
        rows@.len() >= height,
        width * height <= usize::MAX,
    ensures
        out@ == image(width as nat, height as nat, |y: int, x: int| combing_pixel(rows_view(rows@), height as int, y, x)),
{
    let ghost r = rows_view(rows@);
    let ghost f = |y: int, x: int| combing_pixel(r, height as int, y, x);
    let mut out: Vec<u8> = Vec::new();
    let mut y: usize = 0;
    while y < height
        invariant
            y <= height,
            rows@.len() >= height,
            width * height <= usize::MAX,
            r == rows_view(rows@),
            f == (|y: int, x: int| combing_pixel(r, height as int, y, x)),
            out@.len() == y * width,
            forall|i: int| 0 <= i < out@.len() ==> #[trigger] out@[i] == f(i / (width as int), i % (width as int)),
        decreases height - y,
    {
        let inner = 1 <= y && y + 1 < height;
        let mut x: usize = 0;
        while x < width
            invariant
                y < height,
                x <= width,
                rows@.len() >= height,
                width * height <= usize::MAX,
                r == rows_view(rows@),
                f == (|y: int, x: int| combing_pixel(r, height as int, y, x)),
                inner == (1 <= y && y + 1 < height),
                out@.len() == y * width + x,
                forall|i: int| 0 <= i < out@.len() ==> #[trigger] out@[i] == f(i / (width as int), i % (width as int)),
            decreases width - x,
        {
            let v: u8 = if inner {
                let prev = byte_at(&rows[y - 1], x) as i32;
                let curr = byte_at(&rows[y], x) as i32;
                let next = byte_at(&rows[y + 1], x) as i32;
                let interp = (prev + next) / 2;
                let diff = if curr >= interp {
                    curr - interp
                } else {
                    interp - curr
                };
                if diff > 15 {
                    255
                } else if diff * 10 < 255 {
                    (diff * 10) as u8
                } else {
                    255
                }
            } else {
                0
            };
            proof {
                lemma_pixel_position(width as int, y as int, x as int);
            }
            out.push(v);
            x += 1;
        }
        proof {
            assert(y * width + width == (y + 1) * width) by (nonlinear_arith);
        }
        y += 1;
    }
    proof {
        assert(height * width == width * height) by (nonlinear_arith);
        assert(out@ =~= image(width as nat, height as nat, f));
    }
    out
}

/// Field visualisation: rows of the chosen field keep their pixels, the other rows
/// are grey (128).
pub open spec fn field_pixel(rows: Seq<Seq<u8>>, field: u8, y: int, x: int) -> u8 {
    if y % 2 == field as int {
        px(rows, y, x) as u8
    } else {
        128
    }
}

/// Generate field separation visualization of a plane.
pub fn visualize_fields(rows: &Vec<Vec<u8>>, width: usize, height: usize, field: u8) -> (out: Vec<u8>)
    requires
        rows@.len() >= height,
        width * height <= usize::MAX,
    ensures
        out@ == image(width as nat, height as nat, |y: int, x: int| field_pixel(rows_view(rows@), field, y, x)),
{
    let ghost r = rows_view(rows@);
    let ghost f = |y: int, x: int| field_pixel(r, field, y, x);
    let mut out: Vec<u8> = Vec::new();
    let mut y: usize = 0;
    while y < height
        invariant
            y <= height,
            rows@.len() >= height,
            width * height <= usize::MAX,
            r == rows_view(rows@),
            f == (|y: int, x: int| field_pixel(r, field, y, x)),
            out@.len() == y * width,
            forall|i: int| 0 <= i < out@.len() ==> #[trigger] out@[i] == f(i / (width as int), i % (width as int)),
        decreases height - y,
    {
        let keep = (y % 2) == field as usize;
        let mut x: usize = 0;
        while x < width
            invariant
                y < height,
                x <= width,
                rows@.len() >= height,
                width * height <= usize::MAX,
                r == rows_view(rows@),
                f == (|y: int, x: int| field_pixel(r, field, y, x)),
                keep == (y % 2 == field as int),
                out@.len() == y * width + x,
                forall|i: int| 0 <= i < out@.len() ==> #[trigger] out@[i] == f(i / (width as int), i % (width as int)),
            decreases width - x,
        {
            let v: u8 = if keep {
                byte_at(&rows[y], x)
            } else {
                128
            };
            proof {
                lemma_pixel_position(width as int, y as int, x as int);
            }
            out.push(v);
            x += 1;
        }
        proof {
            assert(y * width + width == (y + 1) * width) by (nonlinear_arith);
        }
        y += 1;
    }
    proof {
        assert(height * width == width * height) by (nonlinear_arith);
        assert(out@ =~= image(width as nat, height as nat, f));
    }
    out
}

/// Absolute difference of two integers.
pub open spec fn abs_diff(a: int, b: int) -> int {
    if a >= b {
        a - b
    } else {
        b - a
    }
}

/// Term `k` (row `k / 8`, column `k % 8` of the 8 by 8 block at `(x, y)`) of the sum
/// of absolute differences between the first plane and the second one displaced by
/// `(dx, dy)`: positions of the block outside the plane count 0, and the displaced
/// position is clamped to the plane.
pub open spec fn block_term(
    r1: Seq<Seq<u8>>,
    r2: Seq<Seq<u8>>,
    w: int,
    h: int,
    x: int,
    y: int,
    dx: int,
    dy: int,
    k: int,
) -> int {
    let by = k / 8;
    let bx = k % 8;
    if y + by < h && x + bx < w {
        abs_diff(
            px(r1, y + by, x + bx),
            px(r2, clamp_int(y + by + dy, 0, h - 1), clamp_int(x + bx + dx, 0, w - 1)),
        )
    } else {
        0
    }
}

/// The sum of the first `n` block terms.
pub open spec fn block_sad_upto(
    r1: Seq<Seq<u8>>,
    r2: Seq<Seq<u8>>,
    w: int,
    h: int,
    x: int,
    y: int,
    dx: int,
    dy: int,
    n: nat,
) -> int
    decreases n,
{
    if n == 0 {
        0
    } else {
        block_sad_upto(r1, r2, w, h, x, y, dx, dy, (n - 1) as nat) + block_term(
            r1,
            r2,
            w,
            h,
            x,
            y,
            dx,
            dy,
            n - 1,
        )
    }
}

/// Sum of absolute differences of the 8 by 8 block at `(x, y)` for the displacement
/// `(dx, dy)`.
pub open spec fn block_sad(r1: Seq<Seq<u8>>, r2: Seq<Seq<u8>>, w: int, h: int, x: int, y: int, dx: int, dy: int) -> int {
    block_sad_upto(r1, r2, w, h, x, y, dx, dy, 64)
}

proof fn lemma_block_sad_bounds(
    r1: Seq<Seq<u8>>,
    r2: Seq<Seq<u8>>,
    w: int,
    h: int,
    x: int,
    y: int,
    dx: int,
    dy: int,
    n: nat,
)
    ensures
        0 <= block_sad_upto(r1, r2, w, h, x, y, dx, dy, n) <= 255 * n,
    decreases n,
{
    if n > 0 {
        lemma_block_sad_bounds(r1, r2, w, h, x, y, dx, dy, (n - 1) as nat);
    }
}

/// `v` limited to `lo..=hi`, on 64-bit integers.
pub(crate) fn clamp_i64(v: i64, lo: i64, hi: i64) -> (c: i64)
    requires
        lo <= hi,
    ensures
        c as int == clamp_int(v as int, lo as int, hi as int),
{
    if v < lo {
        lo
    } else if v > hi {
        hi
    } else {
        v
    }
}

/// The sum of absolute differences of the block at `(x, y)` for one displacement.
fn block_sad_at(
    rows1: &Vec<Vec<u8>>,
    rows2: &Vec<Vec<u8>>,
    width: usize,
    height: usize,
    x: usize,
    y: usize,
    dx: i64,
    dy: i64,
) -> (s: u64)
    requires
        rows1@.len() >= height,
        rows2@.len() >= height,
        0 < width <= i32::MAX,
        0 < height <= i32::MAX,
        x <= i32::MAX,
        y <= i32::MAX,
        -0x8000_0000 <= dx <= 0x8000_0000,
        -0x8000_0000 <= dy <= 0x8000_0000,
    ensures
        s == block_sad(rows_view(rows1@), rows_view(rows2@), width as int, height as int, x as int, y as int, dx as int, dy as int),
{
    let ghost r1 = rows_view(rows1@);
    let ghost r2 = rows_view(rows2@);
    let mut s: u64 = 0;
    let mut k: usize = 0;
    while k < 64
        invariant
            k <= 64,
            rows1@.len() >= height,
            rows2@.len() >= height,
            0 < width <= i32::MAX,
            0 < height <= i32::MAX,
            x <= i32::MAX,
            y <= i32::MAX,
            -0x8000_0000 <= dx <= 0x8000_0000,
            -0x8000_0000 <= dy <= 0x8000_0000,
            r1 == rows_view(rows1@),
            r2 == rows_view(rows2@),
            s == block_sad_upto(r1, r2, width as int, height as int, x as int, y as int, dx as int, dy as int, k as nat),
        decreases 64 - k,
    {
        proof {
            lemma_block_sad_bounds(r1, r2, width as int, height as int, x as int, y as int, dx as int, dy as int, k as nat);
        }
        let by = k / 8;
        let bx = k % 8;
        if y + by < height && x + bx < width {
            let p1 = byte_at(&rows1[y + by], x + bx);
            let sy = clamp_i64(y as i64 + by as i64 + dy, 0, height as i64 - 1);
            let sx = clamp_i64(x as i64 + bx as i64 + dx, 0, width as i64 - 1);
            let p2 = byte_at(&rows2[sy as usize], sx as usize);
            let d: u64 = if p1 >= p2 {
                (p1 - p2) as u64
            } else {
                (p2 - p1) as u64
            };
            s = s + d;
        }
        k += 1;
    }
    s
}

/// Displacement `(dx, dy)` comes before `(ex, ey)` in the search order: by rows of
/// `dy`, then by `dx`.
pub open spec fn searched_before(dx: int, dy: int, ex: int, ey: int) -> bool {
    dy < ey || (dy == ey && dx < ex)
}

/// `(mx, my)` is the displacement in `[-range, range]` squared with the least block
/// difference, the first in search order among equals.
pub open spec fn is_best_vector(
    r1: Seq<Seq<u8>>,
    r2: Seq<Seq<u8>>,
    w: int,
    h: int,
    x: int,
    y: int,
    range: int,
    mx: int,
    my: int,
) -> bool {
    &&& -range <= mx <= range
    &&& -range <= my <= range
    &&& forall|dx: int, dy: int|
        -range <= dx <= range && -range <= dy <= range ==> #[trigger] block_sad(r1, r2, w, h, x, y, dx, dy)
            >= block_sad(r1, r2, w, h, x, y, mx, my)
    &&& forall|dx: int, dy: int|
        -range <= dx <= range && -range <= dy <= range && searched_before(dx, dy, mx, my) ==> #[trigger] block_sad(
            r1,
            r2,
            w,
            h,
            x,
            y,
            dx,
            dy,
        ) > block_sad(r1, r2, w, h, x, y, mx, my)
}

/// Block-matching motion search: the displacement of the 8 by 8 block at `(x, y)`
/// of the first plane that matches the second plane best, searched over
/// `[-range, range]` in both directions. When the block lies outside the plane or the
/// range is negative, there is nothing to search and the vector is `(0, 0)`.
pub fn motion_search(
    rows1: &Vec<Vec<u8>>,
    rows2: &Vec<Vec<u8>>,
    width: usize,
    height: usize,
    x: usize,
    y: usize,
    range: i32,
) -> (mv: (i32, i32))
    requires
        rows1@.len() >= height,
        rows2@.len() >= height,
        range >= 0 ==> {
            &&& 0 < width <= i32::MAX
            &&& 0 < height <= i32::MAX
            &&& x + 7 + range <= i32::MAX
            &&& y + 7 + range <= i32::MAX
        },
    ensures
        !(range >= 0 && y < height && x < width) ==> mv == (0i32, 0i32),
        range >= 0 && y < height && x < width ==> is_best_vector(
            rows_view(rows1@),
            rows_view(rows2@),
            width as int,
            height as int,
            x as int,
            y as int,
            range as int,
            mv.0 as int,
            mv.1 as int,
        ),
{
    if range < 0 || y >= height || x >= width {
        return (0, 0);
    }
    let ghost r1 = rows_view(rows1@);
    let ghost r2 = rows_view(rows2@);
    let ghost w = width as int;
    let ghost h = height as int;
    let r = range as i64;
    let mut best: (i32, i32) = (0, 0);
    let mut best_sad: u64 = u64::MAX;
    let mut dy: i64 = -r;
    while dy <= r
        invariant
            0 <= r <= i32::MAX,
            r == range,
            -r <= dy <= r + 1,
            rows1@.len() >= height,
            rows2@.len() >= height,
            0 < width <= i32::MAX,
            0 < height <= i32::MAX,
            x < width,
            y < height,
            x + 7 + range <= i32::MAX,
            y + 7 + range <= i32::MAX,
            r1 == rows_view(rows1@),
            r2 == rows_view(rows2@),
            w == width,
            h == height,
            dy == -r ==> best == (0i32, 0i32) && best_sad == u64::MAX,
            dy > -r ==> {
                &&& -r <= best.0 <= r
                &&& -r <= best.1 < dy
                &&& best_sad == block_sad(r1, r2, w, h, x as int, y as int, best.0 as int, best.1 as int)
            },
            forall|ex: int, ey: int|
                -r <= ex <= r && -r <= ey < dy ==> #[trigger] block_sad(r1, r2, w, h, x as int, y as int, ex, ey)
                    >= best_sad,
            forall|ex: int, ey: int|
                -r <= ex <= r && -r <= ey < dy && searched_before(ex, ey, best.0 as int, best.1 as int)
                    ==> #[trigger] block_sad(r1, r2, w, h, x as int, y as int, ex, ey) > best_sad,
        decreases r + 1 - dy,
    {
        let mut dx: i64 = -r;
        while dx <= r
            invariant
                0 <= r <= i32::MAX,
                r == range,
                -r <= dy <= r,
                -r <= dx <= r + 1,
                rows1@.len() >= height,
                rows2@.len() >= height,
                0 < width <= i32::MAX,
                0 < height <= i32::MAX,
                x < width,
                y < height,
                x + 7 + range <= i32::MAX,
                y + 7 + range <= i32::MAX,
                r1 == rows_view(rows1@),
                r2 == rows_view(rows2@),
                w == width,
                h == height,
                dy == -r && dx == -r ==> best == (0i32, 0i32) && best_sad == u64::MAX,
                !(dy == -r && dx == -r) ==> {
                    &&& -r <= best.0 <= r
                    &&& -r <= best.1 <= dy
                    &&& searched_before(best.0 as int, best.1 as int, dx as int, dy as int)
                    &&& best_sad == block_sad(r1, r2, w, h, x as int, y as int, best.0 as int, best.1 as int)
                },
                forall|ex: int, ey: int|
                    -r <= ex <= r && -r <= ey <= r && searched_before(ex, ey, dx as int, dy as int)
                        ==> #[trigger] block_sad(r1, r2, w, h, x as int, y as int, ex, ey) >= best_sad,
                forall|ex: int, ey: int|
                    -r <= ex <= r && -r <= ey <= r && searched_before(ex, ey, dx as int, dy as int)
                        && searched_before(ex, ey, best.0 as int, best.1 as int) ==> #[trigger] block_sad(
                        r1,
                        r2,
                        w,
                        h,
                        x as int,
                        y as int,
                        ex,
                        ey,
                    ) > best_sad,
            decreases r + 1 - dx,
        {
            let s = block_sad_at(rows1, rows2, width, height, x, y, dx, dy);
            proof {
                lemma_block_sad_bounds(r1, r2, w, h, x as int, y as int, dx as int, dy as int, 64);
            }
            if s < best_sad {
                best_sad = s;
                best = (dx as i32, dy as i32);
            }
            dx += 1;
        }
        dy += 1;
    }
    best
}

/// Sum of `f(y, x)` over the first `n` columns of row `y`.
pub open spec fn row_total(f: spec_fn(int, int) -> int, y: int, n: nat) -> int
    decreases n,
{
    if n == 0 {
        0
    } else {
        row_total(f, y, (n - 1) as nat) + f(y, n - 1)
    }
}

/// Sum of `f(y, x)` over `n` rows from `y0`, each `w` columns wide.
pub open spec fn rows_total(f: spec_fn(int, int) -> int, y0: int, n: nat, w: nat) -> int
    decreases n,
{
    if n == 0 {
        0
    } else {
        rows_total(f, y0, (n - 1) as nat, w) + row_total(f, y0 + n - 1, w)
    }
}

proof fn lemma_row_total_bound(f: spec_fn(int, int) -> int, c: int, y: int, n: nat)
    requires
        0 <= c,
        forall|y2: int, x2: int| 0 <= #[trigger] f(y2, x2) <= c,
    ensures
        0 <= row_total(f, y, n) <= c * n,
    decreases n,
{
    if n > 0 {
        lemma_row_total_bound(f, c, y, (n - 1) as nat);
        assert(f(y, n - 1) <= c);
        assert(c * (n - 1) + c == c * n) by (nonlinear_arith);
    }
}

proof fn lemma_rows_total_bound(f: spec_fn(int, int) -> int, c: int, y0: int, n: nat, w: nat)
    requires
        0 <= c,
        forall|y2: int, x2: int| 0 <= #[trigger] f(y2, x2) <= c,
    ensures
        0 <= rows_total(f, y0, n, w) <= c * w * n,
    decreases n,
{
    if n > 0 {
        lemma_rows_total_bound(f, c, y0, (n - 1) as nat, w);
        lemma_row_total_bound(f, c, y0 + n - 1, w);
        assert(c * w * (n - 1) + c * w == c * w * n) by (nonlinear_arith);
    }
}

/// Number of rows `2..height - 2` that the field measures scan.
pub open spec fn scanned_rows(height: int) -> nat {
    if height >= 4 {
        (height - 4) as nat
    } else {
        0
    }
}

/// Row `y` belongs to field `f1` or field `f2`.
pub open spec fn either_field(f1: u8, f2: u8, y: int) -> bool {
    y % 2 == f1 as int || y % 2 == f2 as int
}

/// Field difference of pixel `(x, y)` between two frames, on rows of either field.
pub open spec fn match_diff_term(r1: Seq<Seq<u8>>, r2: Seq<Seq<u8>>, f1: u8, f2: u8, y: int, x: int) -> int {
    if either_field(f1, f2, y) {
        abs_diff(px(r1, y, x), px(r2, y, x))
    } else {
        0
    }
}

/// Combing of pixel `(x, y)` in the frame whose field the row belongs to (the first
/// frame's when both): its distance from the mean of the rows above and below, when
/// above 15; 0 otherwise and on rows of neither field.
pub open spec fn match_comb_term(r1: Seq<Seq<u8>>, r2: Seq<Seq<u8>>, f1: u8, f2: u8, y: int, x: int) -> int {
    if either_field(f1, f2, y) {
        let src = if y % 2 == f1 as int {
            r1
        } else {
            r2
        };
        let comb = abs_diff(px(src, y, x), (px(src, y - 1, x) + px(src, y + 1, x)) / 2);
        if comb > 15 {
            comb
        } else {
            0
        }
    } else {
        0
    }
}

/// 1 for each pixel on a row of either field.
pub open spec fn match_sample_term(f1: u8, f2: u8, y: int, x: int) -> int {
    if either_field(f1, f2, y) {
        1
    } else {
        0
    }
}

/// Integer totals of a field match: the summed combing above 15, the summed field
/// difference, and the number of pixels compared.
#[derive(Clone, Copy, Debug, PartialEq, Eq)]
pub struct FieldMatchTotals {
    /// Summed combing (each pixel's combing when above 15).
    pub comb: u64,
    /// Summed absolute difference between the two frames.
    pub diff: u64,
    /// Number of pixels compared.
    pub samples: u64,
}

/// Field match between field `field1` of a first frame and field `field2` of a
/// second, on their first planes given row by row: over rows `2..height - 2` of the
/// smaller of the two frames that belong to either field, the summed field difference,
/// the summed combing above 15, and the number of pixels compared.
pub fn field_match_totals(
    rows1: &Vec<Vec<u8>>,
    width1: usize,
    height1: usize,
    field1: u8,
    rows2: &Vec<Vec<u8>>,
    width2: usize,
    height2: usize,
    field2: u8,
) -> (t: FieldMatchTotals)
    requires
        rows1@.len() >= height1,
        rows2@.len() >= height2,
        height1 >= 2,
        height2 >= 2,
        255 * (if width1 < width2 {
            width1
        } else {
            width2
        }) * (if height1 < height2 {
            height1
        } else {
            height2
        }) <= u64::MAX,
    ensures
        ({
            let w = if width1 < width2 {
                width1
            } else {
                width2
            };
            let h = if height1 < height2 {
                height1
            } else {
                height2
            };
            let n = scanned_rows(h as int);
            &&& t.diff == rows_total(
                |y: int, x: int| match_diff_term(rows_view(rows1@), rows_view(rows2@), field1, field2, y, x),
                2,
                n,
                w as nat,
            )
            &&& t.comb == rows_total(
                |y: int, x: int| match_comb_term(rows_view(rows1@), rows_view(rows2@), field1, field2, y, x),
                2,
                n,
                w as nat,
            )
            &&& t.samples == rows_total(|y: int, x: int| match_sample_term(field1, field2, y, x), 2, n, w as nat)
        }),
{
    let width = if width1 < width2 {
        width1
    } else {
        width2
    };
    let height = if height1 < height2 {
        height1
    } else {
        height2
    };
    let ghost r1 = rows_view(rows1@);
    let ghost r2 = rows_view(rows2@);
    let ghost fd = |y: int, x: int| match_diff_term(r1, r2, field1, field2, y, x);
    let ghost fc = |y: int, x: int| match_comb_term(r1, r2, field1, field2, y, x);
    let ghost fs = |y: int, x: int| match_sample_term(field1, field2, y, x);
    proof {
        assert forall|y2: int, x2: int| 0 <= #[trigger] fd(y2, x2) <= 255 by {}
        assert forall|y2: int, x2: int| 0 <= #[trigger] fc(y2, x2) <= 255 by {}
        assert forall|y2: int, x2: int| 0 <= #[trigger] fs(y2, x2) <= 1 by {}
    }
    let mut comb: u64 = 0;
    let mut diff: u64 = 0;
    let mut samples: u64 = 0;
    let mut y: usize = 2;
    while y + 2 < height
        invariant
            2 <= y,
            height >= 2,
            y <= 2 + scanned_rows(height as int),
            rows1@.len() >= height,
            rows2@.len() >= height,
            255 * width * height <= u64::MAX,
            r1 == rows_view(rows1@),
            r2 == rows_view(rows2@),
            fd == (|y: int, x: int| match_diff_term(r1, r2, field1, field2, y, x)),
            fc == (|y: int, x: int| match_comb_term(r1, r2, field1, field2, y, x)),
            fs == (|y: int, x: int| match_sample_term(field1, field2, y, x)),
            forall|y2: int, x2: int| 0 <= #[trigger] fd(y2, x2) <= 255,
            forall|y2: int, x2: int| 0 <= #[trigger] fc(y2, x2) <= 255,
            forall|y2: int, x2: int| 0 <= #[trigger] fs(y2, x2) <= 1,
            diff == rows_total(fd, 2, (y - 2) as nat, width as nat),
            comb == rows_total(fc, 2, (y - 2) as nat, width as nat),
            samples == rows_total(fs, 2, (y - 2) as nat, width as nat),
        decreases height - y,
    {
        proof {
            lemma_rows_total_bound(fd, 255, 2, (y - 2) as nat, width as nat);
            lemma_rows_total_bound(fc, 255, 2, (y - 2) as nat, width as nat);
            lemma_rows_total_bound(fs, 1, 2, (y - 2) as nat, width as nat);
            assert(255 * width * (y - 2) + 255 * width <= 255 * width * height) by (nonlinear_arith)
                requires
                    y - 1 <= height,
            ;
            assert(1 * width * (y - 2) <= 255 * width * (y - 2)) by (nonlinear_arith)
                requires
                    2 <= y,
            ;
        }
        let is_field1_line = (y % 2) == field1 as usize;
        let is_field2_line = (y % 2) == field2 as usize;
        if is_field1_line || is_field2_line {
            let mut x: usize = 0;
            while x < width
                invariant
                    2 <= y,
                    y + 2 < height,
                    x <= width,
                    rows1@.len() >= height,
                    rows2@.len() >= height,
                    255 * width * (y - 2) + 255 * width <= u64::MAX,
                    r1 == rows_view(rows1@),
                    r2 == rows_view(rows2@),
                    fd == (|y: int, x: int| match_diff_term(r1, r2, field1, field2, y, x)),
                    fc == (|y: int, x: int| match_comb_term(r1, r2, field1, field2, y, x)),
                    fs == (|y: int, x: int| match_sample_term(field1, field2, y, x)),
                    is_field1_line == (y % 2 == field1 as int),
                    is_field2_line == (y % 2 == field2 as int),
                    is_field1_line || is_field2_line,
                    0 <= rows_total(fd, 2, (y - 2) as nat, width as nat) <= 255 * width * (y - 2),
                    0 <= rows_total(fc, 2, (y - 2) as nat, width as nat) <= 255 * width * (y - 2),
                    0 <= rows_total(fs, 2, (y - 2) as nat, width as nat) <= 255 * width * (y - 2),
                    diff == rows_total(fd, 2, (y - 2) as nat, width as nat) + row_total(fd, y as int, x as nat),
                    comb == rows_total(fc, 2, (y - 2) as nat, width as nat) + row_total(fc, y as int, x as nat),
                    samples == rows_total(fs, 2, (y - 2) as nat, width as nat) + row_total(fs, y as int, x as nat),
                    forall|y2: int, x2: int| 0 <= #[trigger] fd(y2, x2) <= 255,
                    forall|y2: int, x2: int| 0 <= #[trigger] fc(y2, x2) <= 255,
                    forall|y2: int, x2: int| 0 <= #[trigger] fs(y2, x2) <= 1,
                decreases width - x,
            {
                proof {
                    lemma_row_total_bound(fd, 255, y as int, x as nat);
                    lemma_row_total_bound(fc, 255, y as int, x as nat);
                    lemma_row_total_bound(fs, 1, y as int, x as nat);
                }
                let p1 = byte_at(&rows1[y], x) as i32;
                let p2 = byte_at(&rows2[y], x) as i32;
                let d = if p1 >= p2 {
                    p1 - p2
                } else {
                    p2 - p1
                };
                diff = diff + d as u64;
                let (prev, next) = if is_field1_line {
                    (byte_at(&rows1[y - 1], x) as i32, byte_at(&rows1[y + 1], x) as i32)
                } else {
                    (byte_at(&rows2[y - 1], x) as i32, byte_at(&rows2[y + 1], x) as i32)
                };
                let curr = if is_field1_line {
                    p1
                } else {
                    p2
                };
                let interp = (prev + next) / 2;
                let c = if curr >= interp {
                    curr - interp
                } else {
                    interp - curr
                };
                if c > 15 {
                    comb = comb + c as u64;
                }
                samples = samples + 1;
                proof {
                    assert(fd(y as int, x as int) == d);
                    assert(fs(y as int, x as int) == 1);
                    assert(fc(y as int, x as int) == if c > 15 {
                        c as int
                    } else {
                        0
                    });
                }
                x += 1;
            }
        } else {
            proof {
                lemma_zero_row(fd, y as int, width as nat);
                lemma_zero_row(fc, y as int, width as nat);
                lemma_zero_row(fs, y as int, width as nat);
            }
        }
        y += 1;
    }
    FieldMatchTotals { comb, diff, samples }
}

proof fn lemma_zero_row(f: spec_fn(int, int) -> int, y: int, n: nat)
    requires
        forall|x: int| #[trigger] f(y, x) == 0,
    ensures
        row_total(f, y, n) == 0,
    decreases n,
{
    if n > 0 {
        lemma_zero_row(f, y, (n - 1) as nat);
    }
}

/// Combing of pixel `(x, y)`: its distance from the mean of the rows above and below.
pub open spec fn comb_at(r: Seq<Seq<u8>>, y: int, x: int) -> int {
    abs_diff(px(r, y, x), (px(r, y - 1, x) + px(r, y + 1, x)) / 2)
}

/// Combing on even rows (the top field).
pub open spec fn top_comb_term(r: Seq<Seq<u8>>, y: int, x: int) -> int {
    if y % 2 == 0 {
        comb_at(r, y, x)
    } else {
        0
    }
}

/// Combing on odd rows (the bottom field).
pub open spec fn bottom_comb_term(r: Seq<Seq<u8>>, y: int, x: int) -> int {
    if y % 2 == 0 {
        0
    } else {
        comb_at(r, y, x)
    }
}

/// Difference across the two fields at `(x, y)`: between the rows above and below.
pub open spec fn cross_field_diff(r: Seq<Seq<u8>>, y: int, x: int) -> int {
    abs_diff(px(r, y - 1, x), px(r, y + 1, x))
}

/// Difference within the field at `(x, y)`: from two rows above and to two rows below.
pub open spec fn same_field_diff(r: Seq<Seq<u8>>, y: int, x: int) -> int {
    abs_diff(px(r, y - 2, x), px(r, y, x)) + abs_diff(px(r, y, x), px(r, y + 2, x))
}

/// The pixel looks interlaced: the cross-field difference exceeds the same-field one by
/// more than 10.
pub open spec fn looks_interlaced(r: Seq<Seq<u8>>, y: int, x: int) -> bool {
    cross_field_diff(r, y, x) > same_field_diff(r, y, x) + 10
}

/// Interlace evidence at `(x, y)`.
pub open spec fn interlace_term(r: Seq<Seq<u8>>, y: int, x: int) -> int {
    if looks_interlaced(r, y, x) {
        cross_field_diff(r, y, x)
    } else {
        0
    }
}

/// Progressive evidence at `(x, y)`.
pub open spec fn progressive_term(r: Seq<Seq<u8>>, y: int, x: int) -> int {
    if looks_interlaced(r, y, x) {
        0
    } else {
        same_field_diff(r, y, x)
    }
}

/// Spatial gradient at `(x, y)`: horizontal (from the left neighbour, none at the
/// left edge) plus vertical (from the row above).
pub open spec fn spatial_term(r: Seq<Seq<u8>>, y: int, x: int) -> int {
    let left = if x > 0 {
        x - 1
    } else {
        0
    };
    abs_diff(px(r, y, x), px(r, y, left)) + abs_diff(px(r, y, x), px(r, y - 1, x))
}

/// Integer totals of the field metrics of a plane, over rows `2..height - 2`.
#[derive(Clone, Copy, Debug, PartialEq, Eq)]
pub struct FieldMetricTotals {
    /// Summed combing on the top field's rows.
    pub top_comb: u64,
    /// Summed combing on the bottom field's rows.
    pub bottom_comb: u64,
    /// Summed cross-field difference where the pixel looks interlaced.
    pub interlace: u64,
    /// Summed same-field difference where it does not.
    pub progressive: u64,
    /// Summed spatial gradient.
    pub spatial: u64,
    /// Number of pixels measured.
    pub samples: u64,
}

/// Distance between two bytes.
fn byte_distance(a: u8, b: u8) -> (d: u64)
    ensures
        d == abs_diff(a as int, b as int),
{
    if a >= b {
        (a - b) as u64
    } else {
        (b - a) as u64
    }
}

/// Interlace and progressive evidence from the pixels two rows above to two below.
fn field_evidence(m2: u8, m1: u8, c: u8, p1: u8, p2: u8) -> (e: (u64, u64))
    ensures
        ({
            let cross = abs_diff(m1 as int, p1 as int);
            let same = abs_diff(m2 as int, c as int) + abs_diff(c as int, p2 as int);
            if cross > same + 10 {
                e.0 == cross && e.1 == 0
            } else {
                e.0 == 0 && e.1 == same
            }
        }),
{
    let cross = byte_distance(m1, p1);
    let same = byte_distance(m2, c) + byte_distance(c, p2);
    if cross > same + 10 {
        (cross, 0)
    } else {
        (0, same)
    }
}

/// The field-metric terms of pixel `(x, y)`: top and bottom combing, interlace and
/// progressive evidence, spatial gradient.
fn pixel_metrics(rows: &Vec<Vec<u8>>, x: usize, y: usize) -> (t: (u64, u64, u64, u64, u64))
    requires
        2 <= y,
        y + 2 < rows.len(),
    ensures
        t.0 == top_comb_term(rows_view(rows@), y as int, x as int),
        t.1 == bottom_comb_term(rows_view(rows@), y as int, x as int),
        t.2 == interlace_term(rows_view(rows@), y as int, x as int),
        t.3 == progressive_term(rows_view(rows@), y as int, x as int),
        t.4 == spatial_term(rows_view(rows@), y as int, x as int),
{
    let ghost r = rows_view(rows@);
    let m2 = byte_at(&rows[y - 2], x);
    let m1 = byte_at(&rows[y - 1], x);
    let c = byte_at(&rows[y], x);
    let p1 = byte_at(&rows[y + 1], x);
    let p2 = byte_at(&rows[y + 2], x);
    let left_x = if x > 0 {
        x - 1
    } else {
        0
    };
    let left = byte_at(&rows[y], left_x);
    proof {
        assert(m2 == px(r, y - 2, x as int));
        assert(m1 == px(r, y - 1, x as int));
        assert(c == px(r, y as int, x as int));
        assert(p1 == px(r, y + 1, x as int));
        assert(p2 == px(r, y + 2, x as int));
        assert(left == px(r, y as int, left_x as int));
    }
    let interp = ((m1 as u16 + p1 as u16) / 2) as u8;
    let comb = byte_distance(c, interp);
    let (top, bottom): (u64, u64) = if y % 2 == 0 {
        (comb, 0)
    } else {
        (0, comb)
    };
    let (interlace, progressive) = field_evidence(m2, m1, c, p1, p2);
    let spatial = byte_distance(c, left) + byte_distance(c, m1);
    (top, bottom, interlace, progressive, spatial)
}

impl FieldMetricTotals {
    /// Field metrics of the first plane of a frame, given row by row: over rows
    /// `2..height - 2`, the combing of each field, the interlace and progressive
    /// evidence, the spatial gradient, and the number of pixels measured.
    pub fn calculate(rows: &Vec<Vec<u8>>, width: usize, height: usize) -> (t: Self)
        requires
            rows@.len() >= height,
            height >= 2,
            510 * width * height <= u64::MAX,
        ensures
            ({
                let r = rows_view(rows@);
                let n = scanned_rows(height as int);
                &&& t.top_comb == rows_total(|y: int, x: int| top_comb_term(r, y, x), 2, n, width as nat)
                &&& t.bottom_comb == rows_total(|y: int, x: int| bottom_comb_term(r, y, x), 2, n, width as nat)
                &&& t.interlace == rows_total(|y: int, x: int| interlace_term(r, y, x), 2, n, width as nat)
                &&& t.progressive == rows_total(|y: int, x: int| progressive_term(r, y, x), 2, n, width as nat)
                &&& t.spatial == rows_total(|y: int, x: int| spatial_term(r, y, x), 2, n, width as nat)
                &&& t.samples == n * width
            }),
    {
        let ghost r = rows_view(rows@);
        let ghost ft = |y: int, x: int| top_comb_term(r, y, x);
        let ghost fb = |y: int, x: int| bottom_comb_term(r, y, x);
        let ghost fi = |y: int, x: int| interlace_term(r, y, x);
        let ghost fp = |y: int, x: int| progressive_term(r, y, x);
        let ghost fs = |y: int, x: int| spatial_term(r, y, x);
        proof {
            assert forall|y2: int, x2: int| 0 <= #[trigger] ft(y2, x2) <= 510 by {}
            assert forall|y2: int, x2: int| 0 <= #[trigger] fb(y2, x2) <= 510 by {}
            assert forall|y2: int, x2: int| 0 <= #[trigger] fi(y2, x2) <= 510 by {}
            assert forall|y2: int, x2: int| 0 <= #[trigger] fp(y2, x2) <= 510 by {}
            assert forall|y2: int, x2: int| 0 <= #[trigger] fs(y2, x2) <= 510 by {}
        }
        let mut top_comb: u64 = 0;
        let mut bottom_comb: u64 = 0;
        let mut interlace: u64 = 0;
        let mut progressive: u64 = 0;
        let mut spatial: u64 = 0;
        let mut samples: u64 = 0;
        let mut y: usize = 2;
        while y + 2 < height
            invariant
                2 <= y,
                height >= 2,
                y <= 2 + scanned_rows(height as int),
                rows@.len() >= height,
                510 * width * height <= u64::MAX,
                r == rows_view(rows@),
                ft == (|y: int, x: int| top_comb_term(r, y, x)),
                fb == (|y: int, x: int| bottom_comb_term(r, y, x)),
                fi == (|y: int, x: int| interlace_term(r, y, x)),
                fp == (|y: int, x: int| progressive_term(r, y, x)),
                fs == (|y: int, x: int| spatial_term(r, y, x)),
                forall|y2: int, x2: int| 0 <= #[trigger] ft(y2, x2) <= 510,
                forall|y2: int, x2: int| 0 <= #[trigger] fb(y2, x2) <= 510,
                forall|y2: int, x2: int| 0 <= #[trigger] fi(y2, x2) <= 510,
                forall|y2: int, x2: int| 0 <= #[trigger] fp(y2, x2) <= 510,
                forall|y2: int, x2: int| 0 <= #[trigger] fs(y2, x2) <= 510,
                top_comb == rows_total(ft, 2, (y - 2) as nat, width as nat),
                bottom_comb == rows_total(fb, 2, (y - 2) as nat, width as nat),
                interlace == rows_total(fi, 2, (y - 2) as nat, width as nat),
                progressive == rows_total(fp, 2, (y - 2) as nat, width as nat),
                spatial == rows_total(fs, 2, (y - 2) as nat, width as nat),
                samples == (y - 2) * width,
            decreases height - y,
        {
            proof {
                lemma_rows_total_bound(ft, 510, 2, (y - 2) as nat, width as nat);
                lemma_rows_total_bound(fb, 510, 2, (y - 2) as nat, width as nat);
                lemma_rows_total_bound(fi, 510, 2, (y - 2) as nat, width as nat);
                lemma_rows_total_bound(fp, 510, 2, (y - 2) as nat, width as nat);
                lemma_rows_total_bound(fs, 510, 2, (y - 2) as nat, width as nat);
                assert(510 * width * (y - 2) + 510 * width <= 510 * width * height) by (nonlinear_arith)
                    requires
                        y - 1 <= height,
                ;
                assert((y - 2) * width <= 510 * width * (y - 2)) by (nonlinear_arith)
                    requires
                        2 <= y,
                ;
            }
            let mut x: usize = 0;
            while x < width
                invariant
                    2 <= y,
                    y + 2 < height,
                    x <= width,
                    rows@.len() >= height,
                    510 * width * (y - 2) + 510 * width <= u64::MAX,
                    (y - 2) * width <= 510 * width * (y - 2),
                    r == rows_view(rows@),
                    ft == (|y: int, x: int| top_comb_term(r, y, x)),
                    fb == (|y: int, x: int| bottom_comb_term(r, y, x)),
                    fi == (|y: int, x: int| interlace_term(r, y, x)),
                    fp == (|y: int, x: int| progressive_term(r, y, x)),
                    fs == (|y: int, x: int| spatial_term(r, y, x)),
                    forall|y2: int, x2: int| 0 <= #[trigger] ft(y2, x2) <= 510,
                    forall|y2: int, x2: int| 0 <= #[trigger] fb(y2, x2) <= 510,
                    forall|y2: int, x2: int| 0 <= #[trigger] fi(y2, x2) <= 510,
                    forall|y2: int, x2: int| 0 <= #[trigger] fp(y2, x2) <= 510,
                    forall|y2: int, x2: int| 0 <= #[trigger] fs(y2, x2) <= 510,
                    0 <= rows_total(ft, 2, (y - 2) as nat, width as nat) <= 510 * width * (y - 2),
                    0 <= rows_total(fb, 2, (y - 2) as nat, width as nat) <= 510 * width * (y - 2),
                    0 <= rows_total(fi, 2, (y - 2) as nat, width as nat) <= 510 * width * (y - 2),
                    0 <= rows_total(fp, 2, (y - 2) as nat, width as nat) <= 510 * width * (y - 2),
                    0 <= rows_total(fs, 2, (y - 2) as nat, width as nat) <= 510 * width * (y - 2),
                    top_comb == rows_total(ft, 2, (y - 2) as nat, width as nat) + row_total(ft, y as int, x as nat),
                    bottom_comb == rows_total(fb, 2, (y - 2) as nat, width as nat) + row_total(fb, y as int, x as nat),
                    interlace == rows_total(fi, 2, (y - 2) as nat, width as nat) + row_total(fi, y as int, x as nat),
                    progressive == rows_total(fp, 2, (y - 2) as nat, width as nat) + row_total(fp, y as int, x as nat),
                    spatial == rows_total(fs, 2, (y - 2) as nat, width as nat) + row_total(fs, y as int, x as nat),
                    samples == (y - 2) * width + x,
                decreases width - x,
            {
                proof {
                    lemma_row_total_bound(ft, 510, y as int, x as nat);
                    lemma_row_total_bound(fb, 510, y as int, x as nat);
                    lemma_row_total_bound(fi, 510, y as int, x as nat);
                    lemma_row_total_bound(fp, 510, y as int, x as nat);
                    lemma_row_total_bound(fs, 510, y as int, x as nat);
                }
                let (t_top, t_bottom, t_interlace, t_progressive, t_spatial) = pixel_metrics(rows, x, y);
                top_comb = top_comb + t_top;
                bottom_comb = bottom_comb + t_bottom;
                interlace = interlace + t_interlace;
                progressive = progressive + t_progressive;
                spatial = spatial + t_spatial;
                samples = samples + 1;
                x += 1;
            }
            proof {
                assert((y - 2) * width + width == (y - 1) * width) by (nonlinear_arith);
            }
            y += 1;
        }
        FieldMetricTotals { top_comb, bottom_comb, interlace, progressive, spatial, samples }
    }
}

/// Combing of pixel `(x, y)` that shows field structure: its combing when above 15
/// and the rows above and below differ more than the rows two apart do; 0 otherwise.
pub open spec fn field_comb_term(r: Seq<Seq<u8>>, y: int, x: int) -> int {
    if comb_at(r, y, x) > 15 && cross_field_diff(r, y, x) > same_field_diff(r, y, x) {
        comb_at(r, y, x)
    } else {
        0
    }
}

fn field_comb_at(rows: &Vec<Vec<u8>>, x: usize, y: usize) -> (v: u64)
    requires
        2 <= y,
        y + 2 < rows.len(),
    ensures
        v == field_comb_term(rows_view(rows@), y as int, x as int),
{
    let ghost r = rows_view(rows@);
    let m2 = byte_at(&rows[y - 2], x);
    let m1 = byte_at(&rows[y - 1], x);
    let c = byte_at(&rows[y], x);
    let p1 = byte_at(&rows[y + 1], x);
    let p2 = byte_at(&rows[y + 2], x);
    proof {
        assert(m2 == px(r, y - 2, x as int));
        assert(m1 == px(r, y - 1, x as int));
        assert(c == px(r, y as int, x as int));
        assert(p1 == px(r, y + 1, x as int));
        assert(p2 == px(r, y + 2, x as int));
    }
    let interp = ((m1 as u16 + p1 as u16) / 2) as u8;
    let comb = byte_distance(c, interp);
    let cross = byte_distance(m1, p1);
    let same = byte_distance(m2, c) + byte_distance(c, p2);
    if comb > 15 && cross > same {
        comb
    } else {
        0
    }
}

/// Combing metric of a plane given row by row, as integer totals: over rows
/// `2..height - 2`, the summed combing of the pixels that show field structure, and
/// the number of pixels measured.
pub fn field_comb_totals(rows: &Vec<Vec<u8>>, width: usize, height: usize) -> (t: (u64, u64))
    requires
        rows@.len() >= height,
        height >= 2,
        255 * width * height <= u64::MAX,
    ensures
        t.0 == rows_total(
            |y: int, x: int| field_comb_term(rows_view(rows@), y, x),
            2,
            scanned_rows(height as int),
            width as nat,
        ),
        t.1 == scanned_rows(height as int) * width,
{
    let ghost r = rows_view(rows@);
    let ghost f = |y: int, x: int| field_comb_term(r, y, x);
    proof {
        assert forall|y2: int, x2: int| 0 <= #[trigger] f(y2, x2) <= 255 by {}
    }
    let mut comb: u64 = 0;
    let mut samples: u64 = 0;
    let mut y: usize = 2;
    while y + 2 < height
        invariant
            2 <= y,
            height >= 2,
            y <= 2 + scanned_rows(height as int),
            rows@.len() >= height,
            255 * width * height <= u64::MAX,
            r == rows_view(rows@),
            f == (|y: int, x: int| field_comb_term(r, y, x)),
            forall|y2: int, x2: int| 0 <= #[trigger] f(y2, x2) <= 255,
            comb == rows_total(f, 2, (y - 2) as nat, width as nat),
            samples == (y - 2) * width,
        decreases height - y,
    {
        proof {
            lemma_rows_total_bound(f, 255, 2, (y - 2) as nat, width as nat);
            assert(255 * width * (y - 2) + 255 * width <= 255 * width * height) by (nonlinear_arith)
                requires
                    y - 1 <= height,
            ;
            assert((y - 2) * width + width <= 255 * width * height) by (nonlinear_arith)
                requires
                    y - 1 <= height,
            ;
        }
        let mut x: usize = 0;
        while x < width
            invariant
                2 <= y,
                y + 2 < height,
                x <= width,
                rows@.len() >= height,
                255 * width * (y - 2) + 255 * width <= u64::MAX,
                (y - 2) * width + width <= u64::MAX,
                r == rows_view(rows@),
                f == (|y: int, x: int| field_comb_term(r, y, x)),
                forall|y2: int, x2: int| 0 <= #[trigger] f(y2, x2) <= 255,
                0 <= rows_total(f, 2, (y - 2) as nat, width as nat) <= 255 * width * (y - 2),
                comb == rows_total(f, 2, (y - 2) as nat, width as nat) + row_total(f, y as int, x as nat),
                samples == (y - 2) * width + x,
            decreases width - x,
        {
            proof {
                lemma_row_total_bound(f, 255, y as int, x as nat);
            }
            comb = comb + field_comb_at(rows, x, y);
            samples = samples + 1;
            x += 1;
        }
        proof {
            assert((y - 2) * width + width == (y - 1) * width) by (nonlinear_arith);
        }
        y += 1;
    }
    (comb, samples)
}

/// Combing of pixel `(x, y)` when above 15, 0 otherwise.
pub open spec fn line_comb_term(r: Seq<Seq<u8>>, y: int, x: int) -> int {
    if comb_at(r, y, x) > 15 {
        comb_at(r, y, x)
    } else {
        0
    }
}

/// Number of inner rows `1..height - 1`.
pub open spec fn inner_rows(height: int) -> nat {
    if height >= 2 {
        (height - 2) as nat
    } else {
        0
    }
}

fn line_comb_at(rows: &Vec<Vec<u8>>, x: usize, y: usize) -> (v: u64)
    requires
        1 <= y,
        y + 1 < rows.len(),
    ensures
        v == line_comb_term(rows_view(rows@), y as int, x as int),
{
    let ghost r = rows_view(rows@);
    let m1 = byte_at(&rows[y - 1], x);
    let c = byte_at(&rows[y], x);
    let p1 = byte_at(&rows[y + 1], x);
    proof {
        assert(m1 == px(r, y - 1, x as int));
        assert(c == px(r, y as int, x as int));
        assert(p1 == px(r, y + 1, x as int));
    }
    let interp = ((m1 as u16 + p1 as u16) / 2) as u8;
    let comb = byte_distance(c, interp);
    if comb > 15 {
        comb
    } else {
        0
    }
}

/// Combing metric of a plane used by pattern analysis, as integer totals: over the
/// inner rows `1..height - 1`, the summed combing above 15, and the number of pixels
/// measured.
pub fn line_comb_totals(rows: &Vec<Vec<u8>>, width: usize, height: usize) -> (t: (u64, u64))
    requires
        rows@.len() >= height,
        height >= 1,
        255 * width * height <= u64::MAX,
    ensures
        t.0 == rows_total(|y: int, x: int| line_comb_term(rows_view(rows@), y, x), 1, inner_rows(height as int), width as nat),
        t.1 == inner_rows(height as int) * width,
{
    let ghost r = rows_view(rows@);
    let ghost f = |y: int, x: int| line_comb_term(r, y, x);
    proof {
        assert forall|y2: int, x2: int| 0 <= #[trigger] f(y2, x2) <= 255 by {}
    }
    let mut comb: u64 = 0;
    let mut samples: u64 = 0;
    let mut y: usize = 1;
    while y + 1 < height
        invariant
            1 <= y,
            height >= 1,
            y <= 1 + inner_rows(height as int),
            rows@.len() >= height,
            255 * width * height <= u64::MAX,
            r == rows_view(rows@),
            f == (|y: int, x: int| line_comb_term(r, y, x)),
            forall|y2: int, x2: int| 0 <= #[trigger] f(y2, x2) <= 255,
            comb == rows_total(f, 1, (y - 1) as nat, width as nat),
            samples == (y - 1) * width,
        decreases height - y,
    {
        proof {
            lemma_rows_total_bound(f, 255, 1, (y - 1) as nat, width as nat);
            assert(255 * width * (y - 1) + 255 * width <= 255 * width * height) by (nonlinear_arith)
                requires
                    y <= height,
            ;
            assert((y - 1) * width + width <= 255 * width * height) by (nonlinear_arith)
                requires
                    y <= height,
            ;
        }
        let mut x: usize = 0;
        while x < width
            invariant
                1 <= y,
                y + 1 < height,
                x <= width,
                rows@.len() >= height,
                255 * width * (y - 1) + 255 * width <= u64::MAX,
                (y - 1) * width + width <= u64::MAX,
                r == rows_view(rows@),
                f == (|y: int, x: int| line_comb_term(r, y, x)),
                forall|y2: int, x2: int| 0 <= #[trigger] f(y2, x2) <= 255,
                0 <= rows_total(f, 1, (y - 1) as nat, width as nat) <= 255 * width * (y - 1),
                comb == rows_total(f, 1, (y - 1) as nat, width as nat) + row_total(f, y as int, x as nat),
                samples == (y - 1) * width + x,
            decreases width - x,
        {
            proof {
                lemma_row_total_bound(f, 255, y as int, x as nat);
            }
            comb = comb + line_comb_at(rows, x, y);
            samples = samples + 1;
            x += 1;
        }
        proof {
            assert((y - 1) * width + width == y * width) by (nonlinear_arith);
        }
        y += 1;
    }
    (comb, samples)
}

/// Difference of the two frames at the `k`-th sampled row and `j`-th sampled column
/// of a grid that takes every fourth row and column.
pub open spec fn sampled_diff_term(r1: Seq<Seq<u8>>, r2: Seq<Seq<u8>>, k: int, j: int) -> int {
    abs_diff(px(r1, 4 * k, 4 * j), px(r2, 4 * k, 4 * j))
}

/// Number of positions `0, 4, 8, ...` below `n`.
pub open spec fn every_fourth(n: int) -> nat {
    if n > 0 {
        ((n + 3) / 4) as nat
    } else {
        0
    }
}

/// Scene-change measure between two frames' first planes given row by row, as
/// integer totals: over every fourth row and column of the smaller frame, the summed
/// absolute difference, and the number of pixels compared.
pub fn scene_difference_totals(
    rows1: &Vec<Vec<u8>>,
    width1: usize,
    height1: usize,
    rows2: &Vec<Vec<u8>>,
    width2: usize,
    height2: usize,
) -> (t: (u64, u64))
    requires
        rows1@.len() >= height1,
        rows2@.len() >= height2,
        255 * (if width1 < width2 {
            width1
        } else {
            width2
        }) * (if height1 < height2 {
            height1
        } else {
            height2
        }) <= u64::MAX,
    ensures
        ({
            let w = if width1 < width2 {
                width1
            } else {
                width2
            };
            let h = if height1 < height2 {
                height1
            } else {
                height2
            };
            &&& t.0 == rows_total(
                |k: int, j: int| sampled_diff_term(rows_view(rows1@), rows_view(rows2@), k, j),
                0,
                every_fourth(h as int),
                every_fourth(w as int),
            )
            &&& t.1 == every_fourth(h as int) * every_fourth(w as int)
        }),
{
    let width = if width1 < width2 {
        width1
    } else {
        width2
    };
    let height = if height1 < height2 {
        height1
    } else {
        height2
    };
    let ghost r1 = rows_view(rows1@);
    let ghost r2 = rows_view(rows2@);
    let ghost f = |k: int, j: int| sampled_diff_term(r1, r2, k, j);
    let ghost cols = every_fourth(width as int);
    proof {
        assert forall|y2: int, x2: int| 0 <= #[trigger] f(y2, x2) <= 255 by {}
        assert(cols <= width);
        assert(every_fourth(height as int) <= height);
        assert(255 * cols * every_fourth(height as int) <= 255 * width * height) by (nonlinear_arith)
            requires
                cols <= width,
                every_fourth(height as int) <= height,
        ;
    }
    let mut diff: u64 = 0;
    let mut samples: u64 = 0;
    let mut y: usize = 0;
    let ghost mut k: nat = 0;
    while y < height
        invariant
            y <= height,
            k <= every_fourth(height as int),
            y < height ==> y == 4 * k && k < every_fourth(height as int),
            y >= height ==> k == every_fourth(height as int),
            rows1@.len() >= height,
            rows2@.len() >= height,
            255 * cols * every_fourth(height as int) <= u64::MAX,
            cols == every_fourth(width as int),
            r1 == rows_view(rows1@),
            r2 == rows_view(rows2@),
            f == (|k: int, j: int| sampled_diff_term(r1, r2, k, j)),
            forall|y2: int, x2: int| 0 <= #[trigger] f(y2, x2) <= 255,
            diff == rows_total(f, 0, k, cols),
            samples == k * cols,
        decreases height - y,
    {
        proof {
            lemma_rows_total_bound(f, 255, 0, k, cols);
            assert(255 * cols * k + 255 * cols <= 255 * cols * every_fourth(height as int)) by (nonlinear_arith)
                requires
                    k + 1 <= every_fourth(height as int),
            ;
            assert(k * cols + cols <= 255 * cols * every_fourth(height as int)) by (nonlinear_arith)
                requires
                    k + 1 <= every_fourth(height as int),
            ;
        }
        let mut x: usize = 0;
        let ghost mut j: nat = 0;
        while x < width
            invariant
                y == 4 * k,
                y < height,
                x <= width,
                j <= cols,
                x < width ==> x == 4 * j && j < cols,
                x >= width ==> j == cols,
                cols == every_fourth(width as int),
                rows1@.len() >= height,
                rows2@.len() >= height,
                255 * cols * k + 255 * cols <= u64::MAX,
                k * cols + cols <= u64::MAX,
                r1 == rows_view(rows1@),
                r2 == rows_view(rows2@),
                f == (|k: int, j: int| sampled_diff_term(r1, r2, k, j)),
                forall|y2: int, x2: int| 0 <= #[trigger] f(y2, x2) <= 255,
                0 <= rows_total(f, 0, k, cols) <= 255 * cols * k,
                diff == rows_total(f, 0, k, cols) + row_total(f, k as int, j),
                samples == k * cols + j,
            decreases width - x,
        {
            proof {
                lemma_row_total_bound(f, 255, k as int, j);
            }
            let p1 = byte_at(&rows1[y], x);
            let p2 = byte_at(&rows2[y], x);
            proof {
                assert(p1 == px(r1, 4 * k as int, 4 * j as int));
                assert(p2 == px(r2, 4 * k as int, 4 * j as int));
            }
            diff = diff + byte_distance(p1, p2);
            samples = samples + 1;
            proof {
                j = j + 1;
            }
            if width - x <= 4 {
                x = width;
            } else {
                x = x + 4;
            }
        }
        proof {
            assert(k * cols + cols == (k + 1) * cols) by (nonlinear_arith);
            k = k + 1;
        }
        if height - y <= 4 {
            y = height;
        } else {
            y = y + 4;
        }
    }
    (diff, samples)
}

} // verus!
