//! Edge detection on a plane of `width` by `height` bytes (row stride `width`): the
//! Laplacian response and the Sobel gradients of the inner pixels, the border left
//! at zero. A position outside the plane's data reads as 128.

use vstd::prelude::*;
use crate::temporal_denoise::{lemma_offset_bound, lemma_pixel_index_injective, pixel_index, sample_or_grey};

verus! {

/// Byte at pixel `(x, y)`, or 128 outside the data.
pub open spec fn at(data: Seq<u8>, w: int, x: int, y: int) -> int {
    sample_or_grey(data, pixel_index(w, x, y))
}

/// `(x, y)` is an inner pixel: not on the border of the plane.
pub open spec fn is_inner(w: int, h: int, x: int, y: int) -> bool {
    1 <= x < w - 1 && 1 <= y < h - 1
}

/// Laplacian response at an inner pixel: `|4c - up - down - left - right|`.
pub open spec fn laplacian_at(data: Seq<u8>, w: int, x: int, y: int) -> int {
    let s = 4 * at(data, w, x, y) - at(data, w, x, y - 1) - at(data, w, x, y + 1) - at(data, w, x - 1, y) - at(
        data,
        w,
        x + 1,
        y,
    );
    if s >= 0 {
        s
    } else {
        -s
    }
}

/// Horizontal Sobel gradient at an inner pixel.
pub open spec fn sobel_x_at(data: Seq<u8>, w: int, x: int, y: int) -> int {
    (at(data, w, x + 1, y - 1) + 2 * at(data, w, x + 1, y) + at(data, w, x + 1, y + 1)) - (at(data, w, x - 1, y - 1)
        + 2 * at(data, w, x - 1, y) + at(data, w, x - 1, y + 1))
}

/// Vertical Sobel gradient at an inner pixel.
pub open spec fn sobel_y_at(data: Seq<u8>, w: int, x: int, y: int) -> int {
    (at(data, w, x - 1, y + 1) + 2 * at(data, w, x, y + 1) + at(data, w, x + 1, y + 1)) - (at(data, w, x - 1, y - 1)
        + 2 * at(data, w, x, y - 1) + at(data, w, x + 1, y - 1))
}

fn sample(data: &[u8], width: u32, height: u32, x: u32, y: u32) -> (v: i32)
    requires
        x < width,
        y < height,
        width * height <= u32::MAX,
    ensures
        v == at(data@, width as int, x as int, y as int),
{
    proof {
        lemma_offset_bound(y as int, x as int, width as int, height as int);
        assert(height * width == width * height) by (nonlinear_arith);
    }
    let idx = (y * width + x) as usize;
    if idx < data.len() {
        data[idx] as i32
    } else {
        128
    }
}

/// The plane is scanned row by row without wrapping: `height` at least 1, `width`
/// at least 1 when there are inner rows, and its pixels numbered in a `u32`.
pub open spec fn scannable(width: u32, height: u32) -> bool {
    &&& height >= 1
    &&& height >= 3 ==> width >= 1
    &&& width * height <= u32::MAX
}

/// Laplacian edge strengths: `|4c - up - down - left - right|` at every inner
/// pixel, 0 on the border.
pub fn detect_laplacian(data: &[u8], width: u32, height: u32) -> (edges: Vec<u32>)
    requires
        scannable(width, height),
    ensures
        edges@.len() == width * height,
        forall|x: int, y: int|
            0 <= x < width && 0 <= y < height ==> #[trigger] edges@[pixel_index(width as int, x, y)] as int == if is_inner(
                width as int,
                height as int,
                x,
                y,
            ) {
                laplacian_at(data@, width as int, x, y)
            } else {
                0
            },
{
    let ghost w = width as int;
    let ghost h = height as int;
    let n = (width * height) as usize;
    let mut edges: Vec<u32> = Vec::new();
    while edges.len() < n
        invariant
            n == width * height,
            edges@.len() <= n,
            forall|i: int| 0 <= i < edges@.len() ==> edges@[i] == 0u32,
        decreases n - edges@.len(),
    {
        edges.push(0u32);
    }
    proof {
        assert forall|x2: int, y2: int| 0 <= x2 < w && 0 <= y2 < h implies #[trigger] edges@[pixel_index(w, x2, y2)] == 0u32 by {
            lemma_offset_bound(y2, x2, w, h);
            assert(h * w == w * h) by (nonlinear_arith);
        }
    }
    let last_row: u32 = if height >= 1 {
        height - 1
    } else {
        0
    };
    let last_col: u32 = if width >= 1 {
        width - 1
    } else {
        0
    };
    let mut y: u32 = 1;
    while y < last_row
        invariant
            1 <= y,
            y <= last_row || last_row == 0,
            last_row == (if height >= 1 {
                height - 1
            } else {
                0
            }),
            last_col == (if width >= 1 {
                width - 1
            } else {
                0
            }),
            w == width,
            h == height,
            scannable(width, height),
            edges@.len() == width * height,
            forall|x2: int, y2: int|
                0 <= x2 < w && 0 <= y2 < h ==> #[trigger] edges@[pixel_index(w, x2, y2)] as int == if is_inner(w, h, x2, y2)
                    && y2 < y {
                    laplacian_at(data@, w, x2, y2)
                } else {
                    0
                },
        decreases height - y,
    {
        let mut x: u32 = 1;
        while x < last_col
            invariant
                1 <= y,
                y + 1 < height,
                1 <= x,
                x <= last_col || last_col == 0,
                last_col == (if width >= 1 {
                    width - 1
                } else {
                    0
                }),
                w == width,
                h == height,
                scannable(width, height),
                edges@.len() == width * height,
                forall|x2: int, y2: int|
                    0 <= x2 < w && 0 <= y2 < h ==> #[trigger] edges@[pixel_index(w, x2, y2)] as int == if is_inner(
                        w,
                        h,
                        x2,
                        y2,
                    ) && (y2 < y || (y2 == y && x2 < x)) {
                        laplacian_at(data@, w, x2, y2)
                    } else {
                        0
                    },
            decreases width - x,
        {
            let c = sample(data, width, height, x, y);
            let up = sample(data, width, height, x, y - 1);
            let down = sample(data, width, height, x, y + 1);
            let left = sample(data, width, height, x - 1, y);
            let right = sample(data, width, height, x + 1, y);
            let s = 4 * c - up - down - left - right;
            let v: u32 = if s >= 0 {
                s as u32
            } else {
                (-s) as u32
            };
            proof {
                lemma_offset_bound(y as int, x as int, w, h);
                assert(h * w == w * h) by (nonlinear_arith);
            }
            let idx = (y * width + x) as usize;
            let ghost before = edges@;
            edges.set(idx, v);
            proof {
                assert forall|x2: int, y2: int| 0 <= x2 < w && 0 <= y2 < h && !(x2 == x && y2 == y) implies #[trigger] edges@[pixel_index(
                    w,
                    x2,
                    y2,
                )] == before[pixel_index(w, x2, y2)] by {
                    lemma_offset_bound(y2, x2, w, h);
                    if pixel_index(w, x2, y2) == pixel_index(w, x as int, y as int) {
                        lemma_pixel_index_injective(w, x2, y2, x as int, y as int);
                    }
                }
            }
            x += 1;
        }
        y += 1;
    }
    edges
}

/// Sobel gradients: the horizontal and vertical responses of the 3 by 3 Sobel
/// kernels at every inner pixel, `(0, 0)` on the border.
pub fn detect_sobel(data: &[u8], width: u32, height: u32) -> (grads: Vec<(i32, i32)>)
    requires
        scannable(width, height),
    ensures
        grads@.len() == width * height,
        forall|x: int, y: int|
            0 <= x < width && 0 <= y < height ==> #[trigger] grads@[pixel_index(width as int, x, y)] == if is_inner(
                width as int,
                height as int,
                x,
                y,
            ) {
                (sobel_x_at(data@, width as int, x, y) as i32, sobel_y_at(data@, width as int, x, y) as i32)
            } else {
                (0i32, 0i32)
            },
{
    let ghost w = width as int;
    let ghost h = height as int;
    let n = (width * height) as usize;
    let mut grads: Vec<(i32, i32)> = Vec::new();
    while grads.len() < n
        invariant
            n == width * height,
            grads@.len() <= n,
            forall|i: int| 0 <= i < grads@.len() ==> grads@[i] == (0i32, 0i32),
        decreases n - grads@.len(),
    {
        grads.push((0i32, 0i32));
    }
    proof {
        assert forall|x2: int, y2: int| 0 <= x2 < w && 0 <= y2 < h implies #[trigger] grads@[pixel_index(w, x2, y2)] == (0i32, 0i32) by {
            lemma_offset_bound(y2, x2, w, h);
            assert(h * w == w * h) by (nonlinear_arith);
        }
    }
    let last_row: u32 = if height >= 1 {
        height - 1
    } else {
        0
    };
    let last_col: u32 = if width >= 1 {
        width - 1
    } else {
        0
    };
    let mut y: u32 = 1;
    while y < last_row
        invariant
            1 <= y,
            y <= last_row || last_row == 0,
            last_row == (if height >= 1 {
                height - 1
            } else {
                0
            }),
            last_col == (if width >= 1 {
                width - 1
            } else {
                0
            }),
            w == width,
            h == height,
            scannable(width, height),
            grads@.len() == width * height,
            forall|x2: int, y2: int|
                0 <= x2 < w && 0 <= y2 < h ==> #[trigger] grads@[pixel_index(w, x2, y2)] == if is_inner(w, h, x2, y2) && y2
                    < y {
                    (sobel_x_at(data@, w, x2, y2) as i32, sobel_y_at(data@, w, x2, y2) as i32)
                } else {
                    (0i32, 0i32)
                },
        decreases height - y,
    {
        let mut x: u32 = 1;
        while x < last_col
            invariant
                1 <= y,
                y + 1 < height,
                1 <= x,
                x <= last_col || last_col == 0,
                last_col == (if width >= 1 {
                    width - 1
                } else {
                    0
                }),
                w == width,
                h == height,
                scannable(width, height),
                grads@.len() == width * height,
                forall|x2: int, y2: int|
                    0 <= x2 < w && 0 <= y2 < h ==> #[trigger] grads@[pixel_index(w, x2, y2)] == if is_inner(w, h, x2, y2) && (
                    y2 < y || (y2 == y && x2 < x)) {
                        (sobel_x_at(data@, w, x2, y2) as i32, sobel_y_at(data@, w, x2, y2) as i32)
                    } else {
                        (0i32, 0i32)
                    },
            decreases width - x,
        {
            let nw = sample(data, width, height, x - 1, y - 1);
            let n = sample(data, width, height, x, y - 1);
            let ne = sample(data, width, height, x + 1, y - 1);
            let west = sample(data, width, height, x - 1, y);
            let east = sample(data, width, height, x + 1, y);
            let sw = sample(data, width, height, x - 1, y + 1);
            let s = sample(data, width, height, x, y + 1);
            let se = sample(data, width, height, x + 1, y + 1);
            let gx = (ne + 2 * east + se) - (nw + 2 * west + sw);
            let gy = (sw + 2 * s + se) - (nw + 2 * n + ne);
            proof {
                lemma_offset_bound(y as int, x as int, w, h);
                assert(h * w == w * h) by (nonlinear_arith);
            }
            let idx = (y * width + x) as usize;
            let ghost before = grads@;
            grads.set(idx, (gx, gy));
            proof {
                assert forall|x2: int, y2: int| 0 <= x2 < w && 0 <= y2 < h && !(x2 == x && y2 == y) implies #[trigger] grads@[pixel_index(
                    w,
                    x2,
                    y2,
                )] == before[pixel_index(w, x2, y2)] by {
                    lemma_offset_bound(y2, x2, w, h);
                    if pixel_index(w, x2, y2) == pixel_index(w, x as int, y as int) {
                        lemma_pixel_index_injective(w, x2, y2, x as int, y as int);
                    }
                }
            }
            x += 1;
        }
        y += 1;
    }
    grads
}

} // verus!
