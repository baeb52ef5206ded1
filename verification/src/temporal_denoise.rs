//! Temporal denoising of one plane against buffered planes: plain averaging, and
//! motion-compensated averaging (block-matching motion estimation against each
//! buffered plane, then, for every pixel, the rounded mean of the pixel and its
//! motion-compensated counterparts).
//!
//! Planes are flat byte sequences of row stride `width`; a position outside a
//! plane's data reads as 128.

use vstd::prelude::*;
use crate::denoise::MotionQuality;
use crate::fields::{clamp_i64, clamp_int, searched_before};

verus! {

/// Byte `idx` of a plane, or 128 outside it.
pub open spec fn sample_or_grey(data: Seq<u8>, idx: int) -> int {
    if 0 <= idx < data.len() {
        data[idx] as int
    } else {
        128
    }
}

fn sample_at(data: &[u8], idx: usize) -> (v: u8)
    ensures
        v as int == sample_or_grey(data@, idx as int),
{
    if idx < data.len() {
        data[idx]
    } else {
        128
    }
}

/// Absolute value.
pub open spec fn abs_int(v: int) -> int {
    if v >= 0 {
        v
    } else {
        -v
    }
}

/// Row `y` of the difference between the block at `(cx, cy)` of `cur` and the block
/// at `(rx, ry)` of `refp`: the sum over its first `n` columns.
pub open spec fn row_difference(
    cur: Seq<u8>,
    refp: Seq<u8>,
    w: int,
    cx: int,
    cy: int,
    rx: int,
    ry: int,
    y: int,
    n: nat,
) -> int
    decreases n,
{
    if n == 0 {
        0
    } else {
        row_difference(cur, refp, w, cx, cy, rx, ry, y, (n - 1) as nat) + abs_int(
            sample_or_grey(cur, (cy + y) * w + cx + n - 1) - sample_or_grey(refp, (ry + y) * w + rx + n - 1),
        )
    }
}

/// Sum of absolute differences over the first `n` rows of `bw`-wide blocks.
pub open spec fn rows_difference(
    cur: Seq<u8>,
    refp: Seq<u8>,
    w: int,
    cx: int,
    cy: int,
    rx: int,
    ry: int,
    bw: nat,
    n: nat,
) -> int
    decreases n,
{
    if n == 0 {
        0
    } else {
        rows_difference(cur, refp, w, cx, cy, rx, ry, bw, (n - 1) as nat) + row_difference(
            cur,
            refp,
            w,
            cx,
            cy,
            rx,
            ry,
            n - 1,
            bw,
        )
    }
}

proof fn lemma_row_difference_bound(
    cur: Seq<u8>,
    refp: Seq<u8>,
    w: int,
    cx: int,
    cy: int,
    rx: int,
    ry: int,
    y: int,
    n: nat,
)
    ensures
        0 <= row_difference(cur, refp, w, cx, cy, rx, ry, y, n) <= 255 * n,
    decreases n,
{
    if n > 0 {
        lemma_row_difference_bound(cur, refp, w, cx, cy, rx, ry, y, (n - 1) as nat);
    }
}

proof fn lemma_rows_difference_bound(
    cur: Seq<u8>,
    refp: Seq<u8>,
    w: int,
    cx: int,
    cy: int,
    rx: int,
    ry: int,
    bw: nat,
    n: nat,
)
    ensures
        0 <= rows_difference(cur, refp, w, cx, cy, rx, ry, bw, n) <= 255 * bw * n,
    decreases n,
{
    if n > 0 {
        lemma_rows_difference_bound(cur, refp, w, cx, cy, rx, ry, bw, (n - 1) as nat);
        lemma_row_difference_bound(cur, refp, w, cx, cy, rx, ry, n - 1, bw);
        assert(255 * bw * (n - 1) + 255 * bw == 255 * bw * n) by (nonlinear_arith);
    }
}

/// Offset `a * w + b` of a position in a plane of stride `w` stays below `n * w`.
pub(crate) proof fn lemma_offset_bound(a: int, b: int, w: int, n: int)
    requires
        0 <= a < n,
        0 <= b < w,
    ensures
        0 <= a * w + b < n * w,
{
    assert(0 <= a * w) by (nonlinear_arith)
        requires
            0 <= a,
            0 <= w,
    ;
    assert((a + 1) * w <= n * w) by (nonlinear_arith)
        requires
            a + 1 <= n,
            0 <= w,
    ;
    assert((a + 1) * w == a * w + w) by (nonlinear_arith);
}

/// Sum of absolute differences between the `bw` by `bh` block at `(cx, cy)` of `cur`
/// and the one at `(rx, ry)` of `refp`.
fn block_difference(
    cur: &[u8],
    refp: &[u8],
    width: u32,
    cx: u32,
    cy: u32,
    rx: u32,
    ry: u32,
    bw: u32,
    bh: u32,
) -> (s: u64)
    requires
        cx + bw <= width,
        rx + bw <= width,
        cy + bh <= u32::MAX,
        ry + bh <= u32::MAX,
        (cy + bh) * width <= u32::MAX,
        (ry + bh) * width <= u32::MAX,
        bw * bh <= 65536,
    ensures
        s == rows_difference(cur@, refp@, width as int, cx as int, cy as int, rx as int, ry as int, bw as nat, bh as nat),
{
    let mut s: u64 = 0;
    let mut y: u32 = 0;
    while y < bh
        invariant
            y <= bh,
            cx + bw <= width,
            rx + bw <= width,
            cy + bh <= u32::MAX,
            ry + bh <= u32::MAX,
            (cy + bh) * width <= u32::MAX,
            (ry + bh) * width <= u32::MAX,
            bw * bh <= 65536,
            s == rows_difference(cur@, refp@, width as int, cx as int, cy as int, rx as int, ry as int, bw as nat, y as nat),
        decreases bh - y,
    {
        proof {
            lemma_rows_difference_bound(cur@, refp@, width as int, cx as int, cy as int, rx as int, ry as int, bw as nat, y as nat);
            assert(255 * bw * y + 255 * bw <= 255 * bw * bh) by (nonlinear_arith)
                requires
                    y < bh,
            ;
            assert(255 * bw * bh <= 255 * 65536) by (nonlinear_arith)
                requires
                    bw * bh <= 65536,
            ;
        }
        let mut x: u32 = 0;
        while x < bw
            invariant
                y < bh,
                x <= bw,
                cx + bw <= width,
                rx + bw <= width,
                cy + bh <= u32::MAX,
                ry + bh <= u32::MAX,
                (cy + bh) * width <= u32::MAX,
                (ry + bh) * width <= u32::MAX,
                bw * bh <= 65536,
                255 * bw * y + 255 * bw <= 255 * 65536,
                s == rows_difference(cur@, refp@, width as int, cx as int, cy as int, rx as int, ry as int, bw as nat, y as nat)
                    + row_difference(cur@, refp@, width as int, cx as int, cy as int, rx as int, ry as int, y as int, x as nat),
                s <= 255 * bw * y + 255 * x,
            decreases bw - x,
        {
            proof {
                lemma_offset_bound((cy + y) as int, (cx + x) as int, width as int, (cy + bh) as int);
                lemma_offset_bound((ry + y) as int, (rx + x) as int, width as int, (ry + bh) as int);
            }
            let cur_idx = ((cy + y) * width + (cx + x)) as usize;
            let ref_idx = ((ry + y) * width + (rx + x)) as usize;
            let a = sample_at(cur, cur_idx);
            let b = sample_at(refp, ref_idx);
            let d: u64 = if a >= b {
                (a - b) as u64
            } else {
                (b - a) as u64
            };
            s = s + d;
            x += 1;
        }
        y += 1;
    }
    s
}

/// The block displaced by `(mx, my)` from `(bx, by)` lies inside the plane.
pub open spec fn candidate_inside(bx: int, by: int, bw: int, bh: int, w: int, h: int, mx: int, my: int) -> bool {
    bx + mx >= 0 && by + my >= 0 && bx + mx + bw <= w && by + my + bh <= h
}

/// Difference of the block at `(bx, by)` of `cur` from the block displaced by
/// `(mx, my)` in `refp`.
pub open spec fn candidate_difference(
    cur: Seq<u8>,
    refp: Seq<u8>,
    w: int,
    bx: int,
    by: int,
    bw: nat,
    bh: nat,
    mx: int,
    my: int,
) -> int {
    rows_difference(cur, refp, w, bx, by, bx + mx, by + my, bw, bh)
}

/// `(mx, my)` is, among the displacements in `[-range, range]` squared that keep the
/// block inside the plane, one of least difference, and the first such in search
/// order (rows of `my`, then `mx`).
pub open spec fn is_best_motion(
    cur: Seq<u8>,
    refp: Seq<u8>,
    w: int,
    h: int,
    bx: int,
    by: int,
    bw: nat,
    bh: nat,
    range: int,
    mx: int,
    my: int,
) -> bool {
    &&& -range <= mx <= range
    &&& -range <= my <= range
    &&& candidate_inside(bx, by, bw as int, bh as int, w, h, mx, my)
    &&& forall|ex: int, ey: int|
        -range <= ex <= range && -range <= ey <= range && candidate_inside(bx, by, bw as int, bh as int, w, h, ex, ey)
            ==> #[trigger] candidate_difference(cur, refp, w, bx, by, bw, bh, ex, ey) >= candidate_difference(
            cur,
            refp,
            w,
            bx,
            by,
            bw,
            bh,
            mx,
            my,
        )
    &&& forall|ex: int, ey: int|
        -range <= ex <= range && -range <= ey <= range && candidate_inside(bx, by, bw as int, bh as int, w, h, ex, ey)
            && searched_before(ex, ey, mx, my) ==> #[trigger] candidate_difference(cur, refp, w, bx, by, bw, bh, ex, ey)
            > candidate_difference(cur, refp, w, bx, by, bw, bh, mx, my)
}

/// The estimated motion of a block: the best displacement when one keeps the block
/// inside the plane, `(0, 0)` when none does.
pub open spec fn best_motion(
    cur: Seq<u8>,
    refp: Seq<u8>,
    w: int,
    h: int,
    bx: int,
    by: int,
    bw: nat,
    bh: nat,
    range: int,
) -> (int, int) {
    if exists|mx: int, my: int| is_best_motion(cur, refp, w, h, bx, by, bw, bh, range, mx, my) {
        choose|mx: int, my: int| is_best_motion(cur, refp, w, h, bx, by, bw, bh, range, mx, my)
    } else {
        (0, 0)
    }
}

/// There is at most one best displacement.
proof fn lemma_best_motion_unique(
    cur: Seq<u8>,
    refp: Seq<u8>,
    w: int,
    h: int,
    bx: int,
    by: int,
    bw: nat,
    bh: nat,
    range: int,
    mx: int,
    my: int,
)
    requires
        is_best_motion(cur, refp, w, h, bx, by, bw, bh, range, mx, my),
    ensures
        best_motion(cur, refp, w, h, bx, by, bw, bh, range) == (mx, my),
{
    let (ox, oy) = choose|ox: int, oy: int| is_best_motion(cur, refp, w, h, bx, by, bw, bh, range, ox, oy);
    assert(is_best_motion(cur, refp, w, h, bx, by, bw, bh, range, ox, oy));
    let d = candidate_difference(cur, refp, w, bx, by, bw, bh, mx, my);
    let e = candidate_difference(cur, refp, w, bx, by, bw, bh, ox, oy);
    assert(d <= e);
    assert(e <= d);
    if searched_before(ox, oy, mx, my) {
        assert(e > d);
    }
    if searched_before(mx, my, ox, oy) {
        assert(d > e);
    }
}

/// Search range of the motion estimate for each quality.
pub open spec fn search_range_of(q: MotionQuality) -> int {
    match q {
        MotionQuality::Fast => 8,
        MotionQuality::Medium => 16,
        MotionQuality::High => 32,
    }
}

/// Estimate the motion of the `bw` by `bh` block at `(bx, by)` of `current` against
/// `reference`: the displacement within the quality's search range that keeps the
/// block inside the plane with the least sum of absolute differences, the first in
/// search order among equals, or `(0, 0)` when no displacement keeps it inside.
fn estimate_block_motion(
    current: &[u8],
    reference: &[u8],
    bx: u32,
    by: u32,
    bw: u32,
    bh: u32,
    width: u32,
    height: u32,
    quality: MotionQuality,
) -> (mv: (i32, i32))
    requires
        bx + bw <= width,
        by + bh <= height,
        width * height <= u32::MAX,
        width + search_range_of(quality) <= i32::MAX,
        height + search_range_of(quality) <= i32::MAX,
        bw * bh <= 65536,
    ensures
        (mv.0 as int, mv.1 as int) == best_motion(
            current@,
            reference@,
            width as int,
            height as int,
            bx as int,
            by as int,
            bw as nat,
            bh as nat,
            search_range_of(quality),
        ),
{
    let r: i64 = match quality {
        MotionQuality::Fast => 8,
        MotionQuality::Medium => 16,
        MotionQuality::High => 32,
    };
    let ghost cur = current@;
    let ghost refp = reference@;
    let ghost w = width as int;
    let ghost h = height as int;
    proof {
        assert((by + bh) * width <= height * width) by (nonlinear_arith)
            requires
                by + bh <= height,
        ;
        assert(height * width == width * height) by (nonlinear_arith);
    }
    let mut best: (i32, i32) = (0, 0);
    let mut best_sad: Option<u64> = None;
    let mut my: i64 = -r;
    while my <= r
        invariant
            r == search_range_of(quality),
            8 <= r <= 32,
            -r <= my <= r + 1,
            bx + bw <= width,
            by + bh <= height,
            width * height <= u32::MAX,
            (by + bh) * width <= u32::MAX,
            height * width <= u32::MAX,
            width + r <= i32::MAX,
            height + r <= i32::MAX,
            bw * bh <= 65536,
            cur == current@,
            refp == reference@,
            w == width,
            h == height,
            best_sad is None ==> best == (0i32, 0i32),
            best_sad is None ==> forall|ex: int, ey: int|
                -r <= ex <= r && -r <= ey < my ==> !#[trigger] candidate_inside(
                    bx as int,
                    by as int,
                    bw as int,
                    bh as int,
                    w,
                    h,
                    ex,
                    ey,
                ),
            best_sad matches Some(bs) ==> {
                &&& -r <= best.0 <= r
                &&& -r <= best.1 < my
                &&& candidate_inside(bx as int, by as int, bw as int, bh as int, w, h, best.0 as int, best.1 as int)
                &&& bs == candidate_difference(cur, refp, w, bx as int, by as int, bw as nat, bh as nat, best.0 as int, best.1 as int)
                &&& forall|ex: int, ey: int|
                    -r <= ex <= r && -r <= ey < my && candidate_inside(bx as int, by as int, bw as int, bh as int, w, h, ex, ey)
                        ==> #[trigger] candidate_difference(cur, refp, w, bx as int, by as int, bw as nat, bh as nat, ex, ey) >= bs
                &&& forall|ex: int, ey: int|
                    -r <= ex <= r && -r <= ey < my && candidate_inside(bx as int, by as int, bw as int, bh as int, w, h, ex, ey)
                        && searched_before(ex, ey, best.0 as int, best.1 as int) ==> #[trigger] candidate_difference(
                        cur,
                        refp,
                        w,
                        bx as int,
                        by as int,
                        bw as nat,
                        bh as nat,
                        ex,
                        ey,
                    ) > bs
            },
        decreases r + 1 - my,
    {
        let mut mx: i64 = -r;
        while mx <= r
            invariant
                r == search_range_of(quality),
                8 <= r <= 32,
                -r <= my <= r,
                -r <= mx <= r + 1,
                bx + bw <= width,
                by + bh <= height,
                width * height <= u32::MAX,
                (by + bh) * width <= u32::MAX,
                height * width <= u32::MAX,
                width + r <= i32::MAX,
                height + r <= i32::MAX,
                bw * bh <= 65536,
                cur == current@,
                refp == reference@,
                w == width,
                h == height,
                best_sad is None ==> best == (0i32, 0i32),
                best_sad is None ==> forall|ex: int, ey: int|
                    -r <= ex <= r && -r <= ey <= r && searched_before(ex, ey, mx as int, my as int) ==> !#[trigger] candidate_inside(
                        bx as int,
                        by as int,
                        bw as int,
                        bh as int,
                        w,
                        h,
                        ex,
                        ey,
                    ),
                best_sad matches Some(bs) ==> {
                    &&& -r <= best.0 <= r
                    &&& -r <= best.1 <= r
                    &&& searched_before(best.0 as int, best.1 as int, mx as int, my as int)
                    &&& candidate_inside(bx as int, by as int, bw as int, bh as int, w, h, best.0 as int, best.1 as int)
                    &&& bs == candidate_difference(cur, refp, w, bx as int, by as int, bw as nat, bh as nat, best.0 as int, best.1 as int)
                    &&& forall|ex: int, ey: int|
                        -r <= ex <= r && -r <= ey <= r && searched_before(ex, ey, mx as int, my as int)
                            && candidate_inside(bx as int, by as int, bw as int, bh as int, w, h, ex, ey)
                            ==> #[trigger] candidate_difference(cur, refp, w, bx as int, by as int, bw as nat, bh as nat, ex, ey) >= bs
                    &&& forall|ex: int, ey: int|
                        -r <= ex <= r && -r <= ey <= r && searched_before(ex, ey, mx as int, my as int)
                            && candidate_inside(bx as int, by as int, bw as int, bh as int, w, h, ex, ey)
                            && searched_before(ex, ey, best.0 as int, best.1 as int) ==> #[trigger] candidate_difference(
                            cur,
                            refp,
                            w,
                            bx as int,
                            by as int,
                            bw as nat,
                            bh as nat,
                            ex,
                            ey,
                        ) > bs
                },
            decreases r + 1 - mx,
        {
            let ref_x = bx as i64 + mx;
            let ref_y = by as i64 + my;
            if !(ref_x < 0 || ref_y < 0 || ref_x + bw as i64 > width as i64 || ref_y + bh as i64 > height as i64) {
                proof {
                    assert((ref_y + bh) * width <= height * width) by (nonlinear_arith)
                        requires
                            ref_y + bh <= height,
                            0 <= ref_y,
                    ;
                }
                let s = block_difference(
                    current,
                    reference,
                    width,
                    bx,
                    by,
                    ref_x as u32,
                    ref_y as u32,
                    bw,
                    bh,
                );
                let better = match best_sad {
                    None => true,
                    Some(bs) => s < bs,
                };
                if better {
                    best_sad = Some(s);
                    best = (mx as i32, my as i32);
                }
            }
            mx += 1;
        }
        my += 1;
    }
    proof {
        let ghost bwn = bw as nat;
        let ghost bhn = bh as nat;
        match best_sad {
            Some(bs) => {
                assert(is_best_motion(cur, refp, w, h, bx as int, by as int, bwn, bhn, r as int, best.0 as int, best.1 as int));
                lemma_best_motion_unique(cur, refp, w, h, bx as int, by as int, bwn, bhn, r as int, best.0 as int, best.1 as int);
            },
            None => {
                assert(!exists|mx: int, my: int| is_best_motion(cur, refp, w, h, bx as int, by as int, bwn, bhn, r as int, mx, my));
            },
        }
    }
    best
}

/// Block size of the motion compensation for each quality.
pub open spec fn block_size_of(q: MotionQuality) -> int {
    match q {
        MotionQuality::Fast => 16,
        MotionQuality::Medium => 8,
        MotionQuality::High => 4,
    }
}

/// Origin of the block of size `bs` that holds coordinate `v`.
pub open spec fn block_origin(v: int, bs: int) -> int {
    v / bs * bs
}

/// Extent of a block starting at `origin`, cut at `limit`.
pub open spec fn block_extent(origin: int, bs: int, limit: int) -> int {
    if bs < limit - origin {
        bs
    } else {
        limit - origin
    }
}

/// Offset of pixel `(x, y)` in a plane of stride `w`.
pub open spec fn pixel_index(w: int, x: int, y: int) -> int {
    y * w + x
}

/// The buffered planes as byte sequences.
pub open spec fn planes_view(planes: Seq<Vec<u8>>) -> Seq<Seq<u8>> {
    planes.map_values(|p: Vec<u8>| p@)
}

/// Pixel `(x, y)` of `refp` as seen through the motion of its block: the position
/// displaced by the block's estimated motion, clamped to the plane.
pub open spec fn compensated_sample(cur: Seq<u8>, refp: Seq<u8>, w: int, h: int, q: MotionQuality, x: int, y: int) -> int {
    let bs = block_size_of(q);
    let bx = block_origin(x, bs);
    let by = block_origin(y, bs);
    let mv = best_motion(
        cur,
        refp,
        w,
        h,
        bx,
        by,
        block_extent(bx, bs, w) as nat,
        block_extent(by, bs, h) as nat,
        search_range_of(q),
    );
    sample_or_grey(refp, pixel_index(w, clamp_int(x + mv.0, 0, w - 1), clamp_int(y + mv.1, 0, h - 1)))
}

/// Pixel `(x, y)` of the current plane plus its compensated counterparts in the
/// first `n` buffered planes.
pub open spec fn compensated_total(
    cur: Seq<u8>,
    bufs: Seq<Seq<u8>>,
    w: int,
    h: int,
    q: MotionQuality,
    x: int,
    y: int,
    n: nat,
) -> int
    decreases n,
{
    if n == 0 {
        cur[pixel_index(w, x, y)] as int
    } else {
        compensated_total(cur, bufs, w, h, q, x, y, (n - 1) as nat) + compensated_sample(cur, bufs[n - 1], w, h, q, x, y)
    }
}

/// `total / count` rounded to the nearest integer, halves up.
pub open spec fn rounded_mean(total: int, count: int) -> int {
    (2 * total + count) / (2 * count)
}

/// The denoised pixel `(x, y)`: the rounded mean of the pixel and its compensated
/// counterparts in every buffered plane.
pub open spec fn compensated_pixel(cur: Seq<u8>, bufs: Seq<Seq<u8>>, w: int, h: int, q: MotionQuality, x: int, y: int) -> int {
    rounded_mean(compensated_total(cur, bufs, w, h, q, x, y, bufs.len()), bufs.len() + 1int)
}

/// Pixel `(x, y)` of the current plane plus the samples of the first `n` buffered
/// planes displaced by the given motion vectors.
pub open spec fn shifted_total(
    cur: Seq<u8>,
    bufs: Seq<Seq<u8>>,
    mvs: Seq<(i32, i32)>,
    w: int,
    h: int,
    x: int,
    y: int,
    n: nat,
) -> int
    decreases n,
{
    if n == 0 {
        cur[pixel_index(w, x, y)] as int
    } else {
        shifted_total(cur, bufs, mvs, w, h, x, y, (n - 1) as nat) + sample_or_grey(
            bufs[n - 1],
            pixel_index(w, clamp_int(x + mvs[n - 1].0, 0, w - 1), clamp_int(y + mvs[n - 1].1, 0, h - 1)),
        )
    }
}

proof fn lemma_shifted_total_bound(
    cur: Seq<u8>,
    bufs: Seq<Seq<u8>>,
    mvs: Seq<(i32, i32)>,
    w: int,
    h: int,
    x: int,
    y: int,
    n: nat,
)
    requires
        0 <= pixel_index(w, x, y) < cur.len(),
    ensures
        0 <= shifted_total(cur, bufs, mvs, w, h, x, y, n) <= 255 * (n + 1),
    decreases n,
{
    if n > 0 {
        lemma_shifted_total_bound(cur, bufs, mvs, w, h, x, y, (n - 1) as nat);
    }
}

/// With the block's estimated motions, the shifted total is the compensated total.
proof fn lemma_shifted_is_compensated(
    cur: Seq<u8>,
    bufs: Seq<Seq<u8>>,
    mvs: Seq<(i32, i32)>,
    w: int,
    h: int,
    q: MotionQuality,
    x: int,
    y: int,
    n: nat,
)
    requires
        n <= bufs.len(),
        n <= mvs.len(),
        forall|i: int|
            0 <= i < n ==> (#[trigger] mvs[i].0 as int, mvs[i].1 as int) == best_motion(
                cur,
                bufs[i],
                w,
                h,
                block_origin(x, block_size_of(q)),
                block_origin(y, block_size_of(q)),
                block_extent(block_origin(x, block_size_of(q)), block_size_of(q), w) as nat,
                block_extent(block_origin(y, block_size_of(q)), block_size_of(q), h) as nat,
                search_range_of(q),
            ),
    ensures
        shifted_total(cur, bufs, mvs, w, h, x, y, n) == compensated_total(cur, bufs, w, h, q, x, y, n),
    decreases n,
{
    if n > 0 {
        lemma_shifted_is_compensated(cur, bufs, mvs, w, h, q, x, y, (n - 1) as nat);
        let i = n - 1;
        assert((mvs[i].0 as int, mvs[i].1 as int) == best_motion(
            cur,
            bufs[i],
            w,
            h,
            block_origin(x, block_size_of(q)),
            block_origin(y, block_size_of(q)),
            block_extent(block_origin(x, block_size_of(q)), block_size_of(q), w) as nat,
            block_extent(block_origin(y, block_size_of(q)), block_size_of(q), h) as nat,
            search_range_of(q),
        ));
    }
}

/// A coordinate in `[origin, origin + bs)` of an aligned block has that origin.
proof fn lemma_block_origin(v: int, origin: int, bs: int)
    requires
        0 < bs,
        0 <= origin,
        origin % bs == 0,
        origin <= v < origin + bs,
    ensures
        block_origin(v, bs) == origin,
{
    vstd::arithmetic::div_mod::lemma_fundamental_div_mod(origin, bs);
    let k = origin / bs;
    assert(origin == bs * k);
    assert(v == k * bs + (v - origin)) by (nonlinear_arith)
        requires
            origin == bs * k,
    ;
    vstd::arithmetic::div_mod::lemma_fundamental_div_mod_converse(v, bs, k, v - origin);
    assert(k * bs == bs * k) by (nonlinear_arith);
}

/// Distinct pixels of a plane have distinct offsets.
pub(crate) proof fn lemma_pixel_index_injective(w: int, x: int, y: int, x0: int, y0: int)
    requires
        0 <= x < w,
        0 <= x0 < w,
        0 <= y,
        0 <= y0,
        pixel_index(w, x, y) == pixel_index(w, x0, y0),
    ensures
        x == x0,
        y == y0,
{
    vstd::arithmetic::div_mod::lemma_fundamental_div_mod_converse(pixel_index(w, x, y), w, y, x);
    vstd::arithmetic::div_mod::lemma_fundamental_div_mod_converse(pixel_index(w, x0, y0), w, y0, x0);
}

/// The estimated motion of one block against each buffered plane.
fn block_motion_vectors(
    current: &[u8],
    buffered: &Vec<Vec<u8>>,
    bx: u32,
    by: u32,
    bw: u32,
    bh: u32,
    width: u32,
    height: u32,
    quality: MotionQuality,
) -> (mvs: Vec<(i32, i32)>)
    requires
        bx + bw <= width,
        by + bh <= height,
        width * height <= u32::MAX,
        width + search_range_of(quality) <= i32::MAX,
        height + search_range_of(quality) <= i32::MAX,
        bw * bh <= 65536,
    ensures
        mvs@.len() == buffered@.len(),
        forall|i: int|
            0 <= i < mvs@.len() ==> (#[trigger] mvs@[i].0 as int, mvs@[i].1 as int) == best_motion(
                current@,
                planes_view(buffered@)[i],
                width as int,
                height as int,
                bx as int,
                by as int,
                bw as nat,
                bh as nat,
                search_range_of(quality),
            ),
{
    let mut mvs: Vec<(i32, i32)> = Vec::new();
    let mut i: usize = 0;
    while i < buffered.len()
        invariant
            i <= buffered@.len(),
            bx + bw <= width,
            by + bh <= height,
            width * height <= u32::MAX,
            width + search_range_of(quality) <= i32::MAX,
            height + search_range_of(quality) <= i32::MAX,
            bw * bh <= 65536,
            mvs@.len() == i,
            forall|j: int|
                0 <= j < i ==> (#[trigger] mvs@[j].0 as int, mvs@[j].1 as int) == best_motion(
                    current@,
                    planes_view(buffered@)[j],
                    width as int,
                    height as int,
                    bx as int,
                    by as int,
                    bw as nat,
                    bh as nat,
                    search_range_of(quality),
                ),
        decreases buffered@.len() - i,
    {
        let mv = estimate_block_motion(current, buffered[i].as_slice(), bx, by, bw, bh, width, height, quality);
        mvs.push(mv);
        i += 1;
    }
    mvs
}

/// The denoised value of pixel `(x, y)` given the motion vectors of its block.
fn shifted_mean(
    current: &[u8],
    buffered: &Vec<Vec<u8>>,
    mvs: &Vec<(i32, i32)>,
    x: u32,
    y: u32,
    width: u32,
    height: u32,
) -> (v: u8)
    requires
        mvs@.len() == buffered@.len(),
        x < width,
        y < height,
        width * height <= u32::MAX,
        current@.len() >= width * height,
    ensures
        v as int == rounded_mean(
            shifted_total(
                current@,
                planes_view(buffered@),
                mvs@,
                width as int,
                height as int,
                x as int,
                y as int,
                buffered@.len(),
            ),
            buffered@.len() + 1int,
        ),
{
    let ghost bufs = planes_view(buffered@);
    proof {
        lemma_offset_bound(y as int, x as int, width as int, height as int);
        assert(height * width == width * height) by (nonlinear_arith);
    }
    let idx = (y * width + x) as usize;
    let mut total: u128 = current[idx] as u128;
    let mut i: usize = 0;
    while i < buffered.len()
        invariant
            i <= buffered@.len(),
            mvs@.len() == buffered@.len(),
            x < width,
            y < height,
            width * height <= u32::MAX,
            height * width <= u32::MAX,
            current@.len() >= width * height,
            0 <= pixel_index(width as int, x as int, y as int) < current@.len(),
            bufs == planes_view(buffered@),
            total == shifted_total(current@, bufs, mvs@, width as int, height as int, x as int, y as int, i as nat),
        decreases buffered@.len() - i,
    {
        proof {
            lemma_shifted_total_bound(current@, bufs, mvs@, width as int, height as int, x as int, y as int, i as nat);
        }
        let (mx, my) = mvs[i];
        let sx = clamp_i64(x as i64 + mx as i64, 0, width as i64 - 1);
        let sy = clamp_i64(y as i64 + my as i64, 0, height as i64 - 1);
        proof {
            lemma_offset_bound(sy as int, sx as int, width as int, height as int);
        }
        let src = (sy as u32 * width + sx as u32) as usize;
        let b = sample_at(buffered[i].as_slice(), src);
        total = total + b as u128;
        i += 1;
    }
    proof {
        lemma_shifted_total_bound(current@, bufs, mvs@, width as int, height as int, x as int, y as int, buffered@.len());
    }
    let count = buffered.len() as u128 + 1;
    let v = (2 * total + count) / (2 * count);
    proof {
        assert((2 * total + count) / (2 * count) <= 255) by (nonlinear_arith)
            requires
                total <= 255 * count,
                count >= 1,
        ;
    }
    v as u8
}

/// Pixel `(x, y)` lies in the `bw` by `bh` block at `(bx, by)`.
pub open spec fn in_block(bx: int, by: int, bw: int, bh: int, x: int, y: int) -> bool {
    bx <= x < bx + bw && by <= y < by + bh
}

/// Denoise one block: every pixel of the block becomes its compensated mean.
fn compensate_block(
    out: &mut Vec<u8>,
    current: &[u8],
    buffered: &Vec<Vec<u8>>,
    bx: u32,
    by: u32,
    bw: u32,
    bh: u32,
    width: u32,
    height: u32,
    quality: MotionQuality,
)
    requires
        old(out)@.len() == current@.len(),
        current@.len() >= width * height,
        width * height <= u32::MAX,
        width + search_range_of(quality) <= i32::MAX,
        height + search_range_of(quality) <= i32::MAX,
        bx < width,
        by < height,
        (bx as int) % block_size_of(quality) == 0,
        (by as int) % block_size_of(quality) == 0,
        bw == block_extent(bx as int, block_size_of(quality), width as int),
        bh == block_extent(by as int, block_size_of(quality), height as int),
    ensures
        final(out)@.len() == old(out)@.len(),
        forall|i: int| width * height <= i < old(out)@.len() ==> final(out)@[i] == old(out)@[i],
        forall|x: int, y: int|
            0 <= x < width && 0 <= y < height ==> #[trigger] final(out)@[pixel_index(width as int, x, y)] as int == if in_block(
                bx as int,
                by as int,
                bw as int,
                bh as int,
                x,
                y,
            ) {
                compensated_pixel(current@, planes_view(buffered@), width as int, height as int, quality, x, y)
            } else {
                old(out)@[pixel_index(width as int, x, y)] as int
            },
{
    let ghost orig = out@;
    let ghost bufs = planes_view(buffered@);
    let ghost bs = block_size_of(quality);
    let ghost w = width as int;
    let ghost h = height as int;
    proof {
        assert(bw * bh <= 65536) by (nonlinear_arith)
            requires
                0 <= bw <= 16,
                0 <= bh <= 16,
        ;
        assert(height * width == width * height) by (nonlinear_arith);
    }
    let mvs = block_motion_vectors(current, buffered, bx, by, bw, bh, width, height, quality);
    let mut py: u32 = 0;
    while py < bh
        invariant
            py <= bh,
            out@.len() == orig.len(),
            orig.len() == current@.len(),
            current@.len() >= width * height,
            width * height <= u32::MAX,
            height * width <= u32::MAX,
            bufs == planes_view(buffered@),
            bs == block_size_of(quality),
            w == width,
            h == height,
            bx < width,
            by < height,
            (bx as int) % bs == 0,
            (by as int) % bs == 0,
            bw == block_extent(bx as int, bs, w),
            bh == block_extent(by as int, bs, h),
            mvs@.len() == buffered@.len(),
            forall|i: int|
                0 <= i < mvs@.len() ==> (#[trigger] mvs@[i].0 as int, mvs@[i].1 as int) == best_motion(
                    current@,
                    bufs[i],
                    w,
                    h,
                    bx as int,
                    by as int,
                    bw as nat,
                    bh as nat,
                    search_range_of(quality),
                ),
            forall|i: int| w * h <= i < orig.len() ==> out@[i] == orig[i],
            forall|x: int, y: int|
                0 <= x < w && 0 <= y < h ==> #[trigger] out@[pixel_index(w, x, y)] as int == if in_block(
                    bx as int,
                    by as int,
                    bw as int,
                    py as int,
                    x,
                    y,
                ) {
                    compensated_pixel(current@, bufs, w, h, quality, x, y)
                } else {
                    orig[pixel_index(w, x, y)] as int
                },
        decreases bh - py,
    {
        let mut px: u32 = 0;
        while px < bw
            invariant
                py < bh,
                px <= bw,
                out@.len() == orig.len(),
                orig.len() == current@.len(),
                current@.len() >= width * height,
                width * height <= u32::MAX,
                height * width <= u32::MAX,
                bufs == planes_view(buffered@),
                bs == block_size_of(quality),
                w == width,
                h == height,
                bx < width,
                by < height,
                (bx as int) % bs == 0,
                (by as int) % bs == 0,
                bw == block_extent(bx as int, bs, w),
                bh == block_extent(by as int, bs, h),
                mvs@.len() == buffered@.len(),
                forall|i: int|
                    0 <= i < mvs@.len() ==> (#[trigger] mvs@[i].0 as int, mvs@[i].1 as int) == best_motion(
                        current@,
                        bufs[i],
                        w,
                        h,
                        bx as int,
                        by as int,
                        bw as nat,
                        bh as nat,
                        search_range_of(quality),
                    ),
                forall|i: int| w * h <= i < orig.len() ==> out@[i] == orig[i],
                forall|x: int, y: int|
                    0 <= x < w && 0 <= y < h ==> #[trigger] out@[pixel_index(w, x, y)] as int == if in_block(
                        bx as int,
                        by as int,
                        bw as int,
                        py as int,
                        x,
                        y,
                    ) || (y == by + py && bx <= x < bx + px) {
                        compensated_pixel(current@, bufs, w, h, quality, x, y)
                    } else {
                        orig[pixel_index(w, x, y)] as int
                    },
            decreases bw - px,
        {
            let x = bx + px;
            let y = by + py;
            let v = shifted_mean(current, buffered, &mvs, x, y, width, height);
            proof {
                lemma_block_origin(x as int, bx as int, bs);
                lemma_block_origin(y as int, by as int, bs);
                lemma_shifted_is_compensated(current@, bufs, mvs@, w, h, quality, x as int, y as int, buffered@.len());
                lemma_offset_bound(y as int, x as int, w, h);
            }
            let idx = (y * width + x) as usize;
            let ghost before = out@;
            out.set(idx, v);
            proof {
                assert forall|x2: int, y2: int| 0 <= x2 < w && 0 <= y2 < h && !(x2 == x && y2 == y) implies #[trigger] out@[pixel_index(
                    w,
                    x2,
                    y2,
                )] == before[pixel_index(w, x2, y2)] by {
                    lemma_offset_bound(y2, x2, w, h);
                    if pixel_index(w, x2, y2) == pixel_index(w, x as int, y as int) {
                        lemma_pixel_index_injective(w, x2, y2, x as int, y as int);
                    }
                }
            }
            px += 1;
        }
        py += 1;
    }
}

/// Motion-compensated temporal denoising of one plane of `width` by `height`
/// pixels (row stride `width`). The plane is cut into blocks of the quality's size;
/// each block's motion is estimated against each buffered plane, and every pixel
/// becomes the rounded mean of itself and its motion-compensated counterparts.
/// Bytes past `width * height` are left as they are. The mean is taken exactly in
/// integers for any number of buffered planes; a single-precision float sum of the
/// same samples is exact too while it stays below 2^24, that is with fewer than
/// 32767 buffered planes.
pub fn motion_compensated_plane(
    current: &[u8],
    buffered: &Vec<Vec<u8>>,
    width: u32,
    height: u32,
    quality: MotionQuality,
) -> (out: Vec<u8>)
    requires
        current@.len() >= width * height,
        width * height <= u32::MAX,
        width + search_range_of(quality) <= i32::MAX,
        height + search_range_of(quality) <= i32::MAX,
    ensures
        out@.len() == current@.len(),
        forall|i: int| width * height <= i < current@.len() ==> out@[i] == current@[i],
        forall|x: int, y: int|
            0 <= x < width && 0 <= y < height ==> #[trigger] out@[pixel_index(width as int, x, y)] as int
                == compensated_pixel(current@, planes_view(buffered@), width as int, height as int, quality, x, y),
{
    let bs: u32 = match quality {
        MotionQuality::Fast => 16,
        MotionQuality::Medium => 8,
        MotionQuality::High => 4,
    };
    let ghost bufs = planes_view(buffered@);
    let ghost w = width as int;
    let ghost h = height as int;
    let mut out = vstd::slice::slice_to_vec(current);
    let mut by: u32 = 0;
    while by < height
        invariant
            bs == block_size_of(quality),
            by % bs == 0,
            by < height + bs,
            out@.len() == current@.len(),
            current@.len() >= width * height,
            width * height <= u32::MAX,
            width + search_range_of(quality) <= i32::MAX,
            height + search_range_of(quality) <= i32::MAX,
            bufs == planes_view(buffered@),
            w == width,
            h == height,
            forall|i: int| w * h <= i < current@.len() ==> out@[i] == current@[i],
            forall|x: int, y: int|
                0 <= x < w && 0 <= y < h ==> #[trigger] out@[pixel_index(w, x, y)] as int == if y < by {
                    compensated_pixel(current@, bufs, w, h, quality, x, y)
                } else {
                    current@[pixel_index(w, x, y)] as int
                },
        decreases height + bs - by,
    {
        let mut bx: u32 = 0;
        while bx < width
            invariant
                bs == block_size_of(quality),
                by % bs == 0,
                by < height,
                bx % bs == 0,
                bx < width + bs,
                out@.len() == current@.len(),
                current@.len() >= width * height,
                width * height <= u32::MAX,
                width + search_range_of(quality) <= i32::MAX,
                height + search_range_of(quality) <= i32::MAX,
                bufs == planes_view(buffered@),
                w == width,
                h == height,
                forall|i: int| w * h <= i < current@.len() ==> out@[i] == current@[i],
                forall|x: int, y: int|
                    0 <= x < w && 0 <= y < h ==> #[trigger] out@[pixel_index(w, x, y)] as int == if y < by || (y < by + bs
                        && x < bx) {
                        compensated_pixel(current@, bufs, w, h, quality, x, y)
                    } else {
                        current@[pixel_index(w, x, y)] as int
                    },
            decreases width + bs - bx,
        {
            let bw = if bs < width - bx {
                bs
            } else {
                width - bx
            };
            let bh = if bs < height - by {
                bs
            } else {
                height - by
            };
            let ghost before = out@;
            compensate_block(&mut out, current, buffered, bx, by, bw, bh, width, height, quality);
            proof {
                assert forall|x: int, y: int| 0 <= x < w && 0 <= y < h implies #[trigger] out@[pixel_index(w, x, y)] as int
                    == if y < by || (y < by + bs && x < bx + bs) {
                    compensated_pixel(current@, bufs, w, h, quality, x, y)
                } else {
                    current@[pixel_index(w, x, y)] as int
                } by {
                    assert(before[pixel_index(w, x, y)] as int == if y < by || (y < by + bs && x < bx) {
                        compensated_pixel(current@, bufs, w, h, quality, x, y)
                    } else {
                        current@[pixel_index(w, x, y)] as int
                    });
                }
                vstd::arithmetic::div_mod::lemma_mod_add_multiples_vanish(bx as int, bs as int);
            }
            bx = bx + bs;
        }
        proof {
            vstd::arithmetic::div_mod::lemma_mod_add_multiples_vanish(by as int, bs as int);
        }
        by = by + bs;
    }
    out
}

/// Byte `idx` of the current plane plus byte `idx` of the first `n` buffered planes
/// (128 where a plane is shorter).
pub open spec fn average_total(cur: Seq<u8>, bufs: Seq<Seq<u8>>, idx: int, n: nat) -> int
    decreases n,
{
    if n == 0 {
        cur[idx] as int
    } else {
        average_total(cur, bufs, idx, (n - 1) as nat) + sample_or_grey(bufs[n - 1], idx)
    }
}

/// The temporally averaged byte `idx`: the rounded mean of the byte in the current
/// plane and in every buffered plane.
pub open spec fn averaged_pixel(cur: Seq<u8>, bufs: Seq<Seq<u8>>, idx: int) -> int {
    rounded_mean(average_total(cur, bufs, idx, bufs.len()), bufs.len() + 1int)
}

proof fn lemma_average_total_bound(cur: Seq<u8>, bufs: Seq<Seq<u8>>, idx: int, n: nat)
    requires
        0 <= idx < cur.len(),
    ensures
        0 <= average_total(cur, bufs, idx, n) <= 255 * (n + 1),
    decreases n,
{
    if n > 0 {
        lemma_average_total_bound(cur, bufs, idx, (n - 1) as nat);
    }
}

/// Temporal averaging of one plane of `width * height` bytes: each byte becomes the
/// rounded mean of itself and the same byte of every buffered plane. Bytes past
/// `width * height` are left as they are. The mean is taken exactly in integers for
/// any number of buffered planes.
pub fn temporal_average_plane(current: &[u8], buffered: &Vec<Vec<u8>>, width: u32, height: u32) -> (out: Vec<u8>)
    requires
        current@.len() >= width * height,
        width * height <= u32::MAX,
    ensures
        out@.len() == current@.len(),
        forall|i: int| width * height <= i < current@.len() ==> out@[i] == current@[i],
        forall|i: int| 0 <= i < width * height ==> #[trigger] out@[i] as int == averaged_pixel(current@, planes_view(buffered@), i),
{
    let ghost bufs = planes_view(buffered@);
    let n: usize = (width * height) as usize;
    let mut out = vstd::slice::slice_to_vec(current);
    let mut idx: usize = 0;
    while idx < n
        invariant
            idx <= n,
            n == width * height,
            out@.len() == current@.len(),
            current@.len() >= n,
            bufs == planes_view(buffered@),
            forall|i: int| idx <= i < current@.len() ==> out@[i] == current@[i],
            forall|i: int| 0 <= i < idx ==> #[trigger] out@[i] as int == averaged_pixel(current@, bufs, i),
        decreases n - idx,
    {
        let mut total: u128 = current[idx] as u128;
        let mut k: usize = 0;
        while k < buffered.len()
            invariant
                k <= buffered@.len(),
                idx < current@.len(),
                bufs == planes_view(buffered@),
                total == average_total(current@, bufs, idx as int, k as nat),
            decreases buffered@.len() - k,
        {
            proof {
                lemma_average_total_bound(current@, bufs, idx as int, k as nat);
            }
            let b = sample_at(buffered[k].as_slice(), idx);
            total = total + b as u128;
            k += 1;
        }
        proof {
            lemma_average_total_bound(current@, bufs, idx as int, buffered@.len());
        }
        let count = buffered.len() as u128 + 1;
        let v = (2 * total + count) / (2 * count);
        proof {
            assert((2 * total + count) / (2 * count) <= 255) by (nonlinear_arith)
                requires
                    total <= 255 * count,
                    count >= 1,
            ;
        }
        out.set(idx, v as u8);
        idx += 1;
    }
    out
}

} // verus!
