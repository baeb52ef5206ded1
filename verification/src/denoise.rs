//! Descriptors of the denoise filter: methods and modes, noise kinds, and the GPU
//! acceleration hints and support list.

use vstd::prelude::*;
use crate::sorting::sort_u64;

verus! {

/// Noise reduction method.
#[derive(Clone, Copy, Debug, PartialEq, Eq)]
pub enum DenoiseMethod {
    /// Bilateral filtering (edge-preserving spatial filter).
    Bilateral,
    /// Non-local means denoising.
    NonLocalMeans,
    /// Gaussian blur.
    Gaussian,
    /// Median filtering.
    Median,
    /// Adaptive filtering based on local variance.
    Adaptive,
    /// Temporal averaging.
    Temporal,
    /// Motion-compensated temporal filtering.
    MotionCompensated,
    /// 3D block matching (BM3D-inspired).
    BlockMatching3D,
    /// Combined spatial and temporal.
    Combined,
}

impl Default for DenoiseMethod {
    fn default() -> (m: Self)
        ensures
            m == DenoiseMethod::Bilateral,
    {
        DenoiseMethod::Bilateral
    }
}

impl DenoiseMethod {
    /// Whether the method works across frames, and so needs buffered frames.
    pub fn needs_temporal_processing(&self) -> (b: bool)
        ensures
            b <==> (*self == DenoiseMethod::Temporal || *self == DenoiseMethod::MotionCompensated || *self
                == DenoiseMethod::BlockMatching3D || *self == DenoiseMethod::Combined),
    {
        match self {
            DenoiseMethod::Temporal | DenoiseMethod::MotionCompensated | DenoiseMethod::BlockMatching3D
            | DenoiseMethod::Combined => true,
            _ => false,
        }
    }
}

/// Temporal filter mode.
#[derive(Clone, Copy, Debug, PartialEq, Eq)]
pub enum TemporalMode {
    /// Simple temporal averaging.
    Average,
    /// Recursive temporal filtering.
    Recursive,
    /// Motion-compensated.
    MotionCompensated,
    /// Weighted averaging based on similarity.
    WeightedAverage,
}

impl Default for TemporalMode {
    fn default() -> (m: Self)
        ensures
            m == TemporalMode::Average,
    {
        TemporalMode::Average
    }
}

/// Motion estimation quality.
#[derive(Clone, Copy, Debug, PartialEq, Eq)]
pub enum MotionQuality {
    /// Fast motion estimation (larger block size, limited search).
    Fast,
    /// Balanced quality and speed.
    Medium,
    /// High quality (smaller blocks, larger search).
    High,
}

impl Default for MotionQuality {
    fn default() -> (q: Self)
        ensures
            q == MotionQuality::Medium,
    {
        MotionQuality::Medium
    }
}

/// Classify noise type based on characteristics.
#[derive(Debug, Clone, Copy, PartialEq, Eq)]
pub enum NoiseType {
    /// Gaussian white noise.
    Gaussian,
    /// Salt and pepper (impulse) noise.
    Impulse,
    /// Film grain noise.
    FilmGrain,
    /// Compression artifacts.
    Compression,
    /// Unknown or mixed noise.
    Unknown,
}

/// GPU acceleration availability.
#[derive(Debug, Clone, Copy, PartialEq, Eq)]
pub enum GpuSupport {
    /// No GPU support.
    Unavailable,
    /// CUDA support.
    Cuda,
    /// OpenCL support.
    OpenCl,
    /// Vulkan support.
    Vulkan,
    /// Metal support (macOS/iOS).
    Metal,
}

/// The GPU back ends of a build, in the order CUDA, OpenCL, Vulkan, Metal, or the
/// single entry `Unavailable` when there are none.
pub open spec fn spec_gpu_support(cuda: bool, opencl: bool, vulkan: bool, apple: bool) -> Seq<GpuSupport> {
    let s = (if cuda {
        seq![GpuSupport::Cuda]
    } else {
        Seq::empty()
    }) + (if opencl {
        seq![GpuSupport::OpenCl]
    } else {
        Seq::empty()
    }) + (if vulkan {
        seq![GpuSupport::Vulkan]
    } else {
        Seq::empty()
    }) + (if apple {
        seq![GpuSupport::Metal]
    } else {
        Seq::empty()
    });
    if s.len() == 0 {
        seq![GpuSupport::Unavailable]
    } else {
        s
    }
}

/// Detect available GPU support from what the build enables: the CUDA, OpenCL and
/// Vulkan back ends, and Metal on Apple platforms.
pub fn detect_gpu_support(cuda: bool, opencl: bool, vulkan: bool, apple: bool) -> (v: Vec<GpuSupport>)
    ensures
        v@ == spec_gpu_support(cuda, opencl, vulkan, apple),
{
    let mut support: Vec<GpuSupport> = Vec::new();
    if cuda {
        support.push(GpuSupport::Cuda);
    }
    if opencl {
        support.push(GpuSupport::OpenCl);
    }
    if vulkan {
        support.push(GpuSupport::Vulkan);
    }
    if apple {
        support.push(GpuSupport::Metal);
    }
    proof {
        let s = (if cuda {
            seq![GpuSupport::Cuda]
        } else {
            Seq::empty()
        }) + (if opencl {
            seq![GpuSupport::OpenCl]
        } else {
            Seq::empty()
        }) + (if vulkan {
            seq![GpuSupport::Vulkan]
        } else {
            Seq::empty()
        }) + (if apple {
            seq![GpuSupport::Metal]
        } else {
            Seq::empty()
        });
        assert(support@ =~= s);
    }
    if support.len() == 0 {
        support.push(GpuSupport::Unavailable);
    }
    support
}

/// GPU compute kernel hint.
#[derive(Debug, Clone, Copy, PartialEq, Eq)]
pub struct GpuKernelHint {
    /// Method being accelerated.
    pub method: DenoiseMethod,
    /// Recommended workgroup size.
    pub workgroup_size: (u32, u32),
    /// Memory requirements (bytes).
    pub memory_requirements: usize,
    /// Expected speedup factor (a whole multiple).
    pub speedup_factor: u32,
}

/// The kernel hint of a method: workgroup size, memory and expected speedup.
pub open spec fn spec_kernel_hint(method: DenoiseMethod) -> GpuKernelHint {
    match method {
        DenoiseMethod::Bilateral => GpuKernelHint {
            method,
            workgroup_size: (16, 16),
            memory_requirements: 1048576,
            speedup_factor: 8,
        },
        DenoiseMethod::NonLocalMeans => GpuKernelHint {
            method,
            workgroup_size: (8, 8),
            memory_requirements: 4194304,
            speedup_factor: 15,
        },
        DenoiseMethod::Gaussian => GpuKernelHint {
            method,
            workgroup_size: (32, 8),
            memory_requirements: 524288,
            speedup_factor: 5,
        },
        DenoiseMethod::Median => GpuKernelHint {
            method,
            workgroup_size: (16, 16),
            memory_requirements: 2097152,
            speedup_factor: 6,
        },
        DenoiseMethod::Adaptive => GpuKernelHint {
            method,
            workgroup_size: (16, 16),
            memory_requirements: 2097152,
            speedup_factor: 7,
        },
        DenoiseMethod::MotionCompensated => GpuKernelHint {
            method,
            workgroup_size: (8, 8),
            memory_requirements: 8388608,
            speedup_factor: 20,
        },
        DenoiseMethod::BlockMatching3D => GpuKernelHint {
            method,
            workgroup_size: (8, 8),
            memory_requirements: 16777216,
            speedup_factor: 25,
        },
        _ => GpuKernelHint {
            method,
            workgroup_size: (16, 16),
            memory_requirements: 1048576,
            speedup_factor: 3,
        },
    }
}

impl GpuKernelHint {
    /// Get GPU kernel hint for a method.
    pub fn for_method(method: DenoiseMethod) -> (h: Self)
        ensures
            h == spec_kernel_hint(method),
    {
        match method {
            DenoiseMethod::Bilateral => GpuKernelHint {
                method,
                workgroup_size: (16, 16),
                memory_requirements: 1024 * 1024,
                speedup_factor: 8,
            },
            DenoiseMethod::NonLocalMeans => GpuKernelHint {
                method,
                workgroup_size: (8, 8),
                memory_requirements: 4 * 1024 * 1024,
                speedup_factor: 15,
            },
            DenoiseMethod::Gaussian => GpuKernelHint {
                method,
                workgroup_size: (32, 8),
                memory_requirements: 512 * 1024,
                speedup_factor: 5,
            },
            DenoiseMethod::Median => GpuKernelHint {
                method,
                workgroup_size: (16, 16),
                memory_requirements: 2 * 1024 * 1024,
                speedup_factor: 6,
            },
            DenoiseMethod::Adaptive => GpuKernelHint {
                method,
                workgroup_size: (16, 16),
                memory_requirements: 2 * 1024 * 1024,
                speedup_factor: 7,
            },
            DenoiseMethod::MotionCompensated => GpuKernelHint {
                method,
                workgroup_size: (8, 8),
                memory_requirements: 8 * 1024 * 1024,
                speedup_factor: 20,
            },
            DenoiseMethod::BlockMatching3D => GpuKernelHint {
                method,
                workgroup_size: (8, 8),
                memory_requirements: 16 * 1024 * 1024,
                speedup_factor: 25,
            },
            _ => GpuKernelHint {
                method,
                workgroup_size: (16, 16),
                memory_requirements: 1024 * 1024,
                speedup_factor: 3,
            },
        }
    }

    /// Check if GPU is worth using for given resolution: more pixels than a
    /// quarter of 1920x1080.
    pub fn is_worthwhile(&self, width: u32, height: u32) -> (b: bool)
        requires
            width * height <= u32::MAX,
        ensures
            b <==> width * height > 518400,
    {
        let pixels = width * height;
        pixels > 1920 * 1080 / 4
    }
}

// ── Median filtering ────────────────────────────────────────────────────────

/// The first row (or column) of the window of radius `r` around `c`.
pub open spec fn window_start(c: nat, r: nat) -> nat {
    if c >= r {
        (c - r) as nat
    } else {
        0
    }
}

/// One past the last row (or column) of the window of radius `r` around `c` in an
/// axis of `size` pixels.
pub open spec fn window_end(c: nat, r: nat, size: nat) -> nat {
    if c + r + 1 <= size {
        c + r + 1
    } else {
        size
    }
}

/// The values of the pixels of a `w`-wide plane `d` in the square window of radius
/// `r` around `(x, y)`, cut to the `w` by `h` frame, row by row.
pub open spec fn window_values(d: Seq<u8>, w: nat, h: nat, r: nat, x: nat, y: nat) -> Seq<u64> {
    let y0 = window_start(y, r);
    let x0 = window_start(x, r);
    let cols = (window_end(x, r, w) - x0) as nat;
    let rows = (window_end(y, r, h) - y0) as nat;
    Seq::new(rows * cols, |k: int| d[(y0 + k / (cols as int)) * w + x0 + k % (cols as int)] as u64)
}

/// Ascending order of values.
pub open spec fn ascending() -> spec_fn(u64, u64) -> bool {
    |a: u64, b: u64| a <= b
}

/// The median of the window around `(x, y)`: the middle value (the upper one of an
/// even count) of the window's values in ascending order.
pub open spec fn window_median(d: Seq<u8>, w: nat, h: nat, r: nat, x: nat, y: nat) -> u8 {
    let v = window_values(d, w, h, r, x, y);
    v.sort_by(ascending())[(v.len() / 2) as int] as u8
}

/// Plane `d` with each of its first `w * h` pixels replaced by the median of its
/// window; any further bytes are kept.
pub open spec fn median_filtered(d: Seq<u8>, w: nat, h: nat, r: nat) -> Seq<u8> {
    Seq::new(
        d.len(),
        |i: int|
            if i < w * h {
                window_median(d, w, h, r, (i % w as int) as nat, (i / w as int) as nat)
            } else {
                d[i]
            },
    )
}

proof fn lemma_row_major(k: int, cols: int, row: int, col: int)
    requires
        cols > 0,
        0 <= col < cols,
        row >= 0,
        k == row * cols + col,
    ensures
        k / cols == row,
        k % cols == col,
{
    vstd::arithmetic::div_mod::lemma_fundamental_div_mod_converse(k, cols, row, col);
}

/// The median of the window of `(x, y)` (computed by sorting the window).
fn median_at(d: &Vec<u8>, w: u32, h: u32, r: u32, x: u32, y: u32) -> (m: u8)
    requires
        x < w,
        y < h,
        w as int * h as int <= d@.len(),
        w as int * h as int <= u32::MAX,
        w + r + 1 <= u32::MAX,
        h + r + 1 <= u32::MAX,
    ensures
        m == window_median(d@, w as nat, h as nat, r as nat, x as nat, y as nat),
{
    let y0 = y.saturating_sub(r);
    let y1 = if y + r + 1 <= h {
        y + r + 1
    } else {
        h
    };
    let x0 = x.saturating_sub(r);
    let x1 = if x + r + 1 <= w {
        x + r + 1
    } else {
        w
    };
    let ghost cols = (x1 - x0) as int;
    let ghost target = window_values(d@, w as nat, h as nat, r as nat, x as nat, y as nat);
    let mut values: Vec<u64> = Vec::new();
    let mut ny = y0;
    while ny < y1
        invariant
            y0 <= ny <= y1 <= h,
            x0 <= x < x1 <= w,
            y0 <= y < y1,
            cols == x1 - x0,
            w as int * h as int <= d@.len(),
            w as int * h as int <= u32::MAX,
            target == window_values(d@, w as nat, h as nat, r as nat, x as nat, y as nat),
            y0 == window_start(y as nat, r as nat),
            x0 == window_start(x as nat, r as nat),
            y1 == window_end(y as nat, r as nat, h as nat),
            x1 == window_end(x as nat, r as nat, w as nat),
            values@.len() == (ny - y0) * cols,
            forall|k: int| 0 <= k < values@.len() ==> #[trigger] values@[k] == target[k],
        decreases y1 - ny,
    {
        let mut nx = x0;
        while nx < x1
            invariant
                y0 <= ny < y1 <= h,
                x0 <= nx <= x1 <= w,
                x0 <= x < x1,
                cols == x1 - x0,
                w as int * h as int <= d@.len(),
                w as int * h as int <= u32::MAX,
                target == window_values(d@, w as nat, h as nat, r as nat, x as nat, y as nat),
                y0 == window_start(y as nat, r as nat),
                x0 == window_start(x as nat, r as nat),
                y1 == window_end(y as nat, r as nat, h as nat),
                x1 == window_end(x as nat, r as nat, w as nat),
                values@.len() == (ny - y0) * cols + (nx - x0),
                forall|k: int| 0 <= k < values@.len() ==> #[trigger] values@[k] == target[k],
            decreases x1 - nx,
        {
            proof {
                assert(ny * w + nx < w * h) by (nonlinear_arith)
                    requires
                        ny < h,
                        nx < w,
                ;
                let k = (ny - y0) * cols + (nx - x0);
                lemma_row_major(k, cols, (ny - y0) as int, (nx - x0) as int);
                assert(target.len() == (y1 - y0) * cols);
                let a: int = ny - y0;
                let b: int = y1 - y0;
                let c: int = nx - x0;
                assert(a * cols + c < b * cols) by (nonlinear_arith)
                    requires
                        0 <= c < cols,
                        0 <= a < b,
                ;
                assert(k < target.len());
                assert(target[k] == d@[(y0 + k / cols) * w + x0 + k % cols] as u64);
            }
            let idx = ny * w + nx;
            values.push(d[idx as usize] as u64);
            nx += 1;
        }
        proof {
            assert((ny - y0) * cols + cols == (ny + 1 - y0) * cols) by (nonlinear_arith);
        }
        ny += 1;
    }
    proof {
        assert(values@ =~= target);
        assert(target.len() > 0) by (nonlinear_arith)
            requires
                target.len() == (y1 - y0) * cols,
                y1 > y0,
                cols > 0,
        ;
    }
    let sorted = sort_u64(&values);
    proof {
        target.lemma_sort_by_ensures(ascending());
        let leq = ascending();
        assert(vstd::relations::total_ordering(leq));
        assert(vstd::relations::sorted_by(sorted@, leq)) by {
            assert forall|i: int, j: int| 0 <= i < j < sorted@.len() implies #[trigger] leq(sorted@[i], sorted@[j]) by {
            }
        }
        vstd::seq_lib::lemma_sorted_unique(sorted@, target.sort_by(leq), leq);
        assert(forall|k: int| 0 <= k < sorted@.len() ==> sorted@[k] <= 255) by {
            assert forall|k: int| 0 <= k < sorted@.len() implies sorted@[k] <= 255 by {
                broadcast use vstd::seq_lib::group_to_multiset_ensures;

                assert(sorted@.contains(sorted@[k]));
                assert(sorted@.to_multiset().count(sorted@[k]) > 0);
                assert(target.to_multiset().count(sorted@[k]) > 0);
                assert(target.contains(sorted@[k]));
            }
        }
    }
    sorted[sorted.len() / 2] as u8
}

/// Apply a median filter of radius `radius` to a `width` by `height` plane held row
/// by row (`width` bytes per row): each pixel becomes the median of the pixels of
/// its window, cut to the frame; any bytes after the first `width * height` are
/// kept.
pub fn median_filter_plane(data: &Vec<u8>, width: u32, height: u32, radius: u32) -> (out: Vec<u8>)
    requires
        width as int * height as int <= data@.len(),
        width as int * height as int <= u32::MAX,
        width + radius + 1 <= u32::MAX,
        height + radius + 1 <= u32::MAX,
    ensures
        out@ == median_filtered(data@, width as nat, height as nat, radius as nat),
{
    let ghost target = median_filtered(data@, width as nat, height as nat, radius as nat);
    let mut out: Vec<u8> = Vec::new();
    let mut i: usize = 0;
    while i < data.len()
        invariant
            i <= data@.len(),
            out@ == data@.take(i as int),
        decreases data@.len() - i,
    {
        out.push(data[i]);
        proof {
            assert(data@.take(i + 1) =~= data@.take(i as int).push(data@[i as int]));
        }
        i += 1;
    }
    proof {
        assert(data@.take(data@.len() as int) =~= data@);
    }
    let mut y: u32 = 0;
    while y < height
        invariant
            y <= height,
            width as int * height as int <= data@.len(),
            width as int * height as int <= u32::MAX,
            width + radius + 1 <= u32::MAX,
            height + radius + 1 <= u32::MAX,
            target == median_filtered(data@, width as nat, height as nat, radius as nat),
            out@.len() == data@.len(),
            forall|k: int| 0 <= k < y * width ==> #[trigger] out@[k] == target[k],
            forall|k: int| y * width <= k < out@.len() ==> #[trigger] out@[k] == data@[k],
        decreases height - y,
    {
        let mut x: u32 = 0;
        while x < width
            invariant
                y < height,
                x <= width,
                width as int * height as int <= data@.len(),
                width as int * height as int <= u32::MAX,
                width + radius + 1 <= u32::MAX,
                height + radius + 1 <= u32::MAX,
                target == median_filtered(data@, width as nat, height as nat, radius as nat),
                out@.len() == data@.len(),
                forall|k: int| 0 <= k < y * width + x ==> #[trigger] out@[k] == target[k],
                forall|k: int| y * width + x <= k < out@.len() ==> #[trigger] out@[k] == data@[k],
            decreases width - x,
        {
            proof {
                assert(y * width + x < width * height) by (nonlinear_arith)
                    requires
                        y < height,
                        x < width,
                ;
                lemma_row_major((y * width + x) as int, width as int, y as int, x as int);
            }
            let m = median_at(data, width, height, radius, x, y);
            let idx = y * width + x;
            out.set(idx as usize, m);
            x += 1;
        }
        proof {
            assert(y * width + width == (y + 1) * width) by (nonlinear_arith);
        }
        y += 1;
    }
    proof {
        assert(out@ =~= target) by {
            assert forall|k: int| 0 <= k < out@.len() implies out@[k] == target[k] by {
                if k >= height * width {
                    assert(!(k < width * height)) by (nonlinear_arith)
                        requires
                            k >= height * width,
                    ;
                }
            }
        }
    }
    out
}

// ── Noise estimation ────────────────────────────────────────────────────────

/// Pixel `i` of `d`, or 128 past its end.
pub open spec fn pixel_or_grey(d: Seq<u8>, i: int) -> int {
    if 0 <= i < d.len() {
        d[i] as int
    } else {
        128
    }
}

/// `|a - b|`.
pub open spec fn abs_diff(a: int, b: int) -> int {
    if a >= b {
        a - b
    } else {
        b - a
    }
}

/// The differences between each inner pixel of a `w` by `h` plane and its right and
/// lower neighbours, row by row: for pixel `(x, y)` with `1 <= x < w - 1` and
/// `1 <= y < h - 1`, first the difference to `(x + 1, y)`, then to `(x, y + 1)`.
pub open spec fn neighbour_diffs(d: Seq<u8>, w: nat, h: nat) -> Seq<u64> {
    let cols: nat = if w >= 2 {
        (w - 2) as nat
    } else {
        0
    };
    let rows: nat = if h >= 2 {
        (h - 2) as nat
    } else {
        0
    };
    Seq::new(
        2 * rows * cols,
        |k: int|
            {
                let p = k / 2;
                let y = 1 + p / (cols as int);
                let x = 1 + p % (cols as int);
                let idx = y * w + x;
                let other = if k % 2 == 0 {
                    idx + 1
                } else {
                    idx + w
                };
                abs_diff(pixel_or_grey(d, idx), pixel_or_grey(d, other)) as u64
            },
    )
}

/// The middle value (the upper one of an even count) of the neighbour differences
/// of a plane in ascending order, or `None` when the plane has no inner pixel.
pub open spec fn median_neighbour_diff(d: Seq<u8>, w: nat, h: nat) -> Option<u64> {
    let v = neighbour_diffs(d, w, h);
    if v.len() == 0 {
        None
    } else {
        Some(v.sort_by(ascending())[(v.len() / 2) as int])
    }
}

/// Pixel `i` of `d`, or 128 past its end.
fn pixel_at(d: &Vec<u8>, i: usize) -> (v: i32)
    ensures
        v == pixel_or_grey(d@, i as int),
{
    if i < d.len() {
        d[i] as i32
    } else {
        128
    }
}

/// The median difference between the inner pixels of a `width` by `height` plane
/// and their right and lower neighbours (pixels past the end of the data read as
/// 128), the robust noise measure from which the noise level is estimated; `None`
/// when the plane has no inner pixel.
pub fn median_neighbour_difference(data: &Vec<u8>, width: u32, height: u32) -> (r: Option<u64>)
    requires
        height >= 1,
        height >= 3 ==> width >= 1,
        width as int * height as int <= u32::MAX,
    ensures
        r == median_neighbour_diff(data@, width as nat, height as nat),
{
    let ghost cols: int = if width >= 2 { width - 2 } else { 0 };
    let ghost target = neighbour_diffs(data@, width as nat, height as nat);
    let mut diffs: Vec<u64> = Vec::new();
    let mut y: u32 = 1;
    proof {
        assert(2 * ((y - 1) * cols) == 0) by (nonlinear_arith)
            requires
                y == 1,
        ;
    }
    while y < height - 1
        invariant
            1 <= y,
            y <= height - 1 || (height == 1 && y == 1),
            height >= 1,
            height >= 3 ==> width >= 1,
            width as int * height as int <= u32::MAX,
            cols == (if width >= 2 { width - 2 } else { 0 }),
            target == neighbour_diffs(data@, width as nat, height as nat),
            diffs@.len() == 2 * ((y - 1) * cols),
            forall|k: int| 0 <= k < diffs@.len() ==> #[trigger] diffs@[k] == target[k],
        decreases height - y,
    {
        let mut x: u32 = 1;
        while x < width - 1
            invariant
                1 <= y < height - 1,
                1 <= x,
                x <= width - 1 || (width == 1 && x == 1),
                width as int * height as int <= u32::MAX,
                cols == (if width >= 2 { width - 2 } else { 0 }),
                target == neighbour_diffs(data@, width as nat, height as nat),
                diffs@.len() == 2 * ((y - 1) * cols + (x - 1)),
                forall|k: int| 0 <= k < diffs@.len() ==> #[trigger] diffs@[k] == target[k],
            decreases width - x,
        {
            proof {
                assert(y * width + x + width < width * height) by (nonlinear_arith)
                    requires
                        y < height - 1,
                        x < width - 1,
                ;
                let p = (y - 1) * cols + (x - 1);
                lemma_row_major(p, cols, (y - 1) as int, (x - 1) as int);
                let rows: int = height - 2;
                assert(2 * p + 1 < 2 * rows * cols) by (nonlinear_arith)
                    requires
                        p == (y - 1) * cols + (x - 1),
                        0 <= x - 1 < cols,
                        0 <= y - 1 < rows,
                ;
                assert((2 * p) / 2 == p && (2 * p + 1) / 2 == p);
                assert((2 * p) % 2 == 0 && (2 * p + 1) % 2 == 1);
            }
            let idx = y * width + x;
            let center = pixel_at(data, idx as usize);
            let right = pixel_at(data, (idx + 1) as usize);
            let bottom = pixel_at(data, (idx + width) as usize);
            let d1: i32 = if center >= right { center - right } else { right - center };
            let d2: i32 = if center >= bottom { center - bottom } else { bottom - center };
            diffs.push(d1 as u64);
            diffs.push(d2 as u64);
            proof {
                assert(2 * ((y - 1) * cols + (x - 1)) + 2 == 2 * ((y - 1) * cols + x)) by (nonlinear_arith);
            }
            x += 1;
        }
        proof {
            if width >= 2 {
                assert(x == width - 1);
            } else {
                assert(cols == 0);
            }
            assert(2 * ((y - 1) * cols + cols) == 2 * (y * cols)) by (nonlinear_arith);
        }
        y += 1;
    }
    proof {
        let rows: int = if height >= 2 { height - 2 } else { 0 };
        if height >= 2 {
            assert(y == height - 1);
        } else {
            assert(y == 1);
        }
        assert(2 * ((y - 1) * cols) == 2 * rows * cols) by (nonlinear_arith)
            requires
                y - 1 == rows,
        ;
        assert(diffs@.len() == 2 * rows * cols);
        assert(diffs@ =~= target);
    }
    if diffs.len() == 0 {
        return None;
    }
    let sorted = sort_u64(&diffs);
    proof {
        target.lemma_sort_by_ensures(ascending());
        let leq = ascending();
        assert(vstd::relations::total_ordering(leq));
        assert(vstd::relations::sorted_by(sorted@, leq)) by {
            assert forall|i: int, j: int| 0 <= i < j < sorted@.len() implies #[trigger] leq(sorted@[i], sorted@[j]) by {
            }
        }
        vstd::seq_lib::lemma_sorted_unique(sorted@, target.sort_by(leq), leq);
    }
    Some(sorted[sorted.len() / 2])
}

} // verus!
