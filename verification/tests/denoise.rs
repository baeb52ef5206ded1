use oximedia::denoise::{
    detect_gpu_support, DenoiseMethod, GpuKernelHint, GpuSupport, MotionQuality, TemporalMode,
};

#[test]
fn gpu_support_lists_enabled_back_ends() {
    assert_eq!(detect_gpu_support(false, false, false, false), vec![GpuSupport::Unavailable]);
    assert_eq!(detect_gpu_support(false, false, false, true), vec![GpuSupport::Metal]);
    assert_eq!(
        detect_gpu_support(true, true, true, true),
        vec![GpuSupport::Cuda, GpuSupport::OpenCl, GpuSupport::Vulkan, GpuSupport::Metal]
    );
    assert_eq!(detect_gpu_support(false, true, false, false), vec![GpuSupport::OpenCl]);
}

#[test]
fn kernel_hints_per_method() {
    let h = GpuKernelHint::for_method(DenoiseMethod::NonLocalMeans);
    assert_eq!(h.method, DenoiseMethod::NonLocalMeans);
    assert_eq!(h.workgroup_size, (8, 8));
    assert_eq!(h.memory_requirements, 4 * 1024 * 1024);
    assert_eq!(h.speedup_factor, 15);
    let h = GpuKernelHint::for_method(DenoiseMethod::Gaussian);
    assert_eq!(h.workgroup_size, (32, 8));
    assert_eq!(h.memory_requirements, 512 * 1024);
    let h = GpuKernelHint::for_method(DenoiseMethod::Temporal);
    assert_eq!(h.method, DenoiseMethod::Temporal);
    assert_eq!(h.workgroup_size, (16, 16));
    assert_eq!(h.speedup_factor, 3);
    assert_eq!(GpuKernelHint::for_method(DenoiseMethod::BlockMatching3D).speedup_factor, 25);
}

#[test]
fn gpu_worthwhile_above_quarter_hd() {
    let h = GpuKernelHint::for_method(DenoiseMethod::Bilateral);
    assert!(!h.is_worthwhile(960, 540));
    assert!(h.is_worthwhile(961, 540));
    assert!(h.is_worthwhile(1920, 1080));
}

#[test]
fn denoise_defaults() {
    assert_eq!(DenoiseMethod::default(), DenoiseMethod::Bilateral);
    assert_eq!(TemporalMode::default(), TemporalMode::Average);
    assert_eq!(MotionQuality::default(), MotionQuality::Medium);
}

/// The median filter written out directly: sort each window, take the middle.
fn median_reference(data: &[u8], width: u32, height: u32, radius: u32) -> Vec<u8> {
    let mut out = data.to_vec();
    for y in 0..height {
        for x in 0..width {
            let mut values = Vec::new();
            let y_min = y.saturating_sub(radius);
            let y_max = (y + radius + 1).min(height);
            let x_min = x.saturating_sub(radius);
            let x_max = (x + radius + 1).min(width);
            for ny in y_min..y_max {
                for nx in x_min..x_max {
                    values.push(data.get((ny * width + nx) as usize).copied().unwrap_or(128));
                }
            }
            values.sort_unstable();
            out[(y * width + x) as usize] = values[values.len() / 2];
        }
    }
    out
}

#[test]
fn median_filter_matches_sorted_windows() {
    let mut seed: u32 = 12345;
    for (w, h, r) in [(1u32, 1u32, 0u32), (5, 4, 1), (8, 6, 2), (7, 7, 3), (3, 9, 5)] {
        let len = (w * h) as usize + 3;
        let data: Vec<u8> = (0..len)
            .map(|_| {
                seed = seed.wrapping_mul(1_103_515_245).wrapping_add(12345);
                (seed >> 16) as u8
            })
            .collect();
        assert_eq!(
            oximedia::denoise::median_filter_plane(&data, w, h, r),
            median_reference(&data, w, h, r),
            "{w}x{h} radius {r}"
        );
    }
}

#[test]
fn median_filter_removes_isolated_impulse() {
    let mut data = vec![10u8; 9];
    data[4] = 255;
    let out = oximedia::denoise::median_filter_plane(&data, 3, 3, 1);
    assert_eq!(out, vec![10u8; 9]);
}

/// The neighbour-difference median written out directly.
fn neighbour_median_reference(data: &[u8], width: u32, height: u32) -> Option<u64> {
    let mut diffs = Vec::new();
    for y in 1..height - 1 {
        for x in 1..width - 1 {
            let idx = (y * width + x) as usize;
            let center = data.get(idx).copied().unwrap_or(128) as i32;
            let right = data.get(idx + 1).copied().unwrap_or(128) as i32;
            let bottom = data.get((idx as u32 + width) as usize).copied().unwrap_or(128) as i32;
            diffs.push((center - right).unsigned_abs() as u64);
            diffs.push((center - bottom).unsigned_abs() as u64);
        }
    }
    if diffs.is_empty() {
        return None;
    }
    diffs.sort_unstable();
    Some(diffs[diffs.len() / 2])
}

#[test]
fn neighbour_difference_median_matches_sorted_differences() {
    let mut seed: u32 = 777;
    for (w, h, short) in [(3u32, 3u32, 0usize), (6, 5, 0), (9, 4, 7), (4, 8, 20), (2, 9, 0), (10, 1, 0)] {
        let len = (w * h) as usize - short;
        let data: Vec<u8> = (0..len)
            .map(|_| {
                seed = seed.wrapping_mul(1_103_515_245).wrapping_add(12345);
                (seed >> 16) as u8
            })
            .collect();
        assert_eq!(
            oximedia::denoise::median_neighbour_difference(&data, w, h),
            neighbour_median_reference(&data, w, h),
            "{w}x{h}"
        );
    }
}

#[test]
fn neighbour_difference_of_flat_plane_is_zero() {
    let data = vec![50u8; 16];
    assert_eq!(oximedia::denoise::median_neighbour_difference(&data, 4, 4), Some(0));
    assert_eq!(oximedia::denoise::median_neighbour_difference(&data, 4, 2), None);
}
