use oximedia::denoise::{DenoiseMethod, MotionQuality};
use oximedia::temporal_denoise::{motion_compensated_plane, temporal_average_plane};

fn noise_plane(len: usize, seed: u32) -> Vec<u8> {
    let mut state = seed;
    (0..len)
        .map(|_| {
            state = state.wrapping_mul(1_103_515_245).wrapping_add(12_345);
            (state >> 16) as u8
        })
        .collect()
}

fn quality_params(q: MotionQuality) -> (u32, i32) {
    match q {
        MotionQuality::Fast => (16, 8),
        MotionQuality::Medium => (8, 16),
        MotionQuality::High => (4, 32),
    }
}

fn sad_f32(cur: &[u8], refp: &[u8], cx: u32, cy: u32, rx: u32, ry: u32, bw: u32, bh: u32, width: u32) -> f32 {
    let mut sad = 0.0f32;
    for y in 0..bh {
        for x in 0..bw {
            let ci = ((cy + y) * width + (cx + x)) as usize;
            let ri = ((ry + y) * width + (rx + x)) as usize;
            let a = cur.get(ci).copied().unwrap_or(128) as f32;
            let b = refp.get(ri).copied().unwrap_or(128) as f32;
            sad += (a - b).abs();
        }
    }
    sad
}

#[allow(clippy::too_many_arguments)]
fn motion_f32(cur: &[u8], refp: &[u8], bx: u32, by: u32, bw: u32, bh: u32, width: u32, height: u32, range: i32) -> (i32, i32) {
    let mut best = (0i32, 0i32);
    let mut best_sad = f32::INFINITY;
    for my in -range..=range {
        for mx in -range..=range {
            let rx = bx as i32 + mx;
            let ry = by as i32 + my;
            if rx < 0 || ry < 0 || rx + bw as i32 > width as i32 || ry + bh as i32 > height as i32 {
                continue;
            }
            let sad = sad_f32(cur, refp, bx, by, rx as u32, ry as u32, bw, bh, width);
            if sad < best_sad {
                best_sad = sad;
                best = (mx, my);
            }
        }
    }
    best
}

/// The plane computation written as the float code it stands for.
fn reference(current: &[u8], buffered: &[Vec<u8>], width: u32, height: u32, q: MotionQuality) -> Vec<u8> {
    let (block, range) = quality_params(q);
    let mut data = current.to_vec();
    for by in (0..height).step_by(block as usize) {
        for bx in (0..width).step_by(block as usize) {
            let bw = block.min(width - bx);
            let bh = block.min(height - by);
            let mut sum = vec![0.0f32; (bw * bh) as usize];
            let mut count = 1;
            for py in 0..bh {
                for px in 0..bw {
                    let idx = ((by + py) * width + (bx + px)) as usize;
                    sum[(py * bw + px) as usize] = current.get(idx).copied().unwrap_or(128) as f32;
                }
            }
            for plane in buffered {
                let (mx, my) = motion_f32(current, plane, bx, by, bw, bh, width, height, range);
                for py in 0..bh {
                    for px in 0..bw {
                        let sx = (bx as i32 + px as i32 + mx).clamp(0, width as i32 - 1) as u32;
                        let sy = (by as i32 + py as i32 + my).clamp(0, height as i32 - 1) as u32;
                        let si = (sy * width + sx) as usize;
                        sum[(py * bw + px) as usize] += plane.get(si).copied().unwrap_or(128) as f32;
                    }
                }
                count += 1;
            }
            for py in 0..bh {
                for px in 0..bw {
                    let idx = ((by + py) * width + (bx + px)) as usize;
                    let avg = sum[(py * bw + px) as usize] / count as f32;
                    data[idx] = avg.round().clamp(0.0, 255.0) as u8;
                }
            }
        }
    }
    data
}

#[test]
fn no_buffered_planes_keeps_the_plane() {
    let current = noise_plane(30, 1);
    assert_eq!(motion_compensated_plane(&current, &vec![], 6, 5, MotionQuality::Medium), current);
}

#[test]
fn identical_planes_are_unchanged() {
    let current = noise_plane(20 * 12, 2);
    let buffered = vec![current.clone(), current.clone()];
    assert_eq!(motion_compensated_plane(&current, &buffered, 20, 12, MotionQuality::High), current);
}

#[test]
fn two_planes_average_with_half_rounded_up() {
    // A 1 by 1 plane: every displacement but (0, 0) leaves it, so the means are direct.
    let out = motion_compensated_plane(&[10], &vec![vec![13]], 1, 1, MotionQuality::Fast);
    assert_eq!(out, vec![12]); // (10 + 13) / 2 = 11.5
    let out = motion_compensated_plane(&[10], &vec![vec![12], vec![15]], 1, 1, MotionQuality::Fast);
    assert_eq!(out, vec![12]); // 37 / 3 = 12.33
}

#[test]
fn bytes_past_the_plane_are_kept() {
    let mut current = noise_plane(16, 3);
    current.extend_from_slice(&[1, 2, 3]);
    let buffered = vec![noise_plane(16, 4)];
    let out = motion_compensated_plane(&current, &buffered, 4, 4, MotionQuality::High);
    assert_eq!(&out[16..], &[1, 2, 3]);
}

#[test]
fn shifted_content_is_found_and_averaged() {
    // The buffered plane holds the current content moved right by 2 columns: the
    // motion search finds it, so the mean is the pixel itself.
    let (w, h) = (24u32, 16u32);
    let current = noise_plane((w * h) as usize, 5);
    let mut moved = vec![0u8; (w * h) as usize];
    for y in 0..h {
        for x in 0..w {
            let sx = if x >= 2 { x - 2 } else { 0 };
            moved[(y * w + x) as usize] = current[(y * w + sx) as usize];
        }
    }
    let out = motion_compensated_plane(&current, &vec![moved.clone()], w, h, MotionQuality::Medium);
    assert_eq!(out, reference(&current, &[moved], w, h, MotionQuality::Medium));
    // Blocks whose displaced match stays inside the plane come out exactly.
    for y in 0..h {
        for x in 0..16 {
            assert_eq!(out[(y * w + x) as usize], current[(y * w + x) as usize]);
        }
    }
}

#[test]
fn matches_float_formulation_on_noise() {
    for (i, q) in [MotionQuality::Fast, MotionQuality::Medium, MotionQuality::High].into_iter().enumerate() {
        let (w, h) = (19u32, 11u32);
        let current = noise_plane((w * h) as usize, 10 + i as u32);
        let buffered = vec![noise_plane((w * h) as usize, 20 + i as u32), noise_plane((w * h) as usize - 7, 30 + i as u32)];
        let out = motion_compensated_plane(&current, &buffered, w, h, q);
        assert_eq!(out, reference(&current, &buffered, w, h, q));
    }
}

#[test]
fn temporal_methods_need_buffered_frames() {
    assert!(DenoiseMethod::Temporal.needs_temporal_processing());
    assert!(DenoiseMethod::MotionCompensated.needs_temporal_processing());
    assert!(DenoiseMethod::BlockMatching3D.needs_temporal_processing());
    assert!(DenoiseMethod::Combined.needs_temporal_processing());
    assert!(!DenoiseMethod::Bilateral.needs_temporal_processing());
    assert!(!DenoiseMethod::Median.needs_temporal_processing());
}

#[test]
fn temporal_average_matches_float_formulation() {
    let (w, h) = (7u32, 5u32);
    let mut current = noise_plane((w * h) as usize, 1);
    current.push(99);
    let buffered = vec![noise_plane((w * h) as usize, 2), noise_plane(20, 3), noise_plane((w * h) as usize, 4)];
    let out = temporal_average_plane(&current, &buffered, w, h);
    let mut expected = current.clone();
    for idx in 0..(w * h) as usize {
        let mut sum = current.get(idx).copied().unwrap_or(128) as f32;
        let mut count = 1;
        for plane in &buffered {
            sum += plane.get(idx).copied().unwrap_or(128) as f32;
            count += 1;
        }
        expected[idx] = (sum / count as f32).round().clamp(0.0, 255.0) as u8;
    }
    assert_eq!(out, expected);
    assert_eq!(out[(w * h) as usize], 99);
}

#[test]
fn temporal_average_rounds_halves_up() {
    assert_eq!(temporal_average_plane(&[10, 200], &vec![vec![11, 201]], 2, 1), vec![11, 201]);
    assert_eq!(temporal_average_plane(&[7], &vec![], 1, 1), vec![7]);
}
