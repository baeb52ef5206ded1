use oximedia::fields::{
    blend_orphan_field, field_comb_totals, field_match_totals, line_comb_totals, motion_search,
    scene_difference_totals, shift_plane, visualize_combing, visualize_fields, weave_fields,
    FieldMatchTotals, FieldMetricTotals,
};
use oximedia::ivtc::MotionCompensation;

fn plane(width: usize, height: usize, seed: u32) -> Vec<Vec<u8>> {
    let mut state = seed;
    let mut rows = Vec::new();
    for _ in 0..height {
        let mut row = Vec::new();
        for _ in 0..width {
            state = state.wrapping_mul(1_103_515_245).wrapping_add(12_345);
            row.push((state >> 16) as u8);
        }
        rows.push(row);
    }
    rows
}

fn at(rows: &[Vec<u8>], y: usize, x: usize) -> u8 {
    rows[y].get(x).copied().unwrap_or(0)
}

#[test]
fn weave_takes_alternate_rows() {
    let a = vec![vec![1, 2], vec![3, 4], vec![5, 6]];
    let b = vec![vec![10, 20], vec![30, 40], vec![50, 60]];
    assert_eq!(weave_fields(&a, &b, 2, 3, 0), vec![1, 2, 30, 40, 5, 6]);
    assert_eq!(weave_fields(&a, &b, 2, 3, 1), vec![10, 20, 3, 4, 50, 60]);
}

#[test]
fn weave_pads_short_rows_with_zero() {
    let a = vec![vec![7], vec![8]];
    let b = vec![vec![9], vec![]];
    assert_eq!(weave_fields(&a, &b, 2, 2, 0), vec![7, 0, 0, 0]);
}

#[test]
fn orphan_field_blends_inner_rows() {
    let rows = vec![vec![10, 200], vec![20, 100], vec![30, 0]];
    // Inner row: (10 + 2 * 20 + 30) / 4 = 20 and (200 + 200 + 0) / 4 = 100.
    assert_eq!(blend_orphan_field(&rows, 2, 3), vec![10, 200, 20, 100, 30, 0]);
}

#[test]
fn orphan_field_matches_direct_formula() {
    let (w, h) = (7, 6);
    let rows = plane(w, h, 3);
    let out = blend_orphan_field(&rows, w, h);
    for y in 0..h {
        for x in 0..w {
            let expected = if y == 0 || y == h - 1 {
                at(&rows, y, x)
            } else {
                ((at(&rows, y - 1, x) as u16 + 2 * at(&rows, y, x) as u16 + at(&rows, y + 1, x) as u16) / 4) as u8
            };
            assert_eq!(out[y * w + x], expected);
        }
    }
}

#[test]
fn shift_clamps_to_edges() {
    let rows = vec![vec![1, 2, 3], vec![4, 5, 6]];
    assert_eq!(shift_plane(&rows, 3, 2, 1, 0), vec![2, 3, 3, 5, 6, 6]);
    assert_eq!(shift_plane(&rows, 3, 2, -5, 1), vec![4, 4, 4, 4, 4, 4]);
    assert_eq!(shift_plane(&rows, 3, 2, 0, 0), vec![1, 2, 3, 4, 5, 6]);
}

#[test]
fn compensation_shifts_plane_when_enabled() {
    let rows = vec![vec![1, 2, 3]];
    let m = MotionCompensation::new();
    assert_eq!(m.compensate_field(&rows, 3, 1, (1, 0)), Some(vec![2, 3, 3]));
}

#[test]
fn combing_visualisation_values() {
    // Inner pixel 100 between 0 and 0 differs by 100: above 15, so 255.
    // Inner pixel 12 between 10 and 10 differs by 2: shown as 20.
    let rows = vec![vec![0, 10], vec![100, 12], vec![0, 10]];
    assert_eq!(visualize_combing(&rows, 2, 3), vec![0, 0, 255, 20, 0, 0]);
}

#[test]
fn combing_visualisation_matches_direct_formula() {
    let (w, h) = (5, 7);
    let rows = plane(w, h, 11);
    let out = visualize_combing(&rows, w, h);
    for y in 0..h {
        for x in 0..w {
            let expected = if y >= 1 && y + 1 < h {
                let interp = (at(&rows, y - 1, x) as i32 + at(&rows, y + 1, x) as i32) / 2;
                let diff = (at(&rows, y, x) as i32 - interp).abs();
                if diff > 15 { 255 } else { (diff * 10).min(255) as u8 }
            } else {
                0
            };
            assert_eq!(out[y * w + x], expected);
        }
    }
}

#[test]
fn field_visualisation_greys_other_field() {
    let rows = vec![vec![1, 2], vec![3, 4], vec![5, 6]];
    assert_eq!(visualize_fields(&rows, 2, 3, 0), vec![1, 2, 128, 128, 5, 6]);
    assert_eq!(visualize_fields(&rows, 2, 3, 1), vec![128, 128, 3, 4, 128, 128]);
}

fn block_sad(a: &[Vec<u8>], b: &[Vec<u8>], w: usize, h: usize, x: usize, y: usize, dx: i32, dy: i32) -> u64 {
    let mut sad = 0u64;
    for by in 0..8 {
        for bx in 0..8 {
            let (y1, x1) = (y + by, x + bx);
            let y2 = (y as i32 + by as i32 + dy).clamp(0, h as i32 - 1) as usize;
            let x2 = (x as i32 + bx as i32 + dx).clamp(0, w as i32 - 1) as usize;
            if y1 < h && x1 < w {
                sad += (at(a, y1, x1) as i32 - at(b, y2, x2) as i32).unsigned_abs() as u64;
            }
        }
    }
    sad
}

#[test]
fn motion_search_finds_known_shift() {
    let (w, h) = (24, 24);
    let b = plane(w, h, 5);
    // The first plane is the second shifted by (3, -2): a(x, y) = b(x + 3, y - 2).
    let mut a = vec![vec![0u8; w]; h];
    for y in 0..h {
        for x in 0..w {
            let sy = (y as i32 - 2).clamp(0, h as i32 - 1) as usize;
            let sx = (x as i32 + 3).clamp(0, w as i32 - 1) as usize;
            a[y][x] = b[sy][sx];
        }
    }
    assert_eq!(motion_search(&a, &b, w, h, 8, 8, 4), (3, -2));
    let m = MotionCompensation::new().with_search_range(4);
    assert_eq!(m.calculate_motion_vector(&a, &b, w, h, 8, 8), (3, -2));
}

#[test]
fn motion_search_picks_first_least_difference() {
    let (w, h) = (12, 10);
    let a = plane(w, h, 21);
    let b = plane(w, h, 22);
    let range = 2;
    let mv = motion_search(&a, &b, w, h, 3, 1, range);
    let best = block_sad(&a, &b, w, h, 3, 1, mv.0, mv.1);
    for dy in -range..=range {
        for dx in -range..=range {
            let s = block_sad(&a, &b, w, h, 3, 1, dx, dy);
            assert!(s >= best);
            if dy < mv.1 || (dy == mv.1 && dx < mv.0) {
                assert!(s > best);
            }
        }
    }
}

#[test]
fn motion_search_outside_plane_is_zero() {
    let rows = plane(8, 8, 1);
    assert_eq!(motion_search(&rows, &rows, 8, 8, 8, 0, 3), (0, 0));
    assert_eq!(motion_search(&rows, &rows, 8, 8, 0, 0, -1), (0, 0));
    // A uniform plane matches everywhere: the first vector searched wins.
    let flat = vec![vec![9u8; 8]; 8];
    assert_eq!(motion_search(&flat, &flat, 8, 8, 0, 0, 2), (-2, -2));
}

/// Field match totals written after the frame-level measure they come from.
fn match_reference(a: &[Vec<u8>], w1: usize, h1: usize, f1: u8, b: &[Vec<u8>], w2: usize, h2: usize, f2: u8) -> (u64, u64, u64) {
    let height = h1.min(h2);
    let width = w1.min(w2);
    let (mut comb, mut diff, mut samples) = (0u64, 0u64, 0u64);
    for y in 2..height - 2 {
        let l1 = (y % 2) == f1 as usize;
        let l2 = (y % 2) == f2 as usize;
        if !l1 && !l2 {
            continue;
        }
        for x in 0..width {
            let p1 = at(a, y, x) as i32;
            let p2 = at(b, y, x) as i32;
            diff += (p1 - p2).unsigned_abs() as u64;
            let src = if l1 { a } else { b };
            let interp = (at(src, y - 1, x) as i32 + at(src, y + 1, x) as i32) / 2;
            let curr = if l1 { p1 } else { p2 };
            let c = (curr - interp).abs();
            if c > 15 {
                comb += c as u64;
            }
            samples += 1;
        }
    }
    (comb, diff, samples)
}

#[test]
fn field_match_totals_follow_the_measure() {
    let a = plane(9, 12, 41);
    let b = plane(11, 10, 42);
    for (f1, f2) in [(0u8, 0u8), (0, 1), (1, 0), (1, 1)] {
        let t = field_match_totals(&a, 9, 12, f1, &b, 11, 10, f2);
        let (comb, diff, samples) = match_reference(&a, 9, 12, f1, &b, 11, 10, f2);
        assert_eq!(t, FieldMatchTotals { comb, diff, samples });
    }
}

#[test]
fn field_match_of_identical_frames_has_no_difference() {
    let a = plane(6, 9, 7);
    let t = field_match_totals(&a, 6, 9, 0, &a, 6, 9, 1);
    assert_eq!(t.diff, 0);
    // Rows 2..7 of both fields: five rows of six pixels.
    assert_eq!(t.samples, 30);
}

#[test]
fn short_frames_measure_nothing() {
    let a = plane(4, 3, 1);
    let t = field_match_totals(&a, 4, 3, 0, &a, 4, 3, 1);
    assert_eq!(t, FieldMatchTotals { comb: 0, diff: 0, samples: 0 });
    let m = FieldMetricTotals::calculate(&a, 4, 3);
    assert_eq!(m.samples, 0);
}

#[test]
fn field_metric_totals_follow_the_measure() {
    let (w, h) = (7usize, 9usize);
    let rows = plane(w, h, 99);
    let m = FieldMetricTotals::calculate(&rows, w, h);
    let (mut top, mut bottom, mut inter, mut prog, mut spatial, mut samples) = (0u64, 0u64, 0u64, 0u64, 0u64, 0u64);
    for y in 2..h - 2 {
        for x in 0..w {
            let m2 = at(&rows, y - 2, x) as i32;
            let m1 = at(&rows, y - 1, x) as i32;
            let c = at(&rows, y, x) as i32;
            let p1 = at(&rows, y + 1, x) as i32;
            let p2 = at(&rows, y + 2, x) as i32;
            let comb = (c - (m1 + p1) / 2).abs();
            if y % 2 == 0 {
                top += comb as u64;
            } else {
                bottom += comb as u64;
            }
            let fd = (m1 - p1).abs();
            let sd = (m2 - c).abs() + (c - p2).abs();
            if fd > sd + 10 {
                inter += fd as u64;
            } else {
                prog += sd as u64;
            }
            let gh = (c - at(&rows, y, x.saturating_sub(1)) as i32).abs();
            let gv = (c - m1).abs();
            spatial += (gh + gv) as u64;
            samples += 1;
        }
    }
    assert_eq!(
        m,
        FieldMetricTotals { top_comb: top, bottom_comb: bottom, interlace: inter, progressive: prog, spatial, samples }
    );
}

#[test]
fn alternating_rows_comb_in_both_fields() {
    // Even rows 0, odd rows 200: every measured pixel combs by 200, while the rows two
    // apart agree, so neither interlace nor progressive evidence accrues.
    let rows: Vec<Vec<u8>> = (0..8).map(|y| vec![if y % 2 == 0 { 0 } else { 200 }; 4]).collect();
    let m = FieldMetricTotals::calculate(&rows, 4, 8);
    assert_eq!(m.samples, 16);
    assert_eq!(m.top_comb, 8 * 200);
    assert_eq!(m.bottom_comb, 8 * 200);
    assert_eq!(m.interlace, 0);
    assert_eq!(m.progressive, 0);
}

#[test]
fn field_comb_totals_follow_the_measure() {
    let (w, h) = (8usize, 10usize);
    let rows = plane(w, h, 5);
    let (mut comb, mut samples) = (0u64, 0u64);
    for y in 2..h - 2 {
        for x in 0..w {
            let curr = at(&rows, y, x) as i32;
            let prev1 = at(&rows, y - 1, x) as i32;
            let next1 = at(&rows, y + 1, x) as i32;
            let prev2 = at(&rows, y - 2, x) as i32;
            let next2 = at(&rows, y + 2, x) as i32;
            let diff1 = (curr - (prev1 + next1) / 2).abs();
            let field_diff = (prev1 - next1).abs();
            let same_field_diff = (prev2 - curr).abs() + (curr - next2).abs();
            if diff1 > 15 && field_diff > same_field_diff {
                comb += diff1 as u64;
            }
            samples += 1;
        }
    }
    assert_eq!(field_comb_totals(&rows, w, h), (comb, samples));
}

#[test]
fn line_comb_totals_follow_the_measure() {
    let (w, h) = (6usize, 7usize);
    let rows = plane(w, h, 8);
    let (mut comb, mut samples) = (0u64, 0u64);
    for y in 1..h - 1 {
        for x in 0..w {
            let d = (at(&rows, y, x) as i32 - (at(&rows, y - 1, x) as i32 + at(&rows, y + 1, x) as i32) / 2).abs();
            if d > 15 {
                comb += d as u64;
            }
            samples += 1;
        }
    }
    assert_eq!(line_comb_totals(&rows, w, h), (comb, samples));
    // A single row has no inner rows.
    assert_eq!(line_comb_totals(&rows, w, 1), (0, 0));
}

#[test]
fn scene_difference_samples_every_fourth_pixel() {
    let a = plane(10, 9, 12);
    let b = plane(13, 7, 13);
    let (mut diff, mut samples) = (0u64, 0u64);
    for y in (0..7).step_by(4) {
        for x in (0..10).step_by(4) {
            diff += (at(&a, y, x) as i32 - at(&b, y, x) as i32).unsigned_abs() as u64;
            samples += 1;
        }
    }
    assert_eq!(scene_difference_totals(&a, 10, 9, &b, 13, 7), (diff, samples));
    assert_eq!(samples, 6);
    assert_eq!(scene_difference_totals(&a, 10, 9, &a, 10, 9).0, 0);
    assert_eq!(scene_difference_totals(&a, 0, 9, &b, 13, 7), (0, 0));
}
