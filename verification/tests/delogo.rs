use oximedia::delogo::{DelogoMethod, Rectangle, TeleaInpainting};

#[test]
fn rectangle_edges_and_area() {
    let r = Rectangle::new(10, 20, 30, 40);
    assert_eq!(r, Rectangle { x: 10, y: 20, width: 30, height: 40 });
    assert_eq!(r.right(), 40);
    assert_eq!(r.bottom(), 60);
    assert_eq!(r.area(), 1200);
}

#[test]
fn rectangle_contains_excludes_far_edges() {
    let r = Rectangle::new(10, 20, 30, 40);
    assert!(r.contains(10, 20));
    assert!(r.contains(39, 59));
    assert!(!r.contains(40, 30));
    assert!(!r.contains(20, 60));
    assert!(!r.contains(9, 30));
}

#[test]
fn rectangle_expand_stops_at_zero() {
    let r = Rectangle::new(3, 10, 5, 5).expand(4);
    assert_eq!(r, Rectangle { x: 0, y: 6, width: 13, height: 13 });
    // every point of the unexpanded rectangle stays inside
    let orig = Rectangle::new(3, 10, 5, 5);
    for x in 0..20 {
        for y in 0..20 {
            if orig.contains(x, y) {
                assert!(r.contains(x, y));
            }
        }
    }
}

#[test]
fn rectangle_clamp_to_frame() {
    let r = Rectangle::new(1900, 1000, 100, 200).clamp(1920, 1080);
    assert_eq!(r, Rectangle { x: 1900, y: 1000, width: 20, height: 80 });
    let r = Rectangle::new(5000, 5000, 10, 10).clamp(1920, 1080);
    assert_eq!(r, Rectangle { x: 1919, y: 1079, width: 1, height: 1 });
    let r = Rectangle::new(5, 5, 10, 10).clamp(0, 0);
    assert_eq!(r, Rectangle { x: 0, y: 0, width: 0, height: 0 });
}

#[test]
fn rectangle_scale_for_chroma() {
    let r = Rectangle::new(11, 21, 31, 41).scale_for_chroma(2, 2);
    assert_eq!(r, Rectangle { x: 5, y: 10, width: 15, height: 20 });
}

#[test]
fn delogo_defaults_and_inpainter() {
    assert_eq!(DelogoMethod::default(), DelogoMethod::Inpainting);
    assert_eq!(TeleaInpainting::new(5).radius(), 5);
}

/// The neighbours written as nested loops over the offsets, as std arithmetic gives them.
fn neighbours_by_offsets(r: i32, data: &[u8], mask: &[bool], x: u32, y: u32, w: u32, h: u32) -> Vec<(u32, u8)> {
    let mut out = Vec::new();
    for dy in -r..=r {
        for dx in -r..=r {
            if dx == 0 && dy == 0 {
                continue;
            }
            let nx = x as i32 + dx;
            let ny = y as i32 + dy;
            if nx >= 0 && nx < w as i32 && ny >= 0 && ny < h as i32 {
                let idx = (ny as u32 * w + nx as u32) as usize;
                if !mask.get(idx).copied().unwrap_or(false) {
                    out.push(((dx * dx + dy * dy) as u32, data.get(idx).copied().unwrap_or(128)));
                }
            }
        }
    }
    out
}

#[test]
fn inpainting_neighbours_skip_the_mask_and_the_edges() {
    let data: Vec<u8> = (0..16).map(|i| i * 10).collect();
    let mut mask = vec![false; 16];
    mask[5] = true;
    mask[6] = true;
    let t = TeleaInpainting::new(1);
    // Pixel (1, 1) of a 4 by 4 plane: (2, 1) is masked.
    assert_eq!(
        t.known_neighbours(&data, &mask, 1, 1, 4, 4),
        vec![(2, 0), (1, 10), (2, 20), (1, 40), (2, 80), (1, 90), (2, 100)]
    );
    // The corner (0, 0) has three neighbours inside the plane, one of them masked.
    assert_eq!(t.known_neighbours(&data, &mask, 0, 0, 4, 4), vec![(1, 10), (1, 40)]);
    // Short data reads as 128, a short mask as uncovered.
    assert_eq!(t.known_neighbours(&data[..2], &mask[..1], 0, 1, 4, 4), vec![(1, 0), (2, 10), (1, 128), (1, 128), (2, 128)]);
    for r in 0..4 {
        for (x, y) in [(0, 0), (1, 2), (3, 3), (2, 0)] {
            assert_eq!(
                TeleaInpainting::new(r as usize).known_neighbours(&data, &mask, x, y, 4, 4),
                neighbours_by_offsets(r, &data, &mask, x, y, 4, 4)
            );
        }
    }
}
