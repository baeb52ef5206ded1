use oximedia::edge::{detect_laplacian, detect_sobel};

fn noise(len: usize, seed: u32) -> Vec<u8> {
    let mut state = seed;
    (0..len)
        .map(|_| {
            state = state.wrapping_mul(1_103_515_245).wrapping_add(12_345);
            (state >> 16) as u8
        })
        .collect()
}

fn reference(data: &[u8], width: u32, height: u32, kernel: [i32; 9]) -> Vec<i32> {
    let mut out = vec![0i32; (width * height) as usize];
    for y in 1..height - 1 {
        for x in 1..width - 1 {
            let mut sum = 0i32;
            for ky in 0..3 {
                for kx in 0..3 {
                    let idx = ((y + ky - 1) * width + (x + kx - 1)) as usize;
                    let v = data.get(idx).copied().unwrap_or(128) as i32;
                    sum += v * kernel[(ky * 3 + kx) as usize];
                }
            }
            out[(y * width + x) as usize] = sum;
        }
    }
    out
}

#[test]
fn laplacian_matches_the_kernel() {
    let (w, h) = (9u32, 7u32);
    let data = noise((w * h) as usize, 3);
    let expected: Vec<u32> = reference(&data, w, h, [0, -1, 0, -1, 4, -1, 0, -1, 0])
        .into_iter()
        .map(|v| v.unsigned_abs())
        .collect();
    assert_eq!(detect_laplacian(&data, w, h), expected);
}

#[test]
fn sobel_matches_the_kernels() {
    let (w, h) = (8u32, 6u32);
    let data = noise((w * h) as usize - 5, 4);
    let gx = reference(&data, w, h, [-1, 0, 1, -2, 0, 2, -1, 0, 1]);
    let gy = reference(&data, w, h, [-1, -2, -1, 0, 0, 0, 1, 2, 1]);
    let expected: Vec<(i32, i32)> = gx.into_iter().zip(gy).collect();
    assert_eq!(detect_sobel(&data, w, h), expected);
}

#[test]
fn flat_plane_has_no_edges() {
    let data = vec![77u8; 25];
    assert!(detect_laplacian(&data, 5, 5).iter().all(|&v| v == 0));
    assert!(detect_sobel(&data, 5, 5).iter().all(|&g| g == (0, 0)));
}

#[test]
fn vertical_step_edge() {
    // Columns 0..2 dark, 2..4 bright: the inner pixels next to the step respond.
    let data: Vec<u8> = (0..16).map(|i| if i % 4 < 2 { 0 } else { 100 }).collect();
    let g = detect_sobel(&data, 4, 4);
    assert_eq!(g[5], (400, 0));
    assert_eq!(g[6], (400, 0));
    assert_eq!(g[0], (0, 0));
    let l = detect_laplacian(&data, 4, 4);
    assert_eq!(l[5], 100);
    assert_eq!(l[6], 100);
}

#[test]
fn thin_planes_are_all_border() {
    let data = noise(6, 9);
    assert_eq!(detect_laplacian(&data, 3, 2), vec![0; 6]);
    assert_eq!(detect_sobel(&data, 6, 1), vec![(0, 0); 6]);
}
