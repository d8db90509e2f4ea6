use sigtrace::contour::{ccw, cw, rev, trace_loops};

fn mask(w: usize, h: usize, fg: &[(usize, usize)]) -> Vec<u8> {
    let mut m = vec![0u8; w * h];
    for &(x, y) in fg {
        m[y * w + x] = 255;
    }
    m
}

#[test]
fn solid_square_is_one_loop() {
    // 4x4 ink block inside an 8x8 frame
    let mut fg = Vec::new();
    for y in 2..6 {
        for x in 2..6 {
            fg.push((x, y));
        }
    }
    let loops = trace_loops(&mask(8, 8, &fg), 8, 8);
    assert_eq!(loops.len(), 1);
    // pixel-edge boundary => 4 corners at the block edges
    assert_eq!(loops[0].len(), 4);
    let xs: Vec<i32> = loops[0].iter().map(|p| p.0).collect();
    assert!(xs.iter().cloned().fold(i32::MAX, i32::min) == 2);
    assert!(xs.iter().cloned().fold(i32::MIN, i32::max) == 6);
}

#[test]
fn square_with_hole_is_two_loops() {
    // 6x6 ink ring (outer 6x6 minus inner 2x2) => outer + hole boundary
    let mut fg = Vec::new();
    for y in 1..7 {
        for x in 1..7 {
            let hole = (3..5).contains(&x) && (3..5).contains(&y);
            if !hole {
                fg.push((x, y));
            }
        }
    }
    let loops = trace_loops(&mask(8, 8, &fg), 8, 8);
    assert_eq!(loops.len(), 2);
}

#[test]
fn single_pixel_loop_starts_at_its_corner_and_turns_right() {
    // one ink pixel at (1, 1): the walk starts at the smallest corner (1, 1),
    // goes east first and keeps the ink on its right
    let loops = trace_loops(&mask(3, 3, &[(1, 1)]), 3, 3);
    assert_eq!(loops, vec![vec![(1, 1), (2, 1), (2, 2), (1, 2)]]);
}

#[test]
fn empty_mask_has_no_loops() {
    let loops = trace_loops(&mask(5, 4, &[]), 5, 4);
    assert!(loops.is_empty());
}

#[test]
fn hole_is_traced_with_opposite_winding() {
    let mut fg = Vec::new();
    for y in 0..3 {
        for x in 0..3 {
            if !(x == 1 && y == 1) {
                fg.push((x, y));
            }
        }
    }
    let loops = trace_loops(&mask(3, 3, &fg), 3, 3);
    assert_eq!(loops.len(), 2);
    assert_eq!(loops[0], vec![(0, 0), (3, 0), (3, 3), (0, 3)]);
    // the hole boundary runs the other way round
    assert_eq!(loops[1], vec![(1, 1), (1, 2), (2, 2), (2, 1)]);
}

#[test]
fn corner_touching_pixels_make_two_loops() {
    // two pixels touching at a corner: the sharpest right turn at the shared
    // corner keeps them apart
    let loops = trace_loops(&mask(2, 2, &[(0, 0), (1, 1)]), 2, 2);
    assert_eq!(
        loops,
        vec![vec![(0, 0), (1, 0), (1, 1), (0, 1)], vec![(1, 1), (2, 1), (2, 2), (1, 2)]]
    );
}

#[test]
fn turn_helpers() {
    assert_eq!(cw((1, 0)), (0, 1));
    assert_eq!(ccw((1, 0)), (0, -1));
    assert_eq!(rev((1, 0)), (-1, 0));
    assert_eq!(cw((0, 1)), (-1, 0));
}

#[test]
fn every_loop_closes_along_lattice_lines() {
    // an irregular blob: each traced loop, read as a closed polygon, only
    // moves along grid lines, including the step from its last corner back
    // to its first
    let fg = [(1usize, 1usize), (2, 1), (3, 1), (1, 2), (3, 2), (1, 3), (2, 3), (3, 3), (5, 2), (5, 3), (6, 3)];
    let loops = trace_loops(&mask(8, 6, &fg), 8, 6);
    assert_eq!(loops.len(), 3);
    for lp in &loops {
        assert!(lp.len() >= 4);
        for i in 0..lp.len() {
            let a = lp[i];
            let b = lp[(i + 1) % lp.len()];
            assert!(a.0 == b.0 || a.1 == b.1);
            assert!(a != b);
        }
    }
}

#[test]
fn loops_take_each_boundary_edge_once() {
    // the total length of the traced loops equals the number of pixel sides
    // that separate ink from background (or from outside the image)
    let (w, h) = (8usize, 6usize);
    let fg = [(1usize, 1usize), (2, 1), (3, 1), (1, 2), (3, 2), (1, 3), (2, 3), (3, 3), (5, 2), (5, 3), (6, 3), (6, 4)];
    let m = mask(w, h, &fg);
    let ink = |x: i64, y: i64| x >= 0 && y >= 0 && (x as usize) < w && (y as usize) < h && m[y as usize * w + x as usize] != 0;
    let mut sides = 0i64;
    for y in 0..h as i64 {
        for x in 0..w as i64 {
            if ink(x, y) {
                for (dx, dy) in [(1i64, 0i64), (-1, 0), (0, 1), (0, -1)] {
                    if !ink(x + dx, y + dy) {
                        sides += 1;
                    }
                }
            }
        }
    }
    let loops = trace_loops(&m, w, h);
    let mut total = 0i64;
    for lp in &loops {
        for i in 0..lp.len() {
            let a = lp[i];
            let b = lp[(i + 1) % lp.len()];
            total += ((a.0 - b.0).abs() + (a.1 - b.1).abs()) as i64;
        }
    }
    assert_eq!(total, sides);
    assert_eq!(sides, 26);
}
