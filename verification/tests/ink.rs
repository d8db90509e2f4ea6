use sigtrace::contour::trace_loops;
use sigtrace::resize::clampi;
use sigtrace::{despeckle, rescue_contrast, svg_document, threshold_ink, TraceResult};

fn light_block_image(w: usize, h: usize, ink: u8) -> Vec<u8> {
    let mut img = vec![255u8; w * h]; // white paper
    for y in h / 3..2 * h / 3 {
        for x in w / 6..5 * w / 6 {
            img[y * w + x] = ink; // a faint stroke block
        }
    }
    img
}

#[test]
fn rescue_stretches_light_ink_to_black() {
    let (w, h) = (60usize, 60usize);
    let mut img = light_block_image(w, h, 200); // ink lighter than the threshold 145
    rescue_contrast(&mut img, 130);
    assert_eq!(img, light_block_image(w, h, 0));
}

#[test]
fn rescue_leaves_dark_ink_untouched() {
    let (w, h) = (60usize, 60usize);
    let mut img = light_block_image(w, h, 20);
    rescue_contrast(&mut img, 130);
    assert_eq!(img, light_block_image(w, h, 20));
}

#[test]
fn rescued_light_ink_is_traced_and_missed_without_it() {
    let (w, h) = (60usize, 60usize);
    let img = light_block_image(w, h, 200);

    let mut rescued = img.clone();
    rescue_contrast(&mut rescued, 130);
    let mut ink = threshold_ink(&rescued, 145);
    despeckle(&mut ink, w, h, 2);
    assert!(trace_loops(&ink, w, h).len() >= 1, "auto-contrast should recover light ink");

    let mut ink = threshold_ink(&img, 145);
    despeckle(&mut ink, w, h, 2);
    assert_eq!(trace_loops(&ink, w, h).len(), 0, "without it, light ink is missed");
}

#[test]
fn rescue_rounds_as_f32_does() {
    // 49 pixels at 1, 49 at 15, 2 at 8: the 2% level is 1 and the 98% level
    // is 15, so 8 maps to 7 * 255 / 14 = 127.5, which f32 arithmetic lands
    // just below the half: 127
    let mut img = vec![1u8; 49];
    img.extend(vec![15u8; 49]);
    img.push(8);
    img.push(8);
    rescue_contrast(&mut img, 0);
    assert_eq!(img[0], 0);
    assert_eq!(img[49], 255);
    assert_eq!(img[98], 127);
}

#[test]
fn rescue_leaves_a_blank_image_alone() {
    let mut img = vec![200u8; 100];
    rescue_contrast(&mut img, 130);
    assert_eq!(img, vec![200u8; 100]);
}

#[test]
fn despeckle_removes_small_components_only() {
    // 5 x 5: a lone speck at (0, 0), a diagonal pair at (4, 0) and (3, 1),
    // and a 2 x 2 block at (1..3, 3..5)
    let w = 5;
    let mut ink = vec![0u8; 25];
    for &(x, y) in &[(0usize, 0usize), (4, 0), (3, 1), (1, 3), (2, 3), (1, 4), (2, 4)] {
        ink[y * w + x] = 255;
    }
    let mut out = ink.clone();
    despeckle(&mut out, 5, 5, 2);
    let mut expected = ink.clone();
    expected[0] = 0;
    assert_eq!(out, expected);

    let mut out = ink.clone();
    despeckle(&mut out, 5, 5, 3);
    let mut expected = vec![0u8; 25];
    for &(x, y) in &[(1usize, 3usize), (2, 3), (1, 4), (2, 4)] {
        expected[y * w + x] = 255;
    }
    assert_eq!(out, expected);
}

#[test]
fn despeckle_with_zero_min_keeps_everything() {
    let mut ink = vec![0u8, 9, 0, 0, 0, 7];
    despeckle(&mut ink, 3, 2, 0);
    assert_eq!(ink, vec![0u8, 9, 0, 0, 0, 7]);
}

#[test]
fn threshold_marks_dark_pixels() {
    assert_eq!(threshold_ink(&[0, 144, 145, 255], 145), vec![255, 255, 0, 0]);
}

#[test]
fn clampi_clamps() {
    assert_eq!(clampi(-3, 0, 9), 0);
    assert_eq!(clampi(12, 0, 9), 9);
    assert_eq!(clampi(4, 0, 9), 4);
    assert_eq!(clampi(4, 5, 3), 3);
}

#[test]
fn svg_document_wraps_the_path() {
    let res = TraceResult { path_d: String::from("M1.00 2.00Z"), width: 120, height: 45, subpaths: 1 };
    assert_eq!(
        svg_document(&res, "#1a2740"),
        "<svg xmlns=\"http://www.w3.org/2000/svg\" width=\"120\" height=\"45\" viewBox=\"0 0 120 45\"><path fill=\"#1a2740\" fill-rule=\"evenodd\" d=\"M1.00 2.00Z\"/></svg>"
    );
}

#[test]
fn despeckle_twice_is_despeckle_once() {
    let w = 7;
    let mut ink = vec![0u8; 49];
    for &(x, y) in &[(0usize, 0usize), (6, 6), (2, 2), (3, 3), (4, 2), (3, 2), (0, 6), (1, 5)] {
        ink[y * w + x] = 255;
    }
    let mut once = ink.clone();
    despeckle(&mut once, 7, 7, 3);
    let mut twice = once.clone();
    despeckle(&mut twice, 7, 7, 3);
    assert_eq!(once, twice);
    // the 4-pixel cluster stays, the lone pixels and the diagonal pair go
    assert_eq!(once.iter().filter(|&&v| v != 0).count(), 4);
}

#[test]
fn rescue_stretches_small_faint_images_too() {
    // under 50 pixels the 2% level still counts one pixel, so faint ink with
    // no dark pixel at all is stretched
    let mut img = vec![200u8; 40];
    img.extend(vec![250u8; 9]);
    rescue_contrast(&mut img, 130);
    let mut want = vec![0u8; 40];
    want.extend(vec![255u8; 9]);
    assert_eq!(img, want);

    let mut four = vec![200u8, 250, 250, 250];
    rescue_contrast(&mut four, 130);
    assert_eq!(four, vec![0u8, 255, 255, 255]);
}

#[test]
fn rescue_keeps_small_images_with_dark_ink() {
    let mut img = vec![10u8, 250, 250, 250];
    rescue_contrast(&mut img, 130);
    assert_eq!(img, vec![10u8, 250, 250, 250]);
}
