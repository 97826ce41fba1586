use fastblur::blur::{blur, box_blur, box_blur_horz, box_blur_parallel, box_blur_vert,
    gaussian_blur, BlurError};
use fastblur::capture::decode_pixel;
use fastblur::planner::Sigma;

fn gray_row(vals: &[u8]) -> Vec<[u8; 3]> {
    vals.iter().map(|&v| [v, v, v]).collect()
}

fn uniform(len: usize, v: u8) -> Vec<[u8; 3]> {
    vec![[v, v, v]; len]
}

#[test]
fn sliding_window_exact_values_on_one_row() {
    // One row of five pixels [0, 0, 255, 0, 0], radius 1: the windows are
    // {0,0,0}, {0,0,255}, {0,255,0}, {255,0,0}, {0,0,0}, so the rounded
    // averages are [0, 85, 85, 85, 0] in every channel.
    let src = gray_row(&[0, 0, 255, 0, 0]);
    let mut dst = uniform(5, 7);
    box_blur_horz(&src, &mut dst, 5, 1, 1);
    assert_eq!(dst, gray_row(&[0, 85, 85, 85, 0]));
}

#[test]
fn sliding_window_exact_values_on_one_column() {
    let src = gray_row(&[0, 0, 255, 0, 0]);
    let mut dst = uniform(5, 7);
    box_blur_vert(&src, &mut dst, 1, 5, 1);
    assert_eq!(dst, gray_row(&[0, 85, 85, 85, 0]));
}

#[test]
fn uniform_image_is_unchanged_by_one_pass() {
    let mut img = uniform(7 * 5, 42);
    let mut scratch = img.clone();
    box_blur(&mut img, &mut scratch, 7, 5, 2);
    assert_eq!(img, uniform(7 * 5, 42));
}

#[test]
fn end_to_end_uniform_image_stays_uniform() {
    // Full pipeline on an all-100 image, sigma = 2 (planned radius 2): both
    // sliding-window passes and all three ping-pong rounds run, and the
    // output is exactly all-100.
    let mut img = uniform(5 * 5, 100);
    let res = blur(&mut img, 5, 5, Sigma::from_int(2));
    assert_eq!(res, Ok(()));
    assert_eq!(img, uniform(5 * 5, 100));
}

#[test]
fn radius_larger_than_image_is_rejected() {
    // sigma = 2 plans widths [5, 5, 5], so the box radius is 2 and a 4x4
    // image is too small: the window would run off the image, which the
    // checked entry point reports before touching the buffer.
    let mut img = uniform(4 * 4, 100);
    let copy = img.clone();
    let res = blur(&mut img, 4, 4, Sigma::from_int(2));
    assert_eq!(res, Err(BlurError::RadiusExceedsDimension));
    assert_eq!(img, copy);
}

#[test]
fn wrong_buffer_length_is_rejected() {
    let mut img = uniform(10, 3);
    let copy = img.clone();
    assert_eq!(blur(&mut img, 4, 4, Sigma::from_int(1)), Err(BlurError::DimensionMismatch));
    assert_eq!(img, copy);
    assert_eq!(blur(&mut img, 0, 4, Sigma::from_int(1)), Err(BlurError::DimensionMismatch));
    assert_eq!(img, copy);
}

#[test]
fn sigma_zero_is_identity() {
    let mut img: Vec<[u8; 3]> = (0..30u8).map(|v| [v, 2 * v, 255 - v]).collect();
    let copy = img.clone();
    let res = blur(&mut img, 6, 5, Sigma::from_int(0));
    assert_eq!(res, Ok(()));
    assert_eq!(img, copy);
}

#[test]
fn channels_are_blurred_independently() {
    // Rotate which byte holds which channel; blurring must commute with
    // the rotation.
    let base: Vec<[u8; 3]> = (0..25u8).map(|v| [v, 7 * v % 101, 255 - 3 * (v % 50)]).collect();
    let rotated: Vec<[u8; 3]> = base.iter().map(|p| [p[1], p[2], p[0]]).collect();
    let mut out_base = base.clone();
    let mut out_rot = rotated.clone();
    gaussian_blur(&mut out_base, 5, 5, Sigma::from_int(1));
    gaussian_blur(&mut out_rot, 5, 5, Sigma::from_int(1));
    let rotated_out: Vec<[u8; 3]> = out_base.iter().map(|p| [p[1], p[2], p[0]]).collect();
    assert_eq!(out_rot, rotated_out);
}

#[test]
fn pass_order_is_fixed_and_deterministic() {
    // A pass is horizontal-then-vertical, and repeating it on the same
    // input gives the same output.
    let src: Vec<[u8; 3]> = (0..35u8).map(|v| [v, v.wrapping_mul(31), v ^ 0x55]).collect();
    let mut a = src.clone();
    let mut a_scratch = src.clone();
    box_blur(&mut a, &mut a_scratch, 7, 5, 1);
    let mut b = src.clone();
    let mut b_scratch = src.clone();
    box_blur(&mut b, &mut b_scratch, 7, 5, 1);
    assert_eq!(a, b);

    // And the same result comes from running the two half-passes by hand.
    let mut half = src.clone();
    box_blur_horz(&src, &mut half, 7, 5, 1);
    let mut full = src.clone();
    box_blur_vert(&half, &mut full, 7, 5, 1);
    assert_eq!(a, full);
    assert_eq!(a_scratch, half);
}

#[test]
fn parallel_pass_matches_sequential_pass() {
    let src: Vec<[u8; 3]> = (0..81u8).map(|v| [v, 255 - v, v.wrapping_mul(97)]).collect();
    let mut seq = src.clone();
    let mut seq_scratch = src.clone();
    box_blur(&mut seq, &mut seq_scratch, 9, 9, 2);
    let mut par = src.clone();
    let mut par_scratch = src.clone();
    box_blur_parallel(&mut par, &mut par_scratch, 9, 9, 2);
    assert_eq!(seq, par);
    assert_eq!(seq_scratch, par_scratch);
    // The pass must actually change this non-uniform image.
    assert_ne!(seq, src);
}

#[test]
fn gaussian_blur_spreads_a_spike() {
    // A single bright pixel in the middle of a dark image must bleed into
    // its neighbourhood and keep its row symmetry.
    let mut img = uniform(9 * 9, 0);
    img[4 * 9 + 4] = [255, 255, 255];
    gaussian_blur(&mut img, 9, 9, Sigma::from_int(1));
    assert!(img[4 * 9 + 4][0] > 0);
    assert!(img[4 * 9 + 3][0] > 0);
    assert_eq!(img[4 * 9 + 3], img[4 * 9 + 5]);
    assert_eq!(img[3 * 9 + 4], img[5 * 9 + 4]);
}

#[test]
fn decode_pixel_splits_channels() {
    let px = decode_pixel(0x00FF_8040, 0xFF_0000, 0xFF00, 0xFF);
    assert_eq!(px, [0xFF, 0x80, 0x40]);
    let px2 = decode_pixel(0x0012_3456, 0xFF_0000, 0xFF00, 0xFF);
    assert_eq!(px2, [0x12, 0x34, 0x56]);
}
