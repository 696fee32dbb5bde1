use magic_eraser::draw::{draw_crosshair, draw_text_5x7};
use magic_eraser::fx::{add_rgb_saturating, DiscKernel, Rng32};
use magic_eraser::session::{hud_text, Controls, ViewState};
use magic_eraser::types::FrameBuffer;

fn solid(width: usize, height: usize, p: u32) -> FrameBuffer {
    FrameBuffer { width, height, pixels: vec![p; width * height] }
}

#[test]
fn rng_is_deterministic_xorshift() {
    let mut a = Rng32::from_seed(0);
    let mut b = Rng32::from_seed(1);
    assert_eq!(a.next_u32(), 270369);
    assert_eq!(a.next_u32(), 67634689);
    assert_eq!(b.next_u32(), 270369);
    let mut c = Rng32::from_seed(0xBADA55);
    assert_eq!(c.next_u32(), 637182477);
}

#[test]
fn additive_pixel_saturates_each_channel() {
    let mut fb = solid(2, 2, 0);
    fb.pixels[3] = 0x00_F0_10_00;
    add_rgb_saturating(&mut fb, 1, 1, 0x20, 0x20, 0x20);
    assert_eq!(fb.pixels, vec![0, 0, 0, 0x00_FF_30_20]);
}

#[test]
fn additive_pixel_skips_outside_frame() {
    let mut fb = solid(2, 2, 0x00_01_01_01);
    add_rgb_saturating(&mut fb, -1, 0, 9, 9, 9);
    add_rgb_saturating(&mut fb, 0, -1, 9, 9, 9);
    add_rgb_saturating(&mut fb, 2, 0, 9, 9, 9);
    add_rgb_saturating(&mut fb, 0, 2, 9, 9, 9);
    assert_eq!(fb.pixels, vec![0x00_01_01_01; 4]);
}

fn small_kernel() -> DiscKernel {
    DiscKernel::from_profile(1, &vec![255, 128, 64])
}

#[test]
fn disc_kernel_follows_radial_profile() {
    let k = small_kernel();
    assert_eq!(k.radius, 1);
    assert_eq!(k.dim, 3);
    assert_eq!(k.weights, vec![64, 128, 64, 128, 255, 128, 64, 128, 64]);
}

#[test]
fn disc_kernel_is_symmetric_under_half_turn() {
    for r in 0..6i32 {
        let profile: Vec<u8> = (0..(2 * r * r + 1)).map(|d2| (255 - (d2 * 7).min(255)) as u8).collect();
        let k = DiscKernel::from_profile(r, &profile);
        let n = k.weights.len();
        assert_eq!(n, ((2 * r + 1) * (2 * r + 1)) as usize);
        for i in 0..n {
            assert_eq!(k.weights[i], k.weights[n - 1 - i]);
        }
        assert_eq!(k.weights[n / 2], 255);
    }
}

#[test]
fn stamp_adds_scaled_colour() {
    let k = small_kernel();
    let mut fb = solid(3, 3, 0);
    k.stamp_additive(&mut fb, 1, 1, 255, 200, 80, 255);
    let corner = 0x00_40_32_14;
    let edge = 0x00_80_64_28;
    let centre = 0x00_FF_C8_50;
    assert_eq!(fb.pixels, vec![corner, edge, corner, edge, centre, edge, corner, edge, corner]);
}

#[test]
fn stamp_saturates_and_clips() {
    let k = small_kernel();
    let mut fb = solid(2, 2, 0);
    k.stamp_additive(&mut fb, 0, 0, 255, 200, 80, 255);
    k.stamp_additive(&mut fb, 0, 0, 255, 200, 80, 255);
    // centre: 255 + 255 -> 255, 200 + 200 -> 255, 80 + 80 = 160
    assert_eq!(fb.pixels[0], 0x00_FF_FF_A0);
    // edge cell twice: 128 + 128 -> 255, 100 + 100 = 200, 40 + 40 = 80
    assert_eq!(fb.pixels[1], 0x00_FF_C8_50);
    // corner twice: 64 + 64 = 128, 50 + 50 = 100, 20 + 20 = 40
    assert_eq!(fb.pixels[3], 0x00_80_64_28);
}

#[test]
fn stamp_at_zero_level_changes_nothing() {
    let k = small_kernel();
    let mut fb = solid(3, 3, 0x00_10_20_30);
    k.stamp_additive(&mut fb, 1, 1, 255, 255, 255, 0);
    assert_eq!(fb.pixels, vec![0x00_10_20_30; 9]);
}

#[test]
fn crosshair_draws_four_arms_and_centre() {
    let mut fb = solid(9, 9, 0);
    draw_crosshair(&mut fb, 4, 4, 3, 7);
    let lit = [(1, 4), (2, 4), (6, 4), (7, 4), (4, 1), (4, 2), (4, 6), (4, 7), (4, 4)];
    for y in 0..9usize {
        for x in 0..9usize {
            let expected = if lit.contains(&(x, y)) { 7 } else { 0 };
            assert_eq!(fb.pixels[y * 9 + x], expected, "pixel ({}, {})", x, y);
        }
    }
}

#[test]
fn crosshair_clips_at_frame_edge() {
    let mut fb = solid(3, 3, 0);
    draw_crosshair(&mut fb, 0, 0, 12, 5);
    assert_eq!(fb.pixels, vec![5, 0, 5, 0, 0, 0, 5, 0, 0]);
}

#[test]
fn text_draws_glyph_with_shadow() {
    let grey = 0x00_80_80_80;
    let white = 0x00_FF_FF_FF;
    let mut fb = solid(8, 9, grey);
    draw_text_5x7(&mut fb, 0, 0, "1", white);
    let at = |x: usize, y: usize| fb.pixels[y * 8 + x];
    // top row of '1' is 00100: one lit cell at column 2
    assert_eq!(at(2, 0), white);
    assert_eq!(at(1, 0), grey);
    // its shadow one pixel right and down
    assert_eq!(at(3, 1), 0);
    // second row 01100
    assert_eq!(at(1, 1), white);
    assert_eq!(at(2, 1), white);
    // bottom row 01110, shadow row below it
    assert_eq!(at(3, 6), white);
    assert_eq!(at(4, 7), 0);
    assert_eq!(at(0, 8), grey);
}

#[test]
fn text_advances_six_pixels_per_glyph_and_skips_unknown() {
    let mut a = solid(14, 8, 0x00_11_11_11);
    draw_text_5x7(&mut a, 0, 0, "?1", 0x00_FF_FF_FF);
    let mut b = solid(14, 8, 0x00_11_11_11);
    draw_text_5x7(&mut b, 6, 0, "1", 0x00_FF_FF_FF);
    assert_eq!(a.pixels, b.pixels);
    assert_eq!(a.pixels[8], 0x00_FF_FF_FF);
}

#[test]
fn plan_frame_paints_at_pointer() {
    let mut s = ViewState::new();
    let input = Controls { toggle_view: false, clear_mask: false, paint: true, pointer: Some((5, 7)) };
    let plan = s.plan_frame(&input);
    assert_eq!(plan.dab_at, Some((5, 7)));
    assert!(plan.erasing);
    assert!(!plan.show_blur);
    assert!(plan.blend);
    assert!(s.mask_has_any);
}

#[test]
fn plan_frame_toggles_and_clears() {
    let mut s = ViewState { show_blur: false, mask_has_any: true };
    let input = Controls { toggle_view: true, clear_mask: true, paint: true, pointer: None };
    let plan = s.plan_frame(&input);
    assert!(plan.clear_mask);
    assert_eq!(plan.dab_at, None);
    assert!(!plan.erasing);
    assert!(plan.show_blur);
    assert!(!plan.blend);
    assert!(s.show_blur);
    assert!(!s.mask_has_any);
}

#[test]
fn status_line_joins_tag_hints_and_rate() {
    assert_eq!(
        hud_text(false, false, "FPS: 0.0"),
        "LIVE | LMB: paint blur     C: clear  B: show BLUR | FPS: 0.0"
    );
    assert_eq!(
        hud_text(true, true, "FPS: 30.0"),
        "BLUR (Showing) | LMB: painting blur\u{2026}  C: clear  B: show BLUR | FPS: 30.0"
    );
}
