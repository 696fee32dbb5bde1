use magic_eraser::background::median_background;
use magic_eraser::blur::box_blur_rgb;
use magic_eraser::error::Error;
use magic_eraser::types::FrameBuffer;

fn frame(width: usize, height: usize, pixels: Vec<u32>) -> FrameBuffer {
    FrameBuffer { width, height, pixels }
}

fn solid(width: usize, height: usize, p: u32) -> FrameBuffer {
    frame(width, height, vec![p; width * height])
}

fn camera_frame_message(r: Result<FrameBuffer, Error>) -> String {
    match r {
        Err(Error::CameraFrame(m)) => m,
        Err(e) => panic!("unexpected error {:?}", e),
        Ok(_) => panic!("expected an error"),
    }
}

#[test]
fn median_of_odd_count_is_middle_value() {
    let frames = vec![
        solid(1, 1, 0x00_10_80_F0),
        solid(1, 1, 0x00_30_20_10),
        solid(1, 1, 0x00_20_50_A0),
    ];
    let bg = median_background(&frames).unwrap();
    assert_eq!(bg.width, 1);
    assert_eq!(bg.height, 1);
    // red: 10 20 30 -> 20; green: 20 50 80 -> 50; blue: 10 A0 F0 -> A0
    assert_eq!(bg.pixels, vec![0x00_20_50_A0]);
}

#[test]
fn median_ignores_a_minority_outlier() {
    let mut frames = vec![solid(2, 2, 0x00_40_40_40); 4];
    frames.push(solid(2, 2, 0x00_FF_FF_FF));
    frames[2].pixels[1] = 0x00_00_00_00;
    let bg = median_background(&frames).unwrap();
    assert_eq!(bg.pixels, vec![0x00_40_40_40; 4]);
}

#[test]
fn median_of_even_count_is_lower_median() {
    let frames = vec![
        solid(1, 1, 0x00_00_00_04),
        solid(1, 1, 0x00_00_00_01),
        solid(1, 1, 0x00_00_00_03),
        solid(1, 1, 0x00_00_00_02),
    ];
    // sorted 1 2 3 4, index 4 / 2 = 2 -> 3
    let bg = median_background(&frames).unwrap();
    assert_eq!(bg.pixels, vec![3]);
}

#[test]
fn median_of_single_frame_is_that_frame() {
    let f = frame(3, 1, vec![0x00_01_02_03, 0x00_AA_BB_CC, 0x00_FF_00_7F]);
    let bg = median_background(&[f.clone()]).unwrap();
    assert_eq!(bg.pixels, f.pixels);
}

#[test]
fn median_rejects_no_frames() {
    let m = camera_frame_message(median_background(&[]));
    assert_eq!(m, "median_background: no frames");
}

#[test]
fn median_rejects_mismatched_frames() {
    let frames = vec![solid(2, 2, 0), solid(2, 1, 0)];
    let m = camera_frame_message(median_background(&frames));
    assert_eq!(m, "median_background: frames must share identical dimensions");
}

#[test]
fn blur_leaves_uniform_image_unchanged() {
    for &(w, h) in &[(1usize, 1usize), (3, 2), (7, 5), (16, 9)] {
        for &r in &[0usize, 1, 3, 8] {
            let src = solid(w, h, 0x00_12_34_56);
            let mut tmp = solid(w, h, 0);
            let mut dst = solid(w, h, 0);
            box_blur_rgb(&src, &mut tmp, &mut dst, r).unwrap();
            assert_eq!(dst.pixels, src.pixels, "w={} h={} r={}", w, h, r);
        }
    }
}

#[test]
fn blur_radius_zero_copies_source() {
    let src = frame(3, 2, vec![1, 0x00_FF_00_00, 0x00_00_FF_00, 0x00_00_00_FF, 7, 0x00_80_80_80]);
    let mut tmp = solid(3, 2, 0);
    let mut dst = solid(3, 2, 0);
    box_blur_rgb(&src, &mut tmp, &mut dst, 0).unwrap();
    assert_eq!(tmp.pixels, src.pixels);
    assert_eq!(dst.pixels, src.pixels);
}

#[test]
fn blur_averages_with_clamped_edges() {
    // one row: red 0, 30, 90; radius 1, window 3
    // x=0: (0 + 0 + 30) / 3 = 10; x=1: (0 + 30 + 90) / 3 = 40; x=2: (30 + 90 + 90) / 3 = 70
    let src = frame(3, 1, vec![0x00_00_00_00, 0x00_1E_00_00, 0x00_5A_00_00]);
    let mut tmp = solid(3, 1, 0);
    let mut dst = solid(3, 1, 0);
    box_blur_rgb(&src, &mut tmp, &mut dst, 1).unwrap();
    assert_eq!(tmp.pixels, vec![0x00_0A_00_00, 0x00_28_00_00, 0x00_46_00_00]);
    // a single row: each column is one pixel, so the vertical pass keeps it
    assert_eq!(dst.pixels, tmp.pixels);
}

#[test]
fn blur_vertical_pass_rounds_down() {
    // one column, blue 0, 0, 2; radius 1; rows keep their value, then
    // columns: (0+0+0)/3 = 0, (0+0+2)/3 = 0, (0+2+2)/3 = 1
    let src = frame(1, 3, vec![0, 0, 2]);
    let mut tmp = solid(1, 3, 0);
    let mut dst = solid(1, 3, 0);
    box_blur_rgb(&src, &mut tmp, &mut dst, 1).unwrap();
    assert_eq!(dst.pixels, vec![0, 0, 1]);
}

#[test]
fn blur_twice_stays_in_channel_range() {
    let pixels: Vec<u32> = (0..35u32).map(|i| (i * 0x0007_3B1F) & 0x00FF_FFFF).collect();
    let src = frame(7, 5, pixels);
    let mut tmp = solid(7, 5, 0);
    let mut once = solid(7, 5, 0);
    let mut twice = solid(7, 5, 0);
    box_blur_rgb(&src, &mut tmp, &mut once, 2).unwrap();
    box_blur_rgb(&once, &mut tmp, &mut twice, 2).unwrap();
    assert!(twice.pixels.iter().all(|&p| p <= 0x00FF_FFFF));
}

#[test]
fn blur_rejects_mismatched_destination() {
    let src = solid(2, 2, 5);
    let mut tmp = solid(2, 2, 9);
    let mut dst = solid(2, 1, 9);
    match box_blur_rgb(&src, &mut tmp, &mut dst, 1) {
        Err(Error::CameraFrame(m)) => assert_eq!(m, "box_blur: size mismatch src\u{2194}dst"),
        _ => panic!("expected a size mismatch"),
    }
    assert_eq!(dst.pixels, vec![9, 9]);
}

#[test]
fn blur_rejects_mismatched_scratch() {
    let src = solid(2, 2, 5);
    let mut tmp = solid(1, 4, 9);
    let mut dst = solid(2, 2, 9);
    match box_blur_rgb(&src, &mut tmp, &mut dst, 1) {
        Err(Error::CameraFrame(m)) => assert_eq!(m, "box_blur: size mismatch tmp"),
        _ => panic!("expected a size mismatch"),
    }
    assert_eq!(tmp.pixels, vec![9; 4]);
}

#[test]
fn frame_from_rgb_bytes_packs_channels() {
    let f = FrameBuffer::from_rgb8(2, 1, &vec![0x12, 0x34, 0x56, 0xFF, 0x00, 0x80]);
    assert_eq!(f.width, 2);
    assert_eq!(f.height, 1);
    assert_eq!(f.pixels, vec![0x00_12_34_56, 0x00_FF_00_80]);
}

#[test]
fn error_messages_name_their_kind() {
    assert_eq!(Error::WindowInit("x".to_string()).describe(), "Window init error: x");
    assert_eq!(Error::WindowUpdate("y".to_string()).describe(), "Window update error: y");
    assert_eq!(Error::CameraInit("z".to_string()).describe(), "Camera init error: z");
    assert_eq!(Error::CameraFrame("w".to_string()).describe(), "Camera frame error: w");
}
