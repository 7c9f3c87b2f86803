use codimate::pixels::{premultiplied, render_into, Bitmap, RasterRenderer};

#[test]
fn premultiplying_scales_colour_by_alpha_rounding_to_nearest() {
    let px = premultiplied(2, 1, vec![200, 100, 50, 128, 255, 255, 255, 0]);
    assert_eq!((px.width, px.height), (2, 1));
    assert_eq!(px.rgba, vec![100, 50, 25, 128, 0, 0, 0, 0]);
}

#[test]
fn opaque_pixels_are_left_as_they_are() {
    let px = premultiplied(1, 1, vec![12, 34, 56, 255]);
    assert_eq!(px.rgba, vec![12, 34, 56, 255]);
}

#[test]
fn a_trailing_partial_pixel_is_left_as_it_is() {
    let px = premultiplied(1, 1, vec![255, 255, 255, 51, 9, 9]);
    assert_eq!(px.rgba, vec![51, 51, 51, 51, 9, 9]);
}

#[test]
fn pixel_reads_the_four_bytes_of_a_pixel() {
    let bitmap = Bitmap {
        width: 2,
        height: 2,
        rgba: (0u8..16).collect(),
    };
    assert_eq!(bitmap.pixel(0, 0), (0, 1, 2, 3));
    assert_eq!(bitmap.pixel(1, 0), (4, 5, 6, 7));
    assert_eq!(bitmap.pixel(0, 1), (8, 9, 10, 11));
    assert_eq!(bitmap.pixel(1, 1), (12, 13, 14, 15));
}

#[test]
fn render_into_packs_alpha_red_green_blue() {
    let bitmap = Bitmap { width: 2, height: 1, rgba: vec![0x11, 0x22, 0x33, 0x44, 0xAA, 0xBB, 0xCC, 0xDD] };
    let mut out = vec![0u32; 2];
    render_into(&bitmap, &mut out);
    assert_eq!(out, vec![0x4411_2233, 0xDDAA_BBCC]);
}

#[test]
fn render_into_fills_only_what_both_sides_hold() {
    let bitmap = Bitmap { width: 1, height: 1, rgba: vec![1, 2, 3, 4] };
    let mut out = vec![7u32; 3];
    render_into(&bitmap, &mut out);
    assert_eq!(out, vec![0x0401_0203, 7, 7]);

    let wide = Bitmap { width: 3, height: 1, rgba: vec![0; 12] };
    let mut short = vec![9u32; 1];
    render_into(&wide, &mut short);
    assert_eq!(short, vec![0]);
}

#[test]
fn a_renderer_remembers_the_last_frame_it_kept() {
    let mut renderer = RasterRenderer::new();
    assert!(renderer.last().is_none());
    let first = Bitmap { width: 1, height: 1, rgba: vec![1, 2, 3, 4] };
    let second = Bitmap { width: 1, height: 1, rgba: vec![5, 6, 7, 8] };
    renderer.keep_frame(first);
    renderer.keep_frame(second.clone());
    assert_eq!(renderer.last(), Some(&second));
    assert!(RasterRenderer::default().last().is_none());
}

#[test]
fn coverage_blends_source_over_destination() {
    // A 2x1 buffer: the second pixel is opaque blue.
    let mut data = vec![0, 0, 0, 0, 0, 0, 255, 255];
    // Half-covered opaque white over the blue pixel.
    codimate::pixels::blend_coverage(&mut data, 2, 1, 1, 0, (255, 255, 255, 255), 128);
    // src = 255 * 128 / 255 = 128 on every channel; what is left of blue is 255 * 127 / 255.
    assert_eq!(data, vec![0, 0, 0, 0, 128, 128, 255, 255]);
}

#[test]
fn coverage_outside_the_buffer_or_zero_changes_nothing() {
    let mut data = vec![9u8; 8];
    codimate::pixels::blend_coverage(&mut data, 2, 1, -1, 0, (255, 0, 0, 255), 255);
    codimate::pixels::blend_coverage(&mut data, 2, 1, 2, 0, (255, 0, 0, 255), 255);
    codimate::pixels::blend_coverage(&mut data, 2, 1, 0, 1, (255, 0, 0, 255), 255);
    codimate::pixels::blend_coverage(&mut data, 2, 1, 0, 0, (255, 0, 0, 255), 0);
    assert_eq!(data, vec![9u8; 8]);
}

#[test]
fn full_coverage_replaces_the_pixel() {
    let mut data = vec![10, 20, 30, 40];
    codimate::pixels::blend_coverage(&mut data, 1, 1, 0, 0, (200, 100, 50, 255), 255);
    assert_eq!(data, vec![200, 100, 50, 255]);
}

#[test]
fn any_fill_may_be_given_for_a_pixel_that_is_not_drawn() {
    let mut data = vec![9u8; 4];
    codimate::pixels::blend_coverage(&mut data, 1, 1, 3, 0, (u32::MAX, u32::MAX, u32::MAX, u32::MAX), 255);
    codimate::pixels::blend_coverage(&mut data, 1, 1, 0, 0, (u32::MAX, u32::MAX, u32::MAX, u32::MAX), 0);
    assert_eq!(data, vec![9u8; 4]);
}
