//! Integer helpers, the sine table, pixels, the canvas and the enlargement.
use openpocket::font;
use openpocket::font::Glyph;
use openpocket::imath;
use openpocket::pixel;
use openpocket::raster;
use openpocket::trig;
use openpocket::upscale;
use openpocket::upscale::UpSample1D;

#[test]
fn isqrt_of_squares() {
    assert_eq!(imath::isqrt(0), 0);
    assert_eq!(imath::isqrt(1), 1);
    assert_eq!(imath::isqrt(3), 1);
    assert_eq!(imath::isqrt(54_289), 233);
    assert_eq!(imath::isqrt(54_288), 232);
    assert_eq!(imath::isqrt(4_294_967_294), 65_535);
}

#[test]
fn shifts_round_down() {
    assert_eq!(imath::asr(-1, 8), -1);
    assert_eq!(imath::asr(255, 8), 0);
    assert_eq!(imath::asr(-257, 8), -2);
    assert_eq!(imath::asr(5, 0), 5);
    assert_eq!(imath::floor_div(-7, 2), -4);
    assert_eq!(imath::floor_div(7, 2), 3);
    assert_eq!(imath::floor_div(-8, 4), -2);
}

#[test]
fn low_bits_are_residues() {
    assert_eq!(imath::low2(-1), 3);
    assert_eq!(imath::low8(-256), 0);
}

#[test]
fn bounded_comparisons() {
    assert_eq!(imath::imin(-2, 3), -2);
    assert_eq!(imath::imax(-2, 3), 3);
    assert_eq!(imath::iclamp(300, 0, 256), 256);
    assert_eq!(imath::iclamp(-1, 0, 256), 0);
    assert_eq!(imath::iabs(-9), 9);
    assert_eq!(imath::isgn(-9), -1);
    assert_eq!(imath::isgn(0), 0);
    assert_eq!(imath::isgn(9), 1);
}

#[test]
fn sine_table_entries() {
    assert_eq!(trig::sin_at(0), 0);
    assert_eq!(trig::sin_at(1), 201);
    assert_eq!(trig::sin_at(128), 16_384);
    assert_eq!(trig::sin_at(384), -16_384);
}

#[test]
fn sine_interpolates_between_entries() {
    // half way between entries 0 and 1: phase 101 is 0.5009 entries
    let half = trig::lut_sin_cos_q14(101);
    assert!(half > 90 && half < 110, "{half}");
    assert_eq!(trig::lut_sin_cos_q14(0), 0);
}

#[test]
fn sine_repeats_after_a_turn() {
    for phase in [-200_000, -1, 0, 17, 51_623, 103_245] {
        assert_eq!(trig::lut_sin_cos_q14(phase), trig::lut_sin_cos_q14(phase + trig::TAU_Q14));
    }
}

#[test]
fn sine_stays_within_one() {
    let mut phase = 0;
    while phase < trig::TAU_Q14 {
        let v = trig::lut_sin_cos_q14(phase);
        assert!((-16_384..=16_384).contains(&v));
        phase += 37;
    }
}

#[test]
fn pixels_pack_and_unpack() {
    let p = pixel::pack(31, 0, 0);
    assert_eq!(p, (0xF8, 0x00));
    assert_eq!(pixel::pack(0, 63, 0), (0x07, 0xE0));
    assert_eq!(pixel::pack(0, 0, 31), (0x00, 0x1F));
    assert_eq!(pixel::channels((0xF8, 0x00)), (31, 0, 0));
    assert_eq!(pixel::channels(pixel::pack(3, 5, 7)), (3, 5, 7));
    assert_eq!(pixel::pack888(255, 255, 255), (0xFF, 0xFF));
}

#[test]
fn laying_over_covers_fully_or_not_at_all() {
    let ground = pixel::pack(10, 20, 30);
    assert_eq!(pixel::lay_over(ground, 24, 53, 31, 0), ground);
    assert_eq!(pixel::lay_over(ground, 24, 53, 31, 255), pixel::pack(24, 53, 31));
}

#[test]
fn lightening_takes_the_larger_channels_once() {
    let a = pixel::pack(10, 2, 3);
    let b = pixel::pack(1, 20, 2);
    let m = pixel::lighten(a, b);
    assert_eq!(m, pixel::pack(10, 20, 3));
    assert_eq!(pixel::lighten(m, b), m);
}

#[test]
fn canvas_pixels_are_clipped() {
    let mut fb = vec![0u8; raster::FB_BYTES];
    raster::set_px(&mut fb, 465, 465, (1, 2));
    assert_eq!(raster::get_px(&fb, 465, 465), (1, 2));
    assert_eq!(&fb[raster::FB_BYTES - 2..], &[1, 2]);
    let before = fb.clone();
    raster::set_px(&mut fb, 466, 0, (9, 9));
    raster::set_px(&mut fb, 0, -1, (9, 9));
    assert!(fb == before);
    assert!(!raster::in_buffer(1, 0, 0));
    assert!(raster::in_buffer(2, 0, 0));
}

#[test]
fn black_rectangles_are_inclusive() {
    let mut fb = vec![7u8; raster::FB_BYTES];
    raster::fill_rect_black(&mut fb, 464, 464, 900, 900);
    assert_eq!(raster::get_px(&fb, 464, 464), (0, 0));
    assert_eq!(raster::get_px(&fb, 465, 465), (0, 0));
    assert_eq!(raster::get_px(&fb, 463, 464), (7, 7));
    let black = fb.iter().filter(|b| **b == 0).count();
    assert_eq!(black, 2 * 2 * 2);
}

#[test]
fn blending_four_pixels() {
    assert_eq!(upscale::bilinear_rgb565(0xFFFF, 0, 0, 0, 0, 0), 0xFFFF);
    assert_eq!(upscale::bilinear_rgb565(0, 0xFFFF, 0, 0, 255, 0), 0xFFFF);
    assert_eq!(upscale::bilinear_rgb565(0, 0, 0xFFFF, 0, 0, 255), 0xFFFF);
    assert_eq!(upscale::bilinear_rgb565(0, 0, 0, 0xFFFF, 255, 255), 0xFFFF);
    // half of full red: weights 127 and 128 of 255
    assert_eq!(upscale::bilinear_rgb565(0, 0xF800, 0, 0xF800, 128, 0) >> 11, (31 * 128 + 127) / 255);
}

#[test]
fn enlargement_in_any_split_of_rows() {
    let low: Vec<u16> = vec![0x0000, 0xF800, 0x07E0, 0x001F];
    let ux: Vec<UpSample1D> = vec![
        UpSample1D { i0: 0, i1: 1, w1: 0 },
        UpSample1D { i0: 0, i1: 1, w1: 128 },
        UpSample1D { i0: 1, i1: 1, w1: 0 },
    ];
    let uy = ux.clone();
    let mut whole = vec![0u8; 3 * 3 * 2];
    upscale::upscale_into(&low, 2, 2, &ux, &uy, 3, &mut whole, 0, 3);
    let mut parts = vec![0u8; 3 * 3 * 2];
    upscale::upscale_into(&low, 2, 2, &ux, &uy, 3, &mut parts, 2, 3);
    upscale::upscale_into(&low, 2, 2, &ux, &uy, 3, &mut parts, 0, 2);
    assert_eq!(whole, parts);
    assert_eq!(&whole[0..2], &[0x00, 0x00]);
    assert_eq!(&whole[4..6], &[0xF8, 0x00]);
    assert_eq!(&whole[12..14], &[0x07, 0xE0]);
    assert_eq!(&whole[16..18], &[0x00, 0x1F]);
    // rows past the panel are left out
    let mut clipped = vec![0u8; 3 * 3 * 2];
    upscale::upscale_clipped(&low, 2, 2, &ux, &uy, 3, 3, &mut clipped, 0, 99);
    assert_eq!(whole, clipped);
}

static BAR: [u8; 2] = [0xF1, 0x0F];

fn bar_font() -> [Option<Glyph>; 128] {
    let mut f: [Option<Glyph>; 128] = [None; 128];
    f[b'a' as usize] = Some(Glyph { width: 2, height: 2, advance: 3, ymin: -1, data: &BAR });
    f
}

#[test]
fn glyph_coverage_by_nibble() {
    let f = bar_font();
    let g = font::get_glyph(&f, b'a').unwrap();
    assert_eq!(font::coverage(&g, 0, 0), 15);
    assert_eq!(font::coverage(&g, 1, 0), 1);
    assert_eq!(font::coverage(&g, 0, 1), 0);
    assert_eq!(font::coverage(&g, 1, 1), 15);
    assert!(font::get_glyph(&f, b'b').is_none());
    assert!(font::get_glyph(&f, 200).is_none());
}

#[test]
fn text_widths_skip_missing_glyphs() {
    let f = bar_font();
    assert_eq!(font::text_width("aba", &f), 6);
    assert_eq!(font::text_width("\u{e9}a", &f), 3);
    assert_eq!(font::codes("a\u{e9}"), vec![97, 255]);
}
