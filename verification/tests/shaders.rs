//! Low-resolution shaders, their upscaling, and the plain digital clock.
use openpocket::clock;
use openpocket::clock::{Clock, Sweep};
use openpocket::cloud;
use openpocket::cloud::Cloud;
use openpocket::font::Glyph;
use openpocket::gradient;
use openpocket::gradient::{BlueGradient, GradientConfig};
use openpocket::light_rays;
use openpocket::light_rays::{LightRays, LightRaysConfig};
use openpocket::raidal;
use openpocket::raidal::{FrameTables, Raidal2, Raidal2Config, Scratch};
use openpocket::upscale;
use openpocket::upscale::UpSample1D;

const GRADIENT: GradientConfig = GradientConfig { sweep_q: 4096, amp_q: 1000 };

/// Every output pixel is the source pixel `i / div`.
fn nearest(n: u16, div: u16) -> Vec<UpSample1D> {
    (0..n).map(|i| UpSample1D { i0: i / div, i1: i / div, w1: 0 }).collect()
}

#[test]
fn sine_table() {
    assert_eq!(raidal::lut_sin_cos_q14(0), 0);
    assert_eq!(raidal::lut_sin_cos_q14(25_812), 16_384);
    assert_eq!(raidal::lut_sin_cos_q14(51_623), 0);
    assert_eq!(raidal::lut_sin_cos_q14(-25_811), -16_384);
    assert_eq!(raidal::lut_sin_cos_q14(103_246 + 25_812), 16_384);
    assert_eq!(raidal::lut_cos_angle_q14(76), 16_384);
}

#[test]
fn curves() {
    assert_eq!(raidal::smoothstep_q14(0, 16_384, 8192), 8192);
    assert_eq!(raidal::smoothstep_q14(-100, 900, 150), 2560);
    assert_eq!(raidal::smoothstep_q14(0, 16_384, -1), 0);
    assert_eq!(raidal::smoothstep_q14(0, 16_384, 99_999), 16_384);
    assert_eq!(raidal::smoothstep_q14(5, 5, 5), 0);
    assert_eq!(raidal::fast_tanh_q14(0), 0);
    assert_eq!(raidal::fast_tanh_q14(16_384), 12_743);
    assert_eq!(raidal::fast_tanh_q14(-16_384), -12_743);
    assert_eq!(raidal::fast_tanh_q14(40_000), 16_348);
    assert_eq!(raidal::fast_tanh_q14(57_345), 16_384);
    assert_eq!(raidal::fast_tanh_q14(i32::MIN), -16_384);
}

#[test]
fn fixed_point_colours() {
    assert_eq!(raidal::q14_rgb_to_rgb565(16_384, 0, 0), 0xF800);
    assert_eq!(raidal::q14_rgb_to_rgb565(8192, 8192, 8192), 0x7BEF);
    assert_eq!(raidal::q14_rgb_to_rgb565(-5, -5, -5), 0);
    assert_eq!(raidal::q14_rgb_to_rgb565(99_999, 99_999, 99_999), 0xFFFF);
}

#[test]
fn bilinear_blend() {
    assert_eq!(upscale::bilinear_rgb565(0xF800, 0x001F, 1, 2, 0, 0), 0xF800);
    assert_eq!(upscale::bilinear_rgb565(0xF800, 0x001F, 1, 2, 255, 0), 0x001F);
    assert_eq!(upscale::bilinear_rgb565(0xF800, 0x001F, 1, 2, 0, 255), 1);
    assert_eq!(upscale::bilinear_rgb565(0xF800, 0x001F, 1, 2, 255, 255), 2);
    assert_eq!(upscale::bilinear_rgb565(0xF800, 0x001F, 0, 0, 128, 0), 0x7810);
}

#[test]
fn upscaled_rows_are_big_endian_and_split() {
    let low: Vec<u16> = vec![0x1234, 0xABCD, 0x0FF0, 0x8001];
    let (ux, uy) = (nearest(4, 2), nearest(4, 2));
    let mut out = vec![0u8; 32];
    upscale::upscale_into(&low, 2, 2, &ux, &uy, 4, &mut out, 0, 4);
    assert_eq!(out[..8], [0x12, 0x34, 0x12, 0x34, 0xAB, 0xCD, 0xAB, 0xCD]);
    assert_eq!(out[24..], [0x0F, 0xF0, 0x0F, 0xF0, 0x80, 0x01, 0x80, 0x01]);
    let mut parts = vec![0u8; 32];
    upscale::upscale_into(&low, 2, 2, &ux, &uy, 4, &mut parts, 3, 4);
    assert!(parts[..24].iter().all(|b| *b == 0));
    upscale::upscale_clipped(&low, 2, 2, &ux, &uy, 4, 4, &mut parts, 0, 3);
    assert_eq!(parts, out);
}

#[test]
fn aurora_pixels() {
    let mut offs = [[0i32; 27]; 2];
    for i in 0..27i32 {
        let phase = (i / 3 + 1) * 16_384 + (i % 3) * 32_768;
        offs[0][i as usize] = raidal::lut_sin_cos_q14(phase);
        offs[1][i as usize] = raidal::lut_sin_cos_q14(phase + 25_736);
    }
    let t = FrameTables { frame_cos: [0; 9], sin_d: offs[0], cos_d: offs[1] };
    let mut pack = vec![1 << 20; 10];
    pack[0] = 0;
    assert_eq!(raidal::eval_pixel_q14(&pack, 1, 0, &t), 0xDE7C);
    let pack: Vec<i32> = (0..10).map(|i| if i == 0 { 30_000 } else { 100_000 * i }).collect();
    let mut phases = [0i32; 9];
    for i in 0..9i32 {
        phases[i as usize] = 5000 * i;
    }
    let mut r = Raidal2::new(&Raidal2Config { render_divisor: 3 }, 3, 2, pack, nearest(3, 3), nearest(2, 2));
    assert_eq!((r.low_w, r.low_h), (1, 1));
    assert_eq!((r.tables.sin_d, r.tables.cos_d), (offs[0], offs[1]));
    r.update_time(&phases);
    let mut low = vec![0u16; 1];
    r.eval_pass(&mut low, &mut Scratch::new());
    assert_eq!(low, vec![0xF6FB]);
    let mut out = vec![0u8; 12];
    r.upscale_pass(&low, &mut out);
    assert!(out.chunks(2).all(|p| p == [0xF6, 0xFB]));
}

#[test]
fn aurora_splits_over_two_workers() {
    let pack: Vec<i32> = (0..4 * 50).map(|i| (i * 7919) % 300_000).collect();
    let mut r = Raidal2::new(&Raidal2Config { render_divisor: 2 }, 10, 8, pack, nearest(10, 2), nearest(8, 2));
    r.init_time(&[3000; 9]);
    let mut whole = vec![0u16; 20];
    r.eval_pass(&mut whole, &mut Scratch::new());
    let mut parts = vec![0u16; 20];
    r.eval_pass_range(&mut parts, &mut Scratch::new(), 0, 7);
    r.eval_pass_range(&mut parts, &mut Scratch::new_secondary(), 7, 99);
    assert_eq!(parts, whole);
    let mut rows = vec![0u16; 20];
    r.eval_rows(&mut rows, &mut Scratch::new(), 2, 9);
    assert!(rows[..10].iter().all(|p| *p == 0));
    r.eval_rows(&mut rows, &mut Scratch::new(), 0, 2);
    assert_eq!(rows, whole);
    let (mut a, mut b) = (vec![0u8; 160], vec![0u8; 160]);
    r.upscale_pass(&whole, &mut a);
    r.upscale_rows(&whole, &mut b, 0, 3);
    r.upscale_rows(&whole, &mut b, 3, 8);
    assert_eq!(a, b);
}

#[test]
fn cloud_pixels() {
    assert_eq!(cloud::eval_pixel(0, 0, 0), 0x0860);
    assert_eq!(cloud::eval_pixel(5000, -12_000, 100_000), 0x0062);
    assert_eq!(cloud::eval_pixel(-16_384, 16_384, -7777), 0x28e4);
    let mut c = Cloud::new(4, 4, nearest(4, 2), nearest(4, 2));
    c.update_time(-7777);
    let mut whole = vec![0u16; 233 * 233];
    c.eval_pass(&mut whole);
    let mut parts = vec![0u16; 233 * 233];
    c.eval_rows(&mut parts, 100, 999);
    c.eval_rows(&mut parts, 0, 100);
    assert!(parts == whole);
    let mut out = vec![0u8; 32];
    c.upscale_rows(&whole, &mut out, 0, 4);
    assert_eq!(out[..2], whole[0].to_be_bytes());
    assert_eq!(out[30..], whole[234].to_be_bytes());
}

#[test]
fn gradient_pixels() {
    assert_eq!(gradient::eval_pixel(0, 0, 0, &GRADIENT), 0x0004);
    assert_eq!(gradient::eval_pixel(116, 116, 0, &GRADIENT), 0x0005);
    assert_eq!(gradient::eval_pixel(200, 30, 90_000, &GradientConfig { sweep_q: 4096, amp_q: 1600 }), 0x0005);
    assert_eq!(gradient::eval_pixel(3, 222, -500_000, &GradientConfig { sweep_q: 9000, amp_q: 3000 }), 0x0002);
    let mut rows = vec![0xFFFFu16; 233 * 233];
    gradient::eval_gradient_rows(0, &GRADIENT, &mut rows, 116, 117);
    assert_eq!(rows[116 * 233 + 116], 0x0005);
    assert_eq!((rows[116 * 233 - 1], rows[117 * 233]), (0xFFFF, 0xFFFF));
}

#[test]
fn gradient_frames_are_fresh() {
    let mut g = BlueGradient::new(GRADIENT, 4, 4, nearest(4, 2), nearest(4, 2));
    let mut first = vec![0u8; 32];
    g.render_to_fb(&mut first, 5000);
    let mut other = vec![0u8; 32];
    g.render_to_fb(&mut other, 9_999_999);
    let mut again = vec![0u8; 32];
    g.render_to_fb(&mut again, 5000);
    assert_eq!(again, first);
    g.update_time(5000);
    let mut low = vec![7u16; 233 * 233];
    g.eval_pass(&mut low);
    assert!(low == g.low_buf);
    let mut out = vec![0u8; 32];
    g.upscale_rows(&low, &mut out, 0, 4);
    assert_eq!(out, first);
}

#[test]
fn light_ray_pixels() {
    let dark = LightRaysConfig { num_rays: 2, beam_w_q: 0 };
    assert_eq!(light_rays::eval_pixel(0, 0, &dark, 0), 0x0861);
    let two = LightRaysConfig { num_rays: 2, beam_w_q: 2000 };
    assert_eq!(light_rays::eval_pixel(58, 0, &two, 0), 0x3186);
    assert_eq!(light_rays::eval_pixel(58, 200, &two, 0), 0x18E3);
    assert_eq!(light_rays::eval_pixel(0, 0, &two, 0), 0x0861);
    let five = LightRaysConfig { num_rays: 5, beam_w_q: 3000 };
    assert_eq!(light_rays::eval_pixel(116, 50, &five, 12_345), 0x18E3);
    let mut l = LightRays::new(two, 4, 4, nearest(4, 2), nearest(4, 2));
    let mut low = vec![0u16; 233 * 233];
    l.eval_pass(&mut low);
    assert_eq!((low[58], low[200 * 233 + 58]), (0x3186, 0x18E3));
    l.update_time(12_345);
    let mut parts = vec![0u16; 233 * 233];
    l.eval_rows(&mut parts, 1, 2);
    assert!(parts[..233].iter().all(|p| *p == 0) && parts[2 * 233..].iter().all(|p| *p == 0));
    let mut out = vec![0u8; 32];
    l.upscale_rows(&low, &mut out, 0, 4);
    assert_eq!(out[..2], [0x08, 0x61]);
}

#[test]
fn directions() {
    assert_eq!(light_rays::atan2_q14(0, 0), 0);
    assert_eq!(light_rays::atan2_q14(0, 5), 0);
    assert_eq!(light_rays::atan2_q14(1, 3), 1024);
    assert_eq!(light_rays::atan2_q14(10, 10), 6144);
    assert_eq!(light_rays::atan2_q14(5, 0), 8192);
    assert_eq!(light_rays::atan2_q14(1, -3), 15_360);
    assert_eq!(light_rays::atan2_q14(0, -5), 16_384);
    assert_eq!(light_rays::atan2_q14(-1, 3), -1024);
}

#[test]
fn clock_time_and_steps() {
    assert_eq!(clock::current_hm(0), (0, 0));
    assert_eq!(clock::current_hm(3_599_999), (0, 59));
    assert_eq!(clock::current_hm(86_400_000 + 3_660_000), (1, 1));
    assert_eq!(clock::clamp_target(0, 10_000, 4500), 4500);
    assert_eq!(clock::clamp_target(10_000, 0, 4500), 5500);
    assert_eq!(clock::clamp_target(100, 200, 4500), 200);
    assert_eq!(clock::clamp_target(200, 100, 4500), 100);
}

#[test]
fn clock_ring_sweeps() {
    let mut blank: [Option<Glyph>; 128] = [None; 128];
    blank[48] = Some(Glyph { width: 1, height: 1, advance: 1, ymin: 0, data: &[0] });
    let mut c = Clock::new();
    assert_eq!(c.sweep_at(0), Sweep::Initial(0));
    let n = 466 * 466 * 2;
    let mut fb = vec![9u8; n];
    c.render_to_fb(&mut fb, None, 0, 16_384, 2000, &blank);
    assert_eq!((c.drawn_centers, c.last_minute, c.last_bezel_center_delta), (2000, 0, 2000));
    assert!(fb.iter().any(|b| *b != 0 && *b != 9));
    let first = fb.clone();
    // one frame moves the ring by a bounded number of taps
    c.render_to_fb(&mut fb, Some(&first), 500, 16_384, 396_000, &blank);
    assert_eq!(c.drawn_centers, 6500);
    assert_eq!(c.sweep_at(7999), Sweep::Initial(7999));
    assert_eq!(c.sweep_at(8000), Sweep::Still);
    // at rest the ring is left alone
    let before = fb.clone();
    c.render_to_fb(&mut fb, Some(&before), 9000, 16_384, 0, &blank);
    assert!(c.ring_static && c.last_bezel_writes == 0);
    assert!(fb == before);
    // a new minute undraws and redraws it
    assert_eq!(c.sweep_at(60_000), Sweep::Undraw(0));
    c.render_to_fb(&mut fb, Some(&before), 60_000, 16_384, 396_000, &blank);
    assert_eq!((c.last_minute, c.drawn_centers), (1, 396_000));
    assert_eq!(c.sweep_at(63_499), Sweep::Undraw(3499));
    assert_eq!(c.sweep_at(63_500), Sweep::Redraw(0));
    assert_eq!(c.sweep_at(67_000), Sweep::Still);
}

#[test]
fn clock_stamps_and_text() {
    let n = 466 * 466 * 2;
    let mut fb = vec![0u8; n];
    assert_eq!(clock::write_bezel_3x3(&mut fb, (100 * 466 + 50) * 2, 0xAB, 0xCD), 9);
    assert_eq!(fb.iter().filter(|b| **b != 0).count(), 18);
    assert_eq!(fb[(99 * 466 + 49) * 2..][..2], [0xAB, 0xCD]);
    assert_eq!(clock::write_bezel_3x3(&mut fb, 0, 0xAB, 0xCD), 4);
    let mut atlas: [Option<Glyph>; 128] = [None; 128];
    for c in 48..59 {
        atlas[c] = Some(Glyph { width: 4, height: 6, advance: 5, ymin: 0, data: &[0xFF; 12] });
    }
    // two by two bitmap pixels make three by three: 45 wide, 9 high on baseline 238
    let b = clock::text_bbox(&atlas);
    assert_eq!((b.x0, b.y0), (233 - 22 - 2, 238 - 9 - 2));
    let mut c = Clock::new();
    let mut out = vec![0u8; n];
    c.render_to_fb(&mut out, None, 0, 16_384, 0, &atlas);
    assert_ne!(out[(229 * 466 + 211) * 2..][..2], [0, 0]);
    assert_eq!(out[(228 * 466 + 211) * 2..][..2], [0, 0]);
    let mut dark = vec![0u8; n];
    Clock::new().render_to_fb(&mut dark, None, 0, 0, 0, &atlas);
    assert!(dark.iter().all(|v| *v == 0));
}
