//! App screens: the splash title shared by all, the content of the apps that have any, and
//! the one element of each that moves while it rests.
use vstd::prelude::*;

use crate::display::watch_fb;
use crate::display::watch_fb::WatchFb;
use crate::font;
use crate::font::Glyph;
use crate::imath;
use crate::raster;
use crate::scenes::activity;
use crate::scenes::gallery;
use crate::scenes::lock;
use crate::scenes::picture;
use crate::scenes::picture::Picture;
use crate::scenes::settings;
use crate::scenes::sprite;
use crate::scenes::time_app;
use crate::scenes::vector;
use crate::scenes::vector::{Area, Tint};
use crate::scenes::wheel;
use crate::scenes::wheel::{WheelAssets, WheelFx};
use crate::time::WallTime;

verus! {

/// The wheel row is the app.
pub const TIME: usize = 0;
pub const GALLERY: usize = 1;
pub const ACTIVITY: usize = 4;
pub const SETTINGS: usize = 5;
pub const PHOTOS: usize = 7;
/// Brightness slider.
pub const SLIDER_X0: i32 = 143;
pub const SLIDER_W: i32 = 180;
pub const SLIDER_Y: i32 = 195;
pub const SLIDER_MIN: i32 = 20;
/// Titles.
pub const TITLE_BASE_Y: i32 = 92;
pub const TITLE_SPACING: i32 = 4;
pub const TITLE_SCALE_Q8: i32 = 200;
pub const TITLE_WHITE: Tint = (245, 246, 250);
/// Baselines of the time app.
pub const TIME_BASE_Y: i32 = 244;
pub const DATE_BASE_Y: i32 = 298;
/// Seconds arc.
pub const ARC_R_IN: i32 = 224;
pub const ARC_R_OUT: i32 = 228;
pub const AZURE: Tint = (70, 155, 255);
/// Half the stroke of the activity rings.
pub const ACT_HALF_W: i32 = 8;

/// The art and texts of the app screens.
#[derive(Clone, Copy)]
pub struct AppAssets<'a> {
    pub wheel: WheelAssets<'a>,
    /// The large digits.
    pub time: &'a [Option<Glyph>; 128],
    pub photos_disc: &'a [u8],
    pub photos_disc_px: i32,
    pub aperture: &'a [u8],
    pub aperture_px: i32,
    /// Firmware revision.
    pub fw: &'a str,
    /// Full-frame pages.
    pub gallery: &'a [&'static [u8]],
}

pub open spec fn assets_ok(a: AppAssets) -> bool {
    &&& wheel::assets_ok(a.wheel)
    &&& font::font_ok(a.time@)
    &&& 0 <= a.photos_disc_px <= 466
    &&& a.photos_disc@.len() >= a.photos_disc_px * a.photos_disc_px
    &&& 0 <= a.aperture_px <= 466
    &&& a.aperture@.len() >= a.aperture_px * a.aperture_px
    &&& gallery::pages_ok(a.gallery@)
    &&& forall|i: int| 0 <= i < a.fw@.len() ==> ((#[trigger] a.fw@[i]) as int) < 128
}

/// What the app screens keep between frames; times are in milliseconds.
#[derive(Clone, Copy)]
pub struct State {
    pub gal_page: usize,
    pub gal_settle: Option<u64>,
    /// The About panel is open.
    pub set_about: bool,
    /// Brightness level.
    pub set_level: u8,
    /// Second shown by the seconds arc, when it began, the arc's last angle and its tip; no
    /// beginning while the arc is not drawn.
    pub t_sec: u8,
    pub t_anchor: Option<u64>,
    pub t_last_a: i32,
    pub t_tip: Area,
    /// Minute shown by the large digits.
    pub t_min: u8,
}

/// Full brightness, nothing shown.
pub open spec fn fresh_state() -> State {
    State {
        gal_page: 0,
        gal_settle: None,
        set_about: false,
        set_level: 255,
        t_sec: 255,
        t_anchor: None,
        t_last_a: 0,
        t_tip: (0, 0, (-1) as i32, (-1) as i32),
        t_min: 255,
    }
}

impl State {
    pub fn new() -> (s: Self)
        ensures
            s == fresh_state(),
    {
        State {
            gal_page: 0,
            gal_settle: None,
            set_about: false,
            set_level: 255,
            t_sec: 255,
            t_anchor: None,
            t_last_a: 0,
            t_tip: (0, 0, -1, -1),
            t_min: 255,
        }
    }
}

/// Brightness level for a screen column: the floor at the left end, full at the right.
pub open spec fn slider_level(x: int) -> int {
    20 + imath::sclamp(x - 143, 0, 180) * 235 / 180
}

/// Column of the knob for a level.
pub open spec fn slider_pos(level: int) -> int {
    143 + imath::sclamp(level - 20, 0, 235) * 180 / 235
}

pub fn slider_level_from_x(sx: i32) -> (r: u8)
    requires
        sx >= -0x7000_0000,
    ensures
        r == slider_level(sx as int),
        r >= 20,
{
    (SLIDER_MIN + imath::iclamp(sx - SLIDER_X0, 0, SLIDER_W) * 235 / SLIDER_W) as u8
}

/// The slider covers 20..=255, never turns back, and its knob stands under the finger to
/// within a pixel.
pub proof fn lemma_slider(x: int, y: int)
    requires
        x <= y,
    ensures
        20 <= slider_level(x) <= slider_level(y) <= 255,
        x <= 143 ==> slider_level(x) == 20,
        y >= 323 ==> slider_level(y) == 255,
        143 <= x <= 323 ==> x - 1 <= slider_pos(slider_level(x)) <= x,
{
}

/// A press on this row belongs to the slider.
pub fn slider_zone(y: i32) -> (r: bool)
    ensures
        r == (135 <= y <= 213),
{
    135 <= y && y <= 213
}

/// The accent colour of an app.
pub open spec fn accent_of(idx: int) -> Tint {
    if idx == 1 || idx == 8 {
        (255, 165, 80)
    } else if idx == 2 {
        (70, 220, 200)
    } else if idx == 3 {
        (170, 120, 255)
    } else if idx == 5 {
        (200, 215, 255)
    } else if idx == 6 {
        (255, 240, 220)
    } else {
        (90, 160, 255)
    }
}

pub fn accent(idx: usize) -> (r: (i32, i32, i32))
    ensures
        r == accent_of(idx as int),
        vector::tint_ok(r),
{
    match idx {
        1 => (255, 165, 80),
        2 => (70, 220, 200),
        3 => (170, 120, 255),
        5 => (200, 215, 255),
        6 => (255, 240, 220),
        8 => (255, 165, 80),
        _ => (90, 160, 255),
    }
}

/// The app has content behind its splash; the others rest on it.
pub open spec fn with_content(idx: int) -> bool {
    idx == 0 || idx == 1 || idx == 4 || idx == 5 || idx == 7
}

pub fn has_content(idx: usize) -> (r: bool)
    ensures
        r == with_content(idx as int),
{
    idx == TIME || idx == GALLERY || idx == ACTIVITY || idx == SETTINGS || idx == PHOTOS
}

/// The app shows the shared status line; the time app is its own clock.
pub fn shows_status(idx: usize) -> (r: bool)
    ensures
        r == (idx != 0),
{
    idx != TIME
}

/// Upper case of an ASCII code.
pub open spec fn upper(c: u8) -> u8 {
    if 97 <= c <= 122 { (c - 32) as u8 } else { c }
}

fn to_upper(c: u8) -> (r: u8)
    ensures
        r == upper(c),
{
    if 97 <= c && c <= 122 {
        c - 32
    } else {
        c
    }
}

/// Advance of one title character, with its spacing.
pub open spec fn title_advance(text: Seq<Option<Glyph>>, c: u8) -> int {
    match font::glyph_of(text, upper(c)) {
        Some(g) => g.advance * 200 / 256 + 4,
        None => 0,
    }
}

/// Pen position of title character `n`.
pub open spec fn title_pen(text: Seq<Option<Glyph>>, s: Seq<u8>, n: int) -> int
    decreases n,
{
    if n <= 0 { 0 } else { title_pen(text, s, n - 1) + title_advance(text, s[n - 1]) }
}

/// Width of a title: there is no spacing behind its last character.
pub open spec fn title_width(text: Seq<Option<Glyph>>, s: Seq<u8>) -> int {
    let w = title_pen(text, s, s.len() as int);
    if w > 0 { w - 4 } else { 0 }
}

/// Left edge of a centred title.
pub open spec fn title_left(text: Seq<Option<Glyph>>, s: Seq<u8>) -> int {
    233 - title_width(text, s) / 2
}

pub(crate) fn title_metrics(s: &[u8], text: &[Option<Glyph>; 128]) -> (r: (i32, i32))
    requires
        s@.len() <= 0x1000,
    ensures
        r.0 == title_left(text@, s@),
        r.1 == title_width(text@, s@),
        0 <= r.1 <= 0x10_0000,
{
    let mut w: i32 = 0;
    let mut i: usize = 0;
    while i < s.len()
        invariant
            i <= s@.len() <= 0x1000,
            w == title_pen(text@, s@, i as int),
            0 <= w <= 204 * i,
        decreases s@.len() - i,
    {
        if let Some(g) = font::get_glyph(text, to_upper(s[i])) {
            w = w + (g.advance as i32 * TITLE_SCALE_Q8 / 256 + TITLE_SPACING);
        }
        i = i + 1;
    }
    let width: i32 = if w > 0 { w - TITLE_SPACING } else { 0 };
    proof {
        lemma_title_pen(text@, s@, s@.len() as int);
    }
    (233 - width / 2, width)
}

proof fn lemma_title_pen(text: Seq<Option<Glyph>>, s: Seq<u8>, n: int)
    ensures
        title_pen(text, s, n) == 0 || title_pen(text, s, n) >= 4,
        n >= 0 ==> title_pen(text, s, n) <= 204 * n,
    decreases n,
{
    if n > 0 {
        lemma_title_pen(text, s, n - 1);
    }
}

pub open spec fn title_glyph_shader(g: Glyph, ox: int, oy: int, alpha: int, dw: int, dh: int) -> raster::Shader {
    |x: int, y: int, p: (u8, u8)|
        {
            let a = sprite::scaled_glyph_texel(g, dw, dh, x - ox, y - oy, false);
            if a < 8 { p } else { vector::laid(p, TITLE_WHITE, a * alpha / 256) }
        }
}

/// The canvas after one title glyph, at 200/256 of its size.
pub open spec fn title_glyph_on(fb: Seq<u8>, g: Glyph, x: int, base: int, alpha: int) -> Seq<u8> {
    if g.width == 0 || g.height == 0 {
        fb
    } else {
        let dw = sprite::scaled_len(g.width as int, 200);
        let dh = sprite::scaled_len(g.height as int, 200);
        let oy = base - (g.height + g.ymin) * 200 / 256;
        raster::shade(fb, x, oy, x + dw, oy + dh, title_glyph_shader(g, x, oy, alpha, dw, dh))
    }
}

/// The canvas after the first `n` characters of a title.
pub open spec fn title_chars_on(fb: Seq<u8>, text: Seq<Option<Glyph>>, s: Seq<u8>, n: int, left: int, base: int, alpha: int) -> Seq<
    u8,
>
    decreases n,
{
    if n <= 0 {
        fb
    } else {
        let prev = title_chars_on(fb, text, s, n - 1, left, base, alpha);
        match font::glyph_of(text, upper(s[n - 1])) {
            Some(g) => title_glyph_on(prev, g, left + title_pen(text, s, n - 1), base, alpha),
            None => prev,
        }
    }
}

/// The canvas after a title: spaced capitals in white.
pub open spec fn title_on(fb: Seq<u8>, text: Seq<Option<Glyph>>, s: Seq<u8>, left: int, base: int, alpha: int) -> Seq<u8> {
    title_chars_on(fb, text, s, s.len() as int, left, base, alpha)
}

fn draw_title_glyph(fb: &mut [u8], g: &Glyph, ox: i32, base: i32, alpha: i32)
    requires
        font::glyph_ok(*g),
        -0x1000_0000 <= ox <= 0x1000_0000,
        -0x1000_0000 <= base <= 0x1000_0000,
        0 <= alpha <= 0x1_0000,
    ensures
        final(fb)@ == title_glyph_on(old(fb)@, *g, ox as int, base as int, alpha as int),
{
    if g.width == 0 || g.height == 0 {
        return;
    }
    let dw: i32 = imath::imax(g.width as i32 * TITLE_SCALE_Q8 / 256, 1);
    let dh: i32 = imath::imax(g.height as i32 * TITLE_SCALE_Q8 / 256, 1);
    let oy: i32 = base - imath::asr((g.height as i32 + g.ymin as i32) * TITLE_SCALE_Q8, 8);
    let ghost sh = title_glyph_shader(*g, ox as int, oy as int, alpha as int, dw as int, dh as int);
    let f = |x: i32, y: i32, p: (u8, u8)| -> (q: (u8, u8))
        requires
            ox <= x < ox + dw,
            oy <= y < oy + dh,
        ensures
            q == sh(x as int, y as int, p),
        {
            let a: i32 = sprite::scaled_glyph_texel_at(g, dw, dh, x - ox, y - oy, false);
            if a < 8 {
                p
            } else {
                proof {
                    assert(0 <= a * alpha <= 255 * 0x1_0000) by (nonlinear_arith)
                        requires
                            0 <= a <= 255,
                            0 <= alpha <= 0x1_0000,
                    ;
                }
                vector::lay(p, TITLE_WHITE, imath::asr(a * alpha, 8))
            }
        };
    raster::paint(fb, ox, oy, ox + dw, oy + dh, f, Ghost(sh));
}

pub(crate) fn draw_title(fb: &mut [u8], s: &[u8], left_x: i32, base_y: i32, alpha: i32, text: &[Option<Glyph>; 128])
    requires
        font::font_ok(text@),
        s@.len() <= 0x1000,
        -0x800_0000 <= left_x <= 0x800_0000,
        -0x1000_0000 <= base_y <= 0x1000_0000,
        0 <= alpha <= 0x1_0000,
    ensures
        final(fb)@ == title_on(old(fb)@, text@, s@, left_x as int, base_y as int, alpha as int),
{
    let mut x: i32 = left_x;
    let mut i: usize = 0;
    while i < s.len()
        invariant
            font::font_ok(text@),
            i <= s@.len() <= 0x1000,
            -0x800_0000 <= left_x <= 0x800_0000,
            -0x1000_0000 <= base_y <= 0x1000_0000,
            0 <= alpha <= 0x1_0000,
            x == left_x + title_pen(text@, s@, i as int),
            left_x <= x <= left_x + 204 * i,
            fb@ == title_chars_on(old(fb)@, text@, s@, i as int, left_x as int, base_y as int, alpha as int),
        decreases s@.len() - i,
    {
        if let Some(g) = font::get_glyph(text, to_upper(s[i])) {
            draw_title_glyph(fb, &g, x, base_y, alpha);
            x = x + (g.advance as i32 * TITLE_SCALE_Q8 / 256 + TITLE_SPACING);
        }
        i = i + 1;
    }
}

/// A title on the canvas, queued and marked with its surroundings.
pub open spec fn titled(f: Picture, a: AppAssets, w: int, h: int, idx: int, base: int, alpha: int) -> Picture {
    let s = font::codes_of(a.wheel.apps@[idx].name@);
    let left = title_left(a.wheel.text@, s);
    picture::noted(
        picture::on(f, title_on(f.fb, a.wheel.text@, s, left, base, alpha)),
        w,
        h,
        left - 2,
        base - 32,
        left + title_width(a.wheel.text@, s) + 2,
        base + 10,
    )
}

fn put_title(wfb: &mut WatchFb, fx: &mut WheelFx, assets: &AppAssets, idx: usize, base: i32, alpha: i32)
    requires
        old(wfb).wf(),
        old(fx).wf(),
        assets_ok(*assets),
        idx < assets.wheel.apps@.len(),
        0 <= base <= 466,
        0 <= alpha <= 0x1_0000,
    ensures
        final(wfb).wf(),
        final(fx).wf(),
        final(fx).is_seeded() == old(fx).is_seeded(),
        final(fx).intro_frame() == old(fx).intro_frame(),
        final(wfb).w() == old(wfb).w(),
        final(wfb).h() == old(wfb).h(),
        (Picture { fb: final(wfb).canvas(), rects: final(fx).content(), damage: final(wfb).damage() }) == titled(
            (Picture { fb: old(wfb).canvas(), rects: old(fx).content(), damage: old(wfb).damage() }),
            *assets,
            old(wfb).w(),
            old(wfb).h(),
            idx as int,
            base as int,
            alpha as int,
        ),
{
    proof {
        assert(wheel::app_ok(assets.wheel, assets.wheel.apps@[idx as int]));
    }
    let name = font::codes(assets.wheel.apps[idx].name);
    let (tx, tw) = title_metrics(name.as_slice(), assets.wheel.text);
    let fb = wfb.buf_mut();
    draw_title(fb, name.as_slice(), tx, base, alpha, assets.wheel.text);
    picture::note(wfb, fx, tx - 2, base - 32, tx + tw + 2, base + 10);
}

/// Splash title under the centred logo.
pub fn draw_splash_title(wfb: &mut WatchFb, fx: &mut WheelFx, assets: &AppAssets, idx: usize, alpha: i32)
    requires
        old(wfb).wf(),
        old(fx).wf(),
        assets_ok(*assets),
        idx < assets.wheel.apps@.len(),
        0 <= alpha <= 256,
    ensures
        final(wfb).wf(),
        final(fx).wf(),
        final(fx).is_seeded() == old(fx).is_seeded(),
        final(fx).intro_frame() == old(fx).intro_frame(),
        final(wfb).w() == old(wfb).w(),
        final(wfb).h() == old(wfb).h(),
        (Picture { fb: final(wfb).canvas(), rects: final(fx).content(), damage: final(wfb).damage() }) == titled(
            (Picture { fb: old(wfb).canvas(), rects: old(fx).content(), damage: old(wfb).damage() }),
            *assets,
            old(wfb).w(),
            old(wfb).h(),
            idx as int,
            322,
            200 * alpha / 256,
        ),
{
    put_title(wfb, fx, assets, idx, wheel::SPLASH_TITLE_BASE_Y, imath::asr(200 * alpha, 8));
}

/// A line centred on the panel.
pub open spec fn centered_on(fb: Seq<u8>, text: Seq<Option<Glyph>>, s: Seq<u8>, base: int, alpha: int) -> Seq<u8> {
    sprite::text_on(fb, text, s, 233 - font::width_of(text, s) / 2, base, alpha)
}

pub(crate) fn draw_centered_codes(fb: &mut [u8], s: &[u8], base: i32, alpha: i32, text: &[Option<Glyph>; 128])
    requires
        font::font_ok(text@),
        s@.len() <= 0x1000,
        -0x1000 <= base <= 0x1000,
        0 <= alpha <= 0x1_0000,
    ensures
        final(fb)@ == centered_on(old(fb)@, text@, s@, base as int, alpha as int),
{
    let w: i32 = font::codes_width(s, text);
    sprite::draw_codes_at(fb, s, 233 - w / 2, base, alpha, text);
}

pub(crate) fn draw_centered(fb: &mut [u8], s: &str, base: i32, alpha: i32, text: &[Option<Glyph>; 128])
    requires
        font::font_ok(text@),
        s@.len() <= 0x1000,
        -0x1000 <= base <= 0x1000,
        0 <= alpha <= 0x1_0000,
    ensures
        final(fb)@ == centered_on(old(fb)@, text@, font::codes_of(s@), base as int, alpha as int),
{
    let v = font::codes(s);
    draw_centered_codes(fb, v.as_slice(), base, alpha, text);
}

/// Breathing amplitude, 150..=205, on the tempo of the wheel's ring.
pub open spec fn breathing(elapsed_ms: int) -> int {
    150 + wheel::ring_phase(elapsed_ms) * 55 / 256
}

pub(crate) fn breath(elapsed_ms: u32) -> (r: i32)
    ensures
        r == breathing(elapsed_ms as int),
        150 <= r <= 205,
{
    let ph: u32 = elapsed_ms / 8 % 512;
    let tri: i32 = if ph < 256 { ph as i32 } else { 511 - ph as i32 };
    150 + imath::asr(tri * 55, 8)
}

/// The Photos app: a breathing glow disc, the aperture at half opacity, the caption.
pub open spec fn photos_on(f: Picture, a: AppAssets, w: int, h: int, q: int, rise: int, elapsed_ms: int) -> Picture {
    let hy = 230 + rise;
    let r = a.photos_disc_px as int / 2;
    let cap = font::codes_of("nothing captured yet"@);
    let cw = font::width_of(a.wheel.text@, cap);
    let fb1 = sprite::lut_sprite_on(
        f.fb,
        a.photos_disc@,
        a.photos_disc_px as int,
        wheel::saber_table(0),
        233,
        hy,
        breathing(elapsed_ms) * q / 256,
    );
    let fb2 = sprite::icon_on(fb1, a.aperture@, a.aperture_px as int, 233, hy, 128 * q / 256);
    let f1 = picture::noted(picture::on(f, fb2), w, h, 233 - r, hy - r, 233 + r, hy + r);
    picture::noted(
        picture::on(f1, centered_on(f1.fb, a.wheel.text@, cap, 356 + rise, 102 * q / 256)),
        w,
        h,
        233 - cw / 2 - 2,
        324 + rise,
        233 + cw / 2 + 2,
        366 + rise,
    )
}

fn draw_photos(wfb: &mut WatchFb, fx: &mut WheelFx, assets: &AppAssets, q: i32, rise: i32, elapsed_ms: u32)
    requires
        old(wfb).wf(),
        old(fx).wf(),
        assets_ok(*assets),
        0 <= q <= 256,
        0 <= rise <= 20,
    ensures
        final(wfb).wf(),
        final(fx).wf(),
        final(fx).is_seeded() == old(fx).is_seeded(),
        final(fx).intro_frame() == old(fx).intro_frame(),
        final(wfb).w() == old(wfb).w(),
        final(wfb).h() == old(wfb).h(),
        (Picture { fb: final(wfb).canvas(), rects: final(fx).content(), damage: final(wfb).damage() }) == photos_on(
            (Picture { fb: old(wfb).canvas(), rects: old(fx).content(), damage: old(wfb).damage() }),
            *assets,
            old(wfb).w(),
            old(wfb).h(),
            q as int,
            rise as int,
            elapsed_ms as int,
        ),
{
    proof {
        reveal_strlit("nothing captured yet");
    }
    let hy: i32 = 230 + rise;
    let r: i32 = assets.photos_disc_px / 2;
    let lut = wheel::azure_lut();
    let b: i32 = breath(elapsed_ms);
    proof {
        assert(0 <= b * q <= 205 * 256) by (nonlinear_arith)
            requires
                0 <= b <= 205,
                0 <= q <= 256,
        ;
    }
    let fb = wfb.buf_mut();
    sprite::blit_lut_sprite(fb, assets.photos_disc, assets.photos_disc_px, &lut, 233, hy, imath::asr(b * q, 8));
    sprite::blit_icon(fb, assets.aperture, assets.aperture_px, 233, hy, imath::asr(128 * q, 8));
    picture::note(wfb, fx, 233 - r, hy - r, 233 + r, hy + r);
    let cw: i32 = font::text_width("nothing captured yet", assets.wheel.text);
    let fb = wfb.buf_mut();
    draw_centered(fb, "nothing captured yet", 356 + rise, imath::asr(102 * q, 8), assets.wheel.text);
    picture::note(wfb, fx, 233 - cw / 2 - 2, 324 + rise, 233 + cw / 2 + 2, 366 + rise);
}

/// The content of an app at reveal `q` of 256, below its title.
pub open spec fn content_on(
    f: Picture,
    a: AppAssets,
    w: int,
    h: int,
    now: WallTime,
    batt: Option<u8>,
    idx: int,
    q: int,
    elapsed_ms: int,
    st: State,
) -> Picture {
    let rise = (256 - q) * 20 / 256;
    if idx == 7 {
        photos_on(f, a, w, h, q, rise, elapsed_ms)
    } else if idx == 0 {
        let tw = font::width_of(a.time@, lock::time_codes(now.hour, now.minute));
        picture::noted(
            picture::on(f, time_app::digits_on(f.fb, a, now, rise, q)),
            w,
            h,
            233 - tw / 2 - 2,
            150 + rise,
            233 + tw / 2 + 2,
            310 + rise,
        )
    } else if idx == 4 {
        picture::noted(picture::on(f, activity::activity_on(f.fb, a, q, rise)), w, h, 101, 101, 365, 365)
    } else if idx == 5 {
        picture::noted(
            picture::on(f, settings::settings_on(f.fb, a, st, q, rise, batt, elapsed_ms)),
            w,
            h,
            40,
            118 + rise,
            426,
            340 + rise,
        )
    } else {
        f
    }
}

/// App content at reveal `q_q8`: it rises 20 px while it fades in. The time app's arc is
/// drawn anew by the first resting tick.
pub fn draw_reveal(
    wfb: &mut WatchFb,
    fx: &mut WheelFx,
    assets: &AppAssets,
    now: &WallTime,
    batt: Option<u8>,
    idx: usize,
    q_q8: i32,
    elapsed_ms: u32,
    st: &mut State,
)
    requires
        old(wfb).wf(),
        old(fx).wf(),
        assets_ok(*assets),
        idx < assets.wheel.apps@.len(),
        q_q8 <= 256,
    ensures
        final(wfb).wf(),
        final(fx).wf(),
        final(fx).is_seeded() == old(fx).is_seeded(),
        final(fx).intro_frame() == old(fx).intro_frame(),
        final(wfb).w() == old(wfb).w(),
        final(wfb).h() == old(wfb).h(),
        *final(st) == (if q_q8 > 0 && idx == 0 {
            State { t_anchor: None, t_min: now.minute, ..*old(st) }
        } else {
            *old(st)
        }),
        ({
            let f = Picture { fb: old(wfb).canvas(), rects: old(fx).content(), damage: old(wfb).damage() };
            let (w, h) = (old(wfb).w(), old(wfb).h());
            (Picture { fb: final(wfb).canvas(), rects: final(fx).content(), damage: final(wfb).damage() }) == (if q_q8
                > 0 {
                content_on(
                    titled(f, *assets, w, h, idx as int, 92 + (256 - q_q8) * 20 / 256, 153 * q_q8 / 256),
                    *assets,
                    w,
                    h,
                    *now,
                    batt,
                    idx as int,
                    q_q8 as int,
                    elapsed_ms as int,
                    *old(st),
                )
            } else {
                f
            })
        }),
{
    if q_q8 <= 0 {
        return;
    }
    let rise: i32 = imath::asr((256 - q_q8) * 20, 8);
    put_title(wfb, fx, assets, idx, TITLE_BASE_Y + rise, imath::asr(153 * q_q8, 8));
    if idx == PHOTOS {
        draw_photos(wfb, fx, assets, q_q8, rise, elapsed_ms);
    } else if idx == TIME {
        let fb = wfb.buf_mut();
        let tw: i32 = time_app::draw_digits(fb, assets, now, rise, q_q8);
        picture::note(wfb, fx, 233 - tw / 2 - 2, 150 + rise, 233 + tw / 2 + 2, 310 + rise);
        st.t_anchor = None;
        st.t_min = now.minute;
    } else if idx == ACTIVITY {
        let fb = wfb.buf_mut();
        activity::draw_activity(fb, assets, q_q8, rise);
        picture::note(wfb, fx, 101, 101, 365, 365);
    } else if idx == SETTINGS {
        let fb = wfb.buf_mut();
        settings::draw_settings(fb, assets, st, q_q8, rise, batt, elapsed_ms);
        picture::note(wfb, fx, 40, 118 + rise, 426, 340 + rise);
    }
}

/// The resting Photos app: its disc on a cleared square.
pub open spec fn photos_rest(fb: Seq<u8>, a: AppAssets, elapsed_ms: int) -> Seq<u8> {
    let r = a.photos_disc_px as int / 2;
    sprite::icon_on(
        sprite::lut_sprite_on(
            raster::shade(fb, 233 - r, 230 - r, 233 + r, 230 + r, raster::black()),
            a.photos_disc@,
            a.photos_disc_px as int,
            wheel::saber_table(0),
            233,
            230,
            breathing(elapsed_ms),
        ),
        a.aperture@,
        a.aperture_px as int,
        233,
        230,
        128,
    )
}

/// A resting frame: canvas, damage and state.
pub open spec fn ticked(
    f: time_app::Face,
    a: AppAssets,
    w: int,
    h: int,
    idx: int,
    now: WallTime,
    elapsed_ms: int,
    now_ms: u64,
) -> time_app::Face {
    if idx == 7 {
        let r = a.photos_disc_px as int / 2;
        time_app::Face {
            fb: photos_rest(f.fb, a, elapsed_ms),
            damage: watch_fb::marked(f.damage, w, h, 233 - r, 230 - r, 233 + r, 230 + r),
            st: f.st,
        }
    } else if idx == 0 {
        time_app::time_ticked(f, a, w, h, now, now_ms)
    } else if idx == 4 {
        time_app::Face {
            fb: activity::tips_on(f.fb, breathing(elapsed_ms), 3),
            damage: activity::tips_marked(f.damage, w, h, 3),
            st: f.st,
        }
    } else {
        f
    }
}

/// The one moving element of a resting app; the others rest perfectly still. `now_ms` is
/// the running clock that times the seconds arc.
pub fn tick(
    wfb: &mut WatchFb,
    assets: &AppAssets,
    idx: usize,
    now: &WallTime,
    elapsed_ms: u32,
    now_ms: u64,
    st: &mut State,
)
    requires
        old(wfb).wf(),
        assets_ok(*assets),
        time_app::state_ok(*old(st), now_ms),
    ensures
        final(wfb).wf(),
        final(wfb).w() == old(wfb).w(),
        final(wfb).h() == old(wfb).h(),
        time_app::state_ok(*final(st), now_ms),
        (time_app::Face { fb: final(wfb).canvas(), damage: final(wfb).damage(), st: *final(st) }) == ticked(
            (time_app::Face { fb: old(wfb).canvas(), damage: old(wfb).damage(), st: *old(st) }),
            *assets,
            old(wfb).w(),
            old(wfb).h(),
            idx as int,
            *now,
            elapsed_ms as int,
            now_ms,
        ),
{
    if idx == PHOTOS {
        let r: i32 = assets.photos_disc_px / 2;
        let lut = wheel::azure_lut();
        let b: i32 = breath(elapsed_ms);
        let fb = wfb.buf_mut();
        raster::fill_rect_black(fb, 233 - r, 230 - r, 232 + r, 229 + r);
        sprite::blit_lut_sprite(fb, assets.photos_disc, assets.photos_disc_px, &lut, 233, 230, b);
        sprite::blit_icon(fb, assets.aperture, assets.aperture_px, 233, 230, 128);
        wfb.mark_rect(233 - r, 230 - r, 233 + r, 230 + r);
    } else if idx == TIME {
        time_app::time_tick(wfb, assets, now, now_ms, st);
    } else if idx == ACTIVITY {
        activity::activity_tick(wfb, elapsed_ms);
    }
}

} // verus!
