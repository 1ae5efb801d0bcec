//! The app wheel: rows of icons hugging the circle's chord with centred labels, the
//! focused row large and bright inside a glow ring. Frames are damage-minimised: only
//! the rectangles drawn last time are cleared, and one union box is marked.
use vstd::prelude::*;

use crate::display::dmi;
use crate::display::watch_fb;
use crate::display::watch_fb::WatchFb;
use crate::font;
use crate::font::Glyph;
use crate::imath;
use crate::pixel;
use crate::raster;
use crate::scenes::sprite;
use crate::time::WallTime;

pub use crate::font::text_width;
pub use crate::scenes::sprite::{blit_icon, blit_icon_scaled, blit_lut_sprite, draw_text_at, draw_text_scaled};

verus! {

/// Row pitch in list space.
pub const PITCH_PX: i32 = 68;
/// Padding between an icon's box and the circular boundary.
pub const EDGE_PAD: i32 = 10;
/// Frames by which each row starts rising after the one above it.
pub const INTRO_STAG_F: i32 = 2;
/// Frames a row takes to rise.
pub const INTRO_RISE_F: i32 = 10;
/// How far below its resting place a row starts.
pub const INTRO_RISE_PX: i32 = 28;
/// Length of the entrance reveal.
pub const INTRO_FRAMES: u32 = 29;
/// Content rectangles tracked per frame.
pub const FX_RECTS: usize = 40;
/// Rows that are laid out.
pub const MAX_ROWS: usize = 16;
/// Status line baseline.
pub const STATUS_BASE_Y: i32 = 52;
/// Status line alpha.
pub const STATUS_ALPHA: i32 = 200;
/// Side of the splash logo.
pub const SPLASH_PX: i32 = 128;
/// Centre row of the splash logo.
pub const SPLASH_ICON_Y: i32 = 210;
/// Baseline of the splash title.
pub const SPLASH_TITLE_BASE_Y: i32 = 322;

/// One app of the wheel: its label and its alpha sprites, small, large and extra large.
#[derive(Clone, Copy)]
pub struct WheelApp {
    pub name: &'static str,
    pub icon_s: &'static [u8],
    pub icon_l: &'static [u8],
    pub icon_x: &'static [u8],
}

/// The pre-rendered art of the wheel.
#[derive(Clone, Copy)]
pub struct WheelAssets<'a> {
    pub apps: &'a [WheelApp],
    pub icon_s_px: i32,
    pub icon_l_px: i32,
    pub icon_x_px: i32,
    pub glow_ring: &'a [u8],
    pub glow_ring_px: i32,
    pub text: &'a [Option<Glyph>; 128],
    pub labelf: &'a [Option<Glyph>; 128],
}

/// The sprites hold all their pixels and sizes are those of a panel.
pub open spec fn assets_ok(a: WheelAssets) -> bool {
    &&& 1 <= a.icon_s_px <= 232
    &&& 1 <= a.icon_l_px <= 232
    &&& 1 <= a.icon_x_px <= 466
    &&& 0 <= a.glow_ring_px <= 466
    &&& a.glow_ring@.len() >= a.glow_ring_px * a.glow_ring_px
    &&& font::font_ok(a.text@)
    &&& font::font_ok(a.labelf@)
    &&& a.apps@.len() <= 0x4000
    &&& forall|i: int| 0 <= i < a.apps@.len() ==> app_ok(a, #[trigger] a.apps@[i])
}

pub open spec fn app_ok(a: WheelAssets, app: WheelApp) -> bool {
    &&& app.name@.len() <= 256
    &&& app.icon_s@.len() >= a.icon_s_px * a.icon_s_px
    &&& app.icon_l@.len() >= a.icon_l_px * a.icon_l_px
    &&& app.icon_x@.len() >= a.icon_x_px * a.icon_x_px
}

/// Number of app rows.
pub fn rows(assets: &WheelAssets) -> (n: usize)
    ensures
        n == assets.apps@.len(),
{
    assets.apps.len()
}

/// A tracked content rectangle, inclusive.
pub type Rect = (i16, i16, i16, i16);

/// State kept between frames: last frame's content rectangles, whether the canvas holds
/// them, and the entrance reveal.
pub struct WheelFx {
    rects: [Rect; 40],
    n: usize,
    seeded: bool,
    intro: Option<u32>,
}

/// One more tracked rectangle; beyond 40 they are dropped.
pub open spec fn pushed(s: Seq<Rect>, x0: int, y0: int, x1: int, y1: int) -> Seq<Rect> {
    if s.len() < 40 {
        s.push((x0 as i16, y0 as i16, x1 as i16, y1 as i16))
    } else {
        s
    }
}

impl WheelFx {
    /// The tracked rectangles, oldest first.
    pub closed spec fn content(&self) -> Seq<Rect> {
        self.rects@.take(self.n as int)
    }

    /// The canvas holds what the rectangles track.
    pub closed spec fn is_seeded(&self) -> bool {
        self.seeded
    }

    /// Frame of the entrance reveal, while it runs.
    pub closed spec fn intro_frame(&self) -> Option<u32> {
        self.intro
    }

    pub closed spec fn wf(&self) -> bool {
        self.n <= 40 && (self.intro is Some ==> self.intro->0 < 29)
    }

    /// Nothing tracked; the next frame starts from a full clear.
    pub fn new() -> (r: Self)
        ensures
            r.wf(),
            r.content() == Seq::<Rect>::empty(),
            !r.is_seeded(),
            r.intro_frame() is None,
    {
        let r = WheelFx { rects: [(0, 0, 0, 0);40], n: 0, seeded: false, intro: None };
        assert(r.content() =~= Seq::<Rect>::empty());
        r
    }

    /// Restart the entrance reveal; the next frame clears the full canvas.
    pub fn begin_intro(&mut self)
        requires
            old(self).wf(),
        ensures
            final(self).wf(),
            !final(self).is_seeded(),
            final(self).intro_frame() == Some(0u32),
            final(self).content() == old(self).content(),
    {
        self.seeded = false;
        self.intro = Some(0);
    }

    /// Another composer painted over the canvas: the next frame clears all of it.
    pub fn invalidate(&mut self)
        requires
            old(self).wf(),
        ensures
            final(self).wf(),
            !final(self).is_seeded(),
            final(self).intro_frame() == old(self).intro_frame(),
            final(self).content() == old(self).content(),
    {
        self.seeded = false;
    }

    /// Take over the canvas without clearing it; rectangles pushed before the next frame
    /// queue foreign content for its targeted erase.
    pub fn seed_silent(&mut self)
        requires
            old(self).wf(),
        ensures
            final(self).wf(),
            final(self).is_seeded(),
            final(self).intro_frame() is None,
            final(self).content() == Seq::<Rect>::empty(),
    {
        self.seeded = true;
        self.n = 0;
        self.intro = None;
        assert(self.content() =~= Seq::<Rect>::empty());
    }

    /// The entrance reveal is running.
    pub fn intro_active(&self) -> (r: bool)
        ensures
            r == (self.intro_frame() is Some),
    {
        self.intro.is_some()
    }

    /// Consume the reseed flag: true exactly once after `invalidate` or construction.
    pub fn take_seed(&mut self) -> (r: bool)
        requires
            old(self).wf(),
        ensures
            final(self).wf(),
            r == !old(self).is_seeded(),
            final(self).is_seeded(),
            final(self).intro_frame() == old(self).intro_frame(),
            final(self).content() == old(self).content(),
    {
        let was = self.seeded;
        self.seeded = true;
        !was
    }

    /// Track one more rectangle.
    pub fn push(&mut self, x0: i32, y0: i32, x1: i32, y1: i32)
        requires
            old(self).wf(),
        ensures
            final(self).wf(),
            final(self).content() == pushed(
                old(self).content(),
                x0 as int,
                y0 as int,
                x1 as int,
                y1 as int,
            ),
            final(self).is_seeded() == old(self).is_seeded(),
            final(self).intro_frame() == old(self).intro_frame(),
    {
        if self.n < FX_RECTS {
            self.rects[self.n] = (x0 as i16, y0 as i16, x1 as i16, y1 as i16);
            self.n = self.n + 1;
            assert(self.content() =~= pushed(
                old(self).content(),
                x0 as int,
                y0 as int,
                x1 as int,
                y1 as int,
            ));
        }
    }
}

/// Focus proximity of a row: 256 at the centre, 0 two rows away.
pub open spec fn row_focus(y_c: int) -> int {
    256 - imath::smin(imath::sabs(y_c - 233) * 256 / 136, 256)
}

/// Row alpha: 256 at the centre, 115 two rows away, then fading out over one more row.
pub open spec fn row_fade(y_c: int) -> int {
    let ady = imath::sabs(y_c - 233);
    let a = 115 + 141 * row_focus(y_c) / 256;
    if ady > 136 {
        a * imath::smax(256 - (ady - 136) * 256 / 68, 0) / 256
    } else {
        a
    }
}

/// Row alpha and focus proximity.
pub fn row_alpha(y_c: i32) -> (r: (i32, i32))
    requires
        -8_388_374 <= y_c <= 8_388_840,
    ensures
        r.0 == row_fade(y_c as int),
        r.1 == row_focus(y_c as int),
        0 <= r.0 <= 256,
        0 <= r.1 <= 256,
{
    let ady: i32 = imath::iabs(y_c - 233);
    let t: i32 = imath::imax(256 - imath::imin(ady * 256 / (2 * PITCH_PX), 256), 0);
    let mut alpha: i32 = 115 + (141 * t) / 256;
    if ady > 2 * PITCH_PX {
        let fade: i32 = imath::imax(256 - ((ady - 2 * PITCH_PX) * 256) / PITCH_PX, 0);
        proof {
            assert(0 <= alpha * fade <= 256 * 256) by (nonlinear_arith)
                requires 0 <= alpha <= 256, 0 <= fade <= 256;
        }
        alpha = imath::asr(alpha * fade, 8);
    }
    (alpha, t)
}

/// Distance from the centre of an icon's worst row (its far corner), held to the circle.
pub open spec fn worst_row(y_c: int, px: int) -> int {
    imath::smin(imath::sabs(y_c - 233) + px / 2, 232)
}

/// Half the chord of the circle at distance `d` from the centre.
pub open spec fn half_chord(d: int) -> int {
    imath::sqrt_of((54_289 - d * d) * 256) / 16
}

/// Icon centre: its box is fitted against the chord at its worst row, plus the padding.
pub open spec fn icon_x(y_c: int, px: int) -> int {
    233 - half_chord(worst_row(y_c, px)) + 10 + px / 2
}

/// An icon's left corners keep the padding inside the circle as long as its box does not
/// reach past the top or bottom of the circle.
pub proof fn lemma_icon_inside_circle(y_c: int, px: int)
    requires
        px >= 0,
        imath::sabs(y_c - 233) + px / 2 <= 232,
    ensures
        ({
            let left = icon_x(y_c, px) - px / 2 - 10;
            let dy = imath::sabs(y_c - 233) + px / 2;
            (233 - left) * (233 - left) + dy * dy <= 233 * 233
        }),
{
    let d = worst_row(y_c, px);
    let v = (54_289 - d * d) * 256;
    assert(0 <= d * d <= 232 * 232) by (nonlinear_arith)
        requires 0 <= d <= 232;
    imath::lemma_sqrt_exists(v);
    let r = imath::sqrt_of(v);
    let h = r / 16;
    assert(256 * (h * h) <= r * r) by (nonlinear_arith)
        requires 0 <= 16 * h, 16 * h <= r;
    assert(h * h <= 54_289 - d * d);
}

pub fn icon_center_x(y_c: i32, px: i32) -> (r: i32)
    requires
        0 <= px,
        imath::sabs(y_c - 233) + px / 2 <= i32::MAX - 243,
        y_c >= i32::MIN + 233,
    ensures
        r == icon_x(y_c as int, px as int),
        10 + px / 2 <= r <= 243 + px / 2,
{
    let s: i32 = px / 2;
    let dyw: i32 = imath::imin(imath::iabs(y_c - 233) + s, 232);
    proof {
        assert(0 <= dyw * dyw <= 232 * 232) by (nonlinear_arith)
            requires 0 <= dyw <= 232;
    }
    let root: u32 = imath::isqrt(((54_289 - dyw * dyw) as u32) * 256);
    proof {
        let v = (54_289 - dyw * dyw) * 256;
        assert(root < 3729) by (nonlinear_arith)
            requires root * root <= v, v <= 54_289 * 256;
    }
    let half_w: i32 = (root / 16) as i32;
    233 - half_w + EDGE_PAD + s
}

/// Codes of the status line: "HH:MM", then " | NN%" when the battery is known.
pub open spec fn status_codes(hour: u8, minute: u8, battery: Option<u8>) -> Seq<u8> {
    let head = seq![
        (48 + hour / 10) as u8,
        (48 + hour % 10) as u8,
        58u8,
        (48 + minute / 10) as u8,
        (48 + minute % 10) as u8,
    ];
    match battery {
        None => head,
        Some(pct) => head + seq![32u8, 124u8, 32u8] + percent_codes(pct) + seq![37u8],
    }
}

/// Decimal digits of a percentage; 100 and above read "100".
pub open spec fn percent_codes(pct: u8) -> Seq<u8> {
    if pct >= 100 {
        seq![49u8, 48u8, 48u8]
    } else if pct >= 10 {
        seq![(48 + pct / 10) as u8, (48 + pct % 10) as u8]
    } else {
        seq![(48 + pct % 10) as u8]
    }
}

/// Format the status line.
pub fn status_str(now: &WallTime, battery: Option<u8>) -> (s: Vec<u8>)
    ensures
        s@ == status_codes(now.hour, now.minute, battery),
        5 <= s@.len() <= 12,
{
    let mut s: Vec<u8> = Vec::new();
    s.push(48 + now.hour / 10);
    s.push(48 + now.hour % 10);
    s.push(58);
    s.push(48 + now.minute / 10);
    s.push(48 + now.minute % 10);
    if let Some(pct) = battery {
        s.push(32);
        s.push(124);
        s.push(32);
        if pct >= 100 {
            s.push(49);
            s.push(48);
            s.push(48);
        } else {
            if pct >= 10 {
                s.push(48 + pct / 10);
            }
            s.push(48 + pct % 10);
        }
        s.push(37);
    }
    assert(s@ =~= status_codes(now.hour, now.minute, battery));
    s
}

/// The canvas after the status line, centred at the top.
pub open spec fn status_on(fb: Seq<u8>, text: Seq<Option<Glyph>>, s: Seq<u8>) -> Seq<u8> {
    sprite::text_on(fb, text, s, 233 - font::width_of(text, s) / 2, 52, 200)
}

/// Draw the status line. Source-over: over an image the band has to be restored first.
pub fn draw_status(fb: &mut [u8], now: &WallTime, battery: Option<u8>, text: &[Option<Glyph>; 128])
    requires
        font::font_ok(text@),
    ensures
        final(fb)@ == status_on(old(fb)@, text@, status_codes(now.hour, now.minute, battery)),
{
    let s = status_str(now, battery);
    let w: i32 = font::codes_width(s.as_slice(), text);
    sprite::draw_codes_at(fb, s.as_slice(), 233 - w / 2, STATUS_BASE_Y, STATUS_ALPHA, text);
}

/// Where the status line rests: left edge, width of its "HH:MM" head, full width.
pub fn status_metrics(now: &WallTime, battery: Option<u8>, text: &[Option<Glyph>; 128]) -> (r: (i32, i32, i32))
    ensures
        ({
            let s = status_codes(now.hour, now.minute, battery);
            &&& r.0 == 233 - font::width_of(text@, s) / 2
            &&& r.1 == font::pen(text@, s, 5)
            &&& r.2 == font::width_of(text@, s)
        }),
        0 <= r.1 <= r.2 <= 3060,
{
    let s = status_str(now, battery);
    let w: i32 = font::codes_width(s.as_slice(), text);
    let head: i32 = font::codes_width(vstd::slice::slice_subrange(s.as_slice(), 0, 5), text);
    proof {
        let t = s@.subrange(0, 5);
        font::lemma_pen_prefix(text@, t, s@, 5);
        font::lemma_pen_monotonic(text@, s@, 5, s@.len() as int);
    }
    (233 - w / 2, head, w)
}

/// The canvas after the status line without its "HH:MM" head, at its resting position.
pub open spec fn status_tail_on(fb: Seq<u8>, text: Seq<Option<Glyph>>, s: Seq<u8>, alpha: int) -> Seq<u8> {
    if s.len() <= 5 {
        fb
    } else {
        sprite::text_on(
            fb,
            text,
            s.skip(5),
            233 - font::width_of(text, s) / 2 + font::pen(text, s, 5),
            52,
            alpha,
        )
    }
}

/// Draw the status line minus its "HH:MM" head.
pub fn draw_status_tail(
    fb: &mut [u8],
    now: &WallTime,
    battery: Option<u8>,
    alpha: i32,
    text: &[Option<Glyph>; 128],
)
    requires
        font::font_ok(text@),
    ensures
        final(fb)@ == status_tail_on(
            old(fb)@,
            text@,
            status_codes(now.hour, now.minute, battery),
            alpha as int,
        ),
{
    let s = status_str(now, battery);
    if s.len() <= 5 {
        return;
    }
    let (left, head, _w) = status_metrics(now, battery, text);
    let tail = vstd::slice::slice_subrange(s.as_slice(), 5, s.len());
    assert(tail@ =~= s@.skip(5));
    sprite::draw_codes_at(fb, tail, left + head, STATUS_BASE_Y, alpha, text);
}

/// A channel of the saber gradient between its azure and violet ends.
pub open spec fn phase_mix(a: int, b: int, phase: int) -> int {
    a + imath::tdiv((b - a) * phase, 256)
}

/// Linear ramp from `a` to `b` over `n` steps.
pub open spec fn ramp(a: int, b: int, t: int, n: int) -> int {
    a + imath::tdiv(t * (b - a), n)
}

/// One channel of the saber gradient at intensity `v`: `c0`..`c3` are its values at the
/// four stops 72, 160, 216 and 255.
pub open spec fn saber_channel(v: int, c0: int, c1: int, c2: int, c3: int) -> int {
    let c = if v < 72 {
        v * c0 / 72
    } else if v < 160 {
        ramp(c0, c1, v - 72, 88)
    } else if v < 216 {
        ramp(c1, c2, v - 160, 56)
    } else {
        ramp(c2, c3, v - 216, 39)
    };
    imath::sclamp(c, 0, 255)
}

/// Colour of the saber gradient at intensity `v`, phase-blended from azure (0) to violet (256).
pub open spec fn saber_color(v: int, phase: int) -> (u8, u8) {
    pixel::rgb888(
        saber_channel(
            v,
            phase_mix(10, 60, phase),
            phase_mix(0, 90, phase),
            phase_mix(0, 140, phase),
            phase_mix(190, 220, phase),
        ),
        saber_channel(
            v,
            phase_mix(40, 20, phase),
            phase_mix(110, 70, phase),
            phase_mix(170, 130, phase),
            255,
        ),
        saber_channel(v, phase_mix(140, 160, phase), phase_mix(230, 255, phase), 255, 255),
    )
}

/// The gradient as a table over all intensities.
pub open spec fn saber_table(phase: int) -> Seq<(u8, u8)> {
    Seq::new(256, |v: int| saber_color(v, phase))
}

fn phase_mix_at(a: i32, b: i32, phase: i32) -> (r: i32)
    requires
        0 <= a <= 255,
        0 <= b <= 255,
        0 <= phase <= 256,
    ensures
        r == phase_mix(a as int, b as int, phase as int),
        0 <= r <= 255,
{
    let d: i32 = b - a;
    proof {
        assert(d >= 0 ==> 0 <= d * phase <= d * 256) by (nonlinear_arith)
            requires 0 <= phase <= 256;
        assert(d < 0 ==> d * 256 <= d * phase <= 0) by (nonlinear_arith)
            requires 0 <= phase <= 256;
    }
    a + d * phase / 256
}

fn ramp_at(a: i32, b: i32, t: i32, n: i32) -> (r: i32)
    requires
        0 <= a <= 255,
        0 <= b <= 255,
        0 <= t <= n,
        1 <= n <= 255,
    ensures
        r == ramp(a as int, b as int, t as int, n as int),
        -255 <= r <= 510,
{
    let d: i32 = b - a;
    proof {
        assert(-255 * 255 <= t * d <= 255 * 255) by (nonlinear_arith)
            requires 0 <= t <= 255, -255 <= d <= 255;
        assert(t * d >= 0 ==> t * d / n as int <= 255) by (nonlinear_arith)
            requires 0 <= t <= n, -255 <= d <= 255, n >= 1;
        assert(t * d < 0 ==> (-(t * d)) / n as int <= 255) by (nonlinear_arith)
            requires 0 <= t <= n, -255 <= d <= 255, n >= 1;
        assert(t * d >= 0 ==> t * d / n as int >= 0) by (nonlinear_arith)
            requires n >= 1;
        assert(t * d < 0 ==> (-(t * d)) / n as int >= 0) by (nonlinear_arith)
            requires n >= 1;
    }
    a + t * d / n
}

fn saber_channel_at(v: i32, c0: i32, c1: i32, c2: i32, c3: i32) -> (r: i32)
    requires
        0 <= v <= 255,
        0 <= c0 <= 255,
        0 <= c1 <= 255,
        0 <= c2 <= 255,
        0 <= c3 <= 255,
    ensures
        r == saber_channel(v as int, c0 as int, c1 as int, c2 as int, c3 as int),
        0 <= r <= 255,
{
    let c: i32 = if v < 72 {
        proof {
            assert(0 <= v * c0 <= 255 * 255) by (nonlinear_arith)
                requires 0 <= v <= 255, 0 <= c0 <= 255;
        }
        v * c0 / 72
    } else if v < 160 {
        ramp_at(c0, c1, v - 72, 88)
    } else if v < 216 {
        ramp_at(c1, c2, v - 160, 56)
    } else {
        ramp_at(c2, c3, v - 216, 39)
    };
    imath::iclamp(c, 0, 255)
}

/// The saber gradient, phase-blended from azure towards violet.
pub fn saber_lut(phase: i32) -> (lut: [(u8, u8); 256])
    requires
        0 <= phase <= 256,
    ensures
        lut@ == saber_table(phase as int),
{
    let r0: i32 = phase_mix_at(10, 60, phase);
    let r1: i32 = phase_mix_at(0, 90, phase);
    let r2: i32 = phase_mix_at(0, 140, phase);
    let r3: i32 = phase_mix_at(190, 220, phase);
    let g0: i32 = phase_mix_at(40, 20, phase);
    let g1: i32 = phase_mix_at(110, 70, phase);
    let g2: i32 = phase_mix_at(170, 130, phase);
    let b0: i32 = phase_mix_at(140, 160, phase);
    let b1: i32 = phase_mix_at(230, 255, phase);
    let mut lut: [(u8, u8); 256] = [(0u8, 0u8);256];
    let mut i: usize = 0;
    while i < 256
        invariant
            i <= 256,
            0 <= r0 <= 255,
            0 <= r1 <= 255,
            0 <= r2 <= 255,
            0 <= r3 <= 255,
            0 <= g0 <= 255,
            0 <= g1 <= 255,
            0 <= g2 <= 255,
            0 <= b0 <= 255,
            0 <= b1 <= 255,
            r0 == phase_mix(10, 60, phase as int),
            r1 == phase_mix(0, 90, phase as int),
            r2 == phase_mix(0, 140, phase as int),
            r3 == phase_mix(190, 220, phase as int),
            g0 == phase_mix(40, 20, phase as int),
            g1 == phase_mix(110, 70, phase as int),
            g2 == phase_mix(170, 130, phase as int),
            b0 == phase_mix(140, 160, phase as int),
            b1 == phase_mix(230, 255, phase as int),
            forall|k: int| 0 <= k < i ==> lut@[k] == saber_color(k, phase as int),
        decreases 256 - i,
    {
        let v: i32 = i as i32;
        lut[i] = pixel::pack888(
            saber_channel_at(v, r0, r1, r2, r3),
            saber_channel_at(v, g0, g1, g2, 255),
            saber_channel_at(v, b0, b1, 255, 255),
        );
        i = i + 1;
    }
    assert(lut@ =~= saber_table(phase as int));
    lut
}

/// The saber gradient at its azure end.
pub fn azure_lut() -> (lut: [(u8, u8); 256])
    ensures
        lut@ == saber_table(0),
{
    saber_lut(0)
}

/// Where and how one row is drawn.
#[derive(Clone, Copy, Debug, PartialEq, Eq, Structural)]
pub struct RowLayout {
    /// Row centre on the canvas.
    pub y: i32,
    /// Row alpha, 0..=256.
    pub alpha: i32,
    /// Focus proximity, 0..=256.
    pub focus: i32,
    /// Blend from the small (0) to the large (256) size.
    pub large: i32,
    /// Icon centre.
    pub cx: i32,
    /// Progress of the row's reveal, 0..=256.
    pub shown: i32,
}

/// Cubic ease-out of a linear progress in 0..=256.
pub open spec fn ease_out(p: int) -> int {
    let inv = 256 - p;
    256 - inv * inv / 256 * inv / 256
}

pub proof fn lemma_ease_out(p: int)
    requires
        0 <= p <= 256,
    ensures
        0 <= ease_out(p) <= 256,
        ease_out(0) == 0,
        ease_out(256) == 256,
{
    let inv = 256 - p;
    assert(0 <= inv * inv <= 256 * 256) by (nonlinear_arith)
        requires 0 <= inv <= 256;
    let q = inv * inv / 256;
    assert(0 <= q * inv <= 256 * 256) by (nonlinear_arith)
        requires 0 <= q <= 256, 0 <= inv <= 256;
}

fn ease_out_at(p: i32) -> (r: i32)
    requires
        0 <= p <= 256,
    ensures
        r == ease_out(p as int),
        0 <= r <= 256,
{
    let inv: i32 = 256 - p;
    proof {
        lemma_ease_out(p as int);
        assert(0 <= inv * inv <= 256 * 256) by (nonlinear_arith)
            requires 0 <= inv <= 256;
        let q = inv * inv / 256;
        assert(0 <= q * inv <= 256 * 256) by (nonlinear_arith)
            requires 0 <= q <= 256, 0 <= inv <= 256;
    }
    256 - imath::asr(imath::asr(inv * inv, 8) * inv, 8)
}

/// Linear reveal progress of row `i` whose list position is `y_c`: scrubbed by the unlock
/// sheet, by the entrance clock, or complete.
pub open spec fn row_progress(i: int, y_c: int, reveal: Option<i32>, intro: Option<u32>) -> int {
    match reveal {
        Some(pv) => imath::sclamp(imath::tdiv((y_c + 34 - (466 - pv * 466 / 256)) * 256, 110), 0, 256),
        None => match intro {
            Some(f) => imath::sclamp(imath::tdiv((f - 2 * i) * 256, 10), 0, 256),
            None => 256,
        },
    }
}

/// Layout of row `i` at scroll offset `s_px`, if it is visible at all.
pub open spec fn row_layout(i: int, s_px: int, reveal: Option<i32>, intro: Option<u32>, ps: int, pl: int) -> Option<
    RowLayout,
> {
    let y_c = 233 + i * 68 - s_px;
    if y_c < -68 || y_c > 534 || row_fade(y_c) == 0 {
        None
    } else {
        let p = row_progress(i, y_c, reveal, intro);
        if p == 0 {
            None
        } else {
            let e = ease_out(p);
            let y = y_c + (256 - e) * 28 / 256;
            let wl = imath::sclamp((row_focus(y_c) - 160) * 4, 0, 256);
            let xs = icon_x(y, ps);
            let xl = icon_x(y, pl);
            Some(
                RowLayout {
                    y: y as i32,
                    alpha: (row_fade(y_c) * e / 256) as i32,
                    focus: row_focus(y_c) as i32,
                    large: wl as i32,
                    cx: (xs + (xl - xs) * wl / 256) as i32,
                    shown: e as i32,
                },
            )
        }
    }
}

/// The layout is on or near the panel.
pub open spec fn layout_ok(r: RowLayout) -> bool {
    &&& -68 <= r.y <= 562
    &&& 0 <= r.alpha <= 256
    &&& 0 <= r.focus <= 256
    &&& 0 <= r.large <= 256
    &&& -400 <= r.cx <= 800
    &&& 0 <= r.shown <= 256
}

/// Lay out one row.
pub fn layout_row(i: i32, s_px: i32, reveal: Option<i32>, intro: Option<u32>, ps: i32, pl: i32) -> (r: Option<RowLayout>)
    requires
        0 <= i <= 0x1_0000,
        -0x100_0000 <= s_px <= 0x100_0000,
        intro is Some ==> intro->0 <= 0x1_0000,
        0 <= ps <= 232,
        0 <= pl <= 232,
    ensures
        r == row_layout(i as int, s_px as int, reveal, intro, ps as int, pl as int),
        r is Some ==> layout_ok(r->0),
{
    let y_c: i32 = 233 + i * PITCH_PX - s_px;
    if y_c < -PITCH_PX || y_c > 466 + PITCH_PX {
        return None;
    }
    let (fade, t) = row_alpha(y_c);
    if fade == 0 {
        return None;
    }
    let p: i32 = match reveal {
        Some(pv) => {
            let edge: i64 = 466 - imath::floor_div(pv as i64 * 466, 256);
            let q: i64 = ((y_c as i64 + 34 - edge) * 256) / 110;
            if q < 0 {
                0
            } else if q > 256 {
                256
            } else {
                q as i32
            }
        },
        None => match intro {
            Some(f) => imath::iclamp(((f as i32 - INTRO_STAG_F * i) * 256) / INTRO_RISE_F, 0, 256),
            None => 256,
        },
    };
    if p == 0 {
        return None;
    }
    let e: i32 = ease_out_at(p);
    let y: i32 = y_c + imath::asr((256 - e) * INTRO_RISE_PX, 8);
    let wl: i32 = imath::iclamp((t - 160) * 4, 0, 256);
    let xs: i32 = icon_center_x(y, ps);
    let xl: i32 = icon_center_x(y, pl);
    proof {
        lemma_ease_out(256);
        assert(0 <= fade * e <= 256 * 256) by (nonlinear_arith)
            requires 0 <= fade <= 256, 0 <= e <= 256;
        assert(-400 * 256 <= (xl - xs) * wl <= 400 * 256) by (nonlinear_arith)
            requires -400 <= xl - xs <= 400, 0 <= wl <= 256;
        if e == 256 {
            assert(fade * 256 / 256 == fade);
        }
    }
    Some(
        RowLayout {
            y,
            alpha: imath::asr(fade * e, 8),
            focus: t,
            large: wl,
            cx: xs + imath::asr((xl - xs) * wl, 8),
            shown: e,
        },
    )
}

/// A canvas and the rectangles drawn on it.
pub struct Frame {
    pub fb: Seq<u8>,
    pub rects: Seq<Rect>,
}

/// A bounding box, inclusive; empty while `x0 > x1`.
pub struct Bounds {
    pub x0: int,
    pub y0: int,
    pub x1: int,
    pub y1: int,
}

pub open spec fn no_bounds() -> Bounds {
    Bounds { x0: i32::MAX as int, y0: i32::MAX as int, x1: i32::MIN as int, y1: i32::MIN as int }
}

/// Union with a rectangle.
pub open spec fn bounds_with(b: Bounds, x0: int, y0: int, x1: int, y1: int) -> Bounds {
    Bounds {
        x0: imath::smin(b.x0, x0),
        y0: imath::smin(b.y0, y0),
        x1: imath::smax(b.x1, x1),
        y1: imath::smax(b.y1, y1),
    }
}

/// The canvas with the first `n` rectangles cleared to black.
pub open spec fn cleared(fb: Seq<u8>, r: Seq<Rect>, n: int) -> Seq<u8>
    decreases n,
{
    if n <= 0 {
        fb
    } else {
        let (x0, y0, x1, y1) = r[n - 1];
        raster::shade(cleared(fb, r, n - 1), x0 as int, y0 as int, x1 + 1, y1 + 1, raster::black())
    }
}

/// Union of the on-panel parts of the first `n` rectangles.
pub open spec fn cleared_bounds(r: Seq<Rect>, n: int) -> Bounds
    decreases n,
{
    if n <= 0 {
        no_bounds()
    } else {
        let b = cleared_bounds(r, n - 1);
        let x0 = imath::smax(r[n - 1].0 as int, 0);
        let y0 = imath::smax(r[n - 1].1 as int, 0);
        let x1 = imath::smin(r[n - 1].2 as int, 465);
        let y1 = imath::smin(r[n - 1].3 as int, 465);
        if x1 < x0 || y1 < y0 { b } else { bounds_with(b, x0, y0, x1, y1) }
    }
}

/// `b` grown by the first `n` rectangles.
pub open spec fn bounds_all(b: Bounds, r: Seq<Rect>, n: int) -> Bounds
    decreases n,
{
    if n <= 0 {
        b
    } else {
        bounds_with(
            bounds_all(b, r, n - 1),
            r[n - 1].0 as int,
            r[n - 1].1 as int,
            r[n - 1].2 as int,
            r[n - 1].3 as int,
        )
    }
}

/// Start of a frame: everything black when the canvas is not ours, else what was drawn
/// last time cleared.
pub open spec fn frame_start(fb: Seq<u8>, rects: Seq<Rect>, seeded: bool) -> Seq<u8> {
    if seeded {
        cleared(fb, rects, rects.len() as int)
    } else {
        Seq::new(fb.len(), |i: int| 0u8)
    }
}

/// Damage of a frame: the whole panel when it was cleared, else the union of the old and
/// new content.
pub open spec fn frame_damage(d: dmi::Damage, w: int, h: int, before: Seq<Rect>, seeded: bool, after: Seq<Rect>) -> dmi::Damage {
    if !seeded {
        watch_fb::marked(d, w, h, 0, 0, 465, 465)
    } else {
        let b = bounds_all(cleared_bounds(before, before.len() as int), after, after.len() as int);
        if b.x0 <= b.x1 && b.y0 <= b.y1 {
            watch_fb::marked(d, w, h, b.x0, b.y0, b.x1, b.y1)
        } else {
            d
        }
    }
}

/// Bounding box under construction.
#[derive(Clone, Copy)]
pub struct Bbox {
    pub x0: i32,
    pub y0: i32,
    pub x1: i32,
    pub y1: i32,
}

pub open spec fn bbox_is(b: Bbox, s: Bounds) -> bool {
    b.x0 == s.x0 && b.y0 == s.y0 && b.x1 == s.x1 && b.y1 == s.y1
}

/// Grow a bounding box by a rectangle.
pub fn grow(d: &mut Bbox, x0: i32, y0: i32, x1: i32, y1: i32)
    ensures
        forall|s: Bounds|
            bbox_is(*old(d), s) ==> #[trigger] bbox_is(
                *final(d),
                bounds_with(s, x0 as int, y0 as int, x1 as int, y1 as int),
            ),
        final(d).x0 == imath::smin(old(d).x0 as int, x0 as int),
        final(d).y0 == imath::smin(old(d).y0 as int, y0 as int),
        final(d).x1 == imath::smax(old(d).x1 as int, x1 as int),
        final(d).y1 == imath::smax(old(d).y1 as int, y1 as int),
{
    d.x0 = imath::imin(d.x0, x0);
    d.y0 = imath::imin(d.y0, y0);
    d.x1 = imath::imax(d.x1, x1);
    d.y1 = imath::imax(d.y1, y1);
}

/// Clear last frame's content, or everything when the canvas is not ours, and stop tracking it.
fn begin_frame(fb: &mut [u8], fx: &mut WheelFx) -> (r: Bbox)
    requires
        old(fx).wf(),
    ensures
        final(fx).wf(),
        final(fx).is_seeded(),
        final(fx).content() == Seq::<Rect>::empty(),
        final(fx).intro_frame() == old(fx).intro_frame(),
        final(fb)@ == frame_start(old(fb)@, old(fx).content(), old(fx).is_seeded()),
        old(fx).is_seeded() ==> bbox_is(
            r,
            cleared_bounds(old(fx).content(), old(fx).content().len() as int),
        ),
{
    let mut d = Bbox { x0: i32::MAX, y0: i32::MAX, x1: i32::MIN, y1: i32::MIN };
    if !fx.seeded {
        fx.seeded = true;
        watch_fb::fill_black(fb);
    } else {
        let mut k: usize = 0;
        while k < fx.n
            invariant
                k <= fx.n <= 40,
                *fx == *old(fx),
                bbox_is(d, cleared_bounds(fx.content(), k as int)),
                fb@ == cleared(old(fb)@, fx.content(), k as int),
            decreases fx.n - k,
        {
            let (a, b, c, e) = fx.rects[k];
            assert(fx.content()[k as int] == fx.rects@[k as int]);
            raster::fill_rect_black(fb, a as i32, b as i32, c as i32, e as i32);
            let x0: i32 = imath::imax(a as i32, 0);
            let y0: i32 = imath::imax(b as i32, 0);
            let x1: i32 = imath::imin(c as i32, 465);
            let y1: i32 = imath::imin(e as i32, 465);
            if !(x1 < x0 || y1 < y0) {
                grow(&mut d, x0, y0, x1, y1);
            }
            k = k + 1;
        }
    }
    fx.n = 0;
    assert(fx.content() =~= Seq::<Rect>::empty());
    d
}

/// Mark the union of the old content `d` and the new content, or the whole panel.
fn end_frame(wfb: &mut WatchFb, fx: &WheelFx, d: Bbox, seed: bool, Ghost(before): Ghost<Seq<Rect>>)
    requires
        old(wfb).wf(),
        fx.wf(),
        !seed ==> bbox_is(d, cleared_bounds(before, before.len() as int)),
    ensures
        final(wfb).wf(),
        final(wfb).canvas() == old(wfb).canvas(),
        final(wfb).w() == old(wfb).w(),
        final(wfb).h() == old(wfb).h(),
        final(wfb).damage() == frame_damage(
            old(wfb).damage(),
            old(wfb).w(),
            old(wfb).h(),
            before,
            !seed,
            fx.content(),
        ),
{
    if seed {
        wfb.mark_rect(0, 0, 465, 465);
        return;
    }
    let ghost b0 = cleared_bounds(before, before.len() as int);
    let mut d = d;
    let mut k: usize = 0;
    while k < fx.n
        invariant
            k <= fx.n <= 40,
            bbox_is(d, bounds_all(b0, fx.content(), k as int)),
        decreases fx.n - k,
    {
        let (x0, y0, x1, y1) = fx.rects[k];
        assert(fx.content()[k as int] == fx.rects@[k as int]);
        grow(&mut d, x0 as i32, y0 as i32, x1 as i32, y1 as i32);
        k = k + 1;
    }
    assert(fx.content().len() == fx.n);
    if d.x0 <= d.x1 && d.y0 <= d.y1 {
        wfb.mark_rect(d.x0, d.y0, d.x1, d.y1);
    }
}

/// The frame after the glow halos of the first `n` rows.
pub open spec fn glow_rows(f: Frame, a: WheelAssets, r: Seq<Option<RowLayout>>, lut: Seq<(u8, u8)>, n: int) -> Frame
    decreases n,
{
    if n <= 0 {
        f
    } else {
        let prev = glow_rows(f, a, r, lut, n - 1);
        match r[n - 1] {
            Some(l) if l.focus > 128 => glow_on(
                prev,
                a,
                lut,
                l.cx as int,
                l.y as int,
                (l.focus - 128) * 2 * l.shown / 256,
            ),
            _ => prev,
        }
    }
}

/// The frame after one glow ring.
pub open spec fn glow_on(f: Frame, a: WheelAssets, lut: Seq<(u8, u8)>, cx: int, cy: int, alpha: int) -> Frame {
    let s = a.glow_ring_px as int / 2;
    Frame {
        fb: sprite::lut_sprite_on(f.fb, a.glow_ring@, a.glow_ring_px as int, lut, cx, cy, alpha),
        rects: pushed(f.rects, cx - s, cy - s, cx + s, cy + s),
    }
}

fn draw_glow(fb: &mut [u8], fx: &mut WheelFx, assets: &WheelAssets, lut: &[(u8, u8); 256], cx: i32, cy: i32, alpha: i32)
    requires
        old(fx).wf(),
        assets_ok(*assets),
        -0x100_0000 <= cx <= 0x100_0000,
        -0x100_0000 <= cy <= 0x100_0000,
        -0x40_0000 <= alpha <= 0x40_0000,
    ensures
        final(fx).wf(),
        final(fx).is_seeded() == old(fx).is_seeded(),
        final(fx).intro_frame() == old(fx).intro_frame(),
        (Frame { fb: final(fb)@, rects: final(fx).content() }) == glow_on(
            (Frame { fb: old(fb)@, rects: old(fx).content() }),
            *assets,
            lut@,
            cx as int,
            cy as int,
            alpha as int,
        ),
{
    sprite::blit_lut_sprite(fb, assets.glow_ring, assets.glow_ring_px, lut, cx, cy, alpha);
    let s: i32 = assets.glow_ring_px / 2;
    fx.push(cx - s, cy - s, cx + s, cy + s);
}

/// Effective icon side of a row.
pub open spec fn icon_side(a: WheelAssets, large: int) -> int {
    a.icon_s_px + (a.icon_l_px - a.icon_s_px) * large / 256
}

/// Scale of a label between the small and the focused size, in 256ths.
pub open spec fn label_scale(large: int) -> int {
    196 + 60 * large / 256
}

/// Width of a row's label.
pub open spec fn label_width(a: WheelAssets, name: Seq<u8>, large: int) -> int {
    if large == 0 {
        font::width_of(a.text@, name)
    } else if large == 256 {
        font::width_of(a.labelf@, name)
    } else {
        font::width_of(a.labelf@, name) * label_scale(large) / 256
    }
}

/// Left edge of a row's label: centred, but clear of the icon.
pub open spec fn label_left(a: WheelAssets, name: Seq<u8>, l: RowLayout) -> int {
    imath::smax(
        233 - label_width(a, name, l.large as int) / 2,
        l.cx + icon_side(a, l.large as int) / 2 + 10,
    )
}

/// The canvas after a row's icon.
pub open spec fn row_icon_on(fb: Seq<u8>, a: WheelAssets, app: WheelApp, l: RowLayout, fast: bool) -> Seq<u8> {
    if l.large == 0 {
        sprite::icon_on(fb, app.icon_s@, a.icon_s_px as int, l.cx as int, l.y as int, l.alpha as int)
    } else if l.large == 256 {
        sprite::icon_on(fb, app.icon_l@, a.icon_l_px as int, l.cx as int, l.y as int, l.alpha as int)
    } else {
        sprite::scaled_icon_on(
            fb,
            app.icon_l@,
            a.icon_l_px as int,
            icon_side(a, l.large as int),
            l.cx as int,
            l.y as int,
            l.alpha as int,
            fast,
        )
    }
}

/// The canvas after a row's label.
pub open spec fn row_label_on(fb: Seq<u8>, a: WheelAssets, name: Seq<u8>, l: RowLayout, x: int, fast: bool) -> Seq<u8> {
    if l.large == 0 {
        sprite::text_on(fb, a.text@, name, x, l.y + 11, l.alpha as int)
    } else if l.large == 256 {
        sprite::text_on(fb, a.labelf@, name, x, l.y + 11, l.alpha as int)
    } else {
        sprite::scaled_text_on(
            fb,
            a.labelf@,
            name,
            x,
            l.y + 11,
            l.alpha as int,
            label_scale(l.large as int),
            fast,
        )
    }
}

/// The frame after the pill that holds a pressed label.
pub open spec fn pill_on(f: Frame, l: RowLayout, x: int, tw: int) -> Frame {
    let up: int = if l.large >= 128 { 28 } else { 20 };
    let dn: int = if l.large >= 128 { 26 } else { 22 };
    Frame {
        fb: raster::shade(
            f.fb,
            x - 16,
            l.y - up,
            x + tw + 16 + 1,
            l.y + dn + 1,
            sprite::pill_shader(x - 16, l.y - up, x + tw + 16, l.y + dn),
        ),
        rects: pushed(f.rects, x - 18, l.y - up - 1, x + tw + 18, l.y + dn + 1),
    }
}

/// The frame after one row's icon, pill (when `held`) and label.
pub open spec fn row_on(f: Frame, a: WheelAssets, app: WheelApp, l: RowLayout, fast: bool, held: bool) -> Frame {
    let name = font::codes_of(app.name@);
    let s = icon_side(a, l.large as int) / 2 + 1;
    let x = label_left(a, name, l);
    let tw = label_width(a, name, l.large as int);
    let f1 = Frame {
        fb: row_icon_on(f.fb, a, app, l, fast),
        rects: if fast || l.focus <= 128 {
            pushed(f.rects, l.cx - s, l.y - s, l.cx + s, l.y + s)
        } else {
            f.rects
        },
    };
    let f2 = if held { pill_on(f1, l, x, tw) } else { f1 };
    Frame {
        fb: row_label_on(f2.fb, a, name, l, x, fast),
        rects: pushed(f2.rects, x - 1, l.y - 36, x + tw + 1, l.y + 36),
    }
}

fn icon_side_at(assets: &WheelAssets, large: i32) -> (r: i32)
    requires
        assets_ok(*assets),
        0 <= large <= 256,
    ensures
        r == icon_side(*assets, large as int),
        1 <= r <= 232,
{
    let d: i32 = assets.icon_l_px - assets.icon_s_px;
    proof {
        assert(d >= 0 ==> 0 <= d * large <= d * 256) by (nonlinear_arith)
            requires 0 <= large <= 256;
        assert(d < 0 ==> d * 256 <= d * large <= 0) by (nonlinear_arith)
            requires 0 <= large <= 256;
    }
    assets.icon_s_px + imath::asr(d * large, 8)
}

fn label_width_at(assets: &WheelAssets, name: &[u8], large: i32) -> (r: i32)
    requires
        assets_ok(*assets),
        name@.len() <= 256,
        0 <= large <= 256,
    ensures
        r == label_width(*assets, name@, large as int),
        0 <= r <= 65280,
{
    if large == 0 {
        font::codes_width(name, assets.text)
    } else {
        let w: i32 = font::codes_width(name, assets.labelf);
        if large == 256 {
            w
        } else {
            let sc: i32 = 196 + imath::asr(60 * large, 8);
            proof {
                assert(0 <= w * sc <= 65280 * 256) by (nonlinear_arith)
                    requires 0 <= w <= 65280, 0 <= sc <= 256;
            }
            imath::asr(w * sc, 8)
        }
    }
}

/// Draw one row: icon, held-press pill, label.
fn draw_row(fb: &mut [u8], fx: &mut WheelFx, assets: &WheelAssets, app: &WheelApp, l: RowLayout, fast: bool, held: bool)
    requires
        old(fx).wf(),
        assets_ok(*assets),
        app_ok(*assets, *app),
        layout_ok(l),
    ensures
        final(fx).wf(),
        final(fx).is_seeded() == old(fx).is_seeded(),
        final(fx).intro_frame() == old(fx).intro_frame(),
        (Frame { fb: final(fb)@, rects: final(fx).content() }) == row_on(
            (Frame { fb: old(fb)@, rects: old(fx).content() }),
            *assets,
            *app,
            l,
            fast,
            held,
        ),
{
    let side: i32 = icon_side_at(assets, l.large);
    if l.large == 0 {
        sprite::blit_icon(fb, app.icon_s, assets.icon_s_px, l.cx, l.y, l.alpha);
    } else if l.large == 256 {
        sprite::blit_icon(fb, app.icon_l, assets.icon_l_px, l.cx, l.y, l.alpha);
    } else {
        sprite::blit_icon_scaled(fb, app.icon_l, assets.icon_l_px, side, l.cx, l.y, l.alpha, fast);
    }
    if fast || l.focus <= 128 {
        let s: i32 = side / 2 + 1;
        fx.push(l.cx - s, l.y - s, l.cx + s, l.y + s);
    }
    let codes = font::codes(app.name);
    let tw: i32 = label_width_at(assets, codes.as_slice(), l.large);
    let x: i32 = imath::imax(233 - tw / 2, l.cx + side / 2 + 10);
    if held {
        let up: i32 = if l.large >= 128 { 28 } else { 20 };
        let dn: i32 = if l.large >= 128 { 26 } else { 22 };
        sprite::fill_pill(fb, x - 16, l.y - up, x + tw + 16, l.y + dn);
        fx.push(x - 18, l.y - up - 1, x + tw + 18, l.y + dn + 1);
    }
    if l.large == 0 {
        sprite::draw_codes_at(fb, codes.as_slice(), x, l.y + 11, l.alpha, assets.text);
    } else if l.large == 256 {
        sprite::draw_codes_at(fb, codes.as_slice(), x, l.y + 11, l.alpha, assets.labelf);
    } else {
        let sc: i32 = 196 + imath::asr(60 * l.large, 8);
        proof {
            let n = codes@.len() as int;
            assert(255 * n * sc <= 255 * 256 * 256) by (nonlinear_arith)
                requires 0 <= n <= 256, 0 <= sc <= 256;
        }
        sprite::draw_codes_scaled(fb, codes.as_slice(), x, l.y + 11, l.alpha, assets.labelf, sc, fast);
    }
    fx.push(x - 1, l.y - 36, x + tw + 1, l.y + 36);
}

/// The frame after the icons and labels of the first `n` rows.
pub open spec fn label_rows(f: Frame, a: WheelAssets, r: Seq<Option<RowLayout>>, fast: bool, pill: Option<usize>, n: int) -> Frame
    decreases n,
{
    if n <= 0 {
        f
    } else {
        let prev = label_rows(f, a, r, fast, pill, n - 1);
        match r[n - 1] {
            Some(l) => row_on(prev, a, a.apps@[n - 1], l, fast, pill == Some((n - 1) as usize)),
            None => prev,
        }
    }
}

/// The frame after the status line on top.
pub open spec fn status_frame(f: Frame, text: Seq<Option<Glyph>>, s: Seq<u8>) -> Frame {
    Frame { fb: status_on(f.fb, text, s), rects: pushed(f.rects, 123, 26, 343, 66) }
}

/// Layouts of the rows at scroll offset `s_q8` (256ths of a pixel).
pub open spec fn wheel_rows(a: WheelAssets, s_q8: int, reveal: Option<i32>, intro: Option<u32>) -> Seq<Option<RowLayout>> {
    Seq::new(
        imath::smin(a.apps@.len() as int, 16) as nat,
        |i: int| row_layout(i, s_q8 / 256, reveal, intro, a.icon_s_px as int, a.icon_l_px as int),
    )
}

/// A whole wheel frame on top of the cleared canvas: halos, rows, status line. In motion
/// (`fast`) the halos are left out; while the unlock sheet scrubs the rows (`reveal`) the
/// status line is.
pub open spec fn scroll_frame(
    f: Frame,
    a: WheelAssets,
    status: Seq<u8>,
    s_q8: int,
    intro: Option<u32>,
    fast: bool,
    reveal: Option<i32>,
    pill: Option<usize>,
) -> Frame {
    let r = wheel_rows(a, s_q8, reveal, intro);
    let n = r.len() as int;
    let f1 = if fast { f } else { glow_rows(f, a, r, saber_table(0), n) };
    let f2 = label_rows(f1, a, r, fast, pill, n);
    if reveal is Some { f2 } else { status_frame(f2, a.text@, status) }
}

/// Entrance clock of the next frame.
pub open spec fn next_intro(intro: Option<u32>) -> Option<u32> {
    match intro {
        Some(f) => if f + 1 >= 29 { None } else { Some((f + 1) as u32) },
        None => None,
    }
}

fn layout_rows(assets: &WheelAssets, s_q8: i32, reveal: Option<i32>, intro: Option<u32>) -> (r: Vec<Option<RowLayout>>)
    requires
        assets_ok(*assets),
        intro is Some ==> intro->0 <= 0x1_0000,
    ensures
        r@ == wheel_rows(*assets, s_q8 as int, reveal, intro),
        forall|k: int| 0 <= k < r@.len() && (#[trigger] r@[k]) is Some ==> layout_ok(r@[k]->0),
{
    let s_px: i32 = imath::asr(s_q8, 8);
    let mut v: Vec<Option<RowLayout>> = Vec::new();
    let n: usize = if assets.apps.len() < MAX_ROWS { assets.apps.len() } else { MAX_ROWS };
    let mut i: usize = 0;
    while i < n
        invariant
            assets_ok(*assets),
            i <= n <= 16,
            n == imath::smin(assets.apps@.len() as int, 16),
            s_px == s_q8 as int / 256,
            intro is Some ==> intro->0 <= 0x1_0000,
            v@.len() == i,
            forall|k: int|
                0 <= k < i ==> #[trigger] v@[k] == wheel_rows(*assets, s_q8 as int, reveal, intro)[k],
            forall|k: int| 0 <= k < i && (#[trigger] v@[k]) is Some ==> layout_ok(v@[k]->0),
        decreases n - i,
    {
        v.push(layout_row(i as i32, s_px, reveal, intro, assets.icon_s_px, assets.icon_l_px));
        i = i + 1;
    }
    assert(v@ =~= wheel_rows(*assets, s_q8 as int, reveal, intro));
    v
}

/// Draw the halos of all focused rows.
fn draw_glows(fb: &mut [u8], fx: &mut WheelFx, assets: &WheelAssets, rows: &Vec<Option<RowLayout>>)
    requires
        old(fx).wf(),
        assets_ok(*assets),
        forall|k: int| 0 <= k < rows@.len() && (#[trigger] rows@[k]) is Some ==> layout_ok(rows@[k]->0),
    ensures
        final(fx).wf(),
        final(fx).is_seeded() == old(fx).is_seeded(),
        final(fx).intro_frame() == old(fx).intro_frame(),
        (Frame { fb: final(fb)@, rects: final(fx).content() }) == glow_rows(
            (Frame { fb: old(fb)@, rects: old(fx).content() }),
            *assets,
            rows@,
            saber_table(0),
            rows@.len() as int,
        ),
{
    let lut = saber_lut(0);
    let ghost f0 = Frame { fb: fb@, rects: fx.content() };
    let mut i: usize = 0;
    while i < rows.len()
        invariant
            i <= rows@.len(),
            assets_ok(*assets),
            lut@ == saber_table(0),
            forall|k: int| 0 <= k < rows@.len() && (#[trigger] rows@[k]) is Some ==> layout_ok(rows@[k]->0),
            fx.wf(),
            fx.is_seeded() == old(fx).is_seeded(),
            fx.intro_frame() == old(fx).intro_frame(),
            (Frame { fb: fb@, rects: fx.content() }) == glow_rows(f0, *assets, rows@, saber_table(0), i as int),
        decreases rows@.len() - i,
    {
        if let Some(l) = rows[i] {
            if l.focus > 128 {
                proof {
                    assert(rows@[i as int] is Some);
                    assert(0 <= (l.focus - 128) * 2 * l.shown <= 256 * 256) by (nonlinear_arith)
                        requires 0 <= l.focus - 128 <= 128, 0 <= l.shown <= 256;
                }
                draw_glow(
                    fb,
                    fx,
                    assets,
                    &lut,
                    l.cx,
                    l.y,
                    imath::asr((l.focus - 128) * 2 * l.shown, 8),
                );
            }
        }
        i = i + 1;
    }
}

/// Draw all laid-out rows.
fn draw_labels(fb: &mut [u8], fx: &mut WheelFx, assets: &WheelAssets, rows: &Vec<Option<RowLayout>>, fast: bool, pill: Option<usize>)
    requires
        old(fx).wf(),
        assets_ok(*assets),
        rows@.len() <= assets.apps@.len(),
        forall|k: int| 0 <= k < rows@.len() && (#[trigger] rows@[k]) is Some ==> layout_ok(rows@[k]->0),
    ensures
        final(fx).wf(),
        final(fx).is_seeded() == old(fx).is_seeded(),
        final(fx).intro_frame() == old(fx).intro_frame(),
        (Frame { fb: final(fb)@, rects: final(fx).content() }) == label_rows(
            (Frame { fb: old(fb)@, rects: old(fx).content() }),
            *assets,
            rows@,
            fast,
            pill,
            rows@.len() as int,
        ),
{
    let ghost f0 = Frame { fb: fb@, rects: fx.content() };
    let mut i: usize = 0;
    while i < rows.len()
        invariant
            i <= rows@.len() <= assets.apps@.len(),
            assets_ok(*assets),
            forall|k: int| 0 <= k < rows@.len() && (#[trigger] rows@[k]) is Some ==> layout_ok(rows@[k]->0),
            fx.wf(),
            fx.is_seeded() == old(fx).is_seeded(),
            fx.intro_frame() == old(fx).intro_frame(),
            (Frame { fb: fb@, rects: fx.content() }) == label_rows(f0, *assets, rows@, fast, pill, i as int),
        decreases rows@.len() - i,
    {
        if let Some(l) = rows[i] {
            proof {
                assert(rows@[i as int] is Some);
                assert(app_ok(*assets, assets.apps@[i as int]));
            }
            let app = assets.apps[i];
            let held = match pill {
                Some(k) => k == i,
                None => false,
            };
            draw_row(fb, fx, assets, &app, l, fast, held);
        }
        i = i + 1;
    }
}

/// Scroll frame: rows positioned by the continuous offset `s_q8` (row `i` rests centred at
/// `i * PITCH_PX * 256`).
pub fn draw_scroll(
    wfb: &mut WatchFb,
    assets: &WheelAssets,
    now: &WallTime,
    battery: Option<u8>,
    s_q8: i32,
    fx: &mut WheelFx,
    fast: bool,
    reveal: Option<i32>,
    pill: Option<usize>,
)
    requires
        old(wfb).wf(),
        old(fx).wf(),
        assets_ok(*assets),
    ensures
        ({
            let intro = if reveal is Some { None } else { old(fx).intro_frame() };
            let f = scroll_frame(
                (Frame {
                    fb: frame_start(old(wfb).canvas(), old(fx).content(), old(fx).is_seeded()),
                    rects: Seq::<Rect>::empty(),
                }),
                *assets,
                status_codes(now.hour, now.minute, battery),
                s_q8 as int,
                intro,
                fast,
                reveal,
                pill,
            );
            &&& final(wfb).canvas() == f.fb
            &&& final(fx).content() == f.rects
            &&& final(fx).intro_frame() == next_intro(intro)
            &&& final(wfb).damage() == frame_damage(
                old(wfb).damage(),
                old(wfb).w(),
                old(wfb).h(),
                old(fx).content(),
                old(fx).is_seeded(),
                f.rects,
            )
        }),
        final(fx).wf(),
        final(fx).is_seeded(),
        final(wfb).wf(),
        final(wfb).w() == old(wfb).w(),
        final(wfb).h() == old(wfb).h(),
{
    if reveal.is_some() {
        fx.intro = None;
    }
    let intro: Option<u32> = fx.intro;
    if let Some(f) = intro {
        fx.intro = if f + 1 >= INTRO_FRAMES { None } else { Some(f + 1) };
    }
    let seed = !fx.seeded;
    let ghost before = old(fx).content();
    assert(fx.content() == before);
    let fb = wfb.buf_mut();
    let d = begin_frame(fb, fx);
    let rows = layout_rows(assets, s_q8, reveal, intro);
    if !fast {
        draw_glows(fb, fx, assets, &rows);
    }
    draw_labels(fb, fx, assets, &rows, fast, pill);
    if reveal.is_none() {
        draw_status(fb, now, battery, assets.text);
        fx.push(233 - 110, 26, 233 + 110, 66);
    }
    end_frame(wfb, fx, d, seed, Ghost(before));
}

/// Triangle wave of the focus ring, 0..=255 and back over 4096 ms.
pub open spec fn ring_phase(elapsed_ms: int) -> int {
    let ph = elapsed_ms / 8 % 512;
    if ph < 256 { ph } else { 511 - ph }
}

/// The canvas after a resting focus ring: its box cleared, the glow through the
/// phase-shifted gradient, the focused icon on top.
pub open spec fn ring_on(fb: Seq<u8>, a: WheelAssets, app: WheelApp, phase: int) -> Seq<u8> {
    let s = a.glow_ring_px as int / 2;
    let cx = icon_x(233, a.icon_l_px as int);
    sprite::icon_on(
        sprite::lut_sprite_on(
            raster::shade(fb, cx - s, 233 - s, cx + s, 233 + s, raster::black()),
            a.glow_ring@,
            a.glow_ring_px as int,
            saber_table(phase),
            cx,
            233,
            256,
        ),
        app.icon_l@,
        a.icon_l_px as int,
        cx,
        233,
        256,
    )
}

/// Drawn from black, every tick is identical: repeating one changes no pixel.
pub proof fn lemma_ring_repeats(fb: Seq<u8>, a: WheelAssets, app: WheelApp, phase: int, x: int, y: int)
    requires
        raster::has_px(fb.len() as int, x, y),
        a.glow_ring_px >= 0,
        a.icon_l_px >= 0,
        a.icon_l_px <= a.glow_ring_px as int / 2 * 2,
    ensures
        raster::px_at(ring_on(ring_on(fb, a, app, phase), a, app, phase), x, y) == raster::px_at(
            ring_on(fb, a, app, phase),
            x,
            y,
        ),
{
    let once = ring_on(fb, a, app, phase);
    lemma_ring_px(fb, a, app, phase, x, y);
    lemma_ring_px(once, a, app, phase, x, y);
    let s = a.glow_ring_px as int / 2;
    let g = a.glow_ring_px as int;
    let cx = icon_x(233, a.icon_l_px as int);
    let (ox, oy) = (cx - g / 2, 233 - g / 2);
    let p = raster::px_at(fb, x, y);
    let t = sprite::texel(a.glow_ring@, g, x - ox, y - oy);
    pixel::lemma_lighter_merges(
        p,
        saber_table(phase)[imath::sclamp(t * 256 / 256, 0, 255)],
        saber_table(phase)[imath::sclamp(t * 256 / 256, 0, 255)],
    );
}

/// A tick changes no pixel outside the box it marks.
pub proof fn lemma_ring_damage(fb: Seq<u8>, a: WheelAssets, app: WheelApp, phase: int, x: int, y: int)
    requires
        raster::has_px(fb.len() as int, x, y),
        a.glow_ring_px >= 0,
        a.icon_l_px >= 0,
        a.icon_l_px <= a.glow_ring_px as int / 2 * 2,
        ({
            let s = a.glow_ring_px as int / 2;
            let cx = icon_x(233, a.icon_l_px as int);
            !(cx - s <= x <= cx + s && 233 - s <= y <= 233 + s)
        }),
    ensures
        raster::px_at(ring_on(fb, a, app, phase), x, y) == raster::px_at(fb, x, y),
{
    lemma_ring_px(fb, a, app, phase, x, y);
}

/// The pixel that a ring tick leaves.
pub open spec fn ring_px(a: WheelAssets, app: WheelApp, phase: int, x: int, y: int, p: (u8, u8)) -> (u8, u8) {
    let g = a.glow_ring_px as int;
    let n = a.icon_l_px as int;
    let cx = icon_x(233, n);
    let (gx, gy) = (cx - g / 2, 233 - g / 2);
    let (ix, iy) = (cx - n / 2, 233 - n / 2);
    let p1 = if gx <= x < cx + g / 2 && gy <= y < 233 + g / 2 { (0u8, 0u8) } else { p };
    let p2 = if gx <= x < gx + g && gy <= y < gy + g {
        sprite::lut_shader(a.glow_ring@, g, saber_table(phase), gx, gy, 256)(x, y, p1)
    } else {
        p1
    };
    if ix <= x < ix + n && iy <= y < iy + n {
        sprite::icon_shader(app.icon_l@, n, ix, iy, 256)(x, y, p2)
    } else {
        p2
    }
}

proof fn lemma_ring_px(fb: Seq<u8>, a: WheelAssets, app: WheelApp, phase: int, x: int, y: int)
    requires
        raster::has_px(fb.len() as int, x, y),
    ensures
        ring_on(fb, a, app, phase).len() == fb.len(),
        raster::px_at(ring_on(fb, a, app, phase), x, y) == ring_px(
            a,
            app,
            phase,
            x,
            y,
            raster::px_at(fb, x, y),
        ),
{
    broadcast use raster::lemma_shade_len;

    let g = a.glow_ring_px as int;
    let s = g / 2;
    let n = a.icon_l_px as int;
    let cx = icon_x(233, n);
    let f1 = raster::shade(fb, cx - s, 233 - s, cx + s, 233 + s, raster::black());
    let (gx, gy) = (cx - g / 2, 233 - g / 2);
    let gsh = sprite::lut_shader(a.glow_ring@, g, saber_table(phase), gx, gy, 256);
    let f2 = raster::shade(f1, gx, gy, gx + g, gy + g, gsh);
    let (ix, iy) = (cx - n / 2, 233 - n / 2);
    let ish = sprite::icon_shader(app.icon_l@, n, ix, iy, 256);
    raster::lemma_shade_px(fb, cx - s, 233 - s, cx + s, 233 + s, raster::black(), x, y);
    raster::lemma_shade_px(f1, gx, gy, gx + g, gy + g, gsh, x, y);
    raster::lemma_shade_px(f2, ix, iy, ix + n, iy + n, ish, x, y);
}

/// Focus-ring tick while the wheel rests: the glow breathes through the gradient.
pub fn tick_ring(wfb: &mut WatchFb, assets: &WheelAssets, elapsed_ms: u32, focused: usize)
    requires
        old(wfb).wf(),
        assets_ok(*assets),
        focused < assets.apps@.len(),
    ensures
        final(wfb).wf(),
        final(wfb).w() == old(wfb).w(),
        final(wfb).h() == old(wfb).h(),
        final(wfb).canvas() == ring_on(
            old(wfb).canvas(),
            *assets,
            assets.apps@[focused as int],
            ring_phase(elapsed_ms as int),
        ),
        ({
            let s = assets.glow_ring_px as int / 2;
            let cx = icon_x(233, assets.icon_l_px as int);
            final(wfb).damage() == watch_fb::marked(
                old(wfb).damage(),
                old(wfb).w(),
                old(wfb).h(),
                cx - s,
                233 - s,
                cx + s,
                233 + s,
            )
        }),
{
    let ph: u32 = (elapsed_ms / 8) % 512;
    let phase: i32 = if ph < 256 { ph as i32 } else { 511 - ph as i32 };
    let saber = saber_lut(phase);
    proof {
        assert(app_ok(*assets, assets.apps@[focused as int]));
    }
    let app = assets.apps[focused];
    let px: i32 = assets.icon_l_px;
    let cx: i32 = icon_center_x(233, px);
    let s: i32 = assets.glow_ring_px / 2;
    let fb = wfb.buf_mut();
    raster::fill_rect_black(fb, cx - s, 233 - s, cx + s - 1, 233 + s - 1);
    sprite::blit_lut_sprite(fb, assets.glow_ring, assets.glow_ring_px, &saber, cx, 233, 256);
    sprite::blit_icon(fb, app.icon_l, px, cx, 233, 256);
    wfb.mark_rect(cx - s, 233 - s, cx + s, 233 + s);
}

/// Redraw the status line in place, on a cleared band.
pub fn tick_status(wfb: &mut WatchFb, now: &WallTime, battery: Option<u8>, text: &[Option<Glyph>; 128])
    requires
        old(wfb).wf(),
        font::font_ok(text@),
    ensures
        final(wfb).wf(),
        final(wfb).w() == old(wfb).w(),
        final(wfb).h() == old(wfb).h(),
        final(wfb).canvas() == status_on(
            raster::shade(old(wfb).canvas(), 123, 26, 343, 66, raster::black()),
            text@,
            status_codes(now.hour, now.minute, battery),
        ),
        final(wfb).damage() == watch_fb::marked(
            old(wfb).damage(),
            old(wfb).w(),
            old(wfb).h(),
            123,
            26,
            343,
            66,
        ),
{
    let fb = wfb.buf_mut();
    raster::fill_rect_black(fb, 123, 26, 342, 65);
    draw_status(fb, now, battery, text);
    wfb.mark_rect(123, 26, 343, 66);
}

/// One unfocused row of the open/close morph: faded and moved up to 12 px away from the centre.
pub open spec fn morph_row_on(f: Frame, a: WheelAssets, app: WheelApp, y_c: int, f_q8: int) -> Frame {
    let away: int = if y_c >= 233 { 12 } else { -12 };
    let y = y_c + away * f_q8 / 256;
    let alpha = row_fade(y_c) * (256 - f_q8) / 256;
    if y_c < -68 || y_c > 534 || row_fade(y_c) == 0 || alpha < 8 {
        f
    } else {
        let ps = a.icon_s_px as int;
        let cx = icon_x(y, ps);
        let s = ps / 2 + 1;
        let name = font::codes_of(app.name@);
        let tw = font::width_of(a.text@, name);
        let x = imath::smax(233 - tw / 2, cx + ps / 2 + 10);
        Frame {
            fb: sprite::text_on(
                sprite::icon_on(f.fb, app.icon_s@, ps, cx, y, alpha),
                a.text@,
                name,
                x,
                y + 11,
                alpha,
            ),
            rects: pushed(
                pushed(f.rects, cx - s, y - s, cx + s, y + s),
                x - 1,
                y - 36,
                x + tw + 1,
                y + 36,
            ),
        }
    }
}

/// The frame after the first `n` rows, the focused one left out.
pub open spec fn morph_rows(f: Frame, a: WheelAssets, s_px: int, focused: int, f_q8: int, n: int) -> Frame
    decreases n,
{
    if n <= 0 {
        f
    } else {
        let prev = morph_rows(f, a, s_px, focused, f_q8, n - 1);
        if n - 1 == focused {
            prev
        } else {
            morph_row_on(prev, a, a.apps@[n - 1], 233 + (n - 1) * 68 - s_px, f_q8)
        }
    }
}

/// The focused row of the morph: its glow dissolves early, its label fades fast and its
/// icon flies to the splash slot.
pub open spec fn morph_focus_on(f: Frame, a: WheelAssets, app: WheelApp, y_c: int, f_q8: int, icon_a: int) -> Frame {
    let pl = a.icon_l_px as int;
    let from = icon_x(y_c, pl);
    let ga = imath::sclamp(256 - f_q8 * 5 / 2, 0, 256);
    let f1 = if ga > 8 { glow_on(f, a, saber_table(0), from, y_c, ga) } else { f };
    let la = imath::sclamp(256 - f_q8 * 2, 0, 256);
    let name = font::codes_of(app.name@);
    let tw = font::width_of(a.labelf@, name);
    let x = imath::smax(233 - tw / 2, from + pl / 2 + 10);
    let f2 = if la > 8 {
        Frame {
            fb: sprite::text_on(f1.fb, a.labelf@, name, x, y_c + 11, la),
            rects: pushed(f1.rects, x - 1, y_c - 36, x + tw + 1, y_c + 36),
        }
    } else {
        f1
    };
    let ia = imath::sclamp(icon_a, 0, 256);
    if ia > 8 {
        let side = pl + (128 - pl) * f_q8 / 256;
        let ix = from + (233 - from) * f_q8 / 256;
        let iy = y_c + (210 - y_c) * f_q8 / 256;
        let s = side / 2 + 1;
        Frame {
            fb: sprite::scaled_icon_on(f2.fb, app.icon_x@, a.icon_x_px as int, side, ix, iy, ia, false),
            rects: pushed(f2.rects, ix - s, iy - s, ix + s, iy + s),
        }
    } else {
        f2
    }
}

fn draw_morph_row(fb: &mut [u8], fx: &mut WheelFx, assets: &WheelAssets, app: &WheelApp, y_c: i32, f_q8: i32)
    requires
        old(fx).wf(),
        assets_ok(*assets),
        app_ok(*assets, *app),
        0 <= f_q8 <= 256,
    ensures
        final(fx).wf(),
        final(fx).is_seeded() == old(fx).is_seeded(),
        final(fx).intro_frame() == old(fx).intro_frame(),
        (Frame { fb: final(fb)@, rects: final(fx).content() }) == morph_row_on(
            (Frame { fb: old(fb)@, rects: old(fx).content() }),
            *assets,
            *app,
            y_c as int,
            f_q8 as int,
        ),
{
    if y_c < -PITCH_PX || y_c > 466 + PITCH_PX {
        return;
    }
    let (fade, _t) = row_alpha(y_c);
    if fade == 0 {
        return;
    }
    let away: i32 = if y_c >= 233 { 12 } else { -12 };
    proof {
        assert(-12 * 256 <= away * f_q8 <= 12 * 256) by (nonlinear_arith)
            requires -12 <= away <= 12, 0 <= f_q8 <= 256;
    }
    let y: i32 = y_c + imath::asr(away * f_q8, 8);
    proof {
        assert(0 <= fade * (256 - f_q8) <= 256 * 256) by (nonlinear_arith)
            requires 0 <= fade <= 256, 0 <= f_q8 <= 256;
    }
    let alpha: i32 = imath::asr(fade * (256 - f_q8), 8);
    if alpha < 8 {
        return;
    }
    let ps: i32 = assets.icon_s_px;
    let cx: i32 = icon_center_x(y, ps);
    sprite::blit_icon(fb, app.icon_s, ps, cx, y, alpha);
    let s: i32 = ps / 2 + 1;
    fx.push(cx - s, y - s, cx + s, y + s);
    let codes = font::codes(app.name);
    let tw: i32 = font::codes_width(codes.as_slice(), assets.text);
    let x: i32 = imath::imax(233 - tw / 2, cx + ps / 2 + 10);
    sprite::draw_codes_at(fb, codes.as_slice(), x, y + 11, alpha, assets.text);
    fx.push(x - 1, y - 36, x + tw + 1, y + 36);
}

/// `f_q8` 256ths of the way from `from` by `d`.
fn glide(from: i32, d: i32, f_q8: i32) -> (r: i32)
    requires
        -0x100_0000 <= from <= 0x100_0000,
        -0x61_0000 <= d <= 0x61_0000,
        0 <= f_q8 <= 256,
    ensures
        r == from + d * f_q8 / 256,
        d >= 0 ==> from <= r <= from + d,
        d <= 0 ==> from + d <= r <= from,
{
    proof {
        assert(d >= 0 ==> 0 <= d * f_q8 <= d * 256) by (nonlinear_arith)
            requires 0 <= f_q8 <= 256;
        assert(d <= 0 ==> d * 256 <= d * f_q8 <= 0) by (nonlinear_arith)
            requires 0 <= f_q8 <= 256;
        assert(imath::p2(8) == 256);
    }
    from + imath::asr(d * f_q8, 8)
}

fn draw_morph_focus(fb: &mut [u8], fx: &mut WheelFx, assets: &WheelAssets, app: &WheelApp, y_c: i32, f_q8: i32, icon_a: i32)
    requires
        old(fx).wf(),
        assets_ok(*assets),
        app_ok(*assets, *app),
        -0x60_0000 <= y_c <= 0x60_0000,
        0 <= f_q8 <= 256,
    ensures
        final(fx).wf(),
        final(fx).is_seeded() == old(fx).is_seeded(),
        final(fx).intro_frame() == old(fx).intro_frame(),
        (Frame { fb: final(fb)@, rects: final(fx).content() }) == morph_focus_on(
            (Frame { fb: old(fb)@, rects: old(fx).content() }),
            *assets,
            *app,
            y_c as int,
            f_q8 as int,
            icon_a as int,
        ),
{
    let pl: i32 = assets.icon_l_px;
    let from: i32 = icon_center_x(y_c, pl);
    let ga: i32 = imath::iclamp(256 - f_q8 * 5 / 2, 0, 256);
    if ga > 8 {
        let lut = saber_lut(0);
        draw_glow(fb, fx, assets, &lut, from, y_c, ga);
    }
    let la: i32 = imath::iclamp(256 - f_q8 * 2, 0, 256);
    if la > 8 {
        let codes = font::codes(app.name);
        let tw: i32 = font::codes_width(codes.as_slice(), assets.labelf);
        let x: i32 = imath::imax(233 - tw / 2, from + pl / 2 + 10);
        sprite::draw_codes_at(fb, codes.as_slice(), x, y_c + 11, la, assets.labelf);
        fx.push(x - 1, y_c - 36, x + tw + 1, y_c + 36);
    }
    let ia: i32 = imath::iclamp(icon_a, 0, 256);
    if ia > 8 {
        let ds: i32 = SPLASH_PX - pl;
        let dx: i32 = 233 - from;
        let dy: i32 = SPLASH_ICON_Y - y_c;
        let side: i32 = glide(pl, ds, f_q8);
        let ix: i32 = glide(from, dx, f_q8);
        let iy: i32 = glide(y_c, dy, f_q8);
        sprite::blit_icon_scaled(fb, app.icon_x, assets.icon_x_px, side, ix, iy, ia, false);
        let s: i32 = side / 2 + 1;
        fx.push(ix - s, iy - s, ix + s, iy + s);
    }
}

/// A whole frame of the open/close morph on top of the cleared canvas.
pub open spec fn morph_frame(
    f: Frame,
    a: WheelAssets,
    status: Seq<u8>,
    s_px: int,
    focused: int,
    f_q8: int,
    icon_a: int,
    show_status: bool,
) -> Frame {
    let f1 = morph_rows(f, a, s_px, focused, f_q8, a.apps@.len() as int);
    let f2 = morph_focus_on(f1, a, a.apps@[focused], 233 + focused * 68 - s_px, f_q8, icon_a);
    if show_status { status_frame(f2, a.text@, status) } else { f2 }
}

/// Wheel side of the open/close morph: `f_q8` (0..=256) is the flight of the focused icon,
/// `icon_a` the alpha of the splash logo.
pub fn draw_open_morph(
    wfb: &mut WatchFb,
    assets: &WheelAssets,
    now: &WallTime,
    battery: Option<u8>,
    s_q8: i32,
    fx: &mut WheelFx,
    focused: usize,
    f_q8: i32,
    icon_a: i32,
    show_status: bool,
)
    requires
        old(wfb).wf(),
        old(fx).wf(),
        assets_ok(*assets),
        focused < assets.apps@.len(),
        -0x4000_0000 <= s_q8 <= 0x4000_0000,
        0 <= f_q8 <= 256,
    ensures
        ({
            let f = morph_frame(
                (Frame {
                    fb: frame_start(old(wfb).canvas(), old(fx).content(), old(fx).is_seeded()),
                    rects: Seq::<Rect>::empty(),
                }),
                *assets,
                status_codes(now.hour, now.minute, battery),
                s_q8 as int / 256,
                focused as int,
                f_q8 as int,
                icon_a as int,
                show_status,
            );
            &&& final(wfb).canvas() == f.fb
            &&& final(fx).content() == f.rects
            &&& final(wfb).damage() == frame_damage(
                old(wfb).damage(),
                old(wfb).w(),
                old(wfb).h(),
                old(fx).content(),
                old(fx).is_seeded(),
                f.rects,
            )
        }),
        final(fx).wf(),
        final(fx).is_seeded(),
        final(fx).intro_frame() is None,
        final(wfb).wf(),
        final(wfb).w() == old(wfb).w(),
        final(wfb).h() == old(wfb).h(),
{
    fx.intro = None;
    let s_px: i32 = imath::asr(s_q8, 8);
    let seed = !fx.seeded;
    let ghost before = old(fx).content();
    assert(fx.content() == before);
    let fb = wfb.buf_mut();
    let d = begin_frame(fb, fx);
    let ghost f0 = Frame { fb: fb@, rects: fx.content() };
    let mut i: usize = 0;
    while i < assets.apps.len()
        invariant
            i <= assets.apps@.len(),
            assets_ok(*assets),
            focused < assets.apps@.len(),
            -0x40_0000 <= s_px <= 0x40_0000,
            0 <= f_q8 <= 256,
            fx.wf(),
            fx.is_seeded(),
            fx.intro_frame() is None,
            (Frame { fb: fb@, rects: fx.content() }) == morph_rows(
                f0,
                *assets,
                s_px as int,
                focused as int,
                f_q8 as int,
                i as int,
            ),
        decreases assets.apps@.len() - i,
    {
        if i != focused {
            proof {
                assert(app_ok(*assets, assets.apps@[i as int]));
            }
            let app = assets.apps[i];
            draw_morph_row(fb, fx, assets, &app, 233 + i as i32 * PITCH_PX - s_px, f_q8);
        }
        i = i + 1;
    }
    proof {
        assert(app_ok(*assets, assets.apps@[focused as int]));
    }
    let app = assets.apps[focused];
    draw_morph_focus(fb, fx, assets, &app, 233 + focused as i32 * PITCH_PX - s_px, f_q8, icon_a);
    if show_status {
        draw_status(fb, now, battery, assets.text);
        fx.push(233 - 110, 26, 233 + 110, 66);
    }
    end_frame(wfb, fx, d, seed, Ghost(before));
}

/// A frame after the canvas was given up starts afresh: whatever the canvas and the tracked
/// rectangles held before, the same frame comes out, and the whole panel is flushed.
pub proof fn lemma_seed_frame(
    a: Seq<u8>,
    b: Seq<u8>,
    ra: Seq<Rect>,
    rb: Seq<Rect>,
    assets: WheelAssets,
    status: Seq<u8>,
    s_q8: int,
    intro: Option<u32>,
    fast: bool,
    reveal: Option<i32>,
    pill: Option<usize>,
    d: dmi::Damage,
    x: int,
    y: int,
)
    requires
        a.len() == b.len(),
        dmi::damage_ok(d),
        0 <= x < 466,
        0 <= y < 466,
    ensures
        ({
            let none = Seq::<Rect>::empty();
            let fa = Frame { fb: frame_start(a, ra, false), rects: none };
            let fb = Frame { fb: frame_start(b, rb, false), rects: none };
            let na = scroll_frame(fa, assets, status, s_q8, intro, fast, reveal, pill);
            let nb = scroll_frame(fb, assets, status, s_q8, intro, fast, reveal, pill);
            &&& na == nb
            &&& dmi::covers(frame_damage(d, 466, 466, ra, false, na.rects), x, y)
        }),
{
    assert(frame_start(a, ra, false) =~= frame_start(b, rb, false));
    watch_fb::lemma_marked_covers(d, 466, 466, 0, 0, 465, 465, x, y);
}

} // verus!
