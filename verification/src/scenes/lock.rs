//! The lock scene: digital time and date on black inside the animated bezel ring. It
//! renders into the retained canvas: incremental ring deltas, text only when it changes.
use vstd::prelude::*;

use crate::display::dmi;
use crate::display::watch_fb;
use crate::display::watch_fb::{RectAcc, WatchFb};
use crate::font;
use crate::imath;
use crate::pixel;
use crate::raster;
use crate::scenes::arc;
use crate::scenes::flourish;
use crate::scenes::lock_damage;
use crate::scenes::ring;
use crate::scenes::ring::RingTables;
use crate::time::WallTime;

pub use crate::font::{get_glyph, Glyph};
pub use crate::scenes::ring::{BEZEL_R, PAD};

verus! {

/// Full brightness in Q14.
pub const Q: i32 = 16_384;
/// Length of the startup fade of the text.
pub const FADE_MS: u32 = 2_400;
/// Frames that blend the two ends of the closed ring into a solid seam, and back.
pub const HEAL_FRAMES: u32 = 10;
/// The text cache holds nothing.
pub const NO_FLOURISH: u32 = 0xffff_ffff;

/// Build-time ease curves of the ring sweeps, as drawn lengths per frame out of `total`.
#[derive(Clone, Copy)]
pub struct BezelSchedules<'a> {
    pub initial: &'a [u32],
    pub undraw: &'a [u32],
    pub redraw: &'a [u32],
    pub total: u32,
}

/// Fonts and curves of the lock scene.
#[derive(Clone, Copy)]
pub struct LockAssets<'a> {
    pub time: &'a [Option<Glyph>; 128],
    pub text: &'a [Option<Glyph>; 128],
    pub sched: BezelSchedules<'a>,
}

/// A curve has frames and stays within the total.
pub open spec fn schedule_ok(s: Seq<u32>, total: int) -> bool {
    s.len() >= 1 && forall|i: int| 0 <= i < s.len() ==> #[trigger] s[i] <= total
}

pub open spec fn lock_assets_ok(a: LockAssets) -> bool {
    &&& font::font_ok(a.time@)
    &&& font::font_ok(a.text@)
    &&& a.sched.total >= 1
    &&& schedule_ok(a.sched.initial@, a.sched.total as int)
    &&& schedule_ok(a.sched.undraw@, a.sched.total as int)
    &&& schedule_ok(a.sched.redraw@, a.sched.total as int)
}

/// Phase of the ring animation.
#[derive(Clone, Copy, Debug, PartialEq, Eq, Structural)]
pub enum BezelPhase {
    /// Startup sweep from nothing to the full ring.
    Initial,
    /// The ring just closed: its two faded ends blend into a seam.
    Heal,
    /// Minute change: the seam parts into two faded ends.
    Unheal,
    /// Full ring to nothing.
    Undraw,
    /// Nothing to full ring.
    Redraw,
    /// Complete; nothing is written.
    Static,
}

/// Cached text: hour, minute, fade, year, month, day.
pub type TextKey = (u8, u8, i32, u16, u8, u8);

/// An inclusive box.
pub type Box4 = (i32, i32, i32, i32);

pub struct Clock {
    pub last_minute: u8,
    /// Minute changes run the sweep only when set.
    pub minute_anim: bool,
    pub phase: BezelPhase,
    pub frame_in_phase: u32,
    pub ring: RingTables,
    /// Frame of the flourish; all ones when inactive.
    pub flourish_frame: u32,
    pub bezel_anim_len: u32,
    pub bezel_full_len: u32,
    /// Taps currently drawn.
    pub drawn_centers: usize,
    pub last_text: TextKey,
    pub last_text_bbox: Box4,
    /// The formatted date line.
    pub date: Vec<u8>,
    pub last_bezel_writes: u32,
    pub last_bezel_center_delta: u32,
    pub last_bezel_centers: u32,
}

/// "HH:MM".
pub open spec fn time_codes(h: u8, m: u8) -> Seq<u8> {
    seq![
        (48 + h / 10) as u8,
        (48 + h % 10) as u8,
        58u8,
        (48 + m / 10) as u8,
        (48 + m % 10) as u8,
    ]
}

pub fn time_str(h: u8, m: u8) -> (s: Vec<u8>)
    ensures
        s@ == time_codes(h, m),
{
    let mut s: Vec<u8> = Vec::new();
    s.push(48 + h / 10);
    s.push(48 + h % 10);
    s.push(58);
    s.push(48 + m / 10);
    s.push(48 + m % 10);
    assert(s@ =~= time_codes(h, m));
    s
}

/// Name of a month; out-of-range months read as the nearest.
pub open spec fn month_name(month: int) -> Seq<char> {
    if month <= 1 {
        "January"@
    } else if month == 2 {
        "February"@
    } else if month == 3 {
        "March"@
    } else if month == 4 {
        "April"@
    } else if month == 5 {
        "May"@
    } else if month == 6 {
        "June"@
    } else if month == 7 {
        "July"@
    } else if month == 8 {
        "August"@
    } else if month == 9 {
        "September"@
    } else if month == 10 {
        "October"@
    } else if month == 11 {
        "November"@
    } else {
        "December"@
    }
}

pub fn month_str(month: u8) -> (r: &'static str)
    ensures
        r@ == month_name(month as int),
        r@.len() <= 9,
{
    proof {
        reveal_strlit("January");
        reveal_strlit("February");
        reveal_strlit("March");
        reveal_strlit("April");
        reveal_strlit("May");
        reveal_strlit("June");
        reveal_strlit("July");
        reveal_strlit("August");
        reveal_strlit("September");
        reveal_strlit("October");
        reveal_strlit("November");
        reveal_strlit("December");
    }
    if month <= 1 {
        "January"
    } else if month == 2 {
        "February"
    } else if month == 3 {
        "March"
    } else if month == 4 {
        "April"
    } else if month == 5 {
        "May"
    } else if month == 6 {
        "June"
    } else if month == 7 {
        "July"
    } else if month == 8 {
        "August"
    } else if month == 9 {
        "September"
    } else if month == 10 {
        "October"
    } else if month == 11 {
        "November"
    } else {
        "December"
    }
}

/// English ordinal suffix of a day.
pub open spec fn ordinal(day: u8) -> Seq<u8> {
    if 11 <= day <= 13 {
        seq![116u8, 104u8]
    } else if day % 10 == 1 {
        seq![115u8, 116u8]
    } else if day % 10 == 2 {
        seq![110u8, 100u8]
    } else if day % 10 == 3 {
        seq![114u8, 100u8]
    } else {
        seq![116u8, 104u8]
    }
}

/// The date line, such as "July 7th 2026".
pub open spec fn date_codes(now: WallTime) -> Seq<u8> {
    let day = if now.day >= 10 {
        seq![(48 + now.day / 10) as u8, (48 + now.day % 10) as u8]
    } else {
        seq![(48 + now.day % 10) as u8]
    };
    let y = now.year;
    font::codes_of(month_name(now.month as int)) + seq![32u8] + day + ordinal(now.day) + seq![
        32u8,
        (48 + y / 1000 % 10) as u8,
        (48 + y / 100 % 10) as u8,
        (48 + y / 10 % 10) as u8,
        (48 + y % 10) as u8,
    ]
}

/// Format the date line.
pub fn format_date(now: &WallTime) -> (s: Vec<u8>)
    ensures
        s@ == date_codes(*now),
        s@.len() <= 24,
{
    let mut s: Vec<u8> = font::codes(month_str(now.month));
    s.push(32);
    if now.day >= 10 {
        s.push(48 + now.day / 10);
    }
    s.push(48 + now.day % 10);
    let (a, b): (u8, u8) = if now.day >= 11 && now.day <= 13 {
        (116, 104)
    } else if now.day % 10 == 1 {
        (115, 116)
    } else if now.day % 10 == 2 {
        (110, 100)
    } else if now.day % 10 == 3 {
        (114, 100)
    } else {
        (116, 104)
    };
    s.push(a);
    s.push(b);
    s.push(32);
    let y: u16 = now.year;
    s.push(48 + (y / 1000 % 10) as u8);
    s.push(48 + (y / 100 % 10) as u8);
    s.push(48 + (y / 10 % 10) as u8);
    s.push(48 + (y % 10) as u8);
    assert(s@ =~= date_codes(*now));
    s
}

/// Colour of a text pixel at coverage `a` (0..=15) and fade `fade` (Q14).
pub open spec fn text_color(a: int, fade: int) -> (u8, u8) {
    pixel::rgb888(
        240 * fade * (a * 17) / 4_194_304,
        240 * fade * (a * 17) / 4_194_304,
        245 * fade * (a * 17) / 4_194_304,
    )
}

/// Atlas glyph at its native size, written over what is there.
pub open spec fn face_glyph_shader(g: Glyph, ox: int, oy: int, fade: int) -> raster::Shader {
    |x: int, y: int, p: (u8, u8)|
        {
            let a = font::nibble(g, x - ox, y - oy);
            if a == 0 { p } else { text_color(a, fade) }
        }
}

pub open spec fn face_glyph_on(fb: Seq<u8>, g: Glyph, ox: int, oy: int, fade: int, clip: int) -> Seq<u8> {
    raster::shade(
        fb,
        ox,
        oy,
        ox + g.width,
        imath::smin(oy + g.height, clip),
        face_glyph_shader(g, ox, oy, fade),
    )
}

/// The canvas after the first `n` characters of a line at `left` on baseline `base`, rows
/// from `clip` on left out.
pub open spec fn face_line_on(
    fb: Seq<u8>,
    font: Seq<Option<Glyph>>,
    s: Seq<u8>,
    n: int,
    left: int,
    base: int,
    fade: int,
    clip: int,
) -> Seq<u8>
    decreases n,
{
    if n <= 0 {
        fb
    } else {
        let prev = face_line_on(fb, font, s, n - 1, left, base, fade, clip);
        match font::glyph_of(font, s[n - 1]) {
            Some(g) => face_glyph_on(
                prev,
                g,
                left + font::pen(font, s, n - 1),
                base - (g.height + g.ymin),
                fade,
                clip,
            ),
            None => prev,
        }
    }
}

/// The canvas after a line centred on the panel, moved right by `dx`.
pub open spec fn face_text_on(
    fb: Seq<u8>,
    font: Seq<Option<Glyph>>,
    s: Seq<u8>,
    base: int,
    dx: int,
    fade: int,
    clip: int,
) -> Seq<u8> {
    face_line_on(
        fb,
        font,
        s,
        s.len() as int,
        233 - font::width_of(font, s) / 2 + dx,
        base,
        fade,
        clip,
    )
}

fn draw_face_glyph(fb: &mut [u8], ox: i32, oy: i32, g: &Glyph, fade: i32, clip_y: i32)
    requires
        font::glyph_ok(*g),
        -0x100_0000 <= ox <= 0x100_0000,
        -0x100_0000 <= oy <= 0x100_0000,
        0 <= fade <= 16_384,
    ensures
        final(fb)@ == face_glyph_on(old(fb)@, *g, ox as int, oy as int, fade as int, clip_y as int),
        final(fb)@.len() == old(fb)@.len(),
{
    let w: i32 = g.width as i32;
    let h: i32 = g.height as i32;
    let ghost sh = face_glyph_shader(*g, ox as int, oy as int, fade as int);
    let f = |x: i32, y: i32, p: (u8, u8)| -> (q: (u8, u8))
        requires
            ox <= x < ox + w,
            oy <= y < oy + h,
        ensures
            q == sh(x as int, y as int, p),
        {
            let a: i32 = font::coverage(g, x - ox, y - oy);
            if a == 0 {
                p
            } else {
                text_pixel(a, fade)
            }
        };
    raster::paint(fb, ox, oy, ox + w, imath::imin(oy + h, clip_y), f, Ghost(sh));
}

fn text_pixel(a: i32, fade: i32) -> (r: (u8, u8))
    requires
        0 <= a <= 15,
        0 <= fade <= 16_384,
    ensures
        r == text_color(a as int, fade as int),
{
    proof {
        let (x, y) = (fade as int, a * 17);
        assert(0 <= x * y <= 16_384 * 255) by (nonlinear_arith)
            requires 0 <= x <= 16_384, 0 <= y <= 255;
        assert(240 * x * y == 240 * (x * y)) by (nonlinear_arith);
        assert(245 * x * y == 245 * (x * y)) by (nonlinear_arith);
    }
    let k: i64 = fade as i64 * (a as i64 * 17);
    let c: i32 = (240 * k / 4_194_304) as i32;
    let b: i32 = (245 * k / 4_194_304) as i32;
    pixel::pack888(c, c, b)
}

/// Draw a line centred on the panel, clipped to rows above `clip_y`.
fn draw_text_centered_clipped(
    fb: &mut [u8],
    s: &[u8],
    base_y: i32,
    x_shift: i32,
    fade: i32,
    glyphs: &[Option<Glyph>; 128],
    clip_y: i32,
)
    requires
        font::font_ok(glyphs@),
        s@.len() <= 64,
        -0x10_0000 <= base_y <= 0x10_0000,
        -0x10_0000 <= x_shift <= 0x10_0000,
        0 <= fade <= 16_384,
    ensures
        final(fb)@ == face_text_on(
            old(fb)@,
            glyphs@,
            s@,
            base_y as int,
            x_shift as int,
            fade as int,
            clip_y as int,
        ),
        final(fb)@.len() == old(fb)@.len(),
{
    let w: i32 = font::codes_width(s, glyphs);
    let left: i32 = 233 - w / 2 + x_shift;
    let mut x: i32 = left;
    let mut i: usize = 0;
    while i < s.len()
        invariant
            font::font_ok(glyphs@),
            i <= s@.len() <= 64,
            -0x10_0000 <= base_y <= 0x10_0000,
            -0x18_0000 <= left <= 0x18_0000,
            0 <= fade <= 16_384,
            x == left + font::pen(glyphs@, s@, i as int),
            left <= x <= left + 255 * i,
            fb@ == face_line_on(
                old(fb)@,
                glyphs@,
                s@,
                i as int,
                left as int,
                base_y as int,
                fade as int,
                clip_y as int,
            ),
            fb@.len() == old(fb)@.len(),
        decreases s@.len() - i,
    {
        if let Some(g) = font::get_glyph(glyphs, s[i]) {
            let gy: i32 = base_y - (g.height as i32 + g.ymin as i32);
            draw_face_glyph(fb, x, gy, &g, fade, clip_y);
            x = x + g.advance as i32;
        }
        i = i + 1;
    }
}

/// Box grown by the first `n` glyphs of a centred line with a margin of two pixels.
pub open spec fn line_box(b: (int, int, int, int), font: Seq<Option<Glyph>>, s: Seq<u8>, n: int, base: int) -> (
    int,
    int,
    int,
    int,
)
    decreases n,
{
    if n <= 0 {
        b
    } else {
        let p = line_box(b, font, s, n - 1, base);
        match font::glyph_of(font, s[n - 1]) {
            Some(g) => {
                let x = 233 - font::width_of(font, s) / 2 + font::pen(font, s, n - 1);
                let y = base - (g.height + g.ymin);
                (
                    imath::smin(p.0, x - 2),
                    imath::smin(p.1, y - 2),
                    imath::smax(p.2, x + g.width + 2),
                    imath::smax(p.3, y + g.height + 2),
                )
            },
            None => p,
        }
    }
}

/// Box of the time and date, moved down by `dy` and held to the panel.
pub open spec fn face_box(a: LockAssets, date: Seq<u8>, dy: int) -> (int, int, int, int) {
    let zeros = seq![48u8, 48u8, 58u8, 48u8, 48u8];
    let b = line_box(
        line_box((466, 466, 0, 0), a.time@, zeros, 5, 238 + dy),
        a.text@,
        date,
        date.len() as int,
        303 + dy,
    );
    if b.0 > b.2 {
        (0, 0, 465, 465)
    } else {
        (imath::smax(b.0, 0), imath::smax(b.1, 0), imath::smin(b.2, 465), imath::smin(b.3, 465))
    }
}

pub open spec fn box_is(b: Box4, s: (int, int, int, int)) -> bool {
    b.0 == s.0 && b.1 == s.1 && b.2 == s.2 && b.3 == s.3
}

fn absorb_line(b: Box4, s: &[u8], base_y: i32, glyphs: &[Option<Glyph>; 128], Ghost(g0): Ghost<(int, int, int, int)>) -> (r: Box4)
    requires
        s@.len() <= 64,
        -0x10_0000 <= base_y <= 0x10_0000,
        box_is(b, g0),
    ensures
        box_is(r, line_box(g0, glyphs@, s@, s@.len() as int, base_y as int)),
        r.0 <= b.0 && r.1 <= b.1 && r.2 >= b.2 && r.3 >= b.3,
{
    let w: i32 = font::codes_width(s, glyphs);
    let left: i32 = 233 - w / 2;
    let mut r = b;
    let mut x: i32 = left;
    let mut i: usize = 0;
    while i < s.len()
        invariant
            i <= s@.len() <= 64,
            -0x10_0000 <= base_y <= 0x10_0000,
            left == 233 - font::width_of(glyphs@, s@) / 2,
            -20_000 <= left <= 233,
            x == left + font::pen(glyphs@, s@, i as int),
            left <= x <= left + 255 * i,
            box_is(r, line_box(g0, glyphs@, s@, i as int, base_y as int)),
            r.0 <= b.0 && r.1 <= b.1 && r.2 >= b.2 && r.3 >= b.3,
        decreases s@.len() - i,
    {
        if let Some(g) = font::get_glyph(glyphs, s[i]) {
            let gy: i32 = base_y - (g.height as i32 + g.ymin as i32);
            r = (
                imath::imin(r.0, x - 2),
                imath::imin(r.1, gy - 2),
                imath::imax(r.2, x + g.width as i32 + 2),
                imath::imax(r.3, gy + g.height as i32 + 2),
            );
            x = x + g.advance as i32;
        }
        i = i + 1;
    }
    r
}

fn text_bbox_at(a: &LockAssets, date: &[u8], y_shift: i32) -> (r: Box4)
    requires
        date@.len() <= 64,
        -0x8_0000 <= y_shift <= 0x8_0000,
    ensures
        box_is(r, face_box(*a, date@, y_shift as int)),
        0 <= r.0 <= 466 && 0 <= r.1 <= 466 && 0 <= r.2 <= 465 && 0 <= r.3 <= 465,
{
    let zeros: [u8; 5] = [48, 48, 58, 48, 48];
    assert(zeros@ =~= seq![48u8, 48u8, 58u8, 48u8, 48u8]);
    let b1 = absorb_line((466, 466, 0, 0), zeros.as_slice(), 238 + y_shift, a.time, Ghost((466, 466, 0, 0)));
    let b2 = absorb_line(
        b1,
        date,
        303 + y_shift,
        a.text,
        Ghost(line_box((466, 466, 0, 0), a.time@, zeros@, 5, 238 + y_shift)),
    );
    if b2.0 > b2.2 {
        return (0, 0, 465, 465);
    }
    (imath::imax(b2.0, 0), imath::imax(b2.1, 0), imath::imin(b2.2, 465), imath::imin(b2.3, 465))
}

/// A schedule count mapped onto a tap list of `len` entries.
pub open spec fn scaled_count(count: int, len: int, total: int) -> int {
    if len == total { count } else { count * len / total }
}

/// Scaling keeps the order, the start and the end.
pub proof fn lemma_scaled_count(a: int, b: int, len: int, total: int)
    requires
        0 <= a <= b <= total,
        total >= 1,
        len >= 0,
    ensures
        0 <= scaled_count(a, len, total) <= scaled_count(b, len, total) <= len,
        scaled_count(0, len, total) == 0,
        scaled_count(total, len, total) == len,
{
    assert(0 <= a * len <= b * len && b * len <= total * len) by (nonlinear_arith)
        requires 0 <= a <= b <= total, len >= 0;
    assert(0 <= a * len / total && a * len / total <= b * len / total && b * len / total <= len) by (nonlinear_arith)
        requires 0 <= a * len <= b * len, b * len <= total * len, total >= 1;
    assert(0 * len == 0);
    assert(0int / total == 0) by (nonlinear_arith)
        requires total >= 1;
    assert(total * len / total == len) by (nonlinear_arith)
        requires total >= 1;
}

fn scale_sched(count: u32, len: usize, total: u32) -> (r: usize)
    requires
        count <= total,
        total >= 1,
        len <= 396_000,
    ensures
        r == scaled_count(count as int, len as int, total as int),
        r <= len,
{
    proof {
        lemma_scaled_count(count as int, total as int, len as int, total as int);
        assert(0 <= count * len <= 0xffff_ffff * 396_000) by (nonlinear_arith)
            requires 0 <= count <= 0xffff_ffff, 0 <= len <= 396_000;
    }
    if len as u32 == total {
        count as usize
    } else {
        ((count as u64 * len as u64) / total as u64) as usize
    }
}

/// Where the ring animation is.
pub struct RingState {
    pub phase: BezelPhase,
    pub frame: int,
    pub drawn: int,
}

/// The curve of a sweep.
pub open spec fn curve(a: LockAssets, phase: BezelPhase) -> Seq<u32> {
    match phase {
        BezelPhase::Initial => a.sched.initial@,
        BezelPhase::Undraw => a.sched.undraw@,
        _ => a.sched.redraw@,
    }
}

/// Taps drawn in frame `frame` of a sweep.
pub open spec fn sweep_target(a: LockAssets, phase: BezelPhase, frame: int, len: int) -> int {
    let c = curve(a, phase);
    scaled_count(c[imath::smin(frame, c.len() - 1)] as int, len, a.sched.total as int)
}

/// The phase after a sweep: closing sweeps heal, the opening sweep is followed by the closing one.
pub open spec fn after_sweep(phase: BezelPhase) -> BezelPhase {
    if phase is Undraw { BezelPhase::Redraw } else { BezelPhase::Heal }
}

/// One frame of the ring animation: state and ink. A sweep ends when its curve is consumed
/// and the ring has reached the curve's end, never by time.
pub open spec fn ring_step(a: LockAssets, t: RingTables, s: RingState, k: arc::Ink) -> (RingState, arc::Ink) {
    let offs = t.anim@;
    let len = offs.len() as int;
    match s.phase {
        BezelPhase::Static => (s, k),
        BezelPhase::Heal => {
            let d = arc::ends_drawn(k, offs, s.frame + 1, 10);
            if s.frame + 1 >= 10 {
                (
                    RingState { phase: BezelPhase::Static, frame: s.frame + 1, ..s },
                    arc::ink(
                        arc::ring_on(d.fb, 256),
                        arc::ring_acc(d.acc),
                        d.writes + t.full@.len(),
                    ),
                )
            } else {
                (RingState { frame: s.frame + 1, ..s }, d)
            }
        },
        BezelPhase::Unheal => {
            let d = arc::ends_drawn(k, offs, 9 - s.frame, 10);
            if s.frame + 1 >= 10 {
                (RingState { phase: BezelPhase::Undraw, frame: 0, ..s }, d)
            } else {
                (RingState { frame: s.frame + 1, ..s }, d)
            }
        },
        _ => {
            let c = curve(a, s.phase);
            let target = sweep_target(a, s.phase, s.frame, len);
            let d = arc::arc_moved(k, offs, s.drawn, target);
            let next = imath::smin(s.frame + 1, 0xffff_ffff);
            if next >= c.len() && target == sweep_target(a, s.phase, c.len() - 1, len) {
                (RingState { phase: after_sweep(s.phase), frame: 0, drawn: target }, d)
            } else {
                (RingState { frame: next, drawn: target, ..s }, d)
            }
        },
    }
}

/// A sweep takes exactly as many frames as its curve has, healing and parting ten each.
pub proof fn lemma_phase_lengths(a: LockAssets, t: RingTables, s: RingState, k: arc::Ink)
    requires
        lock_assets_ok(a),
        0 <= s.frame,
        s.phase is Heal || s.phase is Unheal ==> s.frame < 10,
        s.phase is Initial || s.phase is Undraw || s.phase is Redraw ==> s.frame < curve(a, s.phase).len()
            <= 0xffff_ffff,
    ensures
        ({
            let n = ring_step(a, t, s, k).0;
            &&& s.phase is Initial || s.phase is Undraw || s.phase is Redraw ==> (if s.frame + 1 < curve(
                a,
                s.phase,
            ).len() {
                n.phase == s.phase && n.frame == s.frame + 1
            } else {
                n.phase == after_sweep(s.phase) && n.frame == 0
            })
            &&& s.phase is Heal ==> (if s.frame + 1 < 10 {
                n.phase is Heal && n.frame == s.frame + 1
            } else {
                n.phase is Static
            })
            &&& s.phase is Unheal ==> (if s.frame + 1 < 10 {
                n.phase is Unheal && n.frame == s.frame + 1
            } else {
                n.phase is Undraw && n.frame == 0
            })
            &&& s.phase is Static ==> n == s
        }),
{
}

/// A resting ring writes nothing.
pub proof fn lemma_static_is_free(a: LockAssets, t: RingTables, s: RingState, k: arc::Ink)
    requires
        s.phase is Static,
    ensures
        ring_step(a, t, s, k) == (s, k),
{
}

/// Start-up fade of the text, in 32 steps.
pub open spec fn text_fade(elapsed_ms: int) -> int {
    if elapsed_ms < 2400 { imath::smin(elapsed_ms * 32 / 2400, 31) * 16_384 / 32 } else { 16_384 }
}

fn fade_at(elapsed_ms: u32) -> (r: i32)
    ensures
        r == text_fade(elapsed_ms as int),
        0 <= r <= 16_384,
{
    if elapsed_ms < FADE_MS {
        let level: u32 = elapsed_ms * 32 / 2400;
        let l: i32 = if level < 31 { level as i32 } else { 31 };
        l * Q / 32
    } else {
        Q
    }
}

/// The text of the face: time and date.
pub open spec fn face_on(fb: Seq<u8>, a: LockAssets, h: u8, m: u8, date: Seq<u8>, fade: int) -> Seq<u8> {
    face_text_on(
        face_text_on(fb, a.time@, time_codes(h, m), 238, 0, fade, 466),
        a.text@,
        date,
        303,
        0,
        fade,
        466,
    )
}

fn draw_face(fb: &mut [u8], a: &LockAssets, h: u8, m: u8, date: &[u8], fade: i32)
    requires
        lock_assets_ok(*a),
        date@.len() <= 64,
        0 <= fade <= 16_384,
    ensures
        final(fb)@ == face_on(old(fb)@, *a, h, m, date@, fade as int),
        final(fb)@.len() == old(fb)@.len(),
{
    let s = time_str(h, m);
    draw_text_centered_clipped(fb, s.as_slice(), 238, 0, fade, a.time, 466);
    draw_text_centered_clipped(fb, date, 303, 0, fade, a.text, 466);
}

/// Whether a rectangle may hold ring pixels: its farthest corner reaches the annulus.
pub fn rect_touches_ring(x0: i32, y0: i32, x1: i32, y1: i32) -> (r: bool)
    ensures
        ({
            let dx = imath::smax(imath::smax(233 - x0, x1 - 233), 0);
            let dy = imath::smax(imath::smax(233 - y0, y1 - 233), 0);
            r == (dx * dx + dy * dy >= 216 * 216)
        }),
{
    let dx: i64 = reach(x0, x1);
    let dy: i64 = reach(y0, y1);
    proof {
        assert(dx >= 216 ==> dx * dx >= 216 * 216) by (nonlinear_arith);
        assert(dy >= 216 ==> dy * dy >= 216 * 216) by (nonlinear_arith);
        assert(0 <= dx * dx && 0 <= dy * dy) by (nonlinear_arith);
        assert(dx <= 216 && dy <= 216 ==> dx * dx <= 216 * 216 && dy * dy <= 216 * 216) by (nonlinear_arith)
            requires 0 <= dx, 0 <= dy;
    }
    dx >= 216 || dy >= 216 || dx * dx + dy * dy >= 216 * 216
}

/// Farthest distance of an interval from the centre, or 0.
fn reach(a: i32, b: i32) -> (r: i64)
    ensures
        r == imath::smax(imath::smax(233 - a, b - 233), 0),
{
    let (p, q): (i64, i64) = (233 - a as i64, b as i64 - 233);
    let m: i64 = if p > q { p } else { q };
    if m > 0 {
        m
    } else {
        0
    }
}

/// Pixel index `p` is that of columns `x0..=x1` of row `y`.
pub open spec fn row_has(y: int, x0: int, x1: int, p: int) -> bool {
    y * 466 + x0 <= p <= y * 466 + x1
}

/// Byte `i` belongs to a pixel whose index is that of a point of the rectangle. Columns
/// count on past the edge of the panel into the neighbouring row.
pub open spec fn in_rect(len: int, x0: int, y0: int, x1: int, y1: int, i: int) -> bool {
    2 * (i / 2) + 1 < len && exists|y: int| y0 <= y <= y1 && #[trigger] row_has(y, x0, x1, i / 2)
}

proof fn lemma_in_rect_row(len: int, x0: int, y0: int, x1: int, y: int, i: int)
    requires
        y0 <= y,
    ensures
        in_rect(len, x0, y0, x1, y, i) == (in_rect(len, x0, y0, x1, y - 1, i) || (2 * (i / 2) + 1 < len && row_has(
            y,
            x0,
            x1,
            i / 2,
        ))),
{
    if in_rect(len, x0, y0, x1, y - 1, i) {
        let w = choose|w: int| y0 <= w <= y - 1 && #[trigger] row_has(w, x0, x1, i / 2);
        assert(y0 <= w <= y && row_has(w, x0, x1, i / 2));
    }
    if in_rect(len, x0, y0, x1, y, i) {
        let w = choose|w: int| y0 <= w <= y && #[trigger] row_has(w, x0, x1, i / 2);
        if w < y {
            assert(y0 <= w <= y - 1 && row_has(w, x0, x1, i / 2));
        }
    }
    if 2 * (i / 2) + 1 < len && row_has(y, x0, x1, i / 2) {
        assert(y0 <= y <= y && row_has(y, x0, x1, i / 2));
    }
}

/// The canvas with a rectangle blacked out by pixel index.
pub open spec fn rect_cleared(fb: Seq<u8>, x0: int, y0: int, x1: int, y1: int) -> Seq<u8> {
    Seq::new(
        fb.len(),
        |i: int| if in_rect(fb.len() as int, x0, y0, x1, y1, i) { 0u8 } else { fb[i] },
    )
}

/// Black out an inclusive rectangle by pixel index.
pub fn clear_rect(fb: &mut [u8], x0: i32, y0: i32, x1: i32, y1: i32)
    ensures
        final(fb)@ == rect_cleared(old(fb)@, x0 as int, y0 as int, x1 as int, y1 as int),
        final(fb)@.len() == old(fb)@.len(),
{
    let ghost fb0 = fb@;
    let ghost len = fb@.len() as int;
    let mut y: i64 = y0 as i64;
    while y <= y1 as i64
        invariant
            y0 <= y,
            y <= y1 + 1 || y == y0,
            fb@.len() == len,
            fb0.len() == len,
            forall|i: int|
                0 <= i < len ==> #[trigger] fb@[i] == (if in_rect(len, x0 as int, y0 as int, x1 as int, y - 1, i) {
                    0u8
                } else {
                    fb0[i]
                }),
        decreases y1 - y + 1,
    {
        let mut x: i64 = x0 as i64;
        let ghost before = fb@;
        while x <= x1 as i64
            invariant
                x0 <= x,
                y0 <= y <= y1,
                x <= x1 + 1 || x == x0,
                fb@.len() == len,
                before.len() == len,
                forall|i: int|
                    0 <= i < len ==> #[trigger] fb@[i] == (if 2 * (i / 2) + 1 < len && y * 466 + x0 <= i / 2 < y
                        * 466 + x {
                        0u8
                    } else {
                        before[i]
                    }),
            decreases x1 - x + 1,
        {
            let p: i64 = (y * 466 + x) * 2;
            if p >= 0 && (p as u64 + 1) < fb.len() as u64 {
                fb[p as usize] = 0;
                fb[p as usize + 1] = 0;
            }
            x = x + 1;
        }
        proof {
            assert forall|i: int| 0 <= i < len implies #[trigger] fb@[i] == (if in_rect(
                len,
                x0 as int,
                y0 as int,
                x1 as int,
                y as int,
                i,
            ) {
                0u8
            } else {
                fb0[i]
            }) by {
                lemma_in_rect_row(len, x0 as int, y0 as int, x1 as int, y as int, i);
                assert(before[i] == (if in_rect(len, x0 as int, y0 as int, x1 as int, y - 1, i) {
                    0u8
                } else {
                    fb0[i]
                }));
            }
        }
        y = y + 1;
    }
    proof {
        if y1 < y0 {
            assert forall|i: int| 0 <= i < len implies !in_rect(
                len,
                x0 as int,
                y0 as int,
                x1 as int,
                y - 1,
                i,
            ) && !in_rect(len, x0 as int, y0 as int, x1 as int, y1 as int, i) by {
            }
        }
    }
    assert(fb@ =~= rect_cleared(fb0, x0 as int, y0 as int, x1 as int, y1 as int));
}

/// Damage after the ring's box, one pixel larger on each side.
pub open spec fn acc_marked(d: dmi::Damage, w: int, h: int, acc: RectAcc) -> dmi::Damage {
    if acc.x1 < acc.x0 {
        d
    } else {
        watch_fb::marked(d, w, h, acc.x0 - 1, acc.y0 - 1, acc.x1 + 1, acc.y1 + 1)
    }
}

fn mark_acc(wfb: &mut WatchFb, acc: &RectAcc)
    requires
        old(wfb).wf(),
    ensures
        final(wfb).wf(),
        final(wfb).canvas() == old(wfb).canvas(),
        final(wfb).w() == old(wfb).w(),
        final(wfb).h() == old(wfb).h(),
        final(wfb).damage() == acc_marked(old(wfb).damage(), old(wfb).w(), old(wfb).h(), *acc),
{
    if acc.is_empty() {
        return;
    }
    let x0: i32 = if acc.x0 > i32::MIN { acc.x0 - 1 } else { acc.x0 };
    let y0: i32 = if acc.y0 > i32::MIN { acc.y0 - 1 } else { acc.y0 };
    let x1: i32 = if acc.x1 < i32::MAX { acc.x1 + 1 } else { acc.x1 };
    let y1: i32 = if acc.y1 < i32::MAX { acc.y1 + 1 } else { acc.y1 };
    proof {
        wfb.panel_bounds();
    }
    wfb.mark_rect(x0, y0, x1, y1);
}

/// The box of no points.
pub open spec fn no_acc() -> RectAcc {
    RectAcc { x0: i32::MAX, y0: i32::MAX, x1: i32::MIN, y1: i32::MIN }
}

/// Frame of the flourish after frame `fr`.
pub open spec fn next_flourish(fr: u32) -> u32 {
    if fr + 1 >= 55 { 0xffff_ffff } else { (fr + 1) as u32 }
}

/// A changed minute parts the resting ring.
pub open spec fn minute_parts(c: Clock, minute: u8) -> bool {
    c.last_minute != 99 && minute != c.last_minute && c.minute_anim && c.phase is Static && c.flourish_frame
        == 0xffff_ffff
}

/// The ring's state when a frame begins.
pub open spec fn ring_begin(c: Clock, minute: u8) -> RingState {
    RingState {
        phase: if minute_parts(c, minute) { BezelPhase::Unheal } else { c.phase },
        frame: if minute_parts(c, minute) { 0 } else { c.frame_in_phase as int },
        drawn: c.drawn_centers as int,
    }
}

/// The ring's part of a frame: a flourish frame while one runs, else a frame of the ring
/// animation.
pub open spec fn ring_part(c: Clock, a: LockAssets, fb: Seq<u8>, minute: u8) -> (RingState, arc::Ink) {
    let s = ring_begin(c, minute);
    if c.flourish_frame != 0xffff_ffff {
        (
            s,
            arc::ink(
                flourish::flourish_on(fb, c.flourish_frame as int),
                watch_fb::grown(watch_fb::grown(no_acc(), -1, -1), 467, 467),
                c.ring.band_d@.len() as int,
            ),
        )
    } else {
        ring_step(a, c.ring, s, arc::ink(fb, no_acc(), 0))
    }
}

/// What the retained text shows.
pub open spec fn text_key(now: WallTime, fade: int) -> TextKey {
    (now.hour, now.minute, fade as i32, now.year, now.month, now.day)
}

/// Union of the box that was cleared and the box that was drawn.
pub open spec fn text_dirty(old_box: Box4, new_box: (int, int, int, int)) -> (int, int, int, int) {
    if old_box.2 < old_box.0 {
        new_box
    } else {
        (
            imath::smin(old_box.0 as int, new_box.0),
            imath::smin(old_box.1 as int, new_box.1),
            imath::smax(old_box.2 as int, new_box.2),
            imath::smax(old_box.3 as int, new_box.3),
        )
    }
}

pub open spec fn clock_ok(c: Clock) -> bool {
    &&& ring::tables_ok(c.ring)
    &&& c.drawn_centers <= c.ring.anim@.len()
    &&& (c.phase is Heal || c.phase is Unheal ==> c.frame_in_phase < 10)
    &&& (c.flourish_frame < 55 || c.flourish_frame == 0xffff_ffff)
    &&& c.date@.len() <= 24
    &&& box_near(c.last_text_bbox)
    &&& box_held(c.last_text_bbox)
    &&& c.bezel_anim_len == c.ring.anim@.len()
    &&& c.bezel_full_len == c.ring.full@.len()
}

/// A box on or just off the panel.
pub open spec fn box_near(b: Box4) -> bool {
    -2_000_000 <= b.0 <= 2_000_000 && -2_000_000 <= b.1 <= 2_000_000 && -2_000_000 <= b.2 <= 2_000_000
        && -2_000_000 <= b.3 <= 2_000_000
}

/// A box that is empty or lies on the panel.
pub open spec fn box_held(b: Box4) -> bool {
    b.2 < b.0 || (0 <= b.0 && b.2 <= 465 && 0 <= b.1 && b.3 <= 465)
}

/// Two clocks share everything but what a drawing step changes.
pub open spec fn same_setup(a: Clock, b: Clock) -> bool {
    &&& a.ring == b.ring
    &&& a.bezel_anim_len == b.bezel_anim_len
    &&& a.bezel_full_len == b.bezel_full_len
    &&& a.minute_anim == b.minute_anim
}

impl Clock {
    /// A clock about to sweep its ring in.
    pub fn new() -> (c: Self)
        ensures
            clock_ok(c),
            c.last_minute == 99,
            c.minute_anim,
            c.phase is Initial,
            c.frame_in_phase == 0,
            c.flourish_frame == 0xffff_ffff,
            c.drawn_centers == 0,
            c.bezel_anim_len == 396_000,
            c.last_text == (255u8, 255u8, -1i32, 0u16, 0u8, 0u8),
            c.last_text_bbox == (0i32, 0i32, -1i32, -1i32),
            c.date@.len() == 0,
            c.last_bezel_writes == 0,
            c.last_bezel_center_delta == 0,
            c.last_bezel_centers == 0,
    {
        let t = ring::precompute_bezel_ring();
        proof {
            ring::lemma_tables(t);
            ring::lemma_all_taps(396_000);
        }
        let anim_len: u32 = t.anim.len() as u32;
        let full_len: u32 = t.full.len() as u32;
        Clock {
            last_minute: 99,
            minute_anim: true,
            phase: BezelPhase::Initial,
            frame_in_phase: 0,
            ring: t,
            flourish_frame: NO_FLOURISH,
            bezel_anim_len: anim_len,
            bezel_full_len: full_len,
            drawn_centers: 0,
            last_text: (255, 255, -1, 0, 0, 0),
            last_text_bbox: (0, 0, -1, -1),
            date: Vec::new(),
            last_bezel_writes: 0,
            last_bezel_center_delta: 0,
            last_bezel_centers: 0,
        }
    }

    /// Advance the ring animation one frame; returns the pixels written.
    fn step_bezel(&mut self, a: &LockAssets, fb: &mut [u8], acc: &mut RectAcc) -> (n: usize)
        requires
            clock_ok(*old(self)),
            lock_assets_ok(*a),
            old(self).flourish_frame == 0xffff_ffff,
        ensures
            ({
                let (s, k) = ring_step(
                    *a,
                    old(self).ring,
                    (RingState {
                        phase: old(self).phase,
                        frame: old(self).frame_in_phase as int,
                        drawn: old(self).drawn_centers as int,
                    }),
                    arc::ink(old(fb)@, *old(acc), 0),
                );
                &&& arc::ink(final(fb)@, *final(acc), n as int) == k
                &&& final(self).phase == s.phase
                &&& final(self).frame_in_phase == s.frame
                &&& final(self).drawn_centers == s.drawn
            }),
            n <= 0xffff_ffff,
            *final(self) == (Clock {
                phase: final(self).phase,
                frame_in_phase: final(self).frame_in_phase,
                drawn_centers: final(self).drawn_centers,
                ..*old(self)
            }),
            clock_ok(*final(self)),
    {
        proof {
            ring::lemma_tables(self.ring);
        }
        let ghost k0 = arc::ink(fb@, *acc, 0);
        match self.phase {
            BezelPhase::Static => 0,
            BezelPhase::Heal => {
                let lift: i32 = (self.frame_in_phase + 1) as i32;
                let mut writes: usize = arc::redraw_end_windows(&self.ring, fb, lift, 10, acc);
                self.frame_in_phase = self.frame_in_phase + 1;
                if self.frame_in_phase >= HEAL_FRAMES {
                    let more: usize = arc::blit_full_ring(&self.ring, fb, 256, acc);
                    writes = writes + more;
                    self.phase = BezelPhase::Static;
                }
                writes
            },
            BezelPhase::Unheal => {
                let lift: i32 = (9 - self.frame_in_phase) as i32;
                let writes: usize = arc::redraw_end_windows(&self.ring, fb, lift, 10, acc);
                self.frame_in_phase = self.frame_in_phase + 1;
                if self.frame_in_phase >= HEAL_FRAMES {
                    self.phase = BezelPhase::Undraw;
                    self.frame_in_phase = 0;
                }
                writes
            },
            _ => {
                let sched: &[u32] = match self.phase {
                    BezelPhase::Initial => a.sched.initial,
                    BezelPhase::Undraw => a.sched.undraw,
                    _ => a.sched.redraw,
                };
                let len: usize = self.ring.anim.len();
                let last: usize = sched.len() - 1;
                let idx: usize = if (self.frame_in_phase as usize) < last {
                    self.frame_in_phase as usize
                } else {
                    last
                };
                assert(sched@ == curve(*a, self.phase));
                let target: usize = scale_sched(sched[idx], len, a.sched.total);
                let writes: usize = arc::apply_bezel_target(&self.ring, fb, self.drawn_centers, target, acc);
                self.drawn_centers = target;
                self.frame_in_phase = self.frame_in_phase.saturating_add(1);
                let end: usize = scale_sched(sched[last], len, a.sched.total);
                if self.frame_in_phase as usize >= sched.len() && self.drawn_centers == end {
                    self.phase = match self.phase {
                        BezelPhase::Undraw => BezelPhase::Redraw,
                        _ => BezelPhase::Heal,
                    };
                    self.frame_in_phase = 0;
                }
                writes
            },
        }
    }

    /// One flourish frame; returns the pixels written.
    fn step_flourish(&mut self, fb: &mut [u8], acc: &mut RectAcc) -> (n: usize)
        requires
            clock_ok(*old(self)),
            old(self).flourish_frame < 55,
        ensures
            final(fb)@ == flourish::flourish_on(old(fb)@, old(self).flourish_frame as int),
            *final(acc) == watch_fb::grown(watch_fb::grown(*old(acc), -1, -1), 467, 467),
            n == old(self).ring.band_d@.len(),
            n <= 217_156,
            *final(self) == (Clock { flourish_frame: next_flourish(old(self).flourish_frame), ..*old(self) }),
            clock_ok(*final(self)),
    {
        let n: usize = flourish::flourish_frame(&self.ring, fb, self.flourish_frame, acc);
        let next: u32 = self.flourish_frame + 1;
        self.flourish_frame = if next >= flourish::FL_TOTAL_F { NO_FLOURISH } else { next };
        n
    }

    /// Compose one frame: ring deltas, and the text when time, date or fade changed. A frame
    /// that touches nothing leaves the canvas clean.
    pub fn render(&mut self, wfb: &mut WatchFb, a: &LockAssets, elapsed_ms: u32, now: &WallTime)
        requires
            clock_ok(*old(self)),
            lock_assets_ok(*a),
            old(wfb).wf(),
        ensures
            clock_ok(*final(self)),
            same_setup(*final(self), *old(self)),
            final(wfb).wf(),
            final(wfb).w() == old(wfb).w(),
            final(wfb).h() == old(wfb).h(),
            final(self).last_minute == now.minute,
            final(wfb).canvas() == lock_damage::lock_canvas(
                *old(self),
                *a,
                old(wfb).canvas(),
                elapsed_ms as int,
                *now,
            ),
            final(self).flourish_frame == (if old(self).flourish_frame == 0xffff_ffff {
                0xffff_ffff
            } else {
                next_flourish(old(self).flourish_frame)
            }),
            ({
                let (s, k) = ring_part(*old(self), *a, old(wfb).canvas(), now.minute);
                let d1 = acc_marked(old(wfb).damage(), old(wfb).w(), old(wfb).h(), k.acc);
                let fade = text_fade(elapsed_ms as int);
                let date = date_codes(*now);
                let nb = face_box(*a, date, 0);
                let dirty = text_dirty(old(self).last_text_bbox, nb);
                let ob = old(self).last_text_bbox;
                &&& final(self).phase == s.phase
                &&& final(self).frame_in_phase == s.frame
                &&& final(self).drawn_centers == s.drawn
                &&& final(self).last_bezel_writes == k.writes
                &&& final(self).last_bezel_centers == s.drawn
                &&& final(self).last_bezel_center_delta == imath::sabs(s.drawn - old(self).drawn_centers)
                &&& final(self).last_text == text_key(*now, fade)
                &&& if old(self).last_text == text_key(*now, fade) {
                    &&& final(wfb).canvas() == k.fb
                    &&& final(wfb).damage() == d1
                    &&& final(self).last_text_bbox == ob
                    &&& final(self).date@ == old(self).date@
                } else {
                    &&& final(wfb).canvas() == face_on(
                        rect_cleared(k.fb, ob.0 as int, ob.1 as int, ob.2 as int, ob.3 as int),
                        *a,
                        now.hour,
                        now.minute,
                        date,
                        fade,
                    )
                    &&& final(wfb).damage() == watch_fb::marked(
                        d1,
                        old(wfb).w(),
                        old(wfb).h(),
                        dirty.0,
                        dirty.1,
                        dirty.2,
                        dirty.3,
                    )
                    &&& box_is(final(self).last_text_bbox, nb)
                    &&& final(self).date@ == date
                }
            }),
    {
        proof {
            ring::lemma_tables(self.ring);
        }
        let m: u8 = now.minute;
        if self.last_minute == 99 {
            self.last_minute = m;
        } else if m != self.last_minute {
            self.last_minute = m;
            if self.minute_anim && self.phase == BezelPhase::Static && self.flourish_frame == NO_FLOURISH {
                self.phase = BezelPhase::Unheal;
                self.frame_in_phase = 0;
            }
        }
        let fade: i32 = fade_at(elapsed_ms);
        let prev: usize = self.drawn_centers;
        let mut acc = RectAcc::empty();
        let fb = wfb.buf_mut();
        let writes: usize = if self.flourish_frame != NO_FLOURISH {
            self.step_flourish(fb, &mut acc)
        } else {
            self.step_bezel(a, fb, &mut acc)
        };
        mark_acc(wfb, &acc);
        self.last_bezel_writes = writes as u32;
        self.last_bezel_centers = self.drawn_centers as u32;
        self.last_bezel_center_delta = if self.drawn_centers > prev {
            (self.drawn_centers - prev) as u32
        } else {
            (prev - self.drawn_centers) as u32
        };
        let key: TextKey = (now.hour, m, fade, now.year, now.month, now.day);
        let same = self.last_text.0 == key.0 && self.last_text.1 == key.1 && self.last_text.2 == key.2
            && self.last_text.3 == key.3 && self.last_text.4 == key.4 && self.last_text.5 == key.5;
        if !same {
            self.last_text = key;
            self.date = format_date(now);
            let ob = self.last_text_bbox;
            let fb = wfb.buf_mut();
            clear_rect(fb, ob.0, ob.1, ob.2, ob.3);
            draw_face(fb, a, now.hour, m, self.date.as_slice(), fade);
            let nb = text_bbox_at(a, self.date.as_slice(), 0);
            self.last_text_bbox = nb;
            let dirty: Box4 = if ob.2 < ob.0 {
                nb
            } else {
                (
                    imath::imin(ob.0, nb.0),
                    imath::imin(ob.1, nb.1),
                    imath::imax(ob.2, nb.2),
                    imath::imax(ob.3, nb.3),
                )
            };
            wfb.mark_rect(dirty.0, dirty.1, dirty.2, dirty.3);
        }
    }
}

/// The canvas of a freshly painted lock scene.
pub open spec fn fresh_face(len: nat, a: LockAssets, now: WallTime) -> Seq<u8> {
    face_on(
        arc::ring_on(Seq::new(len, |i: int| 0u8), 256),
        a,
        now.hour,
        now.minute,
        date_codes(now),
        16_384,
    )
}

/// Offset of the always-on time, by minute, to spread wear.
pub open spec fn drift(minute: int) -> (int, int) {
    let i = minute % 8;
    if i == 0 {
        (0, 0)
    } else if i == 1 {
        (5, 3)
    } else if i == 2 {
        (-4, 6)
    } else if i == 3 {
        (3, -5)
    } else if i == 4 {
        (-6, -2)
    } else if i == 5 {
        (6, 4)
    } else if i == 6 {
        (-3, 3)
    } else {
        (2, -6)
    }
}

/// The canvas of the always-on frame: the drifted time on black.
pub open spec fn always_on(len: nat, a: LockAssets, now: WallTime) -> Seq<u8> {
    face_text_on(
        Seq::new(len, |i: int| 0u8),
        a.time@,
        time_codes(now.hour, now.minute),
        238 + drift(now.minute as int).1,
        drift(now.minute as int).0,
        16_384,
        466,
    )
}

/// The canvas after time and date moved down by `shift`, on rows above `clip`.
pub open spec fn sliding_text(fb: Seq<u8>, a: LockAssets, now: WallTime, shift: int, clip: int) -> Seq<u8> {
    face_text_on(
        face_text_on(fb, a.time@, time_codes(now.hour, now.minute), 238 + shift, 0, 16_384, clip),
        a.text@,
        date_codes(now),
        303 + shift,
        0,
        16_384,
        clip,
    )
}

fn drift_at(minute: u8) -> (r: (i32, i32))
    ensures
        r.0 == drift(minute as int).0,
        r.1 == drift(minute as int).1,
        -6 <= r.0 <= 6,
        -6 <= r.1 <= 6,
{
    let i: u8 = minute % 8;
    if i == 0 {
        (0, 0)
    } else if i == 1 {
        (5, 3)
    } else if i == 2 {
        (-4, 6)
    } else if i == 3 {
        (3, -5)
    } else if i == 4 {
        (-6, -2)
    } else if i == 5 {
        (6, 4)
    } else if i == 6 {
        (-3, 3)
    } else {
        (2, -6)
    }
}

impl Clock {
    /// Repaint the whole scene: full ring at rest, text at rest and registered in the cache.
    pub fn repaint_full(&mut self, wfb: &mut WatchFb, a: &LockAssets, now: &WallTime)
        requires
            clock_ok(*old(self)),
            lock_assets_ok(*a),
            old(wfb).wf(),
        ensures
            clock_ok(*final(self)),
            same_setup(*final(self), *old(self)),
            final(self).phase is Static,
            final(self).frame_in_phase == 0,
            final(self).drawn_centers == old(self).ring.anim@.len(),
            final(self).last_minute == old(self).last_minute,
            final(self).flourish_frame == old(self).flourish_frame,
            final(self).last_text == text_key(*now, 16_384),
            final(self).date@ == date_codes(*now),
            box_is(final(self).last_text_bbox, face_box(*a, date_codes(*now), 0)),
            final(wfb).wf(),
            final(wfb).w() == old(wfb).w(),
            final(wfb).h() == old(wfb).h(),
            final(wfb).canvas() == fresh_face(old(wfb).canvas().len(), *a, *now),
            final(wfb).damage() == watch_fb::marked(
                old(wfb).damage(),
                old(wfb).w(),
                old(wfb).h(),
                0,
                0,
                465,
                465,
            ),
    {
        self.phase = BezelPhase::Static;
        self.frame_in_phase = 0;
        self.drawn_centers = self.ring.anim.len();
        self.date = format_date(now);
        let fb = wfb.buf_mut();
        watch_fb::fill_black(fb);
        let mut acc = RectAcc::empty();
        let _n: usize = arc::blit_full_ring(&self.ring, fb, 256, &mut acc);
        draw_face(fb, a, now.hour, now.minute, self.date.as_slice(), Q);
        self.last_text = (now.hour, now.minute, Q, now.year, now.month, now.day);
        self.last_text_bbox = text_bbox_at(a, self.date.as_slice(), 0);
        wfb.mark_rect(0, 0, 465, 465);
    }

    /// Box of the text on the canvas.
    pub fn canvas_text_bbox(&self) -> (r: Box4)
        ensures
            r == self.last_text_bbox,
    {
        self.last_text_bbox
    }

    /// The date line for a time.
    pub fn date_line(&mut self, now: &WallTime) -> (r: Vec<u8>)
        requires
            clock_ok(*old(self)),
        ensures
            r@ == date_codes(*now),
            r@.len() <= 24,
            final(self).date@ == date_codes(*now),
            *final(self) == (Clock { date: final(self).date, ..*old(self) }),
            clock_ok(*final(self)),
    {
        self.date = format_date(now);
        format_date(now)
    }

    /// Draw time and date moved down by `y_shift`, on rows above `clip_y`; returns their box
    /// cut at `clip_y`.
    pub fn draw_sheet_text(&mut self, fb: &mut [u8], a: &LockAssets, now: &WallTime, y_shift: i32, clip_y: i32) -> (r: Box4)
        requires
            clock_ok(*old(self)),
            lock_assets_ok(*a),
            -0x8_0000 <= y_shift <= 0x8_0000,
            clip_y > i32::MIN,
        ensures
            final(fb)@ == sliding_text(old(fb)@, *a, *now, y_shift as int, clip_y as int),
            ({
                let b = face_box(*a, date_codes(*now), y_shift as int);
                box_is(r, (b.0, b.1, b.2, imath::smin(b.3, clip_y - 1)))
            }),
            final(self).date@ == date_codes(*now),
            *final(self) == (Clock { date: final(self).date, ..*old(self) }),
            clock_ok(*final(self)),
    {
        self.date = format_date(now);
        let s = time_str(now.hour, now.minute);
        draw_text_centered_clipped(fb, s.as_slice(), 238 + y_shift, 0, Q, a.time, clip_y);
        draw_text_centered_clipped(fb, self.date.as_slice(), 303 + y_shift, 0, Q, a.text, clip_y);
        let b = text_bbox_at(a, self.date.as_slice(), y_shift);
        (b.0, b.1, b.2, imath::imin(b.3, clip_y - 1))
    }

    /// Redraw the ring on rows `min_y..max_y` at a brightness in Q14.
    pub fn draw_ring_rows(&self, fb: &mut [u8], min_y: i32, max_y: i32, level_q14: i32, acc: &mut RectAcc) -> (n: usize)
        requires
            clock_ok(*self),
            old(fb)@.len() >= 434_312,
            min_y <= 4_608_333,
            max_y <= 4_608_333,
        ensures
            ({
                let (y0, y1) = (imath::smax(min_y as int, 0), imath::smax(max_y as int, 0));
                let runs = self.ring.runs@;
                &&& final(fb)@ == arc::rows_on(
                    old(fb)@,
                    runs,
                    runs.len() as int,
                    y0,
                    y1,
                    arc::level_q8(level_q14 as int),
                )
                &&& n == arc::rows_pixels(runs, runs.len() as int, y0, y1)
                &&& *final(acc) == (if n > 0 {
                    watch_fb::grown(watch_fb::grown(*old(acc), 4, y0), 462, imath::smin(max_y - 1, 462))
                } else {
                    *old(acc)
                })
            }),
    {
        arc::draw_ring_rows(&self.ring, fb, min_y, max_y, level_q14, acc)
    }

    /// The ring is moving: frames come at the animation cadence.
    pub fn is_animating(&self) -> (r: bool)
        ensures
            r == (!(self.phase is Static) || self.flourish_frame != 0xffff_ffff),
    {
        self.phase != BezelPhase::Static || self.flourish_frame != NO_FLOURISH
    }

    /// Allow or suppress the minute sweep.
    pub fn set_minute_anim(&mut self, enabled: bool)
        ensures
            *final(self) == (Clock { minute_anim: enabled, ..*old(self) }),
    {
        self.minute_anim = enabled;
    }

    /// Start the flourish, from a resting ring only.
    pub fn start_flourish(&mut self)
        ensures
            *final(self) == (if old(self).phase is Static && old(self).flourish_frame == 0xffff_ffff {
                Clock { flourish_frame: 0, ..*old(self) }
            } else {
                *old(self)
            }),
    {
        if self.phase == BezelPhase::Static && self.flourish_frame == NO_FLOURISH {
            self.flourish_frame = 0;
        }
    }

    /// The flourish is running.
    pub fn flourish_active(&self) -> (r: bool)
        ensures
            r == (self.flourish_frame != 0xffff_ffff),
    {
        self.flourish_frame != NO_FLOURISH
    }

    /// End the flourish at once with its closing frame, the resting ring.
    pub fn cancel_flourish(&mut self, fb: &mut [u8], acc: &mut RectAcc)
        requires
            clock_ok(*old(self)),
        ensures
            clock_ok(*final(self)),
            *final(self) == (Clock { flourish_frame: 0xffff_ffff, ..*old(self) }),
            old(self).flourish_frame != 0xffff_ffff ==> final(fb)@ == flourish::flourish_on(old(fb)@, 54)
                && *final(acc) == watch_fb::grown(watch_fb::grown(*old(acc), -1, -1), 467, 467),
            old(self).flourish_frame == 0xffff_ffff ==> final(fb)@ == old(fb)@ && *final(acc) == *old(acc),
    {
        if self.flourish_frame != NO_FLOURISH {
            self.flourish_frame = flourish::FL_TOTAL_F - 1;
            let _n: usize = self.step_flourish(fb, acc);
        }
    }

    /// Always-on frame: black but for the drifting time. The caches are invalidated.
    pub fn draw_aod(&mut self, wfb: &mut WatchFb, a: &LockAssets, now: &WallTime)
        requires
            clock_ok(*old(self)),
            lock_assets_ok(*a),
            old(wfb).wf(),
        ensures
            clock_ok(*final(self)),
            same_setup(*final(self), *old(self)),
            final(self).phase is Static,
            final(self).frame_in_phase == 0,
            final(self).drawn_centers == old(self).ring.anim@.len(),
            final(self).last_minute == old(self).last_minute,
            final(self).flourish_frame == old(self).flourish_frame,
            final(self).last_text == (255u8, 255u8, -1i32, 0u16, 0u8, 0u8),
            final(self).last_text_bbox == (0i32, 0i32, -1i32, -1i32),
            final(self).date@ == old(self).date@,
            final(wfb).wf(),
            final(wfb).w() == old(wfb).w(),
            final(wfb).h() == old(wfb).h(),
            final(wfb).canvas() == always_on(old(wfb).canvas().len(), *a, *now),
            final(wfb).damage() == watch_fb::marked(
                old(wfb).damage(),
                old(wfb).w(),
                old(wfb).h(),
                0,
                0,
                465,
                465,
            ),
    {
        let (dx, dy) = drift_at(now.minute);
        let fb = wfb.buf_mut();
        watch_fb::fill_black(fb);
        let s = time_str(now.hour, now.minute);
        draw_text_centered_clipped(fb, s.as_slice(), 238 + dy, dx, Q, a.time, 466);
        self.last_text = (255, 255, -1, 0, 0, 0);
        self.last_text_bbox = (0, 0, -1, -1);
        self.phase = BezelPhase::Static;
        self.frame_in_phase = 0;
        self.drawn_centers = self.ring.anim.len();
        wfb.mark_rect(0, 0, 465, 465);
    }
}

/// An idle frame is free: with the ring at rest and the text unchanged, rendering touches
/// neither the canvas nor the damage.
pub proof fn lemma_idle_frame_is_clean(
    c: Clock,
    a: LockAssets,
    fb: Seq<u8>,
    d: dmi::Damage,
    w: int,
    h: int,
    minute: u8,
)
    requires
        c.phase is Static,
        c.flourish_frame == 0xffff_ffff,
        !minute_parts(c, minute),
    ensures
        ring_part(c, a, fb, minute).1.fb == fb,
        acc_marked(d, w, h, ring_part(c, a, fb, minute).1.acc) == d,
{
}

/// After a repaint the cache knows the text: rendering the same time at full brightness
/// redraws nothing.
pub proof fn lemma_repaint_is_registered(now: WallTime, elapsed_ms: int)
    requires
        elapsed_ms >= 2400,
    ensures
        text_key(now, 16_384) == text_key(now, text_fade(elapsed_ms)),
{
}

/// Cancelling the flourish gives every pixel of its band the colour it has in the resting
/// ring, and leaves the others alone.
pub proof fn lemma_cancel_restores_ring(fb: Seq<u8>, x: int, y: int)
    requires
        raster::has_px(fb.len() as int, x, y),
    ensures
        ({
            let p = y * 466 + x;
            raster::px_at(flourish::flourish_on(fb, 54), x, y) == (if ring::in_band(p) {
                ring::ring_table()[ring::ring_alpha_at(p)]
            } else {
                raster::px_at(fb, x, y)
            })
        }),
{
    raster::lemma_shade_px(
        fb,
        0,
        0,
        466,
        466,
        ring::sel_shader(ring::band_sel(), flourish::flourish_val(54), 217_156),
        x,
        y,
    );
    flourish::lemma_closing_frame_is_rest(y * 466 + x);
}

/// The colour a ring pixel gets from the flourish's closing frame is the one the full ring
/// gives it.
pub proof fn lemma_rest_colors_agree(p: int)
    ensures
        arc::ring_val(256)(p) == ring::ring_table()[ring::ring_alpha_at(p)],
{
    ring::lemma_alpha_range(p);
}

/// Redrawn by rows, the ring's pixels add up over adjacent ranges, all rows hold the whole
/// ring, and a level of 0 or less is no light.
pub proof fn lemma_ring_windows(c: Clock, a: int, b: int, e: int, level_q14: int)
    requires
        clock_ok(c),
        0 <= a <= b <= e,
    ensures
        ({
            let (runs, n) = (c.ring.runs@, c.ring.runs@.len() as int);
            &&& arc::rows_pixels(runs, n, a, b) + arc::rows_pixels(runs, n, b, e) == arc::rows_pixels(runs, n, a, e)
            &&& arc::rows_pixels(runs, n, 0, 466) == c.bezel_full_len
        }),
        level_q14 <= 0 ==> arc::level_q8(level_q14) == 0,
{
    arc::lemma_ring_rows_count(c.ring, a, b, e);
}

} // verus!
