//! The settings app: a brightness slider, two more rows, and the About panel.
use vstd::prelude::*;

use crate::display::watch_fb;
use crate::display::watch_fb::WatchFb;
use crate::font;
use crate::imath;
use crate::raster;
use crate::scenes::apps;
use crate::scenes::apps::{AppAssets, State, AZURE, SLIDER_MIN, SLIDER_W, SLIDER_X0, SLIDER_Y, TITLE_WHITE};
use crate::scenes::gallery::ICE;
use crate::scenes::vector;
use crate::scenes::wheel;

verus! {

/// First line of the panel: the firmware revision, its first 17 characters.
pub open spec fn fw_line(fw: Seq<char>) -> Seq<u8> {
    let g = font::codes_of(fw);
    font::codes_of("FW "@) + g.take(imath::smin(g.len() as int, 17))
}

/// The battery line.
pub open spec fn batt_line(batt: Option<u8>) -> Seq<u8> {
    match batt {
        Some(p) => font::codes_of("BATT "@) + wheel::percent_codes(p) + seq![37u8],
        None => font::codes_of("USB POWER"@),
    }
}

/// Tens and units of a number, without a leading zero; from 100 on the character of the tens
/// lies beyond '9'.
pub open spec fn short_number(n: int) -> Seq<u8> {
    if n >= 10 { seq![(48 + n / 10) as u8, (48 + n % 10) as u8] } else { seq![(48 + n % 10) as u8] }
}

/// The uptime line: minutes below an hour, then hours, and the minutes once they have two
/// digits. From 800 hours on the tens of hours have no character and nothing is shown.
pub open spec fn uptime_line(elapsed_ms: int) -> Seq<u8> {
    let mins = elapsed_ms / 60_000;
    let hours = mins / 60;
    let m = mins % 60;
    let head = if mins >= 60 { short_number(hours) + seq![72u8, 32u8] } else { Seq::<u8>::empty() };
    let tail = if m >= 10 || mins < 60 { short_number(m) } else { Seq::<u8>::empty() };
    if hours >= 800 {
        Seq::<u8>::empty()
    } else {
        font::codes_of("UP "@) + head + tail + font::codes_of(" MIN"@)
    }
}

/// Line `i` of the About panel.
pub open spec fn about_line(i: int, fw: Seq<char>, batt: Option<u8>, elapsed_ms: int) -> Seq<u8> {
    if i == 0 {
        fw_line(fw)
    } else if i == 1 {
        font::codes_of("ESP32-S3"@)
    } else if i == 2 {
        font::codes_of("466x466 CO5300"@)
    } else if i == 3 {
        batt_line(batt)
    } else {
        uptime_line(elapsed_ms)
    }
}

fn extend(v: &mut Vec<u8>, s: &[u8], n: usize)
    requires
        n <= s@.len(),
    ensures
        final(v)@ == old(v)@ + s@.take(n as int),
{
    let mut i: usize = 0;
    while i < n
        invariant
            i <= n <= s@.len(),
            v@ == old(v)@ + s@.take(i as int),
        decreases n - i,
    {
        v.push(s[i]);
        assert(v@ =~= old(v)@ + s@.take(i + 1));
        i = i + 1;
    }
}

fn push_number(v: &mut Vec<u8>, n: u32)
    requires
        n < 800,
    ensures
        final(v)@ == old(v)@ + short_number(n as int),
{
    if n >= 10 {
        v.push(48 + (n / 10) as u8);
    }
    v.push(48 + (n % 10) as u8);
    assert(v@ =~= old(v)@ + short_number(n as int));
}

fn fw_text(fw: &str) -> (v: Vec<u8>)
    ensures
        v@ == fw_line(fw@),
        v@.len() <= 20,
{
    proof {
        reveal_strlit("FW ");
    }
    let g = font::codes(fw);
    let n: usize = if g.len() < 17 { g.len() } else { 17 };
    let mut v = font::codes("FW ");
    extend(&mut v, g.as_slice(), n);
    v
}

fn batt_text(batt: Option<u8>) -> (v: Vec<u8>)
    ensures
        v@ == batt_line(batt),
        v@.len() <= 20,
{
    proof {
        reveal_strlit("BATT ");
        reveal_strlit("USB POWER");
    }
    match batt {
        Some(p) => {
            let mut v = font::codes("BATT ");
            let ghost head = v@;
            if p >= 100 {
                v.push(49);
                v.push(48);
                v.push(48);
            } else {
                if p >= 10 {
                    v.push(48 + p / 10);
                }
                v.push(48 + p % 10);
            }
            v.push(37);
            assert(v@ =~= head + wheel::percent_codes(p) + seq![37u8]);
            v
        },
        None => font::codes("USB POWER"),
    }
}

fn uptime_text(elapsed_ms: u32) -> (v: Vec<u8>)
    ensures
        v@ == uptime_line(elapsed_ms as int),
        v@.len() <= 20,
{
    let mins: u32 = elapsed_ms / 60_000;
    let hours: u32 = mins / 60;
    let m: u32 = mins % 60;
    if hours >= 800 {
        return Vec::new();
    }
    proof {
        reveal_strlit("UP ");
        reveal_strlit(" MIN");
    }
    let mut v = font::codes("UP ");
    let ghost up = v@;
    if mins >= 60 {
        push_number(&mut v, hours);
        v.push(72);
        v.push(32);
    }
    let ghost head = if mins >= 60 { short_number(hours as int) + seq![72u8, 32u8] } else { Seq::<u8>::empty() };
    assert(v@ =~= up + head);
    if m >= 10 || mins < 60 {
        push_number(&mut v, m);
    }
    let ghost tail = if m >= 10 || mins < 60 { short_number(m as int) } else { Seq::<u8>::empty() };
    assert(v@ =~= up + head + tail);
    let e = font::codes(" MIN");
    extend(&mut v, e.as_slice(), e.len());
    assert(e@.take(e@.len() as int) =~= e@);
    v
}

/// The first `n` lines of the About panel at opacity `q`; the first line is the brightest.
pub open spec fn about_on(fb: Seq<u8>, a: AppAssets, q: int, rise: int, batt: Option<u8>, elapsed_ms: int, n: int) -> Seq<u8>
    decreases n,
{
    if n <= 0 {
        fb
    } else {
        apps::centered_on(
            about_on(fb, a, q, rise, batt, elapsed_ms, n - 1),
            a.wheel.text@,
            about_line(n - 1, a.fw@, batt, elapsed_ms),
            172 + (n - 1) * 42 + rise,
            if n == 1 { q } else { 170 * q / 256 },
        )
    }
}

fn draw_about(fb: &mut [u8], assets: &AppAssets, q: i32, rise: i32, batt: Option<u8>, elapsed_ms: u32)
    requires
        apps::assets_ok(*assets),
        0 <= q <= 256,
        0 <= rise <= 466,
    ensures
        final(fb)@ == about_on(old(fb)@, *assets, q as int, rise as int, batt, elapsed_ms as int, 5),
{
    proof {
        reveal_strlit("ESP32-S3");
        reveal_strlit("466x466 CO5300");
        reveal_with_fuel(about_on, 6);
    }
    let dim: i32 = imath::asr(170 * q, 8);
    let l0 = fw_text(assets.fw);
    apps::draw_centered_codes(fb, l0.as_slice(), 172 + rise, q, assets.wheel.text);
    apps::draw_centered(fb, "ESP32-S3", 214 + rise, dim, assets.wheel.text);
    apps::draw_centered(fb, "466x466 CO5300", 256 + rise, dim, assets.wheel.text);
    let l3 = batt_text(batt);
    apps::draw_centered_codes(fb, l3.as_slice(), 298 + rise, dim, assets.wheel.text);
    let l4 = uptime_text(elapsed_ms);
    apps::draw_centered_codes(fb, l4.as_slice(), 340 + rise, dim, assets.wheel.text);
}

/// The slider's bar: azure up to the knob, ghosted beyond.
pub open spec fn bar_shader(pos: int, q: int) -> raster::Shader {
    |x: int, y: int, p: (u8, u8)|
        if x <= pos { vector::laid(p, AZURE, 230 * q / 256) } else { vector::laid(p, ICE, 70 * q / 256) }
}

/// The brightness row: its label, the bar with round ends, and the knob at the level.
pub open spec fn bright_row_on(fb: Seq<u8>, a: AppAssets, level: int, q: int, rise: int) -> Seq<u8> {
    let y = 195 + rise;
    let pos = apps::slider_pos(level);
    let fb1 = apps::centered_on(fb, a.wheel.text@, font::codes_of("Brightness"@), 165 + rise, 220 * q / 256);
    let fb2 = raster::shade(fb1, 143, y - 1, 324, y + 3, bar_shader(pos, q));
    let fb3 = vector::cap_on(fb2, 142, y + 1, 2, ICE, 70 * q / 256);
    let fb4 = vector::cap_on(fb3, 324, y + 1, 2, ICE, 70 * q / 256);
    vector::cap_on(fb4, pos, y + 1, 8, TITLE_WHITE, 255 * q / 256)
}

fn draw_bright_row(fb: &mut [u8], assets: &AppAssets, level: u8, q: i32, rise: i32)
    requires
        apps::assets_ok(*assets),
        0 <= q <= 256,
        0 <= rise <= 466,
    ensures
        final(fb)@ == bright_row_on(old(fb)@, *assets, level as int, q as int, rise as int),
{
    proof {
        reveal_strlit("Brightness");
    }
    apps::draw_centered(fb, "Brightness", 165 + rise, imath::asr(220 * q, 8), assets.wheel.text);
    let y: i32 = SLIDER_Y + rise;
    let pos: i32 = SLIDER_X0 + imath::iclamp(level as i32 - SLIDER_MIN, 0, 235) * SLIDER_W / 235;
    let full: i32 = imath::asr(230 * q, 8);
    let ghosted: i32 = imath::asr(70 * q, 8);
    let ghost sh = bar_shader(pos as int, q as int);
    let f = |x: i32, y: i32, p: (u8, u8)| -> (r: (u8, u8))
        ensures
            r == sh(x as int, y as int, p),
        {
            if x <= pos {
                vector::lay(p, AZURE, full)
            } else {
                vector::lay(p, ICE, ghosted)
            }
        };
    raster::paint(fb, SLIDER_X0, y - 1, SLIDER_X0 + SLIDER_W + 1, y + 3, f, Ghost(sh));
    vector::cap_dot(fb, SLIDER_X0 - 1, y + 1, 2, ICE, ghosted);
    vector::cap_dot(fb, SLIDER_X0 + SLIDER_W + 1, y + 1, 2, ICE, ghosted);
    vector::cap_dot(fb, pos, y + 1, 8, TITLE_WHITE, imath::asr(255 * q, 8));
}

/// The settings screen at opacity `q` of 256, `rise` pixels low.
pub open spec fn settings_on(
    fb: Seq<u8>,
    a: AppAssets,
    st: State,
    q: int,
    rise: int,
    batt: Option<u8>,
    elapsed_ms: int,
) -> Seq<u8> {
    if st.set_about {
        about_on(fb, a, q, rise, batt, elapsed_ms, 5)
    } else {
        apps::centered_on(
            apps::centered_on(
                bright_row_on(fb, a, st.set_level as int, q, rise),
                a.wheel.text@,
                font::codes_of("Display"@),
                244 + rise,
                220 * q / 256,
            ),
            a.wheel.text@,
            font::codes_of("About"@),
            308 + rise,
            220 * q / 256,
        )
    }
}

/// Draw the settings screen.
pub(crate) fn draw_settings(fb: &mut [u8], assets: &AppAssets, st: &State, q: i32, rise: i32, batt: Option<u8>, elapsed_ms: u32)
    requires
        apps::assets_ok(*assets),
        0 <= q <= 256,
        0 <= rise <= 466,
    ensures
        final(fb)@ == settings_on(old(fb)@, *assets, *st, q as int, rise as int, batt, elapsed_ms as int),
{
    if st.set_about {
        draw_about(fb, assets, q, rise, batt, elapsed_ms);
        return;
    }
    proof {
        reveal_strlit("Display");
        reveal_strlit("About");
    }
    draw_bright_row(fb, assets, st.set_level, q, rise);
    apps::draw_centered(fb, "Display", 244 + rise, imath::asr(220 * q, 8), assets.wheel.text);
    apps::draw_centered(fb, "About", 308 + rise, imath::asr(220 * q, 8), assets.wheel.text);
}

/// Live slider update: only the row's band is redrawn.
pub fn settings_set_level(wfb: &mut WatchFb, assets: &AppAssets, st: &mut State, level: u8)
    requires
        old(wfb).wf(),
        apps::assets_ok(*assets),
    ensures
        final(wfb).wf(),
        final(wfb).w() == old(wfb).w(),
        final(wfb).h() == old(wfb).h(),
        *final(st) == (State { set_level: level, ..*old(st) }),
        final(wfb).canvas() == bright_row_on(
            raster::shade(old(wfb).canvas(), 60, 135, 407, 214, raster::black()),
            *assets,
            level as int,
            256,
            0,
        ),
        final(wfb).damage() == watch_fb::marked(
            old(wfb).damage(),
            old(wfb).w(),
            old(wfb).h(),
            60,
            135,
            406,
            213,
        ),
{
    st.set_level = level;
    let fb = wfb.buf_mut();
    raster::fill_rect_black(fb, 60, 135, 406, 213);
    draw_bright_row(fb, assets, level, 256, 0);
    wfb.mark_rect(60, 135, 406, 213);
}

/// The About panel after a tap on row `y`; none where the tap means nothing.
pub open spec fn about_after(open: bool, y: int) -> Option<bool> {
    if open {
        Some(false)
    } else if 265 <= y <= 430 {
        Some(true)
    } else {
        None
    }
}

/// A tap on the settings screen: it opens the About panel from its row, and closes it from
/// anywhere.
pub fn settings_tap(wfb: &mut WatchFb, assets: &AppAssets, st: &mut State, y: i32, batt: Option<u8>, elapsed_ms: u32)
    requires
        old(wfb).wf(),
        apps::assets_ok(*assets),
    ensures
        final(wfb).wf(),
        final(wfb).w() == old(wfb).w(),
        final(wfb).h() == old(wfb).h(),
        match about_after(old(st).set_about, y as int) {
            None => {
                &&& *final(st) == *old(st)
                &&& final(wfb).canvas() == old(wfb).canvas()
                &&& final(wfb).damage() == old(wfb).damage()
            },
            Some(open) => {
                &&& *final(st) == (State { set_about: open, ..*old(st) })
                &&& final(wfb).canvas() == settings_on(
                    raster::shade(old(wfb).canvas(), 30, 110, 437, 361, raster::black()),
                    *assets,
                    *final(st),
                    256,
                    0,
                    batt,
                    elapsed_ms as int,
                )
                &&& final(wfb).damage() == watch_fb::marked(
                    old(wfb).damage(),
                    old(wfb).w(),
                    old(wfb).h(),
                    30,
                    110,
                    436,
                    360,
                )
            },
        },
{
    if st.set_about {
        st.set_about = false;
    } else if 110 <= y && y <= 430 && y >= 265 {
        st.set_about = true;
    } else {
        return;
    }
    let fb = wfb.buf_mut();
    raster::fill_rect_black(fb, 30, 110, 436, 360);
    draw_settings(fb, assets, st, 256, 0, batt, elapsed_ms);
    wfb.mark_rect(30, 110, 436, 360);
}

} // verus!
