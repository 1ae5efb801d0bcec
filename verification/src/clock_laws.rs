//! What a clock frame shows: time, date and the ring as far as it is swept.
use vstd::prelude::*;

use crate::clock;
use crate::clock::Sweep;
use crate::font;
use crate::font::Glyph;
use crate::raster;

verus! {

/// Samples that character `i` of a centred line sets under a pixel, of four.
pub open spec fn cover(atlas: Seq<Option<Glyph>>, s: Seq<u8>, base: int, scale: int, i: int, x: int, y: int) -> int {
    match font::glyph_of(atlas, s[i]) {
        Some(g) => {
            let dx = x - (233 - clock::pen(atlas, s, s.len() as int, scale) / 2) - clock::pen(atlas, s, i, scale);
            let dy = y - clock::top_of(g, base, scale);
            if 0 <= dx < (g.width + 1) / 2 * scale && 0 <= dy < (g.height + 1) / 2 * scale {
                clock::samples(g, dx, dy, scale)
            } else {
                0
            }
        },
        None => 0,
    }
}

/// No character of the line from `from` on covers the pixel.
pub open spec fn bare_from(
    atlas: Seq<Option<Glyph>>,
    s: Seq<u8>,
    base: int,
    scale: int,
    from: int,
    x: int,
    y: int,
) -> bool {
    forall|i: int| from <= i < s.len() ==> #[trigger] cover(atlas, s, base, scale, i, x, y) == 0
}

proof fn lemma_line(
    fb: Seq<u8>,
    atlas: Seq<Option<Glyph>>,
    s: Seq<u8>,
    base: int,
    fade: int,
    scale: int,
    n: int,
    k: int,
    x: int,
    y: int,
)
    requires
        raster::has_px(fb.len() as int, x, y),
        0 <= n <= s.len(),
        -1 <= k < n,
        k >= 0 ==> cover(atlas, s, base, scale, k, x, y) != 0,
        forall|i: int| k < i < n ==> #[trigger] cover(atlas, s, base, scale, i, x, y) == 0,
    ensures
        ({
            let r = clock::line_drawn(fb, atlas, s, base, fade, scale, n);
            &&& r.len() == fb.len()
            &&& raster::px_at(r, x, y) == (if k >= 0 {
                clock::ink(cover(atlas, s, base, scale, k, x, y), fade)
            } else {
                raster::px_at(fb, x, y)
            })
        }),
    decreases n,
{
    if n > 0 {
        let prev = clock::line_drawn(fb, atlas, s, base, fade, scale, n - 1);
        if k < n - 1 {
            lemma_line(fb, atlas, s, base, fade, scale, n - 1, k, x, y);
            assert(cover(atlas, s, base, scale, n - 1, x, y) == 0);
        } else {
            lemma_line_len(fb, atlas, s, base, fade, scale, n - 1);
        }
        match font::glyph_of(atlas, s[n - 1]) {
            Some(g) => {
                let ox = clock::line_x(atlas, s, scale) + clock::pen(atlas, s, n - 1, scale);
                let oy = clock::top_of(g, base, scale);
                let (w, h) = (
                    clock::drawn_side(g.width as int, scale),
                    clock::drawn_side(g.height as int, scale),
                );
                let sh = clock::glyph_shader(g, ox, oy, fade, scale);
                raster::lemma_shade_len(prev, ox, oy, ox + w, oy + h, sh);
                raster::lemma_shade_px(prev, ox, oy, ox + w, oy + h, sh, x, y);
            },
            None => {},
        }
    }
}

proof fn lemma_line_len(
    fb: Seq<u8>,
    atlas: Seq<Option<Glyph>>,
    s: Seq<u8>,
    base: int,
    fade: int,
    scale: int,
    n: int,
)
    ensures
        clock::line_drawn(fb, atlas, s, base, fade, scale, n).len() == fb.len(),
    decreases n,
{
    if n > 0 {
        lemma_line_len(fb, atlas, s, base, fade, scale, n - 1);
        let prev = clock::line_drawn(fb, atlas, s, base, fade, scale, n - 1);
        match font::glyph_of(atlas, s[n - 1]) {
            Some(g) => {
                let ox = clock::line_x(atlas, s, scale) + clock::pen(atlas, s, n - 1, scale);
                let oy = clock::top_of(g, base, scale);
                let (w, h) = (
                    clock::drawn_side(g.width as int, scale),
                    clock::drawn_side(g.height as int, scale),
                );
                raster::lemma_shade_len(
                    prev,
                    ox,
                    oy,
                    ox + w,
                    oy + h,
                    clock::glyph_shader(g, ox, oy, fade, scale),
                );
            },
            None => {},
        }
    }
}

/// A frame shows the date on baseline 303 and, where the date does not cover, the time on
/// baseline 238 at three times the size, in the ink of their coverage at the fade; the rest of
/// the text's bounds is black, and outside them the ring is as it was drawn.
pub proof fn lemma_clock_text_shows(
    fb: Seq<u8>,
    atlas: Seq<Option<Glyph>>,
    elapsed: int,
    fade: int,
    k: int,
    x: int,
    y: int,
)
    requires
        raster::has_px(fb.len() as int, x, y),
    ensures
        ({
            let q = raster::px_at(clock::text_redrawn(fb, atlas, elapsed, fade), x, y);
            let t = clock::time_codes(clock::hour_of(elapsed), clock::minute_of(elapsed));
            let d = clock::date_codes();
            let no_date = bare_from(atlas, d, 303, 1, 0, x, y);
            let b = clock::text_bounds(atlas);
            &&& 0 <= k < d.len() && cover(atlas, d, 303, 1, k, x, y) != 0 && bare_from(atlas, d, 303, 1, k + 1, x, y) ==> q
                == clock::ink(cover(atlas, d, 303, 1, k, x, y), fade)
            &&& no_date && 0 <= k < t.len() && cover(atlas, t, 238, 3, k, x, y) != 0 && bare_from(
                atlas,
                t,
                238,
                3,
                k + 1,
                x,
                y,
            ) ==> q == clock::ink(cover(atlas, t, 238, 3, k, x, y), fade)
            &&& no_date && bare_from(atlas, t, 238, 3, 0, x, y) ==> q == (if b.x0 <= x <= b.x1 && b.y0 <= y <= b.y1 {
                (0u8, 0u8)
            } else {
                raster::px_at(fb, x, y)
            })
        }),
{
    let b = clock::text_bounds(atlas);
    let (x0, y0, x1, y1) = (b.x0 as int, b.y0 as int, b.x1 + 1, b.y1 + 1);
    raster::lemma_shade_len(fb, x0, y0, x1, y1, raster::black());
    raster::lemma_shade_px(fb, x0, y0, x1, y1, raster::black(), x, y);
    let f0 = raster::shade(fb, x0, y0, x1, y1, raster::black());
    let t = clock::time_codes(clock::hour_of(elapsed), clock::minute_of(elapsed));
    let d = clock::date_codes();
    let (n, m) = (t.len() as int, d.len() as int);
    lemma_line_len(f0, atlas, t, 238, fade, 3, n);
    let f1 = clock::text_drawn(f0, atlas, t, 238, fade, 3);
    if 0 <= k < m && cover(atlas, d, 303, 1, k, x, y) != 0 && bare_from(atlas, d, 303, 1, k + 1, x, y) {
        lemma_line(f1, atlas, d, 303, fade, 1, m, k, x, y);
    }
    if bare_from(atlas, d, 303, 1, 0, x, y) {
        lemma_line(f1, atlas, d, 303, fade, 1, m, -1, x, y);
        if 0 <= k < n && cover(atlas, t, 238, 3, k, x, y) != 0 && bare_from(atlas, t, 238, 3, k + 1, x, y) {
            lemma_line(f0, atlas, t, 238, fade, 3, n, k, x, y);
        }
        if bare_from(atlas, t, 238, 3, 0, x, y) {
            lemma_line(f0, atlas, t, 238, fade, 3, n, -1, x, y);
        }
    }
}

/// The stamp of a tap holds the pixel.
pub open spec fn under_tap(off: u32, x: int, y: int) -> bool {
    -1 <= x - off as int / 2 % 466 <= 1 && -1 <= y - off as int / 2 / 466 <= 1
}

proof fn lemma_stroked(fb: Seq<u8>, list: Seq<u32>, a: int, b: int, p: (u8, u8), x: int, y: int)
    requires
        raster::has_px(fb.len() as int, x, y),
        0 <= a,
        b <= list.len(),
    ensures
        ({
            let r = clock::stroked(fb, list, a, b, p);
            &&& r.len() == fb.len()
            &&& (exists|i: int| a <= i < b && under_tap(#[trigger] list[i], x, y)) ==> raster::px_at(r, x, y) == p
            &&& (forall|i: int| a <= i < b ==> !under_tap(#[trigger] list[i], x, y)) ==> raster::px_at(r, x, y)
                == raster::px_at(fb, x, y)
        }),
    decreases b - a,
{
    if a < b {
        lemma_stroked(fb, list, a, b - 1, p, x, y);
        let prev = clock::stroked(fb, list, a, b - 1, p);
        let off = list[b - 1];
        let (cx, cy) = (clock::col_of(off), clock::row_of(off));
        raster::lemma_shade_len(prev, cx - 1, cy - 1, cx + 2, cy + 2, clock::solid(p));
        raster::lemma_shade_px(prev, cx - 1, cy - 1, cx + 2, cy + 2, clock::solid(p), x, y);
        if (exists|i: int| a <= i < b && under_tap(#[trigger] list[i], x, y)) && !under_tap(off, x, y) {
            let i = choose|i: int| a <= i < b && under_tap(#[trigger] list[i], x, y);
            assert(a <= i < b - 1 && under_tap(list[i], x, y));
        }
    }
}

/// A growing ring lights its new taps, a shrinking one blacks out those it gives up, and
/// neither touches a pixel that none of them reaches.
pub proof fn lemma_ring_moves(fb: Seq<u8>, list: Seq<u32>, from: int, to: int, p: (u8, u8), i: int, x: int, y: int)
    requires
        raster::has_px(fb.len() as int, x, y),
        0 <= from <= list.len(),
        0 <= to <= list.len(),
    ensures
        ({
            let q = raster::px_at(clock::ring_moved(fb, list, from, to, p), x, y);
            &&& from <= i < to && under_tap(list[i], x, y) ==> q == p
            &&& to <= i < from && under_tap(list[i], x, y) ==> q == (0u8, 0u8)
            &&& from == to ==> q == raster::px_at(fb, x, y)
        }),
{
    if to > from {
        lemma_stroked(fb, list, from, to, p, x, y);
    } else {
        lemma_stroked(fb, list, to, from, (0u8, 0u8), x, y);
    }
}

/// Hour and minute of the running time: together with what is left of the minute they are the
/// seconds of the day.
pub proof fn lemma_hour_minute(ms: int)
    requires
        ms >= 0,
    ensures
        0 <= clock::hour_of(ms) < 24,
        0 <= clock::minute_of(ms) < 60,
        ms / 1000 % 86_400 == clock::hour_of(ms) * 3600 + clock::minute_of(ms) * 60 + ms / 1000 % 60,
{
    let s = ms / 1000;
    let (m, h) = (s / 60, s / 3600);
    assert(m / 60 == h);
    assert(s == 60 * m + s % 60);
    assert(m == 60 * h + m % 60);
    let d = h / 24;
    assert(h == 24 * d + h % 24);
    let r = (h % 24) * 3600 + (m % 60) * 60 + s % 60;
    assert(s == 86_400 * d + r);
    assert(0 <= r < 86_400);
}

/// The ring's movements in a minute: it sweeps in at start-up, is undrawn for three and a half
/// seconds after a new minute, redrawn for as long, and rests.
pub proof fn lemma_sweeps(elapsed: int, change: int)
    requires
        0 <= change <= elapsed,
        elapsed <= 0xffff_ffff,
    ensures
        ({
            let s = clock::sweep_of(elapsed, change);
            let since = elapsed - change;
            let first = elapsed < 8000 && change < 100;
            &&& first ==> (s matches Sweep::Initial(t) && t == elapsed)
            &&& !first && since < 3500 ==> (s matches Sweep::Undraw(t) && t == since)
            &&& !first && 3500 <= since < 7000 ==> (s matches Sweep::Redraw(t) && t == since - 3500)
            &&& !first && since >= 7000 ==> s is Still
        }),
{
}

/// Letters step by half their advance, rounded up, for each unit of scale, and a code without a
/// glyph takes no room.
pub proof fn lemma_step(atlas: Seq<Option<Glyph>>, c: u8, scale: int)
    ensures
        ({
            let one = clock::step_of(atlas, c, 1);
            &&& font::glyph_of(atlas, c) is None ==> clock::step_of(atlas, c, scale) == 0
            &&& font::glyph_of(atlas, c) matches Some(g) ==> g.advance <= 2 * one <= g.advance + 1
            &&& clock::step_of(atlas, c, scale) == one * scale
        }),
{
    assert(0 * scale == 0);
}

} // verus!
