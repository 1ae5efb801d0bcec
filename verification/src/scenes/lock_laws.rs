//! What the lock screen shows: each covered pixel of the time and of the date has the text
//! colour of its coverage, and nothing else of the text box is lit.
use vstd::prelude::*;

use crate::font;
use crate::font::Glyph;
use crate::font_laws;
use crate::imath;
use crate::pixel;
use crate::raster;
use crate::scenes::arc;
use crate::scenes::lock;
use crate::scenes::lock::{Clock, LockAssets};
use crate::scenes::lock_damage;
use crate::scenes::ring;
use crate::time::WallTime;

verus! {

/// The pixel shows character `k` of the line at `left` on baseline `base`.
pub open spec fn shows(
    fb: Seq<u8>,
    font: Seq<Option<Glyph>>,
    s: Seq<u8>,
    left: int,
    base: int,
    k: int,
    fade: int,
    x: int,
    y: int,
) -> bool {
    raster::px_at(fb, x, y) == lock::text_color(font_laws::coverage(font, s, left, base, k, x, y), fade)
}

/// A drawn line shows the last character that covers a pixel, and leaves a pixel that none
/// covers.
proof fn lemma_line(
    fb: Seq<u8>,
    font: Seq<Option<Glyph>>,
    s: Seq<u8>,
    n: int,
    left: int,
    base: int,
    fade: int,
    clip: int,
    k: int,
    x: int,
    y: int,
)
    requires
        raster::has_px(fb.len() as int, x, y),
        0 <= n <= s.len(),
        -1 <= k < n,
        k >= 0 ==> y < clip && font_laws::coverage(font, s, left, base, k, x, y) != 0,
        forall|i: int| k < i < n ==> #[trigger] font_laws::coverage(font, s, left, base, i, x, y) == 0,
    ensures
        ({
            let r = lock::face_line_on(fb, font, s, n, left, base, fade, clip);
            &&& r.len() == fb.len()
            &&& k >= 0 ==> shows(r, font, s, left, base, k, fade, x, y)
            &&& k < 0 ==> raster::px_at(r, x, y) == raster::px_at(fb, x, y)
        }),
    decreases n,
{
    if n > 0 {
        let prev = lock::face_line_on(fb, font, s, n - 1, left, base, fade, clip);
        if k < n - 1 {
            lemma_line(fb, font, s, n - 1, left, base, fade, clip, k, x, y);
            assert(font_laws::coverage(font, s, left, base, n - 1, x, y) == 0);
        } else {
            lemma_line_len(fb, font, s, n - 1, left, base, fade, clip);
        }
        match font::glyph_of(font, s[n - 1]) {
            Some(g) => {
                let ox = left + font::pen(font, s, n - 1);
                let oy = base - (g.height + g.ymin);
                let y1 = imath::smin(oy + g.height, clip);
                let sh = lock::face_glyph_shader(g, ox, oy, fade);
                raster::lemma_shade_len(prev, ox, oy, ox + g.width, y1, sh);
                raster::lemma_shade_px(prev, ox, oy, ox + g.width, y1, sh, x, y);
            },
            None => {},
        }
    }
}

proof fn lemma_line_len(
    fb: Seq<u8>,
    font: Seq<Option<Glyph>>,
    s: Seq<u8>,
    n: int,
    left: int,
    base: int,
    fade: int,
    clip: int,
)
    ensures
        lock::face_line_on(fb, font, s, n, left, base, fade, clip).len() == fb.len(),
    decreases n,
{
    if n > 0 {
        lemma_line_len(fb, font, s, n - 1, left, base, fade, clip);
        let prev = lock::face_line_on(fb, font, s, n - 1, left, base, fade, clip);
        match font::glyph_of(font, s[n - 1]) {
            Some(g) => {
                let ox = left + font::pen(font, s, n - 1);
                let oy = base - (g.height + g.ymin);
                raster::lemma_shade_len(
                    prev,
                    ox,
                    oy,
                    ox + g.width,
                    imath::smin(oy + g.height, clip),
                    lock::face_glyph_shader(g, ox, oy, fade),
                );
            },
            None => {},
        }
    }
}

/// The text of the face: a pixel that a character of the date covers shows it, a pixel that
/// the time covers and the date does not shows the time, and any other pixel is kept.
proof fn lemma_face_text(fb: Seq<u8>, a: LockAssets, now: WallTime, fade: int, tl: int, dl: int, k: int, x: int, y: int)
    requires
        raster::has_px(fb.len() as int, x, y),
        font_laws::centred(tl, font::width_of(a.time@, lock::time_codes(now.hour, now.minute))),
        font_laws::centred(dl, font::width_of(a.text@, lock::date_codes(now))),
    ensures
        ({
            let (t, date) = (lock::time_codes(now.hour, now.minute), lock::date_codes(now));
            let r = lock::face_on(fb, a, now.hour, now.minute, date, fade);
            let no_date = font_laws::clear_from(a.text@, date, dl, 303, 0, x, y);
            &&& r.len() == fb.len()
            &&& 0 <= k < date.len() && font_laws::coverage(a.text@, date, dl, 303, k, x, y) != 0 && font_laws::clear_from(
                a.text@,
                date,
                dl,
                303,
                k + 1,
                x,
                y,
            ) ==> shows(r, a.text@, date, dl, 303, k, fade, x, y)
            &&& no_date && 0 <= k < t.len() && font_laws::coverage(a.time@, t, tl, 238, k, x, y) != 0 && font_laws::clear_from(
                a.time@,
                t,
                tl,
                238,
                k + 1,
                x,
                y,
            ) ==> shows(r, a.time@, t, tl, 238, k, fade, x, y)
            &&& no_date && font_laws::clear_from(a.time@, t, tl, 238, 0, x, y) ==> raster::px_at(r, x, y) == raster::px_at(fb, x, y)
        }),
{
    let (t, date) = (lock::time_codes(now.hour, now.minute), lock::date_codes(now));
    let (n, m) = (t.len() as int, date.len() as int);
    assert(tl == 233 - font::width_of(a.time@, t) / 2 + 0);
    assert(dl == 233 - font::width_of(a.text@, date) / 2 + 0);
    let f1 = lock::face_line_on(fb, a.time@, t, n, tl, 238, fade, 466);
    lemma_line_len(fb, a.time@, t, n, tl, 238, fade, 466);
    lemma_line_len(f1, a.text@, date, m, dl, 303, fade, 466);
    if 0 <= k < m && font_laws::coverage(a.text@, date, dl, 303, k, x, y) != 0 && font_laws::clear_from(a.text@, date, dl, 303, k + 1, x, y) {
        lemma_line(f1, a.text@, date, m, dl, 303, fade, 466, k, x, y);
    }
    if font_laws::clear_from(a.text@, date, dl, 303, 0, x, y) {
        lemma_line(f1, a.text@, date, m, dl, 303, fade, 466, -1, x, y);
        if 0 <= k < n && font_laws::coverage(a.time@, t, tl, 238, k, x, y) != 0 && font_laws::clear_from(a.time@, t, tl, 238, k + 1, x, y) {
            lemma_line(fb, a.time@, t, n, tl, 238, fade, 466, k, x, y);
        }
        if font_laws::clear_from(a.time@, t, tl, 238, 0, x, y) {
            lemma_line(fb, a.time@, t, n, tl, 238, fade, 466, -1, x, y);
        }
    }
}

/// After a frame that changed the text, each pixel that a glyph of the date line covers,
/// centred on baseline 303, has the text colour of that coverage at the current fade.
pub proof fn lemma_date_is_shown(
    c: Clock,
    a: LockAssets,
    fb: Seq<u8>,
    elapsed_ms: int,
    now: WallTime,
    left: int,
    k: int,
    x: int,
    y: int,
)
    requires
        lock::clock_ok(c),
        lock::lock_assets_ok(a),
        raster::has_px(fb.len() as int, x, y),
        c.last_text != lock::text_key(now, lock::text_fade(elapsed_ms)),
        font_laws::centred(left, font::width_of(a.text@, lock::date_codes(now))),
        0 <= k < lock::date_codes(now).len(),
        font_laws::coverage(a.text@, lock::date_codes(now), left, 303, k, x, y) != 0,
        font_laws::clear_from(a.text@, lock::date_codes(now), left, 303, k + 1, x, y),
    ensures
        shows(
            lock_damage::lock_canvas(c, a, fb, elapsed_ms, now),
            a.text@,
            lock::date_codes(now),
            left,
            303,
            k,
            lock::text_fade(elapsed_ms),
            x,
            y,
        ),
{
    let g = lemma_cleared(c, a, fb, now, x, y);
    let tl = 233 - font::width_of(a.time@, lock::time_codes(now.hour, now.minute)) / 2;
    lemma_face_text(g, a, now, lock::text_fade(elapsed_ms), tl, left, k, x, y);
}

/// Likewise each pixel that a glyph of the HH:MM line covers, centred on baseline 238, where
/// the date does not cover it.
pub proof fn lemma_time_is_shown(
    c: Clock,
    a: LockAssets,
    fb: Seq<u8>,
    elapsed_ms: int,
    now: WallTime,
    left: int,
    date_left: int,
    k: int,
    x: int,
    y: int,
)
    requires
        lock::clock_ok(c),
        lock::lock_assets_ok(a),
        raster::has_px(fb.len() as int, x, y),
        c.last_text != lock::text_key(now, lock::text_fade(elapsed_ms)),
        font_laws::centred(left, font::width_of(a.time@, lock::time_codes(now.hour, now.minute))),
        font_laws::centred(date_left, font::width_of(a.text@, lock::date_codes(now))),
        font_laws::clear_from(a.text@, lock::date_codes(now), date_left, 303, 0, x, y),
        0 <= k < 5,
        font_laws::coverage(a.time@, lock::time_codes(now.hour, now.minute), left, 238, k, x, y) != 0,
        font_laws::clear_from(a.time@, lock::time_codes(now.hour, now.minute), left, 238, k + 1, x, y),
    ensures
        shows(
            lock_damage::lock_canvas(c, a, fb, elapsed_ms, now),
            a.time@,
            lock::time_codes(now.hour, now.minute),
            left,
            238,
            k,
            lock::text_fade(elapsed_ms),
            x,
            y,
        ),
{
    let g = lemma_cleared(c, a, fb, now, x, y);
    lemma_face_text(g, a, now, lock::text_fade(elapsed_ms), left, date_left, k, x, y);
}

/// What neither line covers is black inside the box of the old text, and outside it as the
/// ring left it.
pub proof fn lemma_old_text_is_gone(
    c: Clock,
    a: LockAssets,
    fb: Seq<u8>,
    elapsed_ms: int,
    now: WallTime,
    left: int,
    date_left: int,
    x: int,
    y: int,
)
    requires
        lock::clock_ok(c),
        lock::lock_assets_ok(a),
        raster::has_px(fb.len() as int, x, y),
        c.last_text != lock::text_key(now, lock::text_fade(elapsed_ms)),
        font_laws::centred(left, font::width_of(a.time@, lock::time_codes(now.hour, now.minute))),
        font_laws::centred(date_left, font::width_of(a.text@, lock::date_codes(now))),
        font_laws::clear_from(a.text@, lock::date_codes(now), date_left, 303, 0, x, y),
        font_laws::clear_from(a.time@, lock::time_codes(now.hour, now.minute), left, 238, 0, x, y),
    ensures
        ({
            let b = c.last_text_bbox;
            let q = raster::px_at(lock_damage::lock_canvas(c, a, fb, elapsed_ms, now), x, y);
            if b.0 <= x <= b.2 && b.1 <= y <= b.3 {
                q == (0u8, 0u8)
            } else {
                q == raster::px_at(lock::ring_part(c, a, fb, now.minute).1.fb, x, y)
            }
        }),
{
    let g = lemma_cleared(c, a, fb, now, x, y);
    lemma_face_text(g, a, now, lock::text_fade(elapsed_ms), left, date_left, 0, x, y);
}

/// The canvas with the old text cleared.
proof fn lemma_cleared(c: Clock, a: LockAssets, fb: Seq<u8>, now: WallTime, x: int, y: int) -> (g: Seq<u8>)
    requires
        lock::clock_ok(c),
        lock::lock_assets_ok(a),
        raster::has_px(fb.len() as int, x, y),
    ensures
        ({
            let b = c.last_text_bbox;
            let r = lock::ring_part(c, a, fb, now.minute).1.fb;
            &&& g == lock::rect_cleared(r, b.0 as int, b.1 as int, b.2 as int, b.3 as int)
            &&& g.len() == fb.len()
            &&& raster::px_at(g, x, y) == (if b.0 <= x <= b.2 && b.1 <= y <= b.3 {
                (0u8, 0u8)
            } else {
                raster::px_at(r, x, y)
            })
        }),
{
    let b = c.last_text_bbox;
    let k = lock::ring_part(c, a, fb, now.minute).1;
    lock_damage::lemma_ring_part(c, a, fb, now.minute, x, y);
    let g = lock::rect_cleared(k.fb, b.0 as int, b.1 as int, b.2 as int, b.3 as int);
    lock_damage::lemma_clear(k.fb, b, x, y);
    if b.0 <= x <= b.2 && b.1 <= y <= b.3 {
        let i = raster::slot(x, y);
        raster::lemma_slot(x, y);
        let p = y * 466 + x;
        assert(lock::row_has(y, b.0 as int, b.2 as int, p));
        assert(lock::in_rect(k.fb.len() as int, b.0 as int, b.1 as int, b.2 as int, b.3 as int, i));
        assert(lock::in_rect(k.fb.len() as int, b.0 as int, b.1 as int, b.2 as int, b.3 as int, i + 1));
    }
    g
}

/// A freshly painted scene shows time and date at full brightness, and the resting ring where
/// neither line covers.
pub proof fn lemma_repaint_shows(a: LockAssets, now: WallTime, left: int, date_left: int, k: int, x: int, y: int)
    requires
        0 <= x < 466,
        0 <= y < 466,
        font_laws::centred(left, font::width_of(a.time@, lock::time_codes(now.hour, now.minute))),
        font_laws::centred(date_left, font::width_of(a.text@, lock::date_codes(now))),
    ensures
        ({
            let (t, date) = (lock::time_codes(now.hour, now.minute), lock::date_codes(now));
            let r = lock::fresh_face(434_312, a, now);
            let no_date = font_laws::clear_from(a.text@, date, date_left, 303, 0, x, y);
            &&& 0 <= k < date.len() && font_laws::coverage(a.text@, date, date_left, 303, k, x, y) != 0 && font_laws::clear_from(
                a.text@,
                date,
                date_left,
                303,
                k + 1,
                x,
                y,
            ) ==> shows(r, a.text@, date, date_left, 303, k, 16_384, x, y)
            &&& no_date && 0 <= k < t.len() && font_laws::coverage(a.time@, t, left, 238, k, x, y) != 0 && font_laws::clear_from(
                a.time@,
                t,
                left,
                238,
                k + 1,
                x,
                y,
            ) ==> shows(r, a.time@, t, left, 238, k, 16_384, x, y)
            &&& no_date && font_laws::clear_from(a.time@, t, left, 238, 0, x, y) ==> raster::px_at(r, x, y) == raster::px_at(
                lock_damage::bare_ring(),
                x,
                y,
            )
        }),
{
    raster::lemma_shade_len(
        Seq::new(434_312, |i: int| 0u8),
        0,
        0,
        466,
        466,
        ring::sel_shader(ring::ring_sel(), arc::ring_val(256), 217_156),
    );
    lemma_face_text(lock_damage::bare_ring(), a, now, 16_384, left, date_left, k, x, y);
}

/// The always-on frame is the time at full brightness, drifted, on black: no ring, no date.
pub proof fn lemma_always_on(a: LockAssets, now: WallTime, left: int, k: int, x: int, y: int)
    requires
        0 <= x < 466,
        0 <= y < 466,
        font_laws::centred(left, font::width_of(a.time@, lock::time_codes(now.hour, now.minute))),
    ensures
        ({
            let t = lock::time_codes(now.hour, now.minute);
            let r = lock::always_on(434_312, a, now);
            let (dx, dy) = lock::drift(now.minute as int);
            let (l, b) = (left + dx, 238 + dy);
            &&& 0 <= k < t.len() && font_laws::coverage(a.time@, t, l, b, k, x, y) != 0 && font_laws::clear_from(a.time@, t, l, b, k + 1, x, y)
                ==> shows(r, a.time@, t, l, b, k, 16_384, x, y)
            &&& font_laws::clear_from(a.time@, t, l, b, 0, x, y) ==> raster::px_at(r, x, y) == (0u8, 0u8)
            &&& -6 <= dx <= 6 && -6 <= dy <= 6
        }),
{
    let t = lock::time_codes(now.hour, now.minute);
    let (dx, dy) = lock::drift(now.minute as int);
    let (l, b) = (left + dx, 238 + dy);
    let black = Seq::new(434_312, |i: int| 0u8);
    assert(left == 233 - font::width_of(a.time@, t) / 2);
    if 0 <= k < t.len() && font_laws::coverage(a.time@, t, l, b, k, x, y) != 0 && font_laws::clear_from(a.time@, t, l, b, k + 1, x, y) {
        lemma_line(black, a.time@, t, t.len() as int, l, b, 16_384, 466, k, x, y);
    }
    if font_laws::clear_from(a.time@, t, l, b, 0, x, y) {
        lemma_line(black, a.time@, t, t.len() as int, l, b, 16_384, 466, -1, x, y);
    }
}

/// The time stands elsewhere in each of eight minutes, and comes back after them.
pub proof fn lemma_drift(a: int, b: int)
    requires
        0 <= a,
        0 <= b,
    ensures
        lock::drift(a) == lock::drift(b) <==> a % 8 == b % 8,
        lock::drift(a + 8) == lock::drift(a),
        lock::drift(0) == (0int, 0int),
{
}

/// Text that slides with the sheet shows the same characters, shifted down, above the edge.
pub proof fn lemma_sliding_text(
    fb: Seq<u8>,
    a: LockAssets,
    now: WallTime,
    shift: int,
    clip: int,
    left: int,
    date_left: int,
    k: int,
    x: int,
    y: int,
)
    requires
        raster::has_px(fb.len() as int, x, y),
        font_laws::centred(left, font::width_of(a.time@, lock::time_codes(now.hour, now.minute))),
        font_laws::centred(date_left, font::width_of(a.text@, lock::date_codes(now))),
    ensures
        ({
            let (t, date) = (lock::time_codes(now.hour, now.minute), lock::date_codes(now));
            let r = lock::sliding_text(fb, a, now, shift, clip);
            let (tb, db) = (238 + shift, 303 + shift);
            let no_date = font_laws::clear_from(a.text@, date, date_left, db, 0, x, y);
            &&& y >= clip ==> raster::px_at(r, x, y) == raster::px_at(fb, x, y)
            &&& y < clip && 0 <= k < date.len() && font_laws::coverage(a.text@, date, date_left, db, k, x, y) != 0 && font_laws::clear_from(
                a.text@,
                date,
                date_left,
                db,
                k + 1,
                x,
                y,
            ) ==> shows(r, a.text@, date, date_left, db, k, 16_384, x, y)
            &&& y < clip && no_date && 0 <= k < t.len() && font_laws::coverage(a.time@, t, left, tb, k, x, y) != 0 && font_laws::clear_from(
                a.time@,
                t,
                left,
                tb,
                k + 1,
                x,
                y,
            ) ==> shows(r, a.time@, t, left, tb, k, 16_384, x, y)
            &&& no_date && font_laws::clear_from(a.time@, t, left, tb, 0, x, y) ==> raster::px_at(r, x, y) == raster::px_at(fb, x, y)
        }),
{
    let (t, date) = (lock::time_codes(now.hour, now.minute), lock::date_codes(now));
    let (n, m) = (t.len() as int, date.len() as int);
    let (tb, db) = (238 + shift, 303 + shift);
    assert(left == 233 - font::width_of(a.time@, t) / 2 + 0);
    assert(date_left == 233 - font::width_of(a.text@, date) / 2 + 0);
    let f1 = lock::face_line_on(fb, a.time@, t, n, left, tb, 16_384, clip);
    lemma_line_len(fb, a.time@, t, n, left, tb, 16_384, clip);
    if y >= clip {
        lemma_line_clip(fb, a.time@, t, n, left, tb, 16_384, clip, x, y);
        lemma_line_clip(f1, a.text@, date, m, date_left, db, 16_384, clip, x, y);
    } else if 0 <= k < m && font_laws::coverage(a.text@, date, date_left, db, k, x, y) != 0 && font_laws::clear_from(
        a.text@,
        date,
        date_left,
        db,
        k + 1,
        x,
        y,
    ) {
        lemma_line(f1, a.text@, date, m, date_left, db, 16_384, clip, k, x, y);
    }
    if font_laws::clear_from(a.text@, date, date_left, db, 0, x, y) {
        lemma_line(f1, a.text@, date, m, date_left, db, 16_384, clip, -1, x, y);
        if y < clip && 0 <= k < n && font_laws::coverage(a.time@, t, left, tb, k, x, y) != 0 && font_laws::clear_from(
            a.time@,
            t,
            left,
            tb,
            k + 1,
            x,
            y,
        ) {
            lemma_line(fb, a.time@, t, n, left, tb, 16_384, clip, k, x, y);
        }
        if font_laws::clear_from(a.time@, t, left, tb, 0, x, y) {
            lemma_line(fb, a.time@, t, n, left, tb, 16_384, clip, -1, x, y);
        }
    }
}

proof fn lemma_line_clip(
    fb: Seq<u8>,
    font: Seq<Option<Glyph>>,
    s: Seq<u8>,
    n: int,
    left: int,
    base: int,
    fade: int,
    clip: int,
    x: int,
    y: int,
)
    requires
        raster::has_px(fb.len() as int, x, y),
        y >= clip,
    ensures
        raster::px_at(lock::face_line_on(fb, font, s, n, left, base, fade, clip), x, y) == raster::px_at(fb, x, y),
    decreases n,
{
    if n > 0 {
        lemma_line_clip(fb, font, s, n - 1, left, base, fade, clip, x, y);
        lemma_line_len(fb, font, s, n - 1, left, base, fade, clip);
        let prev = lock::face_line_on(fb, font, s, n - 1, left, base, fade, clip);
        match font::glyph_of(font, s[n - 1]) {
            Some(g) => {
                let ox = left + font::pen(font, s, n - 1);
                let oy = base - (g.height + g.ymin);
                raster::lemma_shade_px(
                    prev,
                    ox,
                    oy,
                    ox + g.width,
                    imath::smin(oy + g.height, clip),
                    lock::face_glyph_shader(g, ox, oy, fade),
                    x,
                    y,
                );
            },
            None => {},
        }
    }
}

/// The text colour: black at no fade, never darker with more coverage or a further fade, and
/// near white at full coverage and full fade.
pub proof fn lemma_text_color(a: int, b: int, f: int, g: int)
    requires
        0 <= a <= b <= 15,
        0 <= f <= g <= 16_384,
    ensures
        ({
            let (p, q) = (lock::text_color(a, f), lock::text_color(b, g));
            &&& pixel::red(p) <= pixel::red(q)
            &&& pixel::green(p) <= pixel::green(q)
            &&& pixel::blue(p) <= pixel::blue(q)
        }),
        lock::text_color(a, 0) == pixel::rgb(0, 0, 0),
        lock::text_color(0, f) == pixel::rgb(0, 0, 0),
        lock::text_color(15, 16_384) == pixel::rgb888(239, 239, 244),
{
    lemma_text_level(240, a, b, f, g);
    lemma_text_level(245, a, b, f, g);
    let v = |w: int, c: int, k: int| w * k * (c * 17) / 4_194_304;
    assert(240 * 0 * (a * 17) == 0 && 245 * 0 * (a * 17) == 0) by (nonlinear_arith);
    assert(240 * f * (0 * 17) == 0 && 245 * f * (0 * 17) == 0) by (nonlinear_arith);
    assert(240 * 16_384int * (15 * 17) / 4_194_304 == 239 && 245 * 16_384int * (15 * 17) / 4_194_304 == 244)
        by (nonlinear_arith);
    pixel::lemma_rgb(v(240, a, f) * 31 / 255, v(240, a, f) * 63 / 255, v(245, a, f) * 31 / 255);
    pixel::lemma_rgb(v(240, b, g) * 31 / 255, v(240, b, g) * 63 / 255, v(245, b, g) * 31 / 255);
}

proof fn lemma_text_level(w: int, a: int, b: int, f: int, g: int)
    requires
        0 <= w <= 255,
        0 <= a <= b <= 15,
        0 <= f <= g <= 16_384,
    ensures
        0 <= w * f * (a * 17) / 4_194_304 <= w * g * (b * 17) / 4_194_304 <= 255,
{
    assert(0 <= w * f <= w * g && w * g <= w * 16_384) by (nonlinear_arith)
        requires
            0 <= f <= g <= 16_384,
            0 <= w,
    ;
    let (u, v) = (w * f, w * g);
    assert(0 <= u * (a * 17) <= v * (b * 17) && v * (b * 17) <= v * 255) by (nonlinear_arith)
        requires
            0 <= u <= v,
            0 <= a <= b <= 15,
    ;
}

/// The text fades in: from nothing at start-up, never back, by at most one of 32 steps off
/// the even rise, to full after 2400 ms.
pub proof fn lemma_text_fade(s: int, t: int)
    requires
        0 <= s <= t,
    ensures
        0 <= lock::text_fade(s) <= lock::text_fade(t) <= 16_384,
        lock::text_fade(0) == 0,
        t >= 2400 ==> lock::text_fade(t) == 16_384,
        t < 2400 ==> lock::text_fade(t) * 2400 <= t * 16_384 <= lock::text_fade(t) * 2400 + 512 * 2400,
{
}

/// The time reads HH:MM in two digits each.
pub proof fn lemma_time_reads(h: u8, m: u8)
    requires
        h < 100,
        m < 100,
    ensures
        ({
            let s = lock::time_codes(h, m);
            &&& s.len() == 5
            &&& 48 <= s[0] <= 57 && 48 <= s[1] <= 57 && s[2] == 58 && 48 <= s[3] <= 57 && 48 <= s[4] <= 57
            &&& (s[0] - 48) * 10 + (s[1] - 48) == h
            &&& (s[3] - 48) * 10 + (s[4] - 48) == m
        }),
{
}

/// The date reads month, day with its ordinal, year: "July 7th 2026".
pub proof fn lemma_date_reads(now: WallTime)
    requires
        1 <= now.day <= 31,
        now.year < 10_000,
    ensures
        ({
            let s = lock::date_codes(now);
            let name = lock::month_name(now.month as int);
            let n = name.len() as int;
            let d: int = if now.day < 10 { n + 2 } else { n + 3 };
            let th = now.day / 10 == 1 || now.day % 10 == 0 || now.day % 10 >= 4;
            &&& s.len() == d + 7
            &&& s.take(n) == font::codes_of(name)
            &&& s[n] == 32
            &&& now.day < 10 ==> s[n + 1] - 48 == now.day
            &&& now.day >= 10 ==> (s[n + 1] - 48) * 10 + (s[n + 2] - 48) == now.day && s[n + 2] >= 48 && s[n + 2] <= 57
            &&& th ==> s[d] == 116 && s[d + 1] == 104
            &&& !th && now.day % 10 == 1 ==> s[d] == 115 && s[d + 1] == 116
            &&& !th && now.day % 10 == 2 ==> s[d] == 110 && s[d + 1] == 100
            &&& !th && now.day % 10 == 3 ==> s[d] == 114 && s[d + 1] == 100
            &&& s[d + 2] == 32
            &&& forall|k: int| d + 3 <= k < d + 7 ==> 48 <= #[trigger] s[k] <= 57
            &&& (s[d + 3] - 48) * 1000 + (s[d + 4] - 48) * 100 + (s[d + 5] - 48) * 10 + (s[d + 6] - 48) == now.year
        }),
{
    let s = lock::date_codes(now);
    let name = font::codes_of(lock::month_name(now.month as int));
    let n = name.len() as int;
    let o = lock::ordinal(now.day);
    let y = now.year;
    let (a, b, c, d) = (y / 1000 % 10, y / 100 % 10, y / 10 % 10, y % 10);
    lemma_year_digits(y as int);
    let tail = if now.day < 10 {
        seq![
            32u8,
            (48 + now.day % 10) as u8,
            o[0],
            o[1],
            32u8,
            (48 + a) as u8,
            (48 + b) as u8,
            (48 + c) as u8,
            (48 + d) as u8,
        ]
    } else {
        seq![
            32u8,
            (48 + now.day / 10) as u8,
            (48 + now.day % 10) as u8,
            o[0],
            o[1],
            32u8,
            (48 + a) as u8,
            (48 + b) as u8,
            (48 + c) as u8,
            (48 + d) as u8,
        ]
    };
    assert(s =~= name + tail);
    assert(s.take(n) =~= name);
    assert(forall|k: int| 0 <= k < tail.len() ==> s[n + k] == #[trigger] tail[k]);
    let e: int = if now.day < 10 { 2 } else { 3 };
    assert(s[n] == tail[0] && s[n + 1] == tail[1] && s[n + 2] == tail[2]);
    assert(s[n + e] == tail[e] && s[n + e + 1] == tail[e + 1] && s[n + e + 2] == tail[e + 2]);
    assert(s[n + e + 3] == tail[e + 3] && s[n + e + 4] == tail[e + 4]);
    assert(s[n + e + 5] == tail[e + 5] && s[n + e + 6] == tail[e + 6]);
    assert forall|k: int| n + e + 3 <= k < n + e + 7 implies 48 <= #[trigger] s[k] <= 57 by {
        assert(k == n + e + 3 || k == n + e + 4 || k == n + e + 5 || k == n + e + 6);
    }
}

proof fn lemma_year_digits(y: int)
    requires
        0 <= y < 10_000,
    ensures
        (y / 1000 % 10) * 1000 + (y / 100 % 10) * 100 + (y / 10 % 10) * 10 + y % 10 == y,
{
    let q = y / 10;
    let r = q / 10;
    let t = r / 10;
    assert(y / 100 == r);
    assert(y / 1000 == t);
    assert(0 <= t < 10);
    assert(y == 10 * q + y % 10);
    assert(q == 10 * r + q % 10);
    assert(r == 10 * t + r % 10);
}

/// Each month has its own name, and its name has that many letters.
pub proof fn lemma_month_names(a: int, b: int)
    requires
        1 <= a <= 12,
        1 <= b <= 12,
    ensures
        lock::month_name(a) == lock::month_name(b) <==> a == b,
        3 <= lock::month_name(a).len() <= 9,
{
    reveal_strlit("January");
    reveal_strlit("February");
    reveal_strlit("March");
    reveal_strlit("April");
    reveal_strlit("May");
    reveal_strlit("June");
    reveal_strlit("July");
    reveal_strlit("August");
    reveal_strlit("September");
    reveal_strlit("October");
    reveal_strlit("November");
    reveal_strlit("December");
    let (p, q) = (lock::month_name(a), lock::month_name(b));
    if p == q {
        assert(p.len() == q.len());
        assert(p[0] == q[0] && p[1] == q[1] && p[2] == q[2]);
        if p.len() >= 4 {
            assert(p[3] == q[3]);
        }
    }
}

} // verus!
