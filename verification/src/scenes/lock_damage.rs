//! What a lock-screen frame may touch: every pixel that a frame changes is marked for the
//! flush.
use vstd::prelude::*;

use crate::display::dmi;
use crate::display::watch_fb;
use crate::display::watch_fb::RectAcc;
use crate::font;
use crate::font::Glyph;
use crate::imath;
use crate::raster;
use crate::scenes::arc;
use crate::scenes::arc::Ink;
use crate::scenes::flourish;
use crate::scenes::lock;
use crate::scenes::lock::{Box4, Clock, LockAssets, RingState};
use crate::scenes::ring;
use crate::scenes::ring::RingTables;
use crate::time::WallTime;

verus! {

/// The point lies in the box or next to it.
pub open spec fn near(a: RectAcc, x: int, y: int) -> bool {
    a.x0 <= a.x1 && a.x0 - 1 <= x <= a.x1 + 1 && a.y0 - 1 <= y <= a.y1 + 1
}

/// `l` comes from `k` by drawing that leaves the pixel `(x, y)` alone unless its box is near
/// it: the box only grows, and a pixel away from it is as it was.
pub open spec fn inked(k: Ink, l: Ink, x: int, y: int) -> bool {
    &&& l.fb.len() == k.fb.len()
    &&& near(k.acc, x, y) ==> near(l.acc, x, y)
    &&& raster::has_px(k.fb.len() as int, x, y) && !near(l.acc, x, y) ==> raster::px_at(l.fb, x, y) == raster::px_at(
        k.fb,
        x,
        y,
    )
}

proof fn lemma_stamped(k: Ink, off: u32, sh: raster::Shader, x: int, y: int)
    requires
        off + 2 <= 434_312,
    ensures
        inked(k, arc::stamped(k, off, sh), x, y),
{
    let cx = off as int / 2 % 466;
    let cy = off as int / 2 / 466;
    raster::lemma_shade_len(k.fb, cx - 1, cy - 1, cx + 2, cy + 2, sh);
    if raster::has_px(k.fb.len() as int, x, y) {
        raster::lemma_shade_px(k.fb, cx - 1, cy - 1, cx + 2, cy + 2, sh, x, y);
    }
}

proof fn lemma_blacks(k: Ink, offs: Seq<u32>, st: arc::ArcStyle, lo: int, hi: int, x: int, y: int)
    requires
        arc::offs_ok(offs),
        0 <= lo,
        hi <= offs.len(),
    ensures
        inked(k, arc::arc_blacks(k, offs, st, lo, hi), x, y),
    decreases hi - lo,
{
    if hi > lo {
        lemma_blacks(k, offs, st, lo, hi - 1, x, y);
        let p = arc::arc_blacks(k, offs, st, lo, hi - 1);
        assert(offs[hi - 1] + 2 <= 434_312);
        lemma_stamped(p, offs[hi - 1], raster::black(), x, y);
    }
}

proof fn lemma_colors(k: Ink, offs: Seq<u32>, st: arc::ArcStyle, lo: int, hi: int, x: int, y: int)
    requires
        arc::offs_ok(offs),
        0 <= lo,
        hi <= offs.len(),
    ensures
        inked(k, arc::arc_colors(k, offs, st, lo, hi), x, y),
    decreases hi - lo,
{
    if hi > lo {
        lemma_colors(k, offs, st, lo, hi - 1, x, y);
        let p = arc::arc_colors(k, offs, st, lo, hi - 1);
        let a = arc::step_alpha((hi - 1) / 11, st.end_step, st.lift, st.den);
        assert(offs[hi - 1] + 2 <= 434_312);
        lemma_stamped(p, offs[hi - 1], arc::ring_shader(a), x, y);
    }
}

proof fn lemma_erased(k: Ink, offs: Seq<u32>, from: int, to: int, x: int, y: int)
    requires
        arc::offs_ok(offs),
        0 <= from,
        to <= offs.len(),
    ensures
        inked(k, arc::taps_erased(k, offs, from, to), x, y),
    decreases to - from,
{
    if to > from {
        lemma_erased(k, offs, from, to - 1, x, y);
        assert(offs[to - 1] + 2 <= 434_312);
        lemma_stamped(arc::taps_erased(k, offs, from, to - 1), offs[to - 1], raster::black(), x, y);
    }
}

proof fn lemma_arc(k: Ink, offs: Seq<u32>, lo: int, hi: int, arc_end: int, lift: int, den: int, x: int, y: int)
    requires
        arc::offs_ok(offs),
        0 <= lo,
    ensures
        inked(k, arc::arc_drawn(k, offs, lo, hi, arc_end, lift, den), x, y),
{
    let h = imath::smin(hi, offs.len() as int);
    let st = arc::style(arc_end, lift, den);
    lemma_blacks(k, offs, st, lo, h, x, y);
    lemma_colors(arc::arc_blacks(k, offs, st, lo, h), offs, st, lo, h, x, y);
}

proof fn lemma_moved(k: Ink, offs: Seq<u32>, prev: int, target: int, x: int, y: int)
    requires
        arc::offs_ok(offs),
        0 <= prev <= offs.len(),
        0 <= target <= offs.len(),
    ensures
        inked(k, arc::arc_moved(k, offs, prev, target), x, y),
{
    let k1 = if target > prev {
        arc::arc_drawn(k, offs, imath::smax(prev - 4400, 0), target, target, 0, 1)
    } else if target < prev {
        arc::arc_drawn(
            arc::taps_erased(k, offs, target, prev),
            offs,
            imath::smax(target - 4400, 0),
            target,
            target,
            0,
            1,
        )
    } else {
        k
    };
    if target > prev {
        lemma_arc(k, offs, imath::smax(prev - 4400, 0), target, target, 0, 1, x, y);
    } else if target < prev {
        lemma_erased(k, offs, target, prev, x, y);
        lemma_arc(
            arc::taps_erased(k, offs, target, prev),
            offs,
            imath::smax(target - 4400, 0),
            target,
            target,
            0,
            1,
            x,
            y,
        );
    }
    if 0 < target < 8800 {
        lemma_arc(k1, offs, 0, imath::smin(target, 4400), target, 0, 1, x, y);
    }
}

proof fn lemma_ends(k: Ink, offs: Seq<u32>, lift: int, den: int, x: int, y: int)
    requires
        arc::offs_ok(offs),
    ensures
        inked(k, arc::ends_drawn(k, offs, lift, den), x, y),
{
    let len = offs.len() as int;
    let f = imath::smin(4400, len);
    lemma_arc(k, offs, 0, f, len, lift, den, x, y);
    lemma_arc(arc::arc_drawn(k, offs, 0, f, len, lift, den), offs, len - f, len, len, lift, den, x, y);
}

/// The whole ring lies in the box it marks.
proof fn lemma_full_ring(k: Ink, level: int, w: int, x: int, y: int)
    ensures
        inked(k, arc::ink(arc::ring_on(k.fb, level), arc::ring_acc(k.acc), w), x, y),
{
    let sh = ring::sel_shader(ring::ring_sel(), arc::ring_val(level), 217_156);
    raster::lemma_shade_len(k.fb, 0, 0, 466, 466, sh);
    if raster::has_px(k.fb.len() as int, x, y) {
        raster::lemma_shade_px(k.fb, 0, 0, 466, 466, sh, x, y);
        let p = y * 466 + x;
        ring::lemma_pixel_index(x, y);
        if ring::in_ring(p) {
            ring::lemma_ring_margin(p);
        }
    }
}

/// A frame of the ring animation changes only pixels near its box.
proof fn lemma_ring_step(a: LockAssets, t: RingTables, s: RingState, k: Ink, x: int, y: int)
    requires
        lock::lock_assets_ok(a),
        arc::offs_ok(t.anim@),
        0 <= s.drawn <= t.anim@.len(),
        0 <= s.frame,
    ensures
        inked(k, lock::ring_step(a, t, s, k).1, x, y),
{
    let offs = t.anim@;
    let len = offs.len() as int;
    match s.phase {
        lock::BezelPhase::Static => {},
        lock::BezelPhase::Heal => {
            lemma_ends(k, offs, s.frame + 1, 10, x, y);
            let d = arc::ends_drawn(k, offs, s.frame + 1, 10);
            lemma_full_ring(d, 256, d.writes + t.full@.len(), x, y);
        },
        lock::BezelPhase::Unheal => {
            lemma_ends(k, offs, 9 - s.frame, 10, x, y);
        },
        _ => {
            let c = lock::curve(a, s.phase);
            let i = imath::smin(s.frame, c.len() - 1);
            assert(c[i] <= a.sched.total);
            lock::lemma_scaled_count(c[i] as int, a.sched.total as int, len, a.sched.total as int);
            lemma_moved(k, offs, s.drawn, lock::sweep_target(a, s.phase, s.frame, len), x, y);
        },
    }
}

/// The ring's part of a frame changes only pixels near its box.
pub proof fn lemma_ring_part(c: Clock, a: LockAssets, fb: Seq<u8>, minute: u8, x: int, y: int)
    requires
        lock::clock_ok(c),
        lock::lock_assets_ok(a),
    ensures
        inked(arc::ink(fb, lock::no_acc(), 0), lock::ring_part(c, a, fb, minute).1, x, y),
{
    ring::lemma_tables(c.ring);
    let s = lock::ring_begin(c, minute);
    if c.flourish_frame != 0xffff_ffff {
        let sh = ring::sel_shader(ring::band_sel(), flourish::flourish_val(c.flourish_frame as int), 217_156);
        raster::lemma_shade_len(fb, 0, 0, 466, 466, sh);
    } else {
        lemma_ring_step(a, c.ring, s, arc::ink(fb, lock::no_acc(), 0), x, y);
    }
}

/// The point lies in the inclusive box.
pub open spec fn box_has(b: (int, int, int, int), x: int, y: int) -> bool {
    b.0 <= x <= b.2 && b.1 <= y <= b.3
}

/// A glyph of which a pixel lies at `(x, y)` when it is drawn at `(ox, oy)`.
pub open spec fn glyph_has(g: Glyph, ox: int, oy: int, x: int, y: int) -> bool {
    ox <= x < ox + g.width && oy <= y < oy + g.height
}

/// Some glyph of the first `n` characters of a line reaches `(x, y)`.
pub open spec fn line_has(font: Seq<Option<Glyph>>, s: Seq<u8>, n: int, left: int, base: int, x: int, y: int) -> bool {
    exists|i: int|
        0 <= i < n && (#[trigger] font::glyph_of(font, s[i])) is Some && glyph_has(
            font::glyph_of(font, s[i])->0,
            left + font::pen(font, s, i),
            base - ((font::glyph_of(font, s[i])->0).height + (font::glyph_of(font, s[i])->0).ymin),
            x,
            y,
        )
}

/// A line of text changes no pixel that none of its glyphs reaches.
proof fn lemma_face_line(
    fb: Seq<u8>,
    font: Seq<Option<Glyph>>,
    s: Seq<u8>,
    n: int,
    left: int,
    base: int,
    fade: int,
    x: int,
    y: int,
)
    requires
        0 <= n <= s.len(),
    ensures
        lock::face_line_on(fb, font, s, n, left, base, fade, 466).len() == fb.len(),
        raster::has_px(fb.len() as int, x, y) && !line_has(font, s, n, left, base, x, y) ==> raster::px_at(
            lock::face_line_on(fb, font, s, n, left, base, fade, 466),
            x,
            y,
        ) == raster::px_at(fb, x, y),
    decreases n,
{
    if n > 0 {
        lemma_face_line(fb, font, s, n - 1, left, base, fade, x, y);
        let prev = lock::face_line_on(fb, font, s, n - 1, left, base, fade, 466);
        if line_has(font, s, n - 1, left, base, x, y) {
            let i = choose|i: int|
                0 <= i < n - 1 && (#[trigger] font::glyph_of(font, s[i])) is Some && glyph_has(
                    font::glyph_of(font, s[i])->0,
                    left + font::pen(font, s, i),
                    base - ((font::glyph_of(font, s[i])->0).height + (font::glyph_of(font, s[i])->0).ymin),
                    x,
                    y,
                );
            assert(0 <= i < n && font::glyph_of(font, s[i]) is Some);
        }
        match font::glyph_of(font, s[n - 1]) {
            Some(g) => {
                let ox = left + font::pen(font, s, n - 1);
                let oy = base - (g.height + g.ymin);
                let y1 = imath::smin(oy + g.height, 466);
                let sh = lock::face_glyph_shader(g, ox, oy, fade);
                raster::lemma_shade_len(prev, ox, oy, ox + g.width, y1, sh);
                if raster::has_px(fb.len() as int, x, y) {
                    raster::lemma_shade_px(prev, ox, oy, ox + g.width, y1, sh, x, y);
                }
            },
            None => {},
        }
    }
}

/// The box of a line holds all it held before.
proof fn lemma_box_grows(b: (int, int, int, int), font: Seq<Option<Glyph>>, s: Seq<u8>, m: int, n: int, base: int, x: int, y: int)
    requires
        0 <= m <= n,
        box_has(lock::line_box(b, font, s, m, base), x, y),
    ensures
        box_has(lock::line_box(b, font, s, n, base), x, y),
    decreases n - m,
{
    if m < n {
        lemma_box_grows(b, font, s, m, n - 1, base, x, y);
    }
}

/// The box of a line holds every glyph drawn in place of its own that reaches at most two
/// pixels farther.
proof fn lemma_box_holds(
    b: (int, int, int, int),
    font: Seq<Option<Glyph>>,
    s: Seq<u8>,
    i: int,
    base: int,
    g: Glyph,
    x: int,
    y: int,
)
    requires
        0 <= i < s.len(),
        font::glyph_of(font, s[i]) is Some,
        stands_for(g, font::glyph_of(font, s[i])->0),
        glyph_has(
            g,
            233 - font::width_of(font, s) / 2 + font::pen(font, s, i),
            base - (g.height + g.ymin),
            x,
            y,
        ),
    ensures
        box_has(lock::line_box(b, font, s, s.len() as int, base), x, y),
{
    assert(box_has(lock::line_box(b, font, s, i + 1, base), x, y));
    lemma_box_grows(b, font, s, i + 1, s.len() as int, base, x, y);
}

/// A glyph that can stand in the box of `z`: the same advance, and at most two pixels larger
/// on any side but its left.
pub open spec fn stands_for(g: Glyph, z: Glyph) -> bool {
    &&& g.advance == z.advance
    &&& g.width <= z.width + 3
    &&& g.height + g.ymin <= z.height + z.ymin + 2
    &&& g.ymin >= z.ymin - 3
}

/// Tabular figures: every digit can stand in the box of zero.
pub open spec fn tabular(font: Seq<Option<Glyph>>) -> bool {
    forall|c: u8|
        48 <= c <= 57 ==> match (#[trigger] font::glyph_of(font, c), font::glyph_of(font, 48u8)) {
            (Some(g), Some(z)) => stands_for(g, z),
            (None, None) => true,
            _ => false,
        }
}

/// "00:00".
pub open spec fn zeros() -> Seq<u8> {
    seq![48u8, 48u8, 58u8, 48u8, 48u8]
}

proof fn lemma_digit(font: Seq<Option<Glyph>>, h: u8, m: u8, i: int)
    requires
        tabular(font),
        h < 100,
        m < 100,
        0 <= i < 5,
    ensures
        ({
            let s = lock::time_codes(h, m);
            &&& s.len() == 5
            &&& font::advance_of(font, s[i]) == font::advance_of(font, zeros()[i])
            &&& font::glyph_of(font, s[i]) is Some ==> font::glyph_of(font, zeros()[i]) is Some && stands_for(
                font::glyph_of(font, s[i])->0,
                font::glyph_of(font, zeros()[i])->0,
            )
        }),
{
    let s = lock::time_codes(h, m);
    if i != 2 {
        assert(48 <= s[i] <= 57);
        assert(match (font::glyph_of(font, s[i]), font::glyph_of(font, 48u8)) {
            (Some(g), Some(z)) => stands_for(g, z),
            (None, None) => true,
            _ => false,
        });
    }
}

proof fn lemma_time_pen(font: Seq<Option<Glyph>>, h: u8, m: u8, n: int)
    requires
        tabular(font),
        h < 100,
        m < 100,
        0 <= n <= 5,
    ensures
        font::pen(font, lock::time_codes(h, m), n) == font::pen(font, zeros(), n),
    decreases n,
{
    if n > 0 {
        lemma_time_pen(font, h, m, n - 1);
        lemma_digit(font, h, m, n - 1);
    }
}

/// The time and the date are drawn inside their box.
proof fn lemma_face(fb: Seq<u8>, a: LockAssets, h: u8, m: u8, date: Seq<u8>, fade: int, x: int, y: int)
    requires
        tabular(a.time@),
        h < 100,
        m < 100,
    ensures
        lock::face_on(fb, a, h, m, date, fade).len() == fb.len(),
        raster::has_px(fb.len() as int, x, y) && !box_has(lock::face_box(a, date, 0), x, y) ==> raster::px_at(
            lock::face_on(fb, a, h, m, date, fade),
            x,
            y,
        ) == raster::px_at(fb, x, y),
{
    let t = lock::time_codes(h, m);
    lemma_digit(a.time@, h, m, 0);
    lemma_time_pen(a.time@, h, m, 5);
    let left = 233 - font::width_of(a.time@, t) / 2;
    lemma_face_line(fb, a.time@, t, 5, left, 238, fade, x, y);
    let f1 = lock::face_text_on(fb, a.time@, t, 238, 0, fade, 466);
    let dleft = 233 - font::width_of(a.text@, date) / 2;
    lemma_face_line(f1, a.text@, date, date.len() as int, dleft, 303, fade, x, y);
    let none = (466int, 466int, 0int, 0int);
    let b1 = lock::line_box(none, a.time@, zeros(), 5, 238);
    let b = lock::line_box(b1, a.text@, date, date.len() as int, 303);
    if line_has(a.time@, t, 5, left, 238, x, y) {
        let i = choose|i: int|
            0 <= i < 5 && (#[trigger] font::glyph_of(a.time@, t[i])) is Some && glyph_has(
                font::glyph_of(a.time@, t[i])->0,
                left + font::pen(a.time@, t, i),
                238 - ((font::glyph_of(a.time@, t[i])->0).height + (font::glyph_of(a.time@, t[i])->0).ymin),
                x,
                y,
            );
        lemma_digit(a.time@, h, m, i);
        lemma_time_pen(a.time@, h, m, i);
        lemma_box_holds(none, a.time@, zeros(), i, 238, font::glyph_of(a.time@, t[i])->0, x, y);
        assert(box_has(b1, x, y));
        lemma_box_grows(b1, a.text@, date, 0, date.len() as int, 303, x, y);
    }
    if line_has(a.text@, date, date.len() as int, dleft, 303, x, y) {
        let i = choose|i: int|
            0 <= i < date.len() && (#[trigger] font::glyph_of(a.text@, date[i])) is Some && glyph_has(
                font::glyph_of(a.text@, date[i])->0,
                dleft + font::pen(a.text@, date, i),
                303 - ((font::glyph_of(a.text@, date[i])->0).height + (font::glyph_of(a.text@, date[i])->0).ymin),
                x,
                y,
            );
        lemma_box_holds(b1, a.text@, date, i, 303, font::glyph_of(a.text@, date[i])->0, x, y);
    }
}

/// Clearing a box on the panel changes no pixel outside it.
pub proof fn lemma_clear(fb: Seq<u8>, b: Box4, x: int, y: int)
    requires
        lock::box_held(b),
    ensures
        ({
            let g = lock::rect_cleared(fb, b.0 as int, b.1 as int, b.2 as int, b.3 as int);
            &&& g.len() == fb.len()
            &&& raster::has_px(fb.len() as int, x, y) && !(b.0 <= x <= b.2 && b.1 <= y <= b.3) ==> raster::px_at(g, x, y)
                == raster::px_at(fb, x, y)
        }),
{
    if raster::has_px(fb.len() as int, x, y) && !(b.0 <= x <= b.2 && b.1 <= y <= b.3) {
        let i = raster::slot(x, y);
        raster::lemma_slot(x, y);
        let len = fb.len() as int;
        let p = y * 466 + x;
        if lock::in_rect(len, b.0 as int, b.1 as int, b.2 as int, b.3 as int, i) || lock::in_rect(
            len,
            b.0 as int,
            b.1 as int,
            b.2 as int,
            b.3 as int,
            i + 1,
        ) {
            let w = choose|w: int| b.1 <= w <= b.3 && #[trigger] lock::row_has(w, b.0 as int, b.2 as int, p);
            assert(w == y);
        }
    }
}

/// What a lock frame leaves on the canvas.
pub open spec fn lock_canvas(c: Clock, a: LockAssets, fb: Seq<u8>, elapsed_ms: int, now: WallTime) -> Seq<u8> {
    let k = lock::ring_part(c, a, fb, now.minute).1;
    let fade = lock::text_fade(elapsed_ms);
    let ob = c.last_text_bbox;
    if c.last_text == lock::text_key(now, fade) {
        k.fb
    } else {
        lock::face_on(
            lock::rect_cleared(k.fb, ob.0 as int, ob.1 as int, ob.2 as int, ob.3 as int),
            a,
            now.hour,
            now.minute,
            lock::date_codes(now),
            fade,
        )
    }
}

/// What it marks.
pub open spec fn lock_marks(c: Clock, a: LockAssets, fb: Seq<u8>, d: dmi::Damage, elapsed_ms: int, now: WallTime) -> dmi::Damage {
    let k = lock::ring_part(c, a, fb, now.minute).1;
    let d1 = lock::acc_marked(d, 466, 466, k.acc);
    let dirty = lock::text_dirty(c.last_text_bbox, lock::face_box(a, lock::date_codes(now), 0));
    if c.last_text == lock::text_key(now, lock::text_fade(elapsed_ms)) {
        d1
    } else {
        watch_fb::marked(d1, 466, 466, dirty.0, dirty.1, dirty.2, dirty.3)
    }
}

/// Every pixel that a frame of the lock screen changes is marked for the flush, with tabular
/// figures.
pub proof fn lemma_lock_damage(
    c: Clock,
    a: LockAssets,
    fb: Seq<u8>,
    d: dmi::Damage,
    elapsed_ms: int,
    now: WallTime,
    x: int,
    y: int,
)
    requires
        lock::clock_ok(c),
        lock::lock_assets_ok(a),
        tabular(a.time@),
        now.hour < 100,
        now.minute < 100,
        dmi::damage_ok(d),
        raster::has_px(fb.len() as int, x, y),
        raster::px_at(lock_canvas(c, a, fb, elapsed_ms, now), x, y) != raster::px_at(fb, x, y),
    ensures
        dmi::covers(lock_marks(c, a, fb, d, elapsed_ms, now), x, y),
{
    let k = lock::ring_part(c, a, fb, now.minute).1;
    lemma_ring_part(c, a, fb, now.minute, x, y);
    let d1 = lock::acc_marked(d, 466, 466, k.acc);
    watch_fb::lemma_marked_covers(d, 466, 466, k.acc.x0 - 1, k.acc.y0 - 1, k.acc.x1 + 1, k.acc.y1 + 1, x, y);
    assert(dmi::damage_ok(d1));
    assert(near(k.acc, x, y) ==> dmi::covers(d1, x, y));
    if c.last_text != lock::text_key(now, lock::text_fade(elapsed_ms)) {
        let ob = c.last_text_bbox;
        let date = lock::date_codes(now);
        let nb = lock::face_box(a, date, 0);
        let dirty = lock::text_dirty(ob, nb);
        let f1 = lock::rect_cleared(k.fb, ob.0 as int, ob.1 as int, ob.2 as int, ob.3 as int);
        lemma_clear(k.fb, ob, x, y);
        lemma_face(f1, a, now.hour, now.minute, date, lock::text_fade(elapsed_ms), x, y);
        watch_fb::lemma_marked_covers(d1, 466, 466, dirty.0, dirty.1, dirty.2, dirty.3, x, y);
    }
}

/// The resting ring on a black panel.
pub open spec fn bare_ring() -> Seq<u8> {
    arc::ring_on(Seq::new(434_312, |i: int| 0u8), 256)
}

/// The text of a freshly painted scene leaves the flourish band as the ring has it.
pub open spec fn text_off_band(a: LockAssets, now: WallTime) -> bool {
    forall|x: int, y: int|
        0 <= x < 466 && 0 <= y < 466 && #[trigger] ring::in_band(y * 466 + x) ==> raster::px_at(
            lock::fresh_face(434_312, a, now),
            x,
            y,
        ) == raster::px_at(bare_ring(), x, y)
}

/// Text whose glyphs do not reach the band leaves it alone.
pub proof fn lemma_text_off_band(a: LockAssets, now: WallTime)
    requires
        forall|x: int, y: int|
            0 <= x < 466 && 0 <= y < 466 && #[trigger] ring::in_band(y * 466 + x) ==> !face_has(a, now, x, y),
    ensures
        text_off_band(a, now),
{
    raster::lemma_shade_len(
        Seq::new(434_312, |i: int| 0u8),
        0,
        0,
        466,
        466,
        ring::sel_shader(ring::ring_sel(), arc::ring_val(256), 217_156),
    );
    assert forall|x: int, y: int|
        0 <= x < 466 && 0 <= y < 466 && #[trigger] ring::in_band(y * 466 + x) implies raster::px_at(
        lock::fresh_face(434_312, a, now),
        x,
        y,
    ) == raster::px_at(bare_ring(), x, y) by {
        let t = lock::time_codes(now.hour, now.minute);
        let date = lock::date_codes(now);
        let tl = 233 - font::width_of(a.time@, t) / 2;
        let dl = 233 - font::width_of(a.text@, date) / 2;
        lemma_face_line(bare_ring(), a.time@, t, t.len() as int, tl, 238, 16_384, x, y);
        let f1 = lock::face_line_on(bare_ring(), a.time@, t, t.len() as int, tl, 238, 16_384, 466);
        lemma_face_line(f1, a.text@, date, date.len() as int, dl, 303, 16_384, x, y);
        assert(!face_has(a, now, x, y));
    }
}

/// Some glyph of the time or the date reaches `(x, y)`.
pub open spec fn face_has(a: LockAssets, now: WallTime, x: int, y: int) -> bool {
    let t = lock::time_codes(now.hour, now.minute);
    let date = lock::date_codes(now);
    ||| line_has(a.time@, t, t.len() as int, 233 - font::width_of(a.time@, t) / 2, 238, x, y)
    ||| line_has(a.text@, date, date.len() as int, 233 - font::width_of(a.text@, date) / 2, 303, x, y)
}

/// Repainting the scene, starting the flourish and cancelling it leaves the canvas byte for
/// byte as it was repainted, where the text keeps off the flourish band: the closing frame is
/// the resting ring, black where the ring is not.
pub proof fn lemma_cancel_round_trip(a: LockAssets, now: WallTime)
    requires
        text_off_band(a, now),
    ensures
        flourish::flourish_on(lock::fresh_face(434_312, a, now), 54) == lock::fresh_face(434_312, a, now),
{
    let fresh = lock::fresh_face(434_312, a, now);
    let black = Seq::new(434_312, |i: int| 0u8);
    let end = flourish::flourish_on(fresh, 54);
    lemma_face_len(a, now);
    raster::lemma_shade_len(
        fresh,
        0,
        0,
        466,
        466,
        ring::sel_shader(ring::band_sel(), flourish::flourish_val(54), 217_156),
    );
    assert forall|i: int| 0 <= i < 434_312 implies end[i] == fresh[i] by {
        let (x, y) = (i / 2 % 466, i / 2 / 466);
        let p = y * 466 + x;
        assert(p == i / 2);
        assert(raster::has_px(434_312, x, y));
        lock::lemma_cancel_restores_ring(fresh, x, y);
        if ring::in_band(p) {
            raster::lemma_shade_px(
                black,
                0,
                0,
                466,
                466,
                ring::sel_shader(ring::ring_sel(), arc::ring_val(256), 217_156),
                x,
                y,
            );
            lock::lemma_rest_colors_agree(p);
            arc::lemma_level_none(0);
            assert(raster::px_at(end, x, y) == raster::px_at(bare_ring(), x, y));
        }
        assert(raster::px_at(end, x, y) == raster::px_at(fresh, x, y));
        assert(raster::slot(x, y) == i || raster::slot(x, y) + 1 == i);
    }
    assert(end =~= fresh);
}

proof fn lemma_face_len(a: LockAssets, now: WallTime)
    ensures
        lock::fresh_face(434_312, a, now).len() == 434_312,
{
    let t = lock::time_codes(now.hour, now.minute);
    let date = lock::date_codes(now);
    let tl = 233 - font::width_of(a.time@, t) / 2;
    let dl = 233 - font::width_of(a.text@, date) / 2;
    raster::lemma_shade_len(
        Seq::new(434_312, |i: int| 0u8),
        0,
        0,
        466,
        466,
        ring::sel_shader(ring::ring_sel(), arc::ring_val(256), 217_156),
    );
    lemma_face_line(bare_ring(), a.time@, t, t.len() as int, tl, 238, 16_384, 0, 0);
    let f1 = lock::face_line_on(bare_ring(), a.time@, t, t.len() as int, tl, 238, 16_384, 466);
    lemma_face_line(f1, a.text@, date, date.len() as int, dl, 303, 16_384, 0, 0);
}

} // verus!
