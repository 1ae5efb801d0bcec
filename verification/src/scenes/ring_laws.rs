//! Laws of the bezel ring: what a sweep lights, what it takes away, how its ends look, and
//! that healing and parting mirror each other.
use vstd::prelude::*;

use crate::imath;
use crate::pixel;
use crate::raster;
use crate::scenes::arc;
use crate::scenes::arc::{ArcStyle, Ink};
use crate::scenes::flourish;
use crate::scenes::lock;
use crate::scenes::lock::{BezelPhase, Clock, LockAssets, RingState};
use crate::scenes::ring;
use crate::scenes::ring::RingTables;

verus! {

/// The stamp of a tap holds the pixel: its own or one next to it.
pub open spec fn under_tap(off: u32, x: int, y: int) -> bool {
    let (cx, cy) = (off as int / 2 % 466, off as int / 2 / 466);
    -1 <= x - cx <= 1 && -1 <= y - cy <= 1
}

/// Tap `i` is drawn in an arc of style `st`: every other angle step, inside the stroke.
pub open spec fn inks(st: ArcStyle, i: int) -> bool {
    let s = i / 11;
    s % 2 == 0 && arc::step_alpha(s, st.end_step, st.lift, st.den) > 0 && arc::tap_off(i) <= arc::step_width(
        s,
        st.end_step,
        st.lift,
        st.den,
    )
}

/// Colour that tap `i` gives to a pixel.
pub open spec fn tap_color(st: ArcStyle, i: int, x: int, y: int) -> (u8, u8) {
    arc::level_color(arc::step_alpha(i / 11, st.end_step, st.lift, st.den), ring::ring_alpha_at(y * 466 + x))
}

proof fn lemma_colors(k: Ink, offs: Seq<u32>, st: ArcStyle, lo: int, hi: int, i: int, x: int, y: int)
    requires
        raster::has_px(k.fb.len() as int, x, y),
        lo <= hi,
        i < lo || (i < hi && inks(st, i) && under_tap(offs[i], x, y)),
        forall|j: int| lo <= j < hi && i < j && #[trigger] inks(st, j) ==> !under_tap(offs[j], x, y),
    ensures
        arc::arc_colors(k, offs, st, lo, hi).fb.len() == k.fb.len(),
        raster::px_at(arc::arc_colors(k, offs, st, lo, hi).fb, x, y) == (if i >= lo {
            tap_color(st, i, x, y)
        } else {
            raster::px_at(k.fb, x, y)
        }),
    decreases hi - lo,
{
    if lo < hi {
        let p = arc::arc_colors(k, offs, st, lo, hi - 1);
        let a = arc::step_alpha((hi - 1) / 11, st.end_step, st.lift, st.den);
        let off = offs[hi - 1];
        let (cx, cy) = (off as int / 2 % 466, off as int / 2 / 466);
        let sh = arc::ring_shader(a);
        if i < hi - 1 {
            lemma_colors(k, offs, st, lo, hi - 1, i, x, y);
            assert(inks(st, hi - 1) ==> !under_tap(off, x, y));
        } else {
            lemma_colors_len(k, offs, st, lo, hi - 1);
        }
        raster::lemma_shade_len(p.fb, cx - 1, cy - 1, cx + 2, cy + 2, sh);
        raster::lemma_shade_px(p.fb, cx - 1, cy - 1, cx + 2, cy + 2, sh, x, y);
    }
}

proof fn lemma_colors_len(k: Ink, offs: Seq<u32>, st: ArcStyle, lo: int, hi: int)
    ensures
        arc::arc_colors(k, offs, st, lo, hi).fb.len() == k.fb.len(),
    decreases hi - lo,
{
    if lo < hi {
        lemma_colors_len(k, offs, st, lo, hi - 1);
        let p = arc::arc_colors(k, offs, st, lo, hi - 1);
        let off = offs[hi - 1];
        let (cx, cy) = (off as int / 2 % 466, off as int / 2 / 466);
        let a = arc::step_alpha((hi - 1) / 11, st.end_step, st.lift, st.den);
        raster::lemma_shade_len(p.fb, cx - 1, cy - 1, cx + 2, cy + 2, arc::ring_shader(a));
    }
}

/// Black or as before: what blacking out taps leaves of a pixel.
proof fn lemma_blacks(k: Ink, offs: Seq<u32>, st: ArcStyle, lo: int, hi: int, x: int, y: int)
    requires
        raster::has_px(k.fb.len() as int, x, y),
    ensures
        ({
            let r = arc::arc_blacks(k, offs, st, lo, hi);
            &&& r.fb.len() == k.fb.len()
            &&& raster::px_at(r.fb, x, y) == (0u8, 0u8) || raster::px_at(r.fb, x, y) == raster::px_at(k.fb, x, y)
            &&& (forall|j: int| lo <= j < hi ==> !under_tap(#[trigger] offs[j], x, y)) ==> raster::px_at(r.fb, x, y)
                == raster::px_at(k.fb, x, y)
        }),
    decreases hi - lo,
{
    if lo < hi {
        lemma_blacks(k, offs, st, lo, hi - 1, x, y);
        let p = arc::arc_blacks(k, offs, st, lo, hi - 1);
        let off = offs[hi - 1];
        let (cx, cy) = (off as int / 2 % 466, off as int / 2 / 466);
        raster::lemma_shade_len(p.fb, cx - 1, cy - 1, cx + 2, cy + 2, raster::black());
        raster::lemma_shade_px(p.fb, cx - 1, cy - 1, cx + 2, cy + 2, raster::black(), x, y);
    }
}

proof fn lemma_erased(k: Ink, offs: Seq<u32>, from: int, to: int, x: int, y: int)
    requires
        raster::has_px(k.fb.len() as int, x, y),
    ensures
        ({
            let r = arc::taps_erased(k, offs, from, to);
            &&& r.fb.len() == k.fb.len()
            &&& (exists|j: int| from <= j < to && under_tap(#[trigger] offs[j], x, y)) ==> raster::px_at(r.fb, x, y) == (
            0u8, 0u8)
            &&& (forall|j: int| from <= j < to ==> !under_tap(#[trigger] offs[j], x, y)) ==> raster::px_at(r.fb, x, y)
                == raster::px_at(k.fb, x, y)
        }),
    decreases to - from,
{
    if from < to {
        lemma_erased(k, offs, from, to - 1, x, y);
        let p = arc::taps_erased(k, offs, from, to - 1);
        let off = offs[to - 1];
        let (cx, cy) = (off as int / 2 % 466, off as int / 2 / 466);
        raster::lemma_shade_len(p.fb, cx - 1, cy - 1, cx + 2, cy + 2, raster::black());
        raster::lemma_shade_px(p.fb, cx - 1, cy - 1, cx + 2, cy + 2, raster::black(), x, y);
        if (exists|j: int| from <= j < to && under_tap(#[trigger] offs[j], x, y)) && !under_tap(off, x, y) {
            let j = choose|j: int| from <= j < to && under_tap(#[trigger] offs[j], x, y);
            assert(from <= j < to - 1 && under_tap(offs[j], x, y));
        }
    }
}

/// An arc that is drawn shows, at each pixel, the last of its inked taps there.
pub proof fn lemma_arc_is_shown(
    k: Ink,
    offs: Seq<u32>,
    lo: int,
    hi: int,
    arc_end: int,
    lift: int,
    den: int,
    i: int,
    x: int,
    y: int,
)
    requires
        raster::has_px(k.fb.len() as int, x, y),
        lo <= i < hi <= offs.len(),
        inks(arc::style(arc_end, lift, den), i),
        under_tap(offs[i], x, y),
        forall|j: int| i < j < hi && #[trigger] inks(arc::style(arc_end, lift, den), j) ==> !under_tap(offs[j], x, y),
    ensures
        raster::px_at(arc::arc_drawn(k, offs, lo, hi, arc_end, lift, den).fb, x, y) == tap_color(
            arc::style(arc_end, lift, den),
            i,
            x,
            y,
        ),
{
    let st = arc::style(arc_end, lift, den);
    lemma_blacks(k, offs, st, lo, hi, x, y);
    lemma_colors(arc::arc_blacks(k, offs, st, lo, hi), offs, st, lo, hi, i, x, y);
}

/// An arc leaves a pixel that none of its taps reaches.
pub proof fn lemma_arc_keeps(
    k: Ink,
    offs: Seq<u32>,
    lo: int,
    hi: int,
    arc_end: int,
    lift: int,
    den: int,
    x: int,
    y: int,
)
    requires
        raster::has_px(k.fb.len() as int, x, y),
        0 <= lo,
        hi <= offs.len(),
        forall|j: int| lo <= j < hi ==> !under_tap(#[trigger] offs[j], x, y),
    ensures
        arc::arc_drawn(k, offs, lo, hi, arc_end, lift, den).fb.len() == k.fb.len(),
        raster::px_at(arc::arc_drawn(k, offs, lo, hi, arc_end, lift, den).fb, x, y) == raster::px_at(k.fb, x, y),
{
    let st = arc::style(arc_end, lift, den);
    lemma_blacks(k, offs, st, lo, hi, x, y);
    if lo < hi {
        lemma_colors(arc::arc_blacks(k, offs, st, lo, hi), offs, st, lo, hi, lo - 1, x, y);
    }
}

/// A ring that shrinks leaves nothing behind: a pixel of a tap that was taken away, which no
/// tap that stays reaches, is black.
pub proof fn lemma_shrinking_erases(k: Ink, offs: Seq<u32>, prev: int, target: int, i: int, x: int, y: int)
    requires
        raster::has_px(k.fb.len() as int, x, y),
        0 <= target <= i < prev <= offs.len(),
        under_tap(offs[i], x, y),
        forall|j: int| 0 <= j < target ==> !under_tap(#[trigger] offs[j], x, y),
    ensures
        raster::px_at(arc::arc_moved(k, offs, prev, target).fb, x, y) == (0u8, 0u8),
{
    lemma_erased(k, offs, target, prev, x, y);
    let e = arc::taps_erased(k, offs, target, prev);
    let lo = imath::smax(target - 4400, 0);
    lemma_arc_keeps(e, offs, lo, target, target, 0, 1, x, y);
    let k1 = arc::arc_drawn(e, offs, lo, target, target, 0, 1);
    if 0 < target < 8800 {
        lemma_arc_keeps(k1, offs, 0, imath::smin(target, 4400), target, 0, 1, x, y);
    }
}

/// A ring that grows shows each new tap, the last of them on top, clear of the start.
pub proof fn lemma_growing_lights(k: Ink, offs: Seq<u32>, prev: int, target: int, i: int, x: int, y: int)
    requires
        raster::has_px(k.fb.len() as int, x, y),
        0 <= prev <= i < target <= offs.len(),
        inks(arc::style(target, 0, 1), i),
        under_tap(offs[i], x, y),
        forall|j: int| i < j < target && #[trigger] inks(arc::style(target, 0, 1), j) ==> !under_tap(offs[j], x, y),
        forall|j: int| 0 <= j < 4400 && j < target ==> !under_tap(#[trigger] offs[j], x, y),
    ensures
        raster::px_at(arc::arc_moved(k, offs, prev, target).fb, x, y) == tap_color(arc::style(target, 0, 1), i, x, y),
{
    let lo = imath::smax(prev - 4400, 0);
    lemma_arc_is_shown(k, offs, lo, target, target, 0, 1, i, x, y);
    let st = arc::style(target, 0, 1);
    let k1 = arc::arc_drawn(k, offs, lo, target, target, 0, 1);
    lemma_blacks(k, offs, st, lo, target, x, y);
    lemma_colors_len(arc::arc_blacks(k, offs, st, lo, target), offs, st, lo, target);
    if 0 < target < 8800 {
        lemma_arc_keeps(k1, offs, 0, imath::smin(target, 4400), target, 0, 1, x, y);
    }
}

/// A ring that does not move, clear of its start, is not touched.
pub proof fn lemma_still_ring(k: Ink, offs: Seq<u32>, at: int)
    requires
        at == 0 || at >= 8800,
    ensures
        arc::arc_moved(k, offs, at, at) == k,
{
}

/// The ends of an arc fade: no light and no width at the tip, more of both with the distance,
/// whole 400 steps in.
pub proof fn lemma_ends_fade(d: int, e: int)
    requires
        d <= e,
    ensures
        0 <= arc::end_alpha(d) <= arc::end_alpha(e) <= 256,
        0 <= arc::end_width(d) <= arc::end_width(e) <= 5,
        d <= 0 ==> arc::end_alpha(d) == 0 && arc::end_width(d) == 0,
        e >= 400 ==> arc::end_alpha(e) == 256 && arc::end_width(e) == 5,
        0 <= e < 400 ==> arc::end_alpha(e) * 400 <= e * 256 < (arc::end_alpha(e) + 1) * 400,
{
    lemma_end_width(d);
    lemma_end_width(e);
    if d < 400 && e < 400 {
        let (u, v) = (imath::smax(d, 0), imath::smax(e, 0));
        lemma_cap_grows(u, v);
    }
}

/// The cap is round: `w` of 400ths wide where the point lies inside the half ellipse.
proof fn lemma_end_width(d: int)
    ensures
        0 <= arc::end_width(d) <= 5,
        d <= 0 ==> arc::end_width(d) == 0,
{
    if d < 400 {
        let u = imath::smax(d, 0);
        let v = 25 * u * (800 - u);
        assert(0 <= v < 2001 * 2001 && (u == 0 ==> v == 0)) by (nonlinear_arith)
            requires
                0 <= u < 400,
                v == 25 * u * (800 - u),
        ;
        imath::lemma_sqrt_exists(v);
        let r = imath::sqrt_of(v);
        assert(r < 2001) by (nonlinear_arith)
            requires
                r * r <= v,
                v < 2001 * 2001,
        ;
        assert(v == 0 ==> r == 0) by (nonlinear_arith)
            requires
                r * r <= v,
                r >= 0,
        ;
    }
}

proof fn lemma_cap_grows(u: int, v: int)
    requires
        0 <= u <= v < 400,
    ensures
        imath::sqrt_of(25 * u * (800 - u)) <= imath::sqrt_of(25 * v * (800 - v)),
{
    let (a, b) = (25 * u * (800 - u), 25 * v * (800 - v));
    assert(0 <= a <= b) by (nonlinear_arith)
        requires
            0 <= u <= v < 400,
            a == 25 * u * (800 - u),
            b == 25 * v * (800 - v),
    ;
    imath::lemma_sqrt_exists(a);
    imath::lemma_sqrt_exists(b);
    let (r, s) = (imath::sqrt_of(a), imath::sqrt_of(b));
    assert(r <= s) by (nonlinear_arith)
        requires
            r * r <= a,
            a <= b,
            b < (s + 1) * (s + 1),
            r >= 0,
            s >= 0,
    ;
}

/// Healing lifts the ends towards solid: from their faded look at no lift to the whole stroke
/// at full lift, never back.
pub proof fn lemma_lift(step: int, end_step: int, a: int, b: int, den: int)
    requires
        0 <= a <= b <= den,
        den >= 1,
    ensures
        arc::step_alpha(step, end_step, a, den) <= arc::step_alpha(step, end_step, b, den) <= 256,
        arc::step_width(step, end_step, a, den) <= arc::step_width(step, end_step, b, den) <= 5,
        arc::step_alpha(step, end_step, den, den) == 256,
        arc::step_width(step, end_step, den, den) == 5,
{
    lemma_ends_fade(step, step);
    lemma_ends_fade(end_step - step, end_step - step);
    let al = imath::smin(arc::end_alpha(step), arc::end_alpha(end_step - step));
    let w = imath::smin(arc::end_width(step), arc::end_width(end_step - step));
    lemma_share(256 - al, a, b, den);
    lemma_share(5 - w, a, b, den);
}

proof fn lemma_share(gap: int, a: int, b: int, den: int)
    requires
        gap >= 0,
        0 <= a <= b <= den,
        den >= 1,
    ensures
        0 <= gap * a / den <= gap * b / den <= gap,
        gap * den / den == gap,
{
    assert(0 <= gap * a <= gap * b && gap * b <= gap * den) by (nonlinear_arith)
        requires
            gap >= 0,
            0 <= a <= b <= den,
    ;
    assert(0 <= gap * a / den && gap * a / den <= gap * b / den && gap * b / den <= gap && gap * den / den == gap)
        by (nonlinear_arith)
        requires
            0 <= gap * a <= gap * b,
            gap * b <= gap * den,
            den >= 1,
    ;
}

/// Parting is healing played backwards, and healing ends in the whole ring.
pub proof fn lemma_parting_mirrors_healing(a: LockAssets, t: RingTables, drawn: int, f: int, k: Ink)
    requires
        0 <= f <= 8,
    ensures
        ({
            let part = RingState { phase: BezelPhase::Unheal, frame: f, drawn };
            let heal = RingState { phase: BezelPhase::Heal, frame: 8 - f, drawn };
            lock::ring_step(a, t, part, k).1 == lock::ring_step(a, t, heal, k).1
        }),
        ({
            let last = RingState { phase: BezelPhase::Heal, frame: 9, drawn };
            let (s, d) = lock::ring_step(a, t, last, k);
            s.phase is Static && d.fb == arc::ring_on(arc::ends_drawn(k, t.anim@, 10, 10).fb, 256)
        }),
{
}

/// The minute's sweep goes round: the ring parts, opens, closes and heals, in this order.
pub proof fn lemma_sweep_order()
    ensures
        lock::after_sweep(BezelPhase::Undraw) is Redraw,
        lock::after_sweep(BezelPhase::Redraw) is Heal,
        lock::after_sweep(BezelPhase::Initial) is Heal,
{
}

/// A sweep draws as much of the ring as its curve says: nothing at 0, all of it at the total,
/// in proportion in between.
pub proof fn lemma_sweep_follows_curve(a: LockAssets, phase: BezelPhase, frame: int, len: int)
    requires
        lock::lock_assets_ok(a),
        phase is Initial || phase is Undraw || phase is Redraw,
        0 <= frame,
        len >= 0,
    ensures
        ({
            let c = match phase {
                BezelPhase::Initial => a.sched.initial@,
                BezelPhase::Undraw => a.sched.undraw@,
                _ => a.sched.redraw@,
            };
            let v = c[if frame < c.len() { frame } else { c.len() - 1 }] as int;
            let n = lock::sweep_target(a, phase, frame, len);
            &&& 0 <= n <= len
            &&& v == 0 ==> n == 0
            &&& v == a.sched.total ==> n == len
            &&& n * a.sched.total <= v * len < (n + 1) * a.sched.total
        }),
{
    let c = lock::curve(a, phase);
    let v = c[imath::smin(frame, c.len() - 1)] as int;
    let total = a.sched.total as int;
    assert(v <= total);
    lock::lemma_scaled_count(v, total, len, total);
    if len == total {
        assert(v * len < (v + 1) * total) by (nonlinear_arith)
            requires
                len == total,
                total >= 1,
        ;
    } else {
        let n = v * len / total;
        assert(n * total <= v * len && v * len < (n + 1) * total) by (nonlinear_arith)
            requires
                n == v * len / total,
                total >= 1,
        ;
    }
}

/// Ring colours grow lighter with the intensity, from black.
pub proof fn lemma_ring_colors(i: int, j: int)
    requires
        0 <= i <= j <= 255,
    ensures
        ({
            let (p, q) = (ring::ring_table()[i], ring::ring_table()[j]);
            &&& pixel::red(p) <= pixel::red(q)
            &&& pixel::green(p) <= pixel::green(q)
            &&& pixel::blue(p) <= pixel::blue(q)
        }),
        ring::ring_table()[0] == pixel::rgb(0, 0, 0),
{
    let (u, v) = (lemma_intensity(i), lemma_intensity(j));
    lemma_channel(200, u, v);
    lemma_channel(215, u, v);
    lemma_channel(255, u, v);
    let z = lemma_intensity(0);
    pixel::lemma_rgb(200 * u / 16_384 * 31 / 255, 215 * u / 16_384 * 63 / 255, 255 * u / 16_384 * 31 / 255);
    pixel::lemma_rgb(200 * v / 16_384 * 31 / 255, 215 * v / 16_384 * 63 / 255, 255 * v / 16_384 * 31 / 255);
    assert(16_384 * i / 255 <= 16_384 * j / 255);
    assert(u <= v);
    assert(ring::ring_table()[i] == ring::bezel_color(16_384 * i / 255));
    assert(ring::ring_table()[j] == ring::bezel_color(16_384 * j / 255));
    assert(ring::ring_table()[0] == ring::bezel_color(0));
}

proof fn lemma_intensity(i: int) -> (u: int)
    requires
        0 <= i <= 255,
    ensures
        u == imath::smin(imath::tdiv(16_384 * i / 255 * 255, 256), 16_384),
        u == 16_384 * i / 255 * 255 / 256,
        0 <= u <= 16_384,
{
    imath::smin(imath::tdiv(16_384 * i / 255 * 255, 256), 16_384)
}

proof fn lemma_channel(c: int, u: int, v: int)
    requires
        0 <= c <= 255,
        0 <= u <= 16_384,
        0 <= v <= 16_384,
    ensures
        0 <= c * u / 16_384 <= 255,
        u <= v ==> c * u / 16_384 <= c * v / 16_384,
{
    assert(0 <= c * u <= 255 * 16_384) by (nonlinear_arith)
        requires
            0 <= c <= 255,
            0 <= u <= 16_384,
    ;
    assert(u <= v ==> c * u <= c * v) by (nonlinear_arith)
        requires
            0 <= c,
    ;
}

/// Dimming the ring never brightens a pixel, full brightness is the resting colour.
pub proof fn lemma_ring_dims(a: int, b: int, alpha: int)
    requires
        0 <= a <= b <= 256,
        0 <= alpha <= 255,
    ensures
        ({
            let (p, q) = (arc::level_color(a, alpha), arc::level_color(b, alpha));
            &&& pixel::red(p) <= pixel::red(q)
            &&& pixel::green(p) <= pixel::green(q)
            &&& pixel::blue(p) <= pixel::blue(q)
        }),
        arc::level_color(256, alpha) == ring::ring_table()[alpha],
{
    assert(0 <= a * alpha <= b * alpha && b * alpha <= 256 * alpha) by (nonlinear_arith)
        requires
            0 <= a <= b <= 256,
            0 <= alpha,
    ;
    lemma_ring_colors(a * alpha / 256, b * alpha / 256);
}

/// A new minute starts the sweep from a resting ring where sweeps are on and no flourish runs,
/// and nothing else does: otherwise a frame goes on where the last one left the ring.
pub proof fn lemma_minute_starts_sweep(c: Clock, minute: u8)
    ensures
        ({
            let s = lock::ring_begin(c, minute);
            let starts = c.last_minute != 99 && c.last_minute != minute && c.minute_anim && c.phase is Static
                && c.flourish_frame == 0xffff_ffff;
            &&& starts ==> s.phase is Unheal && s.frame == 0
            &&& !starts ==> s.phase == c.phase && s.frame == c.frame_in_phase
            &&& s.drawn == c.drawn_centers
        }),
{
}

/// A flourish takes the ring's frames and leaves its animation where it was; it runs for 55
/// frames and ends.
pub proof fn lemma_flourish_takes_over(c: Clock, a: LockAssets, fb: Seq<u8>, minute: u8)
    requires
        lock::clock_ok(c),
        c.flourish_frame != 0xffff_ffff,
    ensures
        lock::ring_part(c, a, fb, minute).0 == lock::ring_begin(c, minute),
        lock::ring_part(c, a, fb, minute).1.fb == flourish::flourish_on(fb, c.flourish_frame as int),
        c.flourish_frame < 54 ==> lock::next_flourish(c.flourish_frame) == c.flourish_frame + 1,
        c.flourish_frame == 54 ==> lock::next_flourish(c.flourish_frame) == 0xffff_ffff,
{
}

proof fn lemma_part(lo: int, hi: int)
    requires
        0 <= lo <= hi,
        hi > 0,
    ensures
        ({
            let t = lo * 32 / hi;
            &&& 0 <= t <= 32
            &&& t * hi <= 32 * lo < (t + 1) * hi
            &&& lo == hi ==> t == 32
        }),
{
    let t = lo * 32 / hi;
    vstd::arithmetic::div_mod::lemma_fundamental_div_mod(lo * 32, hi);
    assert(hi * t == t * hi && (t + 1) * hi == t * hi + hi) by (nonlinear_arith);
    assert(t <= 32) by (nonlinear_arith)
        requires
            t * hi <= 32 * hi,
            hi > 0,
    ;
    assert(t >= 0) by (nonlinear_arith)
        requires
            0 < (t + 1) * hi,
            hi > 0,
    ;
    if lo == hi {
        assert(t >= 32) by (nonlinear_arith)
            requires
                32 * hi < (t + 1) * hi,
                hi > 0,
        ;
    }
}

/// The angle of a point of the ring: a quarter turn of the point adds 64, mirroring it up and
/// down takes the angle from 256, and in the first octant it is the 32nd part of the slope.
#[verifier::spinoff_prover]
pub proof fn lemma_point_angle(dx: int, dy: int)
    requires
        dx != 0 || dy != 0,
    ensures
        0 <= ring::angle(dx, dy) < 256,
        ring::angle(-dy, dx) == (ring::angle(dx, dy) + 64) % 256,
        ring::angle(dx, -dy) == (256 - ring::angle(dx, dy)) % 256,
        0 <= dy <= dx ==> ring::angle(dx, dy) * dx <= 32 * dy < (ring::angle(dx, dy) + 1) * dx,
{
    let (ax, ay) = (imath::sabs(dx), imath::sabs(dy));
    let (lo, hi) = (imath::smin(ax, ay), imath::smax(ax, ay));
    let t = lo * 32 / hi;
    lemma_part(lo, hi);
}

/// Across the ring its light is full to four pixels from the centre line, falls evenly, and is
/// gone at five and three quarters.
pub proof fn lemma_edge_falls(d: int, e: int)
    requires
        d <= e,
    ensures
        ({
            let (a, b) = (ring::alpha_profile(d), ring::alpha_profile(e));
            &&& 0 <= b <= a <= 255
            &&& d <= 64 ==> a == 255
            &&& d >= 92 ==> a == 0
            &&& 64 <= d <= 92 ==> 28 * a <= 255 * (92 - d) < 28 * (a + 1)
        }),
{
}

} // verus!
