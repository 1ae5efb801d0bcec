//! The activity app: three rings with rounded ends, whose tips breathe.
use vstd::prelude::*;

use crate::display::dmi;
use crate::display::watch_fb;
use crate::display::watch_fb::WatchFb;
use crate::font;
use crate::imath;
use crate::raster;
use crate::scenes::apps;
use crate::scenes::apps::{AppAssets, ACT_HALF_W};
use crate::scenes::vector;
use crate::scenes::vector::{Area, Tint};
use crate::scenes::wheel;

verus! {

/// A ring: radius of its centre line, how far it is closed in percent, colour.
#[derive(Clone, Copy)]
pub struct Ring {
    pub rc: i32,
    pub closure: i32,
    pub tint: Tint,
}

/// The rings from the outside in.
pub open spec fn ring_of(i: int) -> Ring {
    if i == 0 {
        Ring { rc: 120, closure: 82, tint: (70, 150, 255) }
    } else if i == 1 {
        Ring { rc: 92, closure: 64, tint: (170, 120, 255) }
    } else {
        Ring { rc: 64, closure: 91, tint: (70, 220, 200) }
    }
}

pub fn act_ring(i: usize) -> (r: Ring)
    ensures
        r == ring_of(i as int),
        64 <= r.rc <= 120,
        64 <= r.closure <= 91,
        vector::tint_ok(r.tint),
{
    if i == 0 {
        Ring { rc: 120, closure: 82, tint: (70, 150, 255) }
    } else if i == 1 {
        Ring { rc: 92, closure: 64, tint: (170, 120, 255) }
    } else {
        Ring { rc: 64, closure: 91, tint: (70, 220, 200) }
    }
}

/// Angle at which a ring ends.
pub open spec fn full_sweep(r: Ring) -> int {
    r.closure * 1024 / 100
}

/// Point of a ring's centre line at an angle.
pub open spec fn ring_point(rc: int, a: int) -> (int, int) {
    (233 + rc * vector::direction(a).0 / 256, 233 + rc * vector::direction(a).1 / 256)
}

fn ring_point_at(rc: i32, a: i32) -> (p: (i32, i32))
    requires
        0 <= rc <= 200,
        0 <= a,
    ensures
        p.0 == ring_point(rc as int, a as int).0,
        p.1 == ring_point(rc as int, a as int).1,
        -100_000 <= p.0 <= 100_000,
        -100_000 <= p.1 <= 100_000,
{
    let (vx, vy) = vector::pseudo_dir(a);
    proof {
        assert(-200 * 65_536 <= rc * vx <= 200 * 65_536) by (nonlinear_arith)
            requires
                0 <= rc <= 200,
                -65_536 <= vx <= 65_536,
        ;
        assert(-200 * 65_536 <= rc * vy <= 200 * 65_536) by (nonlinear_arith)
            requires
                0 <= rc <= 200,
                -65_536 <= vy <= 65_536,
        ;
    }
    (233 + imath::asr(rc * vx, 8), 233 + imath::asr(rc * vy, 8))
}

/// A ring arc with a rounded cap at 12 o'clock and one at its tip.
pub open spec fn capped_ring_on(fb: Seq<u8>, rc: int, sweep: int, t: Tint, v: int) -> Seq<u8> {
    let fb1 = vector::ring_arc_on(fb, 233, 233, rc - 8, rc + 8, sweep, t, v);
    let fb2 = vector::cap_on(fb1, 233, 233 - rc, 8, t, v);
    vector::cap_on(fb2, ring_point(rc, sweep).0, ring_point(rc, sweep).1, 8, t, v)
}

pub fn ring_with_caps(fb: &mut [u8], rc: i32, sweep: i32, tint: Tint, v: i32)
    requires
        vector::tint_ok(tint),
        8 <= rc <= 200,
        0 <= sweep,
        0 <= v <= 0x1_0000,
    ensures
        final(fb)@ == capped_ring_on(old(fb)@, rc as int, sweep as int, tint, v as int),
{
    vector::draw_ring_arc(fb, 233, 233, rc - ACT_HALF_W, rc + ACT_HALF_W, sweep, tint, v);
    vector::cap_dot(fb, 233, 233 - rc, ACT_HALF_W, tint, v);
    let (x, y) = ring_point_at(rc, sweep);
    vector::cap_dot(fb, x, y, ACT_HALF_W, tint, v);
}

/// Angle of ring `i` at reveal `q`: the rings sweep in one after the other.
pub open spec fn reveal_sweep(i: int, q: int) -> int {
    full_sweep(ring_of(i)) * imath::sclamp((q - i * 36) * 256 / 184, 0, 256) / 256
}

/// The first `n` rings at reveal `q`.
pub open spec fn rings_on(fb: Seq<u8>, q: int, n: int) -> Seq<u8>
    decreases n,
{
    if n <= 0 {
        fb
    } else {
        let prev = rings_on(fb, q, n - 1);
        let s = reveal_sweep(n - 1, q);
        if s > 0 {
            capped_ring_on(prev, ring_of(n - 1).rc as int, s, ring_of(n - 1).tint, 230)
        } else {
            prev
        }
    }
}

/// The rings and the step count, at reveal `q` of 256 and `rise` pixels low.
pub open spec fn activity_on(fb: Seq<u8>, a: AppAssets, q: int, rise: int) -> Seq<u8> {
    apps::centered_on(
        apps::centered_on(rings_on(fb, q, 3), a.wheel.labelf@, font::codes_of("6 412"@), 248 + rise, q),
        a.wheel.text@,
        font::codes_of("steps"@),
        284 + rise,
        102 * q / 256,
    )
}

/// Draw the revealed rings.
pub(crate) fn draw_activity(fb: &mut [u8], assets: &AppAssets, q: i32, rise: i32)
    requires
        apps::assets_ok(*assets),
        0 <= q <= 256,
        0 <= rise <= 466,
    ensures
        final(fb)@ == activity_on(old(fb)@, *assets, q as int, rise as int),
{
    let mut i: usize = 0;
    while i < 3
        invariant
            i <= 3,
            0 <= q <= 256,
            fb@ == rings_on(old(fb)@, q as int, i as int),
        decreases 3 - i,
    {
        let r = act_ring(i);
        let p: i32 = imath::iclamp((q - i as i32 * 36) * 256 / 184, 0, 256);
        let full: i32 = r.closure * 1024 / 100;
        proof {
            assert(0 <= full * p <= 1000 * 256) by (nonlinear_arith)
                requires
                    0 <= full <= 1000,
                    0 <= p <= 256,
            ;
        }
        let sweep: i32 = imath::asr(full * p, 8);
        if sweep > 0 {
            ring_with_caps(fb, r.rc, sweep, r.tint, 230);
        }
        i = i + 1;
    }
    proof {
        reveal_strlit("6 412");
        reveal_strlit("steps");
    }
    apps::draw_centered(fb, "6 412", 248 + rise, q, assets.wheel.labelf);
    apps::draw_centered(fb, "steps", 284 + rise, imath::asr(102 * q, 8), assets.wheel.text);
}

/// What a tip's glow can touch.
pub open spec fn tip_area(i: int) -> Area {
    let (x, y) = ring_point(ring_of(i).rc as int, full_sweep(ring_of(i)));
    ((x - 16) as i32, (y - 16) as i32, (x + 16) as i32, (y + 16) as i32)
}

/// The first `n` rings repaired inside a rectangle, with their tip caps.
pub open spec fn repaired(fb: Seq<u8>, a: Area, n: int) -> Seq<u8>
    decreases n,
{
    if n <= 0 {
        fb
    } else {
        let r = ring_of(n - 1);
        let (x, y) = ring_point(r.rc as int, full_sweep(r));
        vector::cap_on(
            vector::arc_in_rect_on(repaired(fb, a, n - 1), r.rc - 8, r.rc + 8, full_sweep(r), r.tint, 230, a),
            x,
            y,
            8,
            r.tint,
            230,
        )
    }
}

/// The first `n` tips: each is wiped, the rings below it are repaired, and it glows again.
pub open spec fn tips_on(fb: Seq<u8>, breath: int, n: int) -> Seq<u8>
    decreases n,
{
    if n <= 0 {
        fb
    } else {
        let prev = tips_on(fb, breath, n - 1);
        let r = ring_of(n - 1);
        let a = tip_area(n - 1);
        let (x, y) = ring_point(r.rc as int, full_sweep(r));
        vector::soft_on(
            repaired(
                raster::shade(prev, a.0 as int, a.1 as int, a.2 + 1, a.3 + 1, raster::black()),
                a,
                3,
            ),
            x,
            y,
            10,
            r.tint,
            breath * 240 / 256,
        )
    }
}

/// The marks of the first `n` tips.
pub open spec fn tips_marked(d: dmi::Damage, w: int, h: int, n: int) -> dmi::Damage
    decreases n,
{
    if n <= 0 {
        d
    } else {
        let a = tip_area(n - 1);
        watch_fb::marked(
            tips_marked(d, w, h, n - 1),
            w,
            h,
            a.0 as int,
            a.1 as int,
            a.2 as int,
            a.3 as int,
        )
    }
}

fn tip_rect(i: usize) -> (r: Area)
    ensures
        r == tip_area(i as int),
        r.2 < i32::MAX,
        r.3 < i32::MAX,
{
    let g = act_ring(i);
    let (x, y) = ring_point_at(g.rc, g.closure * 1024 / 100);
    (x - 16, y - 16, x + 16, y + 16)
}

fn repair(fb: &mut [u8], a: Area)
    requires
        a.2 < i32::MAX,
        a.3 < i32::MAX,
    ensures
        final(fb)@ == repaired(old(fb)@, a, 3),
{
    let mut j: usize = 0;
    while j < 3
        invariant
            j <= 3,
            a.2 < i32::MAX,
            a.3 < i32::MAX,
            fb@ == repaired(old(fb)@, a, j as int),
        decreases 3 - j,
    {
        let r = act_ring(j);
        let s: i32 = r.closure * 1024 / 100;
        vector::arc_in_rect(fb, r.rc - ACT_HALF_W, r.rc + ACT_HALF_W, s, r.tint, 230, a);
        let (x, y) = ring_point_at(r.rc, s);
        vector::cap_dot(fb, x, y, ACT_HALF_W, r.tint, 230);
        j = j + 1;
    }
}

/// Tick of the resting activity app.
pub(crate) fn activity_tick(wfb: &mut WatchFb, elapsed_ms: u32)
    requires
        old(wfb).wf(),
    ensures
        final(wfb).wf(),
        final(wfb).w() == old(wfb).w(),
        final(wfb).h() == old(wfb).h(),
        final(wfb).canvas() == tips_on(old(wfb).canvas(), apps::breathing(elapsed_ms as int), 3),
        final(wfb).damage() == tips_marked(old(wfb).damage(), old(wfb).w(), old(wfb).h(), 3),
{
    let b: i32 = apps::breath(elapsed_ms);
    let fb = wfb.buf_mut();
    let ghost fb0 = fb@;
    let mut i: usize = 0;
    while i < 3
        invariant
            i <= 3,
            b == apps::breathing(elapsed_ms as int),
            150 <= b <= 205,
            fb@ == tips_on(fb0, b as int, i as int),
        decreases 3 - i,
    {
        let r = act_ring(i);
        let a = tip_rect(i);
        let (x, y) = ring_point_at(r.rc, r.closure * 1024 / 100);
        raster::fill_rect_black(fb, a.0, a.1, a.2, a.3);
        repair(fb, a);
        vector::soft_dot(fb, x, y, 10, r.tint, imath::asr(b * 240, 8));
        i = i + 1;
    }
    let mut k: usize = 0;
    while k < 3
        invariant
            k <= 3,
            wfb.wf(),
            wfb.w() == old(wfb).w(),
            wfb.h() == old(wfb).h(),
            wfb.canvas() == tips_on(old(wfb).canvas(), apps::breathing(elapsed_ms as int), 3),
            wfb.damage() == tips_marked(old(wfb).damage(), old(wfb).w(), old(wfb).h(), k as int),
        decreases 3 - k,
    {
        let a = tip_rect(k);
        wfb.mark_rect(a.0, a.1, a.2, a.3);
        k = k + 1;
    }
}

/// The rings stay clear of the title: no pixel of a ring, its soft edge included, is above
/// row 104.
pub proof fn lemma_rings_below_title(i: int, dx: int, dy: int)
    requires
        0 <= i < 3,
        vector::in_arc(dx, dy, ring_of(i).rc - 8, ring_of(i).rc + 8, full_sweep(ring_of(i))),
        vector::dist2(dx, dy) <= (ring_of(i).rc + 9) * (ring_of(i).rc + 9),
    ensures
        233 + dy >= 104,
{
    let k = ring_of(i).rc + 9;
    assert(dy >= -k) by (nonlinear_arith)
        requires
            dx * dx + dy * dy <= k * k,
            k >= 0,
    ;
}

} // verus!
