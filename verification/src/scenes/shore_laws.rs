//! More of what the water shows: its bounds, its surface line, its sparkles, and how it is
//! poured.
use vstd::prelude::*;

use crate::imath;
use crate::pixel;
use crate::raster;
use crate::scenes::pool;
use crate::scenes::pool::Pool;
use crate::scenes::water_laws;
use crate::scenes::water_paint;
use crate::scenes::water_paint::{Paint, WaterAssets, WaterFrame};

verus! {

/// The bounds of a frame hold the square of every particle on the panel below the status band,
/// and what is erased and flushed holds these bounds and those of the last frame.
pub proof fn lemma_bounds_hold_water(p: Pool, last: (i16, i16, i16, i16), k: int, x: int, y: int)
    requires
        0 <= k < 448,
        0 <= x <= 465,
        0 <= y <= 465,
    ensures
        ({
            let b = water_paint::drawn_box(p);
            let e = water_paint::erase_box(b, last);
            &&& water_laws::square_has(p, k, x, y) ==> b.0 <= x <= b.2 && b.1 <= y <= b.3
            &&& b.0 <= x <= b.2 && b.1 <= y <= b.3 ==> e.0 <= x <= e.2 && e.1 <= y <= e.3
            &&& y >= 70 && last.0 <= x <= last.2 && last.1 <= y <= last.3 ==> e.0 <= x <= e.2 && e.1 <= y <= e.3
        }),
{
    lemma_extent(p, k, 448);
}

proof fn lemma_extent(p: Pool, k: int, n: int)
    requires
        0 <= k < n,
    ensures
        ({
            let e = water_paint::extent(p, n);
            let (x, y) = (p.px[k] as int / 64, p.py[k] as int / 64);
            e.0 <= x <= e.2 && e.1 <= y <= e.3
        }),
    decreases n,
{
    if k < n - 1 {
        lemma_extent(p, k, n - 1);
    }
}

/// A frame remembers its bounds for the next one to wipe.
pub proof fn lemma_bounds_are_kept(f: WaterFrame, w: int, h: int, p: Pool, a: WaterAssets, ms: int, alpha: int)
    ensures
        ({
            let b = water_paint::drawn_box(p);
            let r = water_paint::rendered(f, w, h, p, a, ms, alpha).bbox;
            -0x8000 <= b.0 <= 0x7fff && -0x8000 <= b.1 <= 0x7fff && -0x8000 <= b.2 <= 0x7fff && -0x8000 <= b.3
                <= 0x7fff ==> r.0 == b.0 && r.1 == b.1 && r.2 == b.2 && r.3 == b.3
        }),
{
}

/// The tops of the columns: no particle of a column stands above its top, and a top is that of
/// a particle.
pub proof fn lemma_tops(s: Paint, p: Pool, a: WaterAssets, ms: int, alpha: int, n: int, c: int, k: int)
    requires
        s.tops.len() == 64,
        0 <= n,
        0 <= c < 64,
    ensures
        ({
            let t = water_paint::with_drops(s, p, a, ms, alpha, n).tops;
            let (x, y) = (p.px[k] as int / 64, p.py[k] as int / 64);
            &&& t.len() == 64
            &&& t[c] <= s.tops[c]
            &&& 0 <= k < n && y >= 70 && water_paint::column(x) == c ==> t[c] <= y
            &&& t[c] == s.tops[c] || t[c] >= 70
        }),
    decreases n,
{
    if n > 0 {
        lemma_tops(s, p, a, ms, alpha, n - 1, c, k);
    }
}

/// The line between two crests starts on the first: its pixel there is at least as light as
/// the line, and stays so.
proof fn lemma_line_start(fb: Seq<u8>, x0: int, y0: int, sx: int, sy: int, c: (u8, u8), k: int)
    requires
        raster::has_px(fb.len() as int, x0, y0),
        y0 >= 70,
        k >= 1,
    ensures
        pixel::as_bright(raster::px_at(water_paint::line_on(fb, x0, y0, sx, sy, c, k), x0, y0), c),
    decreases k,
{
    let prev = water_paint::line_on(fb, x0, y0, sx, sy, c, k - 1);
    water_laws::lemma_line_lightens(fb, x0, y0, sx, sy, c, k - 1, x0, y0);
    let gx = (x0 * 256 + (k - 1) * sx) / 256;
    let gy = (y0 * 256 + (k - 1) * sy) / 256;
    let g1 = water_paint::glint(prev, gx, gy, c);
    if k == 1 {
        assert((k - 1) * sx == 0 && (k - 1) * sy == 0) by (nonlinear_arith)
            requires
                k == 1,
        ;
        assert(gx == x0 && gy == y0);
        pixel::lemma_lighter(raster::px_at(prev, x0, y0), c);
        raster::lemma_slot(x0, y0);
        assert(raster::px_at(g1, x0, y0) == pixel::lighter(raster::px_at(prev, x0, y0), c));
    } else {
        lemma_line_start(fb, x0, y0, sx, sy, c, k - 1);
    }
    water_laws::lemma_glint_lightens(prev, gx, gy, c, x0, y0);
    water_laws::lemma_glint_lightens(g1, gx, gy + 1, c, x0, y0);
}

proof fn lemma_line_from(fb: Seq<u8>, tops: Seq<i16>, c: (u8, u8), n: int, j: int)
    requires
        0 <= j,
        j + 1 < n <= 64,
        water_paint::crest(tops, j) is Some,
        water_paint::crest(tops, j + 1) is Some,
        ({
            let (x, y) = water_paint::crest(tops, j)->0;
            raster::has_px(fb.len() as int, x, y)
        }),
    ensures
        ({
            let (x, y) = water_paint::crest(tops, j)->0;
            pixel::as_bright(raster::px_at(water_paint::meniscus_on(fb, tops, c, n), x, y), c)
        }),
    decreases n,
{
    let (x, y) = water_paint::crest(tops, j)->0;
    let prev = water_paint::meniscus_on(fb, tops, c, n - 1);
    water_laws::lemma_meniscus_lightens(fb, tops, c, n - 1, x, y);
    if let (Some(a), Some(b)) = (water_paint::crest(tops, n - 2), water_paint::crest(tops, n - 1)) {
        let steps = imath::smax(imath::smax(imath::sabs(b.0 - a.0), imath::sabs(b.1 - a.1)), 1);
        let (sx, sy) = (
            imath::tdiv((b.0 - a.0) * 256, steps),
            imath::tdiv((b.1 - a.1) * 256, steps),
        );
        if j == n - 2 {
            lemma_line_start(prev, x, y, sx, sy, c, steps + 1);
        } else {
            lemma_line_from(fb, tops, c, n - 1, j);
            water_laws::lemma_line_lightens(prev, a.0, a.1, sx, sy, c, steps + 1, x, y);
        }
    } else {
        lemma_line_from(fb, tops, c, n - 1, j);
    }
}

/// The water at rest has a surface line: at the top of each column that has water, next to one
/// that has, a pixel is at least as light as the line.
pub proof fn lemma_surface_line(f: WaterFrame, w: int, h: int, p: Pool, a: WaterAssets, ms: int, alpha: int, j: int)
    requires
        alpha >= 200,
        f.fb.len() == 434_312,
        0 <= j < 63,
        ({
            let s = drops(f, p, a, ms, alpha);
            &&& water_paint::crest(s.tops, j) is Some
            &&& water_paint::crest(s.tops, j + 1) is Some
            &&& s.tops[j] <= 465
        }),
    ensures
        ({
            let s = drops(f, p, a, ms, alpha);
            let top = if s.tops[j] < 70 { 70int } else { s.tops[j] as int };
            pixel::as_bright(
                raster::px_at(water_paint::rendered(f, w, h, p, a, ms, alpha).fb, 7 * j + 3, top),
                a.line@[210],
            )
        }),
{
    let s = drops(f, p, a, ms, alpha);
    let er = water_paint::erase_box(water_paint::drawn_box(p), f.bbox);
    let base = water_paint::wiped(f.fb, er);
    raster::lemma_shade_len(
        f.fb,
        er.0,
        er.1,
        er.2 + 1,
        er.3 + 1,
        water_paint::wipe_shader(f.fb.len() as int, er.2),
    );
    let s0 = Paint { fb: base, budget: 72, tops: Seq::new(64, |i: int| i16::MAX) };
    water_laws::lemma_drops_len(s0, p, a, ms, alpha, 448);
    lemma_line_from(s.fb, s.tops, a.line@[210], 64, j);
}

/// The frame with all particles drawn, before the surface line.
pub open spec fn drops(f: WaterFrame, p: Pool, a: WaterAssets, ms: int, alpha: int) -> Paint {
    let er = water_paint::erase_box(water_paint::drawn_box(p), f.bbox);
    water_paint::with_drops(
        Paint { fb: water_paint::wiped(f.fb, er), budget: 72, tops: Seq::new(64, |i: int| i16::MAX) },
        p,
        a,
        ms,
        alpha,
        448,
    )
}

/// A particle on the surface sparkles while there are sparkles left: its middle is at least as
/// light as the spark, and one sparkle is used up.
pub proof fn lemma_sparkle(s: Paint, p: Pool, a: WaterAssets, i: int, ms: int, alpha: int)
    requires
        p.surf[i],
        alpha >= 200,
        s.budget > 0,
        p.py[i] as int / 64 >= 70,
        raster::has_px(s.fb.len() as int, p.px[i] as int / 64, p.py[i] as int / 64),
    ensures
        ({
            let t = water_paint::with_drop(s, p, a, i, ms, alpha);
            let (x, y) = (p.px[i] as int / 64, p.py[i] as int / 64);
            &&& pixel::as_bright(raster::px_at(t.fb, x, y), a.spark@[150])
            &&& t.budget == s.budget - 1
        }),
{
    let (x, y) = (p.px[i] as int / 64, p.py[i] as int / 64);
    let level = water_paint::body_level(p, a, i, ms, alpha);
    let b = water_paint::body_on(s.fb, a.lut@, x, y, level);
    let top = imath::smax(y - 2, 70);
    raster::lemma_shade_len(s.fb, x - 2, top, x + 3, y + 3, water_paint::body_shader(a.lut@, level));
    let st = imath::smax(y - 3, 70);
    let ss = water_paint::spark_shader(a.spark@, x, y);
    raster::lemma_shade_px(b, x - 3, st, x + 4, y + 4, ss, x, y);
    assert((x - x) * (x - x) + (y - y) * (y - y) == 0);
    assert(150int * (9 - 0) * (9 - 0) / 81 == 150);
    pixel::lemma_lighter(raster::px_at(b, x, y), a.spark@[150]);
}

/// The pool is poured at rest: each particle in its place of a block of 32 columns, seven
/// pixels apart and up to three uneven, or halfway to the centre where that is off the wall.
pub proof fn lemma_poured(p: Pool, rng: u32, n: int, i: int)
    requires
        p.px.len() == 448,
        p.py.len() == 448,
        p.vx.len() == 448,
        p.vy.len() == 448,
        p.nbr.len() == 448,
        p.surf.len() == 448,
        0 <= i < n <= 448,
    ensures
        ({
            let q = pool::seeded(p, rng, n).0;
            let (cx, cy) = (121 + 7 * (i % 32), 273 + 7 * (i / 32));
            &&& q.px.len() == 448 && q.py.len() == 448
            &&& q.vx[i] == 0 && q.vy[i] == 0 && !q.surf[i]
            &&& exists|j: int| 0 <= j <= 3 && #[trigger] stands(q, i, cx + j, cy)
        }),
    decreases n,
{
    lemma_seed_len(p, rng, n - 1);
    let (q, r) = pool::seeded(p, rng, n - 1);
    let r2 = pool::rng_next(r);
    let j = (r2 % 4) as int;
    let t = pool::seed_one(q, n - 1, j);
    if i < n - 1 {
        lemma_poured(p, rng, n - 1, i);
        let (cx, cy) = (121 + 7 * (i % 32), 273 + 7 * (i / 32));
        let j0 = choose|j0: int| 0 <= j0 <= 3 && #[trigger] stands(q, i, cx + j0, cy);
        assert(stands(t, i, cx + j0, cy));
    } else {
        let (cx, cy) = (121 + 7 * (i % 32), 273 + 7 * (i / 32));
        assert(stands(t, i, cx + j, cy));
    }
}

/// Particle `i` stands at `(x, y)`, or halfway from there to the centre beyond the wall.
pub open spec fn stands(p: Pool, i: int, x: int, y: int) -> bool {
    let far = (x - 233) * (x - 233) + (y - 233) * (y - 233) > 218 * 218;
    &&& !far ==> p.px[i] == 64 * x && p.py[i] == 64 * y
    &&& far ==> p.px[i] == 64 * (233 + imath::tdiv(x - 233, 2)) && p.py[i] == 64 * (233 + imath::tdiv(y - 233, 2))
}

proof fn lemma_seed_len(p: Pool, rng: u32, n: int)
    requires
        p.px.len() == 448,
        p.py.len() == 448,
        p.vx.len() == 448,
        p.vy.len() == 448,
        p.nbr.len() == 448,
        p.surf.len() == 448,
        n <= 448,
    ensures
        ({
            let q = pool::seeded(p, rng, n).0;
            q.px.len() == 448 && q.py.len() == 448 && q.vx.len() == 448 && q.vy.len() == 448 && q.nbr.len() == 448
                && q.surf.len() == 448
        }),
    decreases n,
{
    if n > 0 {
        lemma_seed_len(p, rng, n - 1);
    }
}

} // verus!
