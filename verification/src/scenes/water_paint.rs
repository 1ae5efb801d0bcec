//! Drawing of the water: each particle a small dithered square, sparkles at the surface, and
//! a bright line along its top. Nothing is drawn above the status band.
use vstd::prelude::*;

use crate::display::dmi;
use crate::display::watch_fb;
use crate::display::watch_fb::WatchFb;
use crate::imath;
use crate::pixel;
use crate::raster;
use crate::scenes::pool;
use crate::scenes::pool::{Drops, Pool};
use crate::scenes::water_hash::NW;

verus! {

/// First row of the water.
pub const CLOCK_Y1: i32 = 70;
/// Reach of a particle's drawing.
pub const SQ_MARGIN: i32 = 4;
/// Columns of the surface line.
pub const NMENISC: usize = 64;
/// Sparkles per frame, at most.
pub const GLOW_BUDGET: i32 = 72;

/// Tables of the water: the push by squared distance, the body's colours, the colours of
/// the sparkles and of the surface line by intensity, and two noises.
#[derive(Clone, Copy)]
pub struct WaterAssets<'a> {
    pub push: &'a [i16; 257],
    pub lut: &'a [(u8, u8); 256],
    pub spark: &'a [(u8, u8); 256],
    pub line: &'a [(u8, u8); 256],
    pub noise_a: &'a [u8; 256],
    pub noise_b: &'a [u8; 256],
}

/// Ordered dither of a pixel, -8..=7.
pub open spec fn dither(x: int, y: int) -> int {
    let (i, j) = (x % 4, y % 4);
    if j == 0 {
        if i == 0 { -8 } else if i == 1 { 0 } else if i == 2 { -6 } else { 2 }
    } else if j == 1 {
        if i == 0 { 4 } else if i == 1 { -4 } else if i == 2 { 6 } else { -2 }
    } else if j == 2 {
        if i == 0 { -5 } else if i == 1 { 3 } else if i == 2 { -7 } else { 1 }
    } else {
        if i == 0 { 7 } else if i == 1 { -1 } else if i == 2 { 5 } else { -3 }
    }
}

fn dither_at(x: i32, y: i32) -> (r: i32)
    ensures
        r == dither(x as int, y as int),
        -8 <= r <= 7,
{
    let i: i32 = imath::low2(x);
    let j: i32 = imath::low2(y);
    if j == 0 {
        if i == 0 { -8 } else if i == 1 { 0 } else if i == 2 { -6 } else { 2 }
    } else if j == 1 {
        if i == 0 { 4 } else if i == 1 { -4 } else if i == 2 { 6 } else { -2 }
    } else if j == 2 {
        if i == 0 { -5 } else if i == 1 { 3 } else if i == 2 { -7 } else { 1 }
    } else {
        if i == 0 { 7 } else if i == 1 { -1 } else if i == 2 { 5 } else { -3 }
    }
}

/// Drifting shade at a pixel, `ms` milliseconds in.
pub open spec fn drift(a: WaterAssets, x: int, y: int, ms: int) -> int {
    (a.noise_a@[(x / 4 + ms / 32) % 256] + a.noise_b@[(y / 4 - ms / 64) % 256] - 256) / 8
}

/// Colour index of particle `i`: brighter at the surface and in motion, darker in a crowd,
/// scaled by `alpha` of 256.
pub open spec fn body_level(p: Pool, a: WaterAssets, i: int, ms: int, alpha: int) -> int {
    let x = p.px[i] as int / 64;
    let y = p.py[i] as int / 64;
    let speed = imath::sabs(p.vx[i] as int) + imath::sabs(p.vy[i] as int);
    let raw = (if p.surf[i] { 206int } else { 150 }) + speed / 16 + drift(a, x, y, ms) - p.nbr[i] * 3;
    imath::sclamp(raw * alpha / 256, 0, 255)
}

pub open spec fn body_shader(lut: Seq<(u8, u8)>, level: int) -> raster::Shader {
    |x: int, y: int, p: (u8, u8)| lut[imath::sclamp(level + dither(x, y), 0, 255)]
}

/// The canvas after a particle's square.
pub open spec fn body_on(fb: Seq<u8>, lut: Seq<(u8, u8)>, x: int, y: int, level: int) -> Seq<u8> {
    raster::shade(fb, x - 2, imath::smax(y - 2, 70), x + 3, y + 3, body_shader(lut, level))
}

/// A sparkle of radius 3.
pub open spec fn spark_shader(table: Seq<(u8, u8)>, cx: int, cy: int) -> raster::Shader {
    |x: int, y: int, p: (u8, u8)|
        {
            let d2 = (x - cx) * (x - cx) + (y - cy) * (y - cy);
            if d2 > 9 { p } else { pixel::lighter(p, table[imath::sclamp(150 * (9 - d2) * (9 - d2) / 81, 0, 255)]) }
        }
}

pub open spec fn spark_on(fb: Seq<u8>, table: Seq<(u8, u8)>, x: int, y: int) -> Seq<u8> {
    raster::shade(fb, x - 3, imath::smax(y - 3, 70), x + 4, y + 4, spark_shader(table, x, y))
}

/// The frame under construction: canvas, sparkles left, and the top of each column.
pub struct Paint {
    pub fb: Seq<u8>,
    pub budget: int,
    pub tops: Seq<i16>,
}

/// Column of the surface line that a pixel belongs to.
pub open spec fn column(x: int) -> int {
    imath::sclamp(x * 64 / 466, 0, 63)
}

/// The frame with particle `i` drawn.
pub open spec fn with_drop(s: Paint, p: Pool, a: WaterAssets, i: int, ms: int, alpha: int) -> Paint {
    let x = p.px[i] as int / 64;
    let y = p.py[i] as int / 64;
    if y < 70 {
        s
    } else {
        let fb = body_on(s.fb, a.lut@, x, y, body_level(p, a, i, ms, alpha));
        let sparkles = p.surf[i] && alpha >= 200 && s.budget > 0;
        let c = column(x);
        Paint {
            fb: if sparkles { spark_on(fb, a.spark@, x, y) } else { fb },
            budget: if sparkles { s.budget - 1 } else { s.budget },
            tops: if y < s.tops[c] { s.tops.update(c, y as i16) } else { s.tops },
        }
    }
}

/// The frame with the first `n` particles drawn.
pub open spec fn with_drops(s: Paint, p: Pool, a: WaterAssets, ms: int, alpha: int, n: int) -> Paint
    decreases n,
{
    if n <= 0 { s } else { with_drop(with_drops(s, p, a, ms, alpha, n - 1), p, a, n - 1, ms, alpha) }
}

/// A colour merged into one pixel below the status band.
pub open spec fn glint(fb: Seq<u8>, x: int, y: int, c: (u8, u8)) -> Seq<u8> {
    if y < 70 { fb } else { raster::put_px(fb, x, y, pixel::lighter(raster::px_at(fb, x, y), c)) }
}

/// The first `k` points of a line from `(x0, y0)` with slopes in 256ths, two pixels high.
pub open spec fn line_on(fb: Seq<u8>, x0: int, y0: int, sx: int, sy: int, c: (u8, u8), k: int) -> Seq<u8>
    decreases k,
{
    if k <= 0 {
        fb
    } else {
        let x = (x0 * 256 + (k - 1) * sx) / 256;
        let y = (y0 * 256 + (k - 1) * sy) / 256;
        glint(glint(line_on(fb, x0, y0, sx, sy, c, k - 1), x, y, c), x, y + 1, c)
    }
}

/// The canvas after a line between two points.
pub open spec fn segment_on(fb: Seq<u8>, x0: int, y0: int, x1: int, y1: int, c: (u8, u8)) -> Seq<u8> {
    let steps = imath::smax(imath::smax(imath::sabs(x1 - x0), imath::sabs(y1 - y0)), 1);
    line_on(
        fb,
        x0,
        y0,
        imath::tdiv((x1 - x0) * 256, steps),
        imath::tdiv((y1 - y0) * 256, steps),
        c,
        steps + 1,
    )
}

/// Point of the surface line in column `c`, if the column has water.
pub open spec fn crest(tops: Seq<i16>, c: int) -> Option<(int, int)> {
    if tops[c] == i16::MAX { None } else { Some((c * 7 + 3, imath::smax(tops[c] as int, 70))) }
}

/// The canvas after the surface line over the first `n` columns; a column without water
/// breaks it.
pub open spec fn meniscus_on(fb: Seq<u8>, tops: Seq<i16>, c: (u8, u8), n: int) -> Seq<u8>
    decreases n,
{
    if n <= 1 {
        fb
    } else {
        let prev = meniscus_on(fb, tops, c, n - 1);
        match (crest(tops, n - 2), crest(tops, n - 1)) {
            (Some(a), Some(b)) => segment_on(prev, a.0, a.1, b.0, b.1, c),
            _ => prev,
        }
    }
}

/// Bounding box of the first `n` particles, from an inverted one.
pub open spec fn extent(p: Pool, n: int) -> (int, int, int, int)
    decreases n,
{
    if n <= 0 {
        (466, 466, 0, 0)
    } else {
        let e = extent(p, n - 1);
        let x = p.px[n - 1] as int / 64;
        let y = p.py[n - 1] as int / 64;
        (imath::smin(e.0, x), imath::smin(e.1, y), imath::smax(e.2, x), imath::smax(e.3, y))
    }
}

/// The drawn box: the particles with their reach, below the status band.
pub open spec fn drawn_box(p: Pool) -> (int, int, int, int) {
    let e = extent(p, 448);
    (
        imath::smax(e.0 - 4, 0),
        imath::smax(e.1 - 4, 70),
        imath::smin(e.2 + 4, 465),
        imath::smin(e.3 + 4, 465),
    )
}

/// The box to erase and flush: this frame's and the last one's.
pub open spec fn erase_box(cur: (int, int, int, int), last: (i16, i16, i16, i16)) -> (int, int, int, int) {
    (
        imath::smax(imath::smin(cur.0, last.0 as int), 0),
        imath::smax(imath::smin(cur.1, imath::smax(last.1 as int, 70)), 70),
        imath::smin(imath::smax(cur.2, last.2 as int), 465),
        imath::smin(imath::smax(cur.3, last.3 as int), 465),
    )
}

/// Black, on the rows that the buffer holds up to column `x1`.
pub open spec fn wipe_shader(len: int, x1: int) -> raster::Shader {
    |x: int, y: int, p: (u8, u8)| if raster::slot(x1, y) + 1 < len { (0u8, 0u8) } else { p }
}

pub open spec fn wiped(fb: Seq<u8>, b: (int, int, int, int)) -> Seq<u8> {
    raster::shade(fb, b.0, b.1, b.2 + 1, b.3 + 1, wipe_shader(fb.len() as int, b.2))
}

/// A rendered frame.
pub struct WaterFrame {
    pub fb: Seq<u8>,
    pub damage: dmi::Damage,
    pub bbox: (i16, i16, i16, i16),
}

/// The water at opacity `alpha` of 256, `ms` milliseconds in: the boxes of this and the last
/// frame are wiped, the particles drawn, and from 200 on the surface line.
pub open spec fn rendered(f: WaterFrame, w: int, h: int, p: Pool, a: WaterAssets, ms: int, alpha: int) -> WaterFrame {
    let cur = drawn_box(p);
    let er = erase_box(cur, f.bbox);
    let s = with_drops(
        Paint { fb: wiped(f.fb, er), budget: 72, tops: Seq::new(64, |i: int| i16::MAX) },
        p,
        a,
        ms,
        alpha,
        448,
    );
    WaterFrame {
        fb: if alpha >= 200 { meniscus_on(s.fb, s.tops, a.line@[210], 64) } else { s.fb },
        damage: watch_fb::marked(f.damage, w, h, er.0, er.1, er.2, er.3),
        bbox: (cur.0 as i16, cur.1 as i16, cur.2 as i16, cur.3 as i16),
    }
}

fn draw_body(fb: &mut [u8], lut: &[(u8, u8); 256], x: i32, y: i32, level: i32)
    requires
        -1000 <= x <= 1000,
        -1000 <= y <= 1000,
        0 <= level <= 255,
    ensures
        final(fb)@ == body_on(old(fb)@, lut@, x as int, y as int, level as int),
{
    let ghost sh = body_shader(lut@, level as int);
    let f = |x: i32, y: i32, p: (u8, u8)| -> (q: (u8, u8))
        ensures
            q == sh(x as int, y as int, p),
        { lut[imath::iclamp(level + dither_at(x, y), 0, 255) as usize] };
    raster::paint(fb, x - 2, imath::imax(y - 2, CLOCK_Y1), x + 3, y + 3, f, Ghost(sh));
}

fn draw_spark(fb: &mut [u8], table: &[(u8, u8); 256], cx: i32, cy: i32)
    requires
        -1000 <= cx <= 1000,
        -1000 <= cy <= 1000,
    ensures
        final(fb)@ == spark_on(old(fb)@, table@, cx as int, cy as int),
{
    let ghost sh = spark_shader(table@, cx as int, cy as int);
    let f = |x: i32, y: i32, p: (u8, u8)| -> (q: (u8, u8))
        requires
            cx - 3 <= x < cx + 4,
            cy - 3 <= y < cy + 4,
        ensures
            q == sh(x as int, y as int, p),
        {
            let dx: i32 = x - cx;
            let dy: i32 = y - cy;
            proof {
                assert(0 <= dx * dx <= 9) by (nonlinear_arith)
                    requires
                        -3 <= dx <= 3,
                ;
                assert(0 <= dy * dy <= 9) by (nonlinear_arith)
                    requires
                        -3 <= dy <= 3,
                ;
            }
            let d2: i32 = dx * dx + dy * dy;
            if d2 > 9 {
                p
            } else {
                let k: i32 = 9 - d2;
                proof {
                    assert(0 <= 150 * k * k <= 12_150) by (nonlinear_arith)
                        requires
                            0 <= k <= 9,
                    ;
                    assert(0 <= 150 * k <= 1_350);
                }
                let v: i32 = imath::iclamp(150 * k * k / 81, 0, 255);
                pixel::lighten(p, table[v as usize])
            }
        };
    raster::paint(fb, cx - 3, imath::imax(cy - 3, CLOCK_Y1), cx + 4, cy + 4, f, Ghost(sh));
}

fn drift_at(a: &WaterAssets, x: i32, y: i32, ms: u32) -> (r: i32)
    requires
        -1000 <= x <= 1000,
        -1000 <= y <= 1000,
    ensures
        r == drift(*a, x as int, y as int, ms as int),
        -32 <= r <= 32,
{
    let t1: i32 = (ms / 32) as i32;
    let t2: i32 = (ms / 64) as i32;
    let i: i32 = imath::low8(imath::asr(x, 2) + t1);
    let j: i32 = imath::low8(imath::asr(y, 2) - t2);
    imath::asr(a.noise_a[i as usize] as i32 + a.noise_b[j as usize] as i32 - 256, 3)
}

fn body_level_at(d: &Drops, a: &WaterAssets, i: usize, ms: u32, alpha: i32) -> (r: i32)
    requires
        i < 448,
        pool::calm(pool::pool(*d)),
        0 <= alpha <= 256,
    ensures
        r == body_level(pool::pool(*d), *a, i as int, ms as int, alpha as int),
        0 <= r <= 255,
{
    let (x, y) = d.pixel(i);
    proof {
        let p = pool::pool(*d);
        assert(-1024 <= p.vx[i as int] <= 1024);
        assert(-1024 <= p.vy[i as int] <= 1024);
    }
    let speed: i32 = imath::iabs(d.vx[i] as i32) + imath::iabs(d.vy[i] as i32);
    let raw: i32 = (if d.surf[i] { 206 } else { 150 }) + speed / 16 + drift_at(a, x, y, ms) - d.nbr[i] as i32 * 3;
    proof {
        assert(-1000 * 256 <= raw * alpha <= 1000 * 256) by (nonlinear_arith)
            requires
                -1000 <= raw <= 1000,
                0 <= alpha <= 256,
        ;
    }
    imath::iclamp(imath::asr(raw * alpha, 8), 0, 255)
}

/// Draw the particles; gives the top of each column.
fn draw_drops(fb: &mut [u8], d: &Drops, a: &WaterAssets, ms: u32, alpha: i32) -> (tops: [i16; 64])
    requires
        pool::pool_ok(pool::pool(*d)),
        0 <= alpha <= 256,
    ensures
        ({
            let s = with_drops(
                Paint { fb: old(fb)@, budget: 72, tops: Seq::new(64, |i: int| i16::MAX) },
                pool::pool(*d),
                *a,
                ms as int,
                alpha as int,
                448,
            );
            final(fb)@ == s.fb && tops@ == s.tops
        }),
        forall|c: int| 0 <= c < 64 ==> (#[trigger] tops@[c]) == i16::MAX || 0 <= tops@[c] <= 500,
{
    let mut tops: [i16; 64] = [i16::MAX;64];
    let mut budget: i32 = GLOW_BUDGET;
    let ghost s0 = Paint { fb: fb@, budget: 72, tops: Seq::new(64, |i: int| i16::MAX) };
    let ghost p = pool::pool(*d);
    assert(tops@ =~= s0.tops);
    let mut i: usize = 0;
    while i < NW
        invariant
            i <= 448,
            p == pool::pool(*d),
            pool::pool_ok(p),
            0 <= alpha <= 256,
            0 <= budget <= 72,
            (Paint { fb: fb@, budget: budget as int, tops: tops@ }) == with_drops(
                s0,
                p,
                *a,
                ms as int,
                alpha as int,
                i as int,
            ),
            forall|c: int| 0 <= c < 64 ==> (#[trigger] tops@[c]) == i16::MAX || 0 <= tops@[c] <= 500,
        decreases 448 - i,
    {
        proof {
            assert(0 <= p.px[i as int] + 0 <= 30_000);
            assert(0 <= p.py[i as int] + 0 <= 30_000);
        }
        let (x, y) = d.pixel(i);
        if y >= CLOCK_Y1 {
            let surf = d.surf[i];
            let level: i32 = body_level_at(d, a, i, ms, alpha);
            draw_body(fb, a.lut, x, y, level);
            if surf && alpha >= 200 && budget > 0 {
                draw_spark(fb, a.spark, x, y);
                budget = budget - 1;
            }
            let c: usize = imath::iclamp(x * 64 / 466, 0, 63) as usize;
            if (y as i16) < tops[c] {
                tops[c] = y as i16;
            }
        }
        i = i + 1;
    }
    tops
}

fn draw_glint(fb: &mut [u8], x: i32, y: i32, c: (u8, u8))
    ensures
        final(fb)@ == glint(old(fb)@, x as int, y as int, c),
        final(fb)@.len() == old(fb)@.len(),
{
    if y < CLOCK_Y1 {
        return;
    }
    if raster::in_buffer(fb.len(), x, y) {
        let p = raster::get_px(fb, x, y);
        raster::set_px(fb, x, y, pixel::lighten(p, c));
    }
}

proof fn lemma_slope(d: int, steps: int)
    requires
        steps >= 1,
        -steps <= d <= steps,
    ensures
        -256 <= imath::tdiv(d * 256, steps) <= 256,
{
    let a = imath::sabs(d);
    let n = a * 256;
    assert(0 <= n / steps <= 256) by (nonlinear_arith)
        requires
            n == a * 256,
            0 <= a <= steps,
            steps >= 1,
    ;
}

fn draw_segment(fb: &mut [u8], x0: i32, y0: i32, x1: i32, y1: i32, c: (u8, u8))
    requires
        -1000 <= x0 <= 1000,
        -1000 <= y0 <= 1000,
        -1000 <= x1 <= 1000,
        -1000 <= y1 <= 1000,
    ensures
        final(fb)@ == segment_on(old(fb)@, x0 as int, y0 as int, x1 as int, y1 as int, c),
{
    let steps: i32 = imath::imax(imath::imax(imath::iabs(x1 - x0), imath::iabs(y1 - y0)), 1);
    let sx: i32 = (x1 - x0) * 256 / steps;
    let sy: i32 = (y1 - y0) * 256 / steps;
    proof {
        lemma_slope(x1 - x0, steps as int);
        lemma_slope(y1 - y0, steps as int);
    }
    let mut xf: i32 = x0 * 256;
    let mut yf: i32 = y0 * 256;
    let mut k: i32 = 0;
    while k <= steps
        invariant
            0 <= k <= steps + 1,
            1 <= steps <= 2000,
            -1000 <= x0 <= 1000,
            -1000 <= y0 <= 1000,
            -256 <= sx <= 256,
            -256 <= sy <= 256,
            xf == x0 * 256 + k * sx,
            yf == y0 * 256 + k * sy,
            fb@ == line_on(old(fb)@, x0 as int, y0 as int, sx as int, sy as int, c, k as int),
        decreases steps + 1 - k,
    {
        proof {
            assert((k + 1) * sx == k * sx + sx && (k + 1) * sy == k * sy + sy) by (nonlinear_arith);
            assert(-2001 * 256 <= k * sx <= 2001 * 256) by (nonlinear_arith)
                requires
                    0 <= k <= 2001,
                    -256 <= sx <= 256,
            ;
            assert(-2001 * 256 <= k * sy <= 2001 * 256) by (nonlinear_arith)
                requires
                    0 <= k <= 2001,
                    -256 <= sy <= 256,
            ;
        }
        let x: i32 = imath::asr(xf, 8);
        let y: i32 = imath::asr(yf, 8);
        draw_glint(fb, x, y, c);
        draw_glint(fb, x, y + 1, c);
        xf = xf + sx;
        yf = yf + sy;
        k = k + 1;
    }
}

fn draw_meniscus(fb: &mut [u8], tops: &[i16; 64], c: (u8, u8))
    requires
        forall|k: int| 0 <= k < 64 ==> (#[trigger] tops@[k]) == i16::MAX || 0 <= tops@[k] <= 500,
    ensures
        final(fb)@ == meniscus_on(old(fb)@, tops@, c, 64),
{
    let mut i: usize = 1;
    while i < NMENISC
        invariant
            1 <= i <= 64,
            forall|k: int| 0 <= k < 64 ==> (#[trigger] tops@[k]) == i16::MAX || 0 <= tops@[k] <= 500,
            fb@ == meniscus_on(old(fb)@, tops@, c, i as int),
        decreases 64 - i,
    {
        let a: i16 = tops[i - 1];
        let b: i16 = tops[i];
        if a != i16::MAX && b != i16::MAX {
            draw_segment(
                fb,
                (i as i32 - 1) * 7 + 3,
                imath::imax(a as i32, CLOCK_Y1),
                i as i32 * 7 + 3,
                imath::imax(b as i32, CLOCK_Y1),
                c,
            );
        }
        i = i + 1;
    }
}

fn extent_at(d: &Drops) -> (r: (i32, i32, i32, i32))
    requires
        pool::pool_ok(pool::pool(*d)),
    ensures
        ({
            let e = extent(pool::pool(*d), 448);
            r.0 == e.0 && r.1 == e.1 && r.2 == e.2 && r.3 == e.3
        }),
        0 <= r.0 <= 500,
        0 <= r.1 <= 500,
        0 <= r.2 <= 500,
        0 <= r.3 <= 500,
{
    let ghost p = pool::pool(*d);
    let mut r: (i32, i32, i32, i32) = (466, 466, 0, 0);
    let mut i: usize = 0;
    while i < NW
        invariant
            i <= 448,
            p == pool::pool(*d),
            pool::pool_ok(p),
            ({
                let e = extent(p, i as int);
                r.0 == e.0 && r.1 == e.1 && r.2 == e.2 && r.3 == e.3
            }),
            0 <= r.0 <= 500,
            0 <= r.1 <= 500,
            0 <= r.2 <= 500,
            0 <= r.3 <= 500,
        decreases 448 - i,
    {
        proof {
            assert(0 <= p.px[i as int] + 0 <= 30_000);
            assert(0 <= p.py[i as int] + 0 <= 30_000);
        }
        let (x, y) = d.pixel(i);
        r = (imath::imin(r.0, x), imath::imin(r.1, y), imath::imax(r.2, x), imath::imax(r.3, y));
        i = i + 1;
    }
    r
}

fn wipe(fb: &mut [u8], x0: i32, y0: i32, x1: i32, y1: i32)
    requires
        0 <= x1 <= 465,
        y1 <= 465,
    ensures
        final(fb)@ == wiped(old(fb)@, (x0 as int, y0 as int, x1 as int, y1 as int)),
{
    let n: usize = fb.len();
    let ghost sh = wipe_shader(n as int, x1 as int);
    let f = |x: i32, y: i32, p: (u8, u8)| -> (q: (u8, u8))
        requires
            0 <= y < 466,
        ensures
            q == sh(x as int, y as int, p),
        {
            if ((y * 466 + x1) * 2 + 1) as usize >= n {
                p
            } else {
                (0, 0)
            }
        };
    raster::paint(fb, x0, y0, x1 + 1, y1 + 1, f, Ghost(sh));
}

/// Render a frame.
pub(crate) fn render(wfb: &mut WatchFb, d: &Drops, a: &WaterAssets, bbox: &mut (i16, i16, i16, i16), ms: u32, alpha: i32)
    requires
        old(wfb).wf(),
        pool::pool_ok(pool::pool(*d)),
        0 <= alpha <= 256,
    ensures
        final(wfb).wf(),
        final(wfb).w() == old(wfb).w(),
        final(wfb).h() == old(wfb).h(),
        (WaterFrame { fb: final(wfb).canvas(), damage: final(wfb).damage(), bbox: *final(bbox) }) == rendered(
            (WaterFrame { fb: old(wfb).canvas(), damage: old(wfb).damage(), bbox: *old(bbox) }),
            old(wfb).w(),
            old(wfb).h(),
            pool::pool(*d),
            *a,
            ms as int,
            alpha as int,
        ),
{
    let e = extent_at(d);
    let cur: (i32, i32, i32, i32) = (
        imath::imax(e.0 - SQ_MARGIN, 0),
        imath::imax(e.1 - SQ_MARGIN, CLOCK_Y1),
        imath::imin(e.2 + SQ_MARGIN, 465),
        imath::imin(e.3 + SQ_MARGIN, 465),
    );
    let last = *bbox;
    let er: (i32, i32, i32, i32) = (
        imath::imax(imath::imin(cur.0, last.0 as i32), 0),
        imath::imax(imath::imin(cur.1, imath::imax(last.1 as i32, CLOCK_Y1)), CLOCK_Y1),
        imath::imin(imath::imax(cur.2, last.2 as i32), 465),
        imath::imin(imath::imax(cur.3, last.3 as i32), 465),
    );
    let fb = wfb.buf_mut();
    wipe(fb, er.0, er.1, er.2, er.3);
    let tops = draw_drops(fb, d, a, ms, alpha);
    if alpha >= 200 {
        draw_meniscus(fb, &tops, a.line[210]);
    }
    *bbox = (cur.0 as i16, cur.1 as i16, cur.2 as i16, cur.3 as i16);
    wfb.mark_rect(er.0, er.1, er.2, er.3);
}

/// The same pixel at `(x, y)` and the same length.
pub open spec fn keeps_px(a: Seq<u8>, b: Seq<u8>, x: int, y: int) -> bool {
    a.len() == b.len() && raster::px_at(a, x, y) == raster::px_at(b, x, y)
}

proof fn lemma_shade_above(fb: Seq<u8>, x0: int, y0: int, x1: int, y1: int, sh: raster::Shader, x: int, y: int)
    requires
        raster::has_px(fb.len() as int, x, y),
        y < 70 <= y0,
    ensures
        keeps_px(fb, raster::shade(fb, x0, y0, x1, y1, sh), x, y),
{
    raster::lemma_shade_len(fb, x0, y0, x1, y1, sh);
    raster::lemma_shade_px(fb, x0, y0, x1, y1, sh, x, y);
}

proof fn lemma_glint_above(fb: Seq<u8>, gx: int, gy: int, c: (u8, u8), x: int, y: int)
    requires
        raster::has_px(fb.len() as int, x, y),
        y < 70,
    ensures
        keeps_px(fb, glint(fb, gx, gy, c), x, y),
{
    if gy >= 70 && raster::has_px(fb.len() as int, gx, gy) {
        raster::lemma_slot(x, y);
        raster::lemma_slot(gx, gy);
    }
}

proof fn lemma_line_above(fb: Seq<u8>, x0: int, y0: int, sx: int, sy: int, c: (u8, u8), k: int, x: int, y: int)
    requires
        raster::has_px(fb.len() as int, x, y),
        y < 70,
    ensures
        keeps_px(fb, line_on(fb, x0, y0, sx, sy, c, k), x, y),
    decreases k,
{
    if k > 0 {
        lemma_line_above(fb, x0, y0, sx, sy, c, k - 1, x, y);
        let prev = line_on(fb, x0, y0, sx, sy, c, k - 1);
        let gx = (x0 * 256 + (k - 1) * sx) / 256;
        let gy = (y0 * 256 + (k - 1) * sy) / 256;
        lemma_glint_above(prev, gx, gy, c, x, y);
        lemma_glint_above(glint(prev, gx, gy, c), gx, gy + 1, c, x, y);
    }
}

proof fn lemma_meniscus_above(fb: Seq<u8>, tops: Seq<i16>, c: (u8, u8), n: int, x: int, y: int)
    requires
        raster::has_px(fb.len() as int, x, y),
        y < 70,
    ensures
        keeps_px(fb, meniscus_on(fb, tops, c, n), x, y),
    decreases n,
{
    if n > 1 {
        lemma_meniscus_above(fb, tops, c, n - 1, x, y);
        let prev = meniscus_on(fb, tops, c, n - 1);
        if let (Some(a), Some(b)) = (crest(tops, n - 2), crest(tops, n - 1)) {
            let steps = imath::smax(imath::smax(imath::sabs(b.0 - a.0), imath::sabs(b.1 - a.1)), 1);
            lemma_line_above(
                prev,
                a.0,
                a.1,
                imath::tdiv((b.0 - a.0) * 256, steps),
                imath::tdiv((b.1 - a.1) * 256, steps),
                c,
                steps + 1,
                x,
                y,
            );
        }
    }
}

proof fn lemma_drops_above(s: Paint, p: Pool, a: WaterAssets, ms: int, alpha: int, n: int, x: int, y: int)
    requires
        raster::has_px(s.fb.len() as int, x, y),
        y < 70,
    ensures
        keeps_px(s.fb, with_drops(s, p, a, ms, alpha, n).fb, x, y),
    decreases n,
{
    if n > 0 {
        lemma_drops_above(s, p, a, ms, alpha, n - 1, x, y);
        let t = with_drops(s, p, a, ms, alpha, n - 1);
        let cx = p.px[n - 1] as int / 64;
        let cy = p.py[n - 1] as int / 64;
        let level = body_level(p, a, n - 1, ms, alpha);
        lemma_shade_above(
            t.fb,
            cx - 2,
            imath::smax(cy - 2, 70),
            cx + 3,
            cy + 3,
            body_shader(a.lut@, level),
            x,
            y,
        );
        lemma_shade_above(
            body_on(t.fb, a.lut@, cx, cy, level),
            cx - 3,
            imath::smax(cy - 3, 70),
            cx + 4,
            cy + 4,
            spark_shader(a.spark@, cx, cy),
            x,
            y,
        );
    }
}

/// The water never touches the status band: no pixel above row 70 is erased or drawn, and no
/// run there is marked for the flush.
pub proof fn lemma_status_band_untouched(
    f: WaterFrame,
    w: int,
    h: int,
    p: Pool,
    a: WaterAssets,
    ms: int,
    alpha: int,
    x: int,
    y: int,
)
    requires
        raster::has_px(f.fb.len() as int, x, y),
        y < 70,
    ensures
        raster::px_at(rendered(f, w, h, p, a, ms, alpha).fb, x, y) == raster::px_at(f.fb, x, y),
        dmi::same_above(f.damage, rendered(f, w, h, p, a, ms, alpha).damage, 70),
        !rendered(f, w, h, p, a, ms, alpha).damage.overflow && dmi::covers(
            rendered(f, w, h, p, a, ms, alpha).damage,
            x,
            y,
        ) ==> dmi::covers(f.damage, x, y),
{
    let er = erase_box(drawn_box(p), f.bbox);
    let d = rendered(f, w, h, p, a, ms, alpha).damage;
    let (c, e) = (imath::smin(er.2, w - 1), imath::smin(er.3, h - 1));
    dmi::lemma_rows_below(f.damage, imath::smax(er.0, 0), c, er.1, e - er.1 + 1);
    if !d.overflow && dmi::covers(d, x, y) {
        let i = choose|i: int| 0 <= i < d.spans.len() && #[trigger] dmi::span_has(d.spans[i], x, y);
        assert(dmi::span_has(f.damage.spans[i], x, y));
    }
    let base = wiped(f.fb, er);
    lemma_shade_above(f.fb, er.0, er.1, er.2 + 1, er.3 + 1, wipe_shader(f.fb.len() as int, er.2), x, y);
    let s0 = Paint { fb: base, budget: 72, tops: Seq::new(64, |i: int| i16::MAX) };
    lemma_drops_above(s0, p, a, ms, alpha, 448, x, y);
    let s = with_drops(s0, p, a, ms, alpha, 448);
    lemma_meniscus_above(s.fb, s.tops, a.line@[210], 64, x, y);
}

} // verus!
