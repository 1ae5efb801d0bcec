//! Drawing the bezel ring: 3 x 3 stamps along the angular tap list, comet-tip ends,
//! incremental sweeps, and the whole ring at a brightness level.
use vstd::prelude::*;

use crate::display::watch_fb;
use crate::display::watch_fb::RectAcc;
use crate::imath;
use crate::pixel;
use crate::raster;
use crate::scenes::ring;
use crate::scenes::ring::RingTables;

verus! {

/// A canvas being drawn on, the box of stamp centres, and the number of pixels written.
pub struct Ink {
    pub fb: Seq<u8>,
    pub acc: RectAcc,
    pub writes: int,
}

/// Number of the nine pixels around `(x, y)` that a buffer of `len` bytes has.
pub open spec fn stamp_count(len: int, x: int, y: int) -> int {
    has1(len, x - 1, y - 1) + has1(len, x, y - 1) + has1(len, x + 1, y - 1) + has1(len, x - 1, y) + has1(
        len,
        x,
        y,
    ) + has1(len, x + 1, y) + has1(len, x - 1, y + 1) + has1(len, x, y + 1) + has1(len, x + 1, y + 1)
}

pub open spec fn has1(len: int, x: int, y: int) -> int {
    if raster::has_px(len, x, y) { 1 } else { 0 }
}

/// A stamp: the nine pixels around the pixel at byte offset `off` shaded by `sh`.
pub open spec fn stamped(k: Ink, off: u32, sh: raster::Shader) -> Ink {
    let x = off as int / 2 % 466;
    let y = off as int / 2 / 466;
    Ink {
        fb: raster::shade(k.fb, x - 1, y - 1, x + 2, y + 2, sh),
        acc: watch_fb::grown(k.acc, x, y),
        writes: k.writes + stamp_count(k.fb.len() as int, x, y),
    }
}

/// Ring colour at brightness `level` (of 256), modulated by the radial alpha.
pub open spec fn level_color(level: int, alpha: int) -> (u8, u8) {
    ring::ring_table()[imath::smin(level * alpha / 256, 255)]
}

/// Shader of a ring stamp.
pub open spec fn ring_shader(level: int) -> raster::Shader {
    |x: int, y: int, p: (u8, u8)| level_color(level, ring::ring_alpha_at(y * 466 + x))
}

fn count1(len: usize, x: i32, y: i32) -> (r: usize)
    ensures
        r == has1(len as int, x as int, y as int),
{
    if raster::in_buffer(len, x, y) { 1 } else { 0 }
}

fn count_stamp(len: usize, x: i32, y: i32) -> (r: usize)
    requires
        -1000 <= x <= 1000,
        -1000 <= y <= 1000,
    ensures
        r == stamp_count(len as int, x as int, y as int),
        r <= 9,
{
    count1(len, x - 1, y - 1) + count1(len, x, y - 1) + count1(len, x + 1, y - 1) + count1(len, x - 1, y) + count1(
        len,
        x,
        y,
    ) + count1(len, x + 1, y) + count1(len, x - 1, y + 1) + count1(len, x, y + 1) + count1(len, x + 1, y + 1)
}

pub open spec fn ink(fb: Seq<u8>, acc: RectAcc, writes: int) -> Ink {
    Ink { fb, acc, writes }
}

/// Offsets that name a pixel of the panel.
pub open spec fn offs_ok(offs: Seq<u32>) -> bool {
    offs.len() <= 396_000 && forall|i: int| 0 <= i < offs.len() ==> (#[trigger] offs[i]) % 2 == 0 && offs[i] + 2
        <= 434_312
}

fn black_stamp(fb: &mut [u8], off: u32, acc: &mut RectAcc) -> (n: usize)
    requires
        off + 2 <= 434_312,
    ensures
        ink(final(fb)@, *final(acc), n as int) == stamped(ink(old(fb)@, *old(acc), 0), off, raster::black()),
        n <= 9,
{
    let pix: usize = off as usize / 2;
    let x: i32 = (pix % 466) as i32;
    let y: i32 = (pix / 466) as i32;
    acc.add(x, y);
    raster::fill_rect_black(fb, x - 1, y - 1, x + 1, y + 1);
    count_stamp(fb.len(), x, y)
}

/// Colour of one ring pixel.
fn color_at(t: &RingTables, level: i32, p: usize) -> (r: (u8, u8))
    requires
        ring::tables_ok(*t),
        0 <= level <= 256,
        p < 217_156,
    ensures
        r == level_color(level as int, ring::ring_alpha_at(p as int)),
{
    proof {
        ring::lemma_tables(*t);
        ring::lemma_alpha_range(p as int);
    }
    let pa: i32 = t.alpha[p] as i32;
    proof {
        assert(0 <= level * pa <= 256 * 255) by (nonlinear_arith)
            requires 0 <= level <= 256, 0 <= pa <= 255;
    }
    t.lut[imath::imin(imath::asr(level * pa, 8), 255) as usize]
}

fn stamp_ring(t: &RingTables, fb: &mut [u8], off: u32, level: i32, acc: &mut RectAcc) -> (n: usize)
    requires
        ring::tables_ok(*t),
        off + 2 <= 434_312,
        0 <= level <= 256,
    ensures
        ink(final(fb)@, *final(acc), n as int) == stamped(
            ink(old(fb)@, *old(acc), 0),
            off,
            ring_shader(level as int),
        ),
        n <= 9,
{
    let pix: usize = off as usize / 2;
    let x: i32 = (pix % 466) as i32;
    let y: i32 = (pix / 466) as i32;
    acc.add(x, y);
    let ghost sh = ring_shader(level as int);
    let f = |x: i32, y: i32, p: (u8, u8)| -> (q: (u8, u8))
        requires
            0 <= x < 466,
            0 <= y < 466,
        ensures
            q == sh(x as int, y as int, p),
        { color_at(t, level, (y * 466 + x) as usize) };
    raster::paint(fb, x - 1, y - 1, x + 2, y + 2, f, Ghost(sh));
    count_stamp(fb.len(), x, y)
}

/// Alpha (of 256) and half width of the stroke `d` angle steps from an arc end: the alpha
/// ramps linearly and the thickness follows a round cap over the fade window.
pub open spec fn end_alpha(d: int) -> int {
    if d >= 400 { 256 } else { imath::smax(d, 0) * 256 / 400 }
}

pub open spec fn end_width(d: int) -> int {
    if d >= 400 {
        5
    } else {
        let e = imath::smax(d, 0);
        imath::sqrt_of(25 * e * (800 - e)) / 400
    }
}

pub fn end_profile(d: i32) -> (r: (i32, i32))
    ensures
        r.0 == end_alpha(d as int),
        r.1 == end_width(d as int),
        0 <= r.0 <= 256,
        0 <= r.1 <= 5,
{
    if d >= ring::FADE_STEPS {
        return (256, ring::HALF_T);
    }
    let e: i32 = imath::imax(d, 0);
    proof {
        assert(0 <= 25 * e * (800 - e) <= 25 * 160_000) by (nonlinear_arith)
            requires 0 <= e <= 400;
    }
    let root: u32 = imath::isqrt((25 * e * (800 - e)) as u32);
    proof {
        let v = 25 * e * (800 - e);
        assert(root <= 2000) by (nonlinear_arith)
            requires root * root <= v, v <= 25 * 160_000;
    }
    (e * 256 / 400, root as i32 / 400)
}

/// Profile of angle step `step` of an arc that ends at `end_step`, lifted `lift/den` of the
/// way towards solid.
pub open spec fn step_alpha(step: int, end_step: int, lift: int, den: int) -> int {
    let a = imath::smin(end_alpha(step), end_alpha(end_step - step));
    if lift > 0 { a + (256 - a) * lift / den } else { a }
}

pub open spec fn step_width(step: int, end_step: int, lift: int, den: int) -> int {
    let w = imath::smin(end_width(step), end_width(end_step - step));
    if lift > 0 { w + (5 - w) * lift / den } else { w }
}

fn step_profile(step: i32, end_step: i32, lift: i32, den: i32) -> (r: (i32, i32))
    requires
        0 <= step <= 36_000,
        0 <= end_step <= 36_000,
        0 <= lift <= den,
        1 <= den <= 1000,
    ensures
        r.0 == step_alpha(step as int, end_step as int, lift as int, den as int),
        r.1 == step_width(step as int, end_step as int, lift as int, den as int),
        0 <= r.0 <= 256,
        0 <= r.1 <= 5,
{
    let (a0, h0) = end_profile(step);
    let (a1, h1) = end_profile(end_step - step);
    let a: i32 = imath::imin(a0, a1);
    let w: i32 = imath::imin(h0, h1);
    if lift > 0 {
        proof {
            let (x, y) = (256 - a, 5 - w);
            assert(0 <= x * lift && x * lift <= 256_000) by (nonlinear_arith)
                requires 0 <= x <= 256, 0 <= lift <= 1000;
            assert(0 <= x * lift / den as int <= x) by (nonlinear_arith)
                requires 0 <= x, 0 <= lift <= den, den >= 1;
            assert(0 <= y * lift && y * lift <= 5_000) by (nonlinear_arith)
                requires 0 <= y <= 5, 0 <= lift <= 1000;
            assert(0 <= y * lift / den as int <= y) by (nonlinear_arith)
                requires 0 <= y, 0 <= lift <= den, den >= 1;
        }
        (a + (256 - a) * lift / den, w + (5 - w) * lift / den)
    } else {
        (a, w)
    }
}

/// How an arc is drawn: where it ends and how far it is lifted towards solid.
pub struct ArcStyle {
    pub end_step: int,
    pub lift: int,
    pub den: int,
}

pub open spec fn style(arc_end: int, lift: int, den: int) -> ArcStyle {
    ArcStyle { end_step: arc_end / 11, lift, den }
}

/// Distance of tap `i` from the centre line.
pub open spec fn tap_off(i: int) -> int {
    imath::sabs(i % 11 - 5)
}

/// The taps of every other angle step in `lo..hi` that lie outside the narrowed stroke
/// blacked out.
pub open spec fn arc_blacks(k: Ink, offs: Seq<u32>, st: ArcStyle, lo: int, hi: int) -> Ink
    decreases hi - lo,
{
    if hi <= lo {
        k
    } else {
        let p = arc_blacks(k, offs, st, lo, hi - 1);
        let i = hi - 1;
        let s = i / 11;
        if s % 2 == 0 && tap_off(i) > step_width(s, st.end_step, st.lift, st.den) {
            stamped(p, offs[i], raster::black())
        } else {
            p
        }
    }
}

/// The taps of every other angle step in `lo..hi` inside the stroke drawn.
pub open spec fn arc_colors(k: Ink, offs: Seq<u32>, st: ArcStyle, lo: int, hi: int) -> Ink
    decreases hi - lo,
{
    if hi <= lo {
        k
    } else {
        let p = arc_colors(k, offs, st, lo, hi - 1);
        let i = hi - 1;
        let s = i / 11;
        let a = step_alpha(s, st.end_step, st.lift, st.den);
        if s % 2 == 0 && a > 0 && tap_off(i) <= step_width(s, st.end_step, st.lift, st.den) {
            stamped(p, offs[i], ring_shader(a))
        } else {
            p
        }
    }
}

/// Taps `lo..hi` redrawn with the end profile: blacks first, so that a narrowing cap leaves
/// nothing behind, then the colours on top.
pub open spec fn arc_drawn(k: Ink, offs: Seq<u32>, lo: int, hi: int, arc_end: int, lift: int, den: int) -> Ink {
    let h = imath::smin(hi, offs.len() as int);
    let st = style(arc_end, lift, den);
    arc_colors(arc_blacks(k, offs, st, lo, h), offs, st, lo, h)
}

proof fn lemma_ink_shift(k: Ink, w: int, off: u32, sh: raster::Shader)
    ensures
        stamped(ink(k.fb, k.acc, k.writes + w), off, sh) == ink(
            stamped(k, off, sh).fb,
            stamped(k, off, sh).acc,
            stamped(k, off, sh).writes + w,
        ),
{
}

/// Redraw taps `lo..hi`; returns the number of pixels written.
pub fn redraw_arc_range(
    t: &RingTables,
    fb: &mut [u8],
    lo: usize,
    hi: usize,
    arc_end: usize,
    lift: i32,
    den: i32,
    acc: &mut RectAcc,
) -> (n: usize)
    requires
        ring::tables_ok(*t),
        arc_end <= 396_000,
        0 <= lift <= den,
        1 <= den <= 1000,
    ensures
        ink(final(fb)@, *final(acc), n as int) == arc_drawn(
            ink(old(fb)@, *old(acc), 0),
            t.anim@,
            lo as int,
            hi as int,
            arc_end as int,
            lift as int,
            den as int,
        ),
        n <= 18 * t.anim@.len(),
{
    proof {
        ring::lemma_tables(*t);
    }
    let h: usize = if hi < t.anim.len() { hi } else { t.anim.len() };
    if lo >= h {
        return 0;
    }
    let end_step: i32 = (arc_end / 11) as i32;
    let ghost k0 = ink(fb@, *acc, 0);
    let ghost st = style(arc_end as int, lift as int, den as int);
    let mut writes: usize = 0;
    let mut cur: i32 = -1;
    let mut alpha: i32 = 0;
    let mut hw: i32 = 0;
    let mut i: usize = lo;
    while i < h
        invariant
            ring::tables_ok(*t),
            offs_ok(t.anim@),
            lo <= i <= h <= t.anim@.len(),
            0 <= end_step <= 36_000,
            0 <= lift <= den,
            1 <= den <= 1000,
            st.end_step == end_step,
            st.lift == lift,
            st.den == den,
            cur >= 0 ==> hw == step_width(cur as int, st.end_step, st.lift, st.den),
            ink(fb@, *acc, writes as int) == arc_blacks(k0, t.anim@, st, lo as int, i as int),
            writes <= 9 * (i - lo),
        decreases h - i,
    {
        let step: i32 = (i / 11) as i32;
        if step % 2 == 0 {
            if step != cur {
                cur = step;
                let pr = step_profile(step, end_step, lift, den);
                alpha = pr.0;
                hw = pr.1;
            }
            let dr: i32 = (i % 11) as i32 - 5;
            if imath::iabs(dr) > hw {
                proof {
                    lemma_ink_shift(ink(fb@, *acc, 0), writes as int, t.anim@[i as int], raster::black());
                    assert(t.anim@[i as int] + 2 <= 434_312);
                }
                writes = writes + black_stamp(fb, t.anim[i], acc);
            }
        }
        i = i + 1;
    }
    let ghost k1 = ink(fb@, *acc, writes as int);
    let ghost w1 = writes;
    cur = -1;
    i = lo;
    while i < h
        invariant
            ring::tables_ok(*t),
            offs_ok(t.anim@),
            lo <= i <= h <= t.anim@.len(),
            0 <= end_step <= 36_000,
            0 <= lift <= den,
            1 <= den <= 1000,
            st.end_step == end_step,
            st.lift == lift,
            st.den == den,
            cur >= 0 ==> hw == step_width(cur as int, st.end_step, st.lift, st.den) && alpha == step_alpha(
                cur as int,
                st.end_step,
                st.lift,
                st.den,
            ) && 0 <= alpha <= 256,
            ink(fb@, *acc, writes as int) == arc_colors(k1, t.anim@, st, lo as int, i as int),
            writes <= w1 + 9 * (i - lo),
            w1 <= 9 * (h - lo),
        decreases h - i,
    {
        let step: i32 = (i / 11) as i32;
        if step % 2 == 0 {
            if step != cur {
                cur = step;
                let pr = step_profile(step, end_step, lift, den);
                alpha = pr.0;
                hw = pr.1;
            }
            let dr: i32 = (i % 11) as i32 - 5;
            if alpha > 0 && imath::iabs(dr) <= hw {
                proof {
                    lemma_ink_shift(
                        ink(fb@, *acc, 0),
                        writes as int,
                        t.anim@[i as int],
                        ring_shader(alpha as int),
                    );
                    assert(t.anim@[i as int] + 2 <= 434_312);
                }
                writes = writes + stamp_ring(t, fb, t.anim[i], alpha, acc);
            }
        }
        i = i + 1;
    }
    writes
}

/// Taps `from..to` blacked out.
pub open spec fn taps_erased(k: Ink, offs: Seq<u32>, from: int, to: int) -> Ink
    decreases to - from,
{
    if to <= from {
        k
    } else {
        stamped(taps_erased(k, offs, from, to - 1), offs[to - 1], raster::black())
    }
}

fn erase_taps(t: &RingTables, fb: &mut [u8], from: usize, to: usize, acc: &mut RectAcc) -> (n: usize)
    requires
        ring::tables_ok(*t),
        from <= to <= t.anim@.len(),
    ensures
        ink(final(fb)@, *final(acc), n as int) == taps_erased(
            ink(old(fb)@, *old(acc), 0),
            t.anim@,
            from as int,
            to as int,
        ),
        n <= 9 * t.anim@.len(),
{
    proof {
        ring::lemma_tables(*t);
    }
    let ghost k0 = ink(fb@, *acc, 0);
    let mut writes: usize = 0;
    let mut i: usize = from;
    while i < to
        invariant
            offs_ok(t.anim@),
            from <= i <= to <= t.anim@.len(),
            ink(fb@, *acc, writes as int) == taps_erased(k0, t.anim@, from as int, i as int),
            writes <= 9 * (i - from),
        decreases to - i,
    {
        proof {
            lemma_ink_shift(ink(fb@, *acc, 0), writes as int, t.anim@[i as int], raster::black());
            assert(t.anim@[i as int] + 2 <= 434_312);
        }
        writes = writes + black_stamp(fb, t.anim[i], acc);
        i = i + 1;
    }
    writes
}

/// The writes of a drawing step add up.
pub open spec fn ink_plus(k: Ink, w: int) -> Ink {
    ink(k.fb, k.acc, k.writes + w)
}

proof fn lemma_erase_shift(k: Ink, w: int, offs: Seq<u32>, from: int, to: int)
    ensures
        taps_erased(ink_plus(k, w), offs, from, to) == ink_plus(taps_erased(k, offs, from, to), w),
    decreases to - from,
{
    if to > from {
        lemma_erase_shift(k, w, offs, from, to - 1);
    }
}

proof fn lemma_blacks_shift(k: Ink, w: int, offs: Seq<u32>, st: ArcStyle, lo: int, hi: int)
    ensures
        arc_blacks(ink_plus(k, w), offs, st, lo, hi) == ink_plus(arc_blacks(k, offs, st, lo, hi), w),
    decreases hi - lo,
{
    if hi > lo {
        lemma_blacks_shift(k, w, offs, st, lo, hi - 1);
    }
}

proof fn lemma_colors_shift(k: Ink, w: int, offs: Seq<u32>, st: ArcStyle, lo: int, hi: int)
    ensures
        arc_colors(ink_plus(k, w), offs, st, lo, hi) == ink_plus(arc_colors(k, offs, st, lo, hi), w),
    decreases hi - lo,
{
    if hi > lo {
        lemma_colors_shift(k, w, offs, st, lo, hi - 1);
    }
}

proof fn lemma_arc_shift(k: Ink, w: int, offs: Seq<u32>, lo: int, hi: int, arc_end: int, lift: int, den: int)
    ensures
        arc_drawn(ink_plus(k, w), offs, lo, hi, arc_end, lift, den) == ink_plus(
            arc_drawn(k, offs, lo, hi, arc_end, lift, den),
            w,
        ),
{
    let h = imath::smin(hi, offs.len() as int);
    let st = style(arc_end, lift, den);
    lemma_blacks_shift(k, w, offs, st, lo, h);
    lemma_colors_shift(arc_blacks(k, offs, st, lo, h), w, offs, st, lo, h);
}

/// The ring after its drawn length moved from `prev` to `target` taps. Growing redraws from
/// the old tip's fade window on; shrinking blacks out what was removed and redraws the new
/// tip; while the tip is near the start, the start is refreshed too.
pub open spec fn arc_moved(k: Ink, offs: Seq<u32>, prev: int, target: int) -> Ink {
    let k1 = if target > prev {
        arc_drawn(k, offs, imath::smax(prev - 4400, 0), target, target, 0, 1)
    } else if target < prev {
        arc_drawn(taps_erased(k, offs, target, prev), offs, imath::smax(target - 4400, 0), target, target, 0, 1)
    } else {
        k
    };
    if 0 < target < 8800 {
        arc_drawn(k1, offs, 0, imath::smin(target, 4400), target, 0, 1)
    } else {
        k1
    }
}

/// Move the drawn length from `prev` to `target` taps.
pub fn apply_bezel_target(t: &RingTables, fb: &mut [u8], prev: usize, target: usize, acc: &mut RectAcc) -> (n: usize)
    requires
        ring::tables_ok(*t),
        prev <= t.anim@.len(),
        target <= t.anim@.len(),
    ensures
        ink(final(fb)@, *final(acc), n as int) == arc_moved(
            ink(old(fb)@, *old(acc), 0),
            t.anim@,
            prev as int,
            target as int,
        ),
        n <= 45 * t.anim@.len(),
{
    proof {
        ring::lemma_tables(*t);
    }
    let ghost k0 = ink(fb@, *acc, 0);
    let mut writes: usize = 0;
    if target > prev {
        let lo: usize = prev.saturating_sub(4400);
        writes = redraw_arc_range(t, fb, lo, target, target, 0, 1, acc);
    } else if target < prev {
        writes = erase_taps(t, fb, target, prev, acc);
        let ghost k1 = ink(fb@, *acc, 0);
        let lo: usize = target.saturating_sub(4400);
        proof {
            lemma_arc_shift(k1, writes as int, t.anim@, lo as int, target as int, target as int, 0, 1);
        }
        let more: usize = redraw_arc_range(t, fb, lo, target, target, 0, 1, acc);
        writes = writes + more;
    }
    if target > 0 && target < 8800 {
        let hi: usize = if target < 4400 { target } else { 4400 };
        proof {
            lemma_arc_shift(ink(fb@, *acc, 0), writes as int, t.anim@, 0, hi as int, target as int, 0, 1);
        }
        let more: usize = redraw_arc_range(t, fb, 0, hi, target, 0, 1, acc);
        writes = writes + more;
    }
    writes
}

/// Both end windows of the closed ring redrawn, lifted `lift/den` towards solid.
pub open spec fn ends_drawn(k: Ink, offs: Seq<u32>, lift: int, den: int) -> Ink {
    let len = offs.len() as int;
    let f = imath::smin(4400, len);
    arc_drawn(arc_drawn(k, offs, 0, f, len, lift, den), offs, len - f, len, len, lift, den)
}

pub fn redraw_end_windows(t: &RingTables, fb: &mut [u8], lift: i32, den: i32, acc: &mut RectAcc) -> (n: usize)
    requires
        ring::tables_ok(*t),
        0 <= lift <= den,
        1 <= den <= 1000,
    ensures
        ink(final(fb)@, *final(acc), n as int) == ends_drawn(
            ink(old(fb)@, *old(acc), 0),
            t.anim@,
            lift as int,
            den as int,
        ),
        n <= 36 * t.anim@.len(),
{
    proof {
        ring::lemma_tables(*t);
    }
    let len: usize = t.anim.len();
    let f: usize = if len < 4400 { len } else { 4400 };
    let writes: usize = redraw_arc_range(t, fb, 0, f, len, lift, den, acc);
    proof {
        lemma_arc_shift(
            ink(fb@, *acc, 0),
            writes as int,
            t.anim@,
            len - f,
            len as int,
            len as int,
            lift as int,
            den as int,
        );
    }
    let more: usize = redraw_arc_range(t, fb, len - f, len, len, lift, den, acc);
    writes + more
}

/// Colour of ring pixel `p` at brightness `level`.
pub open spec fn ring_val(level: int) -> spec_fn(int) -> (u8, u8) {
    |p: int| level_color(level, ring::ring_alpha_at(p))
}

/// The canvas with every ring pixel at brightness `level` (of 256).
pub open spec fn ring_on(fb: Seq<u8>, level: int) -> Seq<u8> {
    ring::sel_on(fb, ring::ring_sel(), ring_val(level), 217_156)
}

/// The damage box of the whole ring.
pub open spec fn ring_acc(acc: RectAcc) -> RectAcc {
    watch_fb::grown(watch_fb::grown(acc, 4, 4), 462, 462)
}

/// Draw the whole ring at a brightness; returns the number of its pixels.
pub fn blit_full_ring(t: &RingTables, fb: &mut [u8], level: i32, acc: &mut RectAcc) -> (n: usize)
    requires
        ring::tables_ok(*t),
        0 <= level <= 256,
    ensures
        final(fb)@ == ring_on(old(fb)@, level as int),
        *final(acc) == ring_acc(*old(acc)),
        n == t.full@.len(),
        n <= 217_156,
{
    proof {
        ring::lemma_tables(*t);
        ring::lemma_sel_first(fb@, ring::ring_sel(), ring_val(level as int));
    }
    acc.add(4, 4);
    acc.add(462, 462);
    let ghost fb0 = fb@;
    let ghost sel = ring::ring_sel();
    let ghost val = ring_val(level as int);
    let mut j: usize = 0;
    while j < t.full.len()
        invariant
            ring::tables_ok(*t),
            0 <= level <= 256,
            sel == ring::ring_sel(),
            val == ring_val(level as int),
            j <= t.full@.len(),
            t.full@ == ring::sel_list(sel, 217_156),
            fb@ == ring::sel_on(fb0, sel, val, ring::sel_bound(sel, 217_156, j as int)),
        decreases t.full@.len() - j,
    {
        proof {
            ring::lemma_sel_entry(fb0, sel, val, j as int);
        }
        let p: usize = t.full[j] as usize / 2;
        let c: (u8, u8) = color_at(t, level, p);
        raster::set_px(fb, (p % 466) as i32, (p / 466) as i32, c);
        j = j + 1;
    }
    t.full.len()
}

/// The canvas after the first `n` pixels of a run at brightness `level`.
pub open spec fn run_on(fb: Seq<u8>, start: int, n: int, level: int) -> Seq<u8>
    decreases n,
{
    if n <= 0 {
        fb
    } else {
        let p = start / 2 + n - 1;
        raster::put_px(
            run_on(fb, start, n - 1, level),
            p % 466,
            p / 466,
            level_color(level, ring::ring_alpha_at(p)),
        )
    }
}

/// The canvas after those of the first `n` runs that start on rows `y0..y1`.
pub open spec fn rows_on(fb: Seq<u8>, runs: Seq<ring::Run>, n: int, y0: int, y1: int, level: int) -> Seq<u8>
    decreases n,
{
    if n <= 0 {
        fb
    } else {
        let prev = rows_on(fb, runs, n - 1, y0, y1, level);
        let (start, len) = runs[n - 1];
        if y0 * 932 <= start < y1 * 932 { run_on(prev, start as int, len as int, level) } else { prev }
    }
}

/// Pixels in those runs.
pub open spec fn rows_pixels(runs: Seq<ring::Run>, n: int, y0: int, y1: int) -> int
    decreases n,
{
    if n <= 0 {
        0
    } else {
        rows_pixels(runs, n - 1, y0, y1) + (if y0 * 932 <= runs[n - 1].0 < y1 * 932 {
            runs[n - 1].1 as int
        } else {
            0
        })
    }
}

/// Brightness of 256 from a Q14 level.
pub open spec fn level_q8(level_q14: int) -> int {
    imath::sclamp(level_q14 / 64, 0, 256)
}

fn draw_run(t: &RingTables, fb: &mut [u8], start: u32, len: u16, level: i32)
    requires
        ring::tables_ok(*t),
        0 <= level <= 256,
        start % 2 == 0,
        start + len * 2 <= 434_312,
    ensures
        final(fb)@ == run_on(old(fb)@, start as int, len as int, level as int),
{
    let first: usize = start as usize / 2;
    let mut k: usize = 0;
    while k < len as usize
        invariant
            ring::tables_ok(*t),
            0 <= level <= 256,
            k <= len,
            first == start as int / 2,
            start % 2 == 0,
            start + len * 2 <= 434_312,
            fb@ == run_on(old(fb)@, start as int, k as int, level as int),
        decreases len - k,
    {
        let p: usize = first + k;
        let c: (u8, u8) = color_at(t, level, p);
        raster::set_px(fb, (p % 466) as i32, (p / 466) as i32, c);
        k = k + 1;
    }
}

/// Redraw the ring's runs on rows `min_y..max_y` at a brightness; returns the pixels written.
pub fn draw_ring_rows(
    t: &RingTables,
    fb: &mut [u8],
    min_y: i32,
    max_y: i32,
    level_q14: i32,
    acc: &mut RectAcc,
) -> (n: usize)
    requires
        ring::tables_ok(*t),
        old(fb)@.len() >= 434_312,
        min_y <= 4_608_333,
        max_y <= 4_608_333,
    ensures
        ({
            let (y0, y1) = (imath::smax(min_y as int, 0), imath::smax(max_y as int, 0));
            let runs = t.runs@;
            &&& final(fb)@ == rows_on(old(fb)@, runs, runs.len() as int, y0, y1, level_q8(level_q14 as int))
            &&& n == rows_pixels(runs, runs.len() as int, y0, y1)
            &&& *final(acc) == (if n > 0 {
                watch_fb::grown(
                    watch_fb::grown(*old(acc), 4, y0),
                    462,
                    imath::smin(max_y - 1, 462),
                )
            } else {
                *old(acc)
            })
        }),
{
    proof {
        ring::lemma_tables(*t);
    }
    let level: i32 = imath::iclamp(imath::asr(level_q14, 6), 0, 256);
    let min_off: u32 = imath::imax(min_y, 0) as u32 * 932;
    let max_off: u32 = imath::imax(max_y, 0) as u32 * 932;
    let ghost (y0, y1) = (imath::smax(min_y as int, 0), imath::smax(max_y as int, 0));
    let ghost fb0 = fb@;
    let mut writes: usize = 0;
    let mut r: usize = 0;
    while r < t.runs.len()
        invariant
            ring::tables_ok(*t),
            ring::runs_within(t.runs@, 434_312),
            t.runs@.len() <= 217_156,
            0 <= level <= 256,
            level == level_q8(level_q14 as int),
            min_off == y0 * 932,
            max_off == y1 * 932,
            r <= t.runs@.len(),
            fb@ == rows_on(fb0, t.runs@, r as int, y0, y1, level as int),
            writes == rows_pixels(t.runs@, r as int, y0, y1),
            writes <= ring::run_pixels(t.runs@, r as int),
            ring::run_pixels(t.runs@, t.runs@.len() as int) <= 217_156,
            writes > 0 ==> y1 > 0,
        decreases t.runs@.len() - r,
    {
        let (start, len) = t.runs[r];
        proof {
            assert(t.runs@[r as int].0 + t.runs@[r as int].1 * 2 <= 434_312);
            ring::lemma_run_pixels_monotonic(t.runs@, r + 1, t.runs@.len() as int);
        }
        if start >= min_off && start < max_off {
            draw_run(t, fb, start, len, level);
            writes = writes + len as usize;
        }
        r = r + 1;
    }
    if writes > 0 {
        acc.add(4, imath::imax(min_y, 0));
        acc.add(462, imath::imin(max_y - 1, 462));
    }
    writes
}

/// Byte `i` of the canvas once the ring's pixels before pixel `n` on rows `y0..y1` are drawn
/// at brightness `level`.
pub open spec fn row_byte(fb: Seq<u8>, y0: int, y1: int, level: int, n: int, i: int) -> u8 {
    let p = i / 2;
    if p < n && ring::in_ring(p) && y0 <= p / 466 < y1 {
        let c = level_color(level, ring::ring_alpha_at(p));
        if i % 2 == 0 {
            c.0
        } else {
            c.1
        }
    } else {
        fb[i]
    }
}

proof fn lemma_run_bytes(fb: Seq<u8>, start: int, n: int, level: int)
    requires
        0 <= start,
        start % 2 == 0,
        start + 2 * n <= 434_312 <= fb.len(),
        0 <= n,
    ensures
        run_on(fb, start, n, level).len() == fb.len(),
        forall|i: int|
            0 <= i < fb.len() ==> #[trigger] run_on(fb, start, n, level)[i] == (if start / 2 <= i / 2 < start / 2 + n {
                let c = level_color(level, ring::ring_alpha_at(i / 2));
                if i % 2 == 0 {
                    c.0
                } else {
                    c.1
                }
            } else {
                fb[i]
            }),
    decreases n,
{
    if n > 0 {
        lemma_run_bytes(fb, start, n - 1, level);
        let p = start / 2 + n - 1;
        assert(raster::slot(p % 466, p / 466) == 2 * p);
        assert(raster::has_px(fb.len() as int, p % 466, p / 466));
    }
}

/// A run lies on one row, and all its pixels are the ring's.
proof fn lemma_run_on_row(t: RingTables, r: int, k: int)
    requires
        ring::tables_ok(t),
        0 <= r < t.runs@.len(),
        0 <= k < t.runs@[r].1,
    ensures
        ring::in_ring(t.runs@[r].0 as int / 2 + k),
        (t.runs@[r].0 as int / 2 + k) / 466 == t.runs@[r].0 as int / 2 / 466,
    decreases k,
{
    let list = ring::ring_list(217_156);
    ring::lemma_tables(t);
    ring::lemma_sel_list(ring::ring_sel(), 217_156);
    ring::lemma_runs_flatten(list, list.len() as int, r, k);
    let j = ring::run_pixels(t.runs@, r) + k;
    let p = t.runs@[r].0 as int / 2 + k;
    assert(t.runs@[r].0 % 2 == 0);
    assert(list[j] as int / 2 == p);
    assert(ring::ring_sel()(p));
    ring::lemma_ring_margin(p);
    if k > 0 {
        lemma_run_on_row(t, r, k - 1);
    }
}

proof fn lemma_rows_bytes(t: RingTables, fb: Seq<u8>, y0: int, y1: int, level: int, r: int)
    requires
        ring::tables_ok(t),
        fb.len() >= 434_312,
        0 <= r <= t.runs@.len(),
    ensures
        ({
            let a = rows_on(fb, t.runs@, r, y0, y1, level);
            let n = ring::sel_bound(ring::ring_sel(), 217_156, ring::run_pixels(t.runs@, r));
            &&& a.len() == fb.len()
            &&& forall|i: int| 0 <= i < fb.len() ==> #[trigger] a[i] == row_byte(fb, y0, y1, level, n, i)
        }),
    decreases r,
{
    let sel = ring::ring_sel();
    let list = ring::ring_list(217_156);
    let runs = t.runs@;
    let m = ring::run_pixels(runs, r);
    let n = ring::sel_bound(sel, 217_156, m);
    let a = rows_on(fb, runs, r, y0, y1, level);
    ring::lemma_tables(t);
    ring::lemma_sel_list(sel, 217_156);
    if r == 0 {
        assert forall|i: int| 0 <= i < fb.len() implies #[trigger] a[i] == row_byte(fb, y0, y1, level, n, i) by {
            if i / 2 < n {
                ring::lemma_sel_gaps(sel, 217_156, 0, i / 2);
                assert(!sel(i / 2));
            }
        }
    } else {
        lemma_rows_bytes(t, fb, y0, y1, level, r - 1);
        let (start, len) = runs[r - 1];
        let first = start as int / 2;
        let m0 = ring::run_pixels(runs, r - 1);
        let b = rows_on(fb, runs, r - 1, y0, y1, level);
        assert(start % 2 == 0 && start + len * 2 <= 434_312);
        lemma_run_bytes(b, start as int, len as int, level);
        ring::lemma_runs_filled(list, list.len() as int, r - 1);
        ring::lemma_runs_flatten(list, list.len() as int, r - 1, 0);
        ring::lemma_runs_flatten(list, list.len() as int, r - 1, len - 1);
        assert(ring::sel_bound(sel, 217_156, m0) == first);
        assert(m == m0 + len);
        assert(ring::sel_bound(sel, 217_156, m - 1) == first + len - 1);
        if m < list.len() {
            lemma_list_grows(sel, 217_156, m - 1);
        }
        assert(first + len <= n);
        assert forall|i: int| 0 <= i < fb.len() implies #[trigger] a[i] == row_byte(fb, y0, y1, level, n, i) by {
            let p = i / 2;
            assert(b[i] == row_byte(fb, y0, y1, level, first, i));
            if first <= p < first + len {
                lemma_run_on_row(t, r - 1, p - first);
                assert(y0 * 932 <= start < y1 * 932 <==> y0 <= first / 466 < y1);
            } else if first + len <= p < n {
                ring::lemma_sel_gaps(sel, 217_156, m, p);
                assert(!sel(p));
            }
        }
    }
}

proof fn lemma_list_grows(sel: spec_fn(int) -> bool, n: int, j: int)
    requires
        0 <= n <= 217_156,
        0 <= j,
        j + 1 < ring::sel_list(sel, n).len(),
    ensures
        ring::sel_list(sel, n)[j] as int / 2 < ring::sel_list(sel, n)[j + 1] as int / 2,
    decreases n,
{
    if n > 0 {
        ring::lemma_sel_list(sel, n - 1);
        if j + 1 < ring::sel_list(sel, n - 1).len() {
            lemma_list_grows(sel, n - 1, j);
        }
    }
}

/// Redrawing rows of the ring writes exactly the ring's pixels on those rows: every other byte
/// stays, and at brightness 0 what is written is black.
pub proof fn lemma_ring_rows(t: RingTables, fb: Seq<u8>, y0: int, y1: int, level: int, i: int)
    requires
        ring::tables_ok(t),
        fb.len() >= 434_312,
        0 <= i < fb.len(),
    ensures
        ({
            let a = rows_on(fb, t.runs@, t.runs@.len() as int, y0, y1, level);
            &&& a.len() == fb.len()
            &&& a[i] == row_byte(fb, y0, y1, level, 217_156, i)
            &&& !(y0 * 932 <= i < y1 * 932) ==> a[i] == fb[i]
            &&& level == 0 && a[i] != fb[i] ==> a[i] == 0
        }),
{
    let runs = t.runs@;
    lemma_rows_bytes(t, fb, y0, y1, level, runs.len() as int);
    ring::lemma_tables(t);
    assert(i / 2 / 466 == i / 932);
    lemma_level_none(ring::ring_alpha_at(i / 2));
}

/// At brightness 0 the ring is black.
pub proof fn lemma_level_none(alpha: int)
    ensures
        level_color(0, alpha) == (0u8, 0u8),
{
    assert(0 * alpha == 0) by (nonlinear_arith);
    assert(ring::ring_table()[0] == ring::bezel_color(0));
    reveal(pixel::rgb);
    assert(pixel::rgb888(0, 0, 0) == (0u8, 0u8));
}

/// The pixels redrawn on adjacent ranges of rows add up, and all rows together hold the whole
/// ring.
pub proof fn lemma_ring_rows_count(t: RingTables, a: int, b: int, e: int)
    requires
        ring::tables_ok(t),
        0 <= a <= b <= e,
    ensures
        ({
            let (runs, n) = (t.runs@, t.runs@.len() as int);
            &&& rows_pixels(runs, n, a, b) + rows_pixels(runs, n, b, e) == rows_pixels(runs, n, a, e)
            &&& rows_pixels(runs, n, 0, 466) == t.full@.len()
        }),
{
    ring::lemma_tables(t);
    lemma_rows_sum(t.runs@, t.runs@.len() as int, a, b, e);
}

proof fn lemma_rows_sum(runs: Seq<ring::Run>, n: int, a: int, b: int, e: int)
    requires
        0 <= n <= runs.len(),
        ring::runs_within(runs, 434_312),
        0 <= a <= b <= e,
    ensures
        rows_pixels(runs, n, a, b) + rows_pixels(runs, n, b, e) == rows_pixels(runs, n, a, e),
        rows_pixels(runs, n, 0, 466) == ring::run_pixels(runs, n),
    decreases n,
{
    if n > 0 {
        lemma_rows_sum(runs, n - 1, a, b, e);
        assert(runs[n - 1].0 + runs[n - 1].1 * 2 <= 434_312);
    }
}

} // verus!
