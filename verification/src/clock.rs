//! A digital clock on black: time and date in scale-to-gray type, and a bezel ring that
//! sweeps in at start-up and is undrawn and redrawn on every minute, a bounded stretch per
//! frame.
use vstd::prelude::*;

use crate::font;
use crate::font::Glyph;
use crate::imath;
use crate::pixel;
use crate::raidal;
use crate::raster;
use crate::scenes::ring;
use crate::trig::FRAC_PI_2_Q14;

verus! {

pub const PAD: i32 = 10;
/// Radius of the ring's centre line.
pub const BEZEL_R: i32 = 223;
pub const BEZEL_INITIAL_MS: u32 = 8_000;
pub const BEZEL_UNDRAW_MS: u32 = 3_500;
pub const BEZEL_REDRAW_MS: u32 = 3_500;
/// Taps drawn or undrawn in one frame at most.
pub const MAX_CENTERS_PER_FRAME: usize = 4_500;
/// No minute seen yet.
const NO_MINUTE: u8 = 99;

/// Column of tap `dr` pixels off the centre line at angle step `i`.
#[verifier::opaque]
pub open spec fn tap_x(i: int, dr: int) -> int {
    233 + ((223 + dr) * raidal::sine(ring::step_phase(i)) + 8192) / 16_384
}

/// Row of that tap.
#[verifier::opaque]
pub open spec fn tap_y(i: int, dr: int) -> int {
    233 + ((223 + dr) * raidal::sine(ring::step_phase(i) + 25_736) + 8192) / 16_384
}

/// Tap `k`, counting 11 taps per step, lies on the panel.
pub open spec fn tap_on(k: int) -> bool {
    ring::on_panel(tap_x(k / 11, k % 11 - 5), tap_y(k / 11, k % 11 - 5))
}

/// Byte offset of tap `k`.
pub open spec fn tap_offset(k: int) -> int {
    (tap_y(k / 11, k % 11 - 5) * 466 + tap_x(k / 11, k % 11 - 5)) * 2
}

/// Byte offsets of the taps on the panel among the first `k`, in angular order.
pub open spec fn tap_list(k: int) -> Seq<u32>
    decreases k,
{
    if k <= 0 {
        Seq::empty()
    } else if tap_on(k - 1) {
        tap_list(k - 1).push(tap_offset(k - 1) as u32)
    } else {
        tap_list(k - 1)
    }
}

/// Pixel `p` is one of the nine around tap `k`.
pub open spec fn tap_covers(k: int, p: int) -> bool {
    &&& tap_on(k)
    &&& -1 <= p % 466 - tap_x(k / 11, k % 11 - 5) <= 1
    &&& -1 <= p / 466 - tap_y(k / 11, k % 11 - 5) <= 1
}

/// Pixel `p` is covered by one of the first `n` taps.
pub open spec fn covered_by(n: int, p: int) -> bool {
    exists|k: int| 0 <= k < n && #[trigger] tap_covers(k, p)
}

/// The pixels of the whole ring.
pub open spec fn ring_sel() -> spec_fn(int) -> bool {
    |p: int| covered_by(396_000, p)
}

/// Byte offsets of the ring's pixels in row order.
pub open spec fn ring_offsets() -> Seq<u32> {
    ring::sel_list(ring_sel(), 217_156)
}

fn tap(i: i32, dr: i32, c: i32, s: i32) -> (r: (i32, i32))
    requires
        -5 <= dr <= 5,
        c == raidal::sine(ring::step_phase(i as int)),
        s == raidal::sine(ring::step_phase(i as int) + 25_736),
        -32_768 <= c <= 32_767,
        -32_768 <= s <= 32_767,
    ensures
        r.0 == tap_x(i as int, dr as int),
        r.1 == tap_y(i as int, dr as int),
{
    let rr: i32 = BEZEL_R + dr;
    proof {
        reveal(tap_x);
        reveal(tap_y);
        assert(-228 * 32_768 <= rr * c <= 228 * 32_768) by (nonlinear_arith)
            requires
                218 <= rr <= 228,
                -32_768 <= c <= 32_768,
        ;
        assert(-228 * 32_768 <= rr * s <= 228 * 32_768) by (nonlinear_arith)
            requires
                218 <= rr <= 228,
                -32_768 <= s <= 32_768,
        ;
    }
    (233 + imath::asr(rr * c + 8192, 14), 233 + imath::asr(rr * s + 8192, 14))
}

/// Every tap lies on the panel, with room around it.
pub proof fn lemma_tap_range(i: int, dr: int)
    requires
        -5 <= dr <= 5,
    ensures
        5 <= tap_x(i, dr) <= 461,
        5 <= tap_y(i, dr) <= 461,
{
    reveal(tap_x);
    reveal(tap_y);
    let c = raidal::sine(ring::step_phase(i));
    let s = raidal::sine(ring::step_phase(i) + 25_736);
    raidal::lemma_sine_range(ring::step_phase(i));
    raidal::lemma_sine_range(ring::step_phase(i) + 25_736);
    let rr = 223 + dr;
    assert(-228 * 16_384 <= rr * c <= 228 * 16_384) by (nonlinear_arith)
        requires
            218 <= rr <= 228,
            -16_384 <= c <= 16_384,
    ;
    assert(-228 * 16_384 <= rr * s <= 228 * 16_384) by (nonlinear_arith)
        requires
            218 <= rr <= 228,
            -16_384 <= s <= 16_384,
    ;
}

proof fn lemma_covered_step(k: int, p: int)
    requires
        k >= 0,
    ensures
        covered_by(k + 1, p) == (covered_by(k, p) || tap_covers(k, p)),
{
    if covered_by(k + 1, p) {
        let j = choose|j: int| 0 <= j < k + 1 && #[trigger] tap_covers(j, p);
        if j < k {
            assert(covered_by(k, p));
        }
    }
    if covered_by(k, p) {
        let j = choose|j: int| 0 <= j < k && #[trigger] tap_covers(j, p);
        assert(0 <= j < k + 1 && tap_covers(j, p));
    }
    if tap_covers(k, p) {
        assert(0 <= k < k + 1 && tap_covers(k, p));
    }
}

/// Take one tap.
fn trace_tap(i: i32, t: i32, c: i32, s: i32, offs: &mut Vec<u32>, cov: &mut Vec<bool>)
    requires
        0 <= i < 36_000,
        0 <= t < 11,
        c == raidal::sine(ring::step_phase(i as int)),
        s == raidal::sine(ring::step_phase(i as int) + 25_736),
        -32_768 <= c <= 32_767,
        -32_768 <= s <= 32_767,
        old(offs)@ == tap_list(i * 11 + t),
        old(cov)@.len() == 217_156,
        forall|p: int| 0 <= p < 217_156 ==> #[trigger] old(cov)@[p] == covered_by(i * 11 + t, p),
    ensures
        final(offs)@ == tap_list(i * 11 + t + 1),
        final(cov)@.len() == 217_156,
        forall|p: int| 0 <= p < 217_156 ==> #[trigger] final(cov)@[p] == covered_by(i * 11 + t + 1, p),
{
    let (x, y) = tap(i, t - 5, c, s);
    let ghost k = i * 11 + t;
    assert(k / 11 == i && k % 11 == t);
    if x >= 0 && x < 466 && y >= 0 && y < 466 {
        proof {
            ring::lemma_pixel_index(x as int, y as int);
        }
        offs.push((y * 466 + x) as u32 * 2);
        ring::cover(cov, x, y);
    }
    proof {
        assert forall|p: int| 0 <= p < 217_156 implies #[trigger] cov@[p] == covered_by(k + 1, p) by {
            lemma_covered_step(k, p);
        }
    }
}

/// The taps in angular order, and the pixels they cover.
fn trace_ring() -> (r: (Vec<u32>, Vec<bool>))
    ensures
        r.0@ == tap_list(396_000),
        r.1@.len() == 217_156,
        forall|p: int| 0 <= p < 217_156 ==> #[trigger] r.1@[p] == covered_by(396_000, p),
{
    let mut offs: Vec<u32> = Vec::new();
    let mut cov: Vec<bool> = Vec::new();
    let mut k: usize = 0;
    while k < 217_156
        invariant
            k <= 217_156,
            cov@.len() == k,
            forall|p: int| 0 <= p < k ==> cov@[p] == false,
        decreases 217_156 - k,
    {
        cov.push(false);
        k = k + 1;
    }
    let mut i: i32 = 0;
    while i < 36_000
        invariant
            0 <= i <= 36_000,
            offs@ == tap_list(i * 11),
            cov@.len() == 217_156,
            forall|p: int| 0 <= p < 217_156 ==> #[trigger] cov@[p] == covered_by(i * 11, p),
        decreases 36_000 - i,
    {
        let phase: i32 = (i as i64 * 103_246 / 36_000) as i32;
        let c: i32 = raidal::lut_sin_cos_q14(phase);
        let s: i32 = raidal::lut_sin_cos_q14(phase + FRAC_PI_2_Q14);
        let mut t: i32 = 0;
        while t < 11
            invariant
                0 <= i < 36_000,
                0 <= t <= 11,
                c == raidal::sine(ring::step_phase(i as int)),
                s == raidal::sine(ring::step_phase(i as int) + 25_736),
                -32_768 <= c <= 32_767,
                -32_768 <= s <= 32_767,
                offs@ == tap_list(i * 11 + t),
                cov@.len() == 217_156,
                forall|p: int| 0 <= p < 217_156 ==> #[trigger] cov@[p] == covered_by(i * 11 + t, p),
            decreases 11 - t,
        {
            trace_tap(i, t, c, s, &mut offs, &mut cov);
            t = t + 1;
        }
        i = i + 1;
    }
    (offs, cov)
}

/// The covered pixels in row order.
fn list_ring(cov: &Vec<bool>) -> (full: Vec<u32>)
    requires
        cov@.len() == 217_156,
        forall|p: int| 0 <= p < 217_156 ==> #[trigger] cov@[p] == covered_by(396_000, p),
    ensures
        full@ == ring_offsets(),
{
    let mut full: Vec<u32> = Vec::new();
    let mut p: usize = 0;
    while p < 217_156
        invariant
            p <= 217_156,
            cov@.len() == 217_156,
            forall|q: int| 0 <= q < 217_156 ==> #[trigger] cov@[q] == covered_by(396_000, q),
            full@ == ring::sel_list(ring_sel(), p as int),
        decreases 217_156 - p,
    {
        if cov[p] {
            full.push(p as u32 * 2);
        }
        p = p + 1;
    }
    full
}

/// No tap is lost at the edge, and each lies inside a full frame.
pub proof fn lemma_tap_list(k: int)
    requires
        0 <= k <= 396_000,
    ensures
        tap_list(k).len() == k,
        forall|i: int|
            0 <= i < tap_list(k).len() ==> (#[trigger] tap_list(k)[i]) % 2 == 0 && tap_list(k)[i] + 2 <= 434_312,
    decreases k,
{
    if k > 0 {
        lemma_tap_list(k - 1);
        lemma_tap_range((k - 1) / 11, (k - 1) % 11 - 5);
        ring::lemma_pixel_index(tap_x((k - 1) / 11, (k - 1) % 11 - 5), tap_y((k - 1) / 11, (k - 1) % 11 - 5));
    }
}

/// The shader that makes every pixel `p`.
pub open spec fn solid(p: (u8, u8)) -> raster::Shader {
    |x: int, y: int, q: (u8, u8)| p
}

/// Column and row of a byte offset.
pub open spec fn col_of(off: u32) -> int {
    off as int / 2 % 466
}

pub open spec fn row_of(off: u32) -> int {
    off as int / 2 / 466
}

/// The canvas with the nine pixels around a tap set.
pub open spec fn stamped(fb: Seq<u8>, off: u32, p: (u8, u8)) -> Seq<u8> {
    raster::shade(fb, col_of(off) - 1, row_of(off) - 1, col_of(off) + 2, row_of(off) + 2, solid(p))
}

/// One where the pixel exists.
pub open spec fn one(len: int, x: int, y: int) -> int {
    if raster::has_px(len, x, y) { 1 } else { 0 }
}

/// How many of the nine pixels around `(x, y)` exist.
pub open spec fn nine(len: int, x: int, y: int) -> int {
    one(len, x - 1, y - 1) + one(len, x, y - 1) + one(len, x + 1, y - 1) + one(len, x - 1, y) + one(len, x, y) + one(
        len,
        x + 1,
        y,
    ) + one(len, x - 1, y + 1) + one(len, x, y + 1) + one(len, x + 1, y + 1)
}

fn count(len: usize, x: i32, y: i32) -> (r: usize)
    ensures
        r == one(len as int, x as int, y as int),
{
    if raster::in_buffer(len, x, y) {
        1
    } else {
        0
    }
}

/// Set the nine pixels around a tap; how many there were.
pub fn write_bezel_3x3(fb: &mut [u8], byte_off: u32, hi: u8, lo: u8) -> (writes: usize)
    ensures
        final(fb)@ == stamped(old(fb)@, byte_off, (hi, lo)),
        final(fb)@.len() == old(fb)@.len(),
        writes == nine(old(fb)@.len() as int, col_of(byte_off), row_of(byte_off)),
        writes <= 9,
{
    let x: i32 = (byte_off / 2 % 466) as i32;
    let y: i32 = (byte_off / 2 / 466) as i32;
    let n: usize = fb.len();
    let ghost sh = solid((hi, lo));
    let f = |x: i32, y: i32, p: (u8, u8)| -> (q: (u8, u8))
        ensures
            q == sh(x as int, y as int, p),
        { (hi, lo) };
    raster::paint(fb, x - 1, y - 1, x + 2, y + 2, f, Ghost(sh));
    count(n, x - 1, y - 1) + count(n, x, y - 1) + count(n, x + 1, y - 1) + count(n, x - 1, y) + count(n, x, y) + count(
        n,
        x + 1,
        y,
    ) + count(n, x - 1, y + 1) + count(n, x, y + 1) + count(n, x + 1, y + 1)
}

/// The canvas with taps `a` to before `b` of the list set.
pub open spec fn stroked(fb: Seq<u8>, list: Seq<u32>, a: int, b: int, p: (u8, u8)) -> Seq<u8>
    decreases b - a,
{
    if b <= a { fb } else { stamped(stroked(fb, list, a, b - 1, p), list[b - 1], p) }
}

/// Pixels written for taps `a` to before `b`.
pub open spec fn strokes(len: int, list: Seq<u32>, a: int, b: int) -> int
    decreases b - a,
{
    if b <= a { 0 } else { strokes(len, list, a, b - 1) + nine(len, col_of(list[b - 1]), row_of(list[b - 1])) }
}

/// A stroke drawn in two parts is the whole stroke: a ring grown frame by frame is the ring
/// drawn at once.
pub proof fn lemma_stroke_grows(fb: Seq<u8>, list: Seq<u32>, a: int, m: int, b: int, p: (u8, u8))
    requires
        a <= m <= b,
    ensures
        stroked(stroked(fb, list, a, m, p), list, m, b, p) == stroked(fb, list, a, b, p),
    decreases b - m,
{
    if m < b {
        lemma_stroke_grows(fb, list, a, m, b - 1, p);
    }
}

fn stroke(fb: &mut [u8], list: &Vec<u32>, a: usize, b: usize, hi: u8, lo: u8) -> (writes: usize)
    requires
        a <= b <= list@.len(),
        b - a <= 4_500,
    ensures
        final(fb)@ == stroked(old(fb)@, list@, a as int, b as int, (hi, lo)),
        final(fb)@.len() == old(fb)@.len(),
        writes == strokes(old(fb)@.len() as int, list@, a as int, b as int),
        writes <= 9 * (b - a),
{
    let ghost fb0 = fb@;
    let mut writes: usize = 0;
    let mut i: usize = a;
    while i < b
        invariant
            a <= i <= b <= list@.len(),
            b - a <= 4_500,
            fb@ == stroked(fb0, list@, a as int, i as int, (hi, lo)),
            fb@.len() == fb0.len(),
            writes == strokes(fb0.len() as int, list@, a as int, i as int),
            writes <= 9 * (i - a),
        decreases b - i,
    {
        writes = writes + write_bezel_3x3(fb, list[i], hi, lo);
        i = i + 1;
    }
    writes
}

/// Where a count goes in one frame: to `ideal`, or `max_step` towards it.
pub open spec fn stepped(drawn: int, ideal: int, max_step: int) -> int {
    if imath::sabs(ideal - drawn) <= max_step {
        ideal
    } else if ideal > drawn {
        drawn + max_step
    } else {
        imath::smax(drawn - max_step, 0)
    }
}

pub fn clamp_target(drawn: usize, ideal: usize, max_step: usize) -> (r: usize)
    ensures
        r == stepped(drawn as int, ideal as int, max_step as int),
{
    if ideal > drawn {
        if ideal - drawn <= max_step {
            ideal
        } else {
            drawn + max_step
        }
    } else if drawn - ideal <= max_step {
        ideal
    } else {
        drawn - max_step
    }
}

/// A frame never overshoots and never goes farther than the bound, and it reaches what lies
/// within the bound.
pub proof fn lemma_step_bounded(drawn: int, ideal: int, max_step: int)
    requires
        drawn >= 0,
        ideal >= 0,
        max_step >= 0,
    ensures
        imath::sabs(stepped(drawn, ideal, max_step) - drawn) <= max_step,
        imath::sabs(ideal - stepped(drawn, ideal, max_step)) == imath::smax(imath::sabs(ideal - drawn) - max_step, 0),
        imath::smin(drawn, ideal) <= stepped(drawn, ideal, max_step) <= imath::smax(drawn, ideal),
{
}

/// What the ring does at a moment. The times are milliseconds into the movement.
#[derive(Clone, Copy, Debug, PartialEq, Eq, Structural)]
pub enum Sweep {
    /// Sweeps in after start-up.
    Initial(u32),
    /// Is undrawn after a new minute.
    Undraw(u32),
    /// Is redrawn.
    Redraw(u32),
    /// Rests, complete.
    Still,
}

/// Hour and minute of a clock that started at midnight.
pub open spec fn hour_of(elapsed_ms: int) -> int {
    elapsed_ms / 1000 / 3600 % 24
}

pub open spec fn minute_of(elapsed_ms: int) -> int {
    elapsed_ms / 1000 / 60 % 60
}

pub fn current_hm(elapsed_ms: u32) -> (r: (u8, u8))
    ensures
        r.0 == hour_of(elapsed_ms as int),
        r.1 == minute_of(elapsed_ms as int),
        r.0 < 24,
        r.1 < 60,
{
    let secs: u32 = elapsed_ms / 1000;
    ((secs / 3600 % 24) as u8, (secs / 60 % 60) as u8)
}

/// The clock's state from frame to frame.
pub struct Clock {
    pub last_minute: u8,
    pub last_change_ms: u32,
    /// Taps in angular order.
    pub bezel_offsets_anim: Vec<u32>,
    /// Pixels of the ring in row order.
    pub bezel_offsets_full: Vec<u32>,
    pub bezel_anim_len: u32,
    pub bezel_full_len: u32,
    /// Taps drawn on the canvas.
    pub drawn_centers: usize,
    /// The ring is complete and needs no drawing.
    pub ring_static: bool,
    /// Pixels of the ring written in the last frame.
    pub last_bezel_writes: u32,
    /// Taps that the last frame drew or undrew.
    pub last_bezel_center_delta: u32,
    /// Taps drawn after the last frame.
    pub last_bezel_centers: u32,
}

/// When the minute shown at `elapsed` began, as the clock saw it.
pub open spec fn change_at(last_minute: int, last_change: int, elapsed: int) -> int {
    if last_minute == 99 || minute_of(elapsed) != last_minute { elapsed } else { last_change }
}

/// What the ring does at `elapsed`, when its minute began at `change`.
pub open spec fn sweep_of(elapsed: int, change: int) -> Sweep {
    let since = elapsed - change;
    if elapsed < 8_000 && change < 100 {
        Sweep::Initial(elapsed as u32)
    } else if since < 3_500 {
        Sweep::Undraw(since as u32)
    } else if since < 7_000 {
        Sweep::Redraw((since - 3_500) as u32)
    } else {
        Sweep::Still
    }
}

impl Clock {
    pub open spec fn wf(self) -> bool {
        &&& self.bezel_offsets_anim@ == tap_list(396_000)
        &&& self.bezel_offsets_full@ == ring_offsets()
        &&& self.bezel_anim_len == self.bezel_offsets_anim@.len()
        &&& self.bezel_full_len == self.bezel_offsets_full@.len()
        &&& self.drawn_centers <= self.bezel_offsets_anim@.len()
    }

    /// A clock that has drawn nothing yet, with its ring computed.
    pub fn new() -> (c: Clock)
        ensures
            c.wf(),
            c.last_minute == 99,
            c.last_change_ms == 0,
            c.drawn_centers == 0,
            c.bezel_anim_len == 396_000,
            !c.ring_static,
            c.last_bezel_writes == 0,
            c.last_bezel_center_delta == 0,
            c.last_bezel_centers == 0,
    {
        let (anim, cov) = trace_ring();
        let full = list_ring(&cov);
        proof {
            lemma_tap_list(396_000);
            ring::lemma_sel_list(ring_sel(), 217_156);
        }
        let bezel_anim_len: u32 = anim.len() as u32;
        let bezel_full_len: u32 = full.len() as u32;
        Clock {
            last_minute: NO_MINUTE,
            last_change_ms: 0,
            bezel_offsets_anim: anim,
            bezel_offsets_full: full,
            bezel_anim_len,
            bezel_full_len,
            drawn_centers: 0,
            ring_static: false,
            last_bezel_writes: 0,
            last_bezel_center_delta: 0,
            last_bezel_centers: 0,
        }
    }

    /// When the minute of `elapsed` began.
    pub open spec fn changed(self, elapsed: int) -> int {
        change_at(self.last_minute as int, self.last_change_ms as int, elapsed)
    }

    /// Time does not run backwards.
    pub open spec fn in_time(self, elapsed: int) -> bool {
        elapsed >= self.changed(elapsed)
    }

    /// What the ring will do in the frame at `elapsed_ms`.
    pub fn sweep_at(&self, elapsed_ms: u32) -> (s: Sweep)
        requires
            self.in_time(elapsed_ms as int),
        ensures
            s == sweep_of(elapsed_ms as int, self.changed(elapsed_ms as int)),
    {
        let (_, m) = current_hm(elapsed_ms);
        let change: u32 = if self.last_minute == NO_MINUTE || m != self.last_minute {
            elapsed_ms
        } else {
            self.last_change_ms
        };
        let since: u32 = elapsed_ms - change;
        if elapsed_ms < BEZEL_INITIAL_MS && change < 100 {
            Sweep::Initial(elapsed_ms)
        } else if since < BEZEL_UNDRAW_MS {
            Sweep::Undraw(since)
        } else if since < BEZEL_UNDRAW_MS + BEZEL_REDRAW_MS {
            Sweep::Redraw(since - BEZEL_UNDRAW_MS)
        } else {
            Sweep::Still
        }
    }

    /// Taps on the canvas when the frame at `elapsed` begins: a new minute finds the whole
    /// ring there.
    pub open spec fn found(self, elapsed: int) -> int {
        if self.last_minute != 99 && minute_of(elapsed) != self.last_minute {
            self.bezel_offsets_anim@.len() as int
        } else {
            self.drawn_centers as int
        }
    }

    /// Taps on the canvas after the frame.
    pub open spec fn left(self, elapsed: int, ideal: int) -> int {
        if sweep_of(elapsed, self.changed(elapsed)) == Sweep::Still {
            self.found(elapsed)
        } else {
            stepped(
                self.found(elapsed),
                imath::smin(ideal, self.bezel_offsets_anim@.len() as int),
                4_500,
            )
        }
    }
}

/// The canvas after the ring moved from `a` taps to `b`.
pub open spec fn ring_moved(fb: Seq<u8>, list: Seq<u32>, a: int, b: int, p: (u8, u8)) -> Seq<u8> {
    if b > a { stroked(fb, list, a, b, p) } else { stroked(fb, list, b, a, (0u8, 0u8)) }
}

/// Pixels written for that.
pub open spec fn ring_writes(len: int, list: Seq<u32>, a: int, b: int) -> int {
    if b > a { strokes(len, list, a, b) } else { strokes(len, list, b, a) }
}

impl Clock {
    /// Bring the ring to `ideal` taps, or as near as one frame allows; the pixels written.
    fn apply_bezel_delta(&mut self, fb: &mut [u8], ideal: usize, hi: u8, lo: u8) -> (writes: usize)
        requires
            old(self).wf(),
        ensures
            final(self).wf(),
            *final(self) == (Clock { drawn_centers: final(self).drawn_centers, ..*old(self) }),
            final(self).drawn_centers == stepped(
                old(self).drawn_centers as int,
                imath::smin(ideal as int, old(self).bezel_offsets_anim@.len() as int),
                4_500,
            ),
            final(fb)@ == ring_moved(
                old(fb)@,
                old(self).bezel_offsets_anim@,
                old(self).drawn_centers as int,
                final(self).drawn_centers as int,
                (hi, lo),
            ),
            final(fb)@.len() == old(fb)@.len(),
            writes == ring_writes(
                old(fb)@.len() as int,
                old(self).bezel_offsets_anim@,
                old(self).drawn_centers as int,
                final(self).drawn_centers as int,
            ),
            writes <= 40_500,
    {
        let n: usize = self.bezel_offsets_anim.len();
        let ideal: usize = if ideal < n { ideal } else { n };
        let target: usize = clamp_target(self.drawn_centers, ideal, MAX_CENTERS_PER_FRAME);
        let drawn: usize = self.drawn_centers;
        let writes: usize = if target > drawn {
            stroke(fb, &self.bezel_offsets_anim, drawn, target, hi, lo)
        } else {
            stroke(fb, &self.bezel_offsets_anim, target, drawn, 0, 0)
        };
        self.drawn_centers = target;
        writes
    }
}

/// Bytes per row of a one-bit bitmap.
pub open spec fn bit_stride(g: Glyph) -> int {
    (g.width + 7) / 8
}

/// The one-bit bitmap holds every row.
pub open spec fn bitmap_ok(g: Glyph) -> bool {
    g.data@.len() >= bit_stride(g) * g.height
}

/// Every glyph of the atlas is complete.
pub open spec fn atlas_ok(atlas: Seq<Option<Glyph>>) -> bool {
    forall|i: int| 0 <= i < atlas.len() && (#[trigger] atlas[i]) is Some ==> bitmap_ok(atlas[i]->0)
}

/// One bit of a glyph, the leftmost of a byte in its high bit; none outside the bitmap.
pub open spec fn glyph_bit(g: Glyph, x: int, y: int) -> bool {
    &&& 0 <= x < g.width
    &&& 0 <= y < g.height
    &&& g.data@[y * bit_stride(g) + x / 8] as int / imath::p2(7 - x % 8) % 2 == 1
}

fn get_glyph_bit(g: &Glyph, x: i32, y: i32) -> (r: bool)
    requires
        bitmap_ok(*g),
    ensures
        r == glyph_bit(*g, x as int, y as int),
{
    if x < 0 || y < 0 || x >= g.width as i32 || y >= g.height as i32 {
        return false;
    }
    let st: usize = (g.width as usize + 7) / 8;
    proof {
        assert(0 <= y * st && y * st + st <= st * g.height) by (nonlinear_arith)
            requires
                0 <= y,
                y + 1 <= g.height,
                st >= 0,
        ;
        assert(y * st <= 255 * 32) by (nonlinear_arith)
            requires
                0 <= y <= 255,
                0 <= st <= 32,
        ;
    }
    let b: u8 = g.data[y as usize * st + x as usize / 8];
    imath::asr(b as i32, (7 - x % 8) as u32) % 2 == 1
}

/// Where sample `c` of a glyph drawn at `scale` lies in its bitmap, in 256ths.
pub open spec fn sample_at(c: int, scale: int) -> int {
    c * 512 / scale
}

/// One where the bit is set.
pub open spec fn bit_one(g: Glyph, x: int, y: int) -> int {
    if glyph_bit(g, x, y) { 1 } else { 0 }
}

/// How many of the four bits under a drawn pixel are set.
pub open spec fn samples(g: Glyph, x: int, y: int, scale: int) -> int {
    let (bx, by) = (sample_at(x, scale), sample_at(y, scale));
    bit_one(g, bx / 256, by / 256) + bit_one(g, (bx + 128) / 256, by / 256) + bit_one(g, bx / 256, (by + 128) / 256)
        + bit_one(g, (bx + 128) / 256, (by + 128) / 256)
}

fn bit_count(g: &Glyph, x: i32, y: i32) -> (r: i32)
    requires
        bitmap_ok(*g),
    ensures
        r == bit_one(*g, x as int, y as int),
{
    if get_glyph_bit(g, x, y) {
        1
    } else {
        0
    }
}

fn sample_glyph_coverage(g: &Glyph, x: i32, y: i32, scale: i32) -> (r: i32)
    requires
        bitmap_ok(*g),
        0 <= x <= 1000,
        0 <= y <= 1000,
        scale >= 1,
    ensures
        r == samples(*g, x as int, y as int, scale as int),
        0 <= r <= 4,
{
    proof {
        assert(0 <= x * 512 / scale as int <= x * 512 && 0 <= y * 512 / scale as int <= y * 512) by (nonlinear_arith)
            requires
                x >= 0,
                y >= 0,
                scale >= 1,
        ;
    }
    let bx: i32 = x * 512 / scale;
    let by: i32 = y * 512 / scale;
    bit_count(g, bx / 256, by / 256) + bit_count(g, (bx + 128) / 256, by / 256) + bit_count(
        g,
        bx / 256,
        (by + 128) / 256,
    ) + bit_count(g, (bx + 128) / 256, (by + 128) / 256)
}

/// Ink of a pixel with `count` of four samples set, at a fade.
pub open spec fn ink(count: int, fade: int) -> (u8, u8) {
    let a = count * 255 / 4;
    pixel::rgb888(240 * fade * a / 4_194_304, 240 * fade * a / 4_194_304, 245 * fade * a / 4_194_304)
}

fn ink_of(count: i32, fade: i32) -> (p: (u8, u8))
    requires
        0 <= count <= 4,
        0 <= fade <= 16_384,
    ensures
        p == ink(count as int, fade as int),
{
    let a: i64 = (count * 255 / 4) as i64;
    let f: i64 = fade as i64;
    proof {
        lemma_ink(240, fade as int, a as int);
        lemma_ink(245, fade as int, a as int);
    }
    let r: i32 = (240 * f * a / 4_194_304) as i32;
    let b: i32 = (245 * f * a / 4_194_304) as i32;
    pixel::pack888(r, r, b)
}

proof fn lemma_ink(c: int, fade: int, a: int)
    requires
        0 <= c <= 255,
        0 <= fade <= 16_384,
        0 <= a <= 255,
    ensures
        0 <= c * fade <= 255 * 16_384,
        0 <= c * fade * a <= 255 * 16_384 * 255,
        0 <= c * fade * a / 4_194_304 <= 255,
{
    assert(0 <= c * fade <= 255 * 16_384) by (nonlinear_arith)
        requires
            0 <= c <= 255,
            0 <= fade <= 16_384,
    ;
    let k = c * fade;
    assert(0 <= k * a <= 255 * 16_384 * 255) by (nonlinear_arith)
        requires
            0 <= k <= 255 * 16_384,
            0 <= a <= 255,
    ;
}

/// The shader of a glyph drawn at `(ox, oy)`: ink where a sample is set, the ground elsewhere.
pub open spec fn glyph_shader(g: Glyph, ox: int, oy: int, fade: int, scale: int) -> raster::Shader {
    |x: int, y: int, p: (u8, u8)|
        {
            let n = samples(g, x - ox, y - oy, scale);
            if n == 0 { p } else { ink(n, fade) }
        }
}

/// Side of a glyph drawn at `scale`, for a bitmap side.
pub open spec fn drawn_side(side: int, scale: int) -> int {
    (side + 1) / 2 * scale
}

/// The canvas with a glyph drawn.
pub open spec fn glyph_drawn(fb: Seq<u8>, g: Glyph, ox: int, oy: int, fade: int, scale: int) -> Seq<u8> {
    raster::shade(
        fb,
        ox,
        oy,
        ox + drawn_side(g.width as int, scale),
        oy + drawn_side(g.height as int, scale),
        glyph_shader(g, ox, oy, fade, scale),
    )
}

fn draw_glyph(fb: &mut [u8], ox: i32, oy: i32, g: &Glyph, fade: i32, scale: i32)
    requires
        bitmap_ok(*g),
        1 <= scale <= 3,
        -1_000_000 <= ox <= 1_000_000,
        -1_000_000 <= oy <= 1_000_000,
        0 <= fade <= 16_384,
    ensures
        final(fb)@ == glyph_drawn(old(fb)@, *g, ox as int, oy as int, fade as int, scale as int),
        final(fb)@.len() == old(fb)@.len(),
{
    let hw: i32 = (g.width as i32 + 1) / 2;
    let hh: i32 = (g.height as i32 + 1) / 2;
    proof {
        assert(0 <= hw * scale <= 384 && 0 <= hh * scale <= 384) by (nonlinear_arith)
            requires
                0 <= hw <= 128,
                0 <= hh <= 128,
                1 <= scale <= 3,
        ;
    }
    let w: i32 = hw * scale;
    let h: i32 = hh * scale;
    let ghost sh = glyph_shader(*g, ox as int, oy as int, fade as int, scale as int);
    let f = |x: i32, y: i32, p: (u8, u8)| -> (q: (u8, u8))
        requires
            ox <= x < ox + w,
            oy <= y < oy + h,
        ensures
            q == sh(x as int, y as int, p),
        {
            let n: i32 = sample_glyph_coverage(g, x - ox, y - oy, scale);
            if n == 0 {
                p
            } else {
                ink_of(n, fade)
            }
        };
    raster::paint(fb, ox, oy, ox + w, oy + h, f, Ghost(sh));
}

/// Advance of a character drawn at `scale`.
pub open spec fn step_of(atlas: Seq<Option<Glyph>>, c: u8, scale: int) -> int {
    match font::glyph_of(atlas, c) {
        Some(g) => (g.advance + 1) / 2 * scale,
        None => 0,
    }
}

/// Advance of the first `n` characters.
pub open spec fn pen(atlas: Seq<Option<Glyph>>, s: Seq<u8>, n: int, scale: int) -> int
    decreases n,
{
    if n <= 0 { 0 } else { pen(atlas, s, n - 1, scale) + step_of(atlas, s[n - 1], scale) }
}

/// Left end of a centred line.
pub open spec fn line_x(atlas: Seq<Option<Glyph>>, s: Seq<u8>, scale: int) -> int {
    233 - pen(atlas, s, s.len() as int, scale) / 2
}

/// Top of a glyph on a baseline.
pub open spec fn top_of(g: Glyph, base_y: int, scale: int) -> int {
    base_y - (drawn_side(g.height as int, scale) + imath::tdiv(g.ymin as int, 2) * scale)
}

/// The canvas with the first `n` characters of a centred line drawn.
pub open spec fn line_drawn(
    fb: Seq<u8>,
    atlas: Seq<Option<Glyph>>,
    s: Seq<u8>,
    base_y: int,
    fade: int,
    scale: int,
    n: int,
) -> Seq<u8>
    decreases n,
{
    if n <= 0 {
        fb
    } else {
        let before = line_drawn(fb, atlas, s, base_y, fade, scale, n - 1);
        match font::glyph_of(atlas, s[n - 1]) {
            Some(g) => glyph_drawn(
                before,
                g,
                line_x(atlas, s, scale) + pen(atlas, s, n - 1, scale),
                top_of(g, base_y, scale),
                fade,
                scale,
            ),
            None => before,
        }
    }
}

/// The canvas with a centred line of text drawn.
pub open spec fn text_drawn(
    fb: Seq<u8>,
    atlas: Seq<Option<Glyph>>,
    s: Seq<u8>,
    base_y: int,
    fade: int,
    scale: int,
) -> Seq<u8> {
    line_drawn(fb, atlas, s, base_y, fade, scale, s.len() as int)
}

fn step_at(atlas: &[Option<Glyph>; 128], c: u8, scale: i32) -> (r: i32)
    requires
        1 <= scale <= 3,
    ensures
        r == step_of(atlas@, c, scale as int),
        0 <= r <= 384,
{
    match font::get_glyph(atlas, c) {
        Some(g) => {
            let u: i32 = (g.advance as i32 + 1) / 2;
            proof {
                assert(0 <= u * scale <= 384) by (nonlinear_arith)
                    requires
                        0 <= u <= 128,
                        1 <= scale <= 3,
                ;
            }
            u * scale
        },
        None => 0,
    }
}

fn line_start(atlas: &[Option<Glyph>; 128], s: &[u8], scale: i32) -> (x: i32)
    requires
        s@.len() <= 100,
        1 <= scale <= 3,
    ensures
        x == line_x(atlas@, s@, scale as int),
        -20_000 <= x <= 233,
{
    let mut w: i32 = 0;
    let mut i: usize = 0;
    while i < s.len()
        invariant
            i <= s@.len() <= 100,
            1 <= scale <= 3,
            w == pen(atlas@, s@, i as int, scale as int),
            0 <= w <= 384 * i,
        decreases s@.len() - i,
    {
        w = w + step_at(atlas, s[i], scale);
        i = i + 1;
    }
    233 - w / 2
}

/// Top and height of a glyph on a baseline.
fn glyph_rows(g: &Glyph, base_y: i32, scale: i32) -> (r: (i32, i32))
    requires
        1 <= scale <= 3,
        0 <= base_y <= 466,
    ensures
        r.0 == top_of(*g, base_y as int, scale as int),
        r.1 == drawn_side(g.height as int, scale as int),
        -100_000 <= r.0 <= 100_000,
        0 <= r.1 <= 384,
{
    let u: i32 = (g.height as i32 + 1) / 2;
    let m: i32 = g.ymin as i32 / 2;
    proof {
        assert(0 <= u * scale <= 384 && -49_152 <= m * scale <= 49_152) by (nonlinear_arith)
            requires
                0 <= u <= 128,
                -16_384 <= m <= 16_384,
                1 <= scale <= 3,
        ;
    }
    (base_y - (u * scale + m * scale), u * scale)
}

fn draw_text_centered(fb: &mut [u8], s: &[u8], base_y: i32, fade: i32, scale: i32, atlas: &[Option<Glyph>; 128])
    requires
        atlas_ok(atlas@),
        s@.len() <= 100,
        1 <= scale <= 3,
        0 <= base_y <= 466,
        0 <= fade <= 16_384,
    ensures
        final(fb)@ == text_drawn(old(fb)@, atlas@, s@, base_y as int, fade as int, scale as int),
        final(fb)@.len() == old(fb)@.len(),
{
    let x0: i32 = line_start(atlas, s, scale);
    let ghost fb0 = fb@;
    let mut x: i32 = x0;
    let mut i: usize = 0;
    while i < s.len()
        invariant
            i <= s@.len() <= 100,
            atlas_ok(atlas@),
            1 <= scale <= 3,
            0 <= base_y <= 466,
            0 <= fade <= 16_384,
            x0 == line_x(atlas@, s@, scale as int),
            -20_000 <= x0 <= 233,
            x == x0 + pen(atlas@, s@, i as int, scale as int),
            x0 <= x <= x0 + 384 * i,
            fb@ == line_drawn(fb0, atlas@, s@, base_y as int, fade as int, scale as int, i as int),
            fb@.len() == fb0.len(),
        decreases s@.len() - i,
    {
        if let Some(g) = font::get_glyph(atlas, s[i]) {
            let (top, _) = glyph_rows(&g, base_y, scale);
            draw_glyph(fb, x, top, &g, fade, scale);
        }
        x = x + step_at(atlas, s[i], scale);
        i = i + 1;
    }
}

/// A rectangle with inclusive corners.
#[derive(Clone, Copy, Debug, PartialEq, Eq, Structural)]
pub struct Bounds {
    pub x0: i32,
    pub y0: i32,
    pub x1: i32,
    pub y1: i32,
}

/// Bounds widened to a glyph at column `x`, with two pixels of air.
pub open spec fn widened(b: Bounds, g: Glyph, x: int, base_y: int, scale: int) -> Bounds {
    let top = top_of(g, base_y, scale);
    Bounds {
        x0: imath::smin(b.x0 as int, x - 2) as i32,
        y0: imath::smin(b.y0 as int, top - 2) as i32,
        x1: imath::smax(b.x1 as int, x + drawn_side(g.width as int, scale) + 2) as i32,
        y1: imath::smax(b.y1 as int, top + drawn_side(g.height as int, scale) + 2) as i32,
    }
}

/// Bounds widened to the first `n` characters of a centred line.
pub open spec fn absorbed(
    b: Bounds,
    atlas: Seq<Option<Glyph>>,
    s: Seq<u8>,
    base_y: int,
    scale: int,
    n: int,
) -> Bounds
    decreases n,
{
    if n <= 0 {
        b
    } else {
        let before = absorbed(b, atlas, s, base_y, scale, n - 1);
        match font::glyph_of(atlas, s[n - 1]) {
            Some(g) => widened(before, g, line_x(atlas, s, scale) + pen(atlas, s, n - 1, scale), base_y, scale),
            None => before,
        }
    }
}

/// The date shown.
pub open spec fn date_codes() -> Seq<u8> {
    font::codes_of("July 7th 2026"@)
}

/// The time `h:m` in two digits each.
pub open spec fn time_codes(h: int, m: int) -> Seq<u8> {
    seq![
        (48 + h / 10) as u8,
        (48 + h % 10) as u8,
        58u8,
        (48 + m / 10) as u8,
        (48 + m % 10) as u8,
    ]
}

/// The bounds of the two lines on the panel; the whole panel where the atlas has no glyph
/// of theirs.
pub open spec fn text_bounds(atlas: Seq<Option<Glyph>>) -> Bounds {
    let none = Bounds { x0: 466, y0: 466, x1: 0, y1: 0 };
    let a = absorbed(none, atlas, time_codes(0, 0), 238, 3, 5);
    let b = absorbed(a, atlas, date_codes(), 303, 1, date_codes().len() as int);
    if b.x0 > b.x1 {
        Bounds { x0: 0, y0: 0, x1: 465, y1: 465 }
    } else {
        Bounds {
            x0: imath::smax(b.x0 as int, 0) as i32,
            y0: imath::smax(b.y0 as int, 0) as i32,
            x1: imath::smin(b.x1 as int, 465) as i32,
            y1: imath::smin(b.y1 as int, 465) as i32,
        }
    }
}

fn absorb(b: Bounds, atlas: &[Option<Glyph>; 128], s: &[u8], base_y: i32, scale: i32) -> (r: Bounds)
    requires
        s@.len() <= 100,
        1 <= scale <= 3,
        0 <= base_y <= 466,
    ensures
        r == absorbed(b, atlas@, s@, base_y as int, scale as int, s@.len() as int),
{
    let x0: i32 = line_start(atlas, s, scale);
    let mut r: Bounds = b;
    let mut x: i32 = x0;
    let mut i: usize = 0;
    while i < s.len()
        invariant
            i <= s@.len() <= 100,
            1 <= scale <= 3,
            0 <= base_y <= 466,
            x0 == line_x(atlas@, s@, scale as int),
            -20_000 <= x0 <= 233,
            x == x0 + pen(atlas@, s@, i as int, scale as int),
            x0 <= x <= x0 + 384 * i,
            r == absorbed(b, atlas@, s@, base_y as int, scale as int, i as int),
        decreases s@.len() - i,
    {
        if let Some(g) = font::get_glyph(atlas, s[i]) {
            let (top, h) = glyph_rows(&g, base_y, scale);
            let u: i32 = (g.width as i32 + 1) / 2;
            proof {
                assert(0 <= u * scale <= 384) by (nonlinear_arith)
                    requires
                        0 <= u <= 128,
                        1 <= scale <= 3,
                ;
            }
            r = Bounds {
                x0: imath::imin(r.x0, x - 2),
                y0: imath::imin(r.y0, top - 2),
                x1: imath::imax(r.x1, x + u * scale + 2),
                y1: imath::imax(r.y1, top + h + 2),
            };
        }
        x = x + step_at(atlas, s[i], scale);
        i = i + 1;
    }
    r
}

fn time_text(h: u8, m: u8) -> (s: [u8; 5])
    requires
        h < 24,
        m < 60,
    ensures
        s@ == time_codes(h as int, m as int),
{
    let s: [u8; 5] = [48 + h / 10, 48 + h % 10, 58, 48 + m / 10, 48 + m % 10];
    assert(s@ =~= time_codes(h as int, m as int));
    s
}

fn date_text() -> (s: Vec<u8>)
    ensures
        s@ == date_codes(),
        s@.len() == 13,
{
    proof {
        reveal_strlit("July 7th 2026");
    }
    font::codes("July 7th 2026")
}

/// Where the text is, on the panel.
pub fn text_bbox(atlas: &[Option<Glyph>; 128]) -> (r: Bounds)
    ensures
        r == text_bounds(atlas@),
{
    let t: [u8; 5] = time_text(0, 0);
    let d = date_text();
    let a = absorb(Bounds { x0: 466, y0: 466, x1: 0, y1: 0 }, atlas, &t, 238, 3);
    let b = absorb(a, atlas, d.as_slice(), 303, 1);
    if b.x0 > b.x1 {
        return Bounds { x0: 0, y0: 0, x1: 465, y1: 465 };
    }
    Bounds {
        x0: imath::imax(b.x0, 0),
        y0: imath::imax(b.y0, 0),
        x1: imath::imin(b.x1, 465),
        y1: imath::imin(b.y1, 465),
    }
}

/// The frame without its ring: the text region blackened, and time and date drawn.
pub open spec fn text_redrawn(fb: Seq<u8>, atlas: Seq<Option<Glyph>>, elapsed: int, fade: int) -> Seq<u8> {
    let b = text_bounds(atlas);
    let cleared = raster::shade(fb, b.x0 as int, b.y0 as int, b.x1 + 1, b.y1 + 1, raster::black());
    let timed = text_drawn(cleared, atlas, time_codes(hour_of(elapsed), minute_of(elapsed)), 238, fade, 3);
    text_drawn(timed, atlas, date_codes(), 303, fade, 1)
}

fn redraw_text(fb: &mut [u8], atlas: &[Option<Glyph>; 128], elapsed_ms: u32, fade: i32)
    requires
        atlas_ok(atlas@),
        0 <= fade <= 16_384,
    ensures
        final(fb)@ == text_redrawn(old(fb)@, atlas@, elapsed_ms as int, fade as int),
        final(fb)@.len() == old(fb)@.len(),
{
    let b = text_bbox(atlas);
    let (h, m) = current_hm(elapsed_ms);
    let t: [u8; 5] = time_text(h, m);
    let d = date_text();
    raster::fill_rect_black(fb, b.x0, b.y0, b.x1, b.y1);
    draw_text_centered(fb, &t, 238, fade, 3, atlas);
    draw_text_centered(fb, d.as_slice(), 303, fade, 1, atlas);
}

/// What a frame starts from: the frame before it where that has the same size, else black.
pub open spec fn carried(len: int, prev: Option<Seq<u8>>) -> Seq<u8> {
    match prev {
        Some(p) if p.len() == len => p,
        _ => Seq::new(len as nat, |i: int| 0u8),
    }
}

fn carry(fb: &mut [u8], prev: Option<&[u8]>)
    ensures
        final(fb)@ == carried(
            old(fb)@.len() as int,
            match prev {
                Some(p) => Some(p@),
                None => None,
            },
        ),
        final(fb)@.len() == old(fb)@.len(),
{
    let n: usize = fb.len();
    match prev {
        Some(p) => {
            if p.len() == n {
                let mut i: usize = 0;
                while i < n
                    invariant
                        i <= n,
                        n == fb@.len(),
                        n == p@.len(),
                        forall|k: int| 0 <= k < i ==> fb@[k] == p@[k],
                    decreases n - i,
                {
                    fb[i] = p[i];
                    i = i + 1;
                }
                assert(fb@ =~= p@);
                return;
            }
        },
        None => {},
    }
    let mut i: usize = 0;
    while i < n
        invariant
            i <= n,
            n == fb@.len(),
            forall|k: int| 0 <= k < i ==> fb@[k] == 0,
        decreases n - i,
    {
        fb[i] = 0;
        i = i + 1;
    }
    assert(fb@ =~= Seq::new(n as nat, |i: int| 0u8));
}

impl Clock {
    /// The frame at `elapsed`: the frame before it, the ring moved towards `ideal` taps and
    /// the text redrawn.
    pub open spec fn frame(
        self,
        base: Seq<u8>,
        elapsed: int,
        fade: int,
        ideal: int,
        atlas: Seq<Option<Glyph>>,
    ) -> Seq<u8> {
        let ringed = ring_moved(
            base,
            self.bezel_offsets_anim@,
            self.found(elapsed),
            self.left(elapsed, ideal),
            ring::bezel_color(fade),
        );
        text_redrawn(ringed, atlas, elapsed, fade)
    }

    /// Draw the frame at `elapsed_ms`. `prev` is the frame shown last; `fade_q14` is the fade
    /// of the start, and `ideal` the number of taps that the movement at this moment asks for.
    pub fn render_to_fb(
        &mut self,
        fb: &mut [u8],
        prev: Option<&[u8]>,
        elapsed_ms: u32,
        fade_q14: i32,
        ideal: usize,
        atlas: &[Option<Glyph>; 128],
    )
        requires
            old(self).wf(),
            old(self).in_time(elapsed_ms as int),
            0 <= fade_q14 <= 16_384,
            atlas_ok(atlas@),
        ensures
            final(self).wf(),
            final(fb)@ == old(self).frame(
                carried(
                    old(fb)@.len() as int,
                    match prev {
                        Some(p) => Some(p@),
                        None => None,
                    },
                ),
                elapsed_ms as int,
                fade_q14 as int,
                ideal as int,
                atlas@,
            ),
            final(self).last_minute == minute_of(elapsed_ms as int),
            final(self).last_change_ms == old(self).changed(elapsed_ms as int),
            final(self).drawn_centers == old(self).left(elapsed_ms as int, ideal as int),
            final(self).ring_static == (sweep_of(elapsed_ms as int, old(self).changed(elapsed_ms as int))
                == Sweep::Still),
            final(self).last_bezel_writes == ring_writes(
                old(fb)@.len() as int,
                old(self).bezel_offsets_anim@,
                old(self).found(elapsed_ms as int),
                old(self).left(elapsed_ms as int, ideal as int),
            ),
            final(self).last_bezel_centers == final(self).drawn_centers,
            final(self).last_bezel_center_delta == imath::sabs(
                final(self).drawn_centers - old(self).found(elapsed_ms as int),
            ),
            final(self).bezel_anim_len == old(self).bezel_anim_len,
            final(self).bezel_full_len == old(self).bezel_full_len,
    {
        proof {
            lemma_tap_list(396_000);
        }
        carry(fb, prev);
        let sweep = self.sweep_at(elapsed_ms);
        let (_, m) = current_hm(elapsed_ms);
        let ghost c0 = *self;
        if self.last_minute == NO_MINUTE {
            self.last_minute = m;
            self.last_change_ms = elapsed_ms;
        }
        if m != self.last_minute {
            self.last_minute = m;
            self.last_change_ms = elapsed_ms;
            self.drawn_centers = self.bezel_offsets_anim.len();
        }
        let before: usize = self.drawn_centers;
        let writes: usize = if sweep == Sweep::Still {
            self.ring_static = true;
            0
        } else {
            self.ring_static = false;
            let (hi, lo) = ring::bezel_color_bytes(fade_q14);
            self.apply_bezel_delta(fb, ideal, hi, lo)
        };
        self.last_bezel_writes = writes as u32;
        self.last_bezel_centers = self.drawn_centers as u32;
        self.last_bezel_center_delta = if self.drawn_centers > before {
            (self.drawn_centers - before) as u32
        } else {
            (before - self.drawn_centers) as u32
        };
        redraw_text(fb, atlas, elapsed_ms, fade_q14);
    }
}

/// At rest a frame leaves the ring alone.
pub proof fn lemma_still_ring(c: Clock, base: Seq<u8>, elapsed: int, fade: int, ideal: int, atlas: Seq<Option<Glyph>>)
    requires
        sweep_of(elapsed, c.changed(elapsed)) == Sweep::Still,
    ensures
        c.frame(base, elapsed, fade, ideal, atlas) == text_redrawn(base, atlas, elapsed, fade),
{
}

/// A frame moves the ring by a bounded number of taps.
pub proof fn lemma_frame_bounded(c: Clock, elapsed: int, ideal: int)
    requires
        c.wf(),
        ideal >= 0,
    ensures
        imath::sabs(c.left(elapsed, ideal) - c.found(elapsed)) <= 4_500,
{
}

} // verus!
