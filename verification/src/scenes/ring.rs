//! The bezel ring: its precomputed geometry (angular taps, covered pixels, radial
//! alpha, the flourish band) and the colour tables it is drawn through.
use vstd::prelude::*;

use crate::imath;
use crate::pixel;
use crate::raster;
use crate::trig;

verus! {

pub const PAD: i32 = 10;
/// Radius of the stroke's centre line.
pub const BEZEL_R: i32 = 223;
/// Angle steps around the ring.
pub const BEZEL_STEPS: i32 = 36_000;
/// Half the width of the stroke.
pub const HALF_T: i32 = 5;
/// Pixels of the panel.
pub const PIXELS: usize = 217_156;
/// Fade window at each arc end, in angle steps.
pub const FADE_STEPS: i32 = 400;

/// Phase of angle step `i`.
pub open spec fn step_phase(i: int) -> int {
    i * 103_246 / 36_000
}

/// Column of tap `dr` pixels off the centre line at angle step `i`.
#[verifier::opaque]
pub open spec fn tap_x(i: int, dr: int) -> int {
    233 + ((223 + dr) * trig::sin_q14(step_phase(i)) + 8192) / 16_384
}

/// Row of that tap.
#[verifier::opaque]
pub open spec fn tap_y(i: int, dr: int) -> int {
    233 + ((223 + dr) * trig::sin_q14(step_phase(i) + 25_736) + 8192) / 16_384
}

pub open spec fn on_panel(x: int, y: int) -> bool {
    0 <= x < 466 && 0 <= y < 466
}

/// Tap `k`, counting 11 taps per step, lies on the panel.
pub open spec fn tap_on(k: int) -> bool {
    on_panel(tap_x(k / 11, k % 11 - 5), tap_y(k / 11, k % 11 - 5))
}

/// Pixel index of tap `k`.
pub open spec fn tap_pixel(k: int) -> int {
    tap_y(k / 11, k % 11 - 5) * 466 + tap_x(k / 11, k % 11 - 5)
}

/// Byte offsets of the first `k` taps, in angular order.
pub open spec fn tap_list(k: int) -> Seq<u32>
    decreases k,
{
    if k <= 0 {
        Seq::empty()
    } else if tap_on(k - 1) {
        tap_list(k - 1).push((tap_pixel(k - 1) * 2) as u32)
    } else {
        tap_list(k - 1)
    }
}

/// Pixel `p` is one of the nine around tap `k`.
pub open spec fn tap_covers(k: int, p: int) -> bool {
    &&& tap_on(k)
    &&& -1 <= p % 466 - tap_x(k / 11, k % 11 - 5) <= 1
    &&& -1 <= p / 466 - tap_y(k / 11, k % 11 - 5) <= 1
}

/// Pixel `p` is covered by one of the first `n` taps.
pub open spec fn covered_by(n: int, p: int) -> bool {
    exists|k: int| 0 <= k < n && #[trigger] tap_covers(k, p)
}

/// Pixel `p` belongs to the ring.
pub open spec fn in_ring(p: int) -> bool {
    covered_by(396_000, p)
}

fn tap(i: i32, dr: i32, c: i32, s: i32) -> (r: (i32, i32))
    requires
        0 <= i < 36_000,
        -5 <= dr <= 5,
        c == trig::sin_q14(step_phase(i as int)),
        s == trig::sin_q14(step_phase(i as int) + 25_736),
        -65_536 <= c <= 65_536,
        -65_536 <= s <= 65_536,
    ensures
        r.0 == tap_x(i as int, dr as int),
        r.1 == tap_y(i as int, dr as int),
        -2000 <= r.0 <= 2000,
        -2000 <= r.1 <= 2000,
{
    let rr: i32 = BEZEL_R + dr;
    proof {
        reveal(tap_x);
        reveal(tap_y);
        assert(-228 * 65_536 <= rr * c <= 228 * 65_536) by (nonlinear_arith)
            requires 218 <= rr <= 228, -65_536 <= c <= 65_536;
        assert(-228 * 65_536 <= rr * s <= 228 * 65_536) by (nonlinear_arith)
            requires 218 <= rr <= 228, -65_536 <= s <= 65_536;
    }
    (233 + imath::asr(rr * c + 8192, 14), 233 + imath::asr(rr * s + 8192, 14))
}

/// Pixel indices decode uniquely.
pub proof fn lemma_pixel_index(x: int, y: int)
    requires
        on_panel(x, y),
    ensures
        0 <= y * 466 + x < 217_156,
        (y * 466 + x) % 466 == x,
        (y * 466 + x) / 466 == y,
{
}

/// Every tap lies on the panel, with room around it.
pub proof fn lemma_tap_range(i: int, dr: int)
    requires
        -5 <= dr <= 5,
    ensures
        5 <= tap_x(i, dr) <= 461,
        5 <= tap_y(i, dr) <= 461,
{
    reveal(tap_x);
    reveal(tap_y);
    let c = trig::sin_q14(step_phase(i));
    let s = trig::sin_q14(step_phase(i) + 25_736);
    trig::lemma_sin_range(step_phase(i));
    trig::lemma_sin_range(step_phase(i) + 25_736);
    let rr = 223 + dr;
    assert(-228 * 16_384 <= rr * c <= 228 * 16_384) by (nonlinear_arith)
        requires 218 <= rr <= 228, -16_384 <= c <= 16_384;
    assert(-228 * 16_384 <= rr * s <= 228 * 16_384) by (nonlinear_arith)
        requires 218 <= rr <= 228, -16_384 <= s <= 16_384;
}

/// No tap is lost at the edge: the list holds 11 taps for each of the 36000 angle steps.
pub proof fn lemma_all_taps(k: int)
    requires
        0 <= k,
    ensures
        tap_list(k).len() == k,
    decreases k,
{
    if k > 0 {
        lemma_all_taps(k - 1);
        lemma_tap_range((k - 1) / 11, (k - 1) % 11 - 5);
    }
}

/// The ring keeps four pixels from the edge of the panel.
pub proof fn lemma_ring_margin(p: int)
    requires
        in_ring(p),
    ensures
        4 <= p % 466 <= 462,
        4 <= p / 466 <= 462,
{
    let k = choose|k: int| 0 <= k < 396_000 && #[trigger] tap_covers(k, p);
    lemma_tap_range(k / 11, k % 11 - 5);
}

/// Mark the nine pixels around one tap.
pub(crate) fn cover(cov: &mut Vec<bool>, x: i32, y: i32)
    requires
        old(cov)@.len() == 217_156,
        on_panel(x as int, y as int),
    ensures
        final(cov)@.len() == 217_156,
        forall|p: int|
            0 <= p < 217_156 ==> #[trigger] final(cov)@[p] == (old(cov)@[p] || (-1 <= p % 466 - x <= 1 && -1 <= p
                / 466 - y <= 1)),
{
    let mut dy: i32 = -1;
    while dy <= 1
        invariant
            -1 <= dy <= 2,
            cov@.len() == 217_156,
            old(cov)@.len() == 217_156,
            on_panel(x as int, y as int),
            forall|p: int|
                0 <= p < 217_156 ==> #[trigger] cov@[p] == (old(cov)@[p] || (-1 <= p % 466 - x <= 1 && -1 <= p / 466
                    - y < dy)),
        decreases 2 - dy,
    {
        let mut dx: i32 = -1;
        while dx <= 1
            invariant
                -1 <= dx <= 2,
                -1 <= dy <= 1,
                cov@.len() == 217_156,
                old(cov)@.len() == 217_156,
                on_panel(x as int, y as int),
                forall|p: int|
                    0 <= p < 217_156 ==> #[trigger] cov@[p] == (old(cov)@[p] || (-1 <= p % 466 - x <= 1 && -1 <= p
                        / 466 - y < dy) || (p / 466 - y == dy && -1 <= p % 466 - x < dx)),
            decreases 2 - dx,
        {
            let px: i32 = x + dx;
            let py: i32 = y + dy;
            if px >= 0 && px < 466 && py >= 0 && py < 466 {
                proof {
                    lemma_pixel_index(px as int, py as int);
                }
                cov.set((py * 466 + px) as usize, true);
            }
            dx = dx + 1;
        }
        dy = dy + 1;
    }
}

proof fn lemma_tap_step(k: int, x: int, y: int, p: int, before: bool, after: bool)
    requires
        k >= 0,
        0 <= p < 217_156,
        x == tap_x(k / 11, k % 11 - 5),
        y == tap_y(k / 11, k % 11 - 5),
        before == covered_by(k, p),
        after == (before || (on_panel(x, y) && -1 <= p % 466 - x <= 1 && -1 <= p / 466 - y <= 1)),
    ensures
        after == covered_by(k + 1, p),
{
    lemma_covered_step(k, p);
}

/// Take one tap.
fn trace_tap(i: i32, t: i32, c: i32, s: i32, offs: &mut Vec<u32>, cov: &mut Vec<bool>)
    requires
        0 <= i < 36_000,
        0 <= t < 11,
        c == trig::sin_q14(step_phase(i as int)),
        s == trig::sin_q14(step_phase(i as int) + 25_736),
        -65_536 <= c <= 65_536,
        -65_536 <= s <= 65_536,
        old(offs)@ == tap_list(i * 11 + t),
        old(cov)@.len() == 217_156,
        forall|p: int| 0 <= p < 217_156 ==> #[trigger] old(cov)@[p] == covered_by(i * 11 + t, p),
    ensures
        final(offs)@ == tap_list(i * 11 + t + 1),
        final(cov)@.len() == 217_156,
        forall|p: int| 0 <= p < 217_156 ==> #[trigger] final(cov)@[p] == covered_by(i * 11 + t + 1, p),
{
    let (x, y) = tap(i, t - 5, c, s);
    let ghost k = i * 11 + t;
    assert(k / 11 == i && k % 11 == t);
    let ghost before = cov@;
    if x >= 0 && x < 466 && y >= 0 && y < 466 {
        proof {
            lemma_pixel_index(x as int, y as int);
        }
        offs.push((y * 466 + x) as u32 * 2);
        cover(cov, x, y);
    }
    proof {
        assert forall|p: int| 0 <= p < 217_156 implies #[trigger] cov@[p] == covered_by(k + 1, p) by {
            lemma_tap_step(k, x as int, y as int, p, before[p], cov@[p]);
        }
    }
}

/// The tap list and the covered pixels.
fn trace_ring() -> (r: (Vec<u32>, Vec<bool>))
    ensures
        r.0@ == tap_list(396_000),
        r.1@.len() == 217_156,
        forall|p: int| 0 <= p < 217_156 ==> #[trigger] r.1@[p] == in_ring(p),
{
    let mut offs: Vec<u32> = Vec::new();
    let mut cov: Vec<bool> = Vec::new();
    let mut k: usize = 0;
    while k < PIXELS
        invariant
            k <= 217_156,
            cov@.len() == k,
            forall|p: int| 0 <= p < k ==> cov@[p] == false,
        decreases 217_156 - k,
    {
        cov.push(false);
        k = k + 1;
    }
    let mut i: i32 = 0;
    while i < BEZEL_STEPS
        invariant
            0 <= i <= 36_000,
            offs@ == tap_list(i * 11),
            cov@.len() == 217_156,
            forall|p: int| 0 <= p < 217_156 ==> #[trigger] cov@[p] == covered_by(i * 11, p),
        decreases 36_000 - i,
    {
        let phase: i32 = (i as i64 * 103_246 / 36_000) as i32;
        let c: i32 = trig::lut_sin_cos_q14(phase);
        let s: i32 = trig::lut_sin_cos_q14(phase + trig::FRAC_PI_2_Q14);
        let mut t: i32 = 0;
        while t < 11
            invariant
                0 <= i < 36_000,
                0 <= t <= 11,
                c == trig::sin_q14(step_phase(i as int)),
                s == trig::sin_q14(step_phase(i as int) + 25_736),
                -65_536 <= c <= 65_536,
                -65_536 <= s <= 65_536,
                offs@ == tap_list(i * 11 + t),
                cov@.len() == 217_156,
                forall|p: int| 0 <= p < 217_156 ==> #[trigger] cov@[p] == covered_by(i * 11 + t, p),
            decreases 11 - t,
        {
            trace_tap(i, t, c, s, &mut offs, &mut cov);
            t = t + 1;
        }
        i = i + 1;
    }
    (offs, cov)
}

proof fn lemma_covered_step(k: int, p: int)
    requires
        k >= 0,
    ensures
        covered_by(k + 1, p) == (covered_by(k, p) || tap_covers(k, p)),
{
    if covered_by(k + 1, p) {
        let j = choose|j: int| 0 <= j < k + 1 && #[trigger] tap_covers(j, p);
        if j < k {
            assert(covered_by(k, p));
        }
    }
    if covered_by(k, p) {
        let j = choose|j: int| 0 <= j < k && #[trigger] tap_covers(j, p);
        assert(0 <= j < k + 1 && tap_covers(j, p));
    }
    if tap_covers(k, p) {
        assert(0 <= k < k + 1 && tap_covers(k, p));
    }
}

/// Byte offsets, in row order, of the selected pixels before pixel `n`.
pub open spec fn sel_list(sel: spec_fn(int) -> bool, n: int) -> Seq<u32>
    decreases n,
{
    if n <= 0 {
        Seq::empty()
    } else if sel(n - 1) {
        sel_list(sel, n - 1).push(((n - 1) * 2) as u32)
    } else {
        sel_list(sel, n - 1)
    }
}

/// The ring's pixels.
pub open spec fn ring_sel() -> spec_fn(int) -> bool {
    |p: int| in_ring(p)
}

/// The flourish band's pixels.
pub open spec fn band_sel() -> spec_fn(int) -> bool {
    |p: int| in_band(p)
}

/// Byte offsets of the ring's pixels before pixel `n`.
pub open spec fn ring_list(n: int) -> Seq<u32> {
    sel_list(ring_sel(), n)
}

/// Byte offsets of the band's pixels before pixel `n`.
pub open spec fn band_list(n: int) -> Seq<u32> {
    sel_list(band_sel(), n)
}

/// The list holds exactly the selected pixels, in increasing order.
pub proof fn lemma_sel_list(sel: spec_fn(int) -> bool, n: int)
    requires
        0 <= n <= 217_156,
    ensures
        sel_list(sel, n).len() <= n,
        forall|i: int|
            0 <= i < sel_list(sel, n).len() ==> (#[trigger] sel_list(sel, n)[i]) % 2 == 0 && sel_list(sel, n)[i] / 2
                < n && sel(sel_list(sel, n)[i] as int / 2),
    decreases n,
{
    if n > 0 {
        lemma_sel_list(sel, n - 1);
    }
}

/// Index of the pixel of list entry `j`, or `n` past the end.
pub open spec fn sel_bound(sel: spec_fn(int) -> bool, n: int, j: int) -> int {
    if j < sel_list(sel, n).len() { sel_list(sel, n)[j] as int / 2 } else { n }
}

/// No selected pixel lies between two neighbouring list entries, before the first or after
/// the last.
pub proof fn lemma_sel_gaps(sel: spec_fn(int) -> bool, n: int, j: int, q: int)
    requires
        0 <= n <= 217_156,
        0 <= j <= sel_list(sel, n).len(),
        j > 0 ==> sel_bound(sel, n, j - 1) < q,
        j == 0 ==> 0 <= q,
        q < sel_bound(sel, n, j),
    ensures
        !sel(q),
    decreases n,
{
    if n > 0 {
        let prev = sel_list(sel, n - 1);
        lemma_sel_list(sel, n - 1);
        if sel(n - 1) {
            let m = prev.len() as int;
            if j == m {
                lemma_sel_gaps(sel, n - 1, j, q);
            } else if j < m {
                lemma_sel_gaps(sel, n - 1, j, q);
            }
        } else {
            if q < n - 1 {
                lemma_sel_gaps(sel, n - 1, j, q);
            }
        }
    }
}

/// Shader that sets the selected pixels before pixel `n`.
pub open spec fn sel_shader(
    sel: spec_fn(int) -> bool,
    val: spec_fn(int) -> (u8, u8),
    n: int,
) -> raster::Shader {
    |x: int, y: int, q: (u8, u8)|
        {
            let p = y * 466 + x;
            if p < n && sel(p) { val(p) } else { q }
        }
}

/// The canvas with the selected pixels before pixel `n` set.
pub open spec fn sel_on(
    fb: Seq<u8>,
    sel: spec_fn(int) -> bool,
    val: spec_fn(int) -> (u8, u8),
    n: int,
) -> Seq<u8> {
    raster::shade(fb, 0, 0, 466, 466, sel_shader(sel, val, n))
}

/// One more pixel.
pub proof fn lemma_sel_step(fb: Seq<u8>, sel: spec_fn(int) -> bool, val: spec_fn(int) -> (u8, u8), n: int)
    requires
        0 <= n < 217_156,
    ensures
        sel_on(fb, sel, val, n + 1) == (if sel(n) {
            raster::put_px(sel_on(fb, sel, val, n), n % 466, n / 466, val(n))
        } else {
            sel_on(fb, sel, val, n)
        }),
{
    reveal(raster::shade);
    let a = sel_on(fb, sel, val, n);
    let b = sel_on(fb, sel, val, n + 1);
    let (x, y) = (n % 466, n / 466);
    raster::lemma_slot(x, y);
    assert(raster::slot(x, y) == 2 * n);
    let c = if sel(n) { raster::put_px(a, x, y, val(n)) } else { a };
    assert forall|i: int| 0 <= i < fb.len() implies b[i] == c[i] by {
        let xi = (i / 2) % 466;
        let yi = (i / 2) / 466;
        assert(yi * 466 + xi == i / 2);
        if i / 2 == n {
            assert(xi == x && yi == y);
        }
    }
    assert(b =~= c);
}

/// Pixels that are not selected need no work.
pub proof fn lemma_sel_skip(
    fb: Seq<u8>,
    sel: spec_fn(int) -> bool,
    val: spec_fn(int) -> (u8, u8),
    a: int,
    b: int,
)
    requires
        0 <= a <= b <= 217_156,
        forall|q: int| a <= q < b ==> !#[trigger] sel(q),
    ensures
        sel_on(fb, sel, val, a) == sel_on(fb, sel, val, b),
    decreases b - a,
{
    if a < b {
        lemma_sel_step(fb, sel, val, a);
        lemma_sel_skip(fb, sel, val, a + 1, b);
    }
}

/// Nothing set yet.
pub proof fn lemma_sel_start(fb: Seq<u8>, sel: spec_fn(int) -> bool, val: spec_fn(int) -> (u8, u8))
    ensures
        sel_on(fb, sel, val, 0) == fb,
{
    raster::lemma_shade_identity(fb, 0, 0, 466, 466, sel_shader(sel, val, 0));
}

/// Setting the pixel of list entry `j` advances to the next entry.
pub proof fn lemma_sel_entry(
    fb: Seq<u8>,
    sel: spec_fn(int) -> bool,
    val: spec_fn(int) -> (u8, u8),
    j: int,
)
    requires
        0 <= j < sel_list(sel, 217_156).len(),
    ensures
        ({
            let p = sel_bound(sel, 217_156, j);
            &&& 0 <= p < 217_156
            &&& sel(p)
            &&& sel_on(fb, sel, val, sel_bound(sel, 217_156, j + 1)) == raster::put_px(
                sel_on(fb, sel, val, p),
                p % 466,
                p / 466,
                val(p),
            )
        }),
{
    lemma_sel_list(sel, 217_156);
    let p = sel_bound(sel, 217_156, j);
    let nxt = sel_bound(sel, 217_156, j + 1);
    assert(sel_list(sel, 217_156)[j] % 2 == 0);
    lemma_sel_step(fb, sel, val, p);
    lemma_sel_sorted(sel, 217_156, j);
    assert forall|q: int| p + 1 <= q < nxt implies !#[trigger] sel(q) by {
        lemma_sel_gaps(sel, 217_156, j + 1, q);
    }
    lemma_sel_skip(fb, sel, val, p + 1, nxt);
}

/// Before the first entry nothing is set.
pub proof fn lemma_sel_first(fb: Seq<u8>, sel: spec_fn(int) -> bool, val: spec_fn(int) -> (u8, u8))
    ensures
        sel_on(fb, sel, val, sel_bound(sel, 217_156, 0)) == fb,
{
    lemma_sel_list(sel, 217_156);
    let b = sel_bound(sel, 217_156, 0);
    if sel_list(sel, 217_156).len() > 0 {
        assert(sel_list(sel, 217_156)[0] % 2 == 0);
    }
    assert forall|q: int| 0 <= q < b implies !#[trigger] sel(q) by {
        lemma_sel_gaps(sel, 217_156, 0, q);
    }
    lemma_sel_skip(fb, sel, val, 0, b);
    lemma_sel_start(fb, sel, val);
}

proof fn lemma_sel_sorted(sel: spec_fn(int) -> bool, n: int, j: int)
    requires
        0 <= n <= 217_156,
        0 <= j < sel_list(sel, n).len(),
    ensures
        sel_bound(sel, n, j) < sel_bound(sel, n, j + 1) <= n,
    decreases n,
{
    lemma_sel_list(sel, n);
    assert(sel_list(sel, n)[j] % 2 == 0);
    if n > 0 {
        lemma_sel_list(sel, n - 1);
        let m = sel_list(sel, n - 1).len() as int;
        if j < m {
            lemma_sel_sorted(sel, n - 1, j);
            assert(sel_list(sel, n - 1)[j] % 2 == 0);
            if sel(n - 1) && j + 1 == m {
            }
        }
    }
}

/// A run of adjacent pixels: byte offset of the first and their number.
pub type Run = (u32, u16);

/// Runs extended by one more offset: the last run grows when the offset follows it.
pub open spec fn runs_with(r: Seq<Run>, off: u32) -> Seq<Run> {
    if r.len() > 0 && r.last().0 + r.last().1 * 2 == off && r.last().1 < 0xffff {
        r.update(r.len() - 1, (r.last().0, (r.last().1 + 1) as u16))
    } else {
        r.push((off, 1u16))
    }
}

/// The first `n` offsets as runs.
pub open spec fn runs_of(offs: Seq<u32>, n: int) -> Seq<Run>
    decreases n,
{
    if n <= 0 { Seq::empty() } else { runs_with(runs_of(offs, n - 1), offs[n - 1]) }
}

/// Number of pixels in the first `n` runs.
pub open spec fn run_pixels(r: Seq<Run>, n: int) -> int
    decreases n,
{
    if n <= 0 { 0 } else { run_pixels(r, n - 1) + r[n - 1].1 }
}

proof fn lemma_run_pixels_prefix(a: Seq<Run>, b: Seq<Run>, n: int)
    requires
        forall|i: int| 0 <= i < n ==> a[i] == b[i],
    ensures
        run_pixels(a, n) == run_pixels(b, n),
    decreases n,
{
    if n > 0 {
        lemma_run_pixels_prefix(a, b, n - 1);
    }
}

/// More runs hold more pixels.
pub proof fn lemma_run_pixels_monotonic(r: Seq<Run>, m: int, n: int)
    requires
        m <= n,
    ensures
        0 <= run_pixels(r, m) <= run_pixels(r, n),
    decreases n - m, n,
{
    if m < n {
        lemma_run_pixels_monotonic(r, m, n - 1);
    } else if n > 0 {
        lemma_run_pixels_monotonic(r, n - 1, n - 1);
    }
}

/// The runs hold as many pixels as there were offsets.
pub proof fn lemma_runs_pixels(offs: Seq<u32>, n: int)
    requires
        0 <= n <= offs.len(),
    ensures
        run_pixels(runs_of(offs, n), runs_of(offs, n).len() as int) == n,
        runs_of(offs, n).len() <= n,
    decreases n,
{
    if n > 0 {
        lemma_runs_pixels(offs, n - 1);
        let r = runs_of(offs, n - 1);
        let s = runs_of(offs, n);
        let m = r.len() as int;
        if s.len() == m {
            lemma_run_pixels_prefix(r, s, m - 1);
        } else {
            lemma_run_pixels_prefix(r, s, m);
        }
    }
}

/// Every run lies inside `[0, limit)` when the offsets do.
pub open spec fn runs_within(r: Seq<Run>, limit: int) -> bool {
    forall|i: int| 0 <= i < r.len() ==> (#[trigger] r[i]).0 % 2 == 0 && r[i].0 + r[i].1 * 2 <= limit
}

proof fn lemma_runs_within(offs: Seq<u32>, n: int, limit: int)
    requires
        0 <= n <= offs.len(),
        forall|i: int| 0 <= i < offs.len() ==> (#[trigger] offs[i]) % 2 == 0 && offs[i] + 2 <= limit,
    ensures
        runs_within(runs_of(offs, n), limit),
    decreases n,
{
    if n > 0 {
        lemma_runs_within(offs, n - 1, limit);
        assert(offs[n - 1] % 2 == 0);
    }
}

/// No run is empty.
pub proof fn lemma_runs_filled(offs: Seq<u32>, n: int, r: int)
    requires
        0 <= n <= offs.len(),
        0 <= r < runs_of(offs, n).len(),
    ensures
        runs_of(offs, n)[r].1 >= 1,
    decreases n,
{
    if n > 0 {
        let a = runs_of(offs, n - 1);
        if r < a.len() {
            lemma_runs_filled(offs, n - 1, r);
        }
    }
}

/// Pixel `k` of run `r` is the offset with that number.
pub proof fn lemma_runs_flatten(offs: Seq<u32>, n: int, r: int, k: int)
    requires
        0 <= n <= offs.len(),
        0 <= r < runs_of(offs, n).len(),
        0 <= k < runs_of(offs, n)[r].1,
    ensures
        0 <= run_pixels(runs_of(offs, n), r) + k < n,
        offs[run_pixels(runs_of(offs, n), r) + k] == runs_of(offs, n)[r].0 + 2 * k,
    decreases n,
{
    if n > 0 {
        let a = runs_of(offs, n - 1);
        let b = runs_of(offs, n);
        lemma_runs_pixels(offs, n - 1);
        let m = a.len() as int;
        if b.len() == m {
            lemma_run_pixels_prefix(a, b, r);
            if r < m - 1 {
                lemma_runs_flatten(offs, n - 1, r, k);
            } else if k < a[r].1 {
                lemma_runs_flatten(offs, n - 1, r, k);
            } else {
                assert(run_pixels(a, m) == run_pixels(a, m - 1) + a[m - 1].1);
            }
        } else {
            lemma_run_pixels_prefix(a, b, r);
            if r < m {
                lemma_runs_flatten(offs, n - 1, r, k);
            }
        }
    }
}

fn push_run(runs: &mut Vec<Run>, off: u32)
    requires
        runs_within(old(runs)@, 434_312),
    ensures
        final(runs)@ == runs_with(old(runs)@, off),
{
    let n: usize = runs.len();
    if n > 0 {
        let (start, len) = runs[n - 1];
        assert(runs@[n - 1].0 + runs@[n - 1].1 * 2 <= 434_312);
        if start + len as u32 * 2 == off && len < u16::MAX {
            runs.set(n - 1, (start, len + 1));
            return;
        }
    }
    runs.push((off, 1));
}

/// Radial alpha at a distance from the centre line given in 16ths of a pixel: solid to 4 px,
/// fading out at 5.75 px.
pub open spec fn alpha_profile(d_q4: int) -> int {
    if d_q4 <= 64 {
        255
    } else if d_q4 < 92 {
        255 * (92 - d_q4) / 28
    } else {
        0
    }
}

pub fn ring_alpha_profile(d_q4: i32) -> (r: u8)
    ensures
        r == alpha_profile(d_q4 as int),
{
    if d_q4 <= 64 {
        255
    } else if d_q4 < 92 {
        (255 * (92 - d_q4) / 28) as u8
    } else {
        0
    }
}

/// Distance of pixel `p` from the panel centre, in 16ths of a pixel.
pub open spec fn radius_q4(p: int) -> int {
    let dx = p % 466 - 233;
    let dy = p / 466 - 233;
    imath::sqrt_of((dx * dx + dy * dy) * 256)
}

/// Radial alpha of pixel `p`; nothing outside the ring.
pub open spec fn ring_alpha_at(p: int) -> int {
    if in_ring(p) { alpha_profile(imath::sabs(radius_q4(p) - 3568)) } else { 0 }
}

/// Saber channels are bytes.
pub proof fn lemma_saber_range(v: int)
    requires
        0 <= v <= 255,
    ensures
        0 <= saber_r(v) <= 255,
        0 <= saber_g(v) <= 255,
        0 <= saber_b(v) <= 255,
{
}

/// Band distances and angles are bytes.
pub proof fn lemma_band_range(p: int)
    ensures
        0 <= band_distance(p) <= 255,
        0 <= band_angle(p) <= 255,
{
}

/// A radial alpha is a byte.
pub proof fn lemma_alpha_range(p: int)
    ensures
        0 <= ring_alpha_at(p) <= 255,
{
}

fn radius_at(px: i32, py: i32) -> (r: i32)
    requires
        on_panel(px as int, py as int),
    ensures
        r == radius_q4(py * 466 + px),
        0 <= r <= 65_535,
{
    let dx: i32 = px - 233;
    let dy: i32 = py - 233;
    proof {
        lemma_pixel_index(px as int, py as int);
        assert(0 <= dx * dx <= 233 * 233) by (nonlinear_arith)
            requires -233 <= dx <= 233;
        assert(0 <= dy * dy <= 233 * 233) by (nonlinear_arith)
            requires -233 <= dy <= 233;
    }
    imath::isqrt(((dx * dx + dy * dy) as u32) * 256) as i32
}

/// Ring colour at an intensity in Q14.
pub open spec fn bezel_color(intensity_q14: int) -> (u8, u8) {
    let ii = imath::smin(imath::tdiv(intensity_q14 * 255, 256), 16_384);
    pixel::rgb888(200 * ii / 16_384, 215 * ii / 16_384, 255 * ii / 16_384)
}

pub fn bezel_color_bytes(intensity_q14: i32) -> (r: (u8, u8))
    requires
        0 <= intensity_q14 <= 8_000_000,
    ensures
        r == bezel_color(intensity_q14 as int),
{
    let ii: i32 = imath::imin(intensity_q14 * 255 / 256, 16_384);
    assert(0 <= ii <= 16_384);
    let r: i32 = imath::asr(200 * ii, 14);
    let g: i32 = imath::asr(215 * ii, 14);
    let b: i32 = imath::asr(255 * ii, 14);
    proof {
        let n = ii as int;
        assert(0 <= 200 * n / 16_384 <= 200 && 0 <= 215 * n / 16_384 <= 215 && 0 <= 255 * n / 16_384 <= 255)
            by (nonlinear_arith)
            requires 0 <= n <= 16_384;
    }
    pixel::pack888(r, g, b)
}

/// The ring's colours over all intensities.
pub open spec fn ring_table() -> Seq<(u8, u8)> {
    Seq::new(256, |i: int| bezel_color(16_384 * i / 255))
}

fn ring_colors() -> (lut: [(u8, u8); 256])
    ensures
        lut@ == ring_table(),
{
    let mut lut: [(u8, u8); 256] = [(0u8, 0u8);256];
    let mut i: usize = 0;
    while i < 256
        invariant
            i <= 256,
            forall|k: int| 0 <= k < i ==> lut@[k] == ring_table()[k],
        decreases 256 - i,
    {
        lut[i] = bezel_color_bytes(16_384 * i as i32 / 255);
        i = i + 1;
    }
    assert(lut@ =~= ring_table());
    lut
}

/// Saber gradient at intensity `v`: black, deep indigo, azure, neon azure, white-hot.
pub open spec fn saber_r(v: int) -> int {
    if v < 72 {
        v * 10 / 72
    } else if v < 160 {
        10 - (v - 72) * 10 / 88
    } else if v < 216 {
        0
    } else {
        (v - 216) * 190 / 39
    }
}

pub open spec fn saber_g(v: int) -> int {
    if v < 72 {
        v * 40 / 72
    } else if v < 160 {
        40 + (v - 72) * 70 / 88
    } else if v < 216 {
        110 + (v - 160) * 60 / 56
    } else {
        170 + (v - 216) * 85 / 39
    }
}

pub open spec fn saber_b(v: int) -> int {
    if v < 72 {
        v * 140 / 72
    } else if v < 160 {
        140 + (v - 72) * 90 / 88
    } else if v < 216 {
        230 + (v - 160) * 25 / 56
    } else {
        255
    }
}

/// The gradient over all intensities, in 8-bit channels and packed.
pub open spec fn saber_rgb_table() -> Seq<(u8, u8, u8)> {
    Seq::new(256, |v: int| (saber_r(v) as u8, saber_g(v) as u8, saber_b(v) as u8))
}

pub open spec fn flourish_table() -> Seq<(u8, u8)> {
    Seq::new(256, |v: int| pixel::rgb888(saber_r(v), saber_g(v), saber_b(v)))
}

fn saber_colors() -> (r: ([(u8, u8, u8); 256], [(u8, u8); 256]))
    ensures
        r.0@ == saber_rgb_table(),
        r.1@ == flourish_table(),
{
    let mut raw: [(u8, u8, u8); 256] = [(0u8, 0u8, 0u8);256];
    let mut lut: [(u8, u8); 256] = [(0u8, 0u8);256];
    let mut i: usize = 0;
    while i < 256
        invariant
            i <= 256,
            forall|k: int| 0 <= k < i ==> raw@[k] == saber_rgb_table()[k],
            forall|k: int| 0 <= k < i ==> lut@[k] == flourish_table()[k],
        decreases 256 - i,
    {
        let v: i32 = i as i32;
        let (r, g, b): (i32, i32, i32) = if v < 72 {
            (v * 10 / 72, v * 40 / 72, v * 140 / 72)
        } else if v < 160 {
            let t: i32 = v - 72;
            (10 - t * 10 / 88, 40 + t * 70 / 88, 140 + t * 90 / 88)
        } else if v < 216 {
            let t: i32 = v - 160;
            (0, 110 + t * 60 / 56, 230 + t * 25 / 56)
        } else {
            let t: i32 = v - 216;
            (t * 190 / 39, 170 + t * 85 / 39, 255)
        };
        raw[i] = (r as u8, g as u8, b as u8);
        lut[i] = pixel::pack888(r, g, b);
        i = i + 1;
    }
    assert(raw@ =~= saber_rgb_table());
    assert(lut@ =~= flourish_table());
    (raw, lut)
}

/// Angle of a direction in 256ths of a turn, clockwise from the +x axis, linear within
/// each octant.
pub open spec fn angle(dx: int, dy: int) -> int {
    let ax = imath::sabs(dx);
    let ay = imath::sabs(dy);
    if ax == 0 && ay == 0 {
        0
    } else {
        let t = imath::smin(ax, ay) * 32 / imath::smax(ax, ay);
        let oct = if ax >= ay {
            if dx >= 0 {
                if dy >= 0 { t } else { 256 - t }
            } else if dy >= 0 {
                128 - t
            } else {
                128 + t
            }
        } else if dy >= 0 {
            if dx >= 0 { 64 - t } else { 64 + t }
        } else if dx >= 0 {
            192 + t
        } else {
            192 - t
        };
        oct % 256
    }
}

pub fn angle256(dx: i32, dy: i32) -> (r: u8)
    requires
        -0x200_0000 <= dx <= 0x200_0000,
        -0x200_0000 <= dy <= 0x200_0000,
    ensures
        r == angle(dx as int, dy as int),
{
    let ax: i32 = imath::iabs(dx);
    let ay: i32 = imath::iabs(dy);
    if ax == 0 && ay == 0 {
        return 0;
    }
    let lo: i32 = imath::imin(ax, ay);
    let hi: i32 = imath::imax(ax, ay);
    proof {
        assert(0 <= lo * 32 / hi as int <= 32) by (nonlinear_arith)
            requires 0 <= lo <= hi, hi > 0;
    }
    let t: i32 = lo * 32 / hi;
    let oct: i32 = if ax >= ay {
        if dx >= 0 {
            if dy >= 0 { t } else { 256 - t }
        } else if dy >= 0 {
            128 - t
        } else {
            128 + t
        }
    } else if dy >= 0 {
        if dx >= 0 { 64 - t } else { 64 + t }
    } else if dx >= 0 {
        192 + t
    } else {
        192 - t
    };
    (oct % 256) as u8
}

/// Pixel `p` belongs to the flourish band: between 44 px inside and 10 px outside the
/// centre line.
pub open spec fn in_band(p: int) -> bool {
    let dx = p % 466 - 233;
    let dy = p / 466 - 233;
    179 * 179 <= dx * dx + dy * dy <= 233 * 233
}

/// Radial distance of pixel `p` in half pixels, offset by 128.
pub open spec fn band_distance(p: int) -> int {
    imath::sclamp(imath::tdiv(radius_q4(p) - 3568, 8) + 128, 0, 255)
}

/// Angle of pixel `p`, zero at twelve o'clock.
pub open spec fn band_angle(p: int) -> int {
    (angle(p % 466 - 233, p / 466 - 233) - 192) % 256
}

proof fn lemma_band_list(n: int)
    requires
        0 <= n <= 217_156,
    ensures
        band_list(n).len() <= n,
        forall|i: int|
            0 <= i < band_list(n).len() ==> (#[trigger] band_list(n)[i]) % 2 == 0 && band_list(n)[i] + 2 <= 434_312,
{
    lemma_sel_list(band_sel(), n);
}

proof fn lemma_ring_list(n: int)
    requires
        0 <= n <= 217_156,
    ensures
        ring_list(n).len() <= n,
        forall|i: int|
            0 <= i < ring_list(n).len() ==> (#[trigger] ring_list(n)[i]) % 2 == 0 && ring_list(n)[i] + 2 <= 434_312,
{
    lemma_sel_list(ring_sel(), n);
}

proof fn lemma_tap_list(k: int)
    requires
        0 <= k <= 396_000,
    ensures
        tap_list(k).len() <= k,
        forall|i: int|
            0 <= i < tap_list(k).len() ==> (#[trigger] tap_list(k)[i]) % 2 == 0 && tap_list(k)[i] + 2 <= 434_312,
    decreases k,
{
    if k > 0 {
        lemma_tap_list(k - 1);
        if tap_on(k - 1) {
            lemma_pixel_index(tap_x((k - 1) / 11, (k - 1) % 11 - 5), tap_y((k - 1) / 11, (k - 1) % 11 - 5));
        }
    }
}

/// Everything about the ring that is computed once.
pub struct RingTables {
    /// Tap offsets in angular order.
    pub anim: Vec<u32>,
    /// Ring pixel offsets in row order.
    pub full: Vec<u32>,
    /// The same as runs.
    pub runs: Vec<Run>,
    /// Radial alpha of every panel pixel.
    pub alpha: Vec<u8>,
    /// Intensity to ring colour.
    pub lut: [(u8, u8); 256],
    /// Flourish band as runs, with distance and angle of its pixels in order.
    pub band: Vec<Run>,
    pub band_d: Vec<u8>,
    pub band_ang: Vec<u8>,
    /// Saber gradient, packed and in 8-bit channels.
    pub saber: [(u8, u8); 256],
    pub saber_rgb: [(u8, u8, u8); 256],
}

/// The tables hold the ring's geometry and colours.
pub open spec fn tables_ok(t: RingTables) -> bool {
    &&& t.anim@ == tap_list(396_000)
    &&& t.full@ == ring_list(217_156)
    &&& t.runs@ == runs_of(ring_list(217_156), ring_list(217_156).len() as int)
    &&& t.alpha@ == alpha_table()
    &&& t.lut@ == ring_table()
    &&& t.band@ == runs_of(band_list(217_156), band_list(217_156).len() as int)
    &&& t.band_d@ == Seq::new(
        band_list(217_156).len(),
        |i: int| band_distance(band_list(217_156)[i] as int / 2) as u8,
    )
    &&& t.band_ang@ == Seq::new(
        band_list(217_156).len(),
        |i: int| band_angle(band_list(217_156)[i] as int / 2) as u8,
    )
    &&& t.saber@ == flourish_table()
    &&& t.saber_rgb@ == saber_rgb_table()
}

/// Radial alpha of every pixel of the panel.
pub open spec fn alpha_table() -> Seq<u8> {
    Seq::new(217_156, |p: int| ring_alpha_at(p) as u8)
}

/// What users of the tables rely on: offsets and runs lie on the panel and the band arrays
/// match the band.
pub proof fn lemma_tables(t: RingTables)
    requires
        tables_ok(t),
    ensures
        t.anim@.len() <= 396_000,
        forall|i: int| 0 <= i < t.anim@.len() ==> (#[trigger] t.anim@[i]) % 2 == 0 && t.anim@[i] + 2 <= 434_312,
        t.full@.len() <= 217_156,
        forall|i: int| 0 <= i < t.full@.len() ==> (#[trigger] t.full@[i]) % 2 == 0 && t.full@[i] + 2 <= 434_312,
        runs_within(t.runs@, 434_312),
        runs_within(t.band@, 434_312),
        t.runs@.len() <= 217_156,
        t.band@.len() <= 217_156,
        run_pixels(t.runs@, t.runs@.len() as int) == t.full@.len(),
        run_pixels(t.band@, t.band@.len() as int) == t.band_d@.len(),
        t.band_ang@.len() == t.band_d@.len(),
        t.band_d@.len() <= 217_156,
        t.alpha@.len() == 217_156,
{
    lemma_tap_list(396_000);
    lemma_ring_list(217_156);
    lemma_band_list(217_156);
    let r = ring_list(217_156);
    let b = band_list(217_156);
    lemma_runs_within(r, r.len() as int, 434_312);
    lemma_runs_within(b, b.len() as int, 434_312);
    lemma_runs_pixels(r, r.len() as int);
    lemma_runs_pixels(b, b.len() as int);
}

fn list_ring(cov: &Vec<bool>) -> (r: (Vec<u32>, Vec<Run>, Vec<u8>))
    requires
        cov@.len() == 217_156,
        forall|p: int| 0 <= p < 217_156 ==> #[trigger] cov@[p] == in_ring(p),
    ensures
        r.0@ == ring_list(217_156),
        r.1@ == runs_of(ring_list(217_156), ring_list(217_156).len() as int),
        r.2@ == alpha_table(),
{
    let mut full: Vec<u32> = Vec::new();
    let mut alpha: Vec<u8> = Vec::new();
    let mut p: usize = 0;
    while p < PIXELS
        invariant
            p <= 217_156,
            cov@.len() == 217_156,
            forall|q: int| 0 <= q < 217_156 ==> #[trigger] cov@[q] == in_ring(q),
            full@ == ring_list(p as int),
            alpha@.len() == p,
            forall|q: int| 0 <= q < p ==> alpha@[q] == alpha_table()[q],
        decreases 217_156 - p,
    {
        if cov[p] {
            full.push(p as u32 * 2);
            let px: i32 = (p % 466) as i32;
            let py: i32 = (p / 466) as i32;
            let r_q4: i32 = radius_at(px, py);
            assert(py * 466 + px == p);
            alpha.push(ring_alpha_profile(imath::iabs(r_q4 - 3568)));
        } else {
            alpha.push(0);
        }
        p = p + 1;
    }
    assert(alpha@ =~= alpha_table());
    proof {
        lemma_ring_list(217_156);
    }
    let runs = to_runs(&full);
    (full, runs, alpha)
}

fn to_runs(offs: &Vec<u32>) -> (r: Vec<Run>)
    requires
        forall|i: int| 0 <= i < offs@.len() ==> (#[trigger] offs@[i]) % 2 == 0 && offs@[i] + 2 <= 434_312,
    ensures
        r@ == runs_of(offs@, offs@.len() as int),
{
    let mut runs: Vec<Run> = Vec::new();
    let mut i: usize = 0;
    while i < offs.len()
        invariant
            i <= offs@.len(),
            forall|i: int| 0 <= i < offs@.len() ==> (#[trigger] offs@[i]) % 2 == 0 && offs@[i] + 2 <= 434_312,
            runs@ == runs_of(offs@, i as int),
        decreases offs@.len() - i,
    {
        proof {
            lemma_runs_within(offs@, i as int, 434_312);
        }
        push_run(&mut runs, offs[i]);
        i = i + 1;
    }
    runs
}

fn list_band() -> (r: (Vec<Run>, Vec<u8>, Vec<u8>))
    ensures
        r.0@ == runs_of(band_list(217_156), band_list(217_156).len() as int),
        r.1@ == Seq::new(
            band_list(217_156).len(),
            |i: int| band_distance(band_list(217_156)[i] as int / 2) as u8,
        ),
        r.2@ == Seq::new(
            band_list(217_156).len(),
            |i: int| band_angle(band_list(217_156)[i] as int / 2) as u8,
        ),
{
    let mut offs: Vec<u32> = Vec::new();
    let mut d: Vec<u8> = Vec::new();
    let mut ang: Vec<u8> = Vec::new();
    let mut p: usize = 0;
    while p < PIXELS
        invariant
            p <= 217_156,
            offs@ == band_list(p as int),
            d@.len() == offs@.len(),
            ang@.len() == offs@.len(),
            forall|i: int| 0 <= i < offs@.len() ==> #[trigger] d@[i] == band_distance(offs@[i] as int / 2) as u8,
            forall|i: int| 0 <= i < offs@.len() ==> #[trigger] ang@[i] == band_angle(offs@[i] as int / 2) as u8,
        decreases 217_156 - p,
    {
        let px: i32 = (p % 466) as i32;
        let py: i32 = (p / 466) as i32;
        let dx: i32 = px - 233;
        let dy: i32 = py - 233;
        proof {
            assert(py * 466 + px == p);
            assert(0 <= dx * dx <= 233 * 233) by (nonlinear_arith)
                requires -233 <= dx <= 233;
            assert(0 <= dy * dy <= 233 * 233) by (nonlinear_arith)
                requires -233 <= dy <= 233;
        }
        let r2: i32 = dx * dx + dy * dy;
        if !(r2 < 179 * 179 || r2 > 233 * 233) {
            let r_q4: i32 = radius_at(px, py);
            offs.push(p as u32 * 2);
            d.push(imath::iclamp((r_q4 - 3568) / 8 + 128, 0, 255) as u8);
            let a: i32 = angle256(dx, dy) as i32 - 192;
            ang.push((if a < 0 { a + 256 } else { a }) as u8);
        }
        p = p + 1;
    }
    proof {
        lemma_band_list(217_156);
    }
    assert(d@ =~= Seq::new(
        band_list(217_156).len(),
        |i: int| band_distance(band_list(217_156)[i] as int / 2) as u8,
    ));
    assert(ang@ =~= Seq::new(
        band_list(217_156).len(),
        |i: int| band_angle(band_list(217_156)[i] as int / 2) as u8,
    ));
    let runs = to_runs(&offs);
    (runs, d, ang)
}

/// Compute all ring tables.
pub fn precompute_bezel_ring() -> (t: RingTables)
    ensures
        tables_ok(t),
{
    let (anim, cov) = trace_ring();
    let (full, runs, alpha) = list_ring(&cov);
    let lut = ring_colors();
    let (band, band_d, band_ang) = list_band();
    let (saber_rgb, saber) = saber_colors();
    RingTables { anim, full, runs, alpha, lut, band, band_d, band_ang, saber, saber_rgb }
}

} // verus!
