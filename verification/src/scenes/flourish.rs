//! The lightsaber flourish of the locked ring: a blade sweep, a bloom of the inner
//! glow, a shimmering hold and a retraction that hands back the resting ring exactly.
use vstd::prelude::*;

use crate::display::watch_fb;
use crate::display::watch_fb::RectAcc;
use crate::imath;
use crate::pixel;
use crate::raster;
use crate::scenes::ring;
use crate::scenes::ring::RingTables;

verus! {

/// Frames of the ignition sweep.
pub const FL_SWEEP_F: u32 = 14;
/// Frames of the whole effect.
pub const FL_TOTAL_F: u32 = 55;

/// Ordered-dither offsets that break up the colour quantisation of the glow.
pub const BAYER4: [i32; 16] = [-7, 1, -5, 3, 5, -3, 7, -1, -4, 4, -6, 2, 8, 0, 6, -2];
/// Hum of the shimmering hold.
pub const HUM: [i32; 18] = [0, 8, -6, 14, -10, 4, -14, 10, -4, 12, -8, 16, -12, 2, -16, 6, -2, 0];

/// Strength of the inner glow (of 256) in frame `fr`: none during the sweep, an ease-out
/// surge, full, and a quadratic collapse to exactly zero on the last frame.
pub open spec fn bloom(fr: int) -> int {
    if fr < 14 {
        0
    } else if fr < 23 {
        let rem = 8 - (fr - 14);
        256 - 256 * rem * rem / 64
    } else if fr < 41 {
        256
    } else {
        let rem = 13 - (fr - 41);
        256 * rem * rem / 169
    }
}

/// Wobble of the glow in frame `fr`.
pub open spec fn shimmer(fr: int) -> int {
    if 23 <= fr < 41 { HUM@[fr - 23] as int } else { 0 }
}

/// One layer of the glow `x` half pixels inside the blade.
pub open spec fn layer(x: int, a: int, reach: int) -> int {
    if x >= reach { 0 } else { a * (reach - x) * (reach - x) / (reach * reach) }
}

/// Radial profile at biased distance `idx` (128 is the centre line, less is inside).
pub open spec fn profile(idx: int, bloom: int, shimmer: int) -> int {
    let dh = idx - 128;
    let v = if -11 <= dh <= 11 {
        255 - dh * dh / 3
    } else if dh > 11 {
        let x = dh - 11;
        if x <= 4 { 205 - x * 8 } else { imath::smax(173 - (x - 4) * 24, 0) }
    } else {
        let x = -dh - 11;
        let g = imath::smin(layer(x, 150, 20) + layer(x, 95, 48) + layer(x, 50, 80), 220);
        g * bloom / 256 * (256 + shimmer) / 256
    };
    imath::sclamp(v, 0, 255)
}

/// Ignition front around the ring; 512 is fully swept.
pub open spec fn front(fr: int) -> int {
    if fr < 14 { 256 - 256 * (14 - fr) * (14 - fr) / 196 } else { 512 }
}

/// Crossfade (of 256) from the ring's own colours to the saber's, fading in over the first
/// eight frames and out over the last eight.
pub open spec fn crossfade(fr: int) -> int {
    imath::smin(imath::smin((fr + 1) * 256 / 8, 256), imath::smin((54 - fr) * 256 / 8, 256))
}

/// Colour at intensity `i` for crossfade `g`.
pub open spec fn blend_color(i: int, g: int) -> (u8, u8) {
    if g >= 256 {
        ring::flourish_table()[i]
    } else if g <= 0 {
        ring::ring_table()[i]
    } else {
        let (r, gr, b) = (200 * i / 255, 215 * i / 255, i);
        pixel::rgb888(
            r + (ring::saber_r(i) - r) * g / 256,
            gr + (ring::saber_g(i) - gr) * g / 256,
            b + (ring::saber_b(i) - b) * g / 256,
        )
    }
}

/// Share of the blade (of 256) that has reached angle `ang`; in the closing frame none is left.
pub open spec fn mask(fr: int, ang: int) -> int {
    if crossfade(fr) <= 0 {
        0
    } else if front(fr) >= 512 {
        256
    } else {
        imath::sclamp((front(fr) - ang) * 13, 0, 256)
    }
}

/// Intensity of band pixel `p` in frame `fr`: the resting ring or the blade and its glow,
/// whichever is brighter, dithered while the effect is on.
pub open spec fn intensity(p: int, fr: int) -> int {
    let sab = profile(ring::band_distance(p), bloom(fr), shimmer(fr));
    let v = imath::smax(ring::ring_alpha_at(p), sab * mask(fr, ring::band_angle(p)) / 256);
    if crossfade(fr) > 0 && 0 < v < 232 {
        imath::sclamp(v + BAYER4@[p / 466 % 4 * 4 + p % 466 % 4], 0, 255)
    } else {
        v
    }
}

/// Colours of the band in frame `fr`.
pub open spec fn flourish_val(fr: int) -> spec_fn(int) -> (u8, u8) {
    |p: int| blend_color(intensity(p, fr), crossfade(fr))
}

/// The canvas after frame `fr`: every band pixel set.
pub open spec fn flourish_on(fb: Seq<u8>, fr: int) -> Seq<u8> {
    ring::sel_on(fb, ring::band_sel(), flourish_val(fr), 217_156)
}

/// The closing frame writes the resting ring: each band pixel gets the ring colour of its
/// radial alpha, so the hand-back is exact.
pub proof fn lemma_closing_frame_is_rest(p: int)
    ensures
        flourish_val(54)(p) == ring::ring_table()[ring::ring_alpha_at(p)],
{
    ring::lemma_alpha_range(p);
    assert(crossfade(54) == 0);
    let sab = profile(ring::band_distance(p), bloom(54), shimmer(54));
    assert(sab * 0 / 256 == 0);
}

/// No glow before the bloom and none on the last frame; full during the hold.
pub proof fn lemma_bloom_ends()
    ensures
        forall|fr: int| fr < 14 ==> bloom(fr) == 0,
        forall|fr: int| 23 <= fr < 41 ==> bloom(fr) == 256,
        bloom(22) == 256,
        bloom(54) == 0,
{
    assert(256int * 0 * 0 / 64 == 0);
    assert(256int * 0 * 0 / 169 == 0);
}

fn bloom_at(fr: u32) -> (r: i32)
    requires
        fr < 55,
    ensures
        r == bloom(fr as int),
        0 <= r <= 256,
{
    if fr < FL_SWEEP_F {
        0
    } else if fr < 23 {
        let rem: i32 = 8 - (fr - 14) as i32;
        proof {
            assert(0 <= 256 * rem * rem <= 256 * 64) by (nonlinear_arith)
                requires 0 <= rem <= 8;
            assert(256 * rem <= 2048) by (nonlinear_arith)
                requires 0 <= rem <= 8;
        }
        256 - (256 * rem * rem) / 64
    } else if fr < 41 {
        256
    } else {
        let rem: i32 = 13 - (fr - 41) as i32;
        proof {
            assert(0 <= 256 * rem * rem <= 256 * 169) by (nonlinear_arith)
                requires 0 <= rem <= 13;
            assert(256 * rem <= 4096) by (nonlinear_arith)
                requires 0 <= rem <= 13;
        }
        (256 * rem * rem) / 169
    }
}

fn shimmer_at(fr: u32) -> (r: i32)
    requires
        fr < 55,
    ensures
        r == shimmer(fr as int),
        -16 <= r <= 16,
{
    if fr >= 23 && fr < 41 {
        let i: usize = (fr - 23) as usize;
        proof {
            lemma_hum(i as int);
        }
        HUM[i]
    } else {
        0
    }
}

proof fn lemma_hum(i: int)
    requires
        0 <= i < 18,
    ensures
        -16 <= HUM@[i] <= 16,
{
    assert(HUM@[0] == 0 && HUM@[1] == 8 && HUM@[2] == -6 && HUM@[3] == 14 && HUM@[4] == -10 && HUM@[5] == 4);
    assert(HUM@[6] == -14 && HUM@[7] == 10 && HUM@[8] == -4 && HUM@[9] == 12 && HUM@[10] == -8 && HUM@[11] == 16);
    assert(HUM@[12] == -12 && HUM@[13] == 2 && HUM@[14] == -16 && HUM@[15] == 6 && HUM@[16] == -2 && HUM@[17]
        == 0);
    if i < 6 {
        assert(i == 0 || i == 1 || i == 2 || i == 3 || i == 4 || i == 5);
    } else if i < 12 {
        assert(i == 6 || i == 7 || i == 8 || i == 9 || i == 10 || i == 11);
    } else {
        assert(i == 12 || i == 13 || i == 14 || i == 15 || i == 16 || i == 17);
    }
}

fn layer_at(x: i32, a: i32, reach: i32) -> (r: i32)
    requires
        0 <= x <= 255,
        0 <= a <= 255,
        1 <= reach <= 255,
    ensures
        r == layer(x as int, a as int, reach as int),
        0 <= r <= a,
{
    if x >= reach {
        0
    } else {
        let d: i32 = reach - x;
        proof {
            assert(0 <= a * d <= 255 * 255) by (nonlinear_arith)
                requires 0 <= a <= 255, 0 <= d <= 255;
            assert(0 <= a * d * d <= 255 * 255 * 255) by (nonlinear_arith)
                requires 0 <= a <= 255, 0 <= d <= 255;
            assert(1 <= reach * reach <= 255 * 255) by (nonlinear_arith)
                requires 1 <= reach <= 255;
            assert(0 <= a * d * d / (reach * reach) <= a) by (nonlinear_arith)
                requires 0 <= a, 0 <= d <= reach, reach >= 1;
        }
        a * d * d / (reach * reach)
    }
}

fn profile_at(idx: i32, bl: i32, shim: i32) -> (r: i32)
    requires
        0 <= idx <= 255,
        0 <= bl <= 256,
        -16 <= shim <= 16,
    ensures
        r == profile(idx as int, bl as int, shim as int),
        0 <= r <= 255,
{
    let dh: i32 = idx - 128;
    let v: i32 = if -11 <= dh && dh <= 11 {
        proof {
            assert(0 <= dh * dh <= 121) by (nonlinear_arith)
                requires -11 <= dh <= 11;
        }
        255 - (dh * dh) / 3
    } else if dh > 11 {
        let x: i32 = dh - 11;
        if x <= 4 { 205 - x * 8 } else { imath::imax(173 - (x - 4) * 24, 0) }
    } else {
        let x: i32 = -dh - 11;
        let g: i32 = imath::imin(layer_at(x, 150, 20) + layer_at(x, 95, 48) + layer_at(x, 50, 80), 220);
        proof {
            assert(0 <= g * bl <= 220 * 256) by (nonlinear_arith)
                requires 0 <= g <= 220, 0 <= bl <= 256;
        }
        let h: i32 = imath::asr(g * bl, 8);
        proof {
            assert(0 <= h * (256 + shim) <= 220 * 272) by (nonlinear_arith)
                requires 0 <= h <= 220, -16 <= shim <= 16;
        }
        imath::asr(h * (256 + shim), 8)
    };
    imath::iclamp(v, 0, 255)
}

fn front_at(fr: u32) -> (r: i32)
    requires
        fr < 55,
    ensures
        r == front(fr as int),
        0 <= r <= 512,
{
    if fr < FL_SWEEP_F {
        let rem: i32 = 14 - fr as i32;
        proof {
            assert(0 <= 256 * rem * rem <= 256 * 196) by (nonlinear_arith)
                requires 0 <= rem <= 14;
            assert(256 * rem <= 4096) by (nonlinear_arith)
                requires 0 <= rem <= 14;
        }
        256 - (256 * rem * rem) / 196
    } else {
        512
    }
}

fn crossfade_at(fr: u32) -> (r: i32)
    requires
        fr < 55,
    ensures
        r == crossfade(fr as int),
        0 <= r <= 256,
{
    let f: i32 = fr as i32;
    imath::imin(imath::imin((f + 1) * 256 / 8, 256), imath::imin((54 - f) * 256 / 8, 256))
}

fn fade_channel(a: i32, b: i32, g: i32) -> (r: i32)
    requires
        0 <= a <= 255,
        0 <= b <= 255,
        0 <= g <= 256,
    ensures
        r == a + (b - a) * g / 256,
        0 <= r <= 255,
{
    let d: i32 = b - a;
    proof {
        assert(d >= 0 ==> 0 <= d * g <= d * 256) by (nonlinear_arith)
            requires 0 <= g <= 256;
        assert(d < 0 ==> d * 256 <= d * g <= 0) by (nonlinear_arith)
            requires 0 <= g <= 256;
    }
    a + imath::asr(d * g, 8)
}

/// Colour table of a crossfade.
pub open spec fn blend_table(g: int) -> Seq<(u8, u8)> {
    Seq::new(256, |i: int| blend_color(i, g))
}

fn blend_lut(t: &RingTables, g: i32) -> (lut: [(u8, u8); 256])
    requires
        ring::tables_ok(*t),
        0 <= g <= 256,
    ensures
        lut@ == blend_table(g as int),
{
    let mut lut: [(u8, u8); 256] = [(0u8, 0u8);256];
    let mut i: usize = 0;
    while i < 256
        invariant
            ring::tables_ok(*t),
            0 <= g <= 256,
            i <= 256,
            forall|k: int| 0 <= k < i ==> lut@[k] == blend_color(k, g as int),
        decreases 256 - i,
    {
        if g >= 256 {
            lut[i] = t.saber[i];
        } else if g <= 0 {
            lut[i] = t.lut[i];
        } else {
            let (sr, sg, sb) = t.saber_rgb[i];
            let v: i32 = i as i32;
            proof {
                ring::lemma_saber_range(i as int);
            }
            lut[i] = pixel::pack888(
                fade_channel(200 * v / 255, sr as i32, g),
                fade_channel(215 * v / 255, sg as i32, g),
                fade_channel(v, sb as i32, g),
            );
        }
        i = i + 1;
    }
    assert(lut@ =~= blend_table(g as int));
    lut
}

proof fn lemma_bayer(i: int)
    requires
        0 <= i < 16,
    ensures
        -8 <= BAYER4@[i] <= 8,
{
    assert(BAYER4@[0] == -7 && BAYER4@[1] == 1 && BAYER4@[2] == -5 && BAYER4@[3] == 3);
    assert(BAYER4@[4] == 5 && BAYER4@[5] == -3 && BAYER4@[6] == 7 && BAYER4@[7] == -1);
    assert(BAYER4@[8] == -4 && BAYER4@[9] == 4 && BAYER4@[10] == -6 && BAYER4@[11] == 2);
    assert(BAYER4@[12] == 8 && BAYER4@[13] == 0 && BAYER4@[14] == 6 && BAYER4@[15] == -2);
    if i < 8 {
        assert(i == 0 || i == 1 || i == 2 || i == 3 || i == 4 || i == 5 || i == 6 || i == 7);
    } else {
        assert(i == 8 || i == 9 || i == 10 || i == 11 || i == 12 || i == 13 || i == 14 || i == 15);
    }
}

fn profile_table(bl: i32, shim: i32) -> (r: Vec<i32>)
    requires
        0 <= bl <= 256,
        -16 <= shim <= 16,
    ensures
        r@.len() == 256,
        forall|k: int| 0 <= k < 256 ==> #[trigger] r@[k] == profile(k, bl as int, shim as int) && 0 <= r@[k] <= 255,
{
    let mut v: Vec<i32> = Vec::new();
    let mut i: usize = 0;
    while i < 256
        invariant
            i <= 256,
            0 <= bl <= 256,
            -16 <= shim <= 16,
            v@.len() == i,
            forall|k: int|
                0 <= k < i ==> #[trigger] v@[k] == profile(k, bl as int, shim as int) && 0 <= v@[k] <= 255,
        decreases 256 - i,
    {
        v.push(profile_at(i as i32, bl, shim));
        i = i + 1;
    }
    v
}

/// Intensity of one band pixel.
fn intensity_at(p: usize, alpha: i32, sab: i32, ang: i32, fr: i32, fnt: i32, g: i32) -> (r: i32)
    requires
        p < 217_156,
        0 <= fr < 55,
        alpha == ring::ring_alpha_at(p as int),
        0 <= alpha <= 255,
        sab == profile(ring::band_distance(p as int), bloom(fr as int), shimmer(fr as int)),
        0 <= sab <= 255,
        ang == ring::band_angle(p as int),
        0 <= ang <= 255,
        fnt == front(fr as int),
        0 <= fnt <= 512,
        g == crossfade(fr as int),
    ensures
        r == intensity(p as int, fr as int),
        0 <= r <= 255,
{
    let f: i32 = if g <= 0 {
        0
    } else if fnt >= 512 {
        256
    } else {
        imath::iclamp((fnt - ang) * 13, 0, 256)
    };
    proof {
        assert(0 <= sab * f <= 255 * 256) by (nonlinear_arith)
            requires 0 <= sab <= 255, 0 <= f <= 256;
    }
    let v: i32 = imath::imax(alpha, imath::asr(sab * f, 8));
    if g > 0 && v > 0 && v < 232 {
        let b: usize = (p / 466 % 4) * 4 + p % 466 % 4;
        proof {
            lemma_bayer(b as int);
        }
        imath::iclamp(v + BAYER4[b], 0, 255)
    } else {
        v
    }
}

/// One frame of the effect; returns the number of band pixels.
pub fn flourish_frame(t: &RingTables, fb: &mut [u8], fr: u32, acc: &mut RectAcc) -> (n: usize)
    requires
        ring::tables_ok(*t),
        fr < 55,
    ensures
        final(fb)@ == flourish_on(old(fb)@, fr as int),
        *final(acc) == watch_fb::grown(watch_fb::grown(*old(acc), -1, -1), 467, 467),
        n == t.band_d@.len(),
        n <= 217_156,
{
    let prof = profile_table(bloom_at(fr), shimmer_at(fr));
    let fnt: i32 = front_at(fr);
    let g: i32 = crossfade_at(fr);
    let lut = blend_lut(t, g);
    let ghost sel = ring::band_sel();
    let ghost val = flourish_val(fr as int);
    let ghost fb0 = fb@;
    proof {
        ring::lemma_tables(*t);
        ring::lemma_sel_first(fb0, sel, val);
    }
    let mut pi: usize = 0;
    let mut r: usize = 0;
    while r < t.band.len()
        invariant
            ring::tables_ok(*t),
            fr < 55,
            prof@.len() == 256,
            forall|k: int|
                0 <= k < 256 ==> #[trigger] prof@[k] == profile(k, bloom(fr as int), shimmer(fr as int)) && 0
                    <= prof@[k] <= 255,
            fnt == front(fr as int),
            0 <= fnt <= 512,
            g == crossfade(fr as int),
            lut@ == blend_table(g as int),
            sel == ring::band_sel(),
            val == flourish_val(fr as int),
            r <= t.band@.len(),
            ring::run_pixels(t.band@, t.band@.len() as int) == t.band_d@.len(),
            t.band_d@.len() <= 217_156,
            pi == ring::run_pixels(t.band@, r as int),
            fb@ == ring::sel_on(fb0, sel, val, ring::sel_bound(sel, 217_156, pi as int)),
        decreases t.band@.len() - r,
    {
        let (start, len) = t.band[r];
        proof {
            ring::lemma_run_pixels_monotonic(t.band@, r + 1, t.band@.len() as int);
        }
        flourish_run(t, fb, start, len, pi, r, fr, fnt, g, &prof, &lut, Ghost(fb0));
        pi = pi + len as usize;
        r = r + 1;
    }
    acc.add(-1, -1);
    acc.add(467, 467);
    pi
}

/// One run of the band: its pixels are the list entries `pi ..`.
fn flourish_run(
    t: &RingTables,
    fb: &mut [u8],
    start: u32,
    len: u16,
    pi: usize,
    r: usize,
    fr: u32,
    fnt: i32,
    g: i32,
    prof: &Vec<i32>,
    lut: &[(u8, u8); 256],
    Ghost(fb0): Ghost<Seq<u8>>,
)
    requires
        ring::tables_ok(*t),
        fr < 55,
        prof@.len() == 256,
        forall|k: int|
            0 <= k < 256 ==> #[trigger] prof@[k] == profile(k, bloom(fr as int), shimmer(fr as int)) && 0 <= prof@[k]
                <= 255,
        fnt == front(fr as int),
        0 <= fnt <= 512,
        g == crossfade(fr as int),
        lut@ == blend_table(g as int),
        r < t.band@.len(),
        t.band@[r as int] == (start, len),
        pi == ring::run_pixels(t.band@, r as int),
        pi + len <= 217_156,
        old(fb)@ == ring::sel_on(
            fb0,
            ring::band_sel(),
            flourish_val(fr as int),
            ring::sel_bound(ring::band_sel(), 217_156, pi as int),
        ),
    ensures
        final(fb)@ == ring::sel_on(
            fb0,
            ring::band_sel(),
            flourish_val(fr as int),
            ring::sel_bound(ring::band_sel(), 217_156, pi + len),
        ),
{
    let ghost sel = ring::band_sel();
    let ghost val = flourish_val(fr as int);
    let ghost list = ring::sel_list(sel, 217_156);
    proof {
        ring::lemma_tables(*t);
    }
    let mut k: usize = 0;
    while k < len as usize
        invariant
            ring::tables_ok(*t),
            fr < 55,
            prof@.len() == 256,
            forall|k: int|
                0 <= k < 256 ==> #[trigger] prof@[k] == profile(k, bloom(fr as int), shimmer(fr as int)) && 0
                    <= prof@[k] <= 255,
            fnt == front(fr as int),
            0 <= fnt <= 512,
            g == crossfade(fr as int),
            lut@ == blend_table(g as int),
            r < t.band@.len(),
            t.band@[r as int] == (start, len),
            pi == ring::run_pixels(t.band@, r as int),
            pi + len <= 217_156,
            k <= len,
            sel == ring::band_sel(),
            val == flourish_val(fr as int),
            list == ring::sel_list(sel, 217_156),
            t.band@ == ring::runs_of(list, list.len() as int),
            t.band_d@.len() == list.len(),
            t.band_ang@.len() == list.len(),
            ring::runs_within(t.band@, 434_312),
            t.alpha@.len() == 217_156,
            fb@ == ring::sel_on(fb0, sel, val, ring::sel_bound(sel, 217_156, pi + k)),
        decreases len - k,
    {
        let j: usize = pi + k;
        proof {
            ring::lemma_runs_flatten(list, list.len() as int, r as int, k as int);
            ring::lemma_sel_entry(fb0, sel, val, j as int);
            assert(t.band@[r as int].0 % 2 == 0);
        }
        let p: usize = start as usize / 2 + k;
        proof {
            assert(list[j as int] == start + 2 * k);
            assert(p == ring::sel_bound(sel, 217_156, j as int));
            ring::lemma_alpha_range(p as int);
            ring::lemma_band_range(p as int);
        }
        let d: usize = t.band_d[j] as usize;
        let v: i32 = intensity_at(p, t.alpha[p] as i32, prof[d], t.band_ang[j] as i32, fr as i32, fnt, g);
        let c: (u8, u8) = lut[v as usize];
        raster::set_px(fb, (p % 466) as i32, (p / 466) as i32, c);
        k = k + 1;
    }
}

} // verus!
