//! The aurora shader: nine angular layers summed in fixed point on a coarse grid, then
//! enlarged. The grid's polar coordinates and the sample tables come from outside.
use vstd::prelude::*;

use crate::imath;
use crate::trig;
use crate::trig::{FRAC_PI_2_Q14, TAU_Q14};
use crate::upscale;
use crate::upscale::UpSample1D;

verus! {

pub const LOW_W: u16 = 156;
pub const LOW_H: u16 = 156;
/// Layers of the aurora.
pub const LAYERS: usize = 9;
/// 1.0 in fixed point.
pub const Q: i32 = 16384;
/// 1.2 in fixed point.
pub const ONE2_Q14: i32 = 19661;

/// Sine of a phase: the table entry at or before it.
pub open spec fn sine(phase: int) -> int {
    trig::sin_entry((phase % 103_246) * 512 / 103_246)
}

/// The cosine of a phase: the sine a quarter turn on.
pub open spec fn cosine(phase: int) -> int {
    sine(phase + 25_736)
}

/// No sine exceeds 1.0.
pub proof fn lemma_sine_range(phase: int)
    ensures
        -16_384 <= sine(phase) <= 16_384,
{
    let i = (phase % 103_246) * 512 / 103_246;
    assert(0 <= i < 512);
    trig::lemma_sin_entry(i);
}

pub fn lut_sin_cos_q14(phase: i32) -> (r: i32)
    ensures
        r == sine(phase as int),
        -16_384 <= r <= 16_384,
{
    let mut x: i32 = phase % TAU_Q14;
    if x < 0 {
        x = x + TAU_Q14;
    }
    assert(x == phase as int % 103_246);
    let i: i64 = x as i64 * 512 / 103_246;
    assert(0 <= i < 512);
    trig::sin_at(i as usize)
}

/// Hermite step from `e0` to `e1`, in fixed point; zero where they are not in order.
pub open spec fn step_q14(e0: int, e1: int, x: int) -> int {
    if e1 <= e0 {
        0
    } else {
        let t = imath::sclamp(imath::tdiv((x - e0) * 16_384, e1 - e0), 0, 16_384);
        let t2 = t * t / 16_384;
        t2 * (49_152 - 2 * t) / 16_384
    }
}

pub fn smoothstep_q14(edge0: i32, edge1: i32, x: i32) -> (r: i32)
    requires
        -0x1000_0000 <= edge0 <= 0x1000_0000,
        -0x1000_0000 <= edge1 <= 0x1000_0000,
        -0x1000_0000 <= x <= 0x1000_0000,
    ensures
        r == step_q14(edge0 as int, edge1 as int, x as int),
        0 <= r <= 16_384,
{
    let denom: i32 = edge1 - edge0;
    if denom <= 0 {
        return 0;
    }
    let q: i64 = (x as i64 - edge0 as i64) * 16_384 / denom as i64;
    let t: i32 = if q < 0 {
        0
    } else if q > 16_384 {
        16_384
    } else {
        q as i32
    };
    proof {
        assert(0 <= t * t <= 16_384 * t) by (nonlinear_arith)
            requires
                0 <= t <= 16_384,
        ;
    }
    let t2: i32 = t * t / 16_384;
    proof {
        let k = 49_152 - 2 * t;
        assert(0 <= t2 * k) by (nonlinear_arith)
            requires
                0 <= t2,
                0 <= k,
        ;
        // t2 is at most t^2 / 16384, and the cubic ends at its top
        assert(t2 * k * 16_384 <= t * t * k) by (nonlinear_arith)
            requires
                t2 * 16_384 <= t * t,
                0 <= k,
        ;
        assert(t * t * k <= 4_398_046_511_104) by (nonlinear_arith)
            requires
                0 <= t <= 16_384,
                k == 49_152 - 2 * t,
        {
            let u = 16_384 - t;
            // 16384^3 - t^2 (3 * 16384 - 2 t) = (16384 - t)^2 (16384 + 2 t)
            assert(4_398_046_511_104 - t * t * k == u * u * (16_384 + 2 * t));
            assert(u * u * (16_384 + 2 * t) >= 0);
        }
        assert(t2 * k <= 268_435_456);
    }
    (t2 as i64 * (49_152 - 2 * t) as i64 / 16_384) as i32
}

/// Saturation curve: a rational tangent within 3.5, flat beyond.
pub open spec fn tanh_q14(x: int) -> int {
    if x > 57_344 {
        16_384
    } else if x < -57_344 {
        -16_384
    } else {
        let x2 = x * x / 16_384;
        imath::tdiv(x * (442_368 + x2), 442_368 + 9 * x2)
    }
}

pub fn fast_tanh_q14(x: i32) -> (r: i32)
    ensures
        r == tanh_q14(x as int),
        -0x10_0000 <= r <= 0x10_0000,
{
    if x > 57_344 {
        return Q;
    }
    if x < -57_344 {
        return -Q;
    }
    let v: i64 = x as i64;
    proof {
        assert(0 <= v * v <= 57_344 * 57_344) by (nonlinear_arith)
            requires
                -57_344 <= v <= 57_344,
        ;
    }
    let x2: i64 = v * v / 16_384;
    proof {
        assert(-57_344 * 643_072 <= v * (442_368 + x2) <= 57_344 * 643_072) by (nonlinear_arith)
            requires
                -57_344 <= v <= 57_344,
                0 <= x2 <= 200_704,
        ;
    }
    let num: i64 = v * (442_368 + x2);
    let den: i64 = 442_368 + 9 * x2;
    proof {
        lemma_quotient(num as int, den as int);
    }
    (num / den) as i32
}

proof fn lemma_quotient(n: int, d: int)
    requires
        -57_344 * 643_072 <= n <= 57_344 * 643_072,
        d >= 442_368,
    ensures
        -0x10_0000 <= imath::tdiv(n, d) <= 0x10_0000,
{
    let m = imath::sabs(n);
    assert(0 <= m / d <= 0x10_0000) by (nonlinear_arith)
        requires
            0 <= m <= 57_344 * 643_072,
            d >= 442_368,
    ;
}

/// A fixed-point colour as an RGB565 pixel.
pub open spec fn rgb565_of(r: int, g: int, b: int) -> int {
    (imath::sclamp(r, 0, 16_384) * 31 / 16_384) * 2048 + (imath::sclamp(g, 0, 16_384) * 63 / 16_384) * 32
        + imath::sclamp(b, 0, 16_384) * 31 / 16_384
}

pub fn q14_rgb_to_rgb565(r: i32, g: i32, b: i32) -> (p: u16)
    ensures
        p == rgb565_of(r as int, g as int, b as int),
{
    let r5: i32 = imath::iclamp(r, 0, Q) * 31 / Q;
    let g6: i32 = imath::iclamp(g, 0, Q) * 63 / Q;
    let b5: i32 = imath::iclamp(b, 0, Q) * 31 / Q;
    (r5 * 2048 + g6 * 32 + b5) as u16
}

/// The pixel at each corner of the colour cube: black at or below zero, white at or above one.
pub proof fn lemma_rgb565_ends(v: int)
    ensures
        v <= 0 ==> rgb565_of(v, v, v) == 0,
        v >= 16_384 ==> rgb565_of(v, v, v) == 65_535,
{
}

/// Phase offset of a layer: its number squared.
pub open spec fn layer_phase(layer: int) -> int {
    (layer + 1) * (layer + 1) * 16_384
}

fn layer_phase_at(layer: usize) -> (r: i32)
    requires
        layer < 9,
    ensures
        r == layer_phase(layer as int),
        0 <= r <= 1_327_104,
{
    let l: i32 = layer as i32 + 1;
    proof {
        assert(1 <= l * l <= 81) by (nonlinear_arith)
            requires
                1 <= l <= 9,
        ;
    }
    l * l * 16_384
}

/// Sums of the three colour channels.
pub struct Glow {
    pub r: int,
    pub g: int,
    pub b: int,
}

/// Sine of the sum of an angle given by its sine and cosine and the offset of a colour, plus
/// 1.2.
pub open spec fn tone(sin_a: int, cos_a: int, sin_d: int, cos_d: int) -> int {
    19_661 + (sin_a * cos_d + cos_a * sin_d) / 16_384
}

/// Tables of a frame: the cosines of the layers and the sines and cosines of their colour
/// offsets, three per layer.
pub struct LayerTables {
    pub frame_cos: Seq<i32>,
    pub sin_d: Seq<i32>,
    pub cos_d: Seq<i32>,
}

/// The sums with layer `l` of the pixel `lx` of a row added.
pub open spec fn with_layer(o: Glow, pack: Seq<i32>, lw: int, lx: int, t: LayerTables, l: int) -> Glow {
    let a = pack[lx] + t.frame_cos[l] + layer_phase(l);
    let (s, c) = (sine(a), sine(a + 25_736));
    let f = pack[lw + l * lw + lx] * step_q14(t.frame_cos[l] as int, 32_768, c) / 1_048_576;
    Glow {
        r: o.r + f * tone(s, c, t.sin_d[3 * l] as int, t.cos_d[3 * l] as int),
        g: o.g + f * tone(s, c, t.sin_d[3 * l + 1] as int, t.cos_d[3 * l + 1] as int),
        b: o.b + f * tone(s, c, t.sin_d[3 * l + 2] as int, t.cos_d[3 * l + 2] as int),
    }
}

pub open spec fn layers_of(pack: Seq<i32>, lw: int, lx: int, t: LayerTables, n: int) -> Glow
    decreases n,
{
    if n <= 0 { Glow { r: 0, g: 0, b: 0 } } else { with_layer(layers_of(pack, lw, lx, t, n - 1), pack, lw, lx, t, n - 1) }
}

/// The pixel `lx` of a row.
pub open spec fn aurora_px(pack: Seq<i32>, lw: int, lx: int, t: LayerTables) -> int {
    let o = layers_of(pack, lw, lx, t, 9);
    rgb565_of(tanh_q14(o.r / 16_384), tanh_q14(o.g / 16_384), tanh_q14(o.b / 16_384))
}

/// The values of a row are those of angles and of falloffs.
pub open spec fn row_ok(pack: Seq<i32>, lw: int) -> bool {
    &&& 1 <= lw <= 0xffff
    &&& pack.len() >= 10 * lw
    &&& forall|i: int| 0 <= i < 10 * lw ==> -0x1000_0000 <= #[trigger] pack[i] <= 0x1000_0000
}

/// The tables hold values of sines.
pub open spec fn tables_ok(t: LayerTables) -> bool {
    &&& t.frame_cos.len() == 9
    &&& t.sin_d.len() == 27
    &&& t.cos_d.len() == 27
    &&& forall|i: int| 0 <= i < 9 ==> -32_768 <= #[trigger] t.frame_cos[i] <= 32_767
    &&& forall|i: int| 0 <= i < 27 ==> -32_768 <= #[trigger] t.sin_d[i] <= 32_767
    &&& forall|i: int| 0 <= i < 27 ==> -32_768 <= #[trigger] t.cos_d[i] <= 32_767
}

/// A layer's share of a channel stays within bounds that nine layers cannot exceed.
proof fn lemma_share(inv: int, sm: int, s: int, c: int, sd: int, cd: int)
    requires
        -0x1000_0000 <= inv <= 0x1000_0000,
        0 <= sm <= 16_384,
        -32_768 <= s <= 32_767,
        -32_768 <= c <= 32_767,
        -32_768 <= sd <= 32_767,
        -32_768 <= cd <= 32_767,
    ensures
        -0x1000_0000 * 16_384 <= inv * sm <= 0x1000_0000 * 16_384,
        -0x40_0000 <= inv * sm / 1_048_576 <= 0x40_0000,
        -0x4000_0000 <= s * cd <= 0x4000_0000,
        -0x4000_0000 <= c * sd <= 0x4000_0000,
        -0x4_0000 <= tone(s, c, sd, cd) <= 0x4_0000,
        -0x100_0000_0000 <= (inv * sm / 1_048_576) * tone(s, c, sd, cd) <= 0x100_0000_0000,
{
    assert(-0x1000_0000 * 16_384 <= inv * sm <= 0x1000_0000 * 16_384) by (nonlinear_arith)
        requires
            -0x1000_0000 <= inv <= 0x1000_0000,
            0 <= sm <= 16_384,
    ;
    assert(-0x4000_0000 <= s * cd <= 0x4000_0000) by (nonlinear_arith)
        requires
            -32_768 <= s <= 32_767,
            -32_768 <= cd <= 32_767,
    ;
    assert(-0x4000_0000 <= c * sd <= 0x4000_0000) by (nonlinear_arith)
        requires
            -32_768 <= c <= 32_767,
            -32_768 <= sd <= 32_767,
    ;
    let (f, t) = (inv * sm / 1_048_576, tone(s, c, sd, cd));
    assert(-0x100_0000_0000 <= f * t <= 0x100_0000_0000) by (nonlinear_arith)
        requires
            -0x40_0000 <= f <= 0x40_0000,
            -0x4_0000 <= t <= 0x4_0000,
    ;
}

fn tone_of(sin_a: i32, cos_a: i32, sin_d: i32, cos_d: i32) -> (r: i64)
    requires
        -32_768 <= sin_a <= 32_767,
        -32_768 <= cos_a <= 32_767,
        -32_768 <= sin_d <= 32_767,
        -32_768 <= cos_d <= 32_767,
    ensures
        r == tone(sin_a as int, cos_a as int, sin_d as int, cos_d as int),
{
    proof {
        lemma_share(0, 0, sin_a as int, cos_a as int, sin_d as int, cos_d as int);
    }
    ONE2_Q14 as i64 + imath::floor_div(sin_a as i64 * cos_d as i64 + cos_a as i64 * sin_d as i64, 16_384)
}

/// The sines and cosines of a frame.
pub struct FrameTables {
    pub frame_cos: [i32; 9],
    pub sin_d: [i32; 27],
    pub cos_d: [i32; 27],
}

impl FrameTables {
    pub open spec fn layers(self) -> LayerTables {
        LayerTables { frame_cos: self.frame_cos@, sin_d: self.sin_d@, cos_d: self.cos_d@ }
    }
}

proof fn lemma_row_index(l: int, lw: int, lx: int)
    requires
        0 <= l < 9,
        0 <= lx < lw,
    ensures
        0 <= l * lw,
        lw + l * lw + lx < 10 * lw,
{
    assert(0 <= l * lw && l * lw + lw <= 9 * lw) by (nonlinear_arith)
        requires
            0 <= l <= 8,
            lw >= 0,
    ;
}

/// Light of one pixel of a row of the grid.
pub fn eval_pixel_q14(pack: &[i32], lw: usize, lx: usize, t: &FrameTables) -> (p: u16)
    requires
        row_ok(pack@, lw as int),
        tables_ok(t.layers()),
        lx < lw,
    ensures
        p == aurora_px(pack@, lw as int, lx as int, t.layers()),
{
    let atan_p: i32 = pack[lx];
    let (mut o_r, mut o_g, mut o_b): (i64, i64, i64) = (0, 0, 0);
    let ghost lt = t.layers();
    let mut layer: usize = 0;
    while layer < 9
        invariant
            layer <= 9,
            row_ok(pack@, lw as int),
            tables_ok(t.layers()),
            lt == t.layers(),
            lx < lw,
            atan_p == pack@[lx as int],
            o_r == layers_of(pack@, lw as int, lx as int, lt, layer as int).r,
            o_g == layers_of(pack@, lw as int, lx as int, lt, layer as int).g,
            o_b == layers_of(pack@, lw as int, lx as int, lt, layer as int).b,
            -0x100_0000_0000 * layer <= o_r <= 0x100_0000_0000 * layer,
            -0x100_0000_0000 * layer <= o_g <= 0x100_0000_0000 * layer,
            -0x100_0000_0000 * layer <= o_b <= 0x100_0000_0000 * layer,
        decreases 9 - layer,
    {
        let edge0: i32 = t.frame_cos[layer];
        assert(edge0 == lt.frame_cos[layer as int]);
        let a: i32 = atan_p + edge0 + layer_phase_at(layer);
        let s: i32 = lut_sin_cos_q14(a);
        let c: i32 = lut_sin_cos_q14(a + FRAC_PI_2_Q14);
        let sm: i32 = smoothstep_q14(edge0, 32_768, c);
        proof {
            lemma_row_index(layer as int, lw as int, lx as int);
        }
        let inv: i32 = pack[lw + layer * lw + lx];
        proof {
            lemma_share(inv as int, sm as int, s as int, c as int, lt.sin_d[3 * layer] as int, lt.cos_d[3 * layer] as int);
            lemma_share(
                inv as int,
                sm as int,
                s as int,
                c as int,
                lt.sin_d[3 * layer + 1] as int,
                lt.cos_d[3 * layer + 1] as int,
            );
            lemma_share(
                inv as int,
                sm as int,
                s as int,
                c as int,
                lt.sin_d[3 * layer + 2] as int,
                lt.cos_d[3 * layer + 2] as int,
            );
        }
        let f: i64 = imath::floor_div(inv as i64 * sm as i64, 1_048_576);
        let k: usize = 3 * layer;
        let t0: i64 = tone_of(s, c, t.sin_d[k], t.cos_d[k]);
        let t1: i64 = tone_of(s, c, t.sin_d[k + 1], t.cos_d[k + 1]);
        let t2: i64 = tone_of(s, c, t.sin_d[k + 2], t.cos_d[k + 2]);
        o_r = o_r + f * t0;
        o_g = o_g + f * t1;
        o_b = o_b + f * t2;
        layer = layer + 1;
    }
    let r: i32 = fast_tanh_q14(imath::floor_div(o_r, 16_384) as i32);
    let g: i32 = fast_tanh_q14(imath::floor_div(o_g, 16_384) as i32);
    let b: i32 = fast_tanh_q14(imath::floor_div(o_b, 16_384) as i32);
    q14_rgb_to_rgb565(r, g, b)
}

/// Only the ten values of each column matter.
proof fn lemma_layers_prefix(a: Seq<i32>, b: Seq<i32>, lw: int, lx: int, t: LayerTables, n: int)
    requires
        0 <= lx < lw,
        0 <= n <= 9,
        a.len() >= 10 * lw,
        b.len() >= 10 * lw,
        forall|i: int| 0 <= i < 10 * lw ==> a[i] == b[i],
    ensures
        layers_of(a, lw, lx, t, n) == layers_of(b, lw, lx, t, n),
    decreases n,
{
    if n > 0 {
        lemma_layers_prefix(a, b, lw, lx, t, n - 1);
        lemma_row_index(n - 1, lw, lx);
    }
}

/// Values of a row of the grid.
pub const ROW_PACK_LEN: usize = 1560;

/// Room for one row of the grid.
pub struct Scratch {
    pub row_pack: Vec<i32>,
}

impl Scratch {
    /// Empty room for one row of the standard grid.
    pub fn new() -> (s: Scratch)
        ensures
            s.row_pack@ == Seq::new(1560, |i: int| 0i32),
    {
        let mut v: Vec<i32> = Vec::new();
        let mut k: usize = 0;
        while k < ROW_PACK_LEN
            invariant
                k <= 1560,
                v@ == Seq::new(k as nat, |i: int| 0i32),
            decreases 1560 - k,
        {
            v.push(0);
            k = k + 1;
            assert(v@ =~= Seq::new(k as nat, |i: int| 0i32));
        }
        Scratch { row_pack: v }
    }

    /// Room of its own for a second worker.
    pub fn new_secondary() -> (s: Scratch)
        ensures
            s.row_pack@ == Seq::new(1560, |i: int| 0i32),
    {
        Scratch::new()
    }
}

/// A row buffer with its first values replaced by a row of the grid.
pub open spec fn holding(buf: Seq<i32>, packed: Seq<i32>, stride: int, ly: int) -> Seq<i32> {
    Seq::new(buf.len(), |i: int| if i < stride { packed[ly * stride + i] } else { buf[i] })
}

/// Row `ly` of the grid.
pub open spec fn grid_row(packed: Seq<i32>, stride: int, ly: int) -> Seq<i32> {
    Seq::new(stride as nat, |i: int| packed[ly * stride + i])
}

/// Side of the grid: `size` in steps of `div`, rounded up.
pub open spec fn grid_side(size: int, div: int) -> int {
    (size + div - 1) / div
}

/// Pixels `s` to before `e` of the grid evaluated into `low`.
pub open spec fn evaluated(low: Seq<u16>, packed: Seq<i32>, lw: int, t: LayerTables, s: int, e: int) -> Seq<u16> {
    Seq::new(
        low.len(),
        |p: int|
            if s <= p < e {
                aurora_px(grid_row(packed, 10 * lw, p / lw), lw, p % lw, t) as u16
            } else {
                low[p]
            },
    )
}

/// Configuration of the shader.
pub struct Raidal2Config {
    /// Panel pixels per grid pixel.
    pub render_divisor: u8,
}

/// The aurora: the grid's coordinates, the sample tables and the sines of the frame.
pub struct Raidal2 {
    pub low_w: u16,
    pub low_h: u16,
    pub out_w: u16,
    pub out_h: u16,
    pub row_packed: Vec<i32>,
    pub ux: Vec<UpSample1D>,
    pub uy: Vec<UpSample1D>,
    pub tables: FrameTables,
}

/// Offset of colour `k` of layer `l`.
pub open spec fn colour_phase(l: int, k: int) -> int {
    (l + 1) * 16_384 + k * 32_768
}

/// The table of colour offsets, read `shift` further.
pub open spec fn offset_table(shift: int) -> Seq<int> {
    Seq::new(27, |i: int| sine(colour_phase(i / 3, i % 3) + shift))
}

fn offsets(shift: i32) -> (t: [i32; 27])
    requires
        0 <= shift <= 25_736,
    ensures
        forall|i: int| 0 <= i < 27 ==> #[trigger] t@[i] == offset_table(shift as int)[i],
        forall|i: int| 0 <= i < 27 ==> -32_768 <= #[trigger] t@[i] <= 32_767,
{
    let mut t: [i32; 27] = [0i32; 27];
    let mut i: usize = 0;
    while i < 27
        invariant
            i <= 27,
            0 <= shift <= 25_736,
            forall|j: int| 0 <= j < i ==> #[trigger] t@[j] == offset_table(shift as int)[j],
            forall|j: int| 0 <= j < 27 ==> -32_768 <= #[trigger] t@[j] <= 32_767,
        decreases 27 - i,
    {
        let l: i32 = (i / 3) as i32;
        let k: i32 = (i % 3) as i32;
        t[i] = lut_sin_cos_q14((l + 1) * 16_384 + k * 32_768 + shift);
        i = i + 1;
    }
    t
}

/// Cosine of an angle given in fixed point.
pub fn lut_cos_angle_q14(phase: i32) -> (r: i32)
    requires
        phase <= i32::MAX - 25_736,
    ensures
        r == sine(phase + 25_736),
        -32_768 <= r <= 32_767,
{
    lut_sin_cos_q14(phase + FRAC_PI_2_Q14)
}

impl Raidal2 {
    /// The coordinates and the tables match the sides of the grid and of the panel.
    pub open spec fn wf(self) -> bool {
        &&& self.low_w >= 1
        &&& self.low_h >= 1
        &&& self.row_packed@.len() == self.low_h * (10 * self.low_w)
        &&& forall|i: int|
            0 <= i < self.row_packed@.len() ==> -0x1000_0000 <= #[trigger] self.row_packed@[i] <= 0x1000_0000
        &&& upscale::samples_ok(self.ux@, self.low_w as int)
        &&& upscale::samples_ok(self.uy@, self.low_h as int)
        &&& self.ux@.len() == self.out_w
        &&& self.uy@.len() == self.out_h
        &&& self.out_w >= 1
        &&& tables_ok(self.tables.layers())
    }

    /// The shader for a panel: a grid of `render_divisor` panel pixels per side (at least
    /// one), with the angles and falloffs of its pixels.
    pub fn new(
        config: &Raidal2Config,
        width: u16,
        height: u16,
        row_packed: Vec<i32>,
        ux: Vec<UpSample1D>,
        uy: Vec<UpSample1D>,
    ) -> (r: Raidal2)
        requires
            width >= 1,
            height >= 1,
            ({
                let div = imath::smax(config.render_divisor as int, 1);
                let (lw, lh) = (grid_side(width as int, div), grid_side(height as int, div));
                &&& width + div <= 0xffff
                &&& height + div <= 0xffff
                &&& row_packed@.len() == lh * (10 * lw)
                &&& upscale::samples_ok(ux@, lw)
                &&& upscale::samples_ok(uy@, lh)
            }),
            forall|i: int| 0 <= i < row_packed@.len() ==> -0x1000_0000 <= #[trigger] row_packed@[i] <= 0x1000_0000,
            ux@.len() == width,
            uy@.len() == height,
        ensures
            r.wf(),
            r.low_w == grid_side(width as int, imath::smax(config.render_divisor as int, 1)),
            r.low_h == grid_side(height as int, imath::smax(config.render_divisor as int, 1)),
            r.out_w == width,
            r.out_h == height,
            r.row_packed == row_packed,
            r.ux == ux,
            r.uy == uy,
            r.tables.frame_cos@ == Seq::new(9, |i: int| 0i32),
            forall|i: int| 0 <= i < 27 ==> #[trigger] r.tables.sin_d@[i] == offset_table(0)[i],
            forall|i: int| 0 <= i < 27 ==> #[trigger] r.tables.cos_d@[i] == offset_table(25_736)[i],
    {
        let div: u16 = if config.render_divisor > 1 {
            config.render_divisor as u16
        } else {
            1
        };
        let low_w: u16 = (width + div - 1) / div;
        let low_h: u16 = (height + div - 1) / div;
        proof {
            lemma_side(width as int, div as int);
            lemma_side(height as int, div as int);
        }
        let tables = FrameTables { frame_cos: [0i32; 9], sin_d: offsets(0), cos_d: offsets(25_736) };
        assert(tables.frame_cos@ =~= Seq::new(9, |i: int| 0i32));
        Raidal2 { low_w, low_h, out_w: width, out_h: height, row_packed, ux, uy, tables }
    }

    /// `next` is this shader at the moment whose angles are `phases`: only the layers'
    /// cosines differ.
    pub open spec fn timed(self, phases: Seq<i32>, next: Raidal2) -> bool {
        &&& forall|l: int| 0 <= l < 9 ==> #[trigger] next.tables.frame_cos@[l] == sine(phases[l] + 25_736)
        &&& next.tables.sin_d == self.tables.sin_d
        &&& next.tables.cos_d == self.tables.cos_d
        &&& next.low_w == self.low_w
        &&& next.low_h == self.low_h
        &&& next.out_w == self.out_w
        &&& next.out_h == self.out_h
        &&& next.row_packed == self.row_packed
        &&& next.ux == self.ux
        &&& next.uy == self.uy
    }

    /// Set the layers' cosines from the angles of a moment.
    pub fn update_time(&mut self, phases: &[i32; 9])
        requires
            old(self).wf(),
            forall|l: int| 0 <= l < 9 ==> #[trigger] phases@[l] <= i32::MAX - 25_736,
        ensures
            final(self).wf(),
            old(self).timed(phases@, *final(self)),
    {
        let mut f: [i32; 9] = [0i32; 9];
        let mut l: usize = 0;
        while l < 9
            invariant
                l <= 9,
                forall|j: int| 0 <= j < 9 ==> #[trigger] phases@[j] <= i32::MAX - 25_736,
                forall|j: int| 0 <= j < l ==> #[trigger] f@[j] == sine(phases@[j] + 25_736),
                forall|j: int| 0 <= j < 9 ==> -32_768 <= #[trigger] f@[j] <= 32_767,
            decreases 9 - l,
        {
            f[l] = lut_cos_angle_q14(phases[l]);
            l = l + 1;
        }
        self.tables.frame_cos = f;
    }

    /// Set the layers' cosines for the first frame.
    pub fn init_time(&mut self, phases: &[i32; 9])
        requires
            old(self).wf(),
            forall|l: int| 0 <= l < 9 ==> #[trigger] phases@[l] <= i32::MAX - 25_736,
        ensures
            final(self).wf(),
            old(self).timed(phases@, *final(self)),
    {
        self.update_time(phases);
    }

    /// Fetch row `ly` of the grid.
    fn load_row(&self, scratch: &mut Scratch, ly: usize)
        requires
            self.wf(),
            ly < self.low_h,
            old(scratch).row_pack@.len() >= 10 * self.low_w,
        ensures
            final(scratch).row_pack@ == holding(old(scratch).row_pack@, self.row_packed@, 10 * self.low_w, ly as int),
    {
        let stride: usize = 10 * self.low_w as usize;
        let n: usize = self.row_packed.len();
        proof {
            lemma_rows(ly as int, self.low_h as int, stride as int);
        }
        let base: usize = ly * stride;
        let ghost buf0 = scratch.row_pack@;
        let mut i: usize = 0;
        while i < stride
            invariant
                i <= stride,
                base == ly * stride,
                base + stride <= n,
                n == self.row_packed@.len(),
                buf0.len() >= stride,
                scratch.row_pack@.len() == buf0.len(),
                forall|k: int| 0 <= k < i ==> scratch.row_pack@[k] == self.row_packed@[base + k],
                forall|k: int| i <= k < buf0.len() ==> scratch.row_pack@[k] == buf0[k],
            decreases stride - i,
        {
            scratch.row_pack.set(i, self.row_packed[base + i]);
            i = i + 1;
        }
        assert(scratch.row_pack@ =~= holding(buf0, self.row_packed@, 10 * self.low_w, ly as int));
    }

    /// Pixels of the grid.
    pub open spec fn cells(self) -> int {
        self.low_w * self.low_h
    }

    /// The image after pixels `s` to before `e`, as far as there are any, were evaluated.
    pub open spec fn image(self, low: Seq<u16>, s: int, e: int) -> Seq<u16> {
        evaluated(
            low,
            self.row_packed@,
            self.low_w as int,
            self.tables.layers(),
            imath::smin(s, self.cells()),
            imath::smin(e, self.cells()),
        )
    }

    /// The row buffer after pixels `s` to before `e` were evaluated: it holds the row of the
    /// last of them.
    pub open spec fn row_left(self, buf: Seq<i32>, s: int, e: int) -> Seq<i32> {
        let (a, b) = (imath::smin(s, self.cells()), imath::smin(e, self.cells()));
        if a < b {
            holding(buf, self.row_packed@, 10 * self.low_w, (b - 1) / self.low_w as int)
        } else {
            buf
        }
    }

    /// Evaluate pixels `start` to before `end` of the grid, in row order. A row is fetched
    /// when the first of its pixels comes up.
    pub fn eval_pass_range(&self, low: &mut [u16], scratch: &mut Scratch, start: usize, end: usize)
        requires
            self.wf(),
            old(low)@.len() >= self.cells(),
            old(scratch).row_pack@.len() >= 10 * self.low_w,
        ensures
            final(low)@ == self.image(old(low)@, start as int, end as int),
            final(scratch).row_pack@ == self.row_left(old(scratch).row_pack@, start as int, end as int),
    {
        let lw: usize = self.low_w as usize;
        proof {
            lemma_cells(self.low_w as int, self.low_h as int);
        }
        let total: usize = lw * self.low_h as usize;
        let s: usize = if start < total { start } else { total };
        let e: usize = if end < total { end } else { total };
        let n: usize = low.len();
        let ghost low0 = low@;
        let ghost buf0 = scratch.row_pack@;
        let ghost lt = self.tables.layers();
        let ghost target = self.image(low0, start as int, end as int);
        let mut have: Option<usize> = None;
        let mut p: usize = s;
        while p < e
            invariant
                self.wf(),
                lw == self.low_w,
                lt == self.tables.layers(),
                total == self.cells(),
                total == lw * self.low_h,
                s <= p,
                p <= e || p == s,
                e <= total,
                n == low@.len(),
                n == low0.len(),
                n >= total,
                s == imath::smin(start as int, self.cells()),
                e == imath::smin(end as int, self.cells()),
                target == self.image(low0, start as int, end as int),
                buf0.len() >= 10 * self.low_w,
                scratch.row_pack@.len() == buf0.len(),
                have is None <==> p == s,
                have is None ==> scratch.row_pack@ == buf0,
                have is Some ==> have->0 == (p - 1) / lw as int && scratch.row_pack@ == holding(
                    buf0,
                    self.row_packed@,
                    10 * self.low_w,
                    have->0 as int,
                ),
                forall|k: int| 0 <= k < p ==> low@[k] == target[k],
                forall|k: int| p <= k < n ==> low@[k] == low0[k],
            decreases e - p,
        {
            let ly: usize = p / lw;
            let lx: usize = p % lw;
            proof {
                lemma_cell(p as int, lw as int, self.low_h as int);
            }
            let fresh: bool = match have {
                Some(h) => h != ly,
                None => true,
            };
            if fresh {
                self.load_row(scratch, ly);
                assert(scratch.row_pack@ =~= holding(buf0, self.row_packed@, 10 * self.low_w, ly as int));
                have = Some(ly);
            }
            proof {
                let row = grid_row(self.row_packed@, 10 * lw, ly as int);
                lemma_rows(ly as int, self.low_h as int, 10 * lw);
                assert forall|i: int| 0 <= i < 10 * lw implies row[i] == scratch.row_pack@[i] by {}
                assert forall|i: int| 0 <= i < 10 * lw implies -0x1000_0000 <= #[trigger] scratch.row_pack@[i]
                    <= 0x1000_0000 by {
                    assert(scratch.row_pack@[i] == self.row_packed@[ly * (10 * lw) + i]);
                }
                lemma_layers_prefix(row, scratch.row_pack@, lw as int, lx as int, lt, 9);
            }
            let px: u16 = eval_pixel_q14(&scratch.row_pack, lw, lx, &self.tables);
            low[p] = px;
            p = p + 1;
        }
        assert(low@ =~= target);
    }

    /// Evaluate rows `row_start` to before `row_end`.
    pub fn eval_rows(&self, low: &mut [u16], scratch: &mut Scratch, row_start: usize, row_end: usize)
        requires
            self.wf(),
            old(low)@.len() >= self.cells(),
            old(scratch).row_pack@.len() >= 10 * self.low_w,
        ensures
            final(low)@ == self.image(
                old(low)@,
                imath::smin(row_start as int, self.low_h as int) * self.low_w,
                imath::smin(row_end as int, self.low_h as int) * self.low_w,
            ),
            final(scratch).row_pack@ == self.row_left(
                old(scratch).row_pack@,
                imath::smin(row_start as int, self.low_h as int) * self.low_w,
                imath::smin(row_end as int, self.low_h as int) * self.low_w,
            ),
    {
        let lw: usize = self.low_w as usize;
        let lh: usize = self.low_h as usize;
        let rs: usize = if row_start < lh { row_start } else { lh };
        let re: usize = if row_end < lh { row_end } else { lh };
        proof {
            lemma_cells(rs as int, lw as int);
            lemma_cells(re as int, lw as int);
        }
        self.eval_pass_range(low, scratch, rs * lw, re * lw);
    }

    /// Evaluate the whole grid.
    pub fn eval_pass(&self, low: &mut [u16], scratch: &mut Scratch)
        requires
            self.wf(),
            old(low)@.len() >= self.cells(),
            old(scratch).row_pack@.len() >= 10 * self.low_w,
        ensures
            final(low)@ == self.image(old(low)@, 0, self.cells()),
            final(scratch).row_pack@ == self.row_left(old(scratch).row_pack@, 0, self.cells()),
    {
        proof {
            assert(self.low_h * self.low_w == self.cells()) by (nonlinear_arith)
                requires
                    self.cells() == self.low_w * self.low_h,
            ;
            let first = imath::smin(0, self.low_h as int);
            assert(first * self.low_w == 0) by (nonlinear_arith)
                requires
                    first == 0,
            ;
        }
        self.eval_rows(low, scratch, 0, self.low_h as usize);
    }

    /// Enlarge the image into rows `row_start` to before `row_end` of the panel.
    pub fn upscale_rows(&self, low: &[u16], out: &mut [u8], row_start: usize, row_end: usize)
        requires
            self.wf(),
            low@.len() >= self.cells(),
            old(out)@.len() >= imath::smin(row_end as int, self.out_h as int) * self.out_w * 2,
        ensures
            final(out)@ == upscale::upscaled_rows(
                old(out)@,
                low@,
                self.low_w as int,
                self.ux@,
                self.uy@,
                self.out_w as int,
                self.out_h as int,
                row_start as int,
                row_end as int,
            ),
    {
        upscale::upscale_clipped(
            low,
            self.low_w as usize,
            self.low_h as usize,
            &self.ux,
            &self.uy,
            self.out_w as usize,
            self.out_h as usize,
            out,
            row_start,
            row_end,
        );
    }

    /// Enlarge the image into the whole panel.
    pub fn upscale_pass(&self, low: &[u16], out: &mut [u8])
        requires
            self.wf(),
            low@.len() >= self.cells(),
            old(out)@.len() >= self.out_h * self.out_w * 2,
        ensures
            final(out)@ == upscale::upscaled_rows(
                old(out)@,
                low@,
                self.low_w as int,
                self.ux@,
                self.uy@,
                self.out_w as int,
                self.out_h as int,
                0,
                self.out_h as int,
            ),
    {
        self.upscale_rows(low, out, 0, self.out_h as usize);
    }
}

/// Two workers that split the grid at any pixel draw the same image as one.
pub proof fn lemma_eval_split(r: Raidal2, low: Seq<u16>, s: int, m: int, e: int)
    requires
        s <= m <= e,
    ensures
        r.image(r.image(low, s, m), m, e) == r.image(low, s, e),
        r.image(r.image(low, m, e), s, m) == r.image(low, s, e),
{
    assert(r.image(r.image(low, s, m), m, e) =~= r.image(low, s, e));
    assert(r.image(r.image(low, m, e), s, m) =~= r.image(low, s, e));
}

proof fn lemma_cells(w: int, h: int)
    requires
        0 <= w <= 0xffff,
        0 <= h <= 0xffff,
    ensures
        0 <= w * h <= 0xffff * 0xffff,
{
    assert(0 <= w * h <= 0xffff * 0xffff) by (nonlinear_arith)
        requires
            0 <= w <= 0xffff,
            0 <= h <= 0xffff,
    ;
}

proof fn lemma_cell(p: int, lw: int, lh: int)
    requires
        0 <= p < lw * lh,
        lw >= 1,
    ensures
        0 <= p / lw < lh,
        0 <= p % lw < lw,
{
    assert(0 <= p / lw < lh && 0 <= p % lw < lw) by (nonlinear_arith)
        requires
            0 <= p < lw * lh,
            lw >= 1,
    ;
}

proof fn lemma_side(size: int, div: int)
    requires
        size >= 1,
        div >= 1,
    ensures
        1 <= grid_side(size, div) <= size + div - 1,
{
    assert(1 <= (size + div - 1) / div <= size + div - 1) by (nonlinear_arith)
        requires
            size >= 1,
            div >= 1,
    ;
}

proof fn lemma_rows(ly: int, lh: int, stride: int)
    requires
        0 <= ly < lh,
        stride >= 0,
    ensures
        0 <= ly * stride,
        ly * stride + stride <= lh * stride,
{
    assert(0 <= ly * stride && ly * stride + stride <= lh * stride) by (nonlinear_arith)
        requires
            0 <= ly,
            ly + 1 <= lh,
            stride >= 0,
    ;
}

} // verus!
