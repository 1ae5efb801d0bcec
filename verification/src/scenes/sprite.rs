//! Sprites and text on the canvas: intensity sprites through a colour table, tinted
//! alpha sprites at their own or any other size, atlas text at its own or a reduced
//! size, and the rounded label container.
use vstd::prelude::*;

use crate::font;
use crate::font::Glyph;
use crate::imath;
use crate::pixel;
use crate::raster;

verus! {

/// Ice-blue tint shared by icons and labels, at RGB565 channel depth.
pub const TINT_R5: i32 = 24;
pub const TINT_G6: i32 = 53;
pub const TINT_B5: i32 = 31;

/// The tint laid over `p` at coverage `v`, held to 0..=255.
pub open spec fn tinted(p: (u8, u8), v: int) -> (u8, u8) {
    pixel::over(p, 24, 53, 31, imath::sclamp(v, 0, 255))
}

pub(crate) fn tint(p: (u8, u8), v: i32) -> (q: (u8, u8))
    ensures
        q == tinted(p, v as int),
{
    pixel::lay_over(p, TINT_R5, TINT_G6, TINT_B5, imath::iclamp(v, 0, 255))
}

/// Value of a square sprite of side `n`.
pub open spec fn texel(s: Seq<u8>, n: int, x: int, y: int) -> int {
    s[y * n + x] as int
}

pub(crate) proof fn lemma_texel(n: int, x: int, y: int)
    requires
        0 <= x < n,
        0 <= y < n,
    ensures
        0 <= y * n + x < n * n,
{
    assert(0 <= y * n && y * n + n <= n * n) by (nonlinear_arith)
        requires 0 <= y, y + 1 <= n;
}

fn texel_at(s: &[u8], n: i32, x: i32, y: i32) -> (r: i32)
    requires
        0 <= x < n,
        0 <= y < n,
        s@.len() >= n * n,
    ensures
        r == texel(s@, n as int, x as int, y as int),
        0 <= r <= 255,
{
    let len: usize = s.len();
    proof {
        assert(n * n <= len);
        lemma_texel(n as int, x as int, y as int);
        assert(0 <= y * n) by (nonlinear_arith)
            requires 0 <= y, 0 <= n;
    }
    s[y as usize * n as usize + x as usize] as i32
}

/// Coverage `a` scaled by `alpha` (of 256).
fn faded(a: i32, alpha: i32) -> (v: i32)
    requires
        0 <= a <= 255,
    ensures
        v == a * alpha / 256,
{
    proof {
        assert(-0x8000_0000 * 255 <= a * alpha <= 0x8000_0000 * 255) by (nonlinear_arith)
            requires 0 <= a <= 255, -0x8000_0000 <= alpha <= 0x7fff_ffff;
    }
    imath::floor_div(a as i64 * alpha as i64, 256) as i32
}

/// Sprite through a colour table: intensities below 6 are transparent, the others are
/// scaled by `alpha` (of 256), looked up and merged by per-channel maximum.
pub open spec fn lut_shader(s: Seq<u8>, n: int, lut: Seq<(u8, u8)>, ox: int, oy: int, alpha: int) -> raster::Shader {
    |x: int, y: int, p: (u8, u8)|
        {
            let a = texel(s, n, x - ox, y - oy);
            if a < 6 {
                p
            } else {
                pixel::lighter(lut[imath::sclamp(a * alpha / 256, 0, 255)], p)
            }
        }
}

/// The canvas after an intensity sprite centred on `(cx, cy)`.
pub open spec fn lut_sprite_on(fb: Seq<u8>, s: Seq<u8>, n: int, lut: Seq<(u8, u8)>, cx: int, cy: int, alpha: int) -> Seq<u8> {
    let ox = cx - n / 2;
    let oy = cy - n / 2;
    raster::shade(fb, ox, oy, ox + n, oy + n, lut_shader(s, n, lut, ox, oy, alpha))
}

/// Blit an intensity sprite through a colour table.
pub fn blit_lut_sprite(
    fb: &mut [u8],
    sprite: &[u8],
    px: i32,
    lut: &[(u8, u8); 256],
    cx: i32,
    cy: i32,
    alpha: i32,
)
    requires
        px > 0 ==> sprite@.len() >= px * px,
    ensures
        final(fb)@ == lut_sprite_on(
            old(fb)@,
            sprite@,
            px as int,
            lut@,
            cx as int,
            cy as int,
            alpha as int,
        ),
{
    if px <= 0 {
        proof {
            let (ox, oy) = (cx - px as int / 2, cy - px as int / 2);
            let sh = lut_shader(sprite@, px as int, lut@, ox, oy, alpha as int);
            raster::lemma_shade_none(fb@, ox, oy, ox + px, oy + px, sh);
        }
        return;
    }
    let ox: i64 = cx as i64 - (px / 2) as i64;
    let oy: i64 = cy as i64 - (px / 2) as i64;
    let ghost sh = lut_shader(sprite@, px as int, lut@, ox as int, oy as int, alpha as int);
    let f = |x: i32, y: i32, p: (u8, u8)| -> (q: (u8, u8))
        requires
            ox <= x < ox + px,
            oy <= y < oy + px,
        ensures
            q == sh(x as int, y as int, p),
        {
            let a: i32 = texel_at(sprite, px, (x as i64 - ox) as i32, (y as i64 - oy) as i32);
            if a < 6 {
                p
            } else {
                let i: i32 = imath::iclamp(faded(a, alpha), 0, 255);
                pixel::lighten(lut[i as usize], p)
            }
        };
    raster::paint_wide(fb, ox, oy, ox + px as i64, oy + px as i64, f, Ghost(sh));
}

/// Alpha sprite: coverage below 8 is transparent, the rest is scaled by `alpha` (of
/// 256) and tinted.
pub open spec fn icon_shader(s: Seq<u8>, n: int, ox: int, oy: int, alpha: int) -> raster::Shader {
    |x: int, y: int, p: (u8, u8)|
        {
            let a = texel(s, n, x - ox, y - oy);
            if a < 8 { p } else { tinted(p, a * alpha / 256) }
        }
}

/// The canvas after an alpha sprite centred on `(cx, cy)`.
pub open spec fn icon_on(fb: Seq<u8>, s: Seq<u8>, n: int, cx: int, cy: int, alpha: int) -> Seq<u8> {
    let ox = cx - n / 2;
    let oy = cy - n / 2;
    raster::shade(fb, ox, oy, ox + n, oy + n, icon_shader(s, n, ox, oy, alpha))
}

/// Blit an icon alpha sprite, tinted, scaled by the row alpha.
pub fn blit_icon(fb: &mut [u8], sprite: &[u8], px: i32, cx: i32, cy: i32, alpha: i32)
    requires
        px > 0 ==> sprite@.len() >= px * px,
    ensures
        final(fb)@ == icon_on(old(fb)@, sprite@, px as int, cx as int, cy as int, alpha as int),
{
    if px <= 0 {
        proof {
            let (ox, oy) = (cx - px as int / 2, cy - px as int / 2);
            let sh = icon_shader(sprite@, px as int, ox, oy, alpha as int);
            raster::lemma_shade_none(fb@, ox, oy, ox + px, oy + px, sh);
        }
        return;
    }
    let ox: i64 = cx as i64 - (px / 2) as i64;
    let oy: i64 = cy as i64 - (px / 2) as i64;
    let ghost sh = icon_shader(sprite@, px as int, ox as int, oy as int, alpha as int);
    let f = |x: i32, y: i32, p: (u8, u8)| -> (q: (u8, u8))
        requires
            ox <= x < ox + px,
            oy <= y < oy + px,
        ensures
            q == sh(x as int, y as int, p),
        {
            let a: i32 = texel_at(sprite, px, (x as i64 - ox) as i32, (y as i64 - oy) as i32);
            if a < 8 {
                p
            } else {
                tint(p, faded(a, alpha))
            }
        };
    raster::paint_wide(fb, ox, oy, ox + px as i64, oy + px as i64, f, Ghost(sh));
}

/// Weighted mean of four neighbouring samples, `fx` and `fy` in 256ths.
pub open spec fn bilerp(s00: int, s10: int, s01: int, s11: int, fx: int, fy: int) -> int {
    (s00 * (256 - fx) * (256 - fy) + s10 * fx * (256 - fy) + s01 * (256 - fx) * fy + s11 * fx * fy) / 65536
}

proof fn lemma_weight(s: int, a: int, b: int)
    requires
        0 <= s <= 255,
        0 <= a <= 256,
        0 <= b <= 256,
    ensures
        0 <= s * a <= 65280,
        0 <= s * a * b <= 16_711_680,
{
    assert(0 <= s * a <= 255 * 256) by (nonlinear_arith)
        requires 0 <= s <= 255, 0 <= a <= 256;
    let m = s * a;
    assert(0 <= m * b <= 65280 * 256) by (nonlinear_arith)
        requires 0 <= m <= 65280, 0 <= b <= 256;
}

/// A mean of samples in 0..=255 stays there.
pub proof fn lemma_bilerp(s00: int, s10: int, s01: int, s11: int, fx: int, fy: int)
    requires
        0 <= s00 <= 255,
        0 <= s10 <= 255,
        0 <= s01 <= 255,
        0 <= s11 <= 255,
        0 <= fx <= 256,
        0 <= fy <= 256,
    ensures
        0 <= bilerp(s00, s10, s01, s11, fx, fy) <= 255,
{
    lemma_weight(s00, 256 - fx, 256 - fy);
    lemma_weight(s10, fx, 256 - fy);
    lemma_weight(s01, 256 - fx, fy);
    lemma_weight(s11, fx, fy);
    let (w00, w10, w01, w11) = ((256 - fx) * (256 - fy), fx * (256 - fy), (256 - fx) * fy, fx * fy);
    assert(w00 + w10 + w01 + w11 == 65536) by (nonlinear_arith)
        requires
            w00 == (256 - fx) * (256 - fy),
            w10 == fx * (256 - fy),
            w01 == (256 - fx) * fy,
            w11 == fx * fy;
    assert(s00 * (256 - fx) * (256 - fy) <= 255 * w00) by (nonlinear_arith)
        requires s00 <= 255, 0 <= fx <= 256, 0 <= fy <= 256, w00 == (256 - fx) * (256 - fy);
    assert(s10 * fx * (256 - fy) <= 255 * w10) by (nonlinear_arith)
        requires s10 <= 255, 0 <= fx <= 256, 0 <= fy <= 256, w10 == fx * (256 - fy);
    assert(s01 * (256 - fx) * fy <= 255 * w01) by (nonlinear_arith)
        requires s01 <= 255, 0 <= fx <= 256, 0 <= fy <= 256, w01 == (256 - fx) * fy;
    assert(s11 * fx * fy <= 255 * w11) by (nonlinear_arith)
        requires s11 <= 255, 0 <= fx <= 256, 0 <= fy <= 256, w11 == fx * fy;
}

pub(crate) fn blend4(s00: i32, s10: i32, s01: i32, s11: i32, fx: i32, fy: i32) -> (r: i32)
    requires
        0 <= s00 <= 255,
        0 <= s10 <= 255,
        0 <= s01 <= 255,
        0 <= s11 <= 255,
        0 <= fx <= 256,
        0 <= fy <= 256,
    ensures
        r == bilerp(s00 as int, s10 as int, s01 as int, s11 as int, fx as int, fy as int),
        0 <= r <= 255,
{
    proof {
        lemma_bilerp(s00 as int, s10 as int, s01 as int, s11 as int, fx as int, fy as int);
        lemma_weight(s00 as int, 256 - fx, 256 - fy);
        lemma_weight(s10 as int, fx as int, 256 - fy);
        lemma_weight(s01 as int, 256 - fx, fy as int);
        lemma_weight(s11 as int, fx as int, fy as int);
    }
    imath::asr(
        s00 * (256 - fx) * (256 - fy) + s10 * fx * (256 - fy) + s01 * (256 - fx) * fy + s11 * fx * fy,
        16,
    )
}

/// Source position, in 256ths, of destination pixel `d` when `src` pixels are spread
/// over `dst`.
pub open spec fn src_pos(src: int, dst: int, d: int) -> int {
    d * (src * 256 / dst)
}

proof fn lemma_src_pos(src: int, dst: int, d: int)
    requires
        0 <= src,
        0 <= d < dst,
    ensures
        0 <= src_pos(src, dst, d) <= src * 256,
        0 <= src * 256 / dst <= src * 256,
{
    let step = src * 256 / dst;
    assert(0 <= step && step * dst <= src * 256) by (nonlinear_arith)
        requires step == src * 256 / dst, dst > 0, src >= 0;
    assert(0 <= d * step && d * step <= step * dst) by (nonlinear_arith)
        requires 0 <= d <= dst, 0 <= step;
    assert(step <= step * dst) by (nonlinear_arith)
        requires 0 <= step, dst >= 1;
}

/// Sprite value with the position held to the sprite.
pub open spec fn texel_clamped(s: Seq<u8>, n: int, x: int, y: int) -> int {
    texel(s, n, imath::smin(x, n - 1), imath::smin(y, n - 1))
}

/// Coverage of destination pixel `(dx, dy)` of a sprite scaled to side `dst`: the nearest
/// sample when `fast`, else the bilinear mean.
pub open spec fn scaled_texel(s: Seq<u8>, n: int, dst: int, dx: int, dy: int, fast: bool) -> int {
    let qx = src_pos(n, dst, dx);
    let qy = src_pos(n, dst, dy);
    if fast {
        texel_clamped(s, n, (qx + 128) / 256, (qy + 128) / 256)
    } else {
        let (sx, sy) = (qx / 256, qy / 256);
        bilerp(
            texel_clamped(s, n, sx, sy),
            texel_clamped(s, n, sx + 1, sy),
            texel_clamped(s, n, sx, sy + 1),
            texel_clamped(s, n, sx + 1, sy + 1),
            qx % 256,
            qy % 256,
        )
    }
}

pub open spec fn scaled_icon_shader(s: Seq<u8>, n: int, dst: int, ox: int, oy: int, alpha: int, fast: bool) -> raster::Shader {
    |x: int, y: int, p: (u8, u8)|
        {
            let a = scaled_texel(s, n, dst, x - ox, y - oy, fast);
            if a < 8 { p } else { tinted(p, a * alpha / 256) }
        }
}

/// The canvas after an alpha sprite scaled to side `dst` and centred on `(cx, cy)`.
pub open spec fn scaled_icon_on(fb: Seq<u8>, s: Seq<u8>, n: int, dst: int, cx: int, cy: int, alpha: int, fast: bool) -> Seq<
    u8,
> {
    let ox = cx - dst / 2;
    let oy = cy - dst / 2;
    raster::shade(fb, ox, oy, ox + dst, oy + dst, scaled_icon_shader(s, n, dst, ox, oy, alpha, fast))
}

fn texel_clamped_at(s: &[u8], n: i32, x: i64, y: i64) -> (r: i32)
    requires
        0 <= x,
        0 <= y,
        1 <= n,
        s@.len() >= n * n,
    ensures
        r == texel_clamped(s@, n as int, x as int, y as int),
        0 <= r <= 255,
{
    let cx: i32 = if x < n as i64 { x as i32 } else { n - 1 };
    let cy: i32 = if y < n as i64 { y as i32 } else { n - 1 };
    texel_at(s, n, cx, cy)
}

fn scaled_texel_at(s: &[u8], n: i32, dst: i32, dx: i32, dy: i32, fast: bool) -> (r: i32)
    requires
        1 <= n,
        s@.len() >= n * n,
        0 <= dx < dst,
        0 <= dy < dst,
    ensures
        r == scaled_texel(s@, n as int, dst as int, dx as int, dy as int, fast),
        0 <= r <= 255,
{
    let step: i64 = n as i64 * 256 / dst as i64;
    proof {
        lemma_src_pos(n as int, dst as int, dx as int);
        lemma_src_pos(n as int, dst as int, dy as int);
    }
    let qx: i64 = dx as i64 * step;
    let qy: i64 = dy as i64 * step;
    if fast {
        texel_clamped_at(s, n, (qx + 128) / 256, (qy + 128) / 256)
    } else {
        let sx: i64 = qx / 256;
        let sy: i64 = qy / 256;
        blend4(
            texel_clamped_at(s, n, sx, sy),
            texel_clamped_at(s, n, sx + 1, sy),
            texel_clamped_at(s, n, sx, sy + 1),
            texel_clamped_at(s, n, sx + 1, sy + 1),
            (qx % 256) as i32,
            (qy % 256) as i32,
        )
    }
}

/// Blit an icon alpha sprite scaled from side `src_px` to side `dst_px`.
pub fn blit_icon_scaled(
    fb: &mut [u8],
    sprite: &[u8],
    src_px: i32,
    dst_px: i32,
    cx: i32,
    cy: i32,
    alpha: i32,
    fast: bool,
)
    requires
        dst_px != 0,
        dst_px > 0 ==> src_px >= 1 && sprite@.len() >= src_px * src_px,
    ensures
        final(fb)@ == scaled_icon_on(
            old(fb)@,
            sprite@,
            src_px as int,
            dst_px as int,
            cx as int,
            cy as int,
            alpha as int,
            fast,
        ),
{
    if dst_px <= 0 {
        proof {
            let (ox, oy) = (cx - dst_px as int / 2, cy - dst_px as int / 2);
            let sh = scaled_icon_shader(sprite@, src_px as int, dst_px as int, ox, oy, alpha as int, fast);
            raster::lemma_shade_none(fb@, ox, oy, ox + dst_px, oy + dst_px, sh);
        }
        return;
    }
    let ox: i64 = cx as i64 - (dst_px / 2) as i64;
    let oy: i64 = cy as i64 - (dst_px / 2) as i64;
    let ghost sh = scaled_icon_shader(
        sprite@,
        src_px as int,
        dst_px as int,
        ox as int,
        oy as int,
        alpha as int,
        fast,
    );
    let f = |x: i32, y: i32, p: (u8, u8)| -> (q: (u8, u8))
        requires
            ox <= x < ox + dst_px,
            oy <= y < oy + dst_px,
        ensures
            q == sh(x as int, y as int, p),
        {
            let a: i32 = scaled_texel_at(
                sprite,
                src_px,
                dst_px,
                (x as i64 - ox) as i32,
                (y as i64 - oy) as i32,
                fast,
            );
            if a < 8 {
                p
            } else {
                tint(p, faded(a, alpha))
            }
        };
    raster::paint_wide(fb, ox, oy, ox + dst_px as i64, oy + dst_px as i64, f, Ghost(sh));
}

/// Atlas glyph with its top-left corner at `(ox, oy)`, tinted, scaled by `alpha` (of 256).
pub open spec fn glyph_shader(g: Glyph, ox: int, oy: int, alpha: int) -> raster::Shader {
    |x: int, y: int, p: (u8, u8)|
        {
            let a = font::nibble(g, x - ox, y - oy);
            if a == 0 { p } else { tinted(p, a * 17 * alpha / 256) }
        }
}

pub open spec fn glyph_on(fb: Seq<u8>, g: Glyph, ox: int, oy: int, alpha: int) -> Seq<u8> {
    raster::shade(fb, ox, oy, ox + g.width, oy + g.height, glyph_shader(g, ox, oy, alpha))
}

fn draw_glyph(fb: &mut [u8], ox: i64, oy: i64, g: &Glyph, alpha: i32)
    requires
        font::glyph_ok(*g),
        -0x4000_0000_0000_0000 <= ox <= 0x4000_0000_0000_0000,
        -0x4000_0000_0000_0000 <= oy <= 0x4000_0000_0000_0000,
    ensures
        final(fb)@ == glyph_on(old(fb)@, *g, ox as int, oy as int, alpha as int),
{
    let w: i64 = g.width as i64;
    let h: i64 = g.height as i64;
    let ghost sh = glyph_shader(*g, ox as int, oy as int, alpha as int);
    let f = |x: i32, y: i32, p: (u8, u8)| -> (q: (u8, u8))
        requires
            ox <= x < ox + w,
            oy <= y < oy + h,
        ensures
            q == sh(x as int, y as int, p),
        {
            let a: i32 = font::coverage(g, (x as i64 - ox) as i32, (y as i64 - oy) as i32);
            if a == 0 {
                p
            } else {
                tint(p, faded(a * 17, alpha))
            }
        };
    raster::paint_wide(fb, ox, oy, ox + w, oy + h, f, Ghost(sh));
}

/// The canvas after the first `n` characters of a line starting at `left` on baseline
/// `base`: each glyph stands at its pen position.
pub open spec fn line_on(
    fb: Seq<u8>,
    font: Seq<Option<Glyph>>,
    s: Seq<u8>,
    n: int,
    left: int,
    base: int,
    alpha: int,
) -> Seq<u8>
    decreases n,
{
    if n <= 0 {
        fb
    } else {
        let prev = line_on(fb, font, s, n - 1, left, base, alpha);
        match font::glyph_of(font, s[n - 1]) {
            Some(g) => glyph_on(
                prev,
                g,
                left + font::pen(font, s, n - 1),
                base - (g.height + g.ymin),
                alpha,
            ),
            None => prev,
        }
    }
}

/// The canvas after a whole line.
pub open spec fn text_on(fb: Seq<u8>, font: Seq<Option<Glyph>>, s: Seq<u8>, left: int, base: int, alpha: int) -> Seq<u8> {
    line_on(fb, font, s, s.len() as int, left, base, alpha)
}

/// Draw a line given by its codes.
pub fn draw_codes_at(
    fb: &mut [u8],
    s: &[u8],
    left_x: i32,
    base_y: i32,
    alpha: i32,
    glyphs: &[Option<Glyph>; 128],
)
    requires
        font::font_ok(glyphs@),
        s@.len() <= 0x80_8080,
    ensures
        final(fb)@ == text_on(old(fb)@, glyphs@, s@, left_x as int, base_y as int, alpha as int),
{
    let mut x: i64 = left_x as i64;
    let mut i: usize = 0;
    while i < s.len()
        invariant
            font::font_ok(glyphs@),
            i <= s@.len() <= 0x80_8080,
            x == left_x + font::pen(glyphs@, s@, i as int),
            left_x <= x <= left_x + 255 * i,
            fb@ == line_on(
                old(fb)@,
                glyphs@,
                s@,
                i as int,
                left_x as int,
                base_y as int,
                alpha as int,
            ),
        decreases s@.len() - i,
    {
        if let Some(g) = font::get_glyph(glyphs, s[i]) {
            let gy: i64 = base_y as i64 - (g.height as i64 + g.ymin as i64);
            draw_glyph(fb, x, gy, &g, alpha);
            x = x + g.advance as i64;
        }
        i = i + 1;
    }
}

/// Draw a text along a baseline.
pub fn draw_text_at(
    fb: &mut [u8],
    text: &str,
    left_x: i32,
    base_y: i32,
    alpha: i32,
    glyphs: &[Option<Glyph>; 128],
)
    requires
        font::font_ok(glyphs@),
        text@.len() <= 0x80_8080,
    ensures
        final(fb)@ == text_on(
            old(fb)@,
            glyphs@,
            font::codes_of(text@),
            left_x as int,
            base_y as int,
            alpha as int,
        ),
{
    let v = font::codes(text);
    draw_codes_at(fb, v.as_slice(), left_x, base_y, alpha, glyphs);
}

/// Coverage of a glyph pixel in 0..=255, with the position held to the bitmap.
pub open spec fn glyph_texel(g: Glyph, x: int, y: int) -> int {
    font::nibble(g, imath::smin(x, g.width - 1), imath::smin(y, g.height - 1)) * 17
}

/// Coverage of destination pixel `(dx, dy)` of a glyph scaled to `dw` x `dh`.
pub open spec fn scaled_glyph_texel(g: Glyph, dw: int, dh: int, dx: int, dy: int, fast: bool) -> int {
    let qx = src_pos(g.width as int, dw, dx);
    let qy = src_pos(g.height as int, dh, dy);
    if fast {
        glyph_texel(g, (qx + 128) / 256, (qy + 128) / 256)
    } else {
        let (sx, sy) = (qx / 256, qy / 256);
        bilerp(
            glyph_texel(g, sx, sy),
            glyph_texel(g, sx + 1, sy),
            glyph_texel(g, sx, sy + 1),
            glyph_texel(g, sx + 1, sy + 1),
            qx % 256,
            qy % 256,
        )
    }
}

fn glyph_texel_at(g: &Glyph, x: i32, y: i32) -> (r: i32)
    requires
        font::glyph_ok(*g),
        g.width > 0,
        g.height > 0,
        0 <= x,
        0 <= y,
    ensures
        r == glyph_texel(*g, x as int, y as int),
        0 <= r <= 255,
{
    font::coverage(g, imath::imin(x, g.width as i32 - 1), imath::imin(y, g.height as i32 - 1)) * 17
}

pub(crate) fn scaled_glyph_texel_at(g: &Glyph, dw: i32, dh: i32, dx: i32, dy: i32, fast: bool) -> (r: i32)
    requires
        font::glyph_ok(*g),
        g.width > 0,
        g.height > 0,
        0 <= dx < dw,
        0 <= dy < dh,
    ensures
        r == scaled_glyph_texel(*g, dw as int, dh as int, dx as int, dy as int, fast),
        0 <= r <= 255,
{
    proof {
        lemma_src_pos(g.width as int, dw as int, dx as int);
        lemma_src_pos(g.height as int, dh as int, dy as int);
    }
    let qx: i32 = dx * (g.width as i32 * 256 / dw);
    let qy: i32 = dy * (g.height as i32 * 256 / dh);
    if fast {
        glyph_texel_at(g, imath::asr(qx + 128, 8), imath::asr(qy + 128, 8))
    } else {
        let sx: i32 = imath::asr(qx, 8);
        let sy: i32 = imath::asr(qy, 8);
        blend4(
            glyph_texel_at(g, sx, sy),
            glyph_texel_at(g, sx + 1, sy),
            glyph_texel_at(g, sx, sy + 1),
            glyph_texel_at(g, sx + 1, sy + 1),
            imath::low8(qx),
            imath::low8(qy),
        )
    }
}

pub open spec fn scaled_glyph_shader(g: Glyph, ox: int, oy: int, alpha: int, dw: int, dh: int, fast: bool) -> raster::Shader {
    |x: int, y: int, p: (u8, u8)|
        {
            let a = scaled_glyph_texel(g, dw, dh, x - ox, y - oy, fast);
            if a < 8 { p } else { tinted(p, a * alpha / 256) }
        }
}

fn draw_glyph_scaled(fb: &mut [u8], ox: i64, oy: i64, g: &Glyph, alpha: i32, dw: i32, dh: i32, fast: bool)
    requires
        font::glyph_ok(*g),
        g.width > 0,
        g.height > 0,
        1 <= dw,
        1 <= dh,
        -0x4000_0000_0000_0000 <= ox <= 0x4000_0000_0000_0000,
        -0x4000_0000_0000_0000 <= oy <= 0x4000_0000_0000_0000,
    ensures
        final(fb)@ == raster::shade(
            old(fb)@,
            ox as int,
            oy as int,
            ox + dw,
            oy + dh,
            scaled_glyph_shader(*g, ox as int, oy as int, alpha as int, dw as int, dh as int, fast),
        ),
{
    let ghost sh = scaled_glyph_shader(
        *g,
        ox as int,
        oy as int,
        alpha as int,
        dw as int,
        dh as int,
        fast,
    );
    let f = |x: i32, y: i32, p: (u8, u8)| -> (q: (u8, u8))
        requires
            ox <= x < ox + dw,
            oy <= y < oy + dh,
        ensures
            q == sh(x as int, y as int, p),
        {
            let a: i32 = scaled_glyph_texel_at(
                g,
                dw,
                dh,
                (x as i64 - ox) as i32,
                (y as i64 - oy) as i32,
                fast,
            );
            if a < 8 {
                p
            } else {
                tint(p, faded(a, alpha))
            }
        };
    raster::paint_wide(fb, ox, oy, ox + dw as i64, oy + dh as i64, f, Ghost(sh));
}

/// Scaled extent of a glyph side, at least one pixel.
pub open spec fn scaled_len(len: int, scale: int) -> int {
    imath::smax(len * scale / 256, 1)
}

/// The canvas after one glyph scaled by `scale` 256ths at pen `x_q8` (256ths of a pixel);
/// an empty bitmap leaves no mark.
pub open spec fn scaled_glyph_on(fb: Seq<u8>, g: Glyph, x_q8: int, base: int, alpha: int, scale: int, fast: bool) -> Seq<u8> {
    if g.width == 0 || g.height == 0 {
        fb
    } else {
        let dw = scaled_len(g.width as int, scale);
        let dh = scaled_len(g.height as int, scale);
        let ox = x_q8 / 256;
        let oy = base - (g.height + g.ymin) * scale / 256;
        raster::shade(fb, ox, oy, ox + dw, oy + dh, scaled_glyph_shader(g, ox, oy, alpha, dw, dh, fast))
    }
}

/// The canvas after the first `n` characters of a line scaled by `scale` 256ths.
pub open spec fn scaled_line_on(
    fb: Seq<u8>,
    font: Seq<Option<Glyph>>,
    s: Seq<u8>,
    n: int,
    left: int,
    base: int,
    alpha: int,
    scale: int,
    fast: bool,
) -> Seq<u8>
    decreases n,
{
    if n <= 0 {
        fb
    } else {
        let prev = scaled_line_on(fb, font, s, n - 1, left, base, alpha, scale, fast);
        match font::glyph_of(font, s[n - 1]) {
            Some(g) => scaled_glyph_on(
                prev,
                g,
                left * 256 + font::pen(font, s, n - 1) * scale,
                base,
                alpha,
                scale,
                fast,
            ),
            None => prev,
        }
    }
}

/// The canvas after a whole scaled line.
pub open spec fn scaled_text_on(
    fb: Seq<u8>,
    font: Seq<Option<Glyph>>,
    s: Seq<u8>,
    left: int,
    base: int,
    alpha: int,
    scale: int,
    fast: bool,
) -> Seq<u8> {
    scaled_line_on(fb, font, s, s.len() as int, left, base, alpha, scale, fast)
}

/// Draw a line given by its codes, scaled by `scale_q8` 256ths.
pub fn draw_codes_scaled(
    fb: &mut [u8],
    s: &[u8],
    left_x: i32,
    base_y: i32,
    alpha: i32,
    glyphs: &[Option<Glyph>; 128],
    scale_q8: i32,
    fast: bool,
)
    requires
        font::font_ok(glyphs@),
        s@.len() <= 0x80_8080,
        0 <= scale_q8,
    ensures
        final(fb)@ == scaled_text_on(
            old(fb)@,
            glyphs@,
            s@,
            left_x as int,
            base_y as int,
            alpha as int,
            scale_q8 as int,
            fast,
        ),
{
    let mut x_q8: i64 = left_x as i64 * 256;
    let mut i: usize = 0;
    proof {
        assert(0 * scale_q8 == 0);
    }
    while i < s.len()
        invariant
            font::font_ok(glyphs@),
            i <= s@.len() <= 0x80_8080,
            0 <= scale_q8,
            x_q8 == left_x * 256 + font::pen(glyphs@, s@, i as int) * scale_q8,
            -0x100_0000_0000 <= x_q8 <= 0x4000_0100_0000_0000,
            fb@ == scaled_line_on(
                old(fb)@,
                glyphs@,
                s@,
                i as int,
                left_x as int,
                base_y as int,
                alpha as int,
                scale_q8 as int,
                fast,
            ),
        decreases s@.len() - i,
    {
        proof {
            let n = s@.len() as int;
            font::lemma_pen(glyphs@, s@, i as int);
            font::lemma_pen(glyphs@, s@, i + 1);
            let a = font::pen(glyphs@, s@, i as int);
            let b = font::pen(glyphs@, s@, i + 1);
            let d = font::advance_of(glyphs@, s@[i as int]);
            assert(b == a + d);
            assert(b * scale_q8 == a * scale_q8 + d * scale_q8) by (nonlinear_arith)
                requires b == a + d;
            assert(0 <= b * scale_q8 <= 0x7fff_ffff * 0x7fff_ffff) by (nonlinear_arith)
                requires 0 <= b, b <= 255 * 0x80_8080, 0 <= scale_q8 <= 0x7fff_ffff;
            assert(0 <= a * scale_q8) by (nonlinear_arith)
                requires 0 <= a, 0 <= scale_q8;
            assert(0 <= d * scale_q8) by (nonlinear_arith)
                requires 0 <= d, 0 <= scale_q8;
        }
        if let Some(g) = font::get_glyph(glyphs, s[i]) {
            proof {
                assert(0 <= g.width * scale_q8 <= 255 * 0x7fff_ffff) by (nonlinear_arith)
                    requires 0 <= g.width <= 255, 0 <= scale_q8 <= 0x7fff_ffff;
                assert(0 <= g.height * scale_q8 <= 255 * 0x7fff_ffff) by (nonlinear_arith)
                    requires 0 <= g.height <= 255, 0 <= scale_q8 <= 0x7fff_ffff;
                assert(0 <= g.advance * scale_q8 <= 255 * 0x7fff_ffff) by (nonlinear_arith)
                    requires 0 <= g.advance <= 255, 0 <= scale_q8 <= 0x7fff_ffff;
            }
            if g.width > 0 && g.height > 0 {
                let dw: i32 = imath::imax((g.width as i64 * scale_q8 as i64 / 256) as i32, 1);
                let dh: i32 = imath::imax((g.height as i64 * scale_q8 as i64 / 256) as i32, 1);
                proof {
                    let e = g.height + g.ymin;
                    assert(-0x1_0000_0000_0000 <= e * scale_q8 <= 0x1_0000_0000_0000) by (nonlinear_arith)
                        requires -32768 <= e <= 33022, 0 <= scale_q8 <= 0x7fff_ffff;
                }
                let up: i64 = imath::floor_div((g.height as i64 + g.ymin as i64) * scale_q8 as i64, 256);
                let gx: i64 = imath::floor_div(x_q8, 256);
                draw_glyph_scaled(fb, gx, base_y as i64 - up, &g, alpha, dw, dh, fast);
            }
            x_q8 = x_q8 + g.advance as i64 * scale_q8 as i64;
        }
        i = i + 1;
    }
}

/// Draw a text scaled by `scale_q8` 256ths.
pub fn draw_text_scaled(
    fb: &mut [u8],
    text: &str,
    left_x: i32,
    base_y: i32,
    alpha: i32,
    glyphs: &[Option<Glyph>; 128],
    scale_q8: i32,
    fast: bool,
)
    requires
        font::font_ok(glyphs@),
        text@.len() <= 0x80_8080,
        0 <= scale_q8,
    ensures
        final(fb)@ == scaled_text_on(
            old(fb)@,
            glyphs@,
            font::codes_of(text@),
            left_x as int,
            base_y as int,
            alpha as int,
            scale_q8 as int,
            fast,
        ),
{
    let v = font::codes(text);
    draw_codes_scaled(fb, v.as_slice(), left_x, base_y, alpha, glyphs, scale_q8, fast);
}

/// How far the pill's edge is set in on row `y`.
pub open spec fn pill_inset(y0: int, y1: int, y: int) -> int {
    let r = imath::tdiv(y1 - y0, 2);
    let dy = y - imath::tdiv(y0 + y1, 2);
    r - imath::sqrt_of(imath::smax(r * r - dy * dy, 0))
}

/// Dark charcoal at 200/255 over everything inside the rounded outline.
pub open spec fn pill_shader(x0: int, y0: int, x1: int, y1: int) -> raster::Shader {
    |x: int, y: int, p: (u8, u8)|
        {
            let i = pill_inset(y0, y1, y);
            if x0 + i <= x <= x1 - i { pixel::over(p, 4, 8, 5, 200) } else { p }
        }
}

/// Full-radius pill over the inclusive rectangle.
pub fn fill_pill(fb: &mut [u8], x0: i32, y0: i32, x1: i32, y1: i32)
    requires
        -0x3fff_0000 <= x0 <= 0x3fff_0000,
        -0x3fff_0000 <= x1 <= 0x3fff_0000,
        -0x3fff_0000 <= y0 <= 0x3fff_0000,
        -0x3fff_0000 <= y1 <= 0x3fff_0000,
        y1 - y0 <= 92_678,
    ensures
        final(fb)@ == raster::shade(
            old(fb)@,
            x0 as int,
            y0 as int,
            x1 + 1,
            y1 + 1,
            pill_shader(x0 as int, y0 as int, x1 as int, y1 as int),
        ),
{
    let r: i32 = (y1 - y0) / 2;
    let cy: i32 = (y0 + y1) / 2;
    let ghost sh = pill_shader(x0 as int, y0 as int, x1 as int, y1 as int);
    let f = |x: i32, y: i32, p: (u8, u8)| -> (q: (u8, u8))
        requires
            y0 <= y <= y1,
        ensures
            q == sh(x as int, y as int, p),
        {
            let dy: i32 = y - cy;
            proof {
                assert(0 <= r * r <= 46_339 * 46_339) by (nonlinear_arith)
                    requires 0 <= r <= 46_339;
                assert(0 <= dy * dy <= 46_340 * 46_340) by (nonlinear_arith)
                    requires -46_340 <= dy <= 46_340;
            }
            let s: i32 = imath::isqrt(imath::imax(r * r - dy * dy, 0) as u32) as i32;
            let ins: i32 = r - s;
            if x0 + ins <= x && x <= x1 - ins {
                pixel::lay_over(p, 4, 8, 5, 200)
            } else {
                p
            }
        };
    raster::paint(fb, x0, y0, x1 + 1, y1 + 1, f, Ghost(sh));
}

/// An intensity sprite never stacks on itself and never darkens: drawn twice it is as drawn
/// once, no channel of any pixel falls, and outside its square nothing changes.
pub proof fn lemma_lut_sprite(
    fb: Seq<u8>,
    s: Seq<u8>,
    n: int,
    lut: Seq<(u8, u8)>,
    cx: int,
    cy: int,
    alpha: int,
    x: int,
    y: int,
)
    requires
        raster::has_px(fb.len() as int, x, y),
    ensures
        ({
            let once = lut_sprite_on(fb, s, n, lut, cx, cy, alpha);
            let (p, q) = (raster::px_at(fb, x, y), raster::px_at(once, x, y));
            let (ox, oy) = (cx - n / 2, cy - n / 2);
            &&& lut_sprite_on(once, s, n, lut, cx, cy, alpha) == once
            &&& pixel::red(p) <= pixel::red(q)
            &&& pixel::green(p) <= pixel::green(q)
            &&& pixel::blue(p) <= pixel::blue(q)
            &&& !(ox <= x < ox + n && oy <= y < oy + n) ==> q == p
        }),
{
    let (ox, oy) = (cx - n / 2, cy - n / 2);
    let sh = lut_shader(s, n, lut, ox, oy, alpha);
    assert forall|x: int, y: int, p: (u8, u8)| #[trigger] sh(x, y, sh(x, y, p)) == sh(x, y, p) by {
        let c = lut[imath::sclamp(texel(s, n, x - ox, y - oy) * alpha / 256, 0, 255)];
        pixel::lemma_lighter(c, p);
    }
    raster::lemma_shade_twice(fb, ox, oy, ox + n, oy + n, sh);
    raster::lemma_shade_px(fb, ox, oy, ox + n, oy + n, sh, x, y);
    let c = lut[imath::sclamp(texel(s, n, x - ox, y - oy) * alpha / 256, 0, 255)];
    pixel::lemma_lighter(c, raster::px_at(fb, x, y));
}

/// Scaling an icon to its own side is drawing it plainly, bilinear or not.
pub proof fn lemma_icon_at_scale_one(fb: Seq<u8>, s: Seq<u8>, n: int, cx: int, cy: int, alpha: int, fast: bool)
    requires
        n >= 1,
    ensures
        scaled_icon_on(fb, s, n, n, cx, cy, alpha, fast) == icon_on(fb, s, n, cx, cy, alpha),
{
    let (ox, oy) = (cx - n / 2, cy - n / 2);
    let sh = scaled_icon_shader(s, n, n, ox, oy, alpha, fast);
    let plain = icon_shader(s, n, ox, oy, alpha);
    assert forall|x: int, y: int, p: (u8, u8)|
        ox <= x < ox + n && oy <= y < oy + n && 0 <= x < 466 && 0 <= y < 466 implies #[trigger] sh(x, y, p) == plain(
        x,
        y,
        p,
    ) by {
        lemma_src_pos_one(n, x - ox);
        lemma_src_pos_one(n, y - oy);
        lemma_bilerp_none(
            texel_clamped(s, n, x - ox, y - oy),
            texel_clamped(s, n, x - ox + 1, y - oy),
            texel_clamped(s, n, x - ox, y - oy + 1),
            texel_clamped(s, n, x - ox + 1, y - oy + 1),
        );
    }
    raster::lemma_shade_agree(fb, ox, oy, ox + n, oy + n, sh, plain);
}

proof fn lemma_src_pos_one(n: int, d: int)
    requires
        n >= 1,
    ensures
        src_pos(n, n, d) == d * 256,
{
    assert(n * 256 / n == 256) by (nonlinear_arith)
        requires n >= 1;
}

proof fn lemma_bilerp_none(s00: int, s10: int, s01: int, s11: int)
    ensures
        bilerp(s00, s10, s01, s11, 0, 0) == s00,
{
    assert(s00 * (256 - 0) * (256 - 0) == s00 * 65536) by (nonlinear_arith);
    assert(s10 * 0 * (256 - 0) == 0) by (nonlinear_arith);
    assert(s01 * (256 - 0) * 0 == 0) by (nonlinear_arith);
    assert(s11 * 0 * 0 == 0) by (nonlinear_arith);
}

/// Text at scale 256 is the plain text, and at any scale an empty glyph, such as the space,
/// leaves no mark.
pub proof fn lemma_text_at_scale_one(
    fb: Seq<u8>,
    font: Seq<Option<Glyph>>,
    s: Seq<u8>,
    left: int,
    base: int,
    alpha: int,
    fast: bool,
)
    ensures
        scaled_text_on(fb, font, s, left, base, alpha, 256, fast) == text_on(fb, font, s, left, base, alpha),
        forall|f: Seq<u8>, g: Glyph, x_q8: int, scale: int|
            g.width == 0 || g.height == 0 ==> #[trigger] scaled_glyph_on(f, g, x_q8, base, alpha, scale, fast) == f,
{
    lemma_line_at_scale_one(fb, font, s, s.len() as int, left, base, alpha, fast);
}

proof fn lemma_line_at_scale_one(
    fb: Seq<u8>,
    font: Seq<Option<Glyph>>,
    s: Seq<u8>,
    n: int,
    left: int,
    base: int,
    alpha: int,
    fast: bool,
)
    ensures
        scaled_line_on(fb, font, s, n, left, base, alpha, 256, fast) == line_on(fb, font, s, n, left, base, alpha),
    decreases n,
{
    if n > 0 {
        lemma_line_at_scale_one(fb, font, s, n - 1, left, base, alpha, fast);
        let prev = line_on(fb, font, s, n - 1, left, base, alpha);
        if let Some(g) = font::glyph_of(font, s[n - 1]) {
            lemma_glyph_at_scale_one(prev, g, left + font::pen(font, s, n - 1), base, alpha, fast);
        }
    }
}

proof fn lemma_glyph_at_scale_one(fb: Seq<u8>, g: Glyph, ox: int, base: int, alpha: int, fast: bool)
    ensures
        scaled_glyph_on(fb, g, ox * 256, base, alpha, 256, fast) == glyph_on(fb, g, ox, base - (g.height + g.ymin), alpha),
{
    let oy = base - (g.height + g.ymin);
    let (w, h) = (g.width as int, g.height as int);
    if w == 0 || h == 0 {
        raster::lemma_shade_none(fb, ox, oy, ox + w, oy + h, glyph_shader(g, ox, oy, alpha));
    } else {
        let sh = scaled_glyph_shader(g, ox, oy, alpha, w, h, fast);
        let plain = glyph_shader(g, ox, oy, alpha);
        assert forall|x: int, y: int, p: (u8, u8)|
            ox <= x < ox + w && oy <= y < oy + h && 0 <= x < 466 && 0 <= y < 466 implies #[trigger] sh(x, y, p)
            == plain(x, y, p) by {
            let (dx, dy) = (x - ox, y - oy);
            lemma_src_pos_one(w, dx);
            lemma_src_pos_one(h, dy);
            lemma_bilerp_none(
                glyph_texel(g, dx, dy),
                glyph_texel(g, dx + 1, dy),
                glyph_texel(g, dx, dy + 1),
                glyph_texel(g, dx + 1, dy + 1),
            );
            assert(scaled_glyph_texel(g, w, h, dx, dy, fast) == font::nibble(g, dx, dy) * 17);
        }
        raster::lemma_shade_agree(fb, ox, oy, ox + w, oy + h, sh, plain);
    }
}

} // verus!
