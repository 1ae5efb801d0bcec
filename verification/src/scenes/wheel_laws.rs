//! What a wheel frame shows: row `i` is app `i`, at its place, and nothing of one row depends
//! on another app.
use vstd::prelude::*;

use crate::font;
use crate::font::Glyph;
use crate::font_laws;
use crate::imath;
use crate::pixel;
use crate::raster;
use crate::scenes::sprite;
use crate::scenes::wheel;
use crate::scenes::wheel::{Frame, RowLayout, WheelApp, WheelAssets};
use crate::scenes::wheel_damage;

verus! {

/// The point lies in the icon square of a row.
pub open spec fn in_icon(a: WheelAssets, l: RowLayout, x: int, y: int) -> bool {
    let n = wheel::icon_side(a, l.large as int);
    l.cx - n / 2 <= x < l.cx - n / 2 + n && l.y - n / 2 <= y < l.y - n / 2 + n
}

/// The point lies in the label box of a row.
pub open spec fn in_label(a: WheelAssets, app: WheelApp, l: RowLayout, x: int, y: int) -> bool {
    let name = font::codes_of(app.name@);
    let left = wheel::label_left(a, name, l);
    left - 1 <= x <= left + wheel::label_width(a, name, l.large as int) + 1 && l.y - 36 <= y <= l.y + 36
}

/// The point lies in the box of the pill of a held row.
pub open spec fn in_pill(a: WheelAssets, app: WheelApp, l: RowLayout, x: int, y: int) -> bool {
    let name = font::codes_of(app.name@);
    let left = wheel::label_left(a, name, l);
    left - 16 <= x <= left + wheel::label_width(a, name, l.large as int) + 16 && l.y - 28 <= y <= l.y + 26
}

/// A row draws its icon, its label and, held, its pill here.
pub open spec fn in_row(a: WheelAssets, app: WheelApp, l: RowLayout, held: bool, x: int, y: int) -> bool {
    in_icon(a, l, x, y) || in_label(a, app, l, x, y) || (held && in_pill(a, app, l, x, y))
}

/// The halo of a row reaches here.
pub open spec fn in_halo(a: WheelAssets, l: RowLayout, x: int, y: int) -> bool {
    let n = a.glow_ring_px as int;
    l.focus > 128 && l.cx - n / 2 <= x < l.cx - n / 2 + n && l.y - n / 2 <= y < l.y - n / 2 + n
}

/// The status line stands here.
pub open spec fn in_status(x: int, y: int) -> bool {
    123 <= x <= 343 && 26 <= y <= 66
}

/// Pixels that agree in two canvases of one size.
pub open spec fn same_px(f: Seq<u8>, g: Seq<u8>, x: int, y: int) -> bool {
    f.len() == g.len() && raster::px_at(f, x, y) == raster::px_at(g, x, y)
}

proof fn lemma_shade_local(
    f: Seq<u8>,
    g: Seq<u8>,
    x0: int,
    y0: int,
    x1: int,
    y1: int,
    sh: raster::Shader,
    x: int,
    y: int,
)
    requires
        raster::has_px(f.len() as int, x, y),
        same_px(f, g, x, y),
    ensures
        same_px(raster::shade(f, x0, y0, x1, y1, sh), raster::shade(g, x0, y0, x1, y1, sh), x, y),
        raster::shade(f, x0, y0, x1, y1, sh).len() == f.len(),
{
    raster::lemma_shade_len(f, x0, y0, x1, y1, sh);
    raster::lemma_shade_len(g, x0, y0, x1, y1, sh);
    raster::lemma_shade_px(f, x0, y0, x1, y1, sh, x, y);
    raster::lemma_shade_px(g, x0, y0, x1, y1, sh, x, y);
}

proof fn lemma_scaled_local(
    f: Seq<u8>,
    g: Seq<u8>,
    font: Seq<Option<Glyph>>,
    s: Seq<u8>,
    n: int,
    left: int,
    base: int,
    alpha: int,
    scale: int,
    fast: bool,
    x: int,
    y: int,
)
    requires
        raster::has_px(f.len() as int, x, y),
        same_px(f, g, x, y),
    ensures
        same_px(
            sprite::scaled_line_on(f, font, s, n, left, base, alpha, scale, fast),
            sprite::scaled_line_on(g, font, s, n, left, base, alpha, scale, fast),
            x,
            y,
        ),
        sprite::scaled_line_on(f, font, s, n, left, base, alpha, scale, fast).len() == f.len(),
    decreases n,
{
    if n > 0 {
        lemma_scaled_local(f, g, font, s, n - 1, left, base, alpha, scale, fast, x, y);
        let pf = sprite::scaled_line_on(f, font, s, n - 1, left, base, alpha, scale, fast);
        let pg = sprite::scaled_line_on(g, font, s, n - 1, left, base, alpha, scale, fast);
        match font::glyph_of(font, s[n - 1]) {
            Some(k) => {
                let dw = sprite::scaled_len(k.width as int, scale);
                let dh = sprite::scaled_len(k.height as int, scale);
                let ox = (left * 256 + font::pen(font, s, n - 1) * scale) / 256;
                let oy = base - (k.height + k.ymin) * scale / 256;
                let sh = sprite::scaled_glyph_shader(k, ox, oy, alpha, dw, dh, fast);
                lemma_shade_local(pf, pg, ox, oy, ox + dw, oy + dh, sh, x, y);
            },
            None => {},
        }
    }
}

/// A row turns equal pixels into equal pixels.
proof fn lemma_row_local(
    f: Frame,
    g: Frame,
    a: WheelAssets,
    b: WheelAssets,
    app: WheelApp,
    l: RowLayout,
    fast: bool,
    held: bool,
    x: int,
    y: int,
)
    requires
        raster::has_px(f.fb.len() as int, x, y),
        same_px(f.fb, g.fb, x, y),
        same_art(a, b),
    ensures
        same_px(wheel::row_on(f, a, app, l, fast, held).fb, wheel::row_on(g, b, app, l, fast, held).fb, x, y),
        wheel::row_on(f, a, app, l, fast, held).fb.len() == f.fb.len(),
{
    let name = font::codes_of(app.name@);
    let n = wheel::icon_side(a, l.large as int);
    let left = wheel::label_left(a, name, l);
    let tw = wheel::label_width(a, name, l.large as int);
    let side = if l.large == 0 {
        a.icon_s_px as int
    } else if l.large == 256 {
        a.icon_l_px as int
    } else {
        n
    };
    let (ox, oy) = (l.cx - side / 2, l.y - side / 2);
    let sh = if l.large == 0 {
        sprite::icon_shader(app.icon_s@, side, ox, oy, l.alpha as int)
    } else if l.large == 256 {
        sprite::icon_shader(app.icon_l@, side, ox, oy, l.alpha as int)
    } else {
        sprite::scaled_icon_shader(app.icon_l@, a.icon_l_px as int, side, ox, oy, l.alpha as int, fast)
    };
    lemma_shade_local(f.fb, g.fb, ox, oy, ox + side, oy + side, sh, x, y);
    let (f1, g1) = (wheel::row_icon_on(f.fb, a, app, l, fast), wheel::row_icon_on(g.fb, b, app, l, fast));
    assert(same_px(f1, g1, x, y));
    let up: int = if l.large >= 128 { 28 } else { 20 };
    let dn: int = if l.large >= 128 { 26 } else { 22 };
    let ps = sprite::pill_shader(left - 16, l.y - up, left + tw + 16, l.y + dn);
    lemma_shade_local(f1, g1, left - 16, l.y - up, left + tw + 16 + 1, l.y + dn + 1, ps, x, y);
    let (f2, g2) = if held {
        (
            raster::shade(f1, left - 16, l.y - up, left + tw + 16 + 1, l.y + dn + 1, ps),
            raster::shade(g1, left - 16, l.y - up, left + tw + 16 + 1, l.y + dn + 1, ps),
        )
    } else {
        (f1, g1)
    };
    let m = name.len() as int;
    wheel_damage::lemma_line_local(f2, g2, a.text@, name, m, left, l.y + 11, l.alpha as int, x, y);
    wheel_damage::lemma_line_local(f2, g2, a.labelf@, name, m, left, l.y + 11, l.alpha as int, x, y);
    lemma_scaled_local(
        f2,
        g2,
        a.labelf@,
        name,
        m,
        left,
        l.y + 11,
        l.alpha as int,
        wheel::label_scale(l.large as int),
        fast,
        x,
        y,
    );
}

/// Assets that differ in their apps only.
pub open spec fn same_art(a: WheelAssets, b: WheelAssets) -> bool {
    &&& b == (WheelAssets { apps: b.apps, ..a })
    &&& b.apps@.len() == a.apps@.len()
}

/// A row leaves what lies outside its boxes alone.
proof fn lemma_row_confined(
    f: Frame,
    a: WheelAssets,
    app: WheelApp,
    l: RowLayout,
    fast: bool,
    held: bool,
    x: int,
    y: int,
)
    requires
        wheel::assets_ok(a),
        wheel_damage::art_fits(a),
        wheel::layout_ok(l),
        raster::has_px(f.fb.len() as int, x, y),
        !in_row(a, app, l, held, x, y),
    ensures
        same_px(wheel::row_on(f, a, app, l, fast, held).fb, f.fb, x, y),
{
    let name = font::codes_of(app.name@);
    let left = wheel::label_left(a, name, l);
    let tw = wheel::label_width(a, name, l.large as int);
    wheel_damage::lemma_icon_side(a, l.large as int);
    wheel_damage::lemma_row_icon(f.fb, a, app, l, fast, x, y);
    let f1 = wheel::row_icon_on(f.fb, a, app, l, fast);
    let up: int = if l.large >= 128 { 28 } else { 20 };
    let dn: int = if l.large >= 128 { 26 } else { 22 };
    let ps = sprite::pill_shader(left - 16, l.y - up, left + tw + 16, l.y + dn);
    wheel_damage::lemma_shade_confined(f1, left - 16, l.y - up, left + tw + 16 + 1, l.y + dn + 1, ps, x, y);
    let f2 = if held {
        raster::shade(f1, left - 16, l.y - up, left + tw + 16 + 1, l.y + dn + 1, ps)
    } else {
        f1
    };
    wheel_damage::lemma_row_label(f2, a, name, l, left, fast, x, y);
}

/// No row of the first `n` but `i` draws here.
pub open spec fn apart(
    a: WheelAssets,
    r: Seq<Option<RowLayout>>,
    pill: Option<usize>,
    i: int,
    n: int,
    x: int,
    y: int,
) -> bool {
    forall|j: int|
        0 <= j < n && j != i && (#[trigger] r[j]) is Some ==> !in_row(
            a,
            a.apps@[j],
            r[j]->0,
            pill == Some(j as usize),
            x,
            y,
        )
}

proof fn lemma_rows_show(
    f: Frame,
    a: WheelAssets,
    r: Seq<Option<RowLayout>>,
    fast: bool,
    pill: Option<usize>,
    i: int,
    n: int,
    x: int,
    y: int,
)
    requires
        wheel::assets_ok(a),
        wheel_damage::art_fits(a),
        wheel_damage::layouts_ok(r),
        raster::has_px(f.fb.len() as int, x, y),
        0 <= n <= r.len(),
        0 <= i < r.len(),
        r[i] is Some,
        apart(a, r, pill, i, n, x, y),
    ensures
        same_px(
            wheel::label_rows(f, a, r, fast, pill, n).fb,
            if i < n {
                wheel::row_on(f, a, a.apps@[i], r[i]->0, fast, pill == Some(i as usize)).fb
            } else {
                f.fb
            },
            x,
            y,
        ),
        wheel::label_rows(f, a, r, fast, pill, n).fb.len() == f.fb.len(),
    decreases n,
{
    if n > 0 {
        lemma_rows_show(f, a, r, fast, pill, i, n - 1, x, y);
        let prev = wheel::label_rows(f, a, r, fast, pill, n - 1);
        if i == n - 1 {
            lemma_row_local(prev, f, a, a, a.apps@[i], r[i]->0, fast, pill == Some(i as usize), x, y);
        } else if r[n - 1] is Some {
            assert(wheel::layout_ok(r[n - 1]->0));
            lemma_row_confined(
                prev,
                a,
                a.apps@[n - 1],
                r[n - 1]->0,
                fast,
                pill == Some((n - 1) as usize),
                x,
                y,
            );
        }
    } else {
        lemma_row_local(f, f, a, a, a.apps@[i], r[i]->0, fast, pill == Some(i as usize), x, y);
    }
}

/// Rows are laid out within bounds.
proof fn lemma_rows_ok(a: WheelAssets, s_q8: int, reveal: Option<i32>, intro: Option<u32>)
    requires
        wheel::assets_ok(a),
    ensures
        wheel_damage::layouts_ok(wheel::wheel_rows(a, s_q8, reveal, intro)),
{
    let r = wheel::wheel_rows(a, s_q8, reveal, intro);
    assert forall|k: int| 0 <= k < r.len() && (#[trigger] r[k]) is Some implies wheel::layout_ok(r[k]->0) by {
        wheel_damage::lemma_layout(k, s_q8 / 256, reveal, intro, a.icon_s_px as int, a.icon_l_px as int);
    }
}

/// Character `k` alone covers the pixel.
pub open spec fn only(font: Seq<Option<Glyph>>, s: Seq<u8>, left: int, base: int, k: int, x: int, y: int) -> bool {
    &&& 0 <= k < s.len()
    &&& font_laws::coverage(font, s, left, base, k, x, y) != 0
    &&& forall|i: int| 0 <= i < s.len() && i != k ==> #[trigger] font_laws::coverage(font, s, left, base, i, x, y) == 0
}

/// Coverage (of 255) that character `i` of a line scaled by `scale` 256ths gives to a pixel.
pub open spec fn scaled_coverage(
    font: Seq<Option<Glyph>>,
    s: Seq<u8>,
    left: int,
    base: int,
    scale: int,
    fast: bool,
    i: int,
    x: int,
    y: int,
) -> int {
    match font::glyph_of(font, s[i]) {
        Some(g) => {
            let (dw, dh) = (sprite::scaled_len(g.width as int, scale), sprite::scaled_len(g.height as int, scale));
            let dx = x - (left * 256 + font::pen(font, s, i) * scale) / 256;
            let dy = y - base + (g.height + g.ymin) * scale / 256;
            if g.width > 0 && g.height > 0 && 0 <= dx < dw && 0 <= dy < dh {
                sprite::scaled_glyph_texel(g, dw, dh, dx, dy, fast)
            } else {
                0
            }
        },
        None => 0,
    }
}

/// Character `k` alone covers the pixel of a scaled line.
pub open spec fn scaled_only(
    font: Seq<Option<Glyph>>,
    s: Seq<u8>,
    left: int,
    base: int,
    scale: int,
    fast: bool,
    k: int,
    x: int,
    y: int,
) -> bool {
    &&& 0 <= k < s.len()
    &&& scaled_coverage(font, s, left, base, scale, fast, k, x, y) >= 8
    &&& forall|i: int|
        0 <= i < s.len() && i != k ==> #[trigger] scaled_coverage(font, s, left, base, scale, fast, i, x, y) < 8
}

/// Text is laid over the pixel that one of its characters covers, and leaves one that none
/// covers.
pub proof fn lemma_text_shows(
    fb: Seq<u8>,
    font: Seq<Option<Glyph>>,
    s: Seq<u8>,
    left: int,
    base: int,
    alpha: int,
    k: int,
    x: int,
    y: int,
)
    requires
        raster::has_px(fb.len() as int, x, y),
    ensures
        ({
            let q = raster::px_at(sprite::text_on(fb, font, s, left, base, alpha), x, y);
            let c = font_laws::coverage(font, s, left, base, k, x, y);
            &&& only(font, s, left, base, k, x, y) ==> q == sprite::tinted(raster::px_at(fb, x, y), c * 17 * alpha / 256)
            &&& font_laws::clear_from(font, s, left, base, 0, x, y) ==> q == raster::px_at(fb, x, y)
        }),
{
    let n = s.len() as int;
    if only(font, s, left, base, k, x, y) {
        lemma_line(fb, font, s, n, left, base, alpha, k, x, y);
    }
    if font_laws::clear_from(font, s, left, base, 0, x, y) {
        lemma_line(fb, font, s, n, left, base, alpha, n, x, y);
    }
}

/// Text keeps the size of the canvas.
pub proof fn lemma_text_len(
    fb: Seq<u8>,
    font: Seq<Option<Glyph>>,
    s: Seq<u8>,
    n: int,
    left: int,
    base: int,
    alpha: int,
)
    ensures
        sprite::line_on(fb, font, s, n, left, base, alpha).len() == fb.len(),
    decreases n,
{
    if n > 0 {
        lemma_text_len(fb, font, s, n - 1, left, base, alpha);
        let prev = sprite::line_on(fb, font, s, n - 1, left, base, alpha);
        match font::glyph_of(font, s[n - 1]) {
            Some(g) => {
                let ox = left + font::pen(font, s, n - 1);
                let oy = base - (g.height + g.ymin);
                let sh = sprite::glyph_shader(g, ox, oy, alpha);
                raster::lemma_shade_len(prev, ox, oy, ox + g.width, oy + g.height, sh);
            },
            None => {},
        }
    }
}

proof fn lemma_line(
    fb: Seq<u8>,
    font: Seq<Option<Glyph>>,
    s: Seq<u8>,
    n: int,
    left: int,
    base: int,
    alpha: int,
    k: int,
    x: int,
    y: int,
)
    requires
        raster::has_px(fb.len() as int, x, y),
        0 <= n <= s.len(),
        forall|i: int| 0 <= i < n && i != k ==> #[trigger] font_laws::coverage(font, s, left, base, i, x, y) == 0,
        0 <= k < n ==> font_laws::coverage(font, s, left, base, k, x, y) != 0,
    ensures
        sprite::line_on(fb, font, s, n, left, base, alpha).len() == fb.len(),
        raster::px_at(sprite::line_on(fb, font, s, n, left, base, alpha), x, y) == (if 0 <= k < n {
            sprite::tinted(
                raster::px_at(fb, x, y),
                font_laws::coverage(font, s, left, base, k, x, y) * 17 * alpha / 256,
            )
        } else {
            raster::px_at(fb, x, y)
        }),
    decreases n,
{
    if n > 0 {
        lemma_line(fb, font, s, n - 1, left, base, alpha, k, x, y);
        let prev = sprite::line_on(fb, font, s, n - 1, left, base, alpha);
        let c = font_laws::coverage(font, s, left, base, n - 1, x, y);
        match font::glyph_of(font, s[n - 1]) {
            Some(g) => {
                let ox = left + font::pen(font, s, n - 1);
                let oy = base - (g.height + g.ymin);
                let sh = sprite::glyph_shader(g, ox, oy, alpha);
                raster::lemma_shade_len(prev, ox, oy, ox + g.width, oy + g.height, sh);
                raster::lemma_shade_px(prev, ox, oy, ox + g.width, oy + g.height, sh, x, y);
            },
            None => {},
        }
    }
}

proof fn lemma_scaled_line(
    fb: Seq<u8>,
    font: Seq<Option<Glyph>>,
    s: Seq<u8>,
    n: int,
    left: int,
    base: int,
    alpha: int,
    scale: int,
    fast: bool,
    k: int,
    x: int,
    y: int,
)
    requires
        raster::has_px(fb.len() as int, x, y),
        0 <= n <= s.len(),
        forall|i: int|
            0 <= i < n && i != k ==> #[trigger] scaled_coverage(font, s, left, base, scale, fast, i, x, y) < 8,
        0 <= k < n ==> scaled_coverage(font, s, left, base, scale, fast, k, x, y) >= 8,
    ensures
        sprite::scaled_line_on(fb, font, s, n, left, base, alpha, scale, fast).len() == fb.len(),
        raster::px_at(sprite::scaled_line_on(fb, font, s, n, left, base, alpha, scale, fast), x, y) == (if 0 <= k < n {
            sprite::tinted(
                raster::px_at(fb, x, y),
                scaled_coverage(font, s, left, base, scale, fast, k, x, y) * alpha / 256,
            )
        } else {
            raster::px_at(fb, x, y)
        }),
    decreases n,
{
    if n > 0 {
        lemma_scaled_line(fb, font, s, n - 1, left, base, alpha, scale, fast, k, x, y);
        let prev = sprite::scaled_line_on(fb, font, s, n - 1, left, base, alpha, scale, fast);
        let c = scaled_coverage(font, s, left, base, scale, fast, n - 1, x, y);
        match font::glyph_of(font, s[n - 1]) {
            Some(g) => {
                let dw = sprite::scaled_len(g.width as int, scale);
                let dh = sprite::scaled_len(g.height as int, scale);
                let ox = (left * 256 + font::pen(font, s, n - 1) * scale) / 256;
                let oy = base - (g.height + g.ymin) * scale / 256;
                let sh = sprite::scaled_glyph_shader(g, ox, oy, alpha, dw, dh, fast);
                raster::lemma_shade_len(prev, ox, oy, ox + dw, oy + dh, sh);
                raster::lemma_shade_px(prev, ox, oy, ox + dw, oy + dh, sh, x, y);
            },
            None => {},
        }
    }
}

/// Scaled text is laid over the pixel that one of its characters covers, and leaves one that
/// none covers.
pub proof fn lemma_scaled_text(
    fb: Seq<u8>,
    font: Seq<Option<Glyph>>,
    s: Seq<u8>,
    left: int,
    base: int,
    alpha: int,
    scale: int,
    fast: bool,
    k: int,
    x: int,
    y: int,
)
    requires
        raster::has_px(fb.len() as int, x, y),
    ensures
        ({
            let r = sprite::scaled_text_on(fb, font, s, left, base, alpha, scale, fast);
            let (p, q) = (raster::px_at(fb, x, y), raster::px_at(r, x, y));
            let c = scaled_coverage(font, s, left, base, scale, fast, k, x, y);
            &&& r.len() == fb.len()
            &&& scaled_only(font, s, left, base, scale, fast, k, x, y) ==> q == sprite::tinted(p, c * alpha / 256)
            &&& scaled_clear(font, s, left, base, scale, fast, x, y) ==> q == p
        }),
{
    let n = s.len() as int;
    lemma_scaled_local(fb, fb, font, s, n, left, base, alpha, scale, fast, x, y);
    if scaled_only(font, s, left, base, scale, fast, k, x, y) {
        lemma_scaled_line(fb, font, s, n, left, base, alpha, scale, fast, k, x, y);
    }
    if scaled_clear(font, s, left, base, scale, fast, x, y) {
        lemma_scaled_line(fb, font, s, n, left, base, alpha, scale, fast, n, x, y);
    }
}

/// The tint: none keeps the pixel, full coverage replaces it, more of it brings each channel
/// nearer to the tint.
pub proof fn lemma_tint(p: (u8, u8), v: int, w: int)
    requires
        v <= w,
    ensures
        v <= 0 ==> sprite::tinted(p, v) == p,
        v >= 255 ==> sprite::tinted(p, v) == pixel::rgb(24, 53, 31),
        nearer(pixel::red(p), pixel::red(sprite::tinted(p, v)), pixel::red(sprite::tinted(p, w)), 24),
        nearer(pixel::green(p), pixel::green(sprite::tinted(p, v)), pixel::green(sprite::tinted(p, w)), 53),
        nearer(pixel::blue(p), pixel::blue(sprite::tinted(p, v)), pixel::blue(sprite::tinted(p, w)), 31),
{
    pixel::lemma_channels(p);
    pixel::lemma_over_ends(p, 24, 53, 31);
    let (a, b) = (imath::sclamp(v, 0, 255), imath::sclamp(w, 0, 255));
    lemma_nearer(pixel::red(p), 24, a, b);
    lemma_nearer(pixel::green(p), 53, a, b);
    lemma_nearer(pixel::blue(p), 31, a, b);
    pixel::lemma_rgb(
        pixel::mix(pixel::red(p), 24, a),
        pixel::mix(pixel::green(p), 53, a),
        pixel::mix(pixel::blue(p), 31, a),
    );
    pixel::lemma_rgb(
        pixel::mix(pixel::red(p), 24, b),
        pixel::mix(pixel::green(p), 53, b),
        pixel::mix(pixel::blue(p), 31, b),
    );
}

/// From `o` by `a` and `b` to `t`, in this order.
pub open spec fn nearer(o: int, a: int, b: int, t: int) -> bool {
    if o <= t { o <= a <= b <= t } else { t <= b <= a <= o }
}

proof fn lemma_nearer(o: int, t: int, v: int, w: int)
    requires
        0 <= v <= w <= 255,
    ensures
        nearer(o, pixel::mix(o, t, v), pixel::mix(o, t, w), t),
{
    pixel::lemma_mix(o, t, v);
    pixel::lemma_mix(o, t, w);
    if o <= t {
        assert(0 <= (t - o) * v <= (t - o) * w) by (nonlinear_arith)
            requires
                0 <= v <= w,
                o <= t,
        ;
    } else {
        assert((t - o) * w <= (t - o) * v <= 0) by (nonlinear_arith)
            requires
                0 <= v <= w,
                t < o,
        ;
    }
}

/// The canvas under the rows: the cleared one, with the halos unless in motion.
pub open spec fn under(f: Frame, a: WheelAssets, r: Seq<Option<RowLayout>>, fast: bool) -> Seq<u8> {
    if fast { f.fb } else { wheel::glow_rows(f, a, r, wheel::saber_table(0), r.len() as int).fb }
}

/// Row `i` shows app `i`. Where no other row and no status line draws, a pixel of its icon
/// square is its icon laid over the canvas under the rows: the small sprite of a row out of
/// focus, the large one of the focused row, the large one scaled in between.
pub proof fn lemma_row_shows_its_icon(
    f: Frame,
    a: WheelAssets,
    status: Seq<u8>,
    s_q8: int,
    intro: Option<u32>,
    fast: bool,
    reveal: Option<i32>,
    pill: Option<usize>,
    i: int,
    l: RowLayout,
    x: int,
    y: int,
)
    requires
        wheel::assets_ok(a),
        wheel_damage::art_fits(a),
        font::width_of(a.text@, status) <= 218,
        raster::has_px(f.fb.len() as int, x, y),
        0 <= i < wheel::wheel_rows(a, s_q8, reveal, intro).len(),
        wheel::wheel_rows(a, s_q8, reveal, intro)[i] == Some(l),
        apart(
            a,
            wheel::wheel_rows(a, s_q8, reveal, intro),
            pill,
            i,
            wheel::wheel_rows(a, s_q8, reveal, intro).len() as int,
            x,
            y,
        ),
        reveal is None ==> !in_status(x, y),
        in_icon(a, l, x, y),
        !in_label(a, a.apps@[i], l, x, y),
        pill == Some(i as usize) ==> !in_pill(a, a.apps@[i], l, x, y),
    ensures
        ({
            let r = wheel::wheel_rows(a, s_q8, reveal, intro);
            let p = raster::px_at(under(f, a, r, fast), x, y);
            let q = raster::px_at(wheel::scroll_frame(f, a, status, s_q8, intro, fast, reveal, pill).fb, x, y);
            let n = wheel::icon_side(a, l.large as int);
            let (dx, dy) = (x - (l.cx - n / 2), y - (l.y - n / 2));
            let t = if l.large == 0 {
                a.apps@[i].icon_s@[dy * n + dx] as int
            } else if l.large == 256 {
                a.apps@[i].icon_l@[dy * n + dx] as int
            } else {
                sprite::scaled_texel(a.apps@[i].icon_l@, a.icon_l_px as int, n, dx, dy, fast)
            };
            q == (if t < 8 { p } else { sprite::tinted(p, t * l.alpha / 256) })
        }),
{
    let r = wheel::wheel_rows(a, s_q8, reveal, intro);
    let g = lemma_row_alone(f, a, status, s_q8, intro, fast, reveal, pill, i, l, x, y);
    let app = a.apps@[i];
    let held = pill == Some(i as usize);
    let name = font::codes_of(app.name@);
    let left = wheel::label_left(a, name, l);
    let tw = wheel::label_width(a, name, l.large as int);
    let n = wheel::icon_side(a, l.large as int);
    let (ox, oy) = (l.cx - n / 2, l.y - n / 2);
    wheel_damage::lemma_icon_side(a, l.large as int);
    wheel_damage::lemma_row_icon(g.fb, a, app, l, fast, x, y);
    let sh = if l.large == 0 {
        sprite::icon_shader(app.icon_s@, n, ox, oy, l.alpha as int)
    } else if l.large == 256 {
        sprite::icon_shader(app.icon_l@, n, ox, oy, l.alpha as int)
    } else {
        sprite::scaled_icon_shader(app.icon_l@, a.icon_l_px as int, n, ox, oy, l.alpha as int, fast)
    };
    raster::lemma_shade_px(g.fb, ox, oy, ox + n, oy + n, sh, x, y);
    let f1 = wheel::row_icon_on(g.fb, a, app, l, fast);
    let up: int = if l.large >= 128 { 28 } else { 20 };
    let dn: int = if l.large >= 128 { 26 } else { 22 };
    let ps = sprite::pill_shader(left - 16, l.y - up, left + tw + 16, l.y + dn);
    wheel_damage::lemma_shade_confined(f1, left - 16, l.y - up, left + tw + 16 + 1, l.y + dn + 1, ps, x, y);
    let f2 = if held {
        raster::shade(f1, left - 16, l.y - up, left + tw + 16 + 1, l.y + dn + 1, ps)
    } else {
        f1
    };
    wheel_damage::lemma_row_label(f2, a, name, l, left, fast, x, y);
}

/// Where no other row draws, a wheel frame shows the row over the canvas under the rows.
proof fn lemma_row_alone(
    f: Frame,
    a: WheelAssets,
    status: Seq<u8>,
    s_q8: int,
    intro: Option<u32>,
    fast: bool,
    reveal: Option<i32>,
    pill: Option<usize>,
    i: int,
    l: RowLayout,
    x: int,
    y: int,
) -> (g: Frame)
    requires
        wheel::assets_ok(a),
        wheel_damage::art_fits(a),
        font::width_of(a.text@, status) <= 218,
        raster::has_px(f.fb.len() as int, x, y),
        0 <= i < wheel::wheel_rows(a, s_q8, reveal, intro).len(),
        wheel::wheel_rows(a, s_q8, reveal, intro)[i] == Some(l),
        apart(
            a,
            wheel::wheel_rows(a, s_q8, reveal, intro),
            pill,
            i,
            wheel::wheel_rows(a, s_q8, reveal, intro).len() as int,
            x,
            y,
        ),
        reveal is None ==> !in_status(x, y),
    ensures
        g.fb == under(f, a, wheel::wheel_rows(a, s_q8, reveal, intro), fast),
        g.fb.len() == f.fb.len(),
        wheel::layout_ok(l),
        same_px(
            wheel::scroll_frame(f, a, status, s_q8, intro, fast, reveal, pill).fb,
            wheel::row_on(g, a, a.apps@[i], l, fast, pill == Some(i as usize)).fb,
            x,
            y,
        ),
{
    let r = wheel::wheel_rows(a, s_q8, reveal, intro);
    let n = r.len() as int;
    lemma_rows_ok(a, s_q8, reveal, intro);
    let g = if fast { f } else { wheel::glow_rows(f, a, r, wheel::saber_table(0), n) };
    lemma_glow_len(f, a, r, wheel::saber_table(0), n);
    lemma_rows_show(g, a, r, fast, pill, i, n, x, y);
    let f2 = wheel::label_rows(g, a, r, fast, pill, n);
    wheel_damage::lemma_status_confined(f2.fb, a.text@, status, x, y);
    g
}

proof fn lemma_glow_len(f: Frame, a: WheelAssets, r: Seq<Option<RowLayout>>, lut: Seq<(u8, u8)>, n: int)
    requires
        0 <= n <= r.len(),
    ensures
        wheel::glow_rows(f, a, r, lut, n).fb.len() == f.fb.len(),
    decreases n,
{
    if n > 0 {
        lemma_glow_len(f, a, r, lut, n - 1);
        let prev = wheel::glow_rows(f, a, r, lut, n - 1);
        if r[n - 1] is Some {
            let l = r[n - 1]->0;
            let m = a.glow_ring_px as int;
            let (ox, oy) = (l.cx - m / 2, l.y - m / 2);
            let alpha = (l.focus - 128) * 2 * l.shown / 256;
            raster::lemma_shade_len(
                prev.fb,
                ox,
                oy,
                ox + m,
                oy + m,
                sprite::lut_shader(a.glow_ring@, m, lut, ox, oy, alpha),
            );
        }
    }
}

/// Row `i` shows the name of app `i`: where one of its characters alone covers a pixel that no
/// other row, icon or status line reaches, that character is laid over the canvas under the
/// rows (over the pill, when the row is held), and a pixel that none covers is left. The label
/// starts at its centred place, or ten pixels right of the icon.
pub proof fn lemma_row_shows_its_name(
    f: Frame,
    a: WheelAssets,
    status: Seq<u8>,
    s_q8: int,
    intro: Option<u32>,
    fast: bool,
    reveal: Option<i32>,
    pill: Option<usize>,
    i: int,
    l: RowLayout,
    left: int,
    k: int,
    x: int,
    y: int,
)
    requires
        wheel::assets_ok(a),
        wheel_damage::art_fits(a),
        font::width_of(a.text@, status) <= 218,
        raster::has_px(f.fb.len() as int, x, y),
        0 <= i < wheel::wheel_rows(a, s_q8, reveal, intro).len(),
        wheel::wheel_rows(a, s_q8, reveal, intro)[i] == Some(l),
        apart(
            a,
            wheel::wheel_rows(a, s_q8, reveal, intro),
            pill,
            i,
            wheel::wheel_rows(a, s_q8, reveal, intro).len() as int,
            x,
            y,
        ),
        reveal is None ==> !in_status(x, y),
        !in_icon(a, l, x, y),
        left == imath::smax(
            233 - wheel::label_width(a, font::codes_of(a.apps@[i].name@), l.large as int) / 2,
            l.cx + wheel::icon_side(a, l.large as int) / 2 + 10,
        ),
    ensures
        ({
            let r = wheel::wheel_rows(a, s_q8, reveal, intro);
            let o = raster::px_at(under(f, a, r, fast), x, y);
            let q = raster::px_at(wheel::scroll_frame(f, a, status, s_q8, intro, fast, reveal, pill).fb, x, y);
            let name = font::codes_of(a.apps@[i].name@);
            let p = if pill == Some(i as usize) && in_outline(a, a.apps@[i], l, left, x, y) {
                pixel::over(o, 4, 8, 5, 200)
            } else {
                o
            };
            label_shown(p, q, a, name, l, left, fast, k, x, y)
        }),
{
    let g = lemma_row_alone(f, a, status, s_q8, intro, fast, reveal, pill, i, l, x, y);
    let app = a.apps@[i];
    let held = pill == Some(i as usize);
    let name = font::codes_of(app.name@);
    let tw = wheel::label_width(a, name, l.large as int);
    wheel_damage::lemma_icon_side(a, l.large as int);
    wheel_damage::lemma_row_icon(g.fb, a, app, l, fast, x, y);
    let f1 = wheel::row_icon_on(g.fb, a, app, l, fast);
    let up: int = if l.large >= 128 { 28 } else { 20 };
    let dn: int = if l.large >= 128 { 26 } else { 22 };
    let ps = sprite::pill_shader(left - 16, l.y - up, left + tw + 16, l.y + dn);
    let f2 = if held {
        raster::shade(f1, left - 16, l.y - up, left + tw + 16 + 1, l.y + dn + 1, ps)
    } else {
        f1
    };
    lemma_pill(f1, a, app, l, left, x, y);
    lemma_label_px(f2, a, name, l, left, fast, k, x, y);
}

/// The point lies inside the rounded pill of a held row: the label grown by 16 on each side,
/// its ends half circles.
pub open spec fn in_outline(a: WheelAssets, app: WheelApp, l: RowLayout, left: int, x: int, y: int) -> bool {
    let tw = wheel::label_width(a, font::codes_of(app.name@), l.large as int);
    let top = if l.large >= 128 { l.y - 28 } else { l.y - 20 };
    let rad: int = if l.large >= 128 { 27 } else { 21 };
    let dy = y - (top + rad);
    &&& -rad <= dy <= rad
    &&& in_cap(rad, x - (left - 16), dy)
    &&& in_cap(rad, left + tw + 16 - x, dy)
}

/// A point `e` inside the end of a pill of radius `rad`, `dy` off its axis, lies in the round
/// end or beyond it.
pub open spec fn in_cap(rad: int, e: int, dy: int) -> bool {
    e >= rad || (rad - e) * (rad - e) + dy * dy <= rad * rad
}

proof fn lemma_cap(y0: int, rad: int, e: int, y: int)
    requires
        rad >= 0,
        y0 <= y <= y0 + 2 * rad,
    ensures
        e >= sprite::pill_inset(y0, y0 + 2 * rad, y) <==> in_cap(rad, e, y - (y0 + rad)),
{
    let dy = y - (y0 + rad);
    assert(imath::tdiv(y0 + (y0 + 2 * rad), 2) == y0 + rad);
    assert(imath::tdiv(2 * rad, 2) == rad);
    let v = rad * rad - dy * dy;
    assert(v >= 0 && dy * dy >= 0) by (nonlinear_arith)
        requires
            v == rad * rad - dy * dy,
            -rad <= dy <= rad,
    ;
    imath::lemma_sqrt_exists(v);
    let q = imath::sqrt_of(v);
    let d = rad - e;
    assert(d >= 0 && d <= q ==> d * d <= q * q) by (nonlinear_arith);
    assert(d > q && q >= 0 ==> d * d >= (q + 1) * (q + 1)) by (nonlinear_arith);
}

/// The pill pixel by pixel.
proof fn lemma_pill(fb: Seq<u8>, a: WheelAssets, app: WheelApp, l: RowLayout, left: int, x: int, y: int)
    requires
        raster::has_px(fb.len() as int, x, y),
    ensures
        ({
            let tw = wheel::label_width(a, font::codes_of(app.name@), l.large as int);
            let up: int = if l.large >= 128 { 28 } else { 20 };
            let dn: int = if l.large >= 128 { 26 } else { 22 };
            let ps = sprite::pill_shader(left - 16, l.y - up, left + tw + 16, l.y + dn);
            let g = raster::shade(fb, left - 16, l.y - up, left + tw + 16 + 1, l.y + dn + 1, ps);
            let o = raster::px_at(fb, x, y);
            &&& g.len() == fb.len()
            &&& raster::px_at(g, x, y) == (if in_outline(a, app, l, left, x, y) {
                pixel::over(o, 4, 8, 5, 200)
            } else {
                o
            })
        }),
{
    let tw = wheel::label_width(a, font::codes_of(app.name@), l.large as int);
    let up: int = if l.large >= 128 { 28 } else { 20 };
    let dn: int = if l.large >= 128 { 26 } else { 22 };
    let rad: int = if l.large >= 128 { 27 } else { 21 };
    let ps = sprite::pill_shader(left - 16, l.y - up, left + tw + 16, l.y + dn);
    raster::lemma_shade_len(fb, left - 16, l.y - up, left + tw + 16 + 1, l.y + dn + 1, ps);
    raster::lemma_shade_px(fb, left - 16, l.y - up, left + tw + 16 + 1, l.y + dn + 1, ps, x, y);
    if l.y - up <= y <= l.y + dn {
        assert(l.y + dn == l.y - up + 2 * rad);
        lemma_cap(l.y - up, rad, x - (left - 16), y);
        lemma_cap(l.y - up, rad, left + tw + 16 - x, y);
        lemma_cap(l.y - up, rad, 0, y);
        lemma_inset(l.y - up, rad, y);
    }
}

proof fn lemma_inset(y0: int, rad: int, y: int)
    requires
        rad >= 0,
        y0 <= y <= y0 + 2 * rad,
    ensures
        0 <= sprite::pill_inset(y0, y0 + 2 * rad, y),
{
    lemma_cap(y0, rad, -1, y);
    let dy = y - (y0 + rad);
    assert((rad + 1) * (rad + 1) + dy * dy > rad * rad) by (nonlinear_arith)
        requires
            rad >= 0,
    ;
}

/// A label pixel by pixel.
proof fn lemma_label_px(
    fb: Seq<u8>,
    a: WheelAssets,
    name: Seq<u8>,
    l: RowLayout,
    left: int,
    fast: bool,
    k: int,
    x: int,
    y: int,
)
    requires
        raster::has_px(fb.len() as int, x, y),
    ensures
        label_shown(
            raster::px_at(fb, x, y),
            raster::px_at(wheel::row_label_on(fb, a, name, l, left, fast), x, y),
            a,
            name,
            l,
            left,
            fast,
            k,
            x,
            y,
        ),
{
    let n = name.len() as int;
    let base = l.y + 11;
    if l.large == 0 {
        lemma_text_shows(fb, a.text@, name, left, base, l.alpha as int, k, x, y);
    } else if l.large == 256 {
        lemma_text_shows(fb, a.labelf@, name, left, base, l.alpha as int, k, x, y);
    } else {
        let scale = wheel::label_scale(l.large as int);
        if scaled_only(a.labelf@, name, left, base, scale, fast, k, x, y) {
            lemma_scaled_line(fb, a.labelf@, name, n, left, base, l.alpha as int, scale, fast, k, x, y);
        }
        if scaled_clear(a.labelf@, name, left, base, scale, fast, x, y) {
            lemma_scaled_line(fb, a.labelf@, name, n, left, base, l.alpha as int, scale, fast, n, x, y);
        }
    }
}

/// No character of a scaled line covers the pixel.
pub open spec fn scaled_clear(
    font: Seq<Option<Glyph>>,
    s: Seq<u8>,
    left: int,
    base: int,
    scale: int,
    fast: bool,
    x: int,
    y: int,
) -> bool {
    forall|i: int| 0 <= i < s.len() ==> #[trigger] scaled_coverage(font, s, left, base, scale, fast, i, x, y) < 8
}

/// `q` is what a label leaves of `p`: the character that alone covers the pixel is laid over
/// it, and a pixel that none covers is kept.
pub open spec fn label_shown(
    p: (u8, u8),
    q: (u8, u8),
    a: WheelAssets,
    name: Seq<u8>,
    l: RowLayout,
    left: int,
    fast: bool,
    k: int,
    x: int,
    y: int,
) -> bool {
    let base = l.y + 11;
    if l.large == 0 || l.large == 256 {
        let fnt = if l.large == 0 { a.text@ } else { a.labelf@ };
        let c = font_laws::coverage(fnt, name, left, base, k, x, y);
        &&& only(fnt, name, left, base, k, x, y) ==> q == sprite::tinted(p, c * 17 * l.alpha / 256)
        &&& font_laws::clear_from(fnt, name, left, base, 0, x, y) ==> q == p
    } else {
        let scale = wheel::label_scale(l.large as int);
        let c = scaled_coverage(a.labelf@, name, left, base, scale, fast, k, x, y);
        &&& scaled_only(a.labelf@, name, left, base, scale, fast, k, x, y) ==> q == sprite::tinted(p, c * l.alpha / 256)
        &&& scaled_clear(a.labelf@, name, left, base, scale, fast, x, y) ==> q == p
    }
}

/// An app is its own row: replacing app `j` by one whose name is as wide changes only pixels
/// of row `j`.
pub proof fn lemma_row_is_its_own(
    f: Frame,
    a: WheelAssets,
    b: WheelAssets,
    status: Seq<u8>,
    s_q8: int,
    intro: Option<u32>,
    fast: bool,
    reveal: Option<i32>,
    pill: Option<usize>,
    j: int,
    x: int,
    y: int,
)
    requires
        wheel::assets_ok(a),
        wheel::assets_ok(b),
        wheel_damage::art_fits(a),
        wheel_damage::art_fits(b),
        same_art(a, b),
        0 <= j < a.apps@.len(),
        forall|i: int| 0 <= i < a.apps@.len() && i != j ==> #[trigger] b.apps@[i] == a.apps@[i],
        as_wide(a, a.apps@[j], b.apps@[j]),
        raster::has_px(f.fb.len() as int, x, y),
        ({
            let r = wheel::wheel_rows(a, s_q8, reveal, intro);
            j < r.len() && r[j] is Some ==> !in_row(a, a.apps@[j], r[j]->0, pill == Some(j as usize), x, y)
        }),
    ensures
        same_px(
            wheel::scroll_frame(f, a, status, s_q8, intro, fast, reveal, pill).fb,
            wheel::scroll_frame(f, b, status, s_q8, intro, fast, reveal, pill).fb,
            x,
            y,
        ),
{
    let r = wheel::wheel_rows(a, s_q8, reveal, intro);
    let n = r.len() as int;
    lemma_rows_ok(a, s_q8, reveal, intro);
    assert(wheel::wheel_rows(b, s_q8, reveal, intro) =~= r);
    let lut = wheel::saber_table(0);
    lemma_glow_same(f, a, b, r, lut, n);
    lemma_glow_len(f, a, r, lut, n);
    let g = if fast { f } else { wheel::glow_rows(f, a, r, lut, n) };
    lemma_rows_agree(g, a, b, r, fast, pill, j, n, x, y);
    let (p, q) = (wheel::label_rows(g, a, r, fast, pill, n), wheel::label_rows(g, b, r, fast, pill, n));
    wheel_damage::lemma_line_local(
        p.fb,
        q.fb,
        a.text@,
        status,
        status.len() as int,
        233 - font::width_of(a.text@, status) / 2,
        52,
        200,
        x,
        y,
    );
}

/// The names of two apps take the same room in both sizes.
pub open spec fn as_wide(a: WheelAssets, p: WheelApp, q: WheelApp) -> bool {
    let (s, t) = (font::codes_of(p.name@), font::codes_of(q.name@));
    font::width_of(a.text@, s) == font::width_of(a.text@, t) && font::width_of(a.labelf@, s) == font::width_of(a.labelf@, t)
}

proof fn lemma_glow_same(
    f: Frame,
    a: WheelAssets,
    b: WheelAssets,
    r: Seq<Option<RowLayout>>,
    lut: Seq<(u8, u8)>,
    n: int,
)
    requires
        same_art(a, b),
        0 <= n <= r.len(),
    ensures
        wheel::glow_rows(f, a, r, lut, n) == wheel::glow_rows(f, b, r, lut, n),
    decreases n,
{
    if n > 0 {
        lemma_glow_same(f, a, b, r, lut, n - 1);
    }
}

proof fn lemma_rows_agree(
    f: Frame,
    a: WheelAssets,
    b: WheelAssets,
    r: Seq<Option<RowLayout>>,
    fast: bool,
    pill: Option<usize>,
    j: int,
    n: int,
    x: int,
    y: int,
)
    requires
        wheel::assets_ok(a),
        wheel::assets_ok(b),
        wheel_damage::art_fits(a),
        wheel_damage::art_fits(b),
        same_art(a, b),
        wheel_damage::layouts_ok(r),
        0 <= n <= r.len() <= a.apps@.len(),
        0 <= j < a.apps@.len(),
        forall|i: int| 0 <= i < a.apps@.len() && i != j ==> #[trigger] b.apps@[i] == a.apps@[i],
        as_wide(a, a.apps@[j], b.apps@[j]),
        raster::has_px(f.fb.len() as int, x, y),
        j < r.len() && r[j] is Some ==> !in_row(a, a.apps@[j], r[j]->0, pill == Some(j as usize), x, y),
    ensures
        same_px(
            wheel::label_rows(f, a, r, fast, pill, n).fb,
            wheel::label_rows(f, b, r, fast, pill, n).fb,
            x,
            y,
        ),
        wheel::label_rows(f, a, r, fast, pill, n).fb.len() == f.fb.len(),
    decreases n,
{
    if n > 0 {
        lemma_rows_agree(f, a, b, r, fast, pill, j, n - 1, x, y);
        let p = wheel::label_rows(f, a, r, fast, pill, n - 1);
        let q = wheel::label_rows(f, b, r, fast, pill, n - 1);
        if r[n - 1] is Some {
            let l = r[n - 1]->0;
            let held = pill == Some((n - 1) as usize);
            if n - 1 == j {
                lemma_row_confined(p, a, a.apps@[j], l, fast, held, x, y);
                lemma_row_confined(q, b, b.apps@[j], l, fast, held, x, y);
            } else {
                assert(b.apps@[n - 1] == a.apps@[n - 1]);
                lemma_row_local(p, q, a, b, a.apps@[n - 1], l, fast, held, x, y);
            }
        }
    }
}

/// The halo of a row is the glow ring through the gradient, merged by maximum, where no other
/// halo reaches: it lightens and never darkens.
pub proof fn lemma_halo_shows(
    f: Frame,
    a: WheelAssets,
    r: Seq<Option<RowLayout>>,
    i: int,
    l: RowLayout,
    x: int,
    y: int,
)
    requires
        raster::has_px(f.fb.len() as int, x, y),
        0 <= i < r.len(),
        r[i] == Some(l),
        forall|j: int| 0 <= j < r.len() && j != i && (#[trigger] r[j]) is Some ==> !in_halo(a, r[j]->0, x, y),
    ensures
        ({
            let p = raster::px_at(f.fb, x, y);
            let q = raster::px_at(under(f, a, r, false), x, y);
            let n = a.glow_ring_px as int;
            let t = a.glow_ring@[(y - (l.y - n / 2)) * n + (x - (l.cx - n / 2))] as int;
            let strength = t * ((l.focus - 128) * 2 * l.shown / 256) / 256;
            &&& !in_halo(a, l, x, y) || t < 6 ==> q == p
            &&& in_halo(a, l, x, y) && t >= 6 ==> q == pixel::lighter(
                wheel::saber_color(imath::sclamp(strength, 0, 255), 0),
                p,
            )
        }),
{
    let lut = wheel::saber_table(0);
    lemma_halo_row(f, a, r, lut, i, r.len() as int, x, y);
}

proof fn lemma_halo_row(
    f: Frame,
    a: WheelAssets,
    r: Seq<Option<RowLayout>>,
    lut: Seq<(u8, u8)>,
    i: int,
    n: int,
    x: int,
    y: int,
)
    requires
        raster::has_px(f.fb.len() as int, x, y),
        0 <= n <= r.len(),
        0 <= i < r.len(),
        r[i] is Some,
        forall|j: int| 0 <= j < r.len() && j != i && (#[trigger] r[j]) is Some ==> !in_halo(a, r[j]->0, x, y),
    ensures
        ({
            let l = r[i]->0;
            let m = a.glow_ring_px as int;
            let (ox, oy) = (l.cx - m / 2, l.y - m / 2);
            let p = raster::px_at(f.fb, x, y);
            &&& wheel::glow_rows(f, a, r, lut, n).fb.len() == f.fb.len()
            &&& raster::px_at(wheel::glow_rows(f, a, r, lut, n).fb, x, y) == (if i < n && in_halo(a, l, x, y) {
                sprite::lut_shader(a.glow_ring@, m, lut, ox, oy, (l.focus - 128) * 2 * l.shown / 256)(x, y, p)
            } else {
                p
            })
        }),
    decreases n,
{
    if n > 0 {
        lemma_halo_row(f, a, r, lut, i, n - 1, x, y);
        let prev = wheel::glow_rows(f, a, r, lut, n - 1);
        if r[n - 1] is Some {
            let l = r[n - 1]->0;
            let m = a.glow_ring_px as int;
            let (ox, oy) = (l.cx - m / 2, l.y - m / 2);
            let sh = sprite::lut_shader(a.glow_ring@, m, lut, ox, oy, (l.focus - 128) * 2 * l.shown / 256);
            raster::lemma_shade_len(prev.fb, ox, oy, ox + m, oy + m, sh);
            raster::lemma_shade_px(prev.fb, ox, oy, ox + m, oy + m, sh, x, y);
            if n - 1 != i {
                assert(!in_halo(a, r[n - 1]->0, x, y));
            }
        }
    }
}

/// The status line is on top of every frame that the unlock sheet does not scrub, centred on
/// its baseline, and on no other.
pub proof fn lemma_status_is_shown(
    f: Frame,
    a: WheelAssets,
    status: Seq<u8>,
    s_q8: int,
    intro: Option<u32>,
    fast: bool,
    reveal: Option<i32>,
    pill: Option<usize>,
    left: int,
    k: int,
    x: int,
    y: int,
)
    requires
        raster::has_px(f.fb.len() as int, x, y),
        font_laws::centred(left, font::width_of(a.text@, status)),
        only(a.text@, status, left, 52, k, x, y),
        wheel_damage::art_fits(a),
        wheel::assets_ok(a),
        ({
            let r = wheel::wheel_rows(a, s_q8, reveal, intro);
            apart(a, r, pill, -1, r.len() as int, x, y)
        }),
    ensures
        ({
            let r = wheel::wheel_rows(a, s_q8, reveal, intro);
            let p = raster::px_at(under(f, a, r, fast), x, y);
            let q = raster::px_at(wheel::scroll_frame(f, a, status, s_q8, intro, fast, reveal, pill).fb, x, y);
            let c = font_laws::coverage(a.text@, status, left, 52, k, x, y);
            q == (if reveal is None { sprite::tinted(p, c * 17 * 200 / 256) } else { p })
        }),
{
    let r = wheel::wheel_rows(a, s_q8, reveal, intro);
    let n = r.len() as int;
    lemma_rows_ok(a, s_q8, reveal, intro);
    lemma_glow_len(f, a, r, wheel::saber_table(0), n);
    let g = if fast { f } else { wheel::glow_rows(f, a, r, wheel::saber_table(0), n) };
    lemma_rows_none(g, a, r, fast, pill, n, x, y);
    let f2 = wheel::label_rows(g, a, r, fast, pill, n);
    assert(left == 233 - font::width_of(a.text@, status) / 2);
    lemma_text_shows(f2.fb, a.text@, status, left, 52, 200, k, x, y);
}

proof fn lemma_rows_none(
    f: Frame,
    a: WheelAssets,
    r: Seq<Option<RowLayout>>,
    fast: bool,
    pill: Option<usize>,
    n: int,
    x: int,
    y: int,
)
    requires
        wheel::assets_ok(a),
        wheel_damage::art_fits(a),
        wheel_damage::layouts_ok(r),
        raster::has_px(f.fb.len() as int, x, y),
        0 <= n <= r.len(),
        apart(a, r, pill, -1, n, x, y),
    ensures
        same_px(wheel::label_rows(f, a, r, fast, pill, n).fb, f.fb, x, y),
    decreases n,
{
    if n > 0 {
        lemma_rows_none(f, a, r, fast, pill, n - 1, x, y);
        let prev = wheel::label_rows(f, a, r, fast, pill, n - 1);
        if r[n - 1] is Some {
            assert(wheel::layout_ok(r[n - 1]->0));
            lemma_row_confined(
                prev,
                a,
                a.apps@[n - 1],
                r[n - 1]->0,
                fast,
                pill == Some((n - 1) as usize),
                x,
                y,
            );
        }
    }
}

/// Distance of a row from the centre of the panel.
pub open spec fn off_centre(y: int) -> int {
    if y >= 233 { y - 233 } else { 233 - y }
}

/// Focus and brightness of a row depend on its distance from the centre and fall with it:
/// whole at the centre, no focus from two rows on, no light from three.
pub proof fn lemma_focus_falls(y: int, z: int)
    requires
        off_centre(y) <= off_centre(z),
    ensures
        wheel::row_focus(y) >= wheel::row_focus(z),
        wheel::row_fade(y) >= wheel::row_fade(z),
        wheel::row_focus(233) == 256 && wheel::row_fade(233) == 256,
        off_centre(y) >= 1 ==> wheel::row_focus(y) < 256,
        wheel::row_focus(z) == 0 <==> off_centre(z) >= 136,
        off_centre(z) == 136 ==> wheel::row_fade(z) == 115,
        off_centre(z) >= 204 ==> wheel::row_fade(z) == 0,
        off_centre(z) <= 136 ==> (256 - wheel::row_focus(z)) * 136 <= off_centre(z) * 256 < (257 - wheel::row_focus(z)) * 136,
{
    let (d, e) = (off_centre(y), off_centre(z));
    assert(imath::sabs(y - 233) == d && imath::sabs(z - 233) == e);
    let (f, g) = (wheel::row_focus(y), wheel::row_focus(z));
    let (a, b) = (115 + 141 * f / 256, 115 + 141 * g / 256);
    assert(a >= b >= 115);
    if e > 136 {
        assert(g == 0 && b == 115);
        let v = imath::smax(256 - (e - 136) * 256 / 68, 0);
        assert(0 <= v <= 256);
        assert(wheel::row_fade(z) == 115 * v / 256);
        if d > 136 {
            assert(f == 0 && a == 115);
            let u = imath::smax(256 - (d - 136) * 256 / 68, 0);
            assert(u >= v);
            assert(wheel::row_fade(y) == 115 * u / 256);
        }
    }
}

/// A resting wheel: row `i` stands 68 pixels below the one before, scrolling moves all rows up
/// by as much, the row at the centre is large and bright, and a row two or more away is small.
pub proof fn lemma_resting_rows(a: WheelAssets, s_q8: int, i: int)
    requires
        wheel::assets_ok(a),
        0 <= i < a.apps@.len(),
        i < 16,
    ensures
        ({
            let r = wheel::wheel_rows(a, s_q8, None, None)[i];
            let y = 233 + 68 * i - s_q8 / 256;
            &&& r is None ==> off_centre(y) > 136
            &&& off_centre(y) >= 204 ==> r is None
            &&& r matches Some(l) ==> {
                &&& l.y == y
                &&& l.shown == 256
                &&& l.alpha == wheel::row_fade(y)
                &&& l.focus == wheel::row_focus(y)
                &&& y == 233 ==> l.large == 256 && l.alpha == 256 && l.focus == 256
                &&& off_centre(y) >= 68 ==> l.large == 0
            }
        }),
{
    let y = 233 + 68 * i - s_q8 / 256;
    lemma_focus_falls(y, y);
    wheel_damage::lemma_fade(y);
    wheel::lemma_ease_out(256);
    if off_centre(y) <= 136 {
        if y >= 233 {
            lemma_focus_falls(y, 369);
        } else {
            lemma_focus_falls(y, 97);
        }
    }
    let fade = wheel::row_fade(y);
    assert(fade * 256 / 256 == fade);
}

/// The entrance: row `i` is absent until two frames per row above it have gone by, then rises
/// from below and grows brighter with every frame, and is at rest ten frames later.
pub proof fn lemma_entrance(i: int, s_px: int, ps: int, pl: int, f: u32, g: u32)
    requires
        0 <= i < 16,
        0 <= ps <= 232,
        0 <= pl <= 232,
        f <= g < 29,
    ensures
        ({
            let (p, q) = (
                wheel::row_layout(i, s_px, None, Some(f), ps, pl),
                wheel::row_layout(i, s_px, None, Some(g), ps, pl),
            );
            let rest = wheel::row_layout(i, s_px, None, None, ps, pl);
            &&& f <= 2 * i ==> p is None
            &&& rest is None ==> p is None
            &&& rest is Some && f > 2 * i ==> p is Some
            &&& f >= 2 * i + 10 ==> p == rest
            &&& p is Some ==> {
                &&& q is Some && rest is Some
                &&& (p->0).y >= (q->0).y >= (rest->0).y
                &&& (p->0).y <= (rest->0).y + 28
                &&& (p->0).alpha <= (q->0).alpha <= (rest->0).alpha
                &&& (p->0).shown <= (q->0).shown
                &&& (p->0).focus == (rest->0).focus
            }
        }),
{
    let y_c = 233 + i * 68 - s_px;
    let (pf, pg) = (
        wheel::row_progress(i, y_c, None, Some(f)),
        wheel::row_progress(i, y_c, None, Some(g)),
    );
    assert(0 <= pf <= pg <= 256);
    lemma_eased(pf, pg);
    lemma_eased(pg, 256);
    lemma_eased(256, 256);
    wheel_damage::lemma_fade(y_c);
    wheel_damage::lemma_layout(i, s_px, None, Some(f), ps, pl);
    wheel_damage::lemma_layout(i, s_px, None, Some(g), ps, pl);
    wheel_damage::lemma_layout(i, s_px, None, None, ps, pl);
    let fade = wheel::row_fade(y_c);
    lemma_dimmed(fade, wheel::ease_out(pf), wheel::ease_out(pg));
    lemma_dimmed(fade, wheel::ease_out(pg), wheel::ease_out(256));
}

proof fn lemma_dimmed(fade: int, d: int, e: int)
    requires
        0 <= fade <= 256,
        0 <= d <= e <= 256,
    ensures
        0 <= fade * d / 256 <= fade * e / 256 <= 256,
{
    assert(0 <= fade * d <= fade * e <= 256 * 256) by (nonlinear_arith)
        requires
            0 <= fade <= 256,
            0 <= d <= e <= 256,
    ;
}

proof fn lemma_products(b: int, a: int, v: int, u: int, top: int)
    requires
        0 <= b <= a <= top,
        0 <= v <= u,
    ensures
        0 <= b * v <= a * u <= top * u,
{
    assert(0 <= b * v) by (nonlinear_arith)
        requires
            0 <= b,
            0 <= v,
    ;
    assert(b * v <= a * v) by (nonlinear_arith)
        requires
            b <= a,
            0 <= v,
    ;
    assert(a * v <= a * u) by (nonlinear_arith)
        requires
            v <= u,
            0 <= a,
    ;
    assert(a * u <= top * u) by (nonlinear_arith)
        requires
            a <= top,
            0 <= u,
    ;
}

/// The ease-out keeps order and ends, and runs ahead of the linear progress.
pub proof fn lemma_eased(p: int, q: int)
    requires
        0 <= p <= q <= 256,
    ensures
        0 <= wheel::ease_out(p) <= wheel::ease_out(q) <= 256,
        p <= wheel::ease_out(p),
        p > 0 ==> wheel::ease_out(p) > 0,
        wheel::ease_out(0) == 0,
        wheel::ease_out(256) == 256,
{
    let (u, v) = (256 - p, 256 - q);
    lemma_products(v, u, v, u, 256);
    let (a, b) = (u * u / 256, v * v / 256);
    assert(0 <= b <= a <= u);
    lemma_products(b, a, v, u, 256);
}

/// Scrubbed by the unlock sheet, a row appears when the sheet's edge passes it, rises and
/// brightens as the sheet goes on, and is at rest when it is fully up.
pub proof fn lemma_unveiled(i: int, s_px: int, ps: int, pl: int, u: i32, v: i32)
    requires
        0 <= i < 16,
        0 <= ps <= 232,
        0 <= pl <= 232,
        0 <= u <= v <= 256,
    ensures
        ({
            let (p, q) = (
                wheel::row_layout(i, s_px, Some(u), None, ps, pl),
                wheel::row_layout(i, s_px, Some(v), None, ps, pl),
            );
            let rest = wheel::row_layout(i, s_px, None, None, ps, pl);
            let y = 233 + 68 * i - s_px;
            let edge = 466 - u * 466 / 256;
            &&& y + 34 <= edge ==> p is None
            &&& rest is None ==> p is None
            &&& rest is Some && y + 34 >= edge + 1 ==> p is Some
            &&& y + 34 >= edge + 110 ==> p == rest
            &&& p is Some ==> {
                &&& q is Some && rest is Some
                &&& (p->0).y >= (q->0).y >= (rest->0).y
                &&& (p->0).y <= (rest->0).y + 28
                &&& (p->0).alpha <= (q->0).alpha <= (rest->0).alpha
                &&& (p->0).focus == (rest->0).focus
            }
        }),
{
    let y_c = 233 + i * 68 - s_px;
    let (pf, pg) = (
        wheel::row_progress(i, y_c, Some(u), None),
        wheel::row_progress(i, y_c, Some(v), None),
    );
    assert(u * 466 / 256 <= v * 466 / 256);
    assert(0 <= pf <= pg <= 256);
    lemma_eased(pf, pg);
    lemma_eased(pg, 256);
    lemma_eased(256, 256);
    wheel_damage::lemma_fade(y_c);
    wheel_damage::lemma_layout(i, s_px, Some(u), None, ps, pl);
    wheel_damage::lemma_layout(i, s_px, Some(v), None, ps, pl);
    wheel_damage::lemma_layout(i, s_px, None, None, ps, pl);
    let fade = wheel::row_fade(y_c);
    lemma_dimmed(fade, wheel::ease_out(pf), wheel::ease_out(pg));
    lemma_dimmed(fade, wheel::ease_out(pg), wheel::ease_out(256));
}

/// An icon hugs the circle: one pixel less of padding and its far corner would be ten pixels
/// or less from the rim.
pub proof fn lemma_icon_hugs_circle(y: int, px: int)
    requires
        px >= 0,
        off_centre(y) + px / 2 <= 232,
    ensures
        ({
            let out = 233 - (wheel::icon_x(y, px) - px / 2 - 10);
            let dy = off_centre(y) + px / 2;
            &&& out >= 0
            &&& out * out + dy * dy <= 233 * 233
            &&& 233 * 233 < (out + 1) * (out + 1) + dy * dy
        }),
{
    let d = wheel::worst_row(y, px);
    assert(d == off_centre(y) + px / 2);
    let w = 54_289 - d * d;
    assert(0 <= d * d <= 232 * 232) by (nonlinear_arith)
        requires
            0 <= d <= 232,
    ;
    imath::lemma_sqrt_exists(w * 256);
    let r = imath::sqrt_of(w * 256);
    let h = r / 16;
    assert(256 * (h * h) <= r * r) by (nonlinear_arith)
        requires
            0 <= 16 * h <= r,
    ;
    assert((r + 1) * (r + 1) <= 256 * ((h + 1) * (h + 1))) by (nonlinear_arith)
        requires
            0 <= r,
            r + 1 <= 16 * (h + 1),
    ;
}

/// The status line reads the time as two digits each, and the battery as a percentage of at
/// most 100 behind a bar.
pub proof fn lemma_status_reads(hour: u8, minute: u8, battery: Option<u8>)
    requires
        hour < 100,
        minute < 100,
    ensures
        ({
            let s = wheel::status_codes(hour, minute, battery);
            &&& s.len() >= 5
            &&& digit(s[0]) && digit(s[1]) && digit(s[3]) && digit(s[4])
            &&& (s[0] - 48) * 10 + (s[1] - 48) == hour
            &&& (s[3] - 48) * 10 + (s[4] - 48) == minute
            &&& s[2] == 58
            &&& battery is None ==> s.len() == 5
            &&& battery matches Some(pct) ==> {
                let v = if pct > 100 { 100int } else { pct as int };
                let n = s.len() as int;
                &&& s[5] == 32 && s[6] == 124 && s[7] == 32 && s[n - 1] == 37
                &&& v < 10 ==> n == 10 && digit(s[8]) && s[8] - 48 == v
                &&& 10 <= v < 100 ==> n == 11 && digit(s[8]) && digit(s[9]) && (s[8] - 48) * 10 + (s[9] - 48) == v
                &&& v == 100 ==> n == 12 && s[8] == 49 && s[9] == 48 && s[10] == 48
            }
        }),
{
}

/// An ASCII digit.
pub open spec fn digit(c: u8) -> bool {
    48 <= c <= 57
}

/// The focus ring's pulse: a triangle wave of 4096 ms, one step every 8 ms, up and back.
pub proof fn lemma_pulse(cycle: int, k: int, r: int)
    requires
        cycle >= 0,
        0 <= k < 512,
        0 <= r < 8,
    ensures
        wheel::ring_phase(4096 * cycle + 8 * k + r) == (if k < 256 { k } else { 511 - k }),
{
    let t = 4096 * cycle + 8 * k + r;
    assert(t / 8 == 512 * cycle + k);
    assert((512 * cycle + k) % 512 == k);
}

/// The entrance takes 29 frames, one after another, and does not come back by itself.
pub proof fn lemma_entrance_ends(f: u32)
    ensures
        f < 28 ==> wheel::next_intro(Some(f)) == Some((f + 1) as u32),
        f >= 28 ==> wheel::next_intro(Some(f)) is None,
        wheel::next_intro(None) is None,
{
}

} // verus!
