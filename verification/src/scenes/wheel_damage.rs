//! What a wheel frame may touch: every pixel that a frame changes lies in a rectangle it
//! clears or tracks, and so in the damage it marks.
//!
//! This rests on the art being cut to its boxes, which `art_fits` states.
use vstd::prelude::*;

use crate::display::dmi;
use crate::display::watch_fb;
use crate::font;
use crate::font::Glyph;
use crate::imath;
use crate::raster;
use crate::scenes::sprite;
use crate::scenes::wheel;
use crate::scenes::wheel::{Frame, Rect, RowLayout, WheelApp, WheelAssets};

verus! {

/// No glyph reaches more than `up` above the baseline, `down` below it, or two pixels past
/// its advance.
pub open spec fn font_fits(font: Seq<Option<Glyph>>, up: int, down: int) -> bool {
    forall|i: int| 0 <= i < font.len() && (#[trigger] font[i]) is Some ==> glyph_fits(font[i]->0, up, down)
}

pub open spec fn glyph_fits(g: Glyph, up: int, down: int) -> bool {
    &&& g.height + g.ymin <= up
    &&& -g.ymin <= down
    &&& g.width <= g.advance + 2
}

/// The art stays in its boxes: text within its lines, icons within the glow ring, labels no
/// wider than two panels.
pub open spec fn art_fits(a: WheelAssets) -> bool {
    &&& font_fits(a.text@, 26, 15)
    &&& font_fits(a.labelf@, 47, 26)
    &&& a.icon_s_px <= a.glow_ring_px
    &&& a.icon_l_px <= a.glow_ring_px
    &&& forall|i: int| 0 <= i < a.apps@.len() ==> name_fits(a, #[trigger] a.apps@[i])
}

pub open spec fn name_fits(a: WheelAssets, app: WheelApp) -> bool {
    &&& font::width_of(a.text@, font::codes_of(app.name@)) <= 932
    &&& font::width_of(a.labelf@, font::codes_of(app.name@)) <= 932
}

/// The point lies in the rectangle.
pub open spec fn rect_has(r: Rect, x: int, y: int) -> bool {
    r.0 <= x <= r.2 && r.1 <= y <= r.3
}

/// The point lies in one of the rectangles.
pub open spec fn tracked_at(s: Seq<Rect>, x: int, y: int) -> bool {
    exists|i: int| 0 <= i < s.len() && rect_has(#[trigger] s[i], x, y)
}

/// `g` comes from `f` by drawing that leaves the pixel `(x, y)` alone unless it tracks it:
/// nothing is untracked, and an untracked pixel is as it was.
pub open spec fn follows(f: Frame, g: Frame, x: int, y: int) -> bool {
    &&& g.fb.len() == f.fb.len()
    &&& tracked_at(f.rects, x, y) ==> tracked_at(g.rects, x, y)
    &&& raster::has_px(f.fb.len() as int, x, y) && !tracked_at(g.rects, x, y) ==> raster::px_at(g.fb, x, y)
        == raster::px_at(f.fb, x, y)
}

proof fn lemma_follows_chain(f: Frame, g: Frame, h: Frame, x: int, y: int)
    requires
        follows(f, g, x, y),
        follows(g, h, x, y),
    ensures
        follows(f, h, x, y),
{
}

/// A rectangle of 16-bit corners is kept as it is while there is room.
proof fn lemma_pushed(s: Seq<Rect>, x0: int, y0: int, x1: int, y1: int, x: int, y: int)
    requires
        s.len() < 40,
        -0x8000 <= x0 <= 0x7fff,
        -0x8000 <= y0 <= 0x7fff,
        -0x8000 <= x1 <= 0x7fff,
        -0x8000 <= y1 <= 0x7fff,
    ensures
        wheel::pushed(s, x0, y0, x1, y1).len() == s.len() + 1,
        tracked_at(s, x, y) ==> tracked_at(wheel::pushed(s, x0, y0, x1, y1), x, y),
        x0 <= x <= x1 && y0 <= y <= y1 ==> tracked_at(wheel::pushed(s, x0, y0, x1, y1), x, y),
{
    let t = wheel::pushed(s, x0, y0, x1, y1);
    if tracked_at(s, x, y) {
        let i = choose|i: int| 0 <= i < s.len() && rect_has(#[trigger] s[i], x, y);
        assert(t[i] == s[i]);
    }
    if x0 <= x <= x1 && y0 <= y <= y1 {
        assert(rect_has(t[s.len() as int], x, y));
    }
}

/// A shader changes no pixel outside its rectangle.
pub proof fn lemma_shade_confined(fb: Seq<u8>, x0: int, y0: int, x1: int, y1: int, sh: raster::Shader, x: int, y: int)
    ensures
        raster::shade(fb, x0, y0, x1, y1, sh).len() == fb.len(),
        raster::has_px(fb.len() as int, x, y) && !(x0 <= x < x1 && y0 <= y < y1) ==> raster::px_at(
            raster::shade(fb, x0, y0, x1, y1, sh),
            x,
            y,
        ) == raster::px_at(fb, x, y),
{
    raster::lemma_shade_len(fb, x0, y0, x1, y1, sh);
    if raster::has_px(fb.len() as int, x, y) {
        raster::lemma_shade_px(fb, x0, y0, x1, y1, sh, x, y);
    }
}

/// Text changes no pixel outside its line.
pub proof fn lemma_text_confined(
    fb: Seq<u8>,
    font: Seq<Option<Glyph>>,
    s: Seq<u8>,
    n: int,
    left: int,
    base: int,
    alpha: int,
    up: int,
    down: int,
    x: int,
    y: int,
)
    requires
        font_fits(font, up, down),
        0 <= n <= s.len(),
    ensures
        sprite::line_on(fb, font, s, n, left, base, alpha).len() == fb.len(),
        raster::has_px(fb.len() as int, x, y) && !(left <= x <= left + font::pen(font, s, n) + 1 && base - up <= y
            <= base + down - 1) ==> raster::px_at(sprite::line_on(fb, font, s, n, left, base, alpha), x, y)
            == raster::px_at(fb, x, y),
    decreases n,
{
    if n > 0 {
        lemma_text_confined(fb, font, s, n - 1, left, base, alpha, up, down, x, y);
        font::lemma_pen(font, s, n - 1);
        let prev = sprite::line_on(fb, font, s, n - 1, left, base, alpha);
        match font::glyph_of(font, s[n - 1]) {
            Some(g) => {
                assert(glyph_fits(font[s[n - 1] as int]->0, up, down));
                let ox = left + font::pen(font, s, n - 1);
                let oy = base - (g.height + g.ymin);
                lemma_shade_confined(
                    prev,
                    ox,
                    oy,
                    ox + g.width,
                    oy + g.height,
                    sprite::glyph_shader(g, ox, oy, alpha),
                    x,
                    y,
                );
            },
            None => {},
        }
    }
}

/// Box of a scaled glyph: it stays in the scaled line.
proof fn lemma_scaled_box(g: Glyph, pen: int, total: int, left: int, base: int, scale: int, up: int, down: int)
    requires
        glyph_fits(g, up, down),
        g.width > 0,
        g.height > 0,
        0 <= pen,
        pen + g.advance <= total,
        0 <= scale <= 256,
        up >= 0,
        down >= 1,
    ensures
        ({
            let ox = (left * 256 + pen * scale) / 256;
            let oy = base - (g.height + g.ymin) * scale / 256;
            &&& left <= ox
            &&& ox + sprite::scaled_len(g.width as int, scale) - 1 <= left + total * scale / 256 + 1
            &&& base - up <= oy
            &&& oy + sprite::scaled_len(g.height as int, scale) - 1 <= base + down - 1
        }),
{
    let (w, h, m) = (g.width as int, g.height as int, g.height + g.ymin);
    assert(0 <= pen * scale) by (nonlinear_arith)
        requires
            0 <= pen,
            0 <= scale,
    ;
    assert(pen * scale + w * scale <= total * scale + 2 * scale) by (nonlinear_arith)
        requires
            pen + w <= total + 2,
            0 <= scale,
    ;
    assert(pen * scale <= total * scale) by (nonlinear_arith)
        requires
            pen <= total,
            0 <= scale,
    ;
    assert(m * scale <= up * 256) by (nonlinear_arith)
        requires
            m <= up,
            0 <= scale <= 256,
            up >= 0,
    ;
    assert(h * scale - m * scale <= down * 256) by (nonlinear_arith)
        requires
            h - m <= down,
            0 <= scale <= 256,
            down >= 0,
    ;
    assert(-(m * scale) <= (down - 1) * 256) by (nonlinear_arith)
        requires
            -m <= down - 1,
            0 <= scale <= 256,
            down >= 1,
    ;
}

/// Scaled text changes no pixel outside its scaled line.
pub proof fn lemma_scaled_confined(
    fb: Seq<u8>,
    font: Seq<Option<Glyph>>,
    s: Seq<u8>,
    n: int,
    left: int,
    base: int,
    alpha: int,
    scale: int,
    fast: bool,
    up: int,
    down: int,
    x: int,
    y: int,
)
    requires
        font_fits(font, up, down),
        0 <= n <= s.len(),
        0 <= scale <= 256,
        up >= 0,
        down >= 1,
    ensures
        sprite::scaled_line_on(fb, font, s, n, left, base, alpha, scale, fast).len() == fb.len(),
        raster::has_px(fb.len() as int, x, y) && !(left <= x <= left + font::pen(font, s, n) * scale / 256 + 1 && base
            - up <= y <= base + down - 1) ==> raster::px_at(
            sprite::scaled_line_on(fb, font, s, n, left, base, alpha, scale, fast),
            x,
            y,
        ) == raster::px_at(fb, x, y),
    decreases n,
{
    if n > 0 {
        lemma_scaled_confined(fb, font, s, n - 1, left, base, alpha, scale, fast, up, down, x, y);
        let (p, q) = (font::pen(font, s, n - 1), font::pen(font, s, n));
        font::lemma_pen(font, s, n - 1);
        assert(p * scale <= q * scale) by (nonlinear_arith)
            requires
                p <= q,
                0 <= scale,
        ;
        let prev = sprite::scaled_line_on(fb, font, s, n - 1, left, base, alpha, scale, fast);
        match font::glyph_of(font, s[n - 1]) {
            Some(g) => {
                if g.width > 0 && g.height > 0 {
                    assert(glyph_fits(font[s[n - 1] as int]->0, up, down));
                    lemma_scaled_box(g, p, q, left, base, scale, up, down);
                    let ox = (left * 256 + p * scale) / 256;
                    let oy = base - (g.height + g.ymin) * scale / 256;
                    let dw = sprite::scaled_len(g.width as int, scale);
                    let dh = sprite::scaled_len(g.height as int, scale);
                    lemma_shade_confined(
                        prev,
                        ox,
                        oy,
                        ox + dw,
                        oy + dh,
                        sprite::scaled_glyph_shader(g, ox, oy, alpha, dw, dh, fast),
                        x,
                        y,
                    );
                }
            },
            None => {},
        }
    }
}

proof fn lemma_icon_x(y_c: int, px: int)
    requires
        0 <= px <= 232,
    ensures
        10 + px / 2 <= wheel::icon_x(y_c, px) <= 243 + px / 2,
{
    let d = wheel::worst_row(y_c, px);
    assert(0 <= d * d <= 232 * 232) by (nonlinear_arith)
        requires
            0 <= d <= 232,
    ;
    let v = (54_289 - d * d) * 256;
    imath::lemma_sqrt_exists(v);
    let r = imath::sqrt_of(v);
    assert(r < 3729) by (nonlinear_arith)
        requires
            r * r <= v,
            v <= 54_289 * 256,
            r >= 0,
    ;
}

/// A row is laid out on or near the panel.
pub proof fn lemma_layout(i: int, s_px: int, reveal: Option<i32>, intro: Option<u32>, ps: int, pl: int)
    requires
        0 <= ps <= 232,
        0 <= pl <= 232,
    ensures
        wheel::row_layout(i, s_px, reveal, intro, ps, pl) is Some ==> wheel::layout_ok(
            wheel::row_layout(i, s_px, reveal, intro, ps, pl)->0,
        ),
{
    if wheel::row_layout(i, s_px, reveal, intro, ps, pl) is Some {
        let y_c = 233 + i * 68 - s_px;
        let e = wheel::ease_out(wheel::row_progress(i, y_c, reveal, intro));
        wheel::lemma_ease_out(wheel::row_progress(i, y_c, reveal, intro));
        let y = y_c + (256 - e) * 28 / 256;
        lemma_icon_x(y, ps);
        lemma_icon_x(y, pl);
        let (xs, xl) = (wheel::icon_x(y, ps), wheel::icon_x(y, pl));
        let wl = imath::sclamp((wheel::row_focus(y_c) - 160) * 4, 0, 256);
        assert(-400 * 256 <= (xl - xs) * wl <= 400 * 256) by (nonlinear_arith)
            requires
                -400 <= xl - xs <= 400,
                0 <= wl <= 256,
        ;
        lemma_fade(y_c);
        let fade = wheel::row_fade(y_c);
        assert(0 <= fade * e <= 256 * 256) by (nonlinear_arith)
            requires
                0 <= fade <= 256,
                0 <= e <= 256,
        ;
    }
}

pub proof fn lemma_fade(y_c: int)
    ensures
        0 <= wheel::row_fade(y_c) <= 256,
        0 <= wheel::row_focus(y_c) <= 256,
{
    let ady = imath::sabs(y_c - 233);
    let a = 115 + 141 * wheel::row_focus(y_c) / 256;
    let f = imath::smax(256 - (ady - 136) * 256 / 68, 0);
    if ady > 136 {
        assert(0 <= a * f <= 256 * 256) by (nonlinear_arith)
            requires
                0 <= a <= 256,
                0 <= f <= 256,
        ;
    }
}

/// The point lies in the box that a glow around `(cx, cy)` tracks.
pub open spec fn in_glow(a: WheelAssets, cx: int, cy: int, x: int, y: int) -> bool {
    let s = a.glow_ring_px as int / 2;
    cx - s <= x <= cx + s && cy - s <= y <= cy + s
}

proof fn lemma_glow_follows(
    f: Frame,
    a: WheelAssets,
    lut: Seq<(u8, u8)>,
    cx: int,
    cy: int,
    alpha: int,
    x: int,
    y: int,
)
    requires
        0 <= a.glow_ring_px <= 466,
        f.rects.len() < 40,
        -20_000 <= cx <= 20_000,
        -20_000 <= cy <= 20_000,
    ensures
        follows(f, wheel::glow_on(f, a, lut, cx, cy, alpha), x, y),
        wheel::glow_on(f, a, lut, cx, cy, alpha).rects.len() == f.rects.len() + 1,
        in_glow(a, cx, cy, x, y) ==> tracked_at(wheel::glow_on(f, a, lut, cx, cy, alpha).rects, x, y),
{
    let n = a.glow_ring_px as int;
    let s = n / 2;
    lemma_pushed(f.rects, cx - s, cy - s, cx + s, cy + s, x, y);
    let (ox, oy) = (cx - n / 2, cy - n / 2);
    lemma_shade_confined(
        f.fb,
        ox,
        oy,
        ox + n,
        oy + n,
        sprite::lut_shader(a.glow_ring@, n, lut, ox, oy, alpha),
        x,
        y,
    );
}

/// Rows among the first `n` that glow.
pub open spec fn glow_count(r: Seq<Option<RowLayout>>, n: int) -> int
    decreases n,
{
    if n <= 0 {
        0
    } else {
        glow_count(r, n - 1) + (if r[n - 1] is Some && (r[n - 1]->0).focus > 128 { 1int } else { 0 })
    }
}

pub open spec fn layouts_ok(r: Seq<Option<RowLayout>>) -> bool {
    forall|k: int| 0 <= k < r.len() && (#[trigger] r[k]) is Some ==> wheel::layout_ok(r[k]->0)
}

proof fn lemma_glow_rows(f: Frame, a: WheelAssets, r: Seq<Option<RowLayout>>, lut: Seq<(u8, u8)>, n: int, x: int, y: int)
    requires
        0 <= a.glow_ring_px <= 466,
        0 <= n <= r.len(),
        f.rects.len() + n <= 40,
        layouts_ok(r),
    ensures
        follows(f, wheel::glow_rows(f, a, r, lut, n), x, y),
        wheel::glow_rows(f, a, r, lut, n).rects.len() == f.rects.len() + glow_count(r, n),
        0 <= glow_count(r, n) <= n,
        forall|k: int|
            0 <= k < n && (#[trigger] r[k]) is Some && (r[k]->0).focus > 128 && in_glow(
                a,
                (r[k]->0).cx as int,
                (r[k]->0).y as int,
                x,
                y,
            ) ==> tracked_at(wheel::glow_rows(f, a, r, lut, n).rects, x, y),
    decreases n,
{
    if n > 0 {
        lemma_glow_rows(f, a, r, lut, n - 1, x, y);
        let prev = wheel::glow_rows(f, a, r, lut, n - 1);
        match r[n - 1] {
            Some(l) => {
                if l.focus > 128 {
                    assert(wheel::layout_ok(r[n - 1]->0));
                    lemma_glow_follows(
                        prev,
                        a,
                        lut,
                        l.cx as int,
                        l.y as int,
                        (l.focus - 128) * 2 * l.shown / 256,
                        x,
                        y,
                    );
                }
            },
            None => {},
        }
    }
}

pub proof fn lemma_icon_side(a: WheelAssets, large: int)
    requires
        0 <= large <= 256,
        1 <= a.icon_s_px <= 232,
        1 <= a.icon_l_px <= 232,
    ensures
        1 <= wheel::icon_side(a, large) <= 232,
        wheel::icon_side(a, large) <= a.icon_s_px || wheel::icon_side(a, large) <= a.icon_l_px,
        large == 0 ==> wheel::icon_side(a, large) == a.icon_s_px,
        large == 256 ==> wheel::icon_side(a, large) == a.icon_l_px,
{
    let d = a.icon_l_px - a.icon_s_px;
    assert(d >= 0 ==> 0 <= d * large <= d * 256) by (nonlinear_arith)
        requires
            0 <= large <= 256,
    ;
    assert(d <= 0 ==> d * 256 <= d * large <= 0) by (nonlinear_arith)
        requires
            0 <= large <= 256,
    ;
}

/// A row's icon stays in the square around its centre.
pub proof fn lemma_row_icon(fb: Seq<u8>, a: WheelAssets, app: WheelApp, l: RowLayout, fast: bool, x: int, y: int)
    requires
        wheel::layout_ok(l),
        1 <= a.icon_s_px <= 232,
        1 <= a.icon_l_px <= 232,
    ensures
        wheel::row_icon_on(fb, a, app, l, fast).len() == fb.len(),
        ({
            let n = wheel::icon_side(a, l.large as int);
            let (ox, oy) = (l.cx - n / 2, l.y - n / 2);
            raster::has_px(fb.len() as int, x, y) && !(ox <= x < ox + n && oy <= y < oy + n) ==> raster::px_at(
                wheel::row_icon_on(fb, a, app, l, fast),
                x,
                y,
            ) == raster::px_at(fb, x, y)
        }),
{
    lemma_icon_side(a, l.large as int);
    let n = wheel::icon_side(a, l.large as int);
    let (ox, oy) = (l.cx - n / 2, l.y - n / 2);
    let sh = if l.large == 0 {
        sprite::icon_shader(app.icon_s@, n, ox, oy, l.alpha as int)
    } else if l.large == 256 {
        sprite::icon_shader(app.icon_l@, n, ox, oy, l.alpha as int)
    } else {
        sprite::scaled_icon_shader(app.icon_l@, a.icon_l_px as int, n, ox, oy, l.alpha as int, fast)
    };
    lemma_shade_confined(fb, ox, oy, ox + n, oy + n, sh, x, y);
}

/// A row's label stays in its line.
pub proof fn lemma_row_label(
    fb: Seq<u8>,
    a: WheelAssets,
    name: Seq<u8>,
    l: RowLayout,
    left: int,
    fast: bool,
    x: int,
    y: int,
)
    requires
        wheel::layout_ok(l),
        font_fits(a.text@, 26, 15),
        font_fits(a.labelf@, 47, 26),
    ensures
        wheel::row_label_on(fb, a, name, l, left, fast).len() == fb.len(),
        ({
            let tw = wheel::label_width(a, name, l.large as int);
            raster::has_px(fb.len() as int, x, y) && !(left - 1 <= x <= left + tw + 1 && l.y - 36 <= y <= l.y + 36)
                ==> raster::px_at(wheel::row_label_on(fb, a, name, l, left, fast), x, y) == raster::px_at(fb, x, y)
        }),
{
    let n = name.len() as int;
    if l.large == 0 {
        lemma_text_confined(fb, a.text@, name, n, left, l.y + 11, l.alpha as int, 26, 15, x, y);
    } else if l.large == 256 {
        lemma_text_confined(fb, a.labelf@, name, n, left, l.y + 11, l.alpha as int, 47, 26, x, y);
    } else {
        lemma_scaled_confined(
            fb,
            a.labelf@,
            name,
            n,
            left,
            l.y + 11,
            l.alpha as int,
            wheel::label_scale(l.large as int),
            fast,
            47,
            26,
            x,
            y,
        );
    }
}

proof fn lemma_label_box(a: WheelAssets, app: WheelApp, l: RowLayout)
    requires
        wheel::layout_ok(l),
        1 <= a.icon_s_px <= 232,
        1 <= a.icon_l_px <= 232,
        name_fits(a, app),
    ensures
        ({
            let name = font::codes_of(app.name@);
            &&& 0 <= wheel::label_width(a, name, l.large as int) <= 932
            &&& -1000 <= wheel::label_left(a, name, l) <= 1000
        }),
{
    let name = font::codes_of(app.name@);
    lemma_icon_side(a, l.large as int);
    font::lemma_pen(a.text@, name, name.len() as int);
    font::lemma_pen(a.labelf@, name, name.len() as int);
    let w = font::width_of(a.labelf@, name);
    let k = wheel::label_scale(l.large as int);
    assert(0 <= w * k <= 932 * 256) by (nonlinear_arith)
        requires
            0 <= w <= 932,
            0 <= k <= 256,
    ;
}

/// One row: icon, pill and label.
proof fn lemma_row_follows(
    f: Frame,
    a: WheelAssets,
    app: WheelApp,
    l: RowLayout,
    fast: bool,
    held: bool,
    x: int,
    y: int,
)
    requires
        wheel::assets_ok(a),
        art_fits(a),
        name_fits(a, app),
        wheel::layout_ok(l),
        f.rects.len() <= 37,
        !fast && l.focus > 128 && in_glow(a, l.cx as int, l.y as int, x, y) ==> tracked_at(f.rects, x, y),
    ensures
        follows(f, wheel::row_on(f, a, app, l, fast, held), x, y),
        wheel::row_on(f, a, app, l, fast, held).rects.len() == f.rects.len() + 1 + (if held { 1int } else { 0 }) + (
        if fast || l.focus <= 128 { 1int } else { 0 }),
{
    let name = font::codes_of(app.name@);
    let n = wheel::icon_side(a, l.large as int);
    let s = n / 2 + 1;
    let left = wheel::label_left(a, name, l);
    let tw = wheel::label_width(a, name, l.large as int);
    lemma_icon_side(a, l.large as int);
    lemma_label_box(a, app, l);
    lemma_row_icon(f.fb, a, app, l, fast, x, y);
    let tracks = fast || l.focus <= 128;
    let f1 = Frame {
        fb: wheel::row_icon_on(f.fb, a, app, l, fast),
        rects: if tracks { wheel::pushed(f.rects, l.cx - s, l.y - s, l.cx + s, l.y + s) } else { f.rects },
    };
    if tracks {
        lemma_pushed(f.rects, l.cx - s, l.y - s, l.cx + s, l.y + s, x, y);
    } else {
        // the icon lies inside the glow ring
        let (ox, oy) = (l.cx - n / 2, l.y - n / 2);
        if ox <= x < ox + n && oy <= y < oy + n {
            assert(n <= a.glow_ring_px);
            assert(in_glow(a, l.cx as int, l.y as int, x, y));
        }
    }
    assert(follows(f, f1, x, y));
    let f2 = if held { wheel::pill_on(f1, l, left, tw) } else { f1 };
    if held {
        let up: int = if l.large >= 128 { 28 } else { 20 };
        let dn: int = if l.large >= 128 { 26 } else { 22 };
        lemma_pushed(f1.rects, left - 18, l.y - up - 1, left + tw + 18, l.y + dn + 1, x, y);
        lemma_shade_confined(
            f1.fb,
            left - 16,
            l.y - up,
            left + tw + 16 + 1,
            l.y + dn + 1,
            sprite::pill_shader(left - 16, l.y - up, left + tw + 16, l.y + dn),
            x,
            y,
        );
    }
    assert(follows(f1, f2, x, y));
    lemma_row_label(f2.fb, a, name, l, left, fast, x, y);
    lemma_pushed(f2.rects, left - 1, l.y - 36, left + tw + 1, l.y + 36, x, y);
    lemma_follows_chain(f, f1, f2, x, y);
    lemma_follows_chain(f, f2, wheel::row_on(f, a, app, l, fast, held), x, y);
}

/// The held row, when it is among the first `n`.
pub open spec fn held_count(pill: Option<usize>, n: int) -> int {
    if pill is Some && pill->0 < n { 1 } else { 0 }
}

proof fn lemma_label_rows(
    f: Frame,
    a: WheelAssets,
    r: Seq<Option<RowLayout>>,
    fast: bool,
    pill: Option<usize>,
    n: int,
    x: int,
    y: int,
)
    requires
        wheel::assets_ok(a),
        art_fits(a),
        layouts_ok(r),
        0 <= n <= r.len() <= 16,
        r.len() <= a.apps@.len(),
        f.rects.len() <= if fast { 0 } else { glow_count(r, r.len() as int) },
        0 <= glow_count(r, r.len() as int) - glow_count(r, n) <= r.len() - n,
        !fast ==> forall|k: int|
            0 <= k < r.len() && (#[trigger] r[k]) is Some && (r[k]->0).focus > 128 && in_glow(
                a,
                (r[k]->0).cx as int,
                (r[k]->0).y as int,
                x,
                y,
            ) ==> tracked_at(f.rects, x, y),
    ensures
        follows(f, wheel::label_rows(f, a, r, fast, pill, n), x, y),
        wheel::label_rows(f, a, r, fast, pill, n).rects.len() <= f.rects.len() + 2 * n - (if fast {
            0
        } else {
            glow_count(r, n)
        }) + held_count(pill, n),
    decreases n,
{
    if n > 0 {
        lemma_label_rows(f, a, r, fast, pill, n - 1, x, y);
        let prev = wheel::label_rows(f, a, r, fast, pill, n - 1);
        match r[n - 1] {
            Some(l) => {
                assert(wheel::layout_ok(r[n - 1]->0));
                assert(name_fits(a, a.apps@[n - 1]));
                let held = pill == Some((n - 1) as usize);
                lemma_row_follows(prev, a, a.apps@[n - 1], l, fast, held, x, y);
                lemma_follows_chain(f, prev, wheel::label_rows(f, a, r, fast, pill, n), x, y);
            },
            None => {},
        }
    }
}

/// The status line stays in its band.
pub proof fn lemma_status_confined(fb: Seq<u8>, text: Seq<Option<Glyph>>, s: Seq<u8>, x: int, y: int)
    requires
        font_fits(text, 26, 15),
        font::width_of(text, s) <= 218,
    ensures
        wheel::status_on(fb, text, s).len() == fb.len(),
        raster::has_px(fb.len() as int, x, y) && !(123 <= x <= 343 && 26 <= y <= 66) ==> raster::px_at(
            wheel::status_on(fb, text, s),
            x,
            y,
        ) == raster::px_at(fb, x, y),
{
    font::lemma_pen(text, s, s.len() as int);
    let w = font::width_of(text, s);
    lemma_text_confined(fb, text, s, s.len() as int, 233 - w / 2, 52, 200, 26, 15, x, y);
}

proof fn lemma_status_follows(f: Frame, text: Seq<Option<Glyph>>, s: Seq<u8>, x: int, y: int)
    requires
        font_fits(text, 26, 15),
        font::width_of(text, s) <= 218,
        f.rects.len() < 40,
    ensures
        follows(f, wheel::status_frame(f, text, s), x, y),
{
    lemma_status_confined(f.fb, text, s, x, y);
    lemma_pushed(f.rects, 123, 26, 343, 66, x, y);
}

/// A scroll frame tracks every pixel it draws.
pub proof fn lemma_scroll_follows(
    f: Frame,
    a: WheelAssets,
    status: Seq<u8>,
    s_q8: int,
    intro: Option<u32>,
    fast: bool,
    reveal: Option<i32>,
    pill: Option<usize>,
    x: int,
    y: int,
)
    requires
        wheel::assets_ok(a),
        art_fits(a),
        font::width_of(a.text@, status) <= 218,
        f.rects.len() == 0,
    ensures
        follows(f, wheel::scroll_frame(f, a, status, s_q8, intro, fast, reveal, pill), x, y),
{
    let r = wheel::wheel_rows(a, s_q8, reveal, intro);
    let n = r.len() as int;
    assert forall|k: int| 0 <= k < r.len() && (#[trigger] r[k]) is Some implies wheel::layout_ok(r[k]->0) by {
        lemma_layout(k, s_q8 / 256, reveal, intro, a.icon_s_px as int, a.icon_l_px as int);
    }
    lemma_glow_rows(f, a, r, wheel::saber_table(0), n, x, y);
    let f1 = if fast { f } else { wheel::glow_rows(f, a, r, wheel::saber_table(0), n) };
    lemma_label_rows(f1, a, r, fast, pill, n, x, y);
    let f2 = wheel::label_rows(f1, a, r, fast, pill, n);
    lemma_follows_chain(f, f1, f2, x, y);
    if reveal is None {
        lemma_status_follows(f2, a.text@, status, x, y);
        lemma_follows_chain(f, f2, wheel::status_frame(f2, a.text@, status), x, y);
    }
}

/// Clearing rectangles changes no pixel outside them.
proof fn lemma_cleared(fb: Seq<u8>, r: Seq<Rect>, n: int, x: int, y: int)
    requires
        0 <= n <= r.len(),
    ensures
        wheel::cleared(fb, r, n).len() == fb.len(),
        raster::has_px(fb.len() as int, x, y) && !tracked_at(r, x, y) ==> raster::px_at(wheel::cleared(fb, r, n), x, y)
            == raster::px_at(fb, x, y),
    decreases n,
{
    if n > 0 {
        lemma_cleared(fb, r, n - 1, x, y);
        let (x0, y0, x1, y1) = r[n - 1];
        lemma_shade_confined(
            wheel::cleared(fb, r, n - 1),
            x0 as int,
            y0 as int,
            x1 + 1,
            y1 + 1,
            raster::black(),
            x,
            y,
        );
        if x0 <= x <= x1 && y0 <= y <= y1 {
            assert(rect_has(r[n - 1], x, y));
        }
    }
}

pub open spec fn bounds_has(b: wheel::Bounds, x: int, y: int) -> bool {
    b.x0 <= x <= b.x1 && b.y0 <= y <= b.y1
}

proof fn lemma_cleared_bounds(r: Seq<Rect>, n: int, i: int, x: int, y: int)
    requires
        0 <= i < n <= r.len(),
        rect_has(r[i], x, y),
        0 <= x < 466,
        0 <= y < 466,
    ensures
        bounds_has(wheel::cleared_bounds(r, n), x, y),
    decreases n,
{
    if i < n - 1 {
        lemma_cleared_bounds(r, n - 1, i, x, y);
    }
}

proof fn lemma_bounds_all(b: wheel::Bounds, r: Seq<Rect>, n: int, x: int, y: int)
    requires
        0 <= n <= r.len(),
    ensures
        bounds_has(b, x, y) ==> bounds_has(wheel::bounds_all(b, r, n), x, y),
        forall|i: int| 0 <= i < n && rect_has(#[trigger] r[i], x, y) ==> bounds_has(wheel::bounds_all(b, r, n), x, y),
    decreases n,
{
    if n > 0 {
        lemma_bounds_all(b, r, n - 1, x, y);
    }
}

/// The damage of a frame covers what it cleared and what it tracks.
proof fn lemma_frame_damage(
    d: dmi::Damage,
    before: Seq<Rect>,
    seeded: bool,
    after: Seq<Rect>,
    x: int,
    y: int,
)
    requires
        dmi::damage_ok(d),
        0 <= x < 466,
        0 <= y < 466,
        !seeded || tracked_at(before, x, y) || tracked_at(after, x, y),
    ensures
        dmi::covers(wheel::frame_damage(d, 466, 466, before, seeded, after), x, y),
{
    if !seeded {
        watch_fb::lemma_marked_covers(d, 466, 466, 0, 0, 465, 465, x, y);
    } else {
        let b0 = wheel::cleared_bounds(before, before.len() as int);
        let b = wheel::bounds_all(b0, after, after.len() as int);
        if tracked_at(before, x, y) {
            let i = choose|i: int| 0 <= i < before.len() && rect_has(#[trigger] before[i], x, y);
            lemma_cleared_bounds(before, before.len() as int, i, x, y);
        }
        lemma_bounds_all(b0, after, after.len() as int, x, y);
        assert(bounds_has(b, x, y));
        watch_fb::lemma_marked_covers(d, 466, 466, b.x0, b.y0, b.x1, b.y1, x, y);
    }
}

/// What a drawn frame changes, it flushes: a pixel that differs from the canvas before is
/// covered by the damage.
proof fn lemma_frame_covered(fb: Seq<u8>, before: Seq<Rect>, seeded: bool, d: dmi::Damage, g: Frame, x: int, y: int)
    requires
        dmi::damage_ok(d),
        raster::has_px(fb.len() as int, x, y),
        follows(
            (Frame { fb: wheel::frame_start(fb, before, seeded), rects: Seq::<Rect>::empty() }),
            g,
            x,
            y,
        ),
        raster::px_at(g.fb, x, y) != raster::px_at(fb, x, y),
    ensures
        dmi::covers(wheel::frame_damage(d, 466, 466, before, seeded, g.rects), x, y),
{
    if seeded {
        lemma_cleared(fb, before, before.len() as int, x, y);
    }
    lemma_frame_damage(d, before, seeded, g.rects, x, y);
}

/// Every pixel that a scroll frame changes is marked for the flush.
pub proof fn lemma_scroll_damage(
    fb: Seq<u8>,
    before: Seq<Rect>,
    seeded: bool,
    d: dmi::Damage,
    a: WheelAssets,
    status: Seq<u8>,
    s_q8: int,
    intro: Option<u32>,
    fast: bool,
    reveal: Option<i32>,
    pill: Option<usize>,
    x: int,
    y: int,
)
    requires
        dmi::damage_ok(d),
        wheel::assets_ok(a),
        art_fits(a),
        font::width_of(a.text@, status) <= 218,
        raster::has_px(fb.len() as int, x, y),
    ensures
        ({
            let f = Frame { fb: wheel::frame_start(fb, before, seeded), rects: Seq::<Rect>::empty() };
            let g = wheel::scroll_frame(f, a, status, s_q8, intro, fast, reveal, pill);
            raster::px_at(g.fb, x, y) != raster::px_at(fb, x, y) ==> dmi::covers(
                wheel::frame_damage(d, 466, 466, before, seeded, g.rects),
                x,
                y,
            )
        }),
{
    let f = Frame { fb: wheel::frame_start(fb, before, seeded), rects: Seq::<Rect>::empty() };
    let g = wheel::scroll_frame(f, a, status, s_q8, intro, fast, reveal, pill);
    lemma_scroll_follows(f, a, status, s_q8, intro, fast, reveal, pill, x, y);
    if raster::px_at(g.fb, x, y) != raster::px_at(fb, x, y) {
        lemma_frame_covered(fb, before, seeded, d, g, x, y);
    }
}

proof fn lemma_morph_row(f: Frame, a: WheelAssets, app: WheelApp, y_c: int, f_q8: int, x: int, y: int)
    requires
        wheel::assets_ok(a),
        art_fits(a),
        name_fits(a, app),
        0 <= f_q8 <= 256,
        f.rects.len() <= 38,
    ensures
        follows(f, wheel::morph_row_on(f, a, app, y_c, f_q8), x, y),
        wheel::morph_row_on(f, a, app, y_c, f_q8).rects.len() <= f.rects.len() + 2,
{
    let away: int = if y_c >= 233 { 12 } else { -12 };
    assert(-12 * 256 <= away * f_q8 <= 12 * 256) by (nonlinear_arith)
        requires
            -12 <= away <= 12,
            0 <= f_q8 <= 256,
    ;
    let cy = y_c + away * f_q8 / 256;
    let alpha = wheel::row_fade(y_c) * (256 - f_q8) / 256;
    if !(y_c < -68 || y_c > 534 || wheel::row_fade(y_c) == 0 || alpha < 8) {
        let ps = a.icon_s_px as int;
        lemma_icon_x(cy, ps);
        let cx = wheel::icon_x(cy, ps);
        let s = ps / 2 + 1;
        let name = font::codes_of(app.name@);
        font::lemma_pen(a.text@, name, name.len() as int);
        let tw = font::width_of(a.text@, name);
        let left = imath::smax(233 - tw / 2, cx + ps / 2 + 10);
        let (ox, oy) = (cx - ps / 2, cy - ps / 2);
        lemma_shade_confined(
            f.fb,
            ox,
            oy,
            ox + ps,
            oy + ps,
            sprite::icon_shader(app.icon_s@, ps, ox, oy, alpha),
            x,
            y,
        );
        lemma_pushed(f.rects, cx - s, cy - s, cx + s, cy + s, x, y);
        let r1 = wheel::pushed(f.rects, cx - s, cy - s, cx + s, cy + s);
        lemma_pushed(r1, left - 1, cy - 36, left + tw + 1, cy + 36, x, y);
        lemma_text_confined(
            sprite::icon_on(f.fb, app.icon_s@, ps, cx, cy, alpha),
            a.text@,
            name,
            name.len() as int,
            left,
            cy + 11,
            alpha,
            26,
            15,
            x,
            y,
        );
    }
}

proof fn lemma_morph_rows(
    f: Frame,
    a: WheelAssets,
    s_px: int,
    focused: int,
    f_q8: int,
    n: int,
    x: int,
    y: int,
)
    requires
        wheel::assets_ok(a),
        art_fits(a),
        0 <= f_q8 <= 256,
        0 <= n <= a.apps@.len() <= 18,
        f.rects.len() == 0,
        0 <= focused < a.apps@.len(),
    ensures
        follows(f, wheel::morph_rows(f, a, s_px, focused, f_q8, n), x, y),
        wheel::morph_rows(f, a, s_px, focused, f_q8, n).rects.len() <= 2 * (n - (if focused < n { 1int } else { 0 })),
    decreases n,
{
    if n > 0 {
        lemma_morph_rows(f, a, s_px, focused, f_q8, n - 1, x, y);
        let prev = wheel::morph_rows(f, a, s_px, focused, f_q8, n - 1);
        if n - 1 != focused {
            assert(name_fits(a, a.apps@[n - 1]));
            lemma_morph_row(prev, a, a.apps@[n - 1], 233 + (n - 1) * 68 - s_px, f_q8, x, y);
            lemma_follows_chain(f, prev, wheel::morph_rows(f, a, s_px, focused, f_q8, n), x, y);
        }
    }
}

proof fn lemma_flight(from: int, to: int, f_q8: int)
    requires
        0 <= f_q8 <= 256,
    ensures
        from <= to ==> from <= from + (to - from) * f_q8 / 256 <= to,
        to <= from ==> to <= from + (to - from) * f_q8 / 256 <= from,
{
    let d = to - from;
    assert(d >= 0 ==> 0 <= d * f_q8 <= d * 256) by (nonlinear_arith)
        requires
            0 <= f_q8 <= 256,
    ;
    assert(d <= 0 ==> d * 256 <= d * f_q8 <= 0) by (nonlinear_arith)
        requires
            0 <= f_q8 <= 256,
    ;
}

proof fn lemma_morph_focus(
    f: Frame,
    a: WheelAssets,
    app: WheelApp,
    y_c: int,
    f_q8: int,
    icon_a: int,
    x: int,
    y: int,
)
    requires
        wheel::assets_ok(a),
        art_fits(a),
        name_fits(a, app),
        0 <= f_q8 <= 256,
        f.rects.len() <= 36,
        -10_000 <= y_c <= 10_000,
    ensures
        follows(f, wheel::morph_focus_on(f, a, app, y_c, f_q8, icon_a), x, y),
        wheel::morph_focus_on(f, a, app, y_c, f_q8, icon_a).rects.len() <= f.rects.len() + 3,
{
    let pl = a.icon_l_px as int;
    lemma_icon_x(y_c, pl);
    let from = wheel::icon_x(y_c, pl);
    let ga = imath::sclamp(256 - f_q8 * 5 / 2, 0, 256);
    let f1 = if ga > 8 { wheel::glow_on(f, a, wheel::saber_table(0), from, y_c, ga) } else { f };
    if ga > 8 {
        lemma_glow_follows(f, a, wheel::saber_table(0), from, y_c, ga, x, y);
    }
    let la = imath::sclamp(256 - f_q8 * 2, 0, 256);
    let name = font::codes_of(app.name@);
    font::lemma_pen(a.labelf@, name, name.len() as int);
    let tw = font::width_of(a.labelf@, name);
    let left = imath::smax(233 - tw / 2, from + pl / 2 + 10);
    let f2 = if la > 8 {
        Frame {
            fb: sprite::text_on(f1.fb, a.labelf@, name, left, y_c + 11, la),
            rects: wheel::pushed(f1.rects, left - 1, y_c - 36, left + tw + 1, y_c + 36),
        }
    } else {
        f1
    };
    if la > 8 {
        lemma_pushed(f1.rects, left - 1, y_c - 36, left + tw + 1, y_c + 36, x, y);
        lemma_text_confined(f1.fb, a.labelf@, name, name.len() as int, left, y_c + 11, la, 47, 26, x, y);
    }
    assert(follows(f1, f2, x, y));
    lemma_follows_chain(f, f1, f2, x, y);
    let ia = imath::sclamp(icon_a, 0, 256);
    if ia > 8 {
        lemma_flight(pl, 128, f_q8);
        lemma_flight(from, 233, f_q8);
        lemma_flight(y_c, 210, f_q8);
        let side = pl + (128 - pl) * f_q8 / 256;
        let ix = from + (233 - from) * f_q8 / 256;
        let iy = y_c + (210 - y_c) * f_q8 / 256;
        let s = side / 2 + 1;
        lemma_pushed(f2.rects, ix - s, iy - s, ix + s, iy + s, x, y);
        let (ox, oy) = (ix - side / 2, iy - side / 2);
        lemma_shade_confined(
            f2.fb,
            ox,
            oy,
            ox + side,
            oy + side,
            sprite::scaled_icon_shader(app.icon_x@, a.icon_x_px as int, side, ox, oy, ia, false),
            x,
            y,
        );
        lemma_follows_chain(f, f2, wheel::morph_focus_on(f, a, app, y_c, f_q8, icon_a), x, y);
    }
}

/// Every pixel that a frame of the open/close morph changes is marked for the flush, on a
/// wheel of up to 18 apps whose focused row is on or near the panel.
pub proof fn lemma_morph_damage(
    fb: Seq<u8>,
    before: Seq<Rect>,
    seeded: bool,
    d: dmi::Damage,
    a: WheelAssets,
    status: Seq<u8>,
    s_px: int,
    focused: int,
    f_q8: int,
    icon_a: int,
    show_status: bool,
    x: int,
    y: int,
)
    requires
        dmi::damage_ok(d),
        wheel::assets_ok(a),
        art_fits(a),
        a.apps@.len() <= 18,
        0 <= focused < a.apps@.len(),
        -10_000 <= 233 + focused * 68 - s_px <= 10_000,
        0 <= f_q8 <= 256,
        font::width_of(a.text@, status) <= 218,
        raster::has_px(fb.len() as int, x, y),
    ensures
        ({
            let f = Frame { fb: wheel::frame_start(fb, before, seeded), rects: Seq::<Rect>::empty() };
            let g = wheel::morph_frame(f, a, status, s_px, focused, f_q8, icon_a, show_status);
            raster::px_at(g.fb, x, y) != raster::px_at(fb, x, y) ==> dmi::covers(
                wheel::frame_damage(d, 466, 466, before, seeded, g.rects),
                x,
                y,
            )
        }),
{
    let f = Frame { fb: wheel::frame_start(fb, before, seeded), rects: Seq::<Rect>::empty() };
    let g = wheel::morph_frame(f, a, status, s_px, focused, f_q8, icon_a, show_status);
    let n = a.apps@.len() as int;
    lemma_morph_rows(f, a, s_px, focused, f_q8, n, x, y);
    let f1 = wheel::morph_rows(f, a, s_px, focused, f_q8, n);
    assert(name_fits(a, a.apps@[focused]));
    let y_c = 233 + focused * 68 - s_px;
    lemma_morph_focus(f1, a, a.apps@[focused], y_c, f_q8, icon_a, x, y);
    let f2 = wheel::morph_focus_on(f1, a, a.apps@[focused], y_c, f_q8, icon_a);
    lemma_follows_chain(f, f1, f2, x, y);
    if show_status {
        lemma_status_follows(f2, a.text@, status, x, y);
        lemma_follows_chain(f, f2, g, x, y);
    }
    if raster::px_at(g.fb, x, y) != raster::px_at(fb, x, y) {
        lemma_frame_covered(fb, before, seeded, d, g, x, y);
    }
}

/// A status tick changes no pixel outside the band it marks, and repeating it changes
/// nothing: on the cleared band every draw is identical.
pub proof fn lemma_status_tick(fb: Seq<u8>, text: Seq<Option<Glyph>>, s: Seq<u8>, x: int, y: int)
    requires
        font_fits(text, 26, 14),
        font::width_of(text, s) <= 216,
        raster::has_px(fb.len() as int, x, y),
    ensures
        ({
            let once = wheel::status_on(raster::shade(fb, 123, 26, 343, 66, raster::black()), text, s);
            let twice = wheel::status_on(raster::shade(once, 123, 26, 343, 66, raster::black()), text, s);
            &&& !(123 <= x <= 343 && 26 <= y <= 66) ==> raster::px_at(once, x, y) == raster::px_at(fb, x, y)
            &&& raster::px_at(twice, x, y) == raster::px_at(once, x, y)
        }),
{
    let cleared = raster::shade(fb, 123, 26, 343, 66, raster::black());
    let once = wheel::status_on(cleared, text, s);
    let again = raster::shade(once, 123, 26, 343, 66, raster::black());
    let n = s.len() as int;
    font::lemma_pen(text, s, n);
    let w = font::width_of(text, s);
    lemma_shade_confined(fb, 123, 26, 343, 66, raster::black(), x, y);
    lemma_text_confined(cleared, text, s, n, 233 - w / 2, 52, 200, 26, 14, x, y);
    lemma_shade_confined(once, 123, 26, 343, 66, raster::black(), x, y);
    raster::lemma_shade_px(fb, 123, 26, 343, 66, raster::black(), x, y);
    raster::lemma_shade_px(once, 123, 26, 343, 66, raster::black(), x, y);
    assert(raster::px_at(again, x, y) == raster::px_at(cleared, x, y));
    lemma_line_local(cleared, again, text, s, n, 233 - w / 2, 52, 200, x, y);
}

/// A line of text turns equal pixels into equal pixels.
pub proof fn lemma_line_local(
    f: Seq<u8>,
    g: Seq<u8>,
    font: Seq<Option<Glyph>>,
    s: Seq<u8>,
    n: int,
    left: int,
    base: int,
    alpha: int,
    x: int,
    y: int,
)
    requires
        raster::has_px(f.len() as int, x, y),
        g.len() == f.len(),
        raster::px_at(f, x, y) == raster::px_at(g, x, y),
    ensures
        sprite::line_on(f, font, s, n, left, base, alpha).len() == f.len(),
        sprite::line_on(g, font, s, n, left, base, alpha).len() == g.len(),
        raster::px_at(sprite::line_on(f, font, s, n, left, base, alpha), x, y) == raster::px_at(
            sprite::line_on(g, font, s, n, left, base, alpha),
            x,
            y,
        ),
    decreases n,
{
    if n > 0 {
        lemma_line_local(f, g, font, s, n - 1, left, base, alpha, x, y);
        let pf = sprite::line_on(f, font, s, n - 1, left, base, alpha);
        let pg = sprite::line_on(g, font, s, n - 1, left, base, alpha);
        match font::glyph_of(font, s[n - 1]) {
            Some(k) => {
                let ox = left + font::pen(font, s, n - 1);
                let oy = base - (k.height + k.ymin);
                let sh = sprite::glyph_shader(k, ox, oy, alpha);
                raster::lemma_shade_len(pf, ox, oy, ox + k.width, oy + k.height, sh);
                raster::lemma_shade_len(pg, ox, oy, ox + k.width, oy + k.height, sh);
                raster::lemma_shade_px(pf, ox, oy, ox + k.width, oy + k.height, sh, x, y);
                raster::lemma_shade_px(pg, ox, oy, ox + k.width, oy + k.height, sh, x, y);
            },
            None => {},
        }
    }
}

} // verus!
