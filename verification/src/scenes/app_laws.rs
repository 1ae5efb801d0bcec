//! What the app screens show: titles, the settings rows and their slider, the About panel.
use vstd::prelude::*;

use crate::font;
use crate::font::Glyph;
use crate::font_laws;
use crate::pixel;
use crate::raster;
use crate::scenes::apps;
use crate::scenes::apps::{AppAssets, State};
use crate::scenes::picture::Picture;
use crate::scenes::settings;
use crate::scenes::sprite;
use crate::scenes::vector;
use crate::scenes::vector::Tint;
use crate::scenes::wheel_laws;

verus! {

/// Coverage (of 255) that character `i` of a title gives to a pixel: its capital, at 200/256
/// of its size.
pub open spec fn title_coverage(
    text: Seq<Option<Glyph>>,
    s: Seq<u8>,
    left: int,
    base: int,
    i: int,
    x: int,
    y: int,
) -> int {
    match font::glyph_of(text, apps::upper(s[i])) {
        Some(g) => {
            let (dw, dh) = (sprite::scaled_len(g.width as int, 200), sprite::scaled_len(g.height as int, 200));
            let dx = x - left - apps::title_pen(text, s, i);
            let dy = y - base + (g.height + g.ymin) * 200 / 256;
            if g.width > 0 && g.height > 0 && 0 <= dx < dw && 0 <= dy < dh {
                sprite::scaled_glyph_texel(g, dw, dh, dx, dy, false)
            } else {
                0
            }
        },
        None => 0,
    }
}

/// Character `k` alone covers the pixel of a title; none does where `k` is no character.
pub open spec fn title_only(
    text: Seq<Option<Glyph>>,
    s: Seq<u8>,
    left: int,
    base: int,
    k: int,
    x: int,
    y: int,
) -> bool {
    &&& 0 <= k < s.len() ==> title_coverage(text, s, left, base, k, x, y) >= 8
    &&& forall|i: int| 0 <= i < s.len() && i != k ==> #[trigger] title_coverage(text, s, left, base, i, x, y) < 8
}

/// Title characters: the one that alone covers a pixel is laid over it in white.
pub proof fn lemma_title_chars(
    fb: Seq<u8>,
    text: Seq<Option<Glyph>>,
    s: Seq<u8>,
    n: int,
    left: int,
    base: int,
    alpha: int,
    k: int,
    x: int,
    y: int,
)
    requires
        raster::has_px(fb.len() as int, x, y),
        0 <= n <= s.len(),
        title_only(text, s, left, base, k, x, y),
    ensures
        apps::title_chars_on(fb, text, s, n, left, base, alpha).len() == fb.len(),
        raster::px_at(apps::title_chars_on(fb, text, s, n, left, base, alpha), x, y) == (if 0 <= k < n {
            vector::laid(
                raster::px_at(fb, x, y),
                (245, 246, 250),
                title_coverage(text, s, left, base, k, x, y) * alpha / 256,
            )
        } else {
            raster::px_at(fb, x, y)
        }),
    decreases n,
{
    if n > 0 {
        lemma_title_chars(fb, text, s, n - 1, left, base, alpha, k, x, y);
        let prev = apps::title_chars_on(fb, text, s, n - 1, left, base, alpha);
        let c = title_coverage(text, s, left, base, n - 1, x, y);
        match font::glyph_of(text, apps::upper(s[n - 1])) {
            Some(g) => {
                let dw = sprite::scaled_len(g.width as int, 200);
                let dh = sprite::scaled_len(g.height as int, 200);
                let ox = left + apps::title_pen(text, s, n - 1);
                let oy = base - (g.height + g.ymin) * 200 / 256;
                let sh = apps::title_glyph_shader(g, ox, oy, alpha, dw, dh);
                raster::lemma_shade_len(prev, ox, oy, ox + dw, oy + dh, sh);
                raster::lemma_shade_px(prev, ox, oy, ox + dw, oy + dh, sh, x, y);
            },
            None => {},
        }
    }
}

/// The title of an app is its own name in white capitals, centred: a pixel that one of its
/// characters alone covers shows it, and a pixel that none covers is kept.
pub proof fn lemma_title_shows_name(
    f: Picture,
    a: AppAssets,
    w: int,
    h: int,
    idx: int,
    base: int,
    alpha: int,
    left: int,
    k: int,
    x: int,
    y: int,
)
    requires
        raster::has_px(f.fb.len() as int, x, y),
        font_laws::centred(left, apps::title_width(a.wheel.text@, font::codes_of(a.wheel.apps@[idx].name@))),
        title_only(a.wheel.text@, font::codes_of(a.wheel.apps@[idx].name@), left, base, k, x, y),
    ensures
        ({
            let s = font::codes_of(a.wheel.apps@[idx].name@);
            let q = raster::px_at(apps::titled(f, a, w, h, idx, base, alpha).fb, x, y);
            let p = raster::px_at(f.fb, x, y);
            let c = title_coverage(a.wheel.text@, s, left, base, k, x, y);
            q == (if 0 <= k < s.len() { vector::laid(p, (245, 246, 250), c * alpha / 256) } else { p })
        }),
{
    let s = font::codes_of(a.wheel.apps@[idx].name@);
    lemma_title_chars(f.fb, a.wheel.text@, s, s.len() as int, left, base, alpha, k, x, y);
}

/// Titles are set in capitals, each followed by four pixels of space, none behind the last.
pub proof fn lemma_title_layout(text: Seq<Option<Glyph>>, s: Seq<u8>, i: int)
    requires
        0 <= i < s.len(),
    ensures
        ({
            let c = if 97 <= s[i] <= 122 { s[i] - 32 } else { s[i] as int };
            &&& apps::title_pen(text, s, 0) == 0
            &&& c < text.len() && text[c] is Some ==> apps::title_pen(text, s, i + 1) == apps::title_pen(text, s, i) + (
            text[c]->0).advance * 200 / 256 + 4
            &&& c >= text.len() || text[c] is None ==> apps::title_pen(text, s, i + 1) == apps::title_pen(text, s, i)
        }),
        apps::title_pen(text, s, s.len() as int) > 0 ==> apps::title_width(text, s) == apps::title_pen(
            text,
            s,
            s.len() as int,
        ) - 4,
{
}

/// A tint laid over a pixel: no coverage keeps it, full coverage gives the tint.
pub proof fn lemma_laid_ends(p: (u8, u8), t: Tint, v: int)
    requires
        vector::tint_ok(t),
    ensures
        v <= 0 ==> vector::laid(p, t, v) == p,
        v >= 255 ==> vector::laid(p, t, v) == pixel::rgb888(t.0 as int, t.1 as int, t.2 as int),
{
    pixel::lemma_over_ends(p, t.0 * 31 / 255, t.1 * 63 / 255, t.2 * 31 / 255);
}

/// Where a line of the settings screen stands: centred on its baseline, one character alone
/// on the pixel.
pub open spec fn word_at(text: Seq<Option<Glyph>>, s: Seq<u8>, base: int, k: int, x: int, y: int) -> bool {
    wheel_laws::only(text, s, 233 - font::width_of(text, s) / 2, base, k, x, y)
}

/// The line does not cover the pixel.
pub open spec fn word_clear(text: Seq<Option<Glyph>>, s: Seq<u8>, base: int, x: int, y: int) -> bool {
    font_laws::clear_from(text, s, 233 - font::width_of(text, s) / 2, base, 0, x, y)
}

/// `q` is character `k` of a centred line laid over `p` at opacity `alpha`.
pub open spec fn word_shown(
    text: Seq<Option<Glyph>>,
    s: Seq<u8>,
    base: int,
    alpha: int,
    k: int,
    x: int,
    y: int,
    p: (u8, u8),
    q: (u8, u8),
) -> bool {
    let c = font_laws::coverage(text, s, 233 - font::width_of(text, s) / 2, base, k, x, y);
    q == sprite::tinted(p, c * 17 * alpha / 256)
}

/// A centred line: the character that alone covers a pixel is laid over it, and a pixel that
/// none covers is kept.
pub proof fn lemma_word(fb: Seq<u8>, text: Seq<Option<Glyph>>, s: Seq<u8>, base: int, alpha: int, k: int, x: int, y: int)
    requires
        raster::has_px(fb.len() as int, x, y),
    ensures
        ({
            let r = apps::centered_on(fb, text, s, base, alpha);
            let (p, q) = (raster::px_at(fb, x, y), raster::px_at(r, x, y));
            &&& r.len() == fb.len()
            &&& word_at(text, s, base, k, x, y) ==> word_shown(text, s, base, alpha, k, x, y, p, q)
            &&& word_clear(text, s, base, x, y) ==> q == p
        }),
{
    let left = 233 - font::width_of(text, s) / 2;
    wheel_laws::lemma_text_shows(fb, text, s, left, base, alpha, k, x, y);
    wheel_laws::lemma_text_len(fb, text, s, s.len() as int, left, base, alpha);
}

/// The About panel shows its five lines, 42 pixels apart, the first one brightest.
pub proof fn lemma_about_is_shown(
    fb: Seq<u8>,
    a: AppAssets,
    st: State,
    q: int,
    rise: int,
    batt: Option<u8>,
    elapsed_ms: int,
    i: int,
    k: int,
    x: int,
    y: int,
)
    requires
        st.set_about,
        0 <= i < 5,
        raster::has_px(fb.len() as int, x, y),
        word_at(a.wheel.text@, settings::about_line(i, a.fw@, batt, elapsed_ms), 172 + 42 * i + rise, k, x, y),
        forall|j: int|
            0 <= j < 5 && j != i ==> #[trigger] line_clear(a, rise, batt, elapsed_ms, j, x, y),
    ensures
        word_shown(
            a.wheel.text@,
            settings::about_line(i, a.fw@, batt, elapsed_ms),
            172 + 42 * i + rise,
            if i == 0 { q } else { 170 * q / 256 },
            k,
            x,
            y,
            raster::px_at(fb, x, y),
            raster::px_at(settings::settings_on(fb, a, st, q, rise, batt, elapsed_ms), x, y),
        ),
{
    lemma_about_lines(fb, a, q, rise, batt, elapsed_ms, i, k, 5, x, y);
}

/// Line `j` of the About panel does not cover the pixel.
pub open spec fn line_clear(a: AppAssets, rise: int, batt: Option<u8>, elapsed_ms: int, j: int, x: int, y: int) -> bool {
    word_clear(a.wheel.text@, settings::about_line(j, a.fw@, batt, elapsed_ms), 172 + 42 * j + rise, x, y)
}

proof fn lemma_about_lines(
    fb: Seq<u8>,
    a: AppAssets,
    q: int,
    rise: int,
    batt: Option<u8>,
    elapsed_ms: int,
    i: int,
    k: int,
    n: int,
    x: int,
    y: int,
)
    requires
        0 <= i < 5,
        0 <= n <= 5,
        raster::has_px(fb.len() as int, x, y),
        word_at(a.wheel.text@, settings::about_line(i, a.fw@, batt, elapsed_ms), 172 + 42 * i + rise, k, x, y),
        forall|j: int|
            0 <= j < 5 && j != i ==> #[trigger] line_clear(a, rise, batt, elapsed_ms, j, x, y),
    ensures
        ({
            let r = settings::about_on(fb, a, q, rise, batt, elapsed_ms, n);
            let (p, o) = (raster::px_at(fb, x, y), raster::px_at(r, x, y));
            &&& r.len() == fb.len()
            &&& i < n ==> word_shown(
                a.wheel.text@,
                settings::about_line(i, a.fw@, batt, elapsed_ms),
                172 + 42 * i + rise,
                if i == 0 { q } else { 170 * q / 256 },
                k,
                x,
                y,
                p,
                o,
            )
            &&& i >= n ==> o == p
        }),
    decreases n,
{
    if n > 0 {
        lemma_about_lines(fb, a, q, rise, batt, elapsed_ms, i, k, n - 1, x, y);
        let prev = settings::about_on(fb, a, q, rise, batt, elapsed_ms, n - 1);
        let s = settings::about_line(n - 1, a.fw@, batt, elapsed_ms);
        let al = if n == 1 { q } else { 170 * q / 256 };
        lemma_word(prev, a.wheel.text@, s, 172 + (n - 1) * 42 + rise, al, k, x, y);
        if n - 1 != i {
            assert(line_clear(a, rise, batt, elapsed_ms, n - 1, x, y));
        }
    }
}

/// A tap on the About row opens the panel, any tap closes it, and others do nothing.
pub proof fn lemma_about_toggles(open: bool, y: int, z: int)
    ensures
        open ==> settings::about_after(open, y) == Some(false),
        !open && 265 <= y <= 430 ==> settings::about_after(open, y) == Some(true),
        !open && (y < 265 || y > 430) ==> settings::about_after(open, y) is None,
        settings::about_after(false, y) == Some(true) ==> settings::about_after(true, z) == Some(false),
{
}

/// The words of the settings screen do not cover the pixel.
pub open spec fn words_clear(a: AppAssets, rise: int, but: int, x: int, y: int) -> bool {
    let t = a.wheel.text@;
    &&& but != 0 ==> word_clear(t, font::codes_of("Brightness"@), 165 + rise, x, y)
    &&& but != 1 ==> word_clear(t, font::codes_of("Display"@), 244 + rise, x, y)
    &&& but != 2 ==> word_clear(t, font::codes_of("About"@), 308 + rise, x, y)
}

/// The settings screen shows its three words, each on its row, off the slider.
pub proof fn lemma_settings_words(
    fb: Seq<u8>,
    a: AppAssets,
    st: State,
    q: int,
    rise: int,
    batt: Option<u8>,
    elapsed_ms: int,
    i: int,
    k: int,
    x: int,
    y: int,
)
    requires
        !st.set_about,
        0 <= i < 3,
        raster::has_px(fb.len() as int, x, y),
        y < 188 + rise || y > 204 + rise,
        words_clear(a, rise, i, x, y),
        word_at(a.wheel.text@, word(i), row_of(i) + rise, k, x, y),
    ensures
        word_shown(
            a.wheel.text@,
            word(i),
            row_of(i) + rise,
            220 * q / 256,
            k,
            x,
            y,
            raster::px_at(fb, x, y),
            raster::px_at(settings::settings_on(fb, a, st, q, rise, batt, elapsed_ms), x, y),
        ),
{
    let t = a.wheel.text@;
    let al = 220 * q / 256;
    lemma_word(fb, t, word(0), 165 + rise, al, k, x, y);
    let fb1 = apps::centered_on(fb, t, word(0), 165 + rise, al);
    lemma_off_slider(fb1, st.set_level as int, q, rise, x, y);
    let fb2 = settings::bright_row_on(fb, a, st.set_level as int, q, rise);
    lemma_word(fb2, t, word(1), 244 + rise, al, k, x, y);
    let fb3 = apps::centered_on(fb2, t, word(1), 244 + rise, al);
    lemma_word(fb3, t, word(2), 308 + rise, al, k, x, y);
}

/// Word of row `i`.
pub open spec fn word(i: int) -> Seq<u8> {
    if i == 0 {
        font::codes_of("Brightness"@)
    } else if i == 1 {
        font::codes_of("Display"@)
    } else {
        font::codes_of("About"@)
    }
}

/// Baseline of row `i`.
pub open spec fn row_of(i: int) -> int {
    if i == 0 {
        165
    } else if i == 1 {
        244
    } else {
        308
    }
}

/// The slider on a canvas: bar, its two ends, knob.
pub open spec fn slider(fb: Seq<u8>, level: int, q: int, rise: int) -> Seq<u8> {
    let y = 195 + rise;
    let pos = apps::slider_pos(level);
    let fb2 = raster::shade(fb, 143, y - 1, 324, y + 3, settings::bar_shader(pos, q));
    let fb3 = vector::cap_on(fb2, 142, y + 1, 2, (200, 215, 255), 70 * q / 256);
    let fb4 = vector::cap_on(fb3, 324, y + 1, 2, (200, 215, 255), 70 * q / 256);
    vector::cap_on(fb4, pos, y + 1, 8, (245, 246, 250), 255 * q / 256)
}

/// A cap lightens: its tint inside, at half strength on its last pixel, nothing outside.
pub proof fn lemma_cap_px(fb: Seq<u8>, cx: int, cy: int, r: int, t: Tint, v: int, x: int, y: int)
    requires
        raster::has_px(fb.len() as int, x, y),
        r >= 1,
    ensures
        ({
            let g = vector::cap_on(fb, cx, cy, r, t, v);
            let (p, q) = (raster::px_at(fb, x, y), raster::px_at(g, x, y));
            let d = (x - cx) * (x - cx) + (y - cy) * (y - cy);
            &&& g.len() == fb.len()
            &&& pixel::as_bright(q, p)
            &&& d > r * r ==> q == p
            &&& d <= (r - 1) * (r - 1) ==> q == pixel::lighter(p, vector::lit(t, v))
        }),
{
    let sh = vector::cap_shader(cx, cy, r, t, v);
    raster::lemma_shade_len(fb, cx - r, cy - r, cx + r + 1, cy + r + 1, sh);
    raster::lemma_shade_px(fb, cx - r, cy - r, cx + r + 1, cy + r + 1, sh, x, y);
    let (dx, dy) = (x - cx, y - cy);
    let d = dx * dx + dy * dy;
    let p = raster::px_at(fb, x, y);
    pixel::lemma_lighter(p, vector::lit(t, vector::disc_level(d, r, v)));
    if d <= r * r {
        assert(-r <= dx <= r && -r <= dy <= r) by (nonlinear_arith)
            requires
                dx * dx + dy * dy <= r * r,
                r >= 0,
        ;
    }
    assert(d <= (r - 1) * (r - 1) ==> d <= r * r) by (nonlinear_arith)
        requires
            r >= 1,
    ;
}

proof fn lemma_off_slider(fb: Seq<u8>, level: int, q: int, rise: int, x: int, y: int)
    requires
        raster::has_px(fb.len() as int, x, y),
        y < 188 + rise || y > 204 + rise,
    ensures
        slider(fb, level, q, rise).len() == fb.len(),
        raster::px_at(slider(fb, level, q, rise), x, y) == raster::px_at(fb, x, y),
{
    let yy = 195 + rise;
    let pos = apps::slider_pos(level);
    let bs = settings::bar_shader(pos, q);
    raster::lemma_shade_len(fb, 143, yy - 1, 324, yy + 3, bs);
    raster::lemma_shade_px(fb, 143, yy - 1, 324, yy + 3, bs, x, y);
    let fb2 = raster::shade(fb, 143, yy - 1, 324, yy + 3, bs);
    let dy = y - (yy + 1);
    assert(dy * dy > 64) by (nonlinear_arith)
        requires
            dy < -8 || dy > 8,
    ;
    lemma_far(x - 142, dy, 2);
    lemma_far(x - 324, dy, 2);
    lemma_far(x - pos, dy, 8);
    lemma_cap_px(fb2, 142, yy + 1, 2, (200, 215, 255), 70 * q / 256, x, y);
    let fb3 = vector::cap_on(fb2, 142, yy + 1, 2, (200, 215, 255), 70 * q / 256);
    lemma_cap_px(fb3, 324, yy + 1, 2, (200, 215, 255), 70 * q / 256, x, y);
    let fb4 = vector::cap_on(fb3, 324, yy + 1, 2, (200, 215, 255), 70 * q / 256);
    lemma_cap_px(fb4, pos, yy + 1, 8, (245, 246, 250), 255 * q / 256, x, y);
}

proof fn lemma_far(dx: int, dy: int, r: int)
    requires
        dy * dy > r * r || dx * dx > r * r,
    ensures
        dx * dx + dy * dy > r * r,
{
    assert(dx * dx >= 0 && dy * dy >= 0) by (nonlinear_arith);
}

/// The slider shows its level: azure left of the knob, ghosted right of it, off the knob and
/// the ends, and the knob is at least as light as its white. No word reaches it.
pub proof fn lemma_slider_is_shown(
    fb: Seq<u8>,
    a: AppAssets,
    st: State,
    q: int,
    rise: int,
    batt: Option<u8>,
    elapsed_ms: int,
    x: int,
    y: int,
)
    requires
        !st.set_about,
        raster::has_px(fb.len() as int, x, y),
        words_clear(a, rise, -1, x, y),
    ensures
        ({
            let p = raster::px_at(fb, x, y);
            let o = raster::px_at(settings::settings_on(fb, a, st, q, rise, batt, elapsed_ms), x, y);
            let knob = apps::slider_pos(st.set_level as int);
            let dy = y - (196 + rise);
            let on_bar = 146 <= x <= 320 && -2 <= dy <= 1;
            &&& on_bar && x < knob - 8 ==> o == vector::laid(p, (70, 155, 255), 230 * q / 256)
            &&& on_bar && x > knob + 8 ==> o == vector::laid(p, (200, 215, 255), 70 * q / 256)
            &&& (x - knob) * (x - knob) + dy * dy <= 49 ==> pixel::as_bright(
                o,
                vector::lit((245, 246, 250), 255 * q / 256),
            )
        }),
{
    let t = a.wheel.text@;
    let al = 220 * q / 256;
    lemma_word(fb, t, word(0), 165 + rise, al, 0, x, y);
    let fb1 = apps::centered_on(fb, t, word(0), 165 + rise, al);
    lemma_slider_px(fb1, st.set_level as int, q, rise, x, y);
    let fb2 = settings::bright_row_on(fb, a, st.set_level as int, q, rise);
    lemma_word(fb2, t, word(1), 244 + rise, al, 0, x, y);
    let fb3 = apps::centered_on(fb2, t, word(1), 244 + rise, al);
    lemma_word(fb3, t, word(2), 308 + rise, al, 0, x, y);
}

proof fn lemma_slider_px(fb: Seq<u8>, level: int, q: int, rise: int, x: int, y: int)
    requires
        raster::has_px(fb.len() as int, x, y),
    ensures
        ({
            let p = raster::px_at(fb, x, y);
            let o = raster::px_at(slider(fb, level, q, rise), x, y);
            let knob = apps::slider_pos(level);
            let dy = y - (196 + rise);
            let on_bar = 146 <= x <= 320 && -2 <= dy <= 1;
            &&& slider(fb, level, q, rise).len() == fb.len()
            &&& on_bar && x < knob - 8 ==> o == vector::laid(p, (70, 155, 255), 230 * q / 256)
            &&& on_bar && x > knob + 8 ==> o == vector::laid(p, (200, 215, 255), 70 * q / 256)
            &&& (x - knob) * (x - knob) + dy * dy <= 49 ==> pixel::as_bright(
                o,
                vector::lit((245, 246, 250), 255 * q / 256),
            )
        }),
{
    let yy = 195 + rise;
    let pos = apps::slider_pos(level);
    let bs = settings::bar_shader(pos, q);
    raster::lemma_shade_len(fb, 143, yy - 1, 324, yy + 3, bs);
    raster::lemma_shade_px(fb, 143, yy - 1, 324, yy + 3, bs, x, y);
    let fb2 = raster::shade(fb, 143, yy - 1, 324, yy + 3, bs);
    let dy = y - (yy + 1);
    lemma_beyond(x - 142, 2);
    lemma_beyond(324 - x, 2);
    lemma_beyond(x - pos, 8);
    lemma_beyond(pos - x, 8);
    let (e, f, g) = (x - 142, x - 324, x - pos);
    assert((324 - x) * (324 - x) == f * f && (pos - x) * (pos - x) == g * g) by (nonlinear_arith)
        requires
            f == x - 324,
            g == x - pos,
    ;
    if e * e > 4 {
        lemma_far(e, dy, 2);
    }
    if f * f > 4 {
        lemma_far(f, dy, 2);
    }
    if g * g > 64 {
        lemma_far(g, dy, 8);
    }
    lemma_cap_px(fb2, 142, yy + 1, 2, (200, 215, 255), 70 * q / 256, x, y);
    let fb3 = vector::cap_on(fb2, 142, yy + 1, 2, (200, 215, 255), 70 * q / 256);
    lemma_cap_px(fb3, 324, yy + 1, 2, (200, 215, 255), 70 * q / 256, x, y);
    let fb4 = vector::cap_on(fb3, 324, yy + 1, 2, (200, 215, 255), 70 * q / 256);
    lemma_cap_px(fb4, pos, yy + 1, 8, (245, 246, 250), 255 * q / 256, x, y);
    pixel::lemma_lighter(raster::px_at(fb4, x, y), vector::lit((245, 246, 250), 255 * q / 256));
}

proof fn lemma_beyond(d: int, r: int)
    requires
        r >= 0,
    ensures
        d > r ==> d * d > r * r,
{
    assert(d > r ==> d * d > r * r) by (nonlinear_arith)
        requires
            r >= 0,
    ;
}

/// The knob stands where the level is: at the ends for the floor and for full, further right
/// for a higher level.
pub proof fn lemma_knob(a: int, b: int)
    requires
        20 <= a <= b <= 255,
    ensures
        143 <= apps::slider_pos(a) <= apps::slider_pos(b) <= 323,
        apps::slider_pos(20) == 143,
        apps::slider_pos(255) == 323,
        (apps::slider_pos(a) - 143) * 235 <= (a - 20) * 180 < (apps::slider_pos(a) - 142) * 235,
{
}

/// The uptime line reads hours and minutes.
pub proof fn lemma_uptime_reads(ms: int)
    requires
        0 <= ms,
        ms < 100 * 3_600_000,
    ensures
        ({
            let s = settings::uptime_line(ms);
            let (h, m) = (ms / 3_600_000, ms / 60_000 % 60);
            let up = font::codes_of("UP "@);
            let min = font::codes_of(" MIN"@);
            &&& h == 0 ==> s == up + decimal(m) + min
            &&& h > 0 && m >= 10 ==> s == up + decimal(h) + seq![72u8, 32u8] + decimal(m) + min
            &&& h > 0 && m < 10 ==> s == up + decimal(h) + seq![72u8, 32u8] + min
        }),
{
    let mins = ms / 60_000;
    assert(mins / 60 == ms / 3_600_000);
    let s = settings::uptime_line(ms);
    let (h, m) = (ms / 3_600_000, ms / 60_000 % 60);
    let up = font::codes_of("UP "@);
    let min = font::codes_of(" MIN"@);
    if h == 0 {
        assert(s =~= up + decimal(m) + min);
    } else if m >= 10 {
        assert(s =~= up + decimal(h) + seq![72u8, 32u8] + decimal(m) + min);
    } else {
        assert(s =~= up + decimal(h) + seq![72u8, 32u8] + min);
    }
}

/// Decimal digits of a number below 100, without a leading zero.
pub open spec fn decimal(n: int) -> Seq<u8> {
    if n < 10 { seq![(48 + n) as u8] } else { seq![(48 + n / 10) as u8, (48 + n % 10) as u8] }
}

/// The firmware row reads `FW` and the first 17 characters of the version, in their order.
pub proof fn lemma_firmware_reads(fw: Seq<char>, k: int)
    ensures
        ({
            let s = settings::fw_line(fw);
            let n = if fw.len() < 17 { fw.len() as int } else { 17 };
            &&& s.len() == 3 + n
            &&& s[0] == 70 && s[1] == 87 && s[2] == 32
            &&& 0 <= k < n && (fw[k] as int) < 128 ==> s[3 + k] == fw[k] as int
        }),
{
    reveal_strlit("FW ");
    let n = if fw.len() < 17 { fw.len() as int } else { 17 };
    if 0 <= k < n && (fw[k] as int) < 128 {
        font_laws::lemma_ascii(fw[k]);
    }
}

/// The battery row reads the level as a percentage, 100 at most, or that power comes from USB.
pub proof fn lemma_battery_reads(batt: Option<u8>)
    ensures
        ({
            let s = settings::batt_line(batt);
            let n = s.len() as int;
            &&& batt matches Some(pct) ==> {
                let v = if pct > 100 { 100int } else { pct as int };
                &&& s[0] == 66 && s[1] == 65 && s[2] == 84 && s[3] == 84 && s[4] == 32 && s[n - 1] == 37
                &&& v < 10 ==> n == 7 && s[5] - 48 == v
                &&& 10 <= v < 100 ==> n == 8 && (s[5] - 48) * 10 + (s[6] - 48) == v && 48 <= s[6] <= 57
                &&& v == 100 ==> n == 9 && s[5] == 49 && s[6] == 48 && s[7] == 48
            }
            &&& batt is None ==> s =~= seq![85u8, 83u8, 66u8, 32u8, 80u8, 79u8, 87u8, 69u8, 82u8]
        }),
{
    reveal_strlit("BATT ");
    reveal_strlit("USB POWER");
}

} // verus!
