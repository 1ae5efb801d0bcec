//! What the gallery shows: the strip of pages and how it scrolls, the dots, the fades and the
//! caption.
use vstd::prelude::*;

use crate::imath;
use crate::pixel;
use crate::raster;
use crate::scenes::gallery;
use crate::scenes::picture::Picture;
use crate::scenes::app_laws;
use crate::scenes::apps;
use crate::scenes::apps::AppAssets;
use crate::scenes::sprite;
use crate::scenes::vector;
use crate::scenes::wheel_damage;
use crate::scenes::wheel_laws;

verus! {

/// The strip scrolls as one picture: moved on by `d`, the same pixel stands `d` columns
/// further left; each page is 466 columns wide, and there is black beyond the ends.
pub proof fn lemma_strip_scrolls(fb: Seq<u8>, pages: Seq<&'static [u8]>, s: int, d: int, x: int, y: int)
    requires
        raster::has_px(fb.len() as int, x, y),
        raster::has_px(fb.len() as int, x - d, y),
    ensures
        raster::px_at(gallery::strip_on(fb, pages, s + d), x - d, y) == raster::px_at(
            gallery::strip_on(fb, pages, s),
            x,
            y,
        ),
        s + x < 0 || s + x >= 466 * pages.len() ==> raster::px_at(gallery::strip_on(fb, pages, s), x, y) == (0u8, 0u8),
        forall|i: int|
            0 <= i < pages.len() && 466 * i <= s + x < 466 * i + 466 ==> raster::px_at(
                gallery::strip_on(fb, pages, s),
                x,
                y,
            ) == raster::px_at((#[trigger] pages[i])@, s + x - 466 * i, y),
{
    let (a, b) = (gallery::strip_shader(pages, s + d), gallery::strip_shader(pages, s));
    raster::lemma_shade_px(fb, 0, 0, 466, 466, a, x - d, y);
    raster::lemma_shade_px(fb, 0, 0, 466, 466, b, x, y);
    assert(s + d + (x - d) == s + x);
    let c = s + x;
    assert(c < 0 ==> c / 466 < 0);
    assert(c >= 466 * pages.len() ==> c / 466 >= pages.len());
    assert forall|i: int| 0 <= i < pages.len() && 466 * i <= s + x < 466 * i + 466 implies raster::px_at(
        gallery::strip_on(fb, pages, s),
        x,
        y,
    ) == raster::px_at((#[trigger] pages[i])@, s + x - 466 * i, y) by {
        assert(c / 466 == i && c % 466 == c - 466 * i);
    }
}

/// The nearest page is at most half a page away, between the ends, and there is none nearer.
pub proof fn lemma_nearest_page(s: int, n: int, i: int)
    requires
        n >= 1,
        0 <= i < n,
    ensures
        ({
            let p = gallery::nearest_page(s, n);
            &&& 0 <= p < n
            &&& imath::sabs(s - 466 * p) <= imath::sabs(s - 466 * i)
        }),
{
}

/// Centre column of dot `i` of `n`: 22 pixels apart, the row centred on the panel.
pub open spec fn dot_x(i: int, n: int) -> int {
    233 - (n - 1) * 11 + 22 * i
}

/// The dots tell the page: the middle of dot `i` is amber when it is lit, else ghosted over
/// what was there.
pub proof fn lemma_dots(fb: Seq<u8>, lit: int, n: int, k: int, i: int, x: int, y: int)
    requires
        raster::has_px(fb.len() as int, x, y),
        0 <= k <= n,
        0 <= i < n,
        (x - dot_x(i, n)) * (x - dot_x(i, n)) + (y - 424) * (y - 424) <= 4,
    ensures
        ({
            let g = gallery::dots_on(fb, lit, n, k);
            let (p, q) = (raster::px_at(fb, x, y), raster::px_at(g, x, y));
            &&& g.len() == fb.len()
            &&& i >= k ==> q == p
            &&& i < k && i == lit ==> q == vector::laid(p, (255, 165, 80), 255)
            &&& i < k && i != lit ==> q == vector::laid(p, (200, 215, 255), 90)
        }),
    decreases k,
{
    if k > 0 {
        lemma_dots(fb, lit, n, k - 1, i, x, y);
        let prev = gallery::dots_on(fb, lit, n, k - 1);
        let cx = 233 - (n - 1) * 11 + (k - 1) * 22;
        let r: int = if k - 1 == lit { 5 } else { 3 };
        let sh = if k - 1 == lit {
            vector::disc_shader(cx, 424, r, (255, 165, 80), 255)
        } else {
            vector::disc_shader(cx, 424, r, (200, 215, 255), 90)
        };
        raster::lemma_shade_len(prev, cx - r, 424 - r, cx + r + 1, 424 + r + 1, sh);
        raster::lemma_shade_px(prev, cx - r, 424 - r, cx + r + 1, 424 + r + 1, sh, x, y);
        let (dx, dy) = (x - dot_x(i, n), y - 424);
        assert(-2 <= dx <= 2 && -2 <= dy <= 2) by (nonlinear_arith)
            requires
                dx * dx + dy * dy <= 4,
        ;
        if i != k - 1 {
            let e = x - cx;
            assert(e >= 20 || e <= -20);
            assert(e * e + dy * dy > 25) by (nonlinear_arith)
                requires
                    e >= 20 || e <= -20,
            ;
        } else {
            assert(x - cx == dx);
        }
    }
}

/// A strip frame shows the strip off the dots and the status line.
pub proof fn lemma_frame_shows_strip(fb: Seq<u8>, a: AppAssets, s: int, status: Seq<u8>, x: int, y: int)
    requires
        raster::has_px(fb.len() as int, x, y),
        wheel_damage::font_fits(a.wheel.text@, 26, 15),
        crate::font::width_of(a.wheel.text@, status) <= 218,
        y < 419 || y > 429,
        !wheel_laws::in_status(x, y),
    ensures
        raster::px_at(gallery::gallery_on(fb, a, s, status), x, y) == raster::px_at(
            gallery::strip_on(fb, a.gallery@, s),
            x,
            y,
        ),
{
    let n = a.gallery@.len() as int;
    let fb1 = gallery::strip_on(fb, a.gallery@, s);
    raster::lemma_shade_len(fb, 0, 0, 466, 466, gallery::strip_shader(a.gallery@, s));
    lemma_off_dots(fb1, gallery::nearest_page(s, n), n, n, x, y);
    let fb2 = gallery::dots_on(fb1, gallery::nearest_page(s, n), n, n);
    wheel_damage::lemma_status_confined(fb2, a.wheel.text@, status, x, y);
}

proof fn lemma_off_dots(fb: Seq<u8>, lit: int, n: int, k: int, x: int, y: int)
    requires
        raster::has_px(fb.len() as int, x, y),
        0 <= k <= n,
        y < 419 || y > 429,
    ensures
        gallery::dots_on(fb, lit, n, k).len() == fb.len(),
        raster::px_at(gallery::dots_on(fb, lit, n, k), x, y) == raster::px_at(fb, x, y),
    decreases k,
{
    if k > 0 {
        lemma_off_dots(fb, lit, n, k - 1, x, y);
        let prev = gallery::dots_on(fb, lit, n, k - 1);
        let cx = 233 - (n - 1) * 11 + (k - 1) * 22;
        let r: int = if k - 1 == lit { 5 } else { 3 };
        let sh = if k - 1 == lit {
            vector::disc_shader(cx, 424, r, (255, 165, 80), 255)
        } else {
            vector::disc_shader(cx, 424, r, (200, 215, 255), 90)
        };
        raster::lemma_shade_len(prev, cx - r, 424 - r, cx + r + 1, 424 + r + 1, sh);
        raster::lemma_shade_px(prev, cx - r, 424 - r, cx + r + 1, 424 + r + 1, sh, x, y);
    }
}

/// A page fades evenly: never brighter than itself, darker with less, and pixel for pixel.
pub proof fn lemma_page_fades(fb: Seq<u8>, page: Seq<u8>, a: int, b: int, x: int, y: int)
    requires
        raster::has_px(fb.len() as int, x, y),
        raster::has_px(page.len() as int, x, y),
        0 <= a <= b <= 256,
    ensures
        ({
            let o = raster::px_at(page, x, y);
            let (p, q) = (
                raster::px_at(gallery::faded_page(fb, page, a), x, y),
                raster::px_at(gallery::faded_page(fb, page, b), x, y),
            );
            &&& pixel::as_bright(q, p)
            &&& pixel::as_bright(o, q)
            &&& a == 0 ==> p == (0u8, 0u8)
            &&& b == 256 ==> q == o
            &&& gallery::faded_page(fb, page, a).len() == fb.len()
        }),
{
    let o = raster::px_at(page, x, y);
    let i = raster::slot(x, y);
    raster::lemma_slot(x, y);
    assert(i % 2 == 0 && (i + 1) / 2 * 2 == i);
    assert(raster::px_at(gallery::faded_page(fb, page, a), x, y) == gallery::faded(o, a));
    assert(raster::px_at(gallery::faded_page(fb, page, b), x, y) == gallery::faded(o, b));
    gallery::lemma_fade_ends(o);
    pixel::lemma_channels(o);
    lemma_scaled(pixel::red(o), a, b);
    lemma_scaled(pixel::green(o), a, b);
    lemma_scaled(pixel::blue(o), a, b);
    pixel::lemma_rgb(pixel::red(o) * a / 256, pixel::green(o) * a / 256, pixel::blue(o) * a / 256);
    pixel::lemma_rgb(pixel::red(o) * b / 256, pixel::green(o) * b / 256, pixel::blue(o) * b / 256);
}

proof fn lemma_scaled(c: int, a: int, b: int)
    requires
        c >= 0,
        0 <= a <= b <= 256,
    ensures
        0 <= c * a / 256 <= c * b / 256 <= c,
{
    assert(0 <= c * a <= c * b && c * b <= c * 256) by (nonlinear_arith)
        requires
            c >= 0,
            0 <= a <= b <= 256,
    ;
}

/// The caption waits for 300 ms, then fades in over 300 ms and stays.
pub proof fn lemma_caption(s: int, t: int)
    requires
        s <= t,
    ensures
        0 <= gallery::caption_alpha(s) <= gallery::caption_alpha(t) <= 256,
        s <= 300 ==> gallery::caption_alpha(s) == 0,
        t >= 600 ==> gallery::caption_alpha(t) == 256,
        300 <= t <= 600 ==> gallery::caption_alpha(t) * 300 <= (t - 300) * 256 < (gallery::caption_alpha(t) + 1) * 300,
{
}

/// A band restored from a page shows the page there and keeps the rest.
pub proof fn lemma_band_restores(fb: Seq<u8>, page: Seq<u8>, y0: int, y1: int, x0: int, x1: int, x: int, y: int)
    requires
        raster::has_px(fb.len() as int, x, y),
    ensures
        raster::px_at(gallery::band_on(fb, page, y0, y1, x0, x1), x, y) == (if x0 <= x <= x1 && y0 <= y <= y1 {
            raster::px_at(page, x, y)
        } else {
            raster::px_at(fb, x, y)
        }),
{
    raster::lemma_shade_px(fb, x0, y0, x1 + 1, y1 + 1, gallery::page_shader(page), x, y);
}

/// A resting gallery shows the caption on its last page only, and leaves everything alone
/// while the minute stays and no page has just settled.
pub proof fn lemma_gallery_rests(
    f: Picture,
    a: AppAssets,
    w: int,
    h: int,
    page: int,
    settle_ms: Option<u32>,
    minute: u8,
    status: Seq<u8>,
)
    requires
        settle_ms is None || page + 1 != a.gallery@.len() || settle_ms->0 < 300 || settle_ms->0 >= 700,
    ensures
        gallery::gallery_rest(f, a, w, h, page, settle_ms, minute, minute, status) == f,
{
}

/// While the gallery opens, its page stands at once: off the logo, the title, the dots and the
/// status line a first frame shows the page, and a later one keeps what is there.
pub proof fn lemma_opening_shows_page(
    f: Picture,
    a: AppAssets,
    w: int,
    h: int,
    seeded: bool,
    page: int,
    icon_a: int,
    status: Seq<u8>,
    x: int,
    y: int,
)
    requires
        apps::assets_ok(a),
        a.wheel.apps@.len() >= 2,
        0 <= page < a.gallery@.len(),
        raster::has_px(f.fb.len() as int, x, y),
        wheel_damage::font_fits(a.wheel.text@, 26, 15),
        crate::font::width_of(a.wheel.text@, status) <= 218,
        y < 419 || y > 429,
        !wheel_laws::in_status(x, y),
        off_splash(a, x, y),
        seeded ==> !(167 <= x <= 299 && 144 <= y <= 276) && !(113 <= x <= 353 && 290 <= y <= 332),
    ensures
        raster::px_at(gallery::load_on(f, a, w, h, seeded, page, icon_a, 256, status).fb, x, y) == (if seeded {
            raster::px_at(f.fb, x, y)
        } else {
            raster::px_at(a.gallery@[page]@, x, y)
        }),
{
    let n = a.gallery@.len() as int;
    let art = gallery::page_at(a.gallery@, page);
    let base = if !seeded {
        gallery::dots_on(gallery::strip_on(f.fb, a.gallery@, page * 466), page, n, n)
    } else {
        gallery::band_on(
            gallery::band_on(gallery::band_on(f.fb, art, 144, 276, 167, 299), art, 290, 332, 113, 353),
            art,
            26,
            66,
            123,
            343,
        )
    };
    if seeded {
        let sh = gallery::page_shader(art);
        raster::lemma_shade_len(f.fb, 167, 144, 300, 277, sh);
        lemma_band_restores(f.fb, art, 144, 276, 167, 299, x, y);
        let f1 = gallery::band_on(f.fb, art, 144, 276, 167, 299);
        raster::lemma_shade_len(f1, 113, 290, 354, 333, sh);
        lemma_band_restores(f1, art, 290, 332, 113, 353, x, y);
        let f2 = gallery::band_on(f1, art, 290, 332, 113, 353);
        raster::lemma_shade_len(f2, 123, 26, 344, 67, sh);
        lemma_band_restores(f2, art, 26, 66, 123, 343, x, y);
    } else {
        raster::lemma_shade_len(f.fb, 0, 0, 466, 466, gallery::strip_shader(a.gallery@, page * 466));
        gallery::lemma_strip_rest(f.fb, a.gallery@, page, x, y);
        lemma_off_dots(gallery::strip_on(f.fb, a.gallery@, page * 466), page, n, n, x, y);
    }
    let ia = imath::sclamp(icon_a, 0, 256);
    lemma_off_splash(base, a, ia, x, y);
    let top = gallery::splash_on(base, a, ia);
    wheel_damage::lemma_status_confined(top, a.wheel.text@, status, x, y);
}

/// Neither the logo nor a character of the title reaches the pixel.
pub open spec fn off_splash(a: AppAssets, x: int, y: int) -> bool {
    let n = a.wheel.icon_x_px as int;
    let name = crate::font::codes_of(a.wheel.apps@[1].name@);
    &&& !(233 - n / 2 <= x < 233 - n / 2 + n && 210 - n / 2 <= y < 210 - n / 2 + n)
    &&& app_laws::title_only(a.wheel.text@, name, apps::title_left(a.wheel.text@, name), 322, -1, x, y)
}

proof fn lemma_off_splash(fb: Seq<u8>, a: AppAssets, icon_a: int, x: int, y: int)
    requires
        raster::has_px(fb.len() as int, x, y),
        off_splash(a, x, y),
    ensures
        gallery::splash_on(fb, a, icon_a).len() == fb.len(),
        raster::px_at(gallery::splash_on(fb, a, icon_a), x, y) == raster::px_at(fb, x, y),
{
    if icon_a > 8 {
        let app = a.wheel.apps@[1];
        let n = a.wheel.icon_x_px as int;
        let name = crate::font::codes_of(app.name@);
        let (ox, oy) = (233 - n / 2, 210 - n / 2);
        let sh = sprite::icon_shader(app.icon_x@, n, ox, oy, icon_a);
        raster::lemma_shade_len(fb, ox, oy, ox + n, oy + n, sh);
        raster::lemma_shade_px(fb, ox, oy, ox + n, oy + n, sh, x, y);
        let f1 = sprite::icon_on(fb, app.icon_x@, n, 233, 210, icon_a);
        app_laws::lemma_title_chars(
            f1,
            a.wheel.text@,
            name,
            name.len() as int,
            apps::title_left(a.wheel.text@, name),
            322,
            200 * icon_a / 256,
            -1,
            x,
            y,
        );
    }
}

/// The logo of an opening gallery is its own: a pixel of it, off the title, is laid over the
/// art.
pub proof fn lemma_splash_logo(fb: Seq<u8>, a: AppAssets, icon_a: int, x: int, y: int)
    requires
        raster::has_px(fb.len() as int, x, y),
        icon_a > 8,
        ({
            let n = a.wheel.icon_x_px as int;
            let name = crate::font::codes_of(a.wheel.apps@[1].name@);
            &&& 233 - n / 2 <= x < 233 - n / 2 + n && 210 - n / 2 <= y < 210 - n / 2 + n
            &&& app_laws::title_only(a.wheel.text@, name, apps::title_left(a.wheel.text@, name), 322, -1, x, y)
        }),
    ensures
        ({
            let n = a.wheel.icon_x_px as int;
            let t = a.wheel.apps@[1].icon_x@[(y - (210 - n / 2)) * n + (x - (233 - n / 2))] as int;
            let p = raster::px_at(fb, x, y);
            raster::px_at(gallery::splash_on(fb, a, icon_a), x, y) == (if t < 8 {
                p
            } else {
                sprite::tinted(p, t * icon_a / 256)
            })
        }),
{
    let app = a.wheel.apps@[1];
    let n = a.wheel.icon_x_px as int;
    let name = crate::font::codes_of(app.name@);
    let (ox, oy) = (233 - n / 2, 210 - n / 2);
    let sh = sprite::icon_shader(app.icon_x@, n, ox, oy, icon_a);
    raster::lemma_shade_len(fb, ox, oy, ox + n, oy + n, sh);
    raster::lemma_shade_px(fb, ox, oy, ox + n, oy + n, sh, x, y);
    let f1 = sprite::icon_on(fb, app.icon_x@, n, 233, 210, icon_a);
    app_laws::lemma_title_chars(
        f1,
        a.wheel.text@,
        name,
        name.len() as int,
        apps::title_left(a.wheel.text@, name),
        322,
        200 * icon_a / 256,
        -1,
        x,
        y,
    );
}

/// While the gallery closes, its page is seen faded, off the status line.
pub proof fn lemma_closing_fades_page(
    f: Picture,
    a: AppAssets,
    w: int,
    h: int,
    seeded: bool,
    page: int,
    icon_a: int,
    art_a: int,
    status: Seq<u8>,
    x: int,
    y: int,
)
    requires
        apps::assets_ok(a),
        0 <= page < a.gallery@.len(),
        0 <= art_a < 250,
        raster::has_px(f.fb.len() as int, x, y),
        wheel_damage::font_fits(a.wheel.text@, 26, 15),
        crate::font::width_of(a.wheel.text@, status) <= 218,
        !wheel_laws::in_status(x, y),
    ensures
        raster::px_at(gallery::load_on(f, a, w, h, seeded, page, icon_a, art_a, status).fb, x, y) == gallery::faded(
            raster::px_at(a.gallery@[page]@, x, y),
            art_a,
        ),
{
    let art = gallery::page_at(a.gallery@, page);
    let f1 = gallery::faded_page(f.fb, art, art_a);
    let i = raster::slot(x, y);
    raster::lemma_slot(x, y);
    assert(a.gallery@[page]@.len() >= 434_312);
    assert(i % 2 == 0 && (i + 1) / 2 * 2 == i);
    wheel_damage::lemma_status_confined(f1, a.wheel.text@, status, x, y);
}

/// The caption is laid over the page it stands on, where one of its characters alone covers.
pub proof fn lemma_caption_is_shown(
    f: Picture,
    a: AppAssets,
    w: int,
    h: int,
    page: int,
    alpha: int,
    k: int,
    x: int,
    y: int,
)
    requires
        raster::has_px(f.fb.len() as int, x, y),
        ({
            let cw = gallery::caption_width(a.wheel.text@);
            &&& 233 - cw / 2 - 4 <= x <= 233 + cw / 2 + 4
            &&& 364 <= y <= 406
            &&& wheel_laws::scaled_only(
                a.wheel.text@,
                gallery::caption_codes(),
                233 - cw / 2,
                396,
                160,
                false,
                k,
                x,
                y,
            )
        }),
    ensures
        ({
            let cw = gallery::caption_width(a.wheel.text@);
            let c = wheel_laws::scaled_coverage(
                a.wheel.text@,
                gallery::caption_codes(),
                233 - cw / 2,
                396,
                160,
                false,
                k,
                x,
                y,
            );
            raster::px_at(gallery::captioned(f, a, w, h, page, alpha).fb, x, y) == sprite::tinted(
                raster::px_at(gallery::page_at(a.gallery@, page), x, y),
                c * (170 * alpha / 256) / 256,
            )
        }),
{
    let cw = gallery::caption_width(a.wheel.text@);
    let art = gallery::page_at(a.gallery@, page);
    let (x0, x1) = (233 - cw / 2 - 4, 233 + cw / 2 + 4);
    raster::lemma_shade_len(f.fb, x0, 364, x1 + 1, 407, gallery::page_shader(art));
    lemma_band_restores(f.fb, art, 364, 406, x0, x1, x, y);
    let f1 = gallery::band_on(f.fb, art, 364, 406, x0, x1);
    wheel_laws::lemma_scaled_text(
        f1,
        a.wheel.text@,
        gallery::caption_codes(),
        233 - cw / 2,
        396,
        170 * alpha / 256,
        160,
        false,
        k,
        x,
        y,
    );
}

} // verus!
