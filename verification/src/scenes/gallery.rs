//! The gallery: full-frame pages side by side on a strip, page dots, and a caption that
//! fades in under the last page.
use vstd::prelude::*;

use crate::display::watch_fb;
use crate::display::watch_fb::WatchFb;
use crate::font;
use crate::font::Glyph;
use crate::imath;
use crate::pixel;
use crate::raster;
use crate::scenes::apps;
use crate::scenes::apps::AppAssets;
use crate::scenes::picture::Picture;
use crate::scenes::sprite;
use crate::scenes::vector;
use crate::scenes::vector::Tint;
use crate::scenes::wheel;
use crate::scenes::wheel::WheelFx;
use crate::time::WallTime;

verus! {

pub const CAP_SCALE_Q8: i32 = 160;
pub const CAP_BASE_Y: i32 = 396;
pub const DOTS_Y: i32 = 424;
pub const AMBER: Tint = (255, 165, 80);
pub const ICE: Tint = (200, 215, 255);

/// There is a page, and every page is a full frame.
pub open spec fn pages_ok(pages: Seq<&'static [u8]>) -> bool {
    &&& 1 <= pages.len() <= 1000
    &&& forall|i: int| 0 <= i < pages.len() ==> (#[trigger] pages[i])@.len() >= 434_312
}

/// Pixel in column `col` of the strip: page `i` covers columns `466 i` to `466 i + 465`, and
/// beyond the ends the strip is black.
pub open spec fn strip_px(pages: Seq<&'static [u8]>, col: int, y: int) -> (u8, u8) {
    if 0 <= col / 466 < pages.len() {
        raster::px_at(pages[col / 466]@, col % 466, y)
    } else {
        (0u8, 0u8)
    }
}

pub open spec fn strip_shader(pages: Seq<&'static [u8]>, s: int) -> raster::Shader {
    |x: int, y: int, p: (u8, u8)| strip_px(pages, s + x, y)
}

/// The canvas filled with the strip from column `s` on.
pub open spec fn strip_on(fb: Seq<u8>, pages: Seq<&'static [u8]>, s: int) -> Seq<u8> {
    raster::shade(fb, 0, 0, 466, 466, strip_shader(pages, s))
}

/// Quotient and remainder by 466, rounded down.
fn page_of(col: i32) -> (r: (i32, i32))
    requires
        -0x2000_0000 <= col <= 0x2000_0000,
    ensures
        r.0 == col as int / 466,
        r.1 == col as int % 466,
{
    let c: i32 = col + 466 * 2_000_000;
    (c / 466 - 2_000_000, c % 466)
}

fn page_px(page: &[u8], x: i32, y: i32) -> (p: (u8, u8))
    requires
        page@.len() >= 434_312,
        0 <= x < 466,
        0 <= y < 466,
    ensures
        p == raster::px_at(page@, x as int, y as int),
{
    raster::get_px(page, x, y)
}

fn draw_strip(fb: &mut [u8], pages: &[&'static [u8]], s: i32)
    requires
        pages_ok(pages@),
        -0x1000_0000 <= s <= 0x1000_0000,
    ensures
        final(fb)@ == strip_on(old(fb)@, pages@, s as int),
        final(fb)@.len() == old(fb)@.len(),
{
    let n: i32 = pages.len() as i32;
    let ghost sh = strip_shader(pages@, s as int);
    let f = |x: i32, y: i32, p: (u8, u8)| -> (q: (u8, u8))
        requires
            0 <= x < 466,
            0 <= y < 466,
        ensures
            q == sh(x as int, y as int, p),
        {
            let (pg, col) = page_of(s + x);
            if pg < 0 || pg >= n {
                (0, 0)
            } else {
                page_px(pages[pg as usize], col, y)
            }
        };
    raster::paint(fb, 0, 0, 466, 466, f, Ghost(sh));
}

/// The first `k` of `n` page dots: the lit one large and amber, the others ghosted.
pub open spec fn dots_on(fb: Seq<u8>, lit: int, n: int, k: int) -> Seq<u8>
    decreases k,
{
    if k <= 0 {
        fb
    } else {
        let prev = dots_on(fb, lit, n, k - 1);
        let cx = 233 - (n - 1) * 11 + (k - 1) * 22;
        if k - 1 == lit {
            vector::disc_on(prev, cx, 424, 5, AMBER, 255)
        } else {
            vector::disc_on(prev, cx, 424, 3, ICE, 90)
        }
    }
}

fn draw_dots(fb: &mut [u8], lit: i32, n: i32)
    requires
        0 <= n <= 1000,
    ensures
        final(fb)@ == dots_on(old(fb)@, lit as int, n as int, n as int),
{
    let x_start: i32 = 233 - (n - 1) * 11;
    let mut i: i32 = 0;
    while i < n
        invariant
            0 <= i <= n <= 1000,
            x_start == 233 - (n - 1) * 11,
            fb@ == dots_on(old(fb)@, lit as int, n as int, i as int),
        decreases n - i,
    {
        let cx: i32 = x_start + i * 22;
        if i == lit {
            vector::disc(fb, cx, DOTS_Y, 5, AMBER, 255);
        } else {
            vector::disc(fb, cx, DOTS_Y, 3, ICE, 90);
        }
        i = i + 1;
    }
}

/// The page nearest to the strip's position.
pub open spec fn nearest_page(s: int, n: int) -> int {
    imath::sclamp((s + 233) / 466, 0, n - 1)
}

/// The canvas of a strip frame: pages, dots, status line.
pub open spec fn gallery_on(fb: Seq<u8>, a: AppAssets, s: int, status: Seq<u8>) -> Seq<u8> {
    let n = a.gallery@.len() as int;
    wheel::status_on(dots_on(strip_on(fb, a.gallery@, s), nearest_page(s, n), n, n), a.wheel.text@, status)
}

/// One full frame of the strip at column `s_px`.
pub fn draw_gallery_frame(wfb: &mut WatchFb, assets: &AppAssets, s_px: i32, now: &WallTime, batt: Option<u8>)
    requires
        old(wfb).wf(),
        apps::assets_ok(*assets),
        -0x800_0000 <= s_px <= 0x800_0000,
    ensures
        final(wfb).wf(),
        final(wfb).w() == old(wfb).w(),
        final(wfb).h() == old(wfb).h(),
        final(wfb).canvas() == gallery_on(
            old(wfb).canvas(),
            *assets,
            s_px as int,
            wheel::status_codes(now.hour, now.minute, batt),
        ),
        final(wfb).damage() == watch_fb::marked(old(wfb).damage(), old(wfb).w(), old(wfb).h(), 0, 0, 465, 465),
{
    let n: i32 = assets.gallery.len() as i32;
    let fb = wfb.buf_mut();
    draw_strip(fb, assets.gallery, s_px);
    let (pg, _col) = page_of(s_px + 233);
    draw_dots(fb, imath::iclamp(pg, 0, n - 1), n);
    wheel::draw_status(fb, now, batt, assets.wheel.text);
    wfb.mark_rect(0, 0, 465, 465);
}

/// A page pixel scaled by `a` 256ths.
pub open spec fn faded(p: (u8, u8), a: int) -> (u8, u8) {
    pixel::rgb(pixel::red(p) * a / 256, pixel::green(p) * a / 256, pixel::blue(p) * a / 256)
}

/// The canvas after a page faded to `a` 256ths, as far as both reach.
pub open spec fn faded_page(fb: Seq<u8>, page: Seq<u8>, a: int) -> Seq<u8> {
    let n = imath::smin(fb.len() as int, page.len() as int);
    Seq::new(
        fb.len(),
        |i: int|
            if i < n / 2 * 2 {
                let p = faded((page[i / 2 * 2], page[i / 2 * 2 + 1]), a);
                if i % 2 == 0 { p.0 } else { p.1 }
            } else {
                fb[i]
            },
    )
}

fn fade_px(p: (u8, u8), a: i32) -> (q: (u8, u8))
    requires
        0 <= a <= 256,
    ensures
        q == faded(p, a as int),
{
    let (r, g, b) = pixel::channels(p);
    proof {
        assert(0 <= r * a <= r * 256) by (nonlinear_arith)
            requires
                0 <= r,
                0 <= a <= 256,
        ;
        assert(0 <= g * a <= g * 256) by (nonlinear_arith)
            requires
                0 <= g,
                0 <= a <= 256,
        ;
        assert(0 <= b * a <= b * 256) by (nonlinear_arith)
            requires
                0 <= b,
                0 <= a <= 256,
        ;
    }
    pixel::pack(r * a / 256, g * a / 256, b * a / 256)
}

fn fade_page(fb: &mut [u8], src: &[u8], a: i32)
    requires
        0 <= a <= 256,
    ensures
        final(fb)@ == faded_page(old(fb)@, src@, a as int),
{
    let n: usize = if fb.len() < src.len() { fb.len() } else { src.len() };
    let mut k: usize = 0;
    while k < n / 2
        invariant
            k <= n / 2,
            n == imath::smin(fb@.len() as int, src@.len() as int),
            fb@.len() == old(fb)@.len(),
            0 <= a <= 256,
            forall|i: int| 0 <= i < 2 * k ==> fb@[i] == faded_page(old(fb)@, src@, a as int)[i],
            forall|i: int| 2 * k <= i < fb@.len() ==> fb@[i] == old(fb)@[i],
        decreases n / 2 - k,
    {
        let q = fade_px((src[2 * k], src[2 * k + 1]), a);
        fb[2 * k] = q.0;
        fb[2 * k + 1] = q.1;
        k = k + 1;
    }
    assert(fb@ =~= faded_page(old(fb)@, src@, a as int));
}

/// The pixels of a page.
pub open spec fn page_shader(page: Seq<u8>) -> raster::Shader {
    |x: int, y: int, p: (u8, u8)| raster::px_at(page, x, y)
}

/// The canvas after an inclusive rectangle was restored from a page.
pub open spec fn band_on(fb: Seq<u8>, page: Seq<u8>, y0: int, y1: int, x0: int, x1: int) -> Seq<u8> {
    raster::shade(fb, x0, y0, x1 + 1, y1 + 1, page_shader(page))
}

fn blit_band(fb: &mut [u8], page: &[u8], y0: i32, y1: i32, x0: i32, x1: i32)
    requires
        page@.len() >= 434_312,
        x1 < i32::MAX,
        y1 < i32::MAX,
    ensures
        final(fb)@ == band_on(old(fb)@, page@, y0 as int, y1 as int, x0 as int, x1 as int),
{
    let ghost sh = page_shader(page@);
    let f = |x: i32, y: i32, p: (u8, u8)| -> (q: (u8, u8))
        requires
            0 <= x < 466,
            0 <= y < 466,
        ensures
            q == sh(x as int, y as int, p),
        { page_px(page, x, y) };
    raster::paint(fb, x0, y0, x1 + 1, y1 + 1, f, Ghost(sh));
}

/// The page of an index, the last one beyond the end.
pub open spec fn page_at(pages: Seq<&'static [u8]>, page: int) -> Seq<u8> {
    pages[imath::smin(page, pages.len() - 1)]@
}

fn page_slice(pages: &[&'static [u8]], page: usize) -> (r: &'static [u8])
    requires
        pages_ok(pages@),
    ensures
        r@ == page_at(pages@, page as int),
        r@.len() >= 434_312,
{
    let i: usize = if page < pages.len() { page } else { pages.len() - 1 };
    pages[i]
}

/// The gallery's icon and title over the art, once they are visible.
pub open spec fn splash_on(fb: Seq<u8>, a: AppAssets, icon_a: int) -> Seq<u8> {
    if icon_a > 8 {
        let app = a.wheel.apps@[1];
        let name = font::codes_of(app.name@);
        apps::title_on(
            sprite::icon_on(fb, app.icon_x@, a.wheel.icon_x_px as int, 233, 210, icon_a),
            a.wheel.text@,
            name,
            apps::title_left(a.wheel.text@, name),
            322,
            200 * icon_a / 256,
        )
    } else {
        fb
    }
}

/// A load frame: closing, the page fades under the status line; opening, the page stands at
/// once (or only its touched bands are restored) under the fading icon and title.
pub open spec fn load_on(
    f: Picture,
    a: AppAssets,
    w: int,
    h: int,
    seeded: bool,
    page: int,
    icon_a: int,
    art_a: int,
    status: Seq<u8>,
) -> Picture {
    let n = a.gallery@.len() as int;
    let art = page_at(a.gallery@, page);
    if art_a < 250 {
        Picture {
            fb: wheel::status_on(faded_page(f.fb, art, imath::smax(art_a, 0)), a.wheel.text@, status),
            rects: f.rects,
            damage: watch_fb::marked(f.damage, w, h, 0, 0, 465, 465),
        }
    } else {
        let base = if !seeded {
            dots_on(strip_on(f.fb, a.gallery@, page * 466), page, n, n)
        } else {
            band_on(
                band_on(band_on(f.fb, art, 144, 276, 167, 299), art, 290, 332, 113, 353),
                art,
                26,
                66,
                123,
                343,
            )
        };
        let fb = wheel::status_on(splash_on(base, a, imath::sclamp(icon_a, 0, 256)), a.wheel.text@, status);
        Picture {
            fb,
            rects: f.rects,
            damage: if !seeded {
                watch_fb::marked(f.damage, w, h, 0, 0, 465, 465)
            } else {
                watch_fb::marked(
                    watch_fb::marked(watch_fb::marked(f.damage, w, h, 167, 144, 299, 276), w, h, 113, 290, 353, 332),
                    w,
                    h,
                    123,
                    26,
                    343,
                    66,
                )
            },
        }
    }
}

fn draw_splash(fb: &mut [u8], assets: &AppAssets, ia: i32)
    requires
        apps::assets_ok(*assets),
        assets.wheel.apps@.len() > 1,
        0 <= ia <= 256,
    ensures
        final(fb)@ == splash_on(old(fb)@, *assets, ia as int),
{
    if ia > 8 {
        proof {
            assert(wheel::app_ok(assets.wheel, assets.wheel.apps@[1]));
        }
        let app = assets.wheel.apps[1];
        let name = font::codes(app.name);
        sprite::blit_icon(fb, app.icon_x, assets.wheel.icon_x_px, 233, wheel::SPLASH_ICON_Y, ia);
        let (tx, _tw) = apps::title_metrics(name.as_slice(), assets.wheel.text);
        apps::draw_title(
            fb,
            name.as_slice(),
            tx,
            wheel::SPLASH_TITLE_BASE_Y,
            imath::asr(200 * ia, 8),
            assets.wheel.text,
        );
    }
}

/// Morph frame over the art: `icon_a` is the alpha of the splash, `art_a` that of the page.
pub fn draw_gallery_load(
    wfb: &mut WatchFb,
    fx: &mut WheelFx,
    assets: &AppAssets,
    now: &WallTime,
    batt: Option<u8>,
    page: usize,
    icon_a: i32,
    art_a: i32,
)
    requires
        old(wfb).wf(),
        old(fx).wf(),
        apps::assets_ok(*assets),
        assets.wheel.apps@.len() > 1,
        page < 0x1_0000,
        art_a <= 0x1000_0000,
    ensures
        final(wfb).wf(),
        final(fx).wf(),
        final(fx).is_seeded(),
        final(fx).intro_frame() == old(fx).intro_frame(),
        final(wfb).w() == old(wfb).w(),
        final(wfb).h() == old(wfb).h(),
        (Picture { fb: final(wfb).canvas(), rects: final(fx).content(), damage: final(wfb).damage() }) == load_on(
            (Picture { fb: old(wfb).canvas(), rects: old(fx).content(), damage: old(wfb).damage() }),
            *assets,
            old(wfb).w(),
            old(wfb).h(),
            old(fx).is_seeded(),
            page as int,
            icon_a as int,
            art_a as int,
            wheel::status_codes(now.hour, now.minute, batt),
        ),
{
    let n: i32 = assets.gallery.len() as i32;
    let art = page_slice(assets.gallery, page);
    let seed = fx.take_seed();
    if art_a < 250 {
        let fb = wfb.buf_mut();
        fade_page(fb, art, imath::imax(art_a, 0));
        wheel::draw_status(fb, now, batt, assets.wheel.text);
        wfb.mark_rect(0, 0, 465, 465);
        return;
    }
    let ia: i32 = imath::iclamp(icon_a, 0, 256);
    let fb = wfb.buf_mut();
    if seed {
        draw_strip(fb, assets.gallery, page as i32 * 466);
        draw_dots(fb, page as i32, n);
    } else {
        blit_band(fb, art, 144, 276, 167, 299);
        blit_band(fb, art, 290, 332, 113, 353);
        blit_band(fb, art, 26, 66, 123, 343);
    }
    draw_splash(fb, assets, ia);
    wheel::draw_status(fb, now, batt, assets.wheel.text);
    if seed {
        wfb.mark_rect(0, 0, 465, 465);
    } else {
        wfb.mark_rect(167, 144, 299, 276);
        wfb.mark_rect(113, 290, 353, 332);
        wfb.mark_rect(123, 26, 343, 66);
    }
}

/// Codes of the caption.
pub open spec fn caption_codes() -> Seq<u8> {
    seq![83u8, 69, 69, 32, 89, 79, 85, 32, 83, 80, 65, 67, 69, 32, 67, 79, 87, 66, 79, 89, 46, 46, 46]
}

fn caption() -> (v: Vec<u8>)
    ensures
        v@ == caption_codes(),
{
    let v: Vec<u8> = vec![83, 69, 69, 32, 89, 79, 85, 32, 83, 80, 65, 67, 69, 32, 67, 79, 87, 66, 79, 89, 46, 46, 46];
    assert(v@ =~= caption_codes());
    v
}

/// Opacity of the caption `ms` after the last page settled; it fades in from 300 ms on.
pub open spec fn caption_alpha(ms: int) -> int {
    imath::sclamp((ms - 300) * 256 / 300, 0, 256)
}

/// Width of the caption.
pub open spec fn caption_width(text: Seq<Option<Glyph>>) -> int {
    font::width_of(text, caption_codes()) * 160 / 256
}

/// Canvas and damage after the caption at opacity `a`, on a restored band.
pub open spec fn captioned(f: Picture, a: AppAssets, w: int, h: int, page: int, alpha: int) -> Picture {
    let cw = caption_width(a.wheel.text@);
    let (x0, x1) = (233 - cw / 2 - 4, 233 + cw / 2 + 4);
    Picture {
        fb: sprite::scaled_text_on(
            band_on(f.fb, page_at(a.gallery@, page), 364, 406, x0, x1),
            a.wheel.text@,
            caption_codes(),
            233 - cw / 2,
            396,
            170 * alpha / 256,
            160,
            false,
        ),
        rects: f.rects,
        damage: watch_fb::marked(f.damage, w, h, x0, 364, x1, 406),
    }
}

/// The resting gallery: the status line when the minute changed, the caption while it fades
/// in on the last page.
pub open spec fn gallery_rest(
    f: Picture,
    a: AppAssets,
    w: int,
    h: int,
    page: int,
    settle_ms: Option<u32>,
    shown: u8,
    minute: u8,
    status: Seq<u8>,
) -> Picture {
    let f1 = if shown != minute {
        Picture {
            fb: wheel::status_on(
                band_on(f.fb, page_at(a.gallery@, page), 26, 66, 123, 343),
                a.wheel.text@,
                status,
            ),
            rects: f.rects,
            damage: watch_fb::marked(f.damage, w, h, 123, 26, 343, 66),
        }
    } else {
        f
    };
    match settle_ms {
        Some(ms) => if page + 1 == a.gallery@.len() && 300 <= ms < 700 {
            captioned(f1, a, w, h, page, caption_alpha(ms as int))
        } else {
            f1
        },
        None => f1,
    }
}

fn draw_caption(wfb: &mut WatchFb, assets: &AppAssets, page: usize, a: i32)
    requires
        old(wfb).wf(),
        apps::assets_ok(*assets),
        0 <= a <= 256,
    ensures
        final(wfb).wf(),
        final(wfb).w() == old(wfb).w(),
        final(wfb).h() == old(wfb).h(),
        ({
            let f = captioned(
                (Picture { fb: old(wfb).canvas(), rects: Seq::empty(), damage: old(wfb).damage() }),
                *assets,
                old(wfb).w(),
                old(wfb).h(),
                page as int,
                a as int,
            );
            final(wfb).canvas() == f.fb && final(wfb).damage() == f.damage
        }),
{
    let s = caption();
    let full: i32 = font::codes_width(s.as_slice(), assets.wheel.text);
    let cw: i32 = imath::asr(full * CAP_SCALE_Q8, 8);
    let art = page_slice(assets.gallery, page);
    let (x0, x1): (i32, i32) = (233 - cw / 2 - 4, 233 + cw / 2 + 4);
    let fb = wfb.buf_mut();
    blit_band(fb, art, CAP_BASE_Y - 32, CAP_BASE_Y + 10, x0, x1);
    sprite::draw_codes_scaled(
        fb,
        s.as_slice(),
        233 - cw / 2,
        CAP_BASE_Y,
        imath::asr(170 * a, 8),
        assets.wheel.text,
        CAP_SCALE_Q8,
        false,
    );
    wfb.mark_rect(x0, CAP_BASE_Y - 32, x1, CAP_BASE_Y + 10);
}

/// Upkeep of the resting gallery.
pub fn gallery_tick(
    wfb: &mut WatchFb,
    assets: &AppAssets,
    now: &WallTime,
    batt: Option<u8>,
    page: usize,
    settle_ms: Option<u32>,
    status_minute: &mut u8,
)
    requires
        old(wfb).wf(),
        apps::assets_ok(*assets),
        page < usize::MAX,
    ensures
        final(wfb).wf(),
        final(wfb).w() == old(wfb).w(),
        final(wfb).h() == old(wfb).h(),
        *final(status_minute) == now.minute,
        ({
            let f = gallery_rest(
                (Picture { fb: old(wfb).canvas(), rects: Seq::empty(), damage: old(wfb).damage() }),
                *assets,
                old(wfb).w(),
                old(wfb).h(),
                page as int,
                settle_ms,
                *old(status_minute),
                now.minute,
                wheel::status_codes(now.hour, now.minute, batt),
            );
            final(wfb).canvas() == f.fb && final(wfb).damage() == f.damage
        }),
{
    if *status_minute != now.minute {
        *status_minute = now.minute;
        let art = page_slice(assets.gallery, page);
        let fb = wfb.buf_mut();
        blit_band(fb, art, 26, 66, 123, 343);
        wheel::draw_status(fb, now, batt, assets.wheel.text);
        wfb.mark_rect(123, 26, 343, 66);
    }
    if page + 1 == assets.gallery.len() {
        if let Some(ms) = settle_ms {
            if 300 <= ms && ms < 700 {
                draw_caption(wfb, assets, page, imath::iclamp((ms as i32 - 300) * 256 / 300, 0, 256));
            }
        }
    }
}

/// A strip at rest on page `i` shows exactly that page.
pub proof fn lemma_strip_rest(fb: Seq<u8>, pages: Seq<&'static [u8]>, i: int, x: int, y: int)
    requires
        pages_ok(pages),
        0 <= i < pages.len(),
        raster::has_px(fb.len() as int, x, y),
    ensures
        raster::px_at(strip_on(fb, pages, i * 466), x, y) == raster::px_at(pages[i]@, x, y),
        nearest_page(i * 466, pages.len() as int) == i,
{
    raster::lemma_shade_px(fb, 0, 0, 466, 466, strip_shader(pages, i * 466), x, y);
    assert((i * 466 + x) / 466 == i && (i * 466 + x) % 466 == x);
}

/// A full fade shows nothing, no fade the page itself.
pub proof fn lemma_fade_ends(p: (u8, u8))
    ensures
        faded(p, 0) == (0u8, 0u8),
        faded(p, 256) == p,
{
    pixel::lemma_channels(p);
    assert(faded(p, 0) == pixel::rgb(0, 0, 0));
    reveal(pixel::rgb);
}

} // verus!
