//! The RGB565 canvas: a byte buffer read as big-endian 16-bit pixels of a
//! 466 x 466 panel, and what it means to repaint a rectangle of it.
//!
//! Drawing is described by *shaders*: functions from a pixel's position and its
//! old value to its new value. `shade` applies one to every pixel of a rectangle
//! that lies on the panel and inside the buffer, and leaves every other byte alone.
use vstd::prelude::*;

use crate::imath;

verus! {

/// Panel width in pixels.
pub const W: i32 = 466;
/// Panel height in pixels.
pub const H: i32 = 466;
/// Bytes of one full frame.
pub const FB_BYTES: usize = 434_312;

/// Byte offset of the pixel at `(x, y)`.
pub open spec fn slot(x: int, y: int) -> int {
    (y * 466 + x) * 2
}

/// `(x, y)` lies on the panel and both its bytes lie inside a buffer of `len` bytes.
pub open spec fn has_px(len: int, x: int, y: int) -> bool {
    0 <= x < 466 && 0 <= y < 466 && slot(x, y) + 1 < len
}

/// The two bytes of the pixel at `(x, y)`.
pub open spec fn px_at(fb: Seq<u8>, x: int, y: int) -> (u8, u8) {
    (fb[slot(x, y)], fb[slot(x, y) + 1])
}

/// The buffer with one pixel replaced; unchanged where there is no such pixel.
pub open spec fn put_px(fb: Seq<u8>, x: int, y: int, p: (u8, u8)) -> Seq<u8> {
    if has_px(fb.len() as int, x, y) {
        fb.update(slot(x, y), p.0).update(slot(x, y) + 1, p.1)
    } else {
        fb
    }
}

/// Position and old pixel to new pixel.
pub type Shader = spec_fn(int, int, (u8, u8)) -> (u8, u8);

/// Byte `i` of the buffer after `sh` was applied to `[x0, x1) x [y0, y1)`.
pub open spec fn shaded_byte(fb: Seq<u8>, x0: int, y0: int, x1: int, y1: int, sh: Shader, i: int) -> u8 {
    let x = (i / 2) % 466;
    let y = (i / 2) / 466;
    if x0 <= x < x1 && y0 <= y < y1 && has_px(fb.len() as int, x, y) {
        let p = sh(x, y, px_at(fb, x, y));
        if i % 2 == 0 { p.0 } else { p.1 }
    } else {
        fb[i]
    }
}

/// The buffer after `sh` was applied to every pixel of `[x0, x1) x [y0, y1)`.
#[verifier::opaque]
pub open spec fn shade(fb: Seq<u8>, x0: int, y0: int, x1: int, y1: int, sh: Shader) -> Seq<u8> {
    Seq::new(fb.len(), |i: int| shaded_byte(fb, x0, y0, x1, y1, sh, i))
}

/// `shade` in progress, row by row: rows `y0 .. y` are done, and row `y` up to column `x`.
pub open spec fn scan(fb: Seq<u8>, x0: int, y0: int, x1: int, y: int, x: int, sh: Shader) -> Seq<u8> {
    shade(shade(fb, x0, y0, x1, y, sh), x0, y, x, y + 1, sh)
}

/// Pixel slots decode uniquely.
pub proof fn lemma_slot(x: int, y: int)
    requires
        0 <= x < 466,
        0 <= y,
    ensures
        (slot(x, y) / 2) % 466 == x,
        (slot(x, y) / 2) / 466 == y,
        ((slot(x, y) + 1) / 2) % 466 == x,
        ((slot(x, y) + 1) / 2) / 466 == y,
        slot(x, y) % 2 == 0,
        (slot(x, y) + 1) % 2 == 1,
        slot(x, y) >= 0,
{
}

/// `shade` keeps the length of the buffer.
pub broadcast proof fn lemma_shade_len(fb: Seq<u8>, x0: int, y0: int, x1: int, y1: int, sh: Shader)
    ensures
        (#[trigger] shade(fb, x0, y0, x1, y1, sh)).len() == fb.len(),
{
    reveal(shade);
}

/// What one pixel is after `shade`: the shader's value inside the rectangle, the old
/// value outside.
pub proof fn lemma_shade_px(fb: Seq<u8>, x0: int, y0: int, x1: int, y1: int, sh: Shader, x: int, y: int)
    requires
        has_px(fb.len() as int, x, y),
    ensures
        px_at(shade(fb, x0, y0, x1, y1, sh), x, y) == (if x0 <= x < x1 && y0 <= y < y1 {
            sh(x, y, px_at(fb, x, y))
        } else {
            px_at(fb, x, y)
        }),
{
    reveal(shade);
    lemma_slot(x, y);
}

/// An empty rectangle, or one off the panel, changes nothing.
pub proof fn lemma_shade_none(fb: Seq<u8>, x0: int, y0: int, x1: int, y1: int, sh: Shader)
    requires
        x1 <= x0 || y1 <= y0 || x1 <= 0 || 466 <= x0 || y1 <= 0 || 466 <= y0,
    ensures
        shade(fb, x0, y0, x1, y1, sh) == fb,
{
    reveal(shade);
    assert(shade(fb, x0, y0, x1, y1, sh) =~= fb);
}

/// Shaders that agree on the rectangle draw the same.
pub proof fn lemma_shade_agree(fb: Seq<u8>, x0: int, y0: int, x1: int, y1: int, sh: Shader, other: Shader)
    requires
        forall|x: int, y: int, p: (u8, u8)|
            x0 <= x < x1 && y0 <= y < y1 && 0 <= x < 466 && 0 <= y < 466 ==> #[trigger] sh(x, y, p) == other(x, y, p),
    ensures
        shade(fb, x0, y0, x1, y1, sh) == shade(fb, x0, y0, x1, y1, other),
{
    reveal(shade);
    let (a, b) = (shade(fb, x0, y0, x1, y1, sh), shade(fb, x0, y0, x1, y1, other));
    assert forall|i: int| 0 <= i < fb.len() implies a[i] == b[i] by {
        let x = (i / 2) % 466;
        let y = (i / 2) / 466;
        if x0 <= x < x1 && y0 <= y < y1 && has_px(fb.len() as int, x, y) {
            assert(sh(x, y, px_at(fb, x, y)) == other(x, y, px_at(fb, x, y)));
        }
    }
    assert(a =~= b);
}

/// A shader that keeps every pixel of the rectangle changes nothing.
pub proof fn lemma_shade_identity(fb: Seq<u8>, x0: int, y0: int, x1: int, y1: int, sh: Shader)
    requires
        forall|x: int, y: int, p: (u8, u8)|
            x0 <= x < x1 && y0 <= y < y1 && 0 <= x < 466 && 0 <= y < 466 ==> #[trigger] sh(x, y, p) == p,
    ensures
        shade(fb, x0, y0, x1, y1, sh) == fb,
{
    reveal(shade);
    let r = shade(fb, x0, y0, x1, y1, sh);
    assert forall|i: int| 0 <= i < fb.len() implies r[i] == fb[i] by {
        let x = (i / 2) % 466;
        let y = (i / 2) / 466;
        if x0 <= x < x1 && y0 <= y < y1 && has_px(fb.len() as int, x, y) {
            assert(sh(x, y, px_at(fb, x, y)) == px_at(fb, x, y));
            lemma_slot(x, y);
            assert(i == slot(x, y) || i == slot(x, y) + 1);
        }
    }
    assert(r =~= fb);
}

/// Applying a shader again, where that changes no pixel, changes nothing.
pub proof fn lemma_shade_twice(fb: Seq<u8>, x0: int, y0: int, x1: int, y1: int, sh: Shader)
    requires
        forall|x: int, y: int, p: (u8, u8)| #[trigger] sh(x, y, sh(x, y, p)) == sh(x, y, p),
    ensures
        shade(shade(fb, x0, y0, x1, y1, sh), x0, y0, x1, y1, sh) == shade(fb, x0, y0, x1, y1, sh),
{
    let a = shade(fb, x0, y0, x1, y1, sh);
    let b = shade(a, x0, y0, x1, y1, sh);
    lemma_shade_len(fb, x0, y0, x1, y1, sh);
    assert forall|i: int| 0 <= i < a.len() implies b[i] == a[i] by {
        let x = (i / 2) % 466;
        let y = (i / 2) / 466;
        if has_px(fb.len() as int, x, y) {
            lemma_slot(x, y);
            lemma_shade_px(fb, x0, y0, x1, y1, sh, x, y);
            lemma_shade_px(a, x0, y0, x1, y1, sh, x, y);
            assert(sh(x, y, sh(x, y, px_at(fb, x, y))) == sh(x, y, px_at(fb, x, y)));
            assert(i == slot(x, y) || i == slot(x, y) + 1);
        } else {
            reveal(shade);
        }
    }
    lemma_shade_len(a, x0, y0, x1, y1, sh);
    assert(b =~= a);
}

/// Only the part of the rectangle on the panel matters.
pub proof fn lemma_shade_clip(fb: Seq<u8>, x0: int, y0: int, x1: int, y1: int, sh: Shader)
    ensures
        shade(fb, x0, y0, x1, y1, sh) == shade(
            fb,
            imath::smax(x0, 0),
            imath::smax(y0, 0),
            imath::smin(x1, 466),
            imath::smin(y1, 466),
            sh,
        ),
{
    reveal(shade);
    assert(shade(fb, x0, y0, x1, y1, sh) =~= shade(
        fb,
        imath::smax(x0, 0),
        imath::smax(y0, 0),
        imath::smin(x1, 466),
        imath::smin(y1, 466),
        sh,
    ));
}

pub proof fn lemma_scan_start(fb: Seq<u8>, x0: int, y0: int, x1: int, sh: Shader)
    ensures
        scan(fb, x0, y0, x1, y0, x0, sh) == fb,
{
    lemma_shade_none(fb, x0, y0, x1, y0, sh);
    lemma_shade_none(fb, x0, y0, x0, y0 + 1, sh);
}

/// One more pixel of the current row.
pub proof fn lemma_scan_px(fb: Seq<u8>, x0: int, y0: int, x1: int, y: int, x: int, sh: Shader)
    requires
        x0 <= x < x1,
        y0 <= y,
    ensures
        scan(fb, x0, y0, x1, y, x + 1, sh) == put_px(
            scan(fb, x0, y0, x1, y, x, sh),
            x,
            y,
            sh(x, y, px_at(scan(fb, x0, y0, x1, y, x, sh), x, y)),
        ),
        has_px(fb.len() as int, x, y) ==> px_at(scan(fb, x0, y0, x1, y, x, sh), x, y) == px_at(fb, x, y),
        scan(fb, x0, y0, x1, y, x, sh).len() == fb.len(),
{
    reveal(shade);
    let base = shade(fb, x0, y0, x1, y, sh);
    let a = shade(base, x0, y, x, y + 1, sh);
    let b = shade(base, x0, y, x + 1, y + 1, sh);
    if has_px(fb.len() as int, x, y) {
        lemma_slot(x, y);
        lemma_shade_px(fb, x0, y0, x1, y, sh, x, y);
        lemma_shade_px(base, x0, y, x, y + 1, sh, x, y);
        let c = put_px(a, x, y, sh(x, y, px_at(a, x, y)));
        assert forall|i: int| 0 <= i < fb.len() implies b[i] == c[i] by {
            let xi = (i / 2) % 466;
            let yi = (i / 2) / 466;
            if xi == x && yi == y {
                assert(i == slot(x, y) || i == slot(x, y) + 1);
            } else {
                assert(i != slot(x, y) && i != slot(x, y) + 1);
            }
        }
        assert(b =~= c);
    } else {
        assert(b =~= a);
    }
}

/// A finished row is the start of the next one.
pub proof fn lemma_scan_row(fb: Seq<u8>, x0: int, y0: int, x1: int, y: int, sh: Shader)
    requires
        y0 <= y,
    ensures
        scan(fb, x0, y0, x1, y, x1, sh) == scan(fb, x0, y0, x1, y + 1, x0, sh),
{
    reveal(shade);
    let base = shade(fb, x0, y0, x1, y, sh);
    let a = shade(base, x0, y, x1, y + 1, sh);
    let b = shade(fb, x0, y0, x1, y + 1, sh);
    assert forall|i: int| 0 <= i < fb.len() implies a[i] == b[i] by {
        let x = (i / 2) % 466;
        let yi = (i / 2) / 466;
        if has_px(fb.len() as int, x, yi) {
            lemma_slot(x, yi);
            lemma_shade_px(fb, x0, y0, x1, y, sh, x, yi);
        }
    }
    assert(a =~= b);
    lemma_shade_none(b, x0, y + 1, x0, y + 2, sh);
}

pub proof fn lemma_scan_end(fb: Seq<u8>, x0: int, y0: int, x1: int, y1: int, sh: Shader)
    ensures
        scan(fb, x0, y0, x1, y1, x0, sh) == shade(fb, x0, y0, x1, y1, sh),
{
    lemma_shade_none(shade(fb, x0, y0, x1, y1, sh), x0, y1, x0, y1 + 1, sh);
}

/// Whether the pixel exists in a buffer of this length.
pub fn in_buffer(len: usize, x: i32, y: i32) -> (r: bool)
    ensures
        r == has_px(len as int, x as int, y as int),
{
    if x < 0 || x >= W || y < 0 || y >= H {
        return false;
    }
    let i: usize = ((y * W + x) * 2) as usize;
    i + 1 < len
}

/// Read one pixel.
pub fn get_px(fb: &[u8], x: i32, y: i32) -> (p: (u8, u8))
    requires
        has_px(fb@.len() as int, x as int, y as int),
    ensures
        p == px_at(fb@, x as int, y as int),
{
    let i: usize = ((y * W + x) * 2) as usize;
    (fb[i], fb[i + 1])
}

/// Write one pixel; off the panel or past the end of the buffer nothing happens.
pub fn set_px(fb: &mut [u8], x: i32, y: i32, p: (u8, u8))
    ensures
        final(fb)@ == put_px(old(fb)@, x as int, y as int, p),
{
    if !in_buffer(fb.len(), x, y) {
        return;
    }
    let i: usize = ((y * W + x) * 2) as usize;
    fb[i] = p.0;
    fb[i + 1] = p.1;
}

/// Apply a shader, given as a function, to a rectangle `[x0, x1) x [y0, y1)`.
pub(crate) fn paint<F: Fn(i32, i32, (u8, u8)) -> (u8, u8)>(
    fb: &mut [u8],
    x0: i32,
    y0: i32,
    x1: i32,
    y1: i32,
    f: F,
    Ghost(sh): Ghost<Shader>,
)
    requires
        forall|x: i32, y: i32, p: (u8, u8)|
            x0 <= x < x1 && y0 <= y < y1 && 0 <= x < 466 && 0 <= y < 466 ==> #[trigger] f.requires((x, y, p)),
        forall|x: i32, y: i32, p: (u8, u8), q: (u8, u8)|
            x0 <= x < x1 && y0 <= y < y1 && 0 <= x < 466 && 0 <= y < 466 && #[trigger] f.ensures(
                (x, y, p),
                q,
            ) ==> q == sh(x as int, y as int, p),
    ensures
        final(fb)@ == shade(old(fb)@, x0 as int, y0 as int, x1 as int, y1 as int, sh),
        final(fb)@.len() == old(fb)@.len(),
{
    let xa: i32 = imath::imax(x0, 0);
    let xb: i32 = imath::imin(x1, W);
    let ya: i32 = imath::imax(y0, 0);
    let yb: i32 = imath::imin(y1, H);
    let ghost fb0 = fb@;
    let ghost (gx0, gy0, gx1, gy1) = (xa as int, ya as int, xb as int, yb as int);
    proof {
        lemma_shade_clip(fb0, x0 as int, y0 as int, x1 as int, y1 as int, sh);
        lemma_scan_start(fb0, gx0, gy0, gx1, sh);
        if yb <= ya {
            lemma_shade_none(fb0, gx0, gy0, gx1, gy1, sh);
        }
    }
    let mut y: i32 = ya;
    while y < yb
        invariant
            xa == gx0,
            ya == gy0,
            xb == gx1,
            yb == gy1,
            ya <= y,
            y <= yb || y == ya,
            0 <= xa,
            xb <= 466,
            0 <= ya,
            yb <= 466,
            x0 <= xa,
            xb <= x1,
            y0 <= ya,
            yb <= y1,
            fb@ == scan(fb0, gx0, gy0, gx1, y as int, gx0, sh),
            fb@.len() == fb0.len(),
            forall|x: i32, y: i32, p: (u8, u8)|
                x0 <= x < x1 && y0 <= y < y1 && 0 <= x < 466 && 0 <= y < 466 ==> #[trigger] f.requires((x, y, p)),
            forall|x: i32, y: i32, p: (u8, u8), q: (u8, u8)|
                x0 <= x < x1 && y0 <= y < y1 && 0 <= x < 466 && 0 <= y < 466 && #[trigger] f.ensures(
                    (x, y, p),
                    q,
                ) ==> q == sh(x as int, y as int, p),
        decreases yb - y,
    {
        let mut x: i32 = xa;
        while x < xb
            invariant
                xa == gx0,
                ya == gy0,
                xb == gx1,
                yb == gy1,
                ya <= y < yb,
                xa <= x,
                x <= xb || x == xa,
                0 <= xa,
                xb <= 466,
                0 <= ya,
                yb <= 466,
                x0 <= xa,
                xb <= x1,
                y0 <= ya,
                yb <= y1,
                fb@ == scan(fb0, gx0, gy0, gx1, y as int, x as int, sh),
                fb@.len() == fb0.len(),
                forall|x: i32, y: i32, p: (u8, u8)|
                    x0 <= x < x1 && y0 <= y < y1 && 0 <= x < 466 && 0 <= y < 466 ==> #[trigger] f.requires(
                        (x, y, p),
                    ),
                forall|x: i32, y: i32, p: (u8, u8), q: (u8, u8)|
                    x0 <= x < x1 && y0 <= y < y1 && 0 <= x < 466 && 0 <= y < 466 && #[trigger] f.ensures(
                        (x, y, p),
                        q,
                    ) ==> q == sh(x as int, y as int, p),
            decreases xb - x,
        {
            proof {
                lemma_scan_px(fb0, gx0, gy0, gx1, y as int, x as int, sh);
            }
            if in_buffer(fb.len(), x, y) {
                let p: (u8, u8) = get_px(fb, x, y);
                let q: (u8, u8) = f(x, y, p);
                set_px(fb, x, y, q);
            }
            x = x + 1;
        }
        proof {
            if xb <= xa {
                lemma_shade_none(shade(fb0, gx0, gy0, gx1, y as int, sh), gx0, y as int, gx1, y + 1, sh);
                lemma_shade_none(shade(fb0, gx0, gy0, gx1, y as int, sh), gx0, y as int, gx0, y + 1, sh);
            }
            lemma_scan_row(fb0, gx0, gy0, gx1, y as int, sh);
        }
        y = y + 1;
    }
    proof {
        if ya < yb {
            lemma_scan_end(fb0, gx0, gy0, gx1, gy1, sh);
        }
    }
}

/// The shader that makes every pixel black.
pub open spec fn black() -> Shader {
    |x: int, y: int, p: (u8, u8)| (0u8, 0u8)
}

/// Apply a shader to a rectangle that may lie far off the panel.
pub(crate) fn paint_wide<F: Fn(i32, i32, (u8, u8)) -> (u8, u8)>(
    fb: &mut [u8],
    x0: i64,
    y0: i64,
    x1: i64,
    y1: i64,
    f: F,
    Ghost(sh): Ghost<Shader>,
)
    requires
        forall|x: i32, y: i32, p: (u8, u8)|
            x0 <= x < x1 && y0 <= y < y1 && 0 <= x < 466 && 0 <= y < 466 ==> #[trigger] f.requires((x, y, p)),
        forall|x: i32, y: i32, p: (u8, u8), q: (u8, u8)|
            x0 <= x < x1 && y0 <= y < y1 && 0 <= x < 466 && 0 <= y < 466 && #[trigger] f.ensures(
                (x, y, p),
                q,
            ) ==> q == sh(x as int, y as int, p),
    ensures
        final(fb)@ == shade(old(fb)@, x0 as int, y0 as int, x1 as int, y1 as int, sh),
        final(fb)@.len() == old(fb)@.len(),
{
    let (xa, xb) = (on_edge(x0), on_edge(x1));
    let (ya, yb) = (on_edge(y0), on_edge(y1));
    proof {
        reveal(shade);
        assert(shade(fb@, x0 as int, y0 as int, x1 as int, y1 as int, sh) =~= shade(
            fb@,
            xa as int,
            ya as int,
            xb as int,
            yb as int,
            sh,
        ));
    }
    paint(fb, xa, ya, xb, yb, f, Ghost(sh));
}

/// A coordinate held to 0..=466.
fn on_edge(v: i64) -> (r: i32)
    ensures
        r == imath::sclamp(v as int, 0, 466),
{
    if v < 0 {
        0
    } else if v > 466 {
        466
    } else {
        v as i32
    }
}

/// Black out an inclusive rectangle.
pub fn fill_rect_black(fb: &mut [u8], x0: i32, y0: i32, x1: i32, y1: i32)
    requires
        x1 < i32::MAX,
        y1 < i32::MAX,
    ensures
        final(fb)@ == shade(old(fb)@, x0 as int, y0 as int, x1 + 1, y1 + 1, black()),
        final(fb)@.len() == old(fb)@.len(),
{
    let ghost sh = black();
    let f = |x: i32, y: i32, p: (u8, u8)| -> (q: (u8, u8))
        ensures
            q == sh(x as int, y as int, p),
        { (0, 0) };
    paint(fb, x0, y0, x1 + 1, y1 + 1, f, Ghost(sh));
}

} // verus!
