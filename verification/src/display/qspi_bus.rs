//! What goes over the panel's serial bus: register writes, the drawing windows of a partial
//! flush, and the bytes of each burst. Sending them is the caller's.
use vstd::prelude::*;

use crate::display::dmi;
use crate::display::dmi::Span;
use crate::imath;

verus! {

/// Bus command of a register write.
pub const QSPI_CMD_WRITE_REG: u16 = 0x02;
/// Bus command of a pixel burst.
pub const QSPI_CMD_WRITE_PIXELS: u16 = 0x32;
/// Address of a pixel burst.
pub const QSPI_ADDR_PIXEL_RAM: u32 = 0x003C00;
/// Largest burst.
pub const DMA_CHUNK_BYTES: usize = 16384;

/// A register write: the register's 24-bit address and its data.
pub struct RegWrite {
    pub addr: u32,
    pub data: Vec<u8>,
}

/// The write of `data` to `reg`.
pub open spec fn writes(r: RegWrite, reg: u8, data: Seq<u8>) -> bool {
    r.addr == reg * 256 && r.data@ == data
}

/// Big-endian bytes of two 16-bit numbers.
pub open spec fn two_words(a: u16, b: u16) -> Seq<u8> {
    seq![(a / 256) as u8, (a % 256) as u8, (b / 256) as u8, (b % 256) as u8]
}

/// A command without data.
pub fn write_command(reg: u8) -> (r: RegWrite)
    ensures
        writes(r, reg, Seq::empty()),
{
    let data: Vec<u8> = Vec::new();
    assert(data@ =~= Seq::empty());
    RegWrite { addr: reg as u32 * 256, data }
}

/// A command with one byte.
pub fn write_c8d8(reg: u8, data: u8) -> (r: RegWrite)
    ensures
        writes(r, reg, seq![data]),
{
    let mut v: Vec<u8> = Vec::new();
    v.push(data);
    assert(v@ =~= seq![data]);
    RegWrite { addr: reg as u32 * 256, data: v }
}

/// A command with two 16-bit numbers.
pub fn write_c8d16d16(reg: u8, d1: u16, d2: u16) -> (r: RegWrite)
    ensures
        writes(r, reg, two_words(d1, d2)),
{
    let mut v: Vec<u8> = Vec::new();
    v.push((d1 / 256) as u8);
    v.push((d1 % 256) as u8);
    v.push((d2 / 256) as u8);
    v.push((d2 % 256) as u8);
    assert(v@ =~= two_words(d1, d2));
    RegWrite { addr: reg as u32 * 256, data: v }
}

/// Set the drawing window, inclusive: the columns, then the rows.
pub fn set_window(x0: u16, x1: u16, y0: u16, y1: u16) -> (r: (RegWrite, RegWrite))
    ensures
        writes(r.0, 0x2A, two_words(x0, x1)),
        writes(r.1, 0x2B, two_words(y0, y1)),
{
    (write_c8d16d16(0x2A, x0, x1), write_c8d16d16(0x2B, y0, y1))
}

/// An inclusive rectangle to flush.
#[derive(Clone, Copy, Debug, PartialEq, Eq, Structural)]
pub struct Region {
    pub x0: u16,
    pub x1: u16,
    pub y0: u16,
    pub y1: u16,
}

/// End of the run of spans from `i` that stack up: same columns, row after row.
pub open spec fn run_end(s: Seq<Span>, i: int, j: int) -> int
    decreases s.len() - j,
{
    if j >= s.len() || j < 1 || !(s[j].x0 == s[i].x0 && s[j].x1 == s[i].x1 && s[j].y == s[j - 1].y + 1) {
        j
    } else {
        run_end(s, i, j + 1)
    }
}

/// The rectangle of the run from `i` to `j`.
pub open spec fn region_of(s: Seq<Span>, i: int, j: int) -> Region {
    Region { x0: s[i].x0, x1: s[i].x1, y0: s[i].y, y1: s[j - 1].y }
}

/// A run ends behind its start and holds stacked spans.
pub proof fn lemma_run_end(s: Seq<Span>, i: int, j: int)
    requires
        0 <= i < j <= s.len(),
        s[j - 1].x0 == s[i].x0,
        s[j - 1].x1 == s[i].x1,
    ensures
        j <= run_end(s, i, j) <= s.len(),
        forall|k: int|
            j <= k < run_end(s, i, j) ==> (#[trigger] s[k]).x0 == s[i].x0 && s[k].x1 == s[i].x1 && s[k].y == s[k
                - 1].y + 1,
    decreases s.len() - j,
{
    if !(j >= s.len() || !(s[j].x0 == s[i].x0 && s[j].x1 == s[i].x1 && s[j].y == s[j - 1].y + 1)) {
        lemma_run_end(s, i, j + 1);
    }
}

/// The rectangles of the spans from `i` on.
pub open spec fn regions_from(s: Seq<Span>, i: int) -> Seq<Region>
    decreases s.len() - i,
{
    if i < 0 || i >= s.len() {
        Seq::empty()
    } else {
        let j = run_end(s, i, i + 1);
        proof {
            lemma_run_end(s, i, i + 1);
        }
        seq![region_of(s, i, j)] + regions_from(s, j)
    }
}

/// Coalesce stacked spans into rectangles.
pub fn regions(spans: &[Span]) -> (r: Vec<Region>)
    ensures
        r@ == regions_from(spans@, 0),
{
    let n: usize = spans.len();
    let mut r: Vec<Region> = Vec::new();
    let mut i: usize = 0;
    assert(r@ + regions_from(spans@, 0) =~= regions_from(spans@, 0));
    while i < n
        invariant
            i <= n,
            n == spans@.len(),
            r@ + regions_from(spans@, i as int) == regions_from(spans@, 0),
        decreases n - i,
    {
        let s0 = spans[i];
        let mut j: usize = i + 1;
        while j < n && spans[j].x0 == s0.x0 && spans[j].x1 == s0.x1 && spans[j].y as u32 == spans[j - 1].y as u32 + 1
            invariant
                i < j <= n,
                n == spans@.len(),
                s0 == spans@[i as int],
                run_end(spans@, i as int, j as int) == run_end(spans@, i as int, i + 1),
            decreases n - j,
        {
            j = j + 1;
        }
        let ghost before = r@;
        r.push(Region { x0: s0.x0, x1: s0.x1, y0: s0.y, y1: spans[j - 1].y });
        assert(r@ + regions_from(spans@, j as int) =~= before + (seq![region_of(spans@, i as int, j as int)]
            + regions_from(spans@, j as int)));
        i = j;
    }
    assert(r@ + Seq::<Region>::empty() =~= r@);
    r
}

/// The rectangle holds the pixel.
pub open spec fn region_has(r: Region, x: int, y: int) -> bool {
    r.x0 <= x <= r.x1 && r.y0 <= y <= r.y1
}

/// One of the spans from `i` to `j` holds the pixel.
pub open spec fn span_hits(s: Seq<Span>, i: int, j: int, x: int, y: int) -> bool {
    exists|k: int| i <= k < j && #[trigger] dmi::span_has(s[k], x, y)
}

proof fn lemma_run_rows(s: Seq<Span>, i: int, j: int, k: int)
    requires
        0 <= i < j <= s.len(),
        i <= k < j,
        forall|m: int|
            i + 1 <= m < j ==> (#[trigger] s[m]).x0 == s[i].x0 && s[m].x1 == s[i].x1 && s[m].y == s[m - 1].y + 1,
    ensures
        s[k].y == s[i].y + (k - i),
        s[k].x0 == s[i].x0,
        s[k].x1 == s[i].x1,
    decreases k - i,
{
    if k > i {
        lemma_run_rows(s, i, j, k - 1);
    }
}

/// The rectangles are exactly the spans: a pixel lies in one of them if and only if it lies
/// in a span.
pub proof fn lemma_regions_exact(s: Seq<Span>, i: int, x: int, y: int)
    requires
        0 <= i <= s.len(),
    ensures
        (exists|k: int| 0 <= k < regions_from(s, i).len() && #[trigger] region_has(regions_from(s, i)[k], x, y))
            <==> span_hits(s, i, s.len() as int, x, y),
    decreases s.len() - i,
{
    let all = regions_from(s, i);
    if i < s.len() {
        let j = run_end(s, i, i + 1);
        lemma_run_end(s, i, i + 1);
        lemma_regions_exact(s, j, x, y);
        let rest = regions_from(s, j);
        let head = region_of(s, i, j);
        lemma_run_rows(s, i, j, j - 1);
        assert(all =~= seq![head] + rest);
        if region_has(head, x, y) {
            let k = i + (y - s[i].y);
            lemma_run_rows(s, i, j, k);
            assert(dmi::span_has(s[k], x, y));
            assert(all[0] == head);
            assert(region_has(all[0], x, y));
        }
        if exists|k: int| 0 <= k < rest.len() && #[trigger] region_has(rest[k], x, y) {
            let k = choose|k: int| 0 <= k < rest.len() && #[trigger] region_has(rest[k], x, y);
            assert(all[k + 1] == rest[k]);
            assert(region_has(all[k + 1], x, y));
            let m = choose|m: int| j <= m < s.len() && #[trigger] dmi::span_has(s[m], x, y);
            assert(dmi::span_has(s[m], x, y));
        }
        if exists|k: int| 0 <= k < all.len() && #[trigger] region_has(all[k], x, y) {
            let k = choose|k: int| 0 <= k < all.len() && #[trigger] region_has(all[k], x, y);
            if k > 0 {
                assert(all[k] == rest[k - 1]);
                assert(region_has(rest[k - 1], x, y));
            }
        }
        if span_hits(s, i, s.len() as int, x, y) {
            let m = choose|m: int| i <= m < s.len() && #[trigger] dmi::span_has(s[m], x, y);
            if m < j {
                lemma_run_rows(s, i, j, m);
                assert(region_has(head, x, y));
            } else {
                assert(span_hits(s, j, s.len() as int, x, y));
            }
        }
    }
}

/// Even number at or below `v`.
pub open spec fn even_down(v: int) -> int {
    v - v % 2
}

/// Odd number at or above `v`.
pub open spec fn odd_up(v: int) -> int {
    v + (1 - v % 2)
}

/// The window of a rectangle on a `w` x `h` frame: clipped, and widened to whole pixel pairs
/// in both directions, as the panel's memory needs.
pub open spec fn window_of(r: Region, w: int, h: int) -> Region {
    Region {
        x0: even_down(imath::smin(r.x0 as int, w - 1)) as u16,
        x1: imath::smin(odd_up(r.x1 as int), w - 1) as u16,
        y0: even_down(imath::smin(r.y0 as int, h - 1)) as u16,
        y1: imath::smin(odd_up(r.y1 as int), h - 1) as u16,
    }
}

/// Rows of a frame buffer.
pub open spec fn height_of(len: int, w: int) -> int {
    len / (w * 2)
}

fn aligned(a: u16, b: u16, n: u16) -> (r: (u16, u16))
    requires
        n >= 1,
    ensures
        r.0 == even_down(imath::smin(a as int, n - 1)),
        r.1 == imath::smin(odd_up(b as int), n - 1),
{
    let m: u16 = if a < n { a } else { n - 1 };
    let o: u32 = b as u32 + (1 - b as u32 % 2);
    let x: u16 = if o < n as u32 { o as u16 } else { n - 1 };
    (m - m % 2, x)
}

/// The window of a rectangle on a frame of `len` bytes, `fb_width` pixels wide.
pub fn window(r: Region, len: usize, fb_width: u16) -> (v: Region)
    requires
        fb_width >= 1,
        1 <= height_of(len as int, fb_width as int) <= 0xffff,
    ensures
        v == window_of(r, fb_width as int, height_of(len as int, fb_width as int)),
{
    let h: u16 = (len / (fb_width as usize * 2)) as u16;
    let (x0, x1) = aligned(r.x0, r.x1, fb_width);
    let (y0, y1) = aligned(r.y0, r.y1, h);
    Region { x0, x1, y0, y1 }
}

/// A window holds its rectangle, and on a frame with even sides it starts on even and ends
/// on odd coordinates.
pub proof fn lemma_window(r: Region, w: int, h: int, x: int, y: int)
    requires
        1 <= w <= 0xffff,
        1 <= h <= 0xffff,
    ensures
        region_has(r, x, y) && x < w && y < h ==> region_has(window_of(r, w, h), x, y),
        window_of(r, w, h).x0 % 2 == 0,
        window_of(r, w, h).y0 % 2 == 0,
        w % 2 == 0 ==> window_of(r, w, h).x1 % 2 == 1,
        h % 2 == 0 ==> window_of(r, w, h).y1 % 2 == 1,
        window_of(r, w, h).x1 < w,
        window_of(r, w, h).y1 < h,
{
}

/// Bytes of row `y` of a window; none where the frame does not hold the whole row.
pub open spec fn row_bytes(fb: Seq<u8>, w: int, v: Region, y: int) -> Seq<u8> {
    let n = (v.x1 - v.x0 + 1) * 2;
    let start = (y * w + v.x0) * 2;
    if start + n <= fb.len() { fb.subrange(start, start + n) } else { Seq::empty() }
}

/// Bytes of the rows from `y` to before `end`.
pub open spec fn rows_bytes(fb: Seq<u8>, w: int, v: Region, y: int, end: int) -> Seq<u8>
    decreases end - y,
{
    if y >= end { Seq::empty() } else { row_bytes(fb, w, v, y) + rows_bytes(fb, w, v, y + 1, end) }
}

/// Rows can be sent in batches: what is sent up to a row and from it on is all of them.
pub proof fn lemma_rows_split(fb: Seq<u8>, w: int, v: Region, y: int, m: int, end: int)
    requires
        y <= m <= end,
    ensures
        rows_bytes(fb, w, v, y, end) == rows_bytes(fb, w, v, y, m) + rows_bytes(fb, w, v, m, end),
    decreases m - y,
{
    if y < m {
        lemma_rows_split(fb, w, v, y + 1, m, end);
        assert(rows_bytes(fb, w, v, y, end) =~= rows_bytes(fb, w, v, y, m) + rows_bytes(fb, w, v, m, end));
    } else {
        assert(rows_bytes(fb, w, v, y, end) =~= Seq::<u8>::empty() + rows_bytes(fb, w, v, m, end));
    }
}

/// The row before which a batch from `y` with room for `room` bytes ends: each row that the
/// frame holds takes its length, and the batch ends when the next one might not fit.
pub open spec fn batch_end(fb: Seq<u8>, w: int, v: Region, y: int, room: int) -> int
    decreases v.y1 + 1 - y,
{
    let n = (v.x1 - v.x0 + 1) * 2;
    if y > v.y1 || room < n {
        y
    } else {
        batch_end(fb, w, v, y + 1, room - row_bytes(fb, w, v, y).len())
    }
}

/// A stream of the rows of a window, in batches.
#[derive(Clone, Copy, Debug, PartialEq, Eq, Structural)]
pub struct RectStream {
    pub view: Region,
    /// Next row.
    pub y: usize,
}

impl RectStream {
    /// The rows of a window, from its first.
    pub fn new(view: Region) -> (s: Self)
        ensures
            s.view == view,
            s.y == view.y0,
    {
        RectStream { view, y: view.y0 as usize }
    }

    /// The next batch, at most `cap` bytes; empty at the end.
    pub fn fill(&mut self, fb: &[u8], fb_width: u16, cap: usize) -> (b: Vec<u8>)
        requires
            old(self).view.x0 <= old(self).view.x1 < fb_width,
            old(self).y <= 0x1_0000,
        ensures
            final(self).view == old(self).view,
            final(self).y == batch_end(fb@, fb_width as int, old(self).view, old(self).y as int, cap as int),
            old(self).y <= final(self).y,
            final(self).y <= 0x1_0000,
            b@ == rows_bytes(
                fb@,
                fb_width as int,
                old(self).view,
                old(self).y as int,
                final(self).y as int,
            ),
            b@.len() <= cap,
    {
        let ghost v = self.view;
        let ghost w = fb_width as int;
        let ghost y0 = self.y as int;
        let n: usize = (self.view.x1 as usize - self.view.x0 as usize + 1) * 2;
        let y_end: usize = self.view.y1 as usize;
        let mut b: Vec<u8> = Vec::new();
        let mut y: usize = self.y;
        assert(b@ =~= rows_bytes(fb@, w, v, y0, y0));
        while y <= y_end && cap - b.len() >= n
            invariant
                v == self.view,
                w == fb_width,
                n == (v.x1 - v.x0 + 1) * 2,
                v.x0 <= v.x1 < w,
                y_end == v.y1,
                y0 <= y,
                y <= 0x1_0000,
                b@.len() <= cap,
                b@ == rows_bytes(fb@, w, v, y0, y as int),
                batch_end(fb@, w, v, y as int, cap - b@.len()) == batch_end(fb@, w, v, y0, cap as int),
            decreases y_end + 1 - y,
        {
            proof {
                assert(0 <= y * w <= 0xffff * 0xffff) by (nonlinear_arith)
                    requires
                        0 <= y <= 0xffff,
                        0 <= w <= 0xffff,
                ;
                lemma_rows_split(fb@, w, v, y0, y as int, y + 1);
                assert(rows_bytes(fb@, w, v, y + 1, y + 1) =~= Seq::<u8>::empty());
                assert(rows_bytes(fb@, w, v, y as int, y + 1) =~= row_bytes(fb@, w, v, y as int));
            }
            let start: u64 = (y as u64 * fb_width as u64 + self.view.x0 as u64) * 2;
            if start + n as u64 <= fb.len() as u64 {
                let row = vstd::slice::slice_subrange(fb, start as usize, start as usize + n);
                push_row(&mut b, row);
            } else {
                assert(b@ + Seq::<u8>::empty() =~= b@);
            }
            y = y + 1;
        }
        self.y = y;
        b
    }
}

fn push_row(b: &mut Vec<u8>, row: &[u8])
    ensures
        final(b)@ == old(b)@ + row@,
{
    let mut i: usize = 0;
    assert(b@ =~= old(b)@ + row@.take(0));
    while i < row.len()
        invariant
            i <= row@.len(),
            b@ == old(b)@ + row@.take(i as int),
        decreases row@.len() - i,
    {
        b.push(row[i]);
        i = i + 1;
        assert(b@ =~= old(b)@ + row@.take(i as int));
    }
    assert(row@.take(row@.len() as int) =~= row@);
}

/// A batch that sends nothing is the last one, where a whole row fits into a batch.
pub proof fn lemma_empty_batch_is_last(fb: Seq<u8>, w: int, v: Region, y: int, cap: int)
    requires
        v.x0 <= v.x1,
        cap >= (v.x1 - v.x0 + 1) * 2,
        y <= v.y1 + 1,
        rows_bytes(fb, w, v, y, batch_end(fb, w, v, y, cap)).len() == 0,
    ensures
        batch_end(fb, w, v, y, cap) == v.y1 + 1,
    decreases v.y1 + 1 - y,
{
    if y <= v.y1 {
        lemma_batch_end(fb, w, v, y + 1, cap - row_bytes(fb, w, v, y).len());
        let e = batch_end(fb, w, v, y, cap);
        assert(rows_bytes(fb, w, v, y, e) == row_bytes(fb, w, v, y) + rows_bytes(fb, w, v, y + 1, e));
        lemma_empty_batch_is_last(fb, w, v, y + 1, cap);
    }
}

proof fn lemma_batch_end(fb: Seq<u8>, w: int, v: Region, y: int, room: int)
    requires
        v.x0 <= v.x1,
        y <= v.y1 + 1,
    ensures
        y <= batch_end(fb, w, v, y, room) <= v.y1 + 1,
    decreases v.y1 + 1 - y,
{
    let n = (v.x1 - v.x0 + 1) * 2;
    if !(y > v.y1 || room < n) {
        lemma_batch_end(fb, w, v, y + 1, room - row_bytes(fb, w, v, y).len());
    }
}

/// Bytes of the next burst of a full flush.
pub fn next_chunk(len: usize, sent: usize, cap: usize) -> (n: usize)
    requires
        sent <= len,
    ensures
        n == imath::smin(len - sent, cap as int),
        cap > 0 && sent < len ==> n > 0,
        sent + n <= len,
{
    if len - sent < cap {
        len - sent
    } else {
        cap
    }
}

} // verus!
