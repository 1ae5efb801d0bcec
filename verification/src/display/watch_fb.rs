//! The retained canvas: one RGB565 frame kept across frames, written in place by the
//! composers, together with the record of what they touched.
use vstd::prelude::*;

use crate::display::dmi;
use crate::display::dmi::DmiIndex;
use crate::imath;

verus! {

/// A caller-owned frame buffer and its damage.
pub struct WatchFb<'a> {
    pub buf: &'a mut [u8],
    pub dmi: DmiIndex,
    pub width: u16,
    pub height: u16,
}

/// Damage after an inclusive rectangle was clamped to a `width` x `height` panel.
pub open spec fn marked(d: dmi::Damage, width: int, height: int, x0: int, y0: int, x1: int, y1: int) -> dmi::Damage {
    let a = imath::smax(x0, 0);
    let b = imath::smax(y0, 0);
    let c = imath::smin(x1, width - 1);
    let e = imath::smin(y1, height - 1);
    if c < a || e < b {
        d
    } else {
        dmi::with_rect(d, a, b, c, e)
    }
}

/// Everything on the panel inside the marked rectangle will be flushed, and what was to be
/// flushed before still is.
pub proof fn lemma_marked_covers(
    d: dmi::Damage,
    width: int,
    height: int,
    x0: int,
    y0: int,
    x1: int,
    y1: int,
    px: int,
    py: int,
)
    requires
        dmi::damage_ok(d),
        0 <= width <= 0xffff,
        0 <= height <= 0xffff,
    ensures
        dmi::damage_ok(marked(d, width, height, x0, y0, x1, y1)),
        dmi::covers(d, px, py) ==> dmi::covers(marked(d, width, height, x0, y0, x1, y1), px, py),
        x0 <= px <= x1 && y0 <= py <= y1 && 0 <= px < width && 0 <= py < height ==> dmi::covers(
            marked(d, width, height, x0, y0, x1, y1),
            px,
            py,
        ),
{
    let a = imath::smax(x0, 0);
    let b = imath::smax(y0, 0);
    let c = imath::smin(x1, width - 1);
    let e = imath::smin(y1, height - 1);
    if !(c < a || e < b) {
        dmi::lemma_with_rect_exact(d, a, b, c, e, px, py);
    }
}

/// Set every byte to zero.
pub fn fill_black(fb: &mut [u8])
    ensures
        final(fb)@ == Seq::new(old(fb)@.len(), |i: int| 0u8),
{
    let n: usize = fb.len();
    let mut i: usize = 0;
    while i < n
        invariant
            i <= n,
            n == fb@.len(),
            n == old(fb)@.len(),
            forall|k: int| 0 <= k < i ==> fb@[k] == 0,
        decreases n - i,
    {
        fb[i] = 0;
        i = i + 1;
    }
    assert(fb@ =~= Seq::new(old(fb)@.len(), |i: int| 0u8));
}

impl<'a> WatchFb<'a> {
    /// The canvas bytes.
    pub closed spec fn canvas(&self) -> Seq<u8> {
        self.buf@
    }

    /// Panel width.
    pub closed spec fn w(&self) -> int {
        self.width as int
    }

    /// Panel height.
    pub closed spec fn h(&self) -> int {
        self.height as int
    }

    /// What has to be flushed.
    pub closed spec fn damage(&self) -> dmi::Damage {
        self.dmi.damage()
    }

    /// The damage index is well formed.
    pub closed spec fn wf(&self) -> bool {
        self.dmi.wf()
    }

    /// What has to be flushed is what the index holds.
    pub proof fn damage_is_indexed(&self)
        ensures
            self.damage() == self.dmi.damage(),
            self.wf() == self.dmi.wf(),
    {
    }

    /// The panel's size is that of 16-bit coordinates.
    pub proof fn panel_bounds(&self)
        ensures
            0 <= self.w() <= 0xffff,
            0 <= self.h() <= 0xffff,
    {
    }

    /// Wrap a caller-owned buffer: it is cleared to black and the whole panel is marked.
    pub fn new(buf: &'a mut [u8], width: u16, height: u16) -> (r: Self)
        ensures
            r.canvas() == Seq::new(old(buf)@.len(), |i: int| 0u8),
            r.w() == width,
            r.h() == height,
            r.wf(),
            r.damage() == marked(
                dmi::clean(),
                width as int,
                height as int,
                0,
                0,
                width - 1,
                height - 1,
            ),
    {
        fill_black(buf);
        let mut fb = WatchFb { buf, dmi: DmiIndex::new(), width, height };
        fb.mark_rect(0, 0, width as i32 - 1, height as i32 - 1);
        fb
    }

    /// Display-ready bytes.
    pub fn bytes(&self) -> (r: &[u8])
        ensures
            r@ == self.canvas(),
    {
        &*self.buf
    }

    /// The raw canvas for composers; what they touch they record with `mark_rect`.
    pub fn buf_mut(&mut self) -> (r: &mut [u8])
        ensures
            r@ == old(self).canvas(),
            final(self).canvas() == final(r)@,
            final(self).w() == old(self).w(),
            final(self).h() == old(self).h(),
            final(self).damage() == old(self).damage(),
            final(self).wf() == old(self).wf(),
    {
        &mut *self.buf
    }

    /// Record an inclusive rectangle, clamped to the panel; empty or inverted ones are ignored.
    pub fn mark_rect(&mut self, x0: i32, y0: i32, x1: i32, y1: i32)
        requires
            old(self).wf(),
        ensures
            final(self).wf(),
            final(self).canvas() == old(self).canvas(),
            final(self).w() == old(self).w(),
            final(self).h() == old(self).h(),
            final(self).damage() == marked(
                old(self).damage(),
                old(self).w(),
                old(self).h(),
                x0 as int,
                y0 as int,
                x1 as int,
                y1 as int,
            ),
    {
        let a: i32 = imath::imax(x0, 0);
        let b: i32 = imath::imax(y0, 0);
        let c: i32 = imath::imin(x1, self.width as i32 - 1);
        let e: i32 = imath::imin(y1, self.height as i32 - 1);
        if c < a || e < b {
            return;
        }
        self.dmi.add_rect(a as u16, b as u16, c as u16, e as u16);
    }

    /// Nothing is dirty: the flush can be skipped.
    pub fn is_clean(&self) -> (r: bool)
        requires
            self.wf(),
        ensures
            r == (self.damage() == dmi::clean()),
    {
        self.dmi.is_empty()
    }

    /// Forget the damage after a flush.
    pub fn clear_damage(&mut self)
        requires
            old(self).wf(),
        ensures
            final(self).wf(),
            final(self).damage() == dmi::clean(),
            final(self).canvas() == old(self).canvas(),
            final(self).w() == old(self).w(),
            final(self).h() == old(self).h(),
    {
        self.dmi.clear();
    }
}

/// Grow-only bounding box of touched pixels.
#[derive(Clone, Copy, Debug, PartialEq, Eq, Structural)]
pub struct RectAcc {
    pub x0: i32,
    pub y0: i32,
    pub x1: i32,
    pub y1: i32,
}

/// `a` grown by one point.
pub open spec fn grown(a: RectAcc, x: int, y: int) -> RectAcc {
    RectAcc {
        x0: imath::smin(a.x0 as int, x) as i32,
        y0: imath::smin(a.y0 as int, y) as i32,
        x1: imath::smax(a.x1 as int, x) as i32,
        y1: imath::smax(a.y1 as int, y) as i32,
    }
}

/// The point lies in the box.
pub open spec fn acc_has(a: RectAcc, x: int, y: int) -> bool {
    a.x0 <= x <= a.x1 && a.y0 <= y <= a.y1
}

/// A grown box holds the new point and all it held before.
pub proof fn lemma_grown(a: RectAcc, x: i32, y: i32, px: int, py: int)
    ensures
        acc_has(grown(a, x as int, y as int), x as int, y as int),
        acc_has(a, px, py) ==> acc_has(grown(a, x as int, y as int), px, py),
{
}

impl RectAcc {
    /// The box of no points.
    pub fn empty() -> (r: Self)
        ensures
            r.x0 == i32::MAX,
            r.y0 == i32::MAX,
            r.x1 == i32::MIN,
            r.y1 == i32::MIN,
            forall|x: int, y: int| !acc_has(r, x, y),
    {
        RectAcc { x0: i32::MAX, y0: i32::MAX, x1: i32::MIN, y1: i32::MIN }
    }

    /// Grow the box by one point.
    pub fn add(&mut self, x: i32, y: i32)
        ensures
            *final(self) == grown(*old(self), x as int, y as int),
    {
        if x < self.x0 {
            self.x0 = x;
        }
        if x > self.x1 {
            self.x1 = x;
        }
        if y < self.y0 {
            self.y0 = y;
        }
        if y > self.y1 {
            self.y1 = y;
        }
    }

    /// No point was added.
    pub fn is_empty(&self) -> (r: bool)
        ensures
            r == (self.x1 < self.x0),
    {
        self.x1 < self.x0
    }
}

} // verus!
