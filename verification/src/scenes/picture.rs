//! A frame under construction as its observers see it: the canvas, the rectangles queued
//! for the next erase, and what has to be flushed.
use vstd::prelude::*;

use crate::display::dmi;
use crate::display::watch_fb;
use crate::display::watch_fb::WatchFb;
use crate::scenes::wheel;
use crate::scenes::wheel::WheelFx;

verus! {

pub struct Picture {
    pub fb: Seq<u8>,
    pub rects: Seq<wheel::Rect>,
    pub damage: dmi::Damage,
}

/// The same picture with another canvas.
pub open spec fn on(f: Picture, fb: Seq<u8>) -> Picture {
    Picture { fb, ..f }
}

/// A drawn rectangle is queued for the next erase and marked.
pub open spec fn noted(f: Picture, w: int, h: int, x0: int, y0: int, x1: int, y1: int) -> Picture {
    Picture {
        fb: f.fb,
        rects: wheel::pushed(f.rects, x0, y0, x1, y1),
        damage: watch_fb::marked(f.damage, w, h, x0, y0, x1, y1),
    }
}

pub(crate) fn note(wfb: &mut WatchFb, fx: &mut WheelFx, x0: i32, y0: i32, x1: i32, y1: i32)
    requires
        old(wfb).wf(),
        old(fx).wf(),
    ensures
        final(wfb).wf(),
        final(fx).wf(),
        final(fx).is_seeded() == old(fx).is_seeded(),
        final(fx).intro_frame() == old(fx).intro_frame(),
        final(wfb).w() == old(wfb).w(),
        final(wfb).h() == old(wfb).h(),
        (Picture { fb: final(wfb).canvas(), rects: final(fx).content(), damage: final(wfb).damage() }) == noted(
            (Picture { fb: old(wfb).canvas(), rects: old(fx).content(), damage: old(wfb).damage() }),
            old(wfb).w(),
            old(wfb).h(),
            x0 as int,
            y0 as int,
            x1 as int,
            y1 as int,
        ),
{
    fx.push(x0, y0, x1, y1);
    wfb.mark_rect(x0, y0, x1, y1);
}

} // verus!
