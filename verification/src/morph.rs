//! Timeline of the morph between the wheel and an app: the icon flies to the centre, the
//! splash holds, and the content of an app that has any fades in. Closing runs the same
//! timeline backwards and faster, and the power key reverses it wherever it is.
use vstd::prelude::*;

use crate::imath;

verus! {

/// Phases in milliseconds.
pub const T_FLIGHT: i32 = 260;
pub const T_HOLD: i32 = 480;
pub const T_CONTENT: i32 = 280;
/// Milliseconds of timeline per frame, opening and closing.
pub const STEP_OPEN: i32 = 25;
pub const STEP_CLOSE: i32 = 34;

/// Smoothstep on 256ths, clamped.
pub open spec fn smoothed(x: int) -> int {
    let c = imath::sclamp(x, 0, 256);
    c * c * (768 - 2 * c) / 65_536
}

pub fn smooth(x: i32) -> (r: i32)
    ensures
        r == smoothed(x as int),
        0 <= r <= 256,
{
    let c: i32 = imath::iclamp(x, 0, 256);
    proof {
        lemma_smooth(c as int, 256);
        lemma_smooth(0, c as int);
        assert(0 <= c * c * (768 - 2 * c) <= 50_331_648) by (nonlinear_arith)
            requires
                0 <= c <= 256,
        ;
        assert(0 <= c * c <= 65_536) by (nonlinear_arith)
            requires
                0 <= c <= 256,
        ;
    }
    c * c * (768 - 2 * c) / 65_536
}

/// The ease starts at 0, ends at 256 and never turns back.
pub proof fn lemma_smooth(a: int, b: int)
    requires
        a <= b,
    ensures
        smoothed(a) <= smoothed(b),
        a <= 0 ==> smoothed(a) == 0,
        b >= 256 ==> smoothed(b) == 256,
{
    let x = imath::sclamp(a, 0, 256);
    let y = imath::sclamp(b, 0, 256);
    assert(x * x * (768 - 2 * x) <= y * y * (768 - 2 * y)) by (nonlinear_arith)
        requires
            0 <= x <= y <= 256,
    {
        let d = y - x;
        // the difference is d * (768 (x + y) - 2 (x^2 + x y + y^2)), and each square is at
        // most 256 times its root
        assert(y * y * (768 - 2 * y) - x * x * (768 - 2 * x) == d * (768 * (x + y) - 2 * (x * x + x * y + y * y)));
        assert(x * x <= 256 * x);
        assert(y * y <= 256 * y);
        assert(2 * (x * y) <= 256 * x + 256 * y);
        assert(768 * (x + y) - 2 * (x * x + x * y + y * y) >= 0);
        assert(d * (768 * (x + y) - 2 * (x * x + x * y + y * y)) >= 0);
    }
    let fx = x * x * (768 - 2 * x);
    let fy = y * y * (768 - 2 * y);
    assert(fx / 65_536 <= fy / 65_536);
    assert(256int * 256 * (768 - 2 * 256) == 16_777_216);
    assert(x == 0 ==> fx == 0) by (nonlinear_arith)
        requires
            fx == x * x * (768 - 2 * x),
    ;
}

/// What a frame of the morph shows, each out of 256: how far the icon has flown, the opacity
/// of the splash icon and title, and of the content.
#[derive(Clone, Copy, Debug, PartialEq, Eq, Structural)]
pub struct MorphMix {
    pub flight: i32,
    pub icon: i32,
    pub title: i32,
    pub content: i32,
}

/// The frame at `t` milliseconds.
pub open spec fn frame_at(t: int) -> MorphMix {
    if t < 260 {
        MorphMix { flight: smoothed(t * 256 / 260) as i32, icon: 256, title: 0, content: 0 }
    } else if t < 740 {
        MorphMix { flight: 256, icon: 256, title: imath::smin((t - 260) * 256 / 120, 256) as i32, content: 0 }
    } else {
        let q = smoothed((t - 740) * 256 / 280);
        MorphMix { flight: 256, icon: (256 - q) as i32, title: (256 - q) as i32, content: q as i32 }
    }
}

/// Where a morph ended.
#[derive(Clone, Copy, Debug, PartialEq, Eq, Structural)]
pub enum MorphEnd {
    Opened,
    Closed,
}

#[derive(Clone, Copy, Debug, PartialEq, Eq, Structural)]
pub struct AppMorph {
    pub t: i32,
    pub t_end: i32,
    pub opening: bool,
}

/// Length of the timeline.
pub open spec fn length(has_content: bool) -> int {
    if has_content { 1020 } else { 740 }
}

/// A running morph has not reached the end it heads for.
pub open spec fn running(m: AppMorph) -> bool {
    &&& 740 <= m.t_end <= 1020
    &&& m.opening ==> -34 <= m.t < m.t_end
    &&& !m.opening ==> 0 < m.t <= m.t_end + 25
}

/// The timeline after one frame.
pub open spec fn advanced(m: AppMorph) -> AppMorph {
    AppMorph { t: (if m.opening { m.t + 25 } else { m.t - 34 }) as i32, ..m }
}

/// A morph that reached the end it heads for.
pub open spec fn ended(m: AppMorph) -> Option<MorphEnd> {
    if m.opening && m.t >= m.t_end {
        Some(MorphEnd::Opened)
    } else if !m.opening && m.t <= 0 {
        Some(MorphEnd::Closed)
    } else {
        None
    }
}

impl AppMorph {
    /// Open or close an app.
    pub fn begin(opening: bool, has_content: bool) -> (m: Self)
        ensures
            running(m),
            m.opening == opening,
            m.t_end == length(has_content),
            m.t == (if opening { 0 } else { m.t_end as int }),
    {
        let t_end: i32 = T_FLIGHT + T_HOLD + if has_content { T_CONTENT } else { 0 };
        AppMorph { t: if opening { 0 } else { t_end }, t_end, opening }
    }

    /// Advance by one frame and give what it shows.
    pub fn step(&mut self) -> (f: MorphMix)
        requires
            running(*old(self)),
        ensures
            *final(self) == advanced(*old(self)),
            f == frame_at(imath::sclamp(final(self).t as int, 0, final(self).t_end as int)),
    {
        self.t = if self.opening { self.t + STEP_OPEN } else { self.t - STEP_CLOSE };
        let tc: i32 = imath::iclamp(self.t, 0, self.t_end);
        if tc < T_FLIGHT {
            MorphMix { flight: smooth(tc * 256 / T_FLIGHT), icon: 256, title: 0, content: 0 }
        } else if tc < T_FLIGHT + T_HOLD {
            MorphMix { flight: 256, icon: 256, title: imath::imin((tc - T_FLIGHT) * 256 / 120, 256), content: 0 }
        } else {
            let q: i32 = smooth((tc - T_FLIGHT - T_HOLD) * 256 / T_CONTENT);
            MorphMix { flight: 256, icon: 256 - q, title: 256 - q, content: q }
        }
    }

    /// After a frame: reverse where the power key was pressed, and say whether the morph
    /// reached its end.
    pub fn check(&mut self, reverse: bool) -> (r: Option<MorphEnd>)
        requires
            exists|m: AppMorph| running(m) && *old(self) == #[trigger] advanced(m),
        ensures
            *final(self) == (AppMorph { opening: old(self).opening != reverse, ..*old(self) }),
            r == ended(*final(self)),
            r is None ==> running(*final(self)),
    {
        if reverse {
            self.opening = !self.opening;
        }
        if self.opening && self.t >= self.t_end {
            return Some(MorphEnd::Opened);
        }
        if !self.opening && self.t <= 0 {
            return Some(MorphEnd::Closed);
        }
        None
    }
}

/// Reversing keeps the progress: the frame shown does not jump.
pub proof fn lemma_reverse_keeps_progress(m: AppMorph)
    ensures
        ({
            let r = AppMorph { opening: !m.opening, ..m };
            r.t == m.t && frame_at(imath::sclamp(r.t as int, 0, r.t_end as int)) == frame_at(
                imath::sclamp(m.t as int, 0, m.t_end as int),
            )
        }),
{
}

/// An unreversed morph gets closer to its end with every frame, so it ends.
pub proof fn lemma_morph_ends(m: AppMorph)
    requires
        running(m),
        ended(advanced(m)) is None,
    ensures
        m.opening ==> m.t_end - advanced(m).t == m.t_end - m.t - 25,
        !m.opening ==> advanced(m).t == m.t - 34,
        running(advanced(m)),
{
}

/// The ends of the timeline: at 0 the icon rests in its row and nothing else shows; at the
/// end of a content app only the content shows; an app without content rests on its splash.
pub proof fn lemma_morph_rest()
    ensures
        frame_at(0) == (MorphMix { flight: 0, icon: 256, title: 0, content: 0 }),
        frame_at(length(true)) == (MorphMix { flight: 256, icon: 0, title: 0, content: 256 }),
        frame_at(length(false)) == (MorphMix { flight: 256, icon: 256, title: 256, content: 0 }),
{
    lemma_smooth(0, 256);
    lemma_smooth(0, 0);
    lemma_smooth(256, 256);
}

/// Opening, the icon only flies on and the content only comes in.
pub proof fn lemma_morph_monotonic(a: int, b: int)
    requires
        0 <= a <= b <= 1020,
    ensures
        frame_at(a).flight <= frame_at(b).flight,
        frame_at(a).content <= frame_at(b).content,
        frame_at(b).icon <= frame_at(a).icon,
        0 <= frame_at(a).flight <= 256,
        0 <= frame_at(a).content <= 256,
        frame_at(a).icon == 256 - frame_at(a).content,
{
    lemma_smooth(a * 256 / 260, b * 256 / 260);
    lemma_smooth(0, a * 256 / 260);
    lemma_smooth(imath::smin(a * 256 / 260, 256), 256);
    lemma_smooth(0, b * 256 / 260);
    lemma_smooth(imath::smin(b * 256 / 260, 256), 256);
    lemma_smooth((a - 740) * 256 / 280, (b - 740) * 256 / 280);
    lemma_smooth(0, imath::smax((a - 740) * 256 / 280, 0));
    lemma_smooth(imath::smin((a - 740) * 256 / 280, 256), 256);
    lemma_smooth(0, imath::smax((b - 740) * 256 / 280, 0));
    lemma_smooth(imath::smin((b - 740) * 256 / 280, 256), 256);
}

/// How a morph ends: one that opens is open with the frame that reaches its end, one that
/// closes is closed with the frame that reaches the row, and neither ends as the other.
pub proof fn lemma_morph_arrives(m: AppMorph)
    requires
        running(m),
    ensures
        ended(advanced(m)) == Some(MorphEnd::Opened) <==> m.opening && m.t + 25 >= m.t_end,
        ended(advanced(m)) == Some(MorphEnd::Closed) <==> !m.opening && m.t <= 34,
{
}

} // verus!
