//! Physics of the water: 448 particles with positions and velocities in 64ths of a pixel.
//! A step moves them, sorts them into cells, pushes neighbours apart, damps, and keeps all
//! inside the round wall.
use vstd::prelude::*;

use crate::imath;
use crate::scenes::water_hash;
use crate::scenes::water_hash::{CellIndex, NW};

verus! {

/// Neighbours that push a particle, at most.
pub const K_CAND: i32 = 24;

/// The particles.
pub struct Drops {
    pub px: [i16; 448],
    pub py: [i16; 448],
    pub vx: [i16; 448],
    pub vy: [i16; 448],
    /// Neighbours within reach.
    pub nbr: [u8; 448],
    /// At the surface.
    pub surf: [bool; 448],
}

/// The particles as sequences.
#[verifier::ext_equal]
pub struct Pool {
    pub px: Seq<i16>,
    pub py: Seq<i16>,
    pub vx: Seq<i16>,
    pub vy: Seq<i16>,
    pub nbr: Seq<u8>,
    pub surf: Seq<bool>,
}

pub open spec fn pool(d: Drops) -> Pool {
    Pool { px: d.px@, py: d.py@, vx: d.vx@, vy: d.vy@, nbr: d.nbr@, surf: d.surf@ }
}

/// All particles still, in the corner.
pub open spec fn origin() -> Pool {
    Pool {
        px: Seq::new(448, |i: int| 0i16),
        py: Seq::new(448, |i: int| 0i16),
        vx: Seq::new(448, |i: int| 0i16),
        vy: Seq::new(448, |i: int| 0i16),
        nbr: Seq::new(448, |i: int| 0u8),
        surf: Seq::new(448, |i: int| false),
    }
}

/// No particle is faster than the limit.
pub open spec fn calm(p: Pool) -> bool {
    &&& forall|i: int| 0 <= i < 448 ==> -1024 <= #[trigger] p.vx[i] <= 1024
    &&& forall|i: int| 0 <= i < 448 ==> -1024 <= #[trigger] p.vy[i] <= 1024
}

/// Every particle is on the panel, or within `margin` 64ths of it.
pub open spec fn near(p: Pool, margin: int) -> bool {
    &&& forall|i: int| 0 <= i < 448 ==> 0 <= (#[trigger] p.px[i]) + margin <= 30_000 + 2 * margin
    &&& forall|i: int| 0 <= i < 448 ==> 0 <= (#[trigger] p.py[i]) + margin <= 30_000 + 2 * margin
}

/// Resting state of the simulation.
pub open spec fn pool_ok(p: Pool) -> bool {
    &&& p.px.len() == 448
    &&& p.py.len() == 448
    &&& p.vx.len() == 448
    &&& p.vy.len() == 448
    &&& p.nbr.len() == 448
    &&& p.surf.len() == 448
    &&& calm(p)
    &&& near(p, 0)
}

/// Next value of the xorshift generator.
pub open spec fn rng_next(x: u32) -> u32 {
    let a = x ^ (x << 13);
    let b = a ^ (a >> 17);
    b ^ (b << 5)
}

fn rng(s: &mut u32) -> (r: u32)
    ensures
        r == rng_next(*old(s)),
        *final(s) == r,
{
    let x: u32 = *s;
    let a: u32 = x ^ (x << 13);
    let b: u32 = a ^ (a >> 17);
    *s = b ^ (b << 5);
    *s
}

/// Where particle `i` is spawned: a block of 32 columns below the centre, a little uneven;
/// what would stand outside the wall moves halfway to the centre.
pub open spec fn spawn(i: int, jitter: int) -> (int, int) {
    let x = 121 + (i % 32) * 7 + jitter;
    let y = 273 + (i / 32) * 7;
    let (dx, dy) = (x - 233, y - 233);
    if dx * dx + dy * dy > 218 * 218 {
        (233 + imath::tdiv(dx, 2), 233 + imath::tdiv(dy, 2))
    } else {
        (x, y)
    }
}

/// The pool with particle `i` spawned at rest.
pub open spec fn seed_one(p: Pool, i: int, jitter: int) -> Pool {
    let (x, y) = spawn(i, jitter);
    Pool {
        px: p.px.update(i, (x * 64) as i16),
        py: p.py.update(i, (y * 64) as i16),
        vx: p.vx.update(i, 0),
        vy: p.vy.update(i, 0),
        nbr: p.nbr.update(i, 8),
        surf: p.surf.update(i, false),
    }
}

/// The pool after the first `n` particles were spawned, and the generator.
pub open spec fn seeded(p: Pool, rng: u32, n: int) -> (Pool, u32)
    decreases n,
{
    if n <= 0 {
        (p, rng)
    } else {
        let (q, r) = seeded(p, rng, n - 1);
        let r2 = rng_next(r);
        (seed_one(q, n - 1, (r2 % 4) as int), r2)
    }
}

fn spawn_at(i: i32, jitter: i32) -> (r: (i32, i32))
    requires
        0 <= i < 448,
        0 <= jitter <= 3,
    ensures
        r.0 == spawn(i as int, jitter as int).0,
        r.1 == spawn(i as int, jitter as int).1,
        0 <= r.0 <= 400,
        0 <= r.1 <= 400,
        (r.0 - 233) * (r.0 - 233) + (r.1 - 233) * (r.1 - 233) <= 222 * 222,
{
    let x: i32 = 121 + (i % 32) * 7 + jitter;
    let y: i32 = 273 + (i / 32) * 7;
    let dx: i32 = x - 233;
    let dy: i32 = y - 233;
    proof {
        assert(0 <= dx * dx <= 300 * 300) by (nonlinear_arith)
            requires
                -300 <= dx <= 300,
        ;
        assert(0 <= dy * dy <= 300 * 300) by (nonlinear_arith)
            requires
                -300 <= dy <= 300,
        ;
    }
    if dx * dx + dy * dy > 218 * 218 {
        let (hx, hy): (i32, i32) = (dx / 2, dy / 2);
        proof {
            assert(hx * hx <= 60 * 60) by (nonlinear_arith)
                requires
                    -60 <= hx <= 60,
            ;
            assert(hy * hy <= 100 * 100) by (nonlinear_arith)
                requires
                    -100 <= hy <= 100,
            ;
        }
        (233 + hx, 233 + hy)
    } else {
        (x, y)
    }
}

/// What moves the particles in a step, in 64ths of a pixel per frame: gravity, the slosh of
/// a jerk, the breathing of the surface, and whether a jerk of size `jmag` throws spray.
#[derive(Clone, Copy, Debug, PartialEq, Eq, Structural)]
pub struct Force {
    pub gx: i32,
    pub gy: i32,
    pub sx: i32,
    pub sy: i32,
    pub breathe: i32,
    pub spray: bool,
    pub jmag: i32,
}

pub open spec fn force_ok(f: Force) -> bool {
    &&& -0x1_0000 <= f.gx <= 0x1_0000
    &&& -0x1_0000 <= f.gy <= 0x1_0000
    &&& -0x1_0000 <= f.sx <= 0x1_0000
    &&& -0x1_0000 <= f.sy <= 0x1_0000
    &&& -0x1_0000 <= f.breathe <= 0x1_0000
    &&& 0 <= f.jmag <= 0x10_0000
}

/// A velocity held to the limit.
pub open spec fn held(v: int) -> int {
    imath::sclamp(v, -1024, 1024)
}

/// Velocity of a particle after the forces; `r` is the next random number.
pub open spec fn driven(vx: int, vy: int, surf: bool, f: Force, r: u32) -> (int, int) {
    let jx = if surf && f.spray { (r % 64) as int - 32 } else { 0 };
    let jy = if surf && f.spray { f.jmag as int / 256 } else { 0 };
    let b = if surf { f.breathe as int } else { 0 };
    (held(vx + f.gx + f.sx + jx), held(vy + f.gy + f.sy + b - jy))
}

/// The pool after particle `i` moved.
pub open spec fn advect_one(p: Pool, i: int, f: Force, r: u32) -> Pool {
    let (vx, vy) = driven(p.vx[i] as int, p.vy[i] as int, p.surf[i], f, r);
    Pool {
        px: p.px.update(i, (p.px[i] + vx) as i16),
        py: p.py.update(i, (p.py[i] + vy) as i16),
        vx: p.vx.update(i, vx as i16),
        vy: p.vy.update(i, vy as i16),
        ..p
    }
}

/// The pool and the generator after the first `n` particles moved; only spray at the
/// surface draws random numbers.
pub open spec fn advected(p: Pool, f: Force, rng: u32, n: int) -> (Pool, u32)
    decreases n,
{
    if n <= 0 {
        (p, rng)
    } else {
        let (q, r) = advected(p, f, rng, n - 1);
        let r2 = rng_next(r);
        (advect_one(q, n - 1, f, r2), if q.surf[n - 1] && f.spray { r2 } else { r })
    }
}

/// Offsets of the nine cells around a cell, its own first.
pub open spec fn offset(k: int) -> (int, int) {
    if k == 0 {
        (0, 0)
    } else if k == 1 {
        (-1, 0)
    } else if k == 2 {
        (1, 0)
    } else if k == 3 {
        (0, -1)
    } else if k == 4 {
        (0, 1)
    } else if k == 5 {
        (-1, -1)
    } else if k == 6 {
        (1, -1)
    } else if k == 7 {
        (-1, 1)
    } else {
        (1, 1)
    }
}

fn offset_at(k: usize) -> (r: (i32, i32))
    ensures
        r.0 == offset(k as int).0,
        r.1 == offset(k as int).1,
        -1 <= r.0 <= 1,
        -1 <= r.1 <= 1,
{
    if k == 0 {
        (0, 0)
    } else if k == 1 {
        (-1, 0)
    } else if k == 2 {
        (1, 0)
    } else if k == 3 {
        (0, -1)
    } else if k == 4 {
        (0, 1)
    } else if k == 5 {
        (-1, -1)
    } else if k == 6 {
        (1, -1)
    } else if k == 7 {
        (-1, 1)
    } else {
        (1, 1)
    }
}

/// Impulse gathered from neighbours, and their number.
pub struct Impulse {
    pub ax: int,
    pub ay: int,
    pub n: int,
}

/// Squared distance of two particles in whole pixels.
pub open spec fn apart2(p: Pool, i: int, j: int) -> int {
    let dx = p.px[i] as int / 64 - p.px[j] as int / 64;
    let dy = p.py[i] as int / 64 - p.py[j] as int / 64;
    dx * dx + dy * dy
}

/// The impulse on `i` with candidate `j` looked at: within 16 pixels it pushes by the table
/// and drags towards its velocity; at the same spot the two part by a fixed nudge. Beyond 24
/// neighbours nothing counts.
pub open spec fn joined(p: Pool, i: int, j: int, push: Seq<i16>, a: Impulse) -> Impulse {
    let dx = p.px[i] as int / 64 - p.px[j] as int / 64;
    let dy = p.py[i] as int / 64 - p.py[j] as int / 64;
    let d2 = apart2(p, i, j);
    if a.n >= 24 || j == i || d2 >= 256 {
        a
    } else if d2 == 0 {
        Impulse { ax: a.ax + (if i > j { 96int } else { -96 }), ay: a.ay, n: a.n + 1 }
    } else {
        Impulse {
            ax: a.ax + push[d2] * dx / 128 + (p.vx[j] - p.vx[i]) * 40 / 256,
            ay: a.ay + push[d2] * dy / 128 + (p.vy[j] - p.vy[i]) * 40 / 256,
            n: a.n + 1,
        }
    }
}

/// The impulse after the first `m` candidates of a list.
pub open spec fn over_list(p: Pool, i: int, push: Seq<i16>, list: Seq<int>, a: Impulse, m: int) -> Impulse
    decreases m,
{
    if m <= 0 { a } else { joined(p, i, list[m - 1], push, over_list(p, i, push, list, a, m - 1)) }
}

/// Cell `k` around particle `i`, if the grid has it.
pub open spec fn near_cell(p: Pool, i: int, k: int) -> Option<int> {
    let gx = water_hash::grid_of(p.px[i] as int) + offset(k).0;
    let gy = water_hash::grid_of(p.py[i] as int) + offset(k).1;
    if 0 <= gx < 30 && 0 <= gy < 30 { Some(gy * 30 + gx) } else { None }
}

/// The impulse after the first `k` cells around particle `i`.
pub open spec fn over_cells(p: Pool, i: int, push: Seq<i16>, cells: Seq<int>, k: int) -> Impulse
    decreases k,
{
    if k <= 0 {
        Impulse { ax: 0, ay: 0, n: 0 }
    } else {
        let a = over_cells(p, i, push, cells, k - 1);
        match near_cell(p, i, k - 1) {
            Some(c) => {
                let list = water_hash::members(cells, c, 448);
                over_list(p, i, push, list, a, list.len() as int)
            },
            None => a,
        }
    }
}

/// The pool after particle `i` took its impulse: half of it, as each pair is seen from both
/// ends. A particle with few neighbours is at the surface, and leaves it only with more.
pub open spec fn relax_one(p: Pool, i: int, push: Seq<i16>, cells: Seq<int>) -> Pool {
    let a = over_cells(p, i, push, cells, 9);
    Pool {
        vx: p.vx.update(i, held(p.vx[i] + a.ax / 2) as i16),
        vy: p.vy.update(i, held(p.vy[i] + a.ay / 2) as i16),
        nbr: p.nbr.update(i, a.n as u8),
        surf: p.surf.update(i, if p.surf[i] { a.n < 5 } else { a.n < 3 }),
        ..p
    }
}

/// The pool after the first `n` particles took their impulses, one after the other.
pub open spec fn relaxed(p: Pool, push: Seq<i16>, cells: Seq<int>, n: int) -> Pool
    decreases n,
{
    if n <= 0 { p } else { relax_one(relaxed(p, push, cells, n - 1), n - 1, push, cells) }
}

/// A damped velocity, rounded towards zero.
pub open spec fn damped(v: int) -> int {
    held(imath::tdiv(v * 254, 256))
}

pub open spec fn damp_one(p: Pool, i: int) -> Pool {
    Pool {
        vx: p.vx.update(i, damped(p.vx[i] as int) as i16),
        vy: p.vy.update(i, damped(p.vy[i] as int) as i16),
        ..p
    }
}

pub open spec fn damped_all(p: Pool, n: int) -> Pool
    decreases n,
{
    if n <= 0 { p } else { damp_one(damped_all(p, n - 1), n - 1) }
}

/// A moving particle, of either direction, slows down.
pub proof fn lemma_damp(v: int)
    requires
        -1024 <= v <= 1024,
    ensures
        damped(-v) == -damped(v),
        v > 0 ==> 0 <= damped(v) < v,
        damped(0) == 0,
{
}

/// Every particle is within the wall.
pub open spec fn contained(p: Pool) -> bool {
    forall|i: int| 0 <= i < 448 ==> #[trigger] within_wall(p.px[i] as int, p.py[i] as int)
}

/// Position and velocity of one particle.
pub struct Motion {
    pub x: int,
    pub y: int,
    pub vx: int,
    pub vy: int,
}

/// The pixel at `(x, y)`, in 64ths, is at most 222 pixels from the centre.
pub open spec fn within_wall(x: int, y: int) -> bool {
    let dx = x / 64 - 233;
    let dy = y / 64 - 233;
    dx * dx + dy * dy <= 222 * 222
}

/// Where a particle beyond the wall, `(dx, dy)` pixels from the centre, is put: onto the rim
/// along its ray, or, where the pixel there still lies beyond the wall, onto the last whole
/// pixel before it.
pub open spec fn on_rim(dx: int, dy: int) -> (int, int) {
    let r = imath::sqrt_of(dx * dx + dy * dy);
    let x = 14_912 + imath::tdiv(dx * 14_208, r);
    let y = 14_912 + imath::tdiv(dy * 14_208, r);
    if within_wall(x, y) {
        (x, y)
    } else {
        (14_912 + 64 * imath::tdiv(dx * 222, r + 1), 14_912 + 64 * imath::tdiv(dy * 222, r + 1))
    }
}

/// Position and velocity after the wall: a particle beyond it is put back onto it, and an
/// outward speed is thrown back with a tenth of it.
pub open spec fn walled(m: Motion) -> Motion {
    let dx = m.x / 64 - 233;
    let dy = m.y / 64 - 233;
    if within_wall(m.x, m.y) {
        m
    } else {
        let r = imath::sqrt_of(dx * dx + dy * dy);
        let vn = imath::tdiv(m.vx * dx + m.vy * dy, r);
        let k = vn * 282 / 256;
        Motion {
            x: on_rim(dx, dy).0,
            y: on_rim(dx, dy).1,
            vx: if vn > 0 { held(m.vx - imath::tdiv(k * dx, r)) } else { m.vx },
            vy: if vn > 0 { held(m.vy - imath::tdiv(k * dy, r)) } else { m.vy },
        }
    }
}

pub open spec fn wall_one(p: Pool, i: int) -> Pool {
    let m = walled(
        Motion { x: p.px[i] as int, y: p.py[i] as int, vx: p.vx[i] as int, vy: p.vy[i] as int },
    );
    Pool {
        px: p.px.update(i, m.x as i16),
        py: p.py.update(i, m.y as i16),
        vx: p.vx.update(i, m.vx as i16),
        vy: p.vy.update(i, m.vy as i16),
        ..p
    }
}

pub open spec fn walled_all(p: Pool, n: int) -> Pool
    decreases n,
{
    if n <= 0 { p } else { wall_one(walled_all(p, n - 1), n - 1) }
}

/// One step of the simulation, and the generator after it.
pub open spec fn stepped(p: Pool, f: Force, push: Seq<i16>, rng: u32) -> (Pool, u32) {
    let (p1, r) = advected(p, f, rng, 448);
    let p2 = relaxed(p1, push, water_hash::cells_of(p1.px, p1.py), 448);
    (walled_all(damped_all(p2, 448), 448), r)
}

impl Drops {
    /// All in the corner.
    pub fn new() -> (d: Self)
        ensures
            pool_ok(pool(d)),
            pool(d) == origin(),
    {
        let d = Drops {
            px: [0;448],
            py: [0;448],
            vx: [0;448],
            vy: [0;448],
            nbr: [0;448],
            surf: [false;448],
        };
        assert(d.px@ =~= Seq::new(448, |i: int| 0i16));
        assert(d.py@ =~= Seq::new(448, |i: int| 0i16));
        assert(d.vx@ =~= Seq::new(448, |i: int| 0i16));
        assert(d.vy@ =~= Seq::new(448, |i: int| 0i16));
        assert(d.nbr@ =~= Seq::new(448, |i: int| 0u8));
        assert(d.surf@ =~= Seq::new(448, |i: int| false));
        d
    }

    /// Spawn all particles, within the wall.
    pub fn seed(&mut self, state: &mut u32)
        requires
            pool_ok(pool(*old(self))),
        ensures
            pool_ok(pool(*final(self))),
            contained(pool(*final(self))),
            (pool(*final(self)), *final(state)) == seeded(pool(*old(self)), *old(state), 448),
    {
        let mut i: usize = 0;
        while i < NW
            invariant
                i <= 448,
                pool_ok(pool(*self)),
                forall|k: int| 0 <= k < i ==> #[trigger] within_wall(self.px@[k] as int, self.py@[k] as int),
                (pool(*self), *state) == seeded(pool(*old(self)), *old(state), i as int),
            decreases 448 - i,
        {
            let ghost b = pool(*self);
            let jitter: i32 = (rng(state) % 4) as i32;
            let (x, y) = spawn_at(i as i32, jitter);
            self.px[i] = (x * 64) as i16;
            self.py[i] = (y * 64) as i16;
            self.vx[i] = 0;
            self.vy[i] = 0;
            self.nbr[i] = 8;
            self.surf[i] = false;
            proof {
                assert forall|k: int| 0 <= k < i + 1 implies #[trigger] within_wall(
                    self.px@[k] as int,
                    self.py@[k] as int,
                ) by {
                    assert(k != i ==> within_wall(b.px[k] as int, b.py[k] as int));
                }
            }
            i = i + 1;
        }
    }

    fn advect(&mut self, f: Force, state: &mut u32)
        requires
            pool_ok(pool(*old(self))),
            force_ok(f),
        ensures
            (pool(*final(self)), *final(state)) == advected(pool(*old(self)), f, *old(state), 448),
            calm(pool(*final(self))),
            near(pool(*final(self)), 1024),
    {
        let mut i: usize = 0;
        while i < NW
            invariant
                i <= 448,
                force_ok(f),
                calm(pool(*self)),
                near(pool(*self), 1024),
                forall|k: int| i <= k < 448 ==> 0 <= #[trigger] self.px@[k] <= 30_000,
                forall|k: int| i <= k < 448 ==> 0 <= #[trigger] self.py@[k] <= 30_000,
                (pool(*self), *state) == advected(pool(*old(self)), f, *old(state), i as int),
            decreases 448 - i,
        {
            let surf = self.surf[i];
            proof {
                let p = pool(*self);
                assert(-1024 <= p.vx[i as int] <= 1024 && -1024 <= p.vy[i as int] <= 1024);
            }
            let mut vx: i32 = self.vx[i] as i32 + f.gx + f.sx;
            let mut vy: i32 = self.vy[i] as i32 + f.gy + f.sy;
            if surf {
                vy = vy + f.breathe;
                if f.spray {
                    let jit: i32 = (rng(state) % 64) as i32 - 32;
                    vx = vx + jit;
                    vy = vy - f.jmag / 256;
                }
            }
            vx = imath::iclamp(vx, -1024, 1024);
            vy = imath::iclamp(vy, -1024, 1024);
            let nx: i16 = (self.px[i] as i32 + vx) as i16;
            let ny: i16 = (self.py[i] as i32 + vy) as i16;
            let ghost b = pool(*self);
            self.px[i] = nx;
            self.py[i] = ny;
            self.vx[i] = vx as i16;
            self.vy[i] = vy as i16;
            proof {
                let q = pool(*self);
                assert(near(b, 1024));
                assert forall|k: int| 0 <= k < 448 implies 0 <= (#[trigger] q.px[k]) + 1024 <= 32_048 by {
                    assert(k != i ==> q.px[k] == b.px[k]);
                }
                assert forall|k: int| 0 <= k < 448 implies 0 <= (#[trigger] q.py[k]) + 1024 <= 32_048 by {
                    assert(k != i ==> q.py[k] == b.py[k]);
                }
            }
            i = i + 1;
        }
    }

    /// Pixel of a particle.
    pub fn pixel(&self, i: usize) -> (r: (i32, i32))
        requires
            i < 448,
        ensures
            r.0 == self.px@[i as int] as int / 64,
            r.1 == self.py@[i as int] as int / 64,
            -512 <= r.0 <= 511,
            -512 <= r.1 <= 511,
    {
        let x: i16 = self.px[i];
        let y: i16 = self.py[i];
        let cx: i32 = imath::asr(x as i32, 6);
        let cy: i32 = imath::asr(y as i32, 6);
        assert(imath::p2(6) == 64);
        assert(cx == x as int / 64 && cy == y as int / 64);
        (cx, cy)
    }

    /// Look at one candidate.
    fn join(&self, i: usize, j: usize, push: &[i16; 257], a: (i32, i32, i32)) -> (r: (i32, i32, i32))
        requires
            i < 448,
            j < 448,
            calm(pool(*self)),
            0 <= a.2 < 24,
            -5_000 * a.2 <= a.0 <= 5_000 * a.2,
            -5_000 * a.2 <= a.1 <= 5_000 * a.2,
        ensures
            0 <= r.2 <= 24,
            -5_000 * r.2 <= r.0 <= 5_000 * r.2,
            -5_000 * r.2 <= r.1 <= 5_000 * r.2,
            (Impulse { ax: r.0 as int, ay: r.1 as int, n: r.2 as int }) == joined(
                pool(*self),
                i as int,
                j as int,
                push@,
                (Impulse { ax: a.0 as int, ay: a.1 as int, n: a.2 as int }),
            ),
    {
        if j == i {
            return a;
        }
        let (xi, yi) = self.pixel(i);
        let (xj, yj) = self.pixel(j);
        let dx: i32 = xi - xj;
        let dy: i32 = yi - yj;
        proof {
            assert(0 <= dx * dx <= 1100 * 1100) by (nonlinear_arith)
                requires
                    -1100 <= dx <= 1100,
            ;
            assert(0 <= dy * dy <= 1100 * 1100) by (nonlinear_arith)
                requires
                    -1100 <= dy <= 1100,
            ;
        }
        let d2: i32 = dx * dx + dy * dy;
        if d2 >= 256 {
            return a;
        }
        if d2 == 0 {
            return (a.0 + if i > j { 96 } else { -96 }, a.1, a.2 + 1);
        }
        proof {
            assert(-15 <= dx <= 15) by (nonlinear_arith)
                requires
                    dx * dx <= 255,
            ;
            assert(-15 <= dy <= 15) by (nonlinear_arith)
                requires
                    dy * dy <= 255,
            ;
            let p = pool(*self);
            assert(-1024 <= p.vx[i as int] <= 1024 && -1024 <= p.vy[i as int] <= 1024);
            assert(-1024 <= p.vx[j as int] <= 1024 && -1024 <= p.vy[j as int] <= 1024);
        }
        let f: i32 = push[d2 as usize] as i32;
        proof {
            assert(-491_520 <= f * dx <= 491_520) by (nonlinear_arith)
                requires
                    -32_768 <= f <= 32_767,
                    -15 <= dx <= 15,
            ;
            assert(-491_520 <= f * dy <= 491_520) by (nonlinear_arith)
                requires
                    -32_768 <= f <= 32_767,
                    -15 <= dy <= 15,
            ;
        }
        let ux: i32 = (self.vx[j] as i32 - self.vx[i] as i32) * 40;
        let uy: i32 = (self.vy[j] as i32 - self.vy[i] as i32) * 40;
        (
            a.0 + imath::asr(f * dx, 7) + imath::asr(ux, 8),
            a.1 + imath::asr(f * dy, 7) + imath::asr(uy, 8),
            a.2 + 1,
        )
    }

    /// Look at the candidates of one cell.
    fn join_cell(
        &self,
        i: usize,
        c: usize,
        push: &[i16; 257],
        index: &CellIndex,
        a: (i32, i32, i32),
        Ghost(cells): Ghost<Seq<int>>,
    ) -> (r: (i32, i32, i32))
        requires
            i < 448,
            c < 900,
            index.sorts(cells),
            calm(pool(*self)),
            0 <= a.2 <= 24,
            -5_000 * a.2 <= a.0 <= 5_000 * a.2,
            -5_000 * a.2 <= a.1 <= 5_000 * a.2,
        ensures
            0 <= r.2 <= 24,
            -5_000 * r.2 <= r.0 <= 5_000 * r.2,
            -5_000 * r.2 <= r.1 <= 5_000 * r.2,
            ({
                let list = water_hash::members(cells, c as int, 448);
                (Impulse { ax: r.0 as int, ay: r.1 as int, n: r.2 as int }) == over_list(
                    pool(*self),
                    i as int,
                    push@,
                    list,
                    (Impulse { ax: a.0 as int, ay: a.1 as int, n: a.2 as int }),
                    list.len() as int,
                )
            }),
    {
        let ghost list = water_hash::members(cells, c as int, 448);
        let ghost a0 = Impulse { ax: a.0 as int, ay: a.1 as int, n: a.2 as int };
        let n: usize = index.count(c, Ghost(cells));
        let mut acc: (i32, i32, i32) = a;
        let mut t: usize = 0;
        while t < n && acc.2 < K_CAND
            invariant
                t <= n,
                n == list.len(),
                list == water_hash::members(cells, c as int, 448),
                i < 448,
                c < 900,
                index.sorts(cells),
                calm(pool(*self)),
                0 <= acc.2 <= 24,
                -5_000 * acc.2 <= acc.0 <= 5_000 * acc.2,
                -5_000 * acc.2 <= acc.1 <= 5_000 * acc.2,
                (Impulse { ax: acc.0 as int, ay: acc.1 as int, n: acc.2 as int }) == over_list(
                    pool(*self),
                    i as int,
                    push@,
                    list,
                    a0,
                    t as int,
                ),
            decreases n - t,
        {
            let j: usize = index.member(c, t, Ghost(cells));
            acc = self.join(i, j, push, acc);
            t = t + 1;
        }
        proof {
            if t < n {
                lemma_list_full(pool(*self), i as int, push@, list, a0, t as int, n as int);
            }
        }
        acc
    }

    /// Look at all candidates around a particle.
    fn gather(&self, i: usize, push: &[i16; 257], index: &CellIndex, Ghost(cells): Ghost<Seq<int>>) -> (r: (
        i32,
        i32,
        i32,
    ))
        requires
            i < 448,
            index.sorts(cells),
            calm(pool(*self)),
        ensures
            0 <= r.2 <= 24,
            -120_000 <= r.0 <= 120_000,
            -120_000 <= r.1 <= 120_000,
            (Impulse { ax: r.0 as int, ay: r.1 as int, n: r.2 as int }) == over_cells(
                pool(*self),
                i as int,
                push@,
                cells,
                9,
            ),
    {
        let cx: i32 = water_hash::grid(self.px[i]);
        let cy: i32 = water_hash::grid(self.py[i]);
        let mut acc: (i32, i32, i32) = (0, 0, 0);
        let mut k: usize = 0;
        while k < 9
            invariant
                k <= 9,
                i < 448,
                index.sorts(cells),
                calm(pool(*self)),
                cx == water_hash::grid_of(self.px@[i as int] as int),
                cy == water_hash::grid_of(self.py@[i as int] as int),
                0 <= cx <= 29,
                0 <= cy <= 29,
                0 <= acc.2 <= 24,
                -5_000 * acc.2 <= acc.0 <= 5_000 * acc.2,
                -5_000 * acc.2 <= acc.1 <= 5_000 * acc.2,
                (Impulse { ax: acc.0 as int, ay: acc.1 as int, n: acc.2 as int }) == over_cells(
                    pool(*self),
                    i as int,
                    push@,
                    cells,
                    k as int,
                ),
            decreases 9 - k,
        {
            let (ox, oy) = offset_at(k);
            let gx: i32 = cx + ox;
            let gy: i32 = cy + oy;
            if 0 <= gx && gx < 30 && 0 <= gy && gy < 30 {
                acc = self.join_cell(i, (gy * 30 + gx) as usize, push, index, acc, Ghost(cells));
            }
            k = k + 1;
        }
        acc
    }

    fn relax(&mut self, push: &[i16; 257])
        requires
            calm(pool(*old(self))),
            near(pool(*old(self)), 1024),
        ensures
            pool(*final(self)) == relaxed(
                pool(*old(self)),
                push@,
                water_hash::cells_of(old(self).px@, old(self).py@),
                448,
            ),
            calm(pool(*final(self))),
            near(pool(*final(self)), 1024),
    {
        let ghost cells = water_hash::cells_of(self.px@, self.py@);
        let index = water_hash::build_hash(&self.px, &self.py);
        let mut i: usize = 0;
        while i < NW
            invariant
                i <= 448,
                index.sorts(cells),
                calm(pool(*self)),
                near(pool(*self), 1024),
                pool(*self) == relaxed(pool(*old(self)), push@, cells, i as int),
            decreases 448 - i,
        {
            let (ax, ay, n) = self.gather(i, push, &index, Ghost(cells));
            proof {
                let p = pool(*self);
                assert(-1024 <= p.vx[i as int] <= 1024 && -1024 <= p.vy[i as int] <= 1024);
            }
            let vx: i32 = imath::iclamp(self.vx[i] as i32 + imath::asr(ax, 1), -1024, 1024);
            let vy: i32 = imath::iclamp(self.vy[i] as i32 + imath::asr(ay, 1), -1024, 1024);
            let was = self.surf[i];
            let ghost b = pool(*self);
            self.nbr[i] = n as u8;
            self.surf[i] = if was { n < 5 } else { n < 3 };
            self.vx[i] = vx as i16;
            self.vy[i] = vy as i16;
            proof {
                lemma_near_same(b, pool(*self), 1024);
            }
            i = i + 1;
        }
    }

    fn damp(&mut self)
        requires
            calm(pool(*old(self))),
            near(pool(*old(self)), 1024),
        ensures
            pool(*final(self)) == damped_all(pool(*old(self)), 448),
            calm(pool(*final(self))),
            near(pool(*final(self)), 1024),
    {
        let mut i: usize = 0;
        while i < NW
            invariant
                i <= 448,
                calm(pool(*self)),
                near(pool(*self), 1024),
                pool(*self) == damped_all(pool(*old(self)), i as int),
            decreases 448 - i,
        {
            proof {
                let p = pool(*self);
                assert(-1024 <= p.vx[i as int] <= 1024 && -1024 <= p.vy[i as int] <= 1024);
            }
            let vx: i32 = imath::iclamp(self.vx[i] as i32 * 254 / 256, -1024, 1024);
            let vy: i32 = imath::iclamp(self.vy[i] as i32 * 254 / 256, -1024, 1024);
            let ghost b = pool(*self);
            self.vx[i] = vx as i16;
            self.vy[i] = vy as i16;
            proof {
                lemma_near_same(b, pool(*self), 1024);
            }
            i = i + 1;
        }
    }
}

proof fn lemma_near_same(p: Pool, q: Pool, margin: int)
    requires
        near(p, margin),
        q.px == p.px,
        q.py == p.py,
    ensures
        near(q, margin),
{
    assert forall|i: int| 0 <= i < 448 implies 0 <= (#[trigger] q.px[i]) + margin <= 30_000 + 2 * margin by {
        assert(0 <= p.px[i] + margin <= 30_000 + 2 * margin);
    }
    assert forall|i: int| 0 <= i < 448 implies 0 <= (#[trigger] q.py[i]) + margin <= 30_000 + 2 * margin by {
        assert(0 <= p.py[i] + margin <= 30_000 + 2 * margin);
    }
}

/// Once 24 neighbours are counted the rest of a list changes nothing.
proof fn lemma_list_full(p: Pool, i: int, push: Seq<i16>, list: Seq<int>, a: Impulse, t: int, m: int)
    requires
        0 <= t <= m,
        over_list(p, i, push, list, a, t).n >= 24,
    ensures
        over_list(p, i, push, list, a, m) == over_list(p, i, push, list, a, t),
    decreases m - t,
{
    if t < m {
        lemma_list_full(p, i, push, list, a, t, m - 1);
    }
}

/// What the wall does keeps the limits.
proof fn lemma_walled_range(m: Motion)
    requires
        -1024 <= m.x <= 31_024,
        -1024 <= m.y <= 31_024,
        -1024 <= m.vx <= 1024,
        -1024 <= m.vy <= 1024,
    ensures
        0 <= walled(m).x <= 30_000,
        0 <= walled(m).y <= 30_000,
        -1024 <= walled(m).vx <= 1024,
        -1024 <= walled(m).vy <= 1024,
{
    let dx = m.x / 64 - 233;
    let dy = m.y / 64 - 233;
    if within_wall(m.x, m.y) {
        assert(-222 <= dx <= 222 && -222 <= dy <= 222) by (nonlinear_arith)
            requires
                dx * dx + dy * dy <= 222 * 222,
        ;
    } else {
        lemma_projection(dx, dy);
        lemma_pulled_in(dx, dy);
    }
}

/// A projected offset is at most the wall's radius along each axis.
proof fn lemma_projection(dx: int, dy: int)
    requires
        dx * dx + dy * dy > 222 * 222,
    ensures
        ({
            let r = imath::sqrt_of(dx * dx + dy * dy);
            &&& r >= 222
            &&& imath::is_isqrt(dx * dx + dy * dy, r)
            &&& -r <= dx <= r
            &&& -r <= dy <= r
            &&& -14_208 <= imath::tdiv(dx * 14_208, r) <= 14_208
            &&& -14_208 <= imath::tdiv(dy * 14_208, r) <= 14_208
        }),
{
    let r2 = dx * dx + dy * dy;
    let r = imath::sqrt_of(r2);
    imath::lemma_sqrt_exists(r2);
    assert(imath::is_isqrt(r2, r));
    assert(r >= 222) by (nonlinear_arith)
        requires
            r2 > 222 * 222,
            r2 < (r + 1) * (r + 1),
            r >= 0,
    ;
    assert(-r <= dx <= r && -r <= dy <= r) by (nonlinear_arith)
        requires
            dx * dx + dy * dy < (r + 1) * (r + 1),
            r >= 0,
    ;
    lemma_scaled(dx, r);
    lemma_scaled(dy, r);
}

proof fn lemma_scaled(d: int, r: int)
    requires
        r >= 1,
        -r <= d <= r,
    ensures
        -14_208 <= imath::tdiv(d * 14_208, r) <= 14_208,
{
    let a = imath::sabs(d);
    let n = a * 14_208;
    assert(d * 14_208 == n || d * 14_208 == -n);
    let q = n / r;
    assert(0 <= q && r * q <= n && q <= 14_208) by (nonlinear_arith)
        requires
            q == n / r,
            r >= 1,
            0 <= n,
            n == a * 14_208,
            a <= r,
    ;
    assert(n >= 0);
}

/// The wall holds: behind it every particle is at most 222 pixels from the centre, and one
/// that was there already is not touched.
pub proof fn lemma_wall_holds(m: Motion)
    ensures
        ({
            let (dx, dy) = (walled(m).x / 64 - 233, walled(m).y / 64 - 233);
            dx * dx + dy * dy <= 222 * 222
        }),
        (m.x / 64 - 233) * (m.x / 64 - 233) + (m.y / 64 - 233) * (m.y / 64 - 233) <= 222 * 222 ==> walled(m) == m,
{
    let dx = m.x / 64 - 233;
    let dy = m.y / 64 - 233;
    if !within_wall(m.x, m.y) {
        lemma_pulled_in(dx, dy);
    }
}

/// The last whole pixel before the rim is within the wall.
proof fn lemma_pulled_in(dx: int, dy: int)
    requires
        dx * dx + dy * dy > 222 * 222,
    ensures
        ({
            let r = imath::sqrt_of(dx * dx + dy * dy);
            let (ex, ey) = (imath::tdiv(dx * 222, r + 1), imath::tdiv(dy * 222, r + 1));
            &&& -222 <= ex <= 222
            &&& -222 <= ey <= 222
            &&& ex * ex + ey * ey <= 222 * 222
        }),
{
    lemma_projection(dx, dy);
    let n = imath::sqrt_of(dx * dx + dy * dy) + 1;
    let (ex, ey) = (imath::tdiv(dx * 222, n), imath::tdiv(dy * 222, n));
    let (ax, ay) = (imath::sabs(ex), imath::sabs(ey));
    let (bx, by) = (imath::sabs(dx), imath::sabs(dy));
    lemma_shrunk(dx, n);
    lemma_shrunk(dy, n);
    assert((n * ax) * (n * ax) <= (222 * bx) * (222 * bx)) by (nonlinear_arith)
        requires
            0 <= n * ax <= 222 * bx,
    ;
    assert((n * ay) * (n * ay) <= (222 * by) * (222 * by)) by (nonlinear_arith)
        requires
            0 <= n * ay <= 222 * by,
    ;
    assert(bx * bx == dx * dx && by * by == dy * dy) by (nonlinear_arith)
        requires
            bx == dx || bx == -dx,
            by == dy || by == -dy,
    ;
    assert(ax * ax == ex * ex && ay * ay == ey * ey) by (nonlinear_arith)
        requires
            ax == ex || ax == -ex,
            ay == ey || ay == -ey,
    ;
    let s = ex * ex + ey * ey;
    assert((n * ax) * (n * ax) == (n * n) * (ax * ax)) by (nonlinear_arith);
    assert((n * ay) * (n * ay) == (n * n) * (ay * ay)) by (nonlinear_arith);
    assert((222 * bx) * (222 * bx) == 49_284 * (bx * bx)) by (nonlinear_arith);
    assert((222 * by) * (222 * by) == 49_284 * (by * by)) by (nonlinear_arith);
    assert((n * n) * s == (n * n) * (ex * ex) + (n * n) * (ey * ey)) by (nonlinear_arith)
        requires
            s == ex * ex + ey * ey,
    ;
    assert((n * n) * s <= 49_284 * (dx * dx + dy * dy));
    assert(s <= 222 * 222) by (nonlinear_arith)
        requires
            (n * n) * s <= 49_284 * (dx * dx + dy * dy),
            dx * dx + dy * dy < n * n,
    ;
}

proof fn lemma_shrunk(d: int, n: int)
    requires
        n >= 1,
        -n <= d <= n,
    ensures
        -222 <= imath::tdiv(d * 222, n) <= 222,
        0 <= n * imath::sabs(imath::tdiv(d * 222, n)) <= 222 * imath::sabs(d),
{
    let a = imath::sabs(d);
    let t = a * 222;
    assert(d * 222 == t || d * 222 == -t);
    let q = t / n;
    assert(0 <= q && 0 <= n * q <= t && q <= 222) by (nonlinear_arith)
        requires
            q == t / n,
            n >= 1,
            0 <= t,
            t == a * 222,
            a <= n,
    ;
}

impl Drops {
    /// Put one particle, on the panel or up to 16 pixels off it, back behind the wall. It is
    /// then at most 222 pixels from the centre and no faster than the limit; one that was there
    /// already is not touched, nor is any other.
    pub fn wall(&mut self, i: usize)
        requires
            i < 448,
            -1024 <= old(self).px@[i as int] <= 31_024,
            -1024 <= old(self).py@[i as int] <= 31_024,
            -1024 <= old(self).vx@[i as int] <= 1024,
            -1024 <= old(self).vy@[i as int] <= 1024,
        ensures
            pool(*final(self)) == wall_one(pool(*old(self)), i as int),
            within_wall(final(self).px@[i as int] as int, final(self).py@[i as int] as int),
            0 <= final(self).px@[i as int] <= 30_000,
            0 <= final(self).py@[i as int] <= 30_000,
            -1024 <= final(self).vx@[i as int] <= 1024,
            -1024 <= final(self).vy@[i as int] <= 1024,
            within_wall(old(self).px@[i as int] as int, old(self).py@[i as int] as int) ==> pool(*final(self)) == pool(
                *old(self),
            ),
    {
        let ghost p = pool(*self);
        let ghost m = Motion {
            x: p.px[i as int] as int,
            y: p.py[i as int] as int,
            vx: p.vx[i as int] as int,
            vy: p.vy[i as int] as int,
        };
        proof {
            lemma_walled_range(m);
            lemma_wall_holds(m);
        }
        let (x, y) = self.pixel(i);
        let dx: i32 = x - 233;
        let dy: i32 = y - 233;
        proof {
            assert(0 <= dx * dx <= 300 * 300) by (nonlinear_arith)
                requires
                    -300 <= dx <= 300,
            ;
            assert(0 <= dy * dy <= 300 * 300) by (nonlinear_arith)
                requires
                    -300 <= dy <= 300,
            ;
        }
        let r2: i32 = dx * dx + dy * dy;
        if r2 <= 222 * 222 {
            proof {
                assert(p.px.update(i as int, m.x as i16) =~= p.px);
                assert(p.py.update(i as int, m.y as i16) =~= p.py);
                assert(p.vx.update(i as int, m.vx as i16) =~= p.vx);
                assert(p.vy.update(i as int, m.vy as i16) =~= p.vy);
            }
            return;
        }
        let r: i32 = imath::isqrt(r2 as u32) as i32;
        proof {
            lemma_projection(dx as int, dy as int);
            assert(r <= 600) by (nonlinear_arith)
                requires
                    r * r <= r2,
                    r2 <= 180_000,
                    r >= 0,
            ;
        }
        let vx: i32 = self.vx[i] as i32;
        let vy: i32 = self.vy[i] as i32;
        let (nx, ny) = project(dx, dy, r);
        let (wx, wy) = bounce(vx, vy, dx, dy, r);
        self.px[i] = nx as i16;
        self.py[i] = ny as i16;
        self.vx[i] = wx as i16;
        self.vy[i] = wy as i16;
    }

    fn keep_inside(&mut self)
        requires
            calm(pool(*old(self))),
            near(pool(*old(self)), 1024),
        ensures
            pool(*final(self)) == walled_all(pool(*old(self)), 448),
            pool_ok(pool(*final(self))),
            contained(pool(*final(self))),
    {
        let mut i: usize = 0;
        while i < NW
            invariant
                i <= 448,
                calm(pool(*self)),
                near(pool(*self), 1024),
                forall|k: int| 0 <= k < i ==> 0 <= #[trigger] self.px@[k] <= 30_000,
                forall|k: int| 0 <= k < i ==> 0 <= #[trigger] self.py@[k] <= 30_000,
                forall|k: int| 0 <= k < i ==> #[trigger] within_wall(self.px@[k] as int, self.py@[k] as int),
                pool(*self) == walled_all(pool(*old(self)), i as int),
            decreases 448 - i,
        {
            let ghost b = pool(*self);
            proof {
                assert(-1024 <= b.vx[i as int] <= 1024 && -1024 <= b.vy[i as int] <= 1024);
                assert(0 <= b.px[i as int] + 1024 && 0 <= b.py[i as int] + 1024);
            }
            self.wall(i);
            proof {
                let q = pool(*self);
                assert forall|k: int| 0 <= k < 448 implies 0 <= (#[trigger] q.px[k]) + 1024 <= 32_048 by {
                    assert(k != i ==> q.px[k] == b.px[k]);
                }
                assert forall|k: int| 0 <= k < 448 implies 0 <= (#[trigger] q.py[k]) + 1024 <= 32_048 by {
                    assert(k != i ==> q.py[k] == b.py[k]);
                }
                assert forall|k: int| 0 <= k < 448 implies -1024 <= #[trigger] q.vx[k] <= 1024 by {
                    assert(k != i ==> q.vx[k] == b.vx[k]);
                }
                assert forall|k: int| 0 <= k < 448 implies -1024 <= #[trigger] q.vy[k] <= 1024 by {
                    assert(k != i ==> q.vy[k] == b.vy[k]);
                }
                assert forall|k: int| 0 <= k < i + 1 implies 0 <= #[trigger] self.px@[k] <= 30_000 by {
                    assert(k != i ==> pool(*self).px[k] == b.px[k]);
                }
                assert forall|k: int| 0 <= k < i + 1 implies 0 <= #[trigger] self.py@[k] <= 30_000 by {
                    assert(k != i ==> pool(*self).py[k] == b.py[k]);
                }
                assert forall|k: int| 0 <= k < i + 1 implies #[trigger] within_wall(
                    self.px@[k] as int,
                    self.py@[k] as int,
                ) by {
                    assert(k != i ==> pool(*self).px[k] == b.px[k] && pool(*self).py[k] == b.py[k]);
                    assert(k != i ==> within_wall(b.px[k] as int, b.py[k] as int));
                }
            }
            i = i + 1;
        }
        assert(near(pool(*self), 0));
    }

    /// One step of the simulation; it leaves every particle within the wall.
    pub fn step(&mut self, f: Force, push: &[i16; 257], state: &mut u32)
        requires
            pool_ok(pool(*old(self))),
            force_ok(f),
        ensures
            pool_ok(pool(*final(self))),
            contained(pool(*final(self))),
            (pool(*final(self)), *final(state)) == stepped(pool(*old(self)), f, push@, *old(state)),
    {
        self.advect(f, state);
        self.relax(push);
        self.damp();
        self.keep_inside();
    }
}

/// Position after the wall of a particle beyond it.
fn project(dx: i32, dy: i32, r: i32) -> (p: (i32, i32))
    requires
        -300 <= dx <= 300,
        -300 <= dy <= 300,
        dx * dx + dy * dy > 222 * 222,
        r == imath::sqrt_of(dx * dx + dy * dy),
    ensures
        p.0 == on_rim(dx as int, dy as int).0,
        p.1 == on_rim(dx as int, dy as int).1,
{
    proof {
        lemma_projection(dx as int, dy as int);
        lemma_pulled_in(dx as int, dy as int);
        assert(r <= 600) by (nonlinear_arith)
            requires
                r * r <= dx * dx + dy * dy,
                -300 <= dx <= 300,
                -300 <= dy <= 300,
                r >= 0,
        ;
    }
    let x: i32 = 14_912 + dx * 14_208 / r;
    let y: i32 = 14_912 + dy * 14_208 / r;
    let ex: i32 = x / 64 - 233;
    let ey: i32 = y / 64 - 233;
    proof {
        assert(0 <= ex * ex <= 300 * 300) by (nonlinear_arith)
            requires
                -300 <= ex <= 300,
        ;
        assert(0 <= ey * ey <= 300 * 300) by (nonlinear_arith)
            requires
                -300 <= ey <= 300,
        ;
    }
    if ex * ex + ey * ey <= 222 * 222 {
        (x, y)
    } else {
        (14_912 + 64 * (dx * 222 / (r + 1)), 14_912 + 64 * (dy * 222 / (r + 1)))
    }
}

/// Velocity after the wall: an outward speed is thrown back with a tenth of it.
fn bounce(vx: i32, vy: i32, dx: i32, dy: i32, r: i32) -> (w: (i32, i32))
    requires
        -1024 <= vx <= 1024,
        -1024 <= vy <= 1024,
        -300 <= dx <= 300,
        -300 <= dy <= 300,
        222 <= r <= 600,
    ensures
        ({
            let vn = imath::tdiv(vx * dx + vy * dy, r as int);
            let k = vn * 282 / 256;
            &&& w.0 == (if vn > 0 { held(vx - imath::tdiv(k * dx, r as int)) } else { vx as int })
            &&& w.1 == (if vn > 0 { held(vy - imath::tdiv(k * dy, r as int)) } else { vy as int })
        }),
        -1024 <= w.0 <= 1024,
        -1024 <= w.1 <= 1024,
{
    proof {
        assert(-307_200 <= vx * dx <= 307_200) by (nonlinear_arith)
            requires
                -1024 <= vx <= 1024,
                -300 <= dx <= 300,
        ;
        assert(-307_200 <= vy * dy <= 307_200) by (nonlinear_arith)
            requires
                -1024 <= vy <= 1024,
                -300 <= dy <= 300,
        ;
    }
    let s: i32 = vx * dx + vy * dy;
    let vn: i32 = s / r;
    proof {
        lemma_quotient_small(s as int, r as int);
    }
    if vn > 0 {
        let k: i32 = vn * 282 / 256;
        proof {
            assert(0 <= k * dx + 677_000 * 300) by (nonlinear_arith)
                requires
                    0 <= k <= 677_000,
                    -300 <= dx <= 300,
            ;
            assert(k * dx <= 677_000 * 300) by (nonlinear_arith)
                requires
                    0 <= k <= 677_000,
                    -300 <= dx <= 300,
            ;
            assert(-677_000 * 300 <= k * dy <= 677_000 * 300) by (nonlinear_arith)
                requires
                    0 <= k <= 677_000,
                    -300 <= dy <= 300,
            ;
            lemma_quotient_small(k * dx, r as int);
            lemma_quotient_small(k * dy, r as int);
        }
        (imath::iclamp(vx - k * dx / r, -1024, 1024), imath::iclamp(vy - k * dy / r, -1024, 1024))
    } else {
        (vx, vy)
    }
}

proof fn lemma_quotient_small(n: int, d: int)
    requires
        d >= 1,
    ensures
        -imath::sabs(n) <= imath::tdiv(n, d) <= imath::sabs(n),
{
    let m = imath::sabs(n);
    assert(0 <= m / d <= m) by (nonlinear_arith)
        requires
            m >= 0,
            d >= 1,
    ;
}

} // verus!
