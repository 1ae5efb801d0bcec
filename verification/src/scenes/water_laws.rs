//! What tilting the watch does to the water, and what is seen of it.
use vstd::prelude::*;

use crate::imath;
use crate::pixel;
use crate::raster;
use crate::scenes::pool;
use crate::scenes::pool::{Force, Impulse, Pool};
use crate::scenes::water;
use crate::scenes::water::{Accel, Tilt, WaterState};
use crate::scenes::water_hash;
use crate::scenes::water_paint;
use crate::scenes::water_paint::{Paint, WaterAssets, WaterFrame};

verus! {

/// `g` is the pull of a reading `d` above the rest bias: a 64th of it towards zero, and at
/// most 512. One g, 8192, pulls with 128.
pub open spec fn is_pull(g: int, d: int) -> bool {
    &&& -512 <= g <= 512
    &&& d >= 0 ==> g >= 0 && 64 * g <= d && (g < 512 ==> d < 64 * (g + 1))
    &&& d <= 0 ==> g <= 0 && d <= 64 * g && (g > -512 ==> 64 * (g - 1) < d)
}

/// Gravity follows the tilt, axis by axis: with a live sensor the water is pulled the way the
/// reading points, harder the farther it is from the bias, and not at all across it.
pub proof fn lemma_gravity_follows_tilt(t: Tilt, acc: Accel, other: Accel, phase: u32, later: u32)
    requires
        water::tilt_ok(t),
        t.dead <= 40,
    ensures
        ({
            let f = water::forces(t, acc, true, phase);
            let h = water::forces(t, other, true, later);
            let (dx, dy) = (acc.0 - t.bias_x, acc.1 - t.bias_y);
            &&& is_pull(f.gx as int, dx)
            &&& is_pull(f.gy as int, dy)
            &&& dx >= 64 ==> f.gx > 0
            &&& dx <= -64 ==> f.gx < 0
            &&& dy >= 64 ==> f.gy > 0
            &&& dy <= -64 ==> f.gy < 0
            &&& dx == 8192 ==> f.gx == 128
            &&& dy == 8192 ==> f.gy == 128
            &&& dx == -8192 ==> f.gx == -128
            &&& dy == -8192 ==> f.gy == -128
            &&& acc.0 <= other.0 ==> f.gx <= h.gx
            &&& acc.1 <= other.1 ==> f.gy <= h.gy
            &&& dx + (other.0 - t.bias_x) == 0 ==> h.gx == -f.gx
            &&& dy + (other.1 - t.bias_y) == 0 ==> h.gy == -f.gy
        }),
{
}

/// A flick is a change between two readings of more than 2600 in all; it sloshes the water the
/// way the reading changed and throws spray, and less than that does neither.
pub proof fn lemma_flick_sloshes(t: Tilt, acc: Accel, live: bool, phase: u32)
    requires
        t.dead <= 40,
        t.ever_live,
    ensures
        ({
            let f = water::forces(t, acc, live, phase);
            let (jx, jy) = (acc.0 - t.last.0, acc.1 - t.last.1);
            let size = (if jx < 0 { -jx } else { jx }) + (if jy < 0 { -jy } else { jy });
            &&& f.jmag == size
            &&& f.spray == (size > 2600)
            &&& size <= 2600 ==> f.sx == 0 && f.sy == 0
            &&& size > 2600 ==> {
                &&& jx >= 64 ==> f.sx > 0
                &&& jx <= -64 ==> f.sx < 0
                &&& jy >= 64 ==> f.sy > 0
                &&& jy <= -64 ==> f.sy < 0
                &&& jx >= 0 ==> 64 * f.sx <= jx && (f.sx < 1024 ==> jx < 64 * (f.sx + 1))
                &&& jx <= 0 ==> jx <= 64 * f.sx && (f.sx > -1024 ==> 64 * (f.sx - 1) < jx)
                &&& jy >= 0 ==> 64 * f.sy <= jy && (f.sy < 1024 ==> jy < 64 * (f.sy + 1))
                &&& jy <= 0 ==> jy <= 64 * f.sy && (f.sy > -1024 ==> 64 * (f.sy - 1) < jy)
            }
        }),
{
}

/// A level pool breathes gently, up and down over 512 frames; a tilted one does not.
pub proof fn lemma_breathing(phase: u32, other: u32, gmag: int)
    requires
        0 <= gmag,
    ensures
        -24 <= water::breathing(phase, gmag) <= 24,
        gmag >= 40 ==> water::breathing(phase, gmag) == 0,
        phase % 512 == other % 512 ==> water::breathing(phase, gmag) == water::breathing(other, gmag),
        phase % 512 < 128 ==> water::breathing(phase, gmag) <= 0,
        phase % 512 == 0 ==> water::breathing(phase, 0) == -24,
        phase % 512 == 255 ==> water::breathing(phase, 0) == 23,
        phase % 512 <= other % 512 < 256 ==> water::breathing(phase, 0) <= water::breathing(other, 0),
        256 <= phase % 512 <= other % 512 ==> water::breathing(phase, 0) >= water::breathing(other, 0),
{
    let p = (phase % 512) as int;
    let tri = if p < 256 { p } else { 511 - p };
    let b = (tri - 128) * 48 / 256;
    let k = 40 - gmag;
    if gmag < 40 {
        assert(-24 * 40 <= b * k <= 24 * 40) by (nonlinear_arith)
            requires
                -24 <= b <= 24,
                0 <= k <= 40,
        ;
        assert(b <= 0 ==> b * k <= 0) by (nonlinear_arith)
            requires
                0 <= k,
        ;
    }
}

/// The bias is the first reading since the app was opened, held to a tenth of gravity; later
/// readings leave it alone. A reading revives the sensor, a missed one counts.
pub proof fn lemma_calibration(t: Tilt, acc: Accel)
    ensures
        ({
            let first = water::noticed(t, Some(acc), true);
            let next = water::noticed(t, Some(acc), false);
            let missed = water::noticed(t, None, false);
            &&& -820 <= acc.0 <= 820 ==> first.bias_x == acc.0
            &&& -820 <= acc.1 <= 820 ==> first.bias_y == acc.1
            &&& acc.0 > 820 ==> first.bias_x == 820
            &&& acc.0 < -820 ==> first.bias_x == -820
            &&& acc.1 > 820 ==> first.bias_y == 820
            &&& acc.1 < -820 ==> first.bias_y == -820
            &&& !first.need_calib && first.ever_live && first.dead == 0
            &&& !t.need_calib ==> next == (Tilt { dead: 0, ..t })
            &&& t.need_calib ==> next == first
            &&& t.dead < 0xffff ==> missed == (Tilt { dead: (t.dead + 1) as u16, ..t })
        }),
{
}

/// Far enough from every other particle that none reaches it in a frame.
pub open spec fn alone(p: Pool, i: int) -> bool {
    forall|j: int|
        0 <= j < 448 && j != i ==> {
            ||| (#[trigger] p.px[j]) - p.px[i] >= 3200
            ||| p.px[i] - p.px[j] >= 3200
            ||| p.py[j] - p.py[i] >= 3200
            ||| p.py[i] - p.py[j] >= 3200
        }
}

/// The pixel of particle `i` is so far from the wall that a frame does not take it there.
pub open spec fn off_wall(p: Pool, i: int) -> bool {
    let dx = p.px[i] as int / 64 - 233;
    let dy = p.py[i] as int / 64 - 233;
    -140 <= dx <= 140 && -140 <= dy <= 140
}

/// `w` is `v` less a 128th of it, towards zero.
pub open spec fn is_damped(w: int, v: int) -> bool {
    &&& v >= 0 ==> w >= 0 && 256 * w <= 254 * v < 256 * (w + 1)
    &&& v <= 0 ==> w <= 0 && 256 * (w - 1) < 254 * v <= 256 * w
}

/// A drop by itself falls with gravity: a frame with a calm reading adds the pull of the tilt
/// to its velocity, moves it by the sum, and damps it. (At the surface it also breathes.)
pub proof fn lemma_drop_falls(s: WaterState, a: WaterAssets, acc: Accel, i: int, gx: int, gy: int)
    requires
        water::state_ok(s),
        s.seeded,
        !s.tilt.need_calib,
        s.tilt.ever_live,
        0 <= i < 448,
        alone(s.pool, i),
        off_wall(s.pool, i),
        ({
            let (jx, jy) = (acc.0 - s.tilt.last.0, acc.1 - s.tilt.last.1);
            (if jx < 0 { -jx } else { jx }) + (if jy < 0 { -jy } else { jy }) <= 2600
        }),
        is_pull(gx, acc.0 - s.tilt.bias_x),
        is_pull(gy, acc.1 - s.tilt.bias_y),
    ensures
        ({
            let n = water::ticked(s, a, Some(acc)).pool;
            let (vx, vy) = (s.pool.vx[i] + gx, s.pool.vy[i] + gy);
            &&& -1024 <= vx <= 1024 ==> n.px[i] - s.pool.px[i] == vx && is_damped(n.vx[i] as int, vx)
            &&& vx > 1024 ==> n.px[i] - s.pool.px[i] == 1024
            &&& vx < -1024 ==> n.px[i] - s.pool.px[i] == -1024
            &&& !s.pool.surf[i] && -1024 <= vy <= 1024 ==> n.py[i] - s.pool.py[i] == vy && is_damped(n.vy[i] as int, vy)
            &&& s.pool.surf[i] && -1000 <= vy <= 1000 ==> vy - 24 <= n.py[i] - s.pool.py[i] <= vy + 24
        }),
{
    let phase = (if s.phase == u32::MAX { 0 } else { s.phase + 1 }) as u32;
    let t = water::noticed(s.tilt, Some(acc), false);
    let f = water::forces(t, acc, true, phase);
    assert(f.gx == gx && f.gy == gy && f.sx == 0 && f.sy == 0 && !f.spray);
    lemma_breathing(phase, phase, imath::sabs(gx) + imath::sabs(gy));
    let p = s.pool;
    let (p1, r) = pool::advected(p, f, s.rng, 448);
    lemma_advected(p, f, s.rng, 448);
    let b = if p.surf[i] { f.breathe as int } else { 0 };
    assert(p1.px[i] == p.px[i] + pool::held(p.vx[i] + gx));
    assert(p1.py[i] == p.py[i] + pool::held(p.vy[i] + gy + b));
    assert forall|j: int| 0 <= j < 448 && j != i implies #[trigger] pool::apart2(p1, i, j) >= 256 by {
        assert(p.px[j] - p.px[i] >= 3200 || p.px[i] - p.px[j] >= 3200 || p.py[j] - p.py[i] >= 3200 || p.py[i]
            - p.py[j] >= 3200);
        let dx = p1.px[i] as int / 64 - p1.px[j] as int / 64;
        let dy = p1.py[i] as int / 64 - p1.py[j] as int / 64;
        assert(-1024 <= p1.px[j] - p.px[j] <= 1024 && -1024 <= p1.py[j] - p.py[j] <= 1024);
        assert(dx >= 16 || dx <= -16 || dy >= 16 || dy <= -16);
        assert(dx * dx + dy * dy >= 256) by (nonlinear_arith)
            requires
                dx >= 16 || dx <= -16 || dy >= 16 || dy <= -16,
        ;
    }
    let cells = water_hash::cells_of(p1.px, p1.py);
    let p2 = pool::relaxed(p1, a.push@, cells, 448);
    lemma_relaxed_alone(p1, a.push@, cells, i, 448);
    let p3 = pool::damped_all(p2, 448);
    lemma_damped_all(p2, 448);
    let p4 = pool::walled_all(p3, 448);
    lemma_walled_all(p3, 448);
    let (dx, dy) = (p3.px[i] as int / 64 - 233, p3.py[i] as int / 64 - 233);
    assert(p3.px == p1.px && p3.py == p1.py);
    assert(dx * dx + dy * dy <= 156 * 156 + 156 * 156) by (nonlinear_arith)
        requires
            -156 <= dx <= 156,
            -156 <= dy <= 156,
    ;
    assert(pool::within_wall(p3.px[i] as int, p3.py[i] as int));
    assert(p4.px[i] == p3.px[i]);
    assert(p4.py[i] == p3.py[i] && p4.vx[i] == p3.vx[i] && p4.vy[i] == p3.vy[i]);
}

/// Every particle moves by its driven velocity, and by itself.
proof fn lemma_advected(p: Pool, f: Force, rng: u32, n: int)
    requires
        pool::pool_ok(p),
        0 <= n <= 448,
        !f.spray,
    ensures
        ({
            let q = pool::advected(p, f, rng, n).0;
            &&& q.px.len() == 448 && q.py.len() == 448 && q.vx.len() == 448 && q.vy.len() == 448
            &&& q.nbr == p.nbr && q.surf == p.surf
            &&& forall|k: int|
                0 <= k < n ==> {
                    let b = if p.surf[k] { f.breathe as int } else { 0 };
                    let (vx, vy) = (pool::held(p.vx[k] + f.gx + f.sx), pool::held(p.vy[k] + f.gy + f.sy + b));
                    (#[trigger] q.px[k]) == p.px[k] + vx && q.py[k] == p.py[k] + vy && q.vx[k] == vx && q.vy[k] == vy
                }
            &&& forall|k: int|
                n <= k < 448 ==> (#[trigger] q.px[k]) == p.px[k] && q.py[k] == p.py[k] && q.vx[k] == p.vx[k] && q.vy[k]
                    == p.vy[k]
        }),
    decreases n,
{
    if n > 0 {
        lemma_advected(p, f, rng, n - 1);
        let q = pool::advected(p, f, rng, n - 1).0;
        assert(q.px[n - 1] == p.px[n - 1]);
        assert(0 <= p.px[n - 1] + 0 <= 30_000 && 0 <= p.py[n - 1] + 0 <= 30_000);
        let z = pool::advected(p, f, rng, n).0;
        let b = if p.surf[n - 1] { f.breathe as int } else { 0 };
        assert(z.vx[n - 1] == pool::held(p.vx[n - 1] + f.gx + f.sx));
        assert(z.vy[n - 1] == pool::held(p.vy[n - 1] + f.gy + f.sy + b));
        assert forall|k: int| 0 <= k < n implies {
            let b = if p.surf[k] { f.breathe as int } else { 0 };
            let (vx, vy) = (pool::held(p.vx[k] + f.gx + f.sx), pool::held(p.vy[k] + f.gy + f.sy + b));
            (#[trigger] z.px[k]) == p.px[k] + vx && z.py[k] == p.py[k] + vy && z.vx[k] == vx && z.vy[k] == vy
        } by {
            if k < n - 1 {
                assert(z.px[k] == q.px[k]);
            }
        }
        assert forall|k: int| n <= k < 448 implies (#[trigger] z.px[k]) == p.px[k] && z.py[k] == p.py[k] && z.vx[k]
            == p.vx[k] && z.vy[k] == p.vy[k] by {
            assert(z.px[k] == q.px[k]);
        }
    }
}

proof fn lemma_list_alone(p: Pool, i: int, push: Seq<i16>, list: Seq<int>, a: Impulse, m: int)
    requires
        0 <= m <= list.len(),
        forall|t: int| 0 <= t < list.len() ==> 0 <= #[trigger] list[t] < 448,
        forall|j: int| 0 <= j < 448 && j != i ==> #[trigger] pool::apart2(p, i, j) >= 256,
    ensures
        pool::over_list(p, i, push, list, a, m) == a,
    decreases m,
{
    if m > 0 {
        lemma_list_alone(p, i, push, list, a, m - 1);
        assert(0 <= list[m - 1] < 448);
    }
}

proof fn lemma_cells_alone(p: Pool, i: int, push: Seq<i16>, cells: Seq<int>, k: int)
    requires
        forall|j: int| 0 <= j < 448 && j != i ==> #[trigger] pool::apart2(p, i, j) >= 256,
    ensures
        pool::over_cells(p, i, push, cells, k) == (Impulse { ax: 0, ay: 0, n: 0 }),
    decreases k,
{
    if k > 0 {
        lemma_cells_alone(p, i, push, cells, k - 1);
        if let Some(c) = pool::near_cell(p, i, k - 1) {
            water_hash::lemma_members_range(cells, c, 448);
            let list = water_hash::members(cells, c, 448);
            lemma_list_alone(p, i, push, list, Impulse { ax: 0, ay: 0, n: 0 }, list.len() as int);
        }
    }
}

proof fn lemma_relaxed_alone(p: Pool, push: Seq<i16>, cells: Seq<int>, i: int, n: int)
    requires
        0 <= i < 448,
        0 <= n <= 448,
        p.vx.len() == 448 && p.vy.len() == 448 && p.nbr.len() == 448 && p.surf.len() == 448,
        -1024 <= p.vx[i] <= 1024,
        -1024 <= p.vy[i] <= 1024,
        forall|j: int| 0 <= j < 448 && j != i ==> #[trigger] pool::apart2(p, i, j) >= 256,
    ensures
        ({
            let q = pool::relaxed(p, push, cells, n);
            &&& q.px == p.px && q.py == p.py
            &&& q.vx.len() == 448 && q.vy.len() == 448 && q.nbr.len() == 448 && q.surf.len() == 448
            &&& q.vx[i] == p.vx[i] && q.vy[i] == p.vy[i]
        }),
    decreases n,
{
    if n > 0 {
        lemma_relaxed_alone(p, push, cells, i, n - 1);
        let q = pool::relaxed(p, push, cells, n - 1);
        if n - 1 == i {
            assert forall|j: int| 0 <= j < 448 && j != i implies #[trigger] pool::apart2(q, i, j) >= 256 by {
                assert(pool::apart2(p, i, j) >= 256);
            }
            lemma_cells_alone(q, i, push, cells, 9);
        }
    }
}

proof fn lemma_damped_all(p: Pool, n: int)
    requires
        0 <= n <= 448,
        p.vx.len() == 448 && p.vy.len() == 448,
    ensures
        ({
            let q = pool::damped_all(p, n);
            &&& q.px == p.px && q.py == p.py
            &&& q.vx.len() == 448 && q.vy.len() == 448
            &&& forall|k: int|
                0 <= k < n ==> (#[trigger] q.vx[k]) == pool::damped(p.vx[k] as int) as i16 && q.vy[k] == pool::damped(
                    p.vy[k] as int,
                ) as i16
            &&& forall|k: int| n <= k < 448 ==> (#[trigger] q.vx[k]) == p.vx[k] && q.vy[k] == p.vy[k]
        }),
    decreases n,
{
    if n > 0 {
        lemma_damped_all(p, n - 1);
        assert(pool::damped_all(p, n - 1).vx[n - 1] == p.vx[n - 1]);
    }
}

proof fn lemma_walled_all(p: Pool, n: int)
    requires
        0 <= n <= 448,
        p.px.len() == 448 && p.py.len() == 448 && p.vx.len() == 448 && p.vy.len() == 448,
    ensures
        ({
            let q = pool::walled_all(p, n);
            &&& q.px.len() == 448 && q.py.len() == 448 && q.vx.len() == 448 && q.vy.len() == 448
            &&& forall|k: int|
                0 <= k < 448 && (n <= k || pool::within_wall(p.px[k] as int, p.py[k] as int)) ==> (#[trigger] q.px[k])
                    == p.px[k] && q.py[k] == p.py[k] && q.vx[k] == p.vx[k] && q.vy[k] == p.vy[k]
        }),
    decreases n,
{
    if n > 0 {
        lemma_walled_all(p, n - 1);
        assert(pool::walled_all(p, n - 1).px[n - 1] == p.px[n - 1]);
    }
}

/// A neighbour within 16 pixels pushes a particle away from itself, by the table, and drags it
/// towards its own velocity; one farther off, or a twenty-fifth, does nothing.
pub proof fn lemma_neighbour_pushes(p: Pool, i: int, j: int, push: Seq<i16>, a: Impulse)
    ensures
        ({
            let dx = p.px[i] as int / 64 - p.px[j] as int / 64;
            let dy = p.py[i] as int / 64 - p.py[j] as int / 64;
            let d2 = dx * dx + dy * dy;
            let b = pool::joined(p, i, j, push, a);
            let counts = a.n < 24 && j != i && d2 < 256;
            &&& b.n == a.n + (if counts { 1int } else { 0 })
            &&& !counts ==> b == a
            &&& counts && d2 == 0 && i > j ==> b.ax - a.ax == 96 && b.ay == a.ay
            &&& counts && d2 == 0 && i < j ==> b.ax - a.ax == -96 && b.ay == a.ay
            &&& counts && d2 > 0 && p.vx[i] == p.vx[j] ==> {
                &&& push[d2] * dx >= 0 ==> b.ax >= a.ax
                &&& push[d2] * dx <= 0 ==> b.ax <= a.ax
                &&& 128 * (b.ax - a.ax) <= push[d2] * dx < 128 * (b.ax - a.ax + 1)
            }
            &&& counts && d2 > 0 && p.vy[i] == p.vy[j] ==> {
                &&& push[d2] * dy >= 0 ==> b.ay >= a.ay
                &&& push[d2] * dy <= 0 ==> b.ay <= a.ay
                &&& 128 * (b.ay - a.ay) <= push[d2] * dy < 128 * (b.ay - a.ay + 1)
            }
            &&& counts && d2 > 0 && push[d2] == 0 ==> {
                &&& 256 * (b.ax - a.ax) <= 40 * (p.vx[j] - p.vx[i]) < 256 * (b.ax - a.ax + 1)
                &&& 256 * (b.ay - a.ay) <= 40 * (p.vy[j] - p.vy[i]) < 256 * (b.ay - a.ay + 1)
            }
        }),
{
    let dx = p.px[i] as int / 64 - p.px[j] as int / 64;
    let dy = p.py[i] as int / 64 - p.py[j] as int / 64;
    let d2 = dx * dx + dy * dy;
    assert(d2 >= 0) by (nonlinear_arith)
        requires
            d2 == dx * dx + dy * dy,
    ;
    assert(push[d2] == 0 ==> push[d2] * dx == 0 && push[d2] * dy == 0) by (nonlinear_arith);
}

/// A particle takes half of what its neighbours give it; with fewer than three of them it is
/// at the surface, with five or more it is not, and in between it stays what it was.
pub proof fn lemma_surface(p: Pool, i: int, push: Seq<i16>, cells: Seq<int>)
    requires
        0 <= i < 448,
        p.vx.len() == 448 && p.vy.len() == 448 && p.nbr.len() == 448 && p.surf.len() == 448,
        0 <= pool::over_cells(p, i, push, cells, 9).n <= 24,
    ensures
        ({
            let a = pool::over_cells(p, i, push, cells, 9);
            let q = pool::relax_one(p, i, push, cells);
            &&& q.nbr[i] == a.n
            &&& q.nbr[i] < 3 ==> q.surf[i]
            &&& q.nbr[i] >= 5 ==> !q.surf[i]
            &&& 3 <= q.nbr[i] < 5 ==> q.surf[i] == p.surf[i]
            &&& -900 <= p.vx[i] <= 900 && -200 <= a.ax <= 200 ==> 2 * (q.vx[i] - p.vx[i]) <= a.ax < 2 * (q.vx[i]
                - p.vx[i] + 1)
            &&& -900 <= p.vy[i] <= 900 && -200 <= a.ay <= 200 ==> 2 * (q.vy[i] - p.vy[i]) <= a.ay < 2 * (q.vy[i]
                - p.vy[i] + 1)
            &&& q.px == p.px && q.py == p.py
            &&& forall|k: int| 0 <= k < 448 && k != i ==> (#[trigger] q.vx[k]) == p.vx[k] && q.vy[k] == p.vy[k]
        }),
{
}

/// Every cell within a cell of a particle's own is looked at, its own first, and no other.
pub proof fn lemma_neighbourhood(k: int, ox: int, oy: int)
    requires
        0 <= k < 9,
        -1 <= ox <= 1,
        -1 <= oy <= 1,
    ensures
        -1 <= pool::offset(k).0 <= 1,
        -1 <= pool::offset(k).1 <= 1,
        pool::offset(0) == (0int, 0int),
        exists|m: int| 0 <= m < 9 && #[trigger] pool::offset(m) == (ox, oy),
        forall|m: int| 0 <= m < 9 && m != k ==> #[trigger] pool::offset(m) != pool::offset(k),
{
    let m = if oy == 0 {
        if ox == 0 { 0int } else if ox == -1 { 1 } else { 2 }
    } else if oy == -1 {
        if ox == 0 { 3int } else if ox == -1 { 5 } else { 6 }
    } else {
        if ox == 0 { 4int } else if ox == -1 { 7 } else { 8 }
    };
    assert(pool::offset(m) == (ox, oy));
}

/// A particle beyond the wall lands where its ray meets the rim, up to rounding, or on the last
/// whole pixel before it.
pub proof fn lemma_rim(dx: int, dy: int, r: int)
    requires
        dx * dx + dy * dy > 222 * 222,
        r * r <= dx * dx + dy * dy < (r + 1) * (r + 1),
        r >= 0,
    ensures
        ({
            let (qx, qy) = (pool::on_rim(dx, dy).0 - 14_912, pool::on_rim(dx, dy).1 - 14_912);
            ||| is_part(qx, dx * 14_208, r) && is_part(qy, dy * 14_208, r)
            ||| qx % 64 == 0 && qy % 64 == 0 && is_part(qx / 64, dx * 222, r + 1) && is_part(qy / 64, dy * 222, r + 1)
        }),
{
    let r2 = dx * dx + dy * dy;
    imath::lemma_sqrt_exists(r2);
    let s = imath::sqrt_of(r2);
    assert(s == r) by (nonlinear_arith)
        requires
            s * s <= r2 < (s + 1) * (s + 1),
            r * r <= r2 < (r + 1) * (r + 1),
            s >= 0,
            r >= 0,
    ;
    assert(r >= 1) by (nonlinear_arith)
        requires
            222 * 222 < r2 < (r + 1) * (r + 1),
            r >= 0,
    ;
    lemma_part(dx * 14_208, r);
    lemma_part(dy * 14_208, r);
    lemma_part(dx * 222, r + 1);
    lemma_part(dy * 222, r + 1);
}

/// `q` is `n / d` rounded towards zero.
pub open spec fn is_part(q: int, n: int, d: int) -> bool {
    &&& n >= 0 ==> q >= 0 && q * d <= n < (q + 1) * d
    &&& n <= 0 ==> q <= 0 && (q - 1) * d < n <= q * d
}

proof fn lemma_part(n: int, d: int)
    requires
        d >= 1,
    ensures
        is_part(imath::tdiv(n, d), n, d),
{
    let m = if n >= 0 { n } else { -n };
    let q = m / d;
    assert(q * d <= m < (q + 1) * d && q >= 0) by (nonlinear_arith)
        requires
            q == m / d,
            d >= 1,
            m >= 0,
    ;
    let w = -q;
    assert((w - 1) * d == -((q + 1) * d) && w * d == -(q * d)) by (nonlinear_arith)
        requires
            w == -q,
    ;
    if n == 0 {
        assert(q == 0) by (nonlinear_arith)
            requires
                q * d <= 0,
                d >= 1,
                q >= 0,
        ;
    }
}

/// The wall throws back what runs into it with a tenth of its speed, lets pass what runs along
/// it, and leaves alone what already turns away.
pub proof fn lemma_wall_bounces(m: pool::Motion)
    requires
        -1024 <= m.vx <= 1024,
        -1024 <= m.vy <= 1024,
        !pool::within_wall(m.x, m.y),
    ensures
        ({
            let (dx, dy) = (m.x / 64 - 233, m.y / 64 - 233);
            let n = pool::walled(m);
            &&& m.vx * dx + m.vy * dy <= 0 ==> n.vx == m.vx && n.vy == m.vy
            &&& dy == 0 && dx > 0 && m.vx > 0 ==> n.vy == m.vy && n.vx <= 0 && -256 * n.vx <= 26 * m.vx < 256 * (1
                - n.vx)
            &&& dy == 0 && dx < 0 && m.vx < 0 ==> n.vy == m.vy && n.vx >= 0 && 256 * n.vx <= -26 * m.vx < 256 * (1
                + n.vx)
            &&& dx == 0 && dy > 0 && m.vy > 0 ==> n.vx == m.vx && n.vy <= 0 && -256 * n.vy <= 26 * m.vy < 256 * (1
                - n.vy)
            &&& dx == 0 && dy < 0 && m.vy < 0 ==> n.vx == m.vx && n.vy >= 0 && 256 * n.vy <= -26 * m.vy < 256 * (1
                + n.vy)
        }),
{
    let (dx, dy) = (m.x / 64 - 233, m.y / 64 - 233);
    let r2 = dx * dx + dy * dy;
    let r = imath::sqrt_of(r2);
    imath::lemma_sqrt_exists(r2);
    assert(r >= 1) by (nonlinear_arith)
        requires
            222 * 222 < r2 < (r + 1) * (r + 1),
            r >= 0,
    ;
    let s = m.vx * dx + m.vy * dy;
    lemma_part(s, r);
    if s <= 0 {
        assert(imath::tdiv(s, r) <= 0);
    }
    if dy == 0 {
        lemma_axis(dx, r, m.vx, m.vy, s);
    }
    if dx == 0 {
        lemma_axis(dy, r, m.vy, m.vx, s);
    }
}

/// Head on, along one axis.
proof fn lemma_axis(d: int, r: int, v: int, w: int, s: int)
    requires
        d != 0,
        r >= 1,
        r * r <= d * d < (r + 1) * (r + 1),
        s == v * d + w * 0 || s == w * 0 + v * d,
        -1024 <= v <= 1024,
    ensures
        d > 0 ==> r == d && imath::tdiv(s, r) == v,
        d < 0 ==> r == -d && imath::tdiv(s, r) == -v,
        forall|k: int| #![trigger k * d] d > 0 ==> imath::tdiv(k * d, r) == k,
        forall|k: int| #![trigger k * d] d < 0 ==> imath::tdiv(k * d, r) == -k,
        forall|k: int| #![trigger k * 0] imath::tdiv(k * 0, r) == 0,
{
    assert(w * 0 == 0);
    if d > 0 {
        assert(r == d) by (nonlinear_arith)
            requires
                r * r <= d * d < (r + 1) * (r + 1),
                r >= 1,
                d > 0,
        ;
    } else {
        assert(r == -d) by (nonlinear_arith)
            requires
                r * r <= d * d < (r + 1) * (r + 1),
                r >= 1,
                d < 0,
        ;
    }
    assert forall|k: int| #![trigger k * d] (d > 0 ==> imath::tdiv(k * d, r) == k) && (d < 0 ==> imath::tdiv(k * d, r)
        == -k) by {
        lemma_multiple(k, d, r);
    }
    assert forall|k: int| #![trigger k * 0] imath::tdiv(k * 0, r) == 0 by {
        assert(k * 0 == 0);
        assert(0int / r == 0) by (nonlinear_arith)
            requires
                r >= 1,
        ;
    }
    lemma_multiple(v, d, r);
}

proof fn lemma_multiple(k: int, d: int, r: int)
    requires
        d != 0,
        r == (if d > 0 { d } else { -d }),
    ensures
        d > 0 ==> imath::tdiv(k * d, r) == k,
        d < 0 ==> imath::tdiv(k * d, r) == -k,
{
    let n = k * d;
    lemma_part(n, r);
    let q = imath::tdiv(n, r);
    let e = if d > 0 { k } else { -k };
    assert(n == e * r) by (nonlinear_arith)
        requires
            n == k * d,
            (d > 0 && r == d && e == k) || (d < 0 && r == -d && e == -k),
    ;
    assert(q == e) by (nonlinear_arith)
        requires
            n == e * r,
            r >= 1,
            n >= 0 ==> q * r <= n < (q + 1) * r,
            n <= 0 ==> (q - 1) * r < n <= q * r,
    ;
}

/// The square of particle `k` holds the pixel: two pixels around it, below the status band.
pub open spec fn square_has(p: Pool, k: int, x: int, y: int) -> bool {
    let (cx, cy) = (p.px[k] as int / 64, p.py[k] as int / 64);
    cy >= 70 && y >= 70 && -2 <= x - cx <= 2 && -2 <= y - cy <= 2
}

/// Colour of the body of particle `k` at a pixel.
pub open spec fn body_color(p: Pool, a: WaterAssets, k: int, ms: int, alpha: int, x: int, y: int) -> (u8, u8) {
    let v = water_paint::body_level(p, a, k, ms, alpha) + water_paint::dither(x, y);
    a.lut@[if v < 0 { 0 } else if v > 255 { 255 } else { v }]
}

/// The water is seen where it is: a pixel in the square of a particle, none drawn after it,
/// shows that particle's body, or, while there are sparkles and a surface line, at least its
/// brightness.
pub proof fn lemma_water_is_seen(
    f: WaterFrame,
    w: int,
    h: int,
    p: Pool,
    a: WaterAssets,
    ms: int,
    alpha: int,
    k: int,
    x: int,
    y: int,
)
    requires
        raster::has_px(f.fb.len() as int, x, y),
        0 <= k < 448,
        square_has(p, k, x, y),
        forall|j: int| k < j < 448 ==> !#[trigger] square_has(p, j, x, y),
    ensures
        ({
            let q = raster::px_at(water_paint::rendered(f, w, h, p, a, ms, alpha).fb, x, y);
            &&& pixel::as_bright(q, body_color(p, a, k, ms, alpha, x, y))
            &&& alpha < 200 ==> q == body_color(p, a, k, ms, alpha, x, y)
        }),
{
    let er = water_paint::erase_box(water_paint::drawn_box(p), f.bbox);
    let base = water_paint::wiped(f.fb, er);
    raster::lemma_shade_len(
        f.fb,
        er.0,
        er.1,
        er.2 + 1,
        er.3 + 1,
        water_paint::wipe_shader(f.fb.len() as int, er.2),
    );
    let s0 = Paint { fb: base, budget: 72, tops: Seq::new(64, |i: int| i16::MAX) };
    lemma_drops_seen(s0, p, a, ms, alpha, k, 448, x, y);
    let s = water_paint::with_drops(s0, p, a, ms, alpha, 448);
    lemma_meniscus_lightens(s.fb, s.tops, a.line@[210], 64, x, y);
}

/// Where there is no water, what was there is wiped inside the box of this and the last frame
/// and kept outside it.
pub proof fn lemma_no_water_is_black(
    f: WaterFrame,
    w: int,
    h: int,
    p: Pool,
    a: WaterAssets,
    ms: int,
    alpha: int,
    x: int,
    y: int,
)
    requires
        f.fb.len() == 434_312,
        0 <= x < 466,
        0 <= y < 466,
        alpha < 200,
        forall|j: int| 0 <= j < 448 ==> !#[trigger] square_has(p, j, x, y),
    ensures
        ({
            let q = raster::px_at(water_paint::rendered(f, w, h, p, a, ms, alpha).fb, x, y);
            let er = water_paint::erase_box(water_paint::drawn_box(p), f.bbox);
            if er.0 <= x <= er.2 && er.1 <= y <= er.3 {
                q == (0u8, 0u8)
            } else {
                q == raster::px_at(f.fb, x, y)
            }
        }),
{
    let er = water_paint::erase_box(water_paint::drawn_box(p), f.bbox);
    let sh = water_paint::wipe_shader(f.fb.len() as int, er.2);
    let base = water_paint::wiped(f.fb, er);
    raster::lemma_shade_len(f.fb, er.0, er.1, er.2 + 1, er.3 + 1, sh);
    raster::lemma_shade_px(f.fb, er.0, er.1, er.2 + 1, er.3 + 1, sh, x, y);
    let s0 = Paint { fb: base, budget: 72, tops: Seq::new(64, |i: int| i16::MAX) };
    lemma_drops_unseen(s0, p, a, ms, alpha, 448, x, y);
}

proof fn lemma_drops_unseen(s: Paint, p: Pool, a: WaterAssets, ms: int, alpha: int, n: int, x: int, y: int)
    requires
        raster::has_px(s.fb.len() as int, x, y),
        0 <= n <= 448,
        alpha < 200,
        forall|j: int| 0 <= j < n ==> !#[trigger] square_has(p, j, x, y),
    ensures
        water_paint::with_drops(s, p, a, ms, alpha, n).fb.len() == s.fb.len(),
        raster::px_at(water_paint::with_drops(s, p, a, ms, alpha, n).fb, x, y) == raster::px_at(s.fb, x, y),
    decreases n,
{
    if n > 0 {
        lemma_drops_unseen(s, p, a, ms, alpha, n - 1, x, y);
        let t = water_paint::with_drops(s, p, a, ms, alpha, n - 1);
        assert(!square_has(p, n - 1, x, y));
        lemma_drop_seen(t, p, a, ms, alpha, n - 1, x, y);
    }
}

proof fn lemma_drops_seen(s: Paint, p: Pool, a: WaterAssets, ms: int, alpha: int, k: int, n: int, x: int, y: int)
    requires
        raster::has_px(s.fb.len() as int, x, y),
        0 <= k < n <= 448,
        square_has(p, k, x, y),
        forall|j: int| k < j < n ==> !#[trigger] square_has(p, j, x, y),
    ensures
        ({
            let t = water_paint::with_drops(s, p, a, ms, alpha, n);
            let q = raster::px_at(t.fb, x, y);
            &&& t.fb.len() == s.fb.len()
            &&& pixel::as_bright(q, body_color(p, a, k, ms, alpha, x, y))
            &&& alpha < 200 ==> q == body_color(p, a, k, ms, alpha, x, y)
        }),
    decreases n,
{
    let t = water_paint::with_drops(s, p, a, ms, alpha, n - 1);
    if k < n - 1 {
        lemma_drops_seen(s, p, a, ms, alpha, k, n - 1, x, y);
        assert(!square_has(p, n - 1, x, y));
    } else {
        lemma_drops_len(s, p, a, ms, alpha, n - 1);
    }
    lemma_drop_seen(t, p, a, ms, alpha, n - 1, x, y);
}

pub proof fn lemma_drops_len(s: Paint, p: Pool, a: WaterAssets, ms: int, alpha: int, n: int)
    ensures
        water_paint::with_drops(s, p, a, ms, alpha, n).fb.len() == s.fb.len(),
    decreases n,
{
    if n > 0 {
        lemma_drops_len(s, p, a, ms, alpha, n - 1);
        let t = water_paint::with_drops(s, p, a, ms, alpha, n - 1);
        let (cx, cy) = (p.px[n - 1] as int / 64, p.py[n - 1] as int / 64);
        let level = water_paint::body_level(p, a, n - 1, ms, alpha);
        let sh = water_paint::body_shader(a.lut@, level);
        raster::lemma_shade_len(t.fb, cx - 2, imath::smax(cy - 2, 70), cx + 3, cy + 3, sh);
        let b = water_paint::body_on(t.fb, a.lut@, cx, cy, level);
        raster::lemma_shade_len(
            b,
            cx - 3,
            imath::smax(cy - 3, 70),
            cx + 4,
            cy + 4,
            water_paint::spark_shader(a.spark@, cx, cy),
        );
    }
}

/// One particle drawn: its square takes its body, and its sparkle only lightens.
proof fn lemma_drop_seen(t: Paint, p: Pool, a: WaterAssets, ms: int, alpha: int, k: int, x: int, y: int)
    requires
        raster::has_px(t.fb.len() as int, x, y),
    ensures
        ({
            let u = water_paint::with_drop(t, p, a, k, ms, alpha);
            let (q, o) = (raster::px_at(u.fb, x, y), raster::px_at(t.fb, x, y));
            let c = body_color(p, a, k, ms, alpha, x, y);
            &&& u.fb.len() == t.fb.len()
            &&& square_has(p, k, x, y) ==> pixel::as_bright(q, c) && (alpha < 200 ==> q == c)
            &&& !square_has(p, k, x, y) ==> pixel::as_bright(q, o) && (alpha < 200 ==> q == o)
        }),
{
    let (cx, cy) = (p.px[k] as int / 64, p.py[k] as int / 64);
    let level = water_paint::body_level(p, a, k, ms, alpha);
    let sh = water_paint::body_shader(a.lut@, level);
    let b = water_paint::body_on(t.fb, a.lut@, cx, cy, level);
    let top = imath::smax(cy - 2, 70);
    raster::lemma_shade_len(t.fb, cx - 2, top, cx + 3, cy + 3, sh);
    raster::lemma_shade_px(t.fb, cx - 2, top, cx + 3, cy + 3, sh, x, y);
    let ss = water_paint::spark_shader(a.spark@, cx, cy);
    let st = imath::smax(cy - 3, 70);
    raster::lemma_shade_len(b, cx - 3, st, cx + 4, cy + 4, ss);
    raster::lemma_shade_px(b, cx - 3, st, cx + 4, cy + 4, ss, x, y);
    let d2 = (x - cx) * (x - cx) + (y - cy) * (y - cy);
    let v = imath::sclamp(150 * (9 - d2) * (9 - d2) / 81, 0, 255);
    pixel::lemma_lighter(raster::px_at(b, x, y), a.spark@[v]);
}

pub proof fn lemma_glint_lightens(fb: Seq<u8>, gx: int, gy: int, c: (u8, u8), x: int, y: int)
    requires
        raster::has_px(fb.len() as int, x, y),
    ensures
        water_paint::glint(fb, gx, gy, c).len() == fb.len(),
        pixel::as_bright(raster::px_at(water_paint::glint(fb, gx, gy, c), x, y), raster::px_at(fb, x, y)),
{
    pixel::lemma_lighter(raster::px_at(fb, gx, gy), c);
    if raster::has_px(fb.len() as int, gx, gy) {
        assert(raster::slot(gx, gy) == raster::slot(x, y) ==> gx == x && gy == y);
        assert(raster::slot(gx, gy) % 2 == 0 && raster::slot(x, y) % 2 == 0);
    }
}

pub proof fn lemma_line_lightens(fb: Seq<u8>, x0: int, y0: int, sx: int, sy: int, c: (u8, u8), k: int, x: int, y: int)
    requires
        raster::has_px(fb.len() as int, x, y),
    ensures
        water_paint::line_on(fb, x0, y0, sx, sy, c, k).len() == fb.len(),
        pixel::as_bright(raster::px_at(water_paint::line_on(fb, x0, y0, sx, sy, c, k), x, y), raster::px_at(fb, x, y)),
    decreases k,
{
    if k > 0 {
        lemma_line_lightens(fb, x0, y0, sx, sy, c, k - 1, x, y);
        let prev = water_paint::line_on(fb, x0, y0, sx, sy, c, k - 1);
        let gx = (x0 * 256 + (k - 1) * sx) / 256;
        let gy = (y0 * 256 + (k - 1) * sy) / 256;
        lemma_glint_lightens(prev, gx, gy, c, x, y);
        lemma_glint_lightens(water_paint::glint(prev, gx, gy, c), gx, gy + 1, c, x, y);
    }
}

pub proof fn lemma_meniscus_lightens(fb: Seq<u8>, tops: Seq<i16>, c: (u8, u8), n: int, x: int, y: int)
    requires
        raster::has_px(fb.len() as int, x, y),
    ensures
        water_paint::meniscus_on(fb, tops, c, n).len() == fb.len(),
        pixel::as_bright(raster::px_at(water_paint::meniscus_on(fb, tops, c, n), x, y), raster::px_at(fb, x, y)),
    decreases n,
{
    if n > 1 {
        lemma_meniscus_lightens(fb, tops, c, n - 1, x, y);
        let prev = water_paint::meniscus_on(fb, tops, c, n - 1);
        if let (Some(a), Some(b)) = (water_paint::crest(tops, n - 2), water_paint::crest(tops, n - 1)) {
            let steps = imath::smax(imath::smax(imath::sabs(b.0 - a.0), imath::sabs(b.1 - a.1)), 1);
            lemma_line_lightens(
                prev,
                a.0,
                a.1,
                imath::tdiv((b.0 - a.0) * 256, steps),
                imath::tdiv((b.1 - a.1) * 256, steps),
                c,
                steps + 1,
                x,
                y,
            );
        }
    }
}

/// The body of a particle is the brighter at the surface, in motion, and with fewer
/// neighbours, and darker as the water fades.
pub proof fn lemma_body_level(p: Pool, q: Pool, a: WaterAssets, i: int, ms: int, alpha: int, beta: int)
    requires
        p.px[i] == q.px[i] && p.py[i] == q.py[i],
        0 <= beta <= alpha,
    ensures
        ({
            let (b, c) = (
                water_paint::body_level(p, a, i, ms, alpha),
                water_paint::body_level(q, a, i, ms, alpha),
            );
            let same_speed = p.vx[i] == q.vx[i] && p.vy[i] == q.vy[i];
            let size = |v: i16| if v < 0 { -v } else { v as int };
            &&& 0 <= b <= 255
            &&& same_speed && p.nbr[i] == q.nbr[i] && p.surf[i] && !q.surf[i] ==> b >= c
            &&& p.surf[i] == q.surf[i] && p.nbr[i] == q.nbr[i] && size(p.vx[i]) >= size(q.vx[i]) && size(p.vy[i]) >= size(
                q.vy[i],
            ) ==> b >= c
            &&& same_speed && p.surf[i] == q.surf[i] && p.nbr[i] <= q.nbr[i] ==> b >= c
            &&& water_paint::body_level(p, a, i, ms, beta) <= b
            &&& water_paint::body_level(p, a, i, ms, 0) == 0
        }),
{
    let x = p.px[i] as int / 64;
    let y = p.py[i] as int / 64;
    let d = water_paint::drift(a, x, y, ms);
    let raw = |z: Pool|
        (if z.surf[i] { 206int } else { 150 }) + (imath::sabs(z.vx[i] as int) + imath::sabs(z.vy[i] as int)) / 16 + d
            - z.nbr[i] * 3;
    let (r, t) = (raw(p), raw(q));
    assert(r >= t ==> r * alpha >= t * alpha) by (nonlinear_arith)
        requires
            alpha >= 0,
    ;
    assert(r >= 0 ==> r * beta <= r * alpha) by (nonlinear_arith)
        requires
            0 <= beta <= alpha,
    ;
    assert(r < 0 ==> r * beta <= 0 && r * alpha <= 0) by (nonlinear_arith)
        requires
            0 <= beta <= alpha,
    ;
    assert(r * 0 == 0);
}

/// Every particle feels its neighbours, one after another: the next one feels those that moved
/// before it, and where it is pushed the rest keep their motion.
pub proof fn lemma_each_is_pushed(p: Pool, push: Seq<i16>, cells: Seq<int>, n: int)
    requires
        n >= 0,
    ensures
        pool::relaxed(p, push, cells, n + 1) == pool::relax_one(pool::relaxed(p, push, cells, n), n, push, cells),
        pool::relaxed(p, push, cells, 0) == p,
{
}

} // verus!
