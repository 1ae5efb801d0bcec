//! Spatial hash of the water: particles counted and sorted by 16-pixel cell, so that a
//! cell's particles lie side by side, in their own order.
use vstd::prelude::*;

use crate::imath;

verus! {

/// Number of particles.
pub const NW: usize = 448;
/// Cells per row and column.
pub const GRID_W: i32 = 30;
/// Cells in all.
pub const NCELL: usize = 900;

/// Row or column of the grid for a coordinate in 64ths of a pixel.
pub open spec fn grid_of(q: int) -> int {
    imath::sclamp(q / 64, 0, 465) / 16
}

/// Cell of a position.
pub open spec fn cell_at(x: int, y: int) -> int {
    grid_of(y) * 30 + grid_of(x)
}

/// Cells of the particles at the given positions.
pub open spec fn cells_of(px: Seq<i16>, py: Seq<i16>) -> Seq<int> {
    Seq::new(448, |i: int| cell_at(px[i] as int, py[i] as int))
}

/// Those of the first `n` particles that lie in cell `c`, in order.
pub open spec fn members(cells: Seq<int>, c: int, n: int) -> Seq<int>
    decreases n,
{
    if n <= 0 {
        Seq::empty()
    } else if cells[n - 1] == c {
        members(cells, c, n - 1).push(n - 1)
    } else {
        members(cells, c, n - 1)
    }
}

/// How many of the first `n` particles lie in a cell below `c`.
pub open spec fn below(cells: Seq<int>, c: int, n: int) -> int
    decreases c,
{
    if c <= 0 { 0 } else { below(cells, c - 1, n) + members(cells, c - 1, n).len() }
}

proof fn lemma_below_step(cells: Seq<int>, c: int, n: int)
    requires
        0 <= n,
        0 <= cells[n],
    ensures
        below(cells, c, n + 1) == below(cells, c, n) + (if cells[n] < c { 1int } else { 0 }),
    decreases c,
{
    if c > 0 {
        lemma_below_step(cells, c - 1, n);
    }
}

/// Every particle is in exactly one cell.
pub proof fn lemma_below_all(cells: Seq<int>, n: int)
    requires
        0 <= n <= cells.len(),
        forall|i: int| 0 <= i < n ==> 0 <= #[trigger] cells[i] < 900,
    ensures
        below(cells, 900, n) == n,
    decreases n,
{
    if n > 0 {
        lemma_below_all(cells, n - 1);
        lemma_below_step(cells, 900, n - 1);
    } else {
        lemma_below_zero(cells, 900);
    }
}

proof fn lemma_below_zero(cells: Seq<int>, c: int)
    ensures
        below(cells, c, 0) == 0,
    decreases c,
{
    if c > 0 {
        lemma_below_zero(cells, c - 1);
    }
}

proof fn lemma_below_monotonic(cells: Seq<int>, a: int, b: int, n: int)
    requires
        a <= b,
    ensures
        below(cells, a, n) <= below(cells, b, n),
        0 <= below(cells, a, n),
    decreases b - a, a,
{
    if a < b {
        lemma_below_monotonic(cells, a, b - 1, n);
    } else if a > 0 {
        lemma_below_monotonic(cells, a - 1, a - 1, n);
    }
}

proof fn lemma_members_grow(cells: Seq<int>, c: int, m: int, n: int)
    requires
        m <= n,
    ensures
        members(cells, c, m).len() <= members(cells, c, n).len(),
        m >= 0 && m < n && cells[m] == c ==> members(cells, c, m).len() < members(cells, c, n).len(),
    decreases n - m,
{
    if m < n {
        lemma_members_grow(cells, c, m, n - 1);
        if n <= 0 {
        } else if n - 1 == m {
        }
    }
}

/// Every member is one of the particles.
pub proof fn lemma_members_range(cells: Seq<int>, c: int, n: int)
    requires
        0 <= n,
    ensures
        forall|t: int|
            0 <= t < members(cells, c, n).len() ==> 0 <= #[trigger] members(cells, c, n)[t] < n && cells[members(
                cells,
                c,
                n,
            )[t]] == c,
    decreases n,
{
    if n > 0 {
        lemma_members_range(cells, c, n - 1);
        let now = members(cells, c, n);
        let was = members(cells, c, n - 1);
        assert forall|t: int| 0 <= t < now.len() implies 0 <= #[trigger] now[t] < n && cells[now[t]] == c by {
            if t < was.len() {
                assert(now[t] == was[t]);
            }
        }
    }
}

/// The sorted particles, and where each cell's begin.
pub struct CellIndex {
    cell_start: [u16; 901],
    order: [u16; 448],
}

/// Row or column of the grid for a coordinate.
pub fn grid(q: i16) -> (r: i32)
    ensures
        r == grid_of(q as int),
        0 <= r <= 29,
{
    imath::iclamp(imath::asr(q as i32, 6), 0, 465) / 16
}

/// Cell of a position.
pub fn cell_of(x: i16, y: i16) -> (c: usize)
    ensures
        c == cell_at(x as int, y as int),
        c < 900,
{
    (grid(y) * GRID_W + grid(x)) as usize
}

proof fn lemma_cells(px: Seq<i16>, py: Seq<i16>)
    ensures
        cells_of(px, py).len() == 448,
        forall|i: int| 0 <= i < 448 ==> 0 <= #[trigger] cells_of(px, py)[i] < 900,
{
}

/// Particles per cell, shifted by one cell.
fn count_cells(px: &[i16; 448], py: &[i16; 448]) -> (s: [u16; 901])
    ensures
        s@[0] == 0,
        forall|c: int| 0 <= c < 900 ==> (#[trigger] s@[c + 1]) as int == members(cells_of(px@, py@), c, 448).len(),
{
    let ghost cells = cells_of(px@, py@);
    let mut s: [u16; 901] = [0;901];
    let mut i: usize = 0;
    while i < NW
        invariant
            i <= 448,
            cells == cells_of(px@, py@),
            s@[0] == 0,
            forall|c: int| 0 <= c < 900 ==> (#[trigger] s@[c + 1]) as int == members(cells, c, i as int).len(),
            forall|c: int| 0 <= c < 900 ==> #[trigger] s@[c + 1] <= i,
        decreases 448 - i,
    {
        let c: usize = cell_of(px[i], py[i]);
        assert(cells[i as int] == c);
        assert(s@[c + 1] <= i);
        let ghost before = s@;
        s[c + 1] = s[c + 1] + 1;
        assert forall|k: int| 0 <= k < 900 implies (#[trigger] s@[k + 1]) as int == members(cells, k, i + 1).len()
            && s@[k + 1] <= i + 1 by {
            assert(before[k + 1] as int == members(cells, k, i as int).len());
        }
        i = i + 1;
    }
    s
}

/// Running totals: where each cell begins.
fn accumulate(s: &mut [u16; 901], Ghost(cells): Ghost<Seq<int>>)
    requires
        cells.len() == 448,
        forall|i: int| 0 <= i < 448 ==> 0 <= #[trigger] cells[i] < 900,
        old(s)@[0] == 0,
        forall|c: int| 0 <= c < 900 ==> (#[trigger] old(s)@[c + 1]) as int == members(cells, c, 448).len(),
    ensures
        forall|c: int| 0 <= c <= 900 ==> (#[trigger] final(s)@[c]) as int == below(cells, c, 448),
{
    proof {
        lemma_below_all(cells, 448);
    }
    let mut c: usize = 0;
    while c < NCELL
        invariant
            c <= 900,
            cells.len() == 448,
            below(cells, 900, 448) == 448,
            forall|k: int| 0 <= k <= c ==> (#[trigger] s@[k]) as int == below(cells, k, 448),
            forall|k: int| c <= k < 900 ==> (#[trigger] s@[k + 1]) as int == members(cells, k, 448).len(),
        decreases 900 - c,
    {
        let ghost before = s@;
        proof {
            lemma_below_monotonic(cells, c + 1, 900, 448);
            lemma_below_monotonic(cells, c as int, c as int, 448);
            assert(s@[c as int] as int == below(cells, c as int, 448));
            assert(s@[c + 1] as int == members(cells, c as int, 448).len());
        }
        s[c + 1] = s[c + 1] + s[c];
        assert forall|k: int| c + 1 <= k < 900 implies (#[trigger] s@[k + 1]) as int == members(cells, k, 448).len() by {
            assert(before[k + 1] as int == members(cells, k, 448).len());
        }
        assert forall|k: int| 0 <= k <= c + 1 implies (#[trigger] s@[k]) as int == below(cells, k, 448) by {
            if k <= c {
                assert(before[k] as int == below(cells, k, 448));
            }
        }
        c = c + 1;
    }
}

/// Where particle `i` goes lies in its own cell's stretch and is still free.
proof fn lemma_slot_free(cells: Seq<int>, i: int, c: int, t: int)
    requires
        cells.len() == 448,
        forall|k: int| 0 <= k < 448 ==> 0 <= #[trigger] cells[k] < 900,
        0 <= i < 448,
        0 <= c < 900,
        0 <= t < members(cells, c, i).len(),
    ensures
        ({
            let slot = below(cells, cells[i], 448) + members(cells, cells[i], i).len();
            &&& 0 <= slot < 448
            &&& below(cells, c, 448) + t != slot
            &&& 0 <= below(cells, c, 448) + t < 448
        }),
{
    let d = cells[i];
    lemma_slot_bound(cells, i);
    lemma_members_grow(cells, d, i, 448);
    lemma_members_grow(cells, c, i, 448);
    lemma_below_all(cells, 448);
    lemma_below_monotonic(cells, c + 1, 900, 448);
    lemma_below_monotonic(cells, c, c, 448);
    if c < d {
        lemma_below_monotonic(cells, c + 1, d, 448);
    } else if d < c {
        lemma_below_monotonic(cells, d + 1, c, 448);
    }
}

proof fn lemma_slot_bound(cells: Seq<int>, i: int)
    requires
        cells.len() == 448,
        forall|k: int| 0 <= k < 448 ==> 0 <= #[trigger] cells[k] < 900,
        0 <= i < 448,
    ensures
        0 <= below(cells, cells[i], 448) + members(cells, cells[i], i).len() < 448,
{
    let d = cells[i];
    lemma_members_grow(cells, d, i, 448);
    lemma_below_all(cells, 448);
    lemma_below_monotonic(cells, d + 1, 900, 448);
    lemma_below_monotonic(cells, d, d, 448);
}

/// Put each particle behind those of its cell that came before.
fn place(px: &[i16; 448], py: &[i16; 448], start: &[u16; 901]) -> (order: [u16; 448])
    requires
        forall|c: int| 0 <= c <= 900 ==> (#[trigger] start@[c]) as int == below(cells_of(px@, py@), c, 448),
    ensures
        forall|c: int, t: int|
            0 <= c < 900 && 0 <= t < members(cells_of(px@, py@), c, 448).len() ==> (order@[below(
                cells_of(px@, py@),
                c,
                448,
            ) + t] as int) == #[trigger] members(cells_of(px@, py@), c, 448)[t],
{
    let ghost cells = cells_of(px@, py@);
    let mut cursor: [u16; 901] = *start;
    let mut order: [u16; 448] = [0;448];
    proof {
        lemma_cells(px@, py@);
    }
    let mut i: usize = 0;
    while i < NW
        invariant
            i <= 448,
            cells == cells_of(px@, py@),
            cells.len() == 448,
            forall|k: int| 0 <= k < 448 ==> 0 <= #[trigger] cells[k] < 900,
            forall|c: int|
                0 <= c < 900 ==> (#[trigger] cursor@[c]) as int == below(cells, c, 448) + members(
                    cells,
                    c,
                    i as int,
                ).len(),
            forall|c: int, t: int|
                0 <= c < 900 && 0 <= t < members(cells, c, i as int).len() ==> (order@[below(cells, c, 448) + t] as int)
                    == #[trigger] members(cells, c, i as int)[t],
        decreases 448 - i,
    {
        let c: usize = cell_of(px[i], py[i]);
        assert(cells[i as int] == c);
        proof {
            lemma_slot_bound(cells, i as int);
            assert(cursor@[c as int] as int == below(cells, c as int, 448) + members(cells, c as int, i as int).len());
        }
        let s: u16 = cursor[c];
        let ghost before = order@;
        let ghost was = cursor@;
        order[s as usize] = i as u16;
        cursor[c] = s + 1;
        assert forall|d: int, t: int| 0 <= d < 900 && 0 <= t < members(cells, d, i + 1).len() implies (order@[below(
            cells,
            d,
            448,
        ) + t] as int) == #[trigger] members(cells, d, i + 1)[t] by {
            if t < members(cells, d, i as int).len() {
                lemma_slot_free(cells, i as int, d, t);
                assert(before[below(cells, d, 448) + t] as int == members(cells, d, i as int)[t]);
                assert(members(cells, d, i + 1)[t] == members(cells, d, i as int)[t]);
            } else {
                assert(d == c);
                assert(members(cells, d, i + 1) == members(cells, d, i as int).push(i as int));
                assert(below(cells, d, 448) + t == s);
            }
        }
        assert forall|d: int| 0 <= d < 900 implies (#[trigger] cursor@[d]) as int == below(cells, d, 448) + members(
            cells,
            d,
            i + 1,
        ).len() by {
            assert(was[d] as int == below(cells, d, 448) + members(cells, d, i as int).len());
        }
        i = i + 1;
    }
    order
}

/// Sort the particles by cell.
pub fn build_hash(px: &[i16; 448], py: &[i16; 448]) -> (h: CellIndex)
    ensures
        h.sorts(cells_of(px@, py@)),
{
    proof {
        lemma_cells(px@, py@);
    }
    let mut cell_start = count_cells(px, py);
    accumulate(&mut cell_start, Ghost(cells_of(px@, py@)));
    let order = place(px, py, &cell_start);
    CellIndex { cell_start, order }
}

impl CellIndex {
    /// Where each cell starts in the order, and where the last one ends.
    pub closed spec fn starts(&self) -> Seq<u16> {
        self.cell_start@
    }

    /// The particles, sorted by cell.
    pub closed spec fn particles(&self) -> Seq<u16> {
        self.order@
    }

    /// Cell `c` holds its members, in order, from its start to the next cell's.
    pub open spec fn sorts(&self, cells: Seq<int>) -> bool {
        &&& cells.len() == 448
        &&& self.starts().len() == 901
        &&& self.particles().len() == 448
        &&& forall|i: int| 0 <= i < 448 ==> 0 <= #[trigger] cells[i] < 900
        &&& forall|c: int| 0 <= c <= 900 ==> (#[trigger] self.starts()[c]) as int == below(cells, c, 448)
        &&& forall|c: int, t: int|
            0 <= c < 900 && 0 <= t < members(cells, c, 448).len() ==> (self.particles()[below(cells, c, 448) + t] as int)
                == #[trigger] members(cells, c, 448)[t]
    }

    /// Number of particles in a cell.
    pub(crate) fn count(&self, c: usize, Ghost(cells): Ghost<Seq<int>>) -> (n: usize)
        requires
            self.sorts(cells),
            c < 900,
        ensures
            n == members(cells, c as int, 448).len(),
            n <= 448,
    {
        proof {
            lemma_below_all(cells, 448);
            lemma_below_monotonic(cells, c + 1, 900, 448);
            lemma_below_monotonic(cells, c as int, c as int, 448);
            assert(self.starts()[c as int] as int == below(cells, c as int, 448));
            assert(self.starts()[c + 1] as int == below(cells, c + 1, 448));
        }
        self.cell_start[c + 1] as usize - self.cell_start[c] as usize
    }

    /// Particle `t` of a cell.
    pub(crate) fn member(&self, c: usize, t: usize, Ghost(cells): Ghost<Seq<int>>) -> (j: usize)
        requires
            self.sorts(cells),
            c < 900,
            t < members(cells, c as int, 448).len(),
        ensures
            j == members(cells, c as int, 448)[t as int],
            j < 448,
    {
        proof {
            lemma_below_all(cells, 448);
            lemma_below_monotonic(cells, c + 1, 900, 448);
            lemma_below_monotonic(cells, c as int, c as int, 448);
            assert(self.starts()[c as int] as int == below(cells, c as int, 448));
            lemma_members_range(cells, c as int, 448);
            assert(self.particles()[below(cells, c as int, 448) + t] as int == members(cells, c as int, 448)[t as int]);
        }
        self.order[self.cell_start[c] as usize + t] as usize
    }
}

} // verus!
