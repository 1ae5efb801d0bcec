//! Dirty-span index: which pixels of the retained canvas changed since the last
//! flush, as at most 512 horizontal runs. When they do not fit, the index says so and
//! the whole frame has to be flushed.
use vstd::prelude::*;

verus! {

/// Inclusive horizontal run of dirty pixels on one row.
#[derive(Clone, Copy, Default)]
pub struct Span {
    pub y: u16,
    pub x0: u16,
    /// Inclusive.
    pub x1: u16,
}

/// Capacity of the index.
pub const MAX_SPANS: usize = 512;

/// Fixed-capacity list of dirty runs.
pub struct DmiIndex {
    spans: [Span; 512],
    count: usize,
    overflow: bool,
}

/// What an index records.
pub struct Damage {
    pub spans: Seq<Span>,
    pub overflow: bool,
}

/// The pixel will be flushed.
pub open spec fn covers(d: Damage, x: int, y: int) -> bool {
    d.overflow || exists|i: int|
        0 <= i < d.spans.len() && #[trigger] span_has(d.spans[i], x, y)
}

pub open spec fn span_has(s: Span, x: int, y: int) -> bool {
    s.y == y && s.x0 <= x <= s.x1
}

/// Two runs of one row overlap or are neighbours.
pub open spec fn touches(s: Span, y: int, x0: int, x1: int) -> bool {
    s.y == y && x0 <= s.x1 + 1 && s.x0 <= x1 + 1
}

/// The damage after one more run: merged into the last run if it touches it, otherwise
/// appended; the capacity exceeded when there is no room.
pub open spec fn with_span(d: Damage, y: int, x0: int, x1: int) -> Damage {
    if d.overflow || x1 < x0 {
        d
    } else if d.spans.len() > 0 && touches(d.spans.last(), y, x0, x1) {
        let l = d.spans.last();
        Damage {
            spans: d.spans.update(
                d.spans.len() - 1,
                Span {
                    y: l.y,
                    x0: if l.x0 <= x0 { l.x0 } else { x0 as u16 },
                    x1: if l.x1 >= x1 { l.x1 } else { x1 as u16 },
                },
            ),
            overflow: false,
        }
    } else if d.spans.len() == 512 {
        Damage { spans: d.spans, overflow: true }
    } else {
        Damage {
            spans: d.spans.push(Span { y: y as u16, x0: x0 as u16, x1: x1 as u16 }),
            overflow: false,
        }
    }
}

/// The damage after the run `x0..=x1` on each of `n` rows from `y0` on.
pub open spec fn with_rows(d: Damage, x0: int, x1: int, y0: int, n: int) -> Damage
    decreases n,
{
    if n <= 0 {
        d
    } else {
        with_span(with_rows(d, x0, x1, y0, n - 1), y0 + n - 1, x0, x1)
    }
}

/// The damage after an inclusive rectangle.
pub open spec fn with_rect(d: Damage, x0: int, y0: int, x1: int, y1: int) -> Damage {
    with_rows(d, x0, x1, y0, y1 - y0 + 1)
}

/// No damage.
pub open spec fn clean() -> Damage {
    Damage { spans: Seq::empty(), overflow: false }
}

/// Every recorded run is non-empty and there are at most 512.
pub open spec fn damage_ok(d: Damage) -> bool {
    d.spans.len() <= 512 && forall|i: int| 0 <= i < d.spans.len() ==> (#[trigger] d.spans[i]).x0 <= d.spans[i].x1
}

/// Recording a run marks its pixels and, short of overflow, no others: the index holds
/// exactly the union of what was recorded.
pub proof fn lemma_with_span_exact(d: Damage, y: int, x0: int, x1: int, px: int, py: int)
    requires
        damage_ok(d),
        0 <= y <= 0xffff,
        0 <= x0 <= 0xffff,
        0 <= x1 <= 0xffff,
    ensures
        damage_ok(with_span(d, y, x0, x1)),
        covers(d, px, py) || (py == y && x0 <= px <= x1) ==> covers(with_span(d, y, x0, x1), px, py),
        !with_span(d, y, x0, x1).overflow && covers(with_span(d, y, x0, x1), px, py) ==> covers(d, px, py) || (
        py == y && x0 <= px <= x1),
{
    let e = with_span(d, y, x0, x1);
    if d.overflow || x1 < x0 {
    } else if d.spans.len() > 0 && touches(d.spans.last(), y, x0, x1) {
        let n = d.spans.len() - 1;
        let l = d.spans[n];
        assert(l.x0 <= l.x1);
        if covers(d, px, py) {
            let i = choose|i: int| 0 <= i < d.spans.len() && #[trigger] span_has(d.spans[i], px, py);
            assert(span_has(e.spans[i], px, py));
        }
        if py == y && x0 <= px <= x1 {
            assert(span_has(e.spans[n], px, py));
        }
        if covers(e, px, py) {
            let i = choose|i: int| 0 <= i < e.spans.len() && #[trigger] span_has(e.spans[i], px, py);
            if i < n {
                assert(span_has(d.spans[i], px, py));
            } else if l.x0 <= px <= l.x1 {
                assert(span_has(d.spans[n], px, py));
            }
        }
    } else if d.spans.len() == 512 {
    } else {
        let n = d.spans.len() as int;
        if covers(d, px, py) {
            let i = choose|i: int| 0 <= i < d.spans.len() && #[trigger] span_has(d.spans[i], px, py);
            assert(span_has(e.spans[i], px, py));
        }
        if py == y && x0 <= px <= x1 {
            assert(span_has(e.spans[n], px, py));
        }
        if covers(e, px, py) {
            let i = choose|i: int| 0 <= i < e.spans.len() && #[trigger] span_has(e.spans[i], px, py);
            if i < n {
                assert(span_has(d.spans[i], px, py));
            }
        }
    }
}

/// The same for a column of runs.
pub proof fn lemma_with_rows_exact(d: Damage, x0: int, x1: int, y0: int, n: int, px: int, py: int)
    requires
        damage_ok(d),
        0 <= y0,
        y0 + n - 1 <= 0xffff,
        0 <= x0 <= 0xffff,
        0 <= x1 <= 0xffff,
    ensures
        damage_ok(with_rows(d, x0, x1, y0, n)),
        covers(d, px, py) || (y0 <= py < y0 + n && x0 <= px <= x1) ==> covers(
            with_rows(d, x0, x1, y0, n),
            px,
            py,
        ),
        !with_rows(d, x0, x1, y0, n).overflow && covers(with_rows(d, x0, x1, y0, n), px, py) ==> covers(
            d,
            px,
            py,
        ) || (y0 <= py < y0 + n && x0 <= px <= x1),
    decreases n,
{
    if n > 0 {
        lemma_with_rows_exact(d, x0, x1, y0, n - 1, px, py);
        lemma_with_span_exact(with_rows(d, x0, x1, y0, n - 1), y0 + n - 1, x0, x1, px, py);
    }
}

/// Recording a rectangle marks its pixels and, short of overflow, no others.
pub proof fn lemma_with_rect_exact(d: Damage, x0: int, y0: int, x1: int, y1: int, px: int, py: int)
    requires
        damage_ok(d),
        0 <= y0,
        y1 <= 0xffff,
        0 <= x0 <= 0xffff,
        0 <= x1 <= 0xffff,
    ensures
        damage_ok(with_rect(d, x0, y0, x1, y1)),
        covers(d, px, py) || (y0 <= py <= y1 && x0 <= px <= x1) ==> covers(
            with_rect(d, x0, y0, x1, y1),
            px,
            py,
        ),
        !with_rect(d, x0, y0, x1, y1).overflow && covers(with_rect(d, x0, y0, x1, y1), px, py) ==> covers(
            d,
            px,
            py,
        ) || (y0 <= py <= y1 && x0 <= px <= x1),
{
    lemma_with_rows_exact(d, x0, x1, y0, y1 - y0 + 1, px, py);
}

/// `e` has on the rows above `y` the runs that `d` has there, and no others.
pub open spec fn same_above(d: Damage, e: Damage, y: int) -> bool {
    &&& d.spans.len() <= e.spans.len()
    &&& forall|i: int| 0 <= i < d.spans.len() && (#[trigger] d.spans[i]).y < y ==> e.spans[i] == d.spans[i]
    &&& forall|i: int|
        0 <= i < e.spans.len() && (#[trigger] e.spans[i]).y < y ==> i < d.spans.len() && e.spans[i] == d.spans[i]
}

/// Recording rows adds no run above them.
pub proof fn lemma_rows_below(d: Damage, x0: int, x1: int, y0: int, n: int)
    requires
        0 <= y0,
        y0 + n - 1 <= 0xffff,
    ensures
        same_above(d, with_rows(d, x0, x1, y0, n), y0),
    decreases n,
{
    if n > 0 {
        lemma_rows_below(d, x0, x1, y0, n - 1);
    }
}

/// Overflow is sticky until the index is cleared.
pub proof fn lemma_overflow_sticky(d: Damage, x0: int, x1: int, y0: int, n: int)
    requires
        d.overflow,
    ensures
        with_rows(d, x0, x1, y0, n) == d,
    decreases n,
{
    if n > 0 {
        lemma_overflow_sticky(d, x0, x1, y0, n - 1);
    }
}

proof fn lemma_rows_overflow_stops(d: Damage, x0: int, x1: int, y0: int, k: int, n: int)
    requires
        0 <= k <= n,
        with_rows(d, x0, x1, y0, k).overflow,
    ensures
        with_rows(d, x0, x1, y0, n) == with_rows(d, x0, x1, y0, k),
    decreases n - k,
{
    if k < n {
        lemma_rows_overflow_stops(d, x0, x1, y0, k, n - 1);
    }
}

impl DmiIndex {
    /// What the index records.
    pub closed spec fn damage(&self) -> Damage {
        Damage { spans: self.spans@.take(self.count as int), overflow: self.overflow }
    }

    /// The count stays within the array and every recorded run is non-empty.
    pub closed spec fn wf(&self) -> bool {
        self.count <= 512 && damage_ok(self.damage())
    }

    /// A well-formed index records well-formed damage.
    pub proof fn damage_is_ok(&self)
        requires
            self.wf(),
        ensures
            damage_ok(self.damage()),
    {
    }

    /// An empty index.
    pub fn new() -> (r: Self)
        ensures
            r.wf(),
            r.damage() == clean(),
    {
        let r = DmiIndex { spans: [Span { y: 0, x0: 0, x1: 0 };512], count: 0, overflow: false };
        assert(r.damage().spans =~= Seq::<Span>::empty());
        r
    }

    /// Forget all damage.
    pub fn clear(&mut self)
        requires
            old(self).wf(),
        ensures
            final(self).wf(),
            final(self).damage() == clean(),
    {
        self.count = 0;
        self.overflow = false;
        assert(self.damage().spans =~= Seq::<Span>::empty());
    }

    /// True when no damage at all was recorded.
    pub fn is_empty(&self) -> (r: bool)
        requires
            self.wf(),
        ensures
            r == (self.damage().spans.len() == 0 && !self.damage().overflow),
            r == (self.damage() == clean()),
    {
        proof {
            if self.damage().spans.len() == 0 {
                assert(self.damage().spans =~= Seq::<Span>::empty());
            }
        }
        self.count == 0 && !self.overflow
    }

    /// The capacity was exceeded: the whole frame has to be flushed.
    pub fn overflowed(&self) -> (r: bool)
        ensures
            r == self.damage().overflow,
    {
        self.overflow
    }

    /// The recorded runs, in the order in which they were recorded.
    pub fn spans(&self) -> (r: &[Span])
        requires
            self.wf(),
        ensures
            r@ == self.damage().spans,
    {
        vstd::slice::slice_subrange(self.spans.as_slice(), 0, self.count)
    }

    /// Record one run, merging it into the previous one when it touches or overlaps it
    /// on the same row.
    pub fn add_span(&mut self, y: u16, x0: u16, x1: u16)
        requires
            old(self).wf(),
        ensures
            final(self).wf(),
            final(self).damage() == with_span(old(self).damage(), y as int, x0 as int, x1 as int),
    {
        proof {
            lemma_with_span_exact(self.damage(), y as int, x0 as int, x1 as int, 0, 0);
        }
        if self.overflow || x1 < x0 {
            return;
        }
        if self.count > 0 {
            let last: Span = self.spans[self.count - 1];
            assert(last == self.damage().spans.last());
            if last.y == y && x0 <= last.x1.saturating_add(1) && last.x0 <= x1.saturating_add(1) {
                let a: u16 = if last.x0 <= x0 { last.x0 } else { x0 };
                let b: u16 = if last.x1 >= x1 { last.x1 } else { x1 };
                self.spans[self.count - 1] = Span { y: last.y, x0: a, x1: b };
                assert(self.damage().spans =~= with_span(
                    old(self).damage(),
                    y as int,
                    x0 as int,
                    x1 as int,
                ).spans);
                return;
            }
        }
        if self.count == MAX_SPANS {
            self.overflow = true;
            return;
        }
        self.spans[self.count] = Span { y, x0, x1 };
        self.count = self.count + 1;
        assert(self.damage().spans =~= with_span(old(self).damage(), y as int, x0 as int, x1 as int).spans);
    }

    /// Record an inclusive rectangle as one run per row.
    pub fn add_rect(&mut self, x0: u16, y0: u16, x1: u16, y1: u16)
        requires
            old(self).wf(),
        ensures
            final(self).wf(),
            final(self).damage() == with_rect(
                old(self).damage(),
                x0 as int,
                y0 as int,
                x1 as int,
                y1 as int,
            ),
    {
        let mut y: u32 = y0 as u32;
        let end: u32 = y1 as u32 + 1;
        while y < end
            invariant
                self.wf(),
                y0 <= y,
                y <= end || y == y0,
                end == y1 + 1,
                self.damage() == with_rows(old(self).damage(), x0 as int, x1 as int, y0 as int, y - y0),
            decreases end - y,
        {
            self.add_span(y as u16, x0, x1);
            if self.overflow {
                proof {
                    lemma_rows_overflow_stops(
                        old(self).damage(),
                        x0 as int,
                        x1 as int,
                        y0 as int,
                        y + 1 - y0,
                        end - y0,
                    );
                }
                return;
            }
            y = y + 1;
        }
    }
}

} // verus!
