//! One row of coverage, packed into spans.

use vstd::prelude::*;

verus! {

/// A run of pixels in one row, with one coverage value per pixel.
#[derive(Debug)]
pub struct Span {
    pub x: i64,
    pub len: i64,
    pub covers: Vec<u64>,
}

/// The spans of one row, in ascending x and without overlap.
#[derive(Debug)]
pub struct ScanlineU8 {
    /// Row the scanline was finalized at.
    pub y: i64,
    pub spans: Vec<Span>,
    /// Whether the last addition was a single cell: a cell just to its
    /// right extends that cell's span; a gap or a run starts a new span.
    pub last_was_cell: bool,
}

/// Where the last span ends (exclusive), or the lowest value when there is none.
pub open spec fn spans_end(spans: Seq<Span>) -> int {
    if spans.len() == 0 {
        i64::MIN as int
    } else {
        spans.last().x + spans.last().len
    }
}

/// Each span is non-empty with one coverage per pixel, and each starts at
/// or after the end of the one before it.
pub open spec fn spans_wf(spans: Seq<Span>) -> bool {
    &&& forall|i: int|
        0 <= i < spans.len() ==> (#[trigger] spans[i]).len >= 1 && spans[i].len == spans[i].covers@.len()
            && -0x100_0000_0000 < spans[i].x && spans[i].x + spans[i].len < 0x100_0000_0000
    &&& forall|i: int, j: int|
        0 <= i < j < spans.len() ==> #[trigger] spans[i].x + spans[i].len <= #[trigger] spans[j].x
}

/// Every coverage value held in the spans is at least 1.
pub open spec fn covers_positive(spans: Seq<Span>) -> bool {
    forall|i: int, j: int| 0 <= i < spans.len() && 0 <= j < spans[i].covers@.len() ==> #[trigger] spans[i].covers@[j] >= 1
}

/// Coverage at pixel `px`: that of the span holding it, or zero.
pub open spec fn cover_at(spans: Seq<Span>, px: int) -> int
    decreases spans.len(),
{
    if spans.len() == 0 {
        0
    } else if spans.last().x <= px < spans.last().x + spans.last().len {
        spans.last().covers@[px - spans.last().x] as int
    } else {
        cover_at(spans.drop_last(), px)
    }
}

impl ScanlineU8 {
    pub open spec fn wf(&self) -> bool {
        spans_wf(self.spans@)
    }

    /// Where the last span ends (exclusive).
    pub open spec fn end(&self) -> int {
        spans_end(self.spans@)
    }

    /// An empty scanline at row 0.
    pub fn new() -> (r: Self)
        ensures
            r.wf(),
            r.spans@.len() == 0,
            r.y == 0,
    {
        ScanlineU8 { y: 0, spans: Vec::new(), last_was_cell: false }
    }

    /// Removes every span.
    pub fn reset_spans(&mut self)
        ensures
            final(self).wf(),
            final(self).spans@.len() == 0,
            final(self).y == old(self).y,
            !final(self).last_was_cell,
            covers_positive(final(self).spans@),
    {
        self.spans.clear();
        self.last_was_cell = false;
    }

    /// Number of spans.
    pub fn num_spans(&self) -> (r: usize)
        ensures
            r == self.spans@.len(),
    {
        self.spans.len()
    }

    /// Records the row the spans belong to.
    pub fn finalize(&mut self, y: i64)
        ensures
            final(self).y == y,
            final(self).spans == old(self).spans,
    {
        self.y = y;
    }

    /// Adds coverage `alpha` for the single pixel `x`. A cell just right of a
    /// cell added last extends that cell's span.
    pub fn add_cell(&mut self, x: i64, alpha: u64)
        requires
            old(self).wf(),
            old(self).end() <= x,
            -0x100_0000_0000 < x < 0x100_0000_0000 - 1,
        ensures
            final(self).wf(),
            final(self).end() == x + 1,
            final(self).y == old(self).y,
            final(self).spans@.len() > 0,
            final(self).spans@[0].x == if old(self).spans@.len() > 0 {
                old(self).spans@[0].x
            } else {
                x
            },
            forall|px: int|
                cover_at(final(self).spans@, px) == if px == x {
                    alpha as int
                } else {
                    cover_at(old(self).spans@, px)
                },
            final(self).spans@.len() == if old(self).last_was_cell && old(self).spans@.len() > 0 && old(self).end()
                == x {
                old(self).spans@.len()
            } else {
                old(self).spans@.len() + 1
            },
            final(self).last_was_cell,
            alpha >= 1 && covers_positive(old(self).spans@) ==> covers_positive(final(self).spans@),
    {
        let n = self.spans.len();
        if self.last_was_cell && n > 0 && self.spans[n - 1].x + self.spans[n - 1].len == x {
            let ghost before = self.spans@;
            let mut last = self.spans.pop().unwrap();
            proof {
                assert(self.spans@ =~= before.drop_last());
            }
            last.covers.push(alpha);
            last.len = last.len + 1;
            self.spans.push(last);
            proof {
                assert(self.spans@.drop_last() =~= before.drop_last());
                assert forall|px: int|
                    cover_at(self.spans@, px) == if px == x {
                        alpha as int
                    } else {
                        cover_at(before, px)
                    } by {
                    if px < last.x || px > x {
                    }
                    lemma_cover_at_below(before.drop_last(), px);
                }
            }
        } else {
            let mut covers: Vec<u64> = Vec::new();
            covers.push(alpha);
            let span = Span { x, len: 1, covers };
            let ghost before = self.spans@;
            self.spans.push(span);
            proof {
                assert(self.spans@.drop_last() =~= before);
                assert forall|px: int|
                    cover_at(self.spans@, px) == if px == x {
                        alpha as int
                    } else {
                        cover_at(before, px)
                    } by {
                    lemma_cover_at_below(before, px);
                }
            }
        }
        self.last_was_cell = true;
    }

    /// Adds a run of `len` pixels from `x`, all with coverage `alpha`, as a
    /// span of its own.
    pub fn add_span(&mut self, x: i64, len: i64, alpha: u64)
        requires
            old(self).wf(),
            old(self).end() <= x,
            1 <= len,
            -0x100_0000_0000 < x,
            x + len < 0x100_0000_0000,
        ensures
            final(self).wf(),
            final(self).end() == x + len,
            final(self).y == old(self).y,
            final(self).spans@.len() > 0,
            final(self).spans@[0].x == if old(self).spans@.len() > 0 {
                old(self).spans@[0].x
            } else {
                x
            },
            forall|px: int|
                cover_at(final(self).spans@, px) == if x <= px < x + len {
                    alpha as int
                } else {
                    cover_at(old(self).spans@, px)
                },
            final(self).spans@.len() == old(self).spans@.len() + 1,
            !final(self).last_was_cell,
            alpha >= 1 && covers_positive(old(self).spans@) ==> covers_positive(final(self).spans@),
    {
        let mut covers: Vec<u64> = Vec::new();
        let mut k: i64 = 0;
        while k < len
            invariant
                0 <= k <= len,
                covers@.len() == k,
                forall|j: int| 0 <= j < k ==> covers@[j] == alpha,
            decreases len - k,
        {
            covers.push(alpha);
            k = k + 1;
        }
        let span = Span { x, len, covers };
        let ghost before = self.spans@;
        self.spans.push(span);
        proof {
            assert(self.spans@.drop_last() =~= before);
            assert forall|px: int|
                cover_at(self.spans@, px) == if x <= px < x + len {
                    alpha as int
                } else {
                    cover_at(before, px)
                } by {
                lemma_cover_at_below(before, px);
            }
        }
        self.last_was_cell = false;
    }
}

/// Past the end of the spans there is no coverage.
pub proof fn lemma_cover_at_below(spans: Seq<Span>, px: int)
    requires
        spans_wf(spans),
    ensures
        px >= spans_end(spans) ==> cover_at(spans, px) == 0,
    decreases spans.len(),
{
    if spans.len() > 0 {
        let d = spans.drop_last();
        if d.len() > 0 {
            assert(d.last() == spans[d.len() - 1]);
            assert(spans[d.len() - 1].x + spans[d.len() - 1].len <= spans[spans.len() - 1].x);
        }
        assert(spans_wf(d));
        lemma_cover_at_below(d, px);
    }
}

/// Inside a span, the coverage is that span's entry for the pixel.
pub proof fn lemma_cover_at_in(spans: Seq<Span>, j: int, px: int)
    requires
        spans_wf(spans),
        0 <= j < spans.len(),
        spans[j].x <= px < spans[j].x + spans[j].len,
    ensures
        cover_at(spans, px) == spans[j].covers@[px - spans[j].x] as int,
    decreases spans.len(),
{
    if j < spans.len() - 1 {
        let d = spans.drop_last();
        assert(spans[j].x + spans[j].len <= spans[spans.len() - 1].x);
        assert(d[j] == spans[j]);
        lemma_cover_at_in(d, j, px);
    }
}

/// Between the end of span `j - 1` and the start of span `j` there is no
/// coverage.
pub proof fn lemma_cover_at_gap(spans: Seq<Span>, j: int, px: int)
    requires
        spans_wf(spans),
        0 <= j < spans.len(),
        px < spans[j].x,
        j > 0 ==> spans[j - 1].x + spans[j - 1].len <= px,
    ensures
        cover_at(spans, px) == 0,
    decreases spans.len(),
{
    let d = spans.drop_last();
    assert(spans.last() == spans[spans.len() - 1]);
    assert(spans_wf(d));
    assert(spans[j].x <= spans[spans.len() - 1].x) by {
        if j < spans.len() - 1 {
            assert(spans[j].x + spans[j].len <= spans[spans.len() - 1].x);
        }
    }
    if j < spans.len() - 1 {
        assert(d[j] == spans[j]);
        if j > 0 {
            assert(d[j - 1] == spans[j - 1]);
        }
        lemma_cover_at_gap(d, j, px);
    } else {
        if j > 0 {
            assert(d.last() == spans[j - 1]);
            lemma_cover_at_below(d, px);
        }
        assert(cover_at(d, px) == 0);
    }
}

/// Coverage values are those of the spans' entries, so they fit in a `u64`.
pub proof fn lemma_cover_at_range(spans: Seq<Span>, px: int)
    ensures
        0 <= cover_at(spans, px) <= u64::MAX,
    decreases spans.len(),
{
    if spans.len() > 0 {
        lemma_cover_at_range(spans.drop_last(), px);
    }
}

} // verus!
