//! Rectangular clipping that keeps the winding of what is clipped off to
//! the left or right.

use vstd::prelude::*;
use crate::cell::{
    abs, all_bounded, capped, cell_bounded, coord_ok, lemma_line_cells, lemma_sum_cover_append, line_cells, scaled, sum_cover,
    Cell, RasterizerCell,
};

verus! {

/// The clip rectangle, in sub-pixel units, with `x1 <= x2` and `y1 <= y2`.
#[derive(Clone, Copy, Debug, PartialEq, Eq, Structural)]
pub struct ClipBox {
    pub x1: i64,
    pub y1: i64,
    pub x2: i64,
    pub y2: i64,
}

impl ClipBox {
    pub open spec fn wf(&self) -> bool {
        &&& coord_ok(self.x1 as int)
        &&& coord_ok(self.y1 as int)
        &&& coord_ok(self.x2 as int)
        &&& coord_ok(self.y2 as int)
        &&& self.x1 <= self.x2
        &&& self.y1 <= self.y2
    }

    /// The point lies within the rectangle, edges included.
    pub open spec fn contains(&self, x: int, y: int) -> bool {
        self.x1 <= x <= self.x2 && self.y1 <= y <= self.y2
    }
}

/// The x at which the edge `(x1, y1) -> (x2, y2)` meets the row `y`, which
/// lies between the two ends.
pub open spec fn x_at(x1: int, y1: int, x2: int, y2: int, y: int) -> int {
    x1 + scaled(x2 - x1, abs(y - y1), abs(y2 - y1))
}

/// The y at which the edge `(x1, y1) -> (x2, y2)` meets the column `x`,
/// which lies between the two ends.
pub open spec fn y_at(x1: int, y1: int, x2: int, y2: int, x: int) -> int {
    y1 + scaled(y2 - y1, abs(x - x1), abs(x2 - x1))
}

/// The cells of an edge whose x lies within the rectangle, cut to the
/// rectangle's rows; what lies above or below is dropped.
pub open spec fn clip_y_cells(b: ClipBox, x1: int, y1: int, x2: int, y2: int) -> Seq<Cell> {
    let top1 = y1 < b.y1;
    let bot1 = y1 > b.y2;
    let top2 = y2 < b.y1;
    let bot2 = y2 > b.y2;
    if !(top1 || bot1 || top2 || bot2) {
        line_cells(x1, y1, x2, y2)
    } else if top1 == top2 && bot1 == bot2 {
        seq![]
    } else {
        let tx1 = if top1 {
            x_at(x1, y1, x2, y2, b.y1 as int)
        } else if bot1 {
            x_at(x1, y1, x2, y2, b.y2 as int)
        } else {
            x1
        };
        let ty1 = if top1 {
            b.y1 as int
        } else if bot1 {
            b.y2 as int
        } else {
            y1
        };
        let tx2 = if top2 {
            x_at(x1, y1, x2, y2, b.y1 as int)
        } else if bot2 {
            x_at(x1, y1, x2, y2, b.y2 as int)
        } else {
            x2
        };
        let ty2 = if top2 {
            b.y1 as int
        } else if bot2 {
            b.y2 as int
        } else {
            y2
        };
        line_cells(tx1, ty1, tx2, ty2)
    }
}

/// The cells of the edge `(x1, y1) -> (x2, y2)` clipped to `b`: parts left
/// or right of the rectangle become vertical edges on its left or right
/// side with the same vertical extent; parts above or below are dropped.
pub open spec fn clip_line_cells(b: ClipBox, x1: int, y1: int, x2: int, y2: int) -> Seq<Cell> {
    let r1 = x1 > b.x2;
    let l1 = x1 < b.x1;
    let r2 = x2 > b.x2;
    let l2 = x2 < b.x1;
    let bx1 = b.x1 as int;
    let bx2 = b.x2 as int;
    if (y1 < b.y1 && y2 < b.y1) || (y1 > b.y2 && y2 > b.y2) {
        seq![]
    } else if !r1 && !l1 && !r2 && !l2 {
        clip_y_cells(b, x1, y1, x2, y2)
    } else if !r1 && !l1 && r2 {
        let y3 = y_at(x1, y1, x2, y2, bx2);
        clip_y_cells(b, x1, y1, bx2, y3) + clip_y_cells(b, bx2, y3, bx2, y2)
    } else if r1 && !r2 && !l2 {
        let y3 = y_at(x1, y1, x2, y2, bx2);
        clip_y_cells(b, bx2, y1, bx2, y3) + clip_y_cells(b, bx2, y3, x2, y2)
    } else if r1 && r2 {
        clip_y_cells(b, bx2, y1, bx2, y2)
    } else if !r1 && !l1 && l2 {
        let y3 = y_at(x1, y1, x2, y2, bx1);
        clip_y_cells(b, x1, y1, bx1, y3) + clip_y_cells(b, bx1, y3, bx1, y2)
    } else if r1 && l2 {
        let y3 = y_at(x1, y1, x2, y2, bx2);
        let y4 = y_at(x1, y1, x2, y2, bx1);
        clip_y_cells(b, bx2, y1, bx2, y3) + clip_y_cells(b, bx2, y3, bx1, y4) + clip_y_cells(
            b,
            bx1,
            y4,
            bx1,
            y2,
        )
    } else if l1 && !r2 && !l2 {
        let y3 = y_at(x1, y1, x2, y2, bx1);
        clip_y_cells(b, bx1, y1, bx1, y3) + clip_y_cells(b, bx1, y3, x2, y2)
    } else if l1 && r2 {
        let y3 = y_at(x1, y1, x2, y2, bx1);
        let y4 = y_at(x1, y1, x2, y2, bx2);
        clip_y_cells(b, bx1, y1, bx1, y3) + clip_y_cells(b, bx1, y3, bx2, y4) + clip_y_cells(
            b,
            bx2,
            y4,
            bx2,
            y2,
        )
    } else {
        clip_y_cells(b, bx1, y1, bx1, y2)
    }
}

/// The clipper: an optional rectangle and the last point moved or drawn to.
#[derive(Clone, Copy, Debug)]
pub struct Clip {
    pub clip_box: ClipBox,
    pub clipping: bool,
    pub x1: i64,
    pub y1: i64,
}

/// The cells that drawing from the clipper's last point to `(x, y)` emits.
pub open spec fn clip_to_cells(c: Clip, x: int, y: int) -> Seq<Cell> {
    if c.clipping {
        clip_line_cells(c.clip_box, c.x1 as int, c.y1 as int, x, y)
    } else {
        line_cells(c.x1 as int, c.y1 as int, x, y)
    }
}

/// The x of the edge at row `y`, between its ends.
fn x_at_exec(x1: i64, y1: i64, x2: i64, y2: i64, y: i64) -> (r: i64)
    requires
        coord_ok(x1 as int),
        coord_ok(y1 as int),
        coord_ok(x2 as int),
        coord_ok(y2 as int),
        coord_ok(y as int),
        abs(y - y1) <= abs(y2 - y1),
        y2 != y1,
    ensures
        r == x_at(x1 as int, y1 as int, x2 as int, y2 as int, y as int),
        coord_ok(r as int),
        x1 <= x2 ==> x1 <= r <= x2,
        x2 < x1 ==> x2 <= r <= x1,
{
    let t: i64 = if y >= y1 { y - y1 } else { y1 - y };
    let d: i64 = if y2 >= y1 { y2 - y1 } else { y1 - y2 };
    let s = crate::cell::scaled_exec((x2 - x1) as i128, t as i128, d as i128);
    proof {
        crate::cell::lemma_scaled_bounds(x2 - x1, t as int, d as int);
    }
    x1 + s as i64
}

/// The y of the edge at column `x`, between its ends.
fn y_at_exec(x1: i64, y1: i64, x2: i64, y2: i64, x: i64) -> (r: i64)
    requires
        coord_ok(x1 as int),
        coord_ok(y1 as int),
        coord_ok(x2 as int),
        coord_ok(y2 as int),
        coord_ok(x as int),
        abs(x - x1) <= abs(x2 - x1),
        x2 != x1,
    ensures
        r == y_at(x1 as int, y1 as int, x2 as int, y2 as int, x as int),
        coord_ok(r as int),
        y1 <= y2 ==> y1 <= r <= y2,
        y2 < y1 ==> y2 <= r <= y1,
{
    let t: i64 = if x >= x1 { x - x1 } else { x1 - x };
    let d: i64 = if x2 >= x1 { x2 - x1 } else { x1 - x2 };
    let s = crate::cell::scaled_exec((y2 - y1) as i128, t as i128, d as i128);
    proof {
        crate::cell::lemma_scaled_bounds(y2 - y1, t as int, d as int);
    }
    y1 + s as i64
}

impl Clip {
    pub open spec fn wf(&self) -> bool {
        &&& self.clip_box.wf()
        &&& coord_ok(self.x1 as int)
        &&& coord_ok(self.y1 as int)
    }

    /// A clipper with no rectangle, at the origin.
    pub fn new() -> (r: Self)
        ensures
            r.wf(),
            !r.clipping,
            r.x1 == 0,
            r.y1 == 0,
    {
        Clip { clip_box: ClipBox { x1: 0, y1: 0, x2: 0, y2: 0 }, clipping: false, x1: 0, y1: 0 }
    }

    /// Sets the clip rectangle from two opposite corners, in sub-pixel units.
    pub fn clip_box(&mut self, x1: i64, y1: i64, x2: i64, y2: i64)
        requires
            old(self).wf(),
            coord_ok(x1 as int),
            coord_ok(y1 as int),
            coord_ok(x2 as int),
            coord_ok(y2 as int),
        ensures
            final(self).wf(),
            final(self).clipping,
            final(self).clip_box.x1 == if x1 <= x2 { x1 } else { x2 },
            final(self).clip_box.x2 == if x1 <= x2 { x2 } else { x1 },
            final(self).clip_box.y1 == if y1 <= y2 { y1 } else { y2 },
            final(self).clip_box.y2 == if y1 <= y2 { y2 } else { y1 },
            final(self).x1 == old(self).x1,
            final(self).y1 == old(self).y1,
    {
        let (lx, hx) = if x1 <= x2 { (x1, x2) } else { (x2, x1) };
        let (ly, hy) = if y1 <= y2 { (y1, y2) } else { (y2, y1) };
        self.clip_box = ClipBox { x1: lx, y1: ly, x2: hx, y2: hy };
        self.clipping = true;
    }

    /// Moves the last point to `(x, y)` without drawing.
    pub fn move_to(&mut self, x: i64, y: i64)
        requires
            old(self).wf(),
            coord_ok(x as int),
            coord_ok(y as int),
        ensures
            final(self).wf(),
            final(self).x1 == x,
            final(self).y1 == y,
            final(self).clip_box == old(self).clip_box,
            final(self).clipping == old(self).clipping,
    {
        self.x1 = x;
        self.y1 = y;
    }

    fn line_clip_y(&self, ras: &mut RasterizerCell, x1: i64, y1: i64, x2: i64, y2: i64)
        requires
            self.wf(),
            old(ras).wf(),
            coord_ok(x1 as int),
            coord_ok(y1 as int),
            coord_ok(x2 as int),
            coord_ok(y2 as int),
        ensures
            final(ras).wf(),
            final(ras).cells@ == capped(
                old(ras).cells@,
                clip_y_cells(self.clip_box, x1 as int, y1 as int, x2 as int, y2 as int),
            ),
            final(ras).sorted_y == old(ras).sorted_y,
    {
        let b = self.clip_box;
        let top1 = y1 < b.y1;
        let bot1 = y1 > b.y2;
        let top2 = y2 < b.y1;
        let bot2 = y2 > b.y2;
        if !(top1 || bot1 || top2 || bot2) {
            ras.line(x1, y1, x2, y2);
        } else if top1 == top2 && bot1 == bot2 {
            proof {
                assert(old(ras).cells@ + Seq::<Cell>::empty() =~= old(ras).cells@);
                assert(old(ras).cells@.take(old(ras).cells@.len() as int) =~= old(ras).cells@);
            }
        } else {
            let tx1 = if top1 {
                x_at_exec(x1, y1, x2, y2, b.y1)
            } else if bot1 {
                x_at_exec(x1, y1, x2, y2, b.y2)
            } else {
                x1
            };
            let ty1 = if top1 {
                b.y1
            } else if bot1 {
                b.y2
            } else {
                y1
            };
            let tx2 = if top2 {
                x_at_exec(x1, y1, x2, y2, b.y1)
            } else if bot2 {
                x_at_exec(x1, y1, x2, y2, b.y2)
            } else {
                x2
            };
            let ty2 = if top2 {
                b.y1
            } else if bot2 {
                b.y2
            } else {
                y2
            };
            ras.line(tx1, ty1, tx2, ty2);
        }
    }

    /// Draws from the last point to `(x, y)`, clipped when a rectangle is
    /// set, and makes `(x, y)` the last point.
    pub fn line_to(&mut self, ras: &mut RasterizerCell, x: i64, y: i64)
        requires
            old(self).wf(),
            old(ras).wf(),
            coord_ok(x as int),
            coord_ok(y as int),
        ensures
            final(self).wf(),
            final(ras).wf(),
            final(ras).cells@ == capped(old(ras).cells@, clip_to_cells(*old(self), x as int, y as int)),
            final(ras).sorted_y == old(ras).sorted_y,
            final(self).x1 == x,
            final(self).y1 == y,
            final(self).clip_box == old(self).clip_box,
            final(self).clipping == old(self).clipping,
    {
        let x1 = self.x1;
        let y1 = self.y1;
        let x2 = x;
        let y2 = y;
        if self.clipping {
            let b = self.clip_box;
            let r1 = x1 > b.x2;
            let l1 = x1 < b.x1;
            let r2 = x2 > b.x2;
            let l2 = x2 < b.x1;
            let ghost s0 = ras.cells@;
            let ghost bb = b;
            if (y1 < b.y1 && y2 < b.y1) || (y1 > b.y2 && y2 > b.y2) {
                proof {
                    assert(s0 + Seq::<Cell>::empty() =~= s0);
                    assert(s0.take(s0.len() as int) =~= s0);
                }
            } else if !r1 && !l1 && !r2 && !l2 {
                self.line_clip_y(ras, x1, y1, x2, y2);
            } else if !r1 && !l1 && r2 {
                let y3 = y_at_exec(x1, y1, x2, y2, b.x2);
                self.line_clip_y(ras, x1, y1, b.x2, y3);
                self.line_clip_y(ras, b.x2, y3, b.x2, y2);
                proof {
                    crate::cell::lemma_capped_assoc(
                        s0,
                        clip_y_cells(bb, x1 as int, y1 as int, bb.x2 as int, y3 as int),
                        clip_y_cells(bb, bb.x2 as int, y3 as int, bb.x2 as int, y2 as int),
                    );
                }
            } else if r1 && !r2 && !l2 {
                let y3 = y_at_exec(x1, y1, x2, y2, b.x2);
                self.line_clip_y(ras, b.x2, y1, b.x2, y3);
                self.line_clip_y(ras, b.x2, y3, x2, y2);
                proof {
                    crate::cell::lemma_capped_assoc(
                        s0,
                        clip_y_cells(bb, bb.x2 as int, y1 as int, bb.x2 as int, y3 as int),
                        clip_y_cells(bb, bb.x2 as int, y3 as int, x2 as int, y2 as int),
                    );
                }
            } else if r1 && r2 {
                self.line_clip_y(ras, b.x2, y1, b.x2, y2);
            } else if !r1 && !l1 && l2 {
                let y3 = y_at_exec(x1, y1, x2, y2, b.x1);
                self.line_clip_y(ras, x1, y1, b.x1, y3);
                self.line_clip_y(ras, b.x1, y3, b.x1, y2);
                proof {
                    crate::cell::lemma_capped_assoc(
                        s0,
                        clip_y_cells(bb, x1 as int, y1 as int, bb.x1 as int, y3 as int),
                        clip_y_cells(bb, bb.x1 as int, y3 as int, bb.x1 as int, y2 as int),
                    );
                }
            } else if r1 && l2 {
                let y3 = y_at_exec(x1, y1, x2, y2, b.x2);
                let y4 = y_at_exec(x1, y1, x2, y2, b.x1);
                self.line_clip_y(ras, b.x2, y1, b.x2, y3);
                self.line_clip_y(ras, b.x2, y3, b.x1, y4);
                self.line_clip_y(ras, b.x1, y4, b.x1, y2);
                proof {
                    let p = clip_y_cells(bb, bb.x2 as int, y1 as int, bb.x2 as int, y3 as int);
                    let q = clip_y_cells(bb, bb.x2 as int, y3 as int, bb.x1 as int, y4 as int);
                    let w = clip_y_cells(bb, bb.x1 as int, y4 as int, bb.x1 as int, y2 as int);
                    crate::cell::lemma_capped_assoc(s0, p, q);
                    crate::cell::lemma_capped_assoc(s0, p + q, w);
                }
            } else if l1 && !r2 && !l2 {
                let y3 = y_at_exec(x1, y1, x2, y2, b.x1);
                self.line_clip_y(ras, b.x1, y1, b.x1, y3);
                self.line_clip_y(ras, b.x1, y3, x2, y2);
                proof {
                    crate::cell::lemma_capped_assoc(
                        s0,
                        clip_y_cells(bb, bb.x1 as int, y1 as int, bb.x1 as int, y3 as int),
                        clip_y_cells(bb, bb.x1 as int, y3 as int, x2 as int, y2 as int),
                    );
                }
            } else if l1 && r2 {
                let y3 = y_at_exec(x1, y1, x2, y2, b.x1);
                let y4 = y_at_exec(x1, y1, x2, y2, b.x2);
                self.line_clip_y(ras, b.x1, y1, b.x1, y3);
                self.line_clip_y(ras, b.x1, y3, b.x2, y4);
                self.line_clip_y(ras, b.x2, y4, b.x2, y2);
                proof {
                    let p = clip_y_cells(bb, bb.x1 as int, y1 as int, bb.x1 as int, y3 as int);
                    let q = clip_y_cells(bb, bb.x1 as int, y3 as int, bb.x2 as int, y4 as int);
                    let w = clip_y_cells(bb, bb.x2 as int, y4 as int, bb.x2 as int, y2 as int);
                    crate::cell::lemma_capped_assoc(s0, p, q);
                    crate::cell::lemma_capped_assoc(s0, p + q, w);
                }
            } else {
                self.line_clip_y(ras, b.x1, y1, b.x1, y2);
            }
        } else {
            ras.line(x1, y1, x2, y2);
        }
        self.x1 = x2;
        self.y1 = y2;
    }
}

/// Drawing an edge whose ends both lie within the clip rectangle emits the
/// same cells as drawing it with no rectangle set.
pub proof fn lemma_clip_inside(c: Clip, x: int, y: int)
    requires
        c.clip_box.contains(c.x1 as int, c.y1 as int),
        c.clip_box.contains(x, y),
    ensures
        clip_to_cells(c, x, y) == line_cells(c.x1 as int, c.y1 as int, x, y),
        clip_to_cells(c, x, y) == clip_to_cells(Clip { clipping: false, ..c }, x, y),
{
}

/// `y` limited to the rows of the rectangle.
pub open spec fn clamp_y(b: ClipBox, y: int) -> int {
    if y < b.y1 {
        b.y1 as int
    } else if y > b.y2 {
        b.y2 as int
    } else {
        y
    }
}

proof fn lemma_x_at(x1: int, y1: int, x2: int, y2: int, y: int)
    requires
        coord_ok(x1),
        coord_ok(x2),
        abs(y - y1) <= abs(y2 - y1),
        y2 != y1,
    ensures
        coord_ok(x_at(x1, y1, x2, y2, y)),
{
    crate::cell::lemma_scaled_bounds(x2 - x1, abs(y - y1), abs(y2 - y1));
}

proof fn lemma_y_at(x1: int, y1: int, x2: int, y2: int, x: int)
    requires
        coord_ok(y1),
        coord_ok(y2),
        abs(x - x1) <= abs(x2 - x1),
        x2 != x1,
    ensures
        coord_ok(y_at(x1, y1, x2, y2, x)),
{
    crate::cell::lemma_scaled_bounds(y2 - y1, abs(x - x1), abs(x2 - x1));
}

proof fn lemma_bounded_append(a: Seq<Cell>, b: Seq<Cell>)
    requires
        all_bounded(a),
        all_bounded(b),
    ensures
        all_bounded(a + b),
{
    assert forall|i: int| 0 <= i < (a + b).len() implies cell_bounded(#[trigger] (a + b)[i]) by {
        if i < a.len() {
            assert((a + b)[i] == a[i]);
        } else {
            assert((a + b)[i] == b[i - a.len()]);
        }
    }
}

proof fn lemma_clip_y_cells(b: ClipBox, x1: int, y1: int, x2: int, y2: int)
    requires
        b.wf(),
        coord_ok(x1),
        coord_ok(y1),
        coord_ok(x2),
        coord_ok(y2),
    ensures
        sum_cover(clip_y_cells(b, x1, y1, x2, y2)) == clamp_y(b, y2) - clamp_y(b, y1),
        all_bounded(clip_y_cells(b, x1, y1, x2, y2)),
{
    let top1 = y1 < b.y1;
    let bot1 = y1 > b.y2;
    let top2 = y2 < b.y1;
    let bot2 = y2 > b.y2;
    if !(top1 || bot1 || top2 || bot2) {
        lemma_line_cells(x1, y1, x2, y2);
    } else if top1 == top2 && bot1 == bot2 {
    } else {
        if top1 {
            lemma_x_at(x1, y1, x2, y2, b.y1 as int);
        }
        if bot1 {
            lemma_x_at(x1, y1, x2, y2, b.y2 as int);
        }
        if top2 {
            lemma_x_at(x1, y1, x2, y2, b.y1 as int);
        }
        if bot2 {
            lemma_x_at(x1, y1, x2, y2, b.y2 as int);
        }
        let tx1 = if top1 {
            x_at(x1, y1, x2, y2, b.y1 as int)
        } else if bot1 {
            x_at(x1, y1, x2, y2, b.y2 as int)
        } else {
            x1
        };
        let tx2 = if top2 {
            x_at(x1, y1, x2, y2, b.y1 as int)
        } else if bot2 {
            x_at(x1, y1, x2, y2, b.y2 as int)
        } else {
            x2
        };
        lemma_line_cells(tx1, clamp_y(b, y1), tx2, clamp_y(b, y2));
    }
}

/// The cells that the clipper emits for an edge stay within one pixel's
/// worth each, and their covers sum to the edge's vertical extent limited
/// to the rectangle's rows: what lies left or right of the rectangle keeps
/// its full height on the rectangle's side.
pub proof fn lemma_clip_line_cells(b: ClipBox, x1: int, y1: int, x2: int, y2: int)
    requires
        b.wf(),
        coord_ok(x1),
        coord_ok(y1),
        coord_ok(x2),
        coord_ok(y2),
    ensures
        sum_cover(clip_line_cells(b, x1, y1, x2, y2)) == clamp_y(b, y2) - clamp_y(b, y1),
        all_bounded(clip_line_cells(b, x1, y1, x2, y2)),
{
    let r1 = x1 > b.x2;
    let l1 = x1 < b.x1;
    let r2 = x2 > b.x2;
    let l2 = x2 < b.x1;
    let bx1 = b.x1 as int;
    let bx2 = b.x2 as int;
    if (y1 < b.y1 && y2 < b.y1) || (y1 > b.y2 && y2 > b.y2) {
    } else if !r1 && !l1 && !r2 && !l2 {
        lemma_clip_y_cells(b, x1, y1, x2, y2);
    } else if (!r1 && !l1 && r2) || (r1 && !r2 && !l2) {
        lemma_y_at(x1, y1, x2, y2, bx2);
        let y3 = y_at(x1, y1, x2, y2, bx2);
        let (p1, p2) = if r2 { (x1, bx2) } else { (bx2, bx2) };
        let (q1, q2) = if r2 { (bx2, bx2) } else { (bx2, x2) };
        lemma_clip_y_cells(b, p1, y1, p2, y3);
        lemma_clip_y_cells(b, q1, y3, q2, y2);
        lemma_sum_cover_append(clip_y_cells(b, p1, y1, p2, y3), clip_y_cells(b, q1, y3, q2, y2));
        lemma_bounded_append(clip_y_cells(b, p1, y1, p2, y3), clip_y_cells(b, q1, y3, q2, y2));
    } else if r1 && r2 {
        lemma_clip_y_cells(b, bx2, y1, bx2, y2);
    } else if (!r1 && !l1 && l2) || (l1 && !r2 && !l2) {
        lemma_y_at(x1, y1, x2, y2, bx1);
        let y3 = y_at(x1, y1, x2, y2, bx1);
        let (p1, p2) = if l2 { (x1, bx1) } else { (bx1, bx1) };
        let (q1, q2) = if l2 { (bx1, bx1) } else { (bx1, x2) };
        lemma_clip_y_cells(b, p1, y1, p2, y3);
        lemma_clip_y_cells(b, q1, y3, q2, y2);
        lemma_sum_cover_append(clip_y_cells(b, p1, y1, p2, y3), clip_y_cells(b, q1, y3, q2, y2));
        lemma_bounded_append(clip_y_cells(b, p1, y1, p2, y3), clip_y_cells(b, q1, y3, q2, y2));
    } else if (r1 && l2) || (l1 && r2) {
        let (ea, eb) = if r1 { (bx2, bx1) } else { (bx1, bx2) };
        lemma_y_at(x1, y1, x2, y2, ea);
        lemma_y_at(x1, y1, x2, y2, eb);
        let y3 = y_at(x1, y1, x2, y2, ea);
        let y4 = y_at(x1, y1, x2, y2, eb);
        let p = clip_y_cells(b, ea, y1, ea, y3);
        let q = clip_y_cells(b, ea, y3, eb, y4);
        let w = clip_y_cells(b, eb, y4, eb, y2);
        lemma_clip_y_cells(b, ea, y1, ea, y3);
        lemma_clip_y_cells(b, ea, y3, eb, y4);
        lemma_clip_y_cells(b, eb, y4, eb, y2);
        lemma_sum_cover_append(p, q);
        lemma_sum_cover_append(p + q, w);
        lemma_bounded_append(p, q);
        lemma_bounded_append(p + q, w);
    } else {
        lemma_clip_y_cells(b, bx1, y1, bx1, y2);
    }
}

} // verus!
