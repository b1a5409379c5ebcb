//! The rasterizer: path commands in, anti-aliased scanlines out.

use vstd::prelude::*;
use crate::cell::{
    abs, all_bounded, at_key, capped, cell_bounded, coord_ok, lemma_line_cells, lemma_sum_cover_append, sorted_by_yx, sum_cover, Cell,
    RasterizerCell, MAX_CELLS,
};
use crate::clip::{clamp_y, clip_to_cells, lemma_clip_inside, lemma_clip_line_cells, Clip};
use crate::scan::{cover_at, covers_positive, ScanlineU8};

verus! {

/// Winding / filling rule.
///
/// Non-zero: a point is inside where the winding number is not zero.
/// Even-odd: a point is inside where the winding number is odd.
#[derive(Debug, PartialEq, Eq, Copy, Clone, Structural)]
pub enum FillingRule {
    NonZero,
    EvenOdd,
}

impl Default for FillingRule {
    fn default() -> (r: FillingRule)
        ensures
            r == FillingRule::NonZero,
    {
        FillingRule::NonZero
    }
}

/// Where the current path stands.
#[derive(Debug, PartialEq, Eq, Copy, Clone, Structural)]
pub enum PathStatus {
    Initial,
    Closed,
    MoveTo,
    LineTo,
}

impl Default for PathStatus {
    fn default() -> (r: PathStatus)
        ensures
            r == PathStatus::Initial,
    {
        PathStatus::Initial
    }
}

/// A path command.
#[derive(Debug, PartialEq, Eq, Copy, Clone, Structural)]
pub enum PathCommand {
    Stop,
    MoveTo,
    LineTo,
    Close,
}

/// One vertex of a path, in sub-pixel units.
#[derive(Debug, PartialEq, Eq, Copy, Clone, Structural)]
pub struct Vertex {
    pub x: i64,
    pub y: i64,
    pub cmd: PathCommand,
}

/// Shift of the coverage scale.
pub const AA_SHIFT: i64 = 8;

/// Coverage values per pixel.
pub const AA_SCALE: i64 = 256;

/// Largest coverage value.
pub const AA_MASK: i64 = 255;

/// Twice the coverage scale.
pub const AA_SCALE2: i64 = 512;

/// Mask of twice the coverage scale.
pub const AA_MASK2: i64 = 511;

/// The entry of the gamma table for a doubled, signed area: the area's
/// magnitude shifted down to coverage units, folded to parity under
/// even-odd, and clamped.
pub open spec fn alpha_index(rule: FillingRule, area: int) -> int {
    let c = abs(area) / 512;
    let c = if rule == FillingRule::EvenOdd {
        let m = c % 512;
        if m > 256 {
            512 - m
        } else {
            m
        }
    } else {
        c
    };
    if c > 255 {
        255
    } else {
        c
    }
}

/// Anti-aliased rasterizer that produces scanlines.
#[derive(Debug)]
pub struct RasterizerScanlineAA {
    /// Clipping region.
    pub clipper: Clip,
    /// Cells of the outline.
    pub outline: RasterizerCell,
    /// Status of the path.
    pub status: PathStatus,
    /// Start of the current sub-path.
    pub x0: i64,
    pub y0: i64,
    /// Row that the next sweep looks at first.
    pub scan_y: i64,
    /// Filling rule for polygons.
    pub filling_rule: FillingRule,
    /// Gamma table: 256 entries, indexed by coverage.
    pub gamma: Vec<u64>,
}

/// The outline after drawing from the clipper's last point to `(x, y)`.
pub open spec fn line_to_cells(r: RasterizerScanlineAA, x: int, y: int) -> Seq<Cell> {
    capped(r.outline.cells@, clip_to_cells(r.clipper, x, y))
}

/// The outline after closing the current polygon.
pub open spec fn close_cells(r: RasterizerScanlineAA) -> Seq<Cell> {
    if r.status == PathStatus::LineTo {
        line_to_cells(r, r.x0 as int, r.y0 as int)
    } else {
        r.outline.cells@
    }
}

/// The part of the rasterizer's state that path commands change: the
/// clipper, the cells, the status and the start of the sub-path.
pub type PathState = (Clip, Seq<Cell>, PathStatus, i64, i64);

/// The state after one path command.
pub open spec fn path_step(st: PathState, v: Vertex) -> PathState {
    match v.cmd {
        PathCommand::LineTo => (
            Clip { x1: v.x, y1: v.y, ..st.0 },
            capped(st.1, clip_to_cells(st.0, v.x as int, v.y as int)),
            PathStatus::LineTo,
            st.3,
            st.4,
        ),
        PathCommand::MoveTo => (Clip { x1: v.x, y1: v.y, ..st.0 }, st.1, PathStatus::MoveTo, v.x, v.y),
        PathCommand::Close => if st.2 == PathStatus::LineTo {
            (
                Clip { x1: st.3, y1: st.4, ..st.0 },
                capped(st.1, clip_to_cells(st.0, st.3 as int, st.4 as int)),
                PathStatus::Closed,
                st.3,
                st.4,
            )
        } else {
            st
        },
        PathCommand::Stop => st,
    }
}

/// The points of the `MoveTo` and `LineTo` commands of `path` before its
/// first `Stop` are sub-pixel coordinates that the sweeper accepts.
pub open spec fn path_points_ok(path: Seq<Vertex>) -> bool
    decreases path.len(),
{
    if path.len() == 0 || path[0].cmd == PathCommand::Stop {
        true
    } else {
        &&& (path[0].cmd == PathCommand::MoveTo || path[0].cmd == PathCommand::LineTo) ==> coord_ok(
            path[0].x as int,
        ) && coord_ok(path[0].y as int)
        &&& path_points_ok(path.drop_first())
    }
}

/// The state after the commands of `path` up to the first `Stop`.
pub open spec fn path_run(st: PathState, path: Seq<Vertex>) -> PathState
    decreases path.len(),
{
    if path.len() == 0 || path[0].cmd == PathCommand::Stop {
        st
    } else {
        path_run(path_step(st, path[0]), path.drop_first())
    }
}

/// Lower and upper limits of any cell's x.
pub const X_LO: i64 = -0x100_0000_0000;

pub const X_HI: i64 = 0x100_0000_0000;

/// Sum of the covers (or, with `use_area`, the areas) of the cells whose x
/// lies in `[lo, hi]`.
pub open spec fn sum_where(s: Seq<Cell>, lo: int, hi: int, use_area: bool) -> int
    decreases s.len(),
{
    if s.len() == 0 {
        0
    } else {
        let c = s.last();
        sum_where(s.drop_last(), lo, hi, use_area) + if lo <= c.x <= hi {
            if use_area {
                c.area as int
            } else {
                c.cover as int
            }
        } else {
            0
        }
    }
}

/// The coverage that sweeping row `y` of `r`'s sorted cells gives pixel
/// `px`: zero left of the row's first cell and right of its last; at the
/// last cell, zero unless its area is not zero; elsewhere the alpha of
/// the cover of all cells up to `px` (doubled area units) less the area
/// of the cells at `px`.
pub open spec fn row_alpha(r: RasterizerScanlineAA, y: int, px: int) -> int {
    let s = r.outline.cells@;
    if s.len() == 0 || y < r.outline.min_y || y > r.outline.max_y {
        0
    } else {
        let k = y - r.outline.min_y;
        let q = s.subrange(r.outline.sorted_y@[k] as int, r.outline.sorted_y@[k + 1] as int);
        if q.len() == 0 || px < q[0].x || px > q.last().x {
            0
        } else {
            let ar = sum_where(q, px, px, true);
            if px == q.last().x && ar == 0 {
                0
            } else {
                r.alpha_spec(sum_where(q, X_LO as int, px, false) * 512 - ar)
            }
        }
    }
}

/// Row coverage depends only on the cells, their index, the filling rule
/// and the gamma table.
proof fn lemma_row_alpha_same(r1: RasterizerScanlineAA, r2: RasterizerScanlineAA)
    requires
        r1.outline == r2.outline,
        r1.filling_rule == r2.filling_rule,
        r1.gamma == r2.gamma,
    ensures
        forall|y: int, px: int| row_alpha(r1, y, px) == row_alpha(r2, y, px),
{
}

/// Cells from index `j` on that fall outside the range add nothing.
proof fn lemma_sum_where_tail(s: Seq<Cell>, j: int, lo: int, hi: int, use_area: bool)
    requires
        0 <= j <= s.len(),
        forall|k: int| j <= k < s.len() ==> !(lo <= #[trigger] s[k].x <= hi),
    ensures
        sum_where(s, lo, hi, use_area) == sum_where(s.take(j), lo, hi, use_area),
    decreases s.len(),
{
    if s.len() == j {
        assert(s.take(j) =~= s);
    } else {
        let d = s.drop_last();
        assert forall|k: int| j <= k < d.len() implies !(lo <= #[trigger] d[k].x <= hi) by {
            assert(d[k] == s[k]);
        }
        lemma_sum_where_tail(d, j, lo, hi, use_area);
        assert(d.take(j) =~= s.take(j));
    }
}

/// Two ranges that hold the same cells give the same sum.
proof fn lemma_sum_where_same(s: Seq<Cell>, lo1: int, hi1: int, lo2: int, hi2: int, use_area: bool)
    requires
        forall|k: int| 0 <= k < s.len() ==> ((lo1 <= #[trigger] s[k].x <= hi1) == (lo2 <= s[k].x <= hi2)),
    ensures
        sum_where(s, lo1, hi1, use_area) == sum_where(s, lo2, hi2, use_area),
    decreases s.len(),
{
    if s.len() > 0 {
        let d = s.drop_last();
        assert forall|k: int| 0 <= k < d.len() implies ((lo1 <= #[trigger] d[k].x <= hi1) == (lo2 <= d[k].x <= hi2)) by {
            assert(d[k] == s[k]);
        }
        lemma_sum_where_same(d, lo1, hi1, lo2, hi2, use_area);
    }
}

/// Extending a prefix by one cell adds that cell's term.
proof fn lemma_sum_where_step(s: Seq<Cell>, i: int, lo: int, hi: int, use_area: bool)
    requires
        0 <= i < s.len(),
    ensures
        sum_where(s.take(i + 1), lo, hi, use_area) == sum_where(s.take(i), lo, hi, use_area) + if lo <= s[i].x
            <= hi {
            if use_area {
                s[i].area as int
            } else {
                s[i].cover as int
            }
        } else {
            0
        },
{
    assert(s.take(i + 1).drop_last() =~= s.take(i));
}

impl RasterizerScanlineAA {
    pub open spec fn wf(&self) -> bool {
        &&& self.clipper.wf()
        &&& self.outline.wf()
        &&& self.gamma@.len() == 256
        &&& coord_ok(self.x0 as int)
        &&& coord_ok(self.y0 as int)
    }

    /// The cells are sorted and indexed by row, ready to sweep.
    pub open spec fn ready(&self) -> bool {
        &&& sorted_by_yx(self.outline.cells@)
        &&& self.outline.row_index_ok()
    }

    /// Coverage for a doubled, signed area, through the gamma table.
    pub open spec fn alpha_spec(&self, area: int) -> int {
        self.gamma@[alpha_index(self.filling_rule, area)] as int
    }

    /// A rasterizer with no cells, no clip rectangle, the non-zero rule and
    /// the identity gamma.
    pub fn new() -> (r: Self)
        ensures
            r.wf(),
            r.outline.cells@.len() == 0,
            r.status == PathStatus::Initial,
            r.filling_rule == FillingRule::NonZero,
            !r.clipper.clipping,
            r.x0 == 0,
            r.y0 == 0,
            r.scan_y == 0,
            r.clipper.x1 == 0,
            r.clipper.y1 == 0,
            forall|i: int| 0 <= i < 256 ==> r.gamma@[i] == i,
    {
        let mut gamma: Vec<u64> = Vec::new();
        let mut i: u64 = 0;
        while i < 256
            invariant
                i <= 256,
                gamma@.len() == i,
                forall|j: int| 0 <= j < i ==> gamma@[j] == j,
            decreases 256 - i,
        {
            gamma.push(i);
            i = i + 1;
        }
        RasterizerScanlineAA {
            clipper: Clip::new(),
            outline: RasterizerCell::new(),
            status: PathStatus::Initial,
            x0: 0,
            y0: 0,
            scan_y: 0,
            filling_rule: FillingRule::NonZero,
            gamma,
        }
    }

    /// Empties the cell store and sets the status to `Initial`.
    pub fn reset(&mut self)
        requires
            old(self).wf(),
        ensures
            final(self).wf(),
            final(self).outline.cells@.len() == 0,
            final(self).outline.sorted_y@.len() == 0,
            final(self).status == PathStatus::Initial,
            final(self).clipper == old(self).clipper,
            final(self).x0 == old(self).x0,
            final(self).y0 == old(self).y0,
            final(self).filling_rule == old(self).filling_rule,
            final(self).gamma == old(self).gamma,
    {
        self.outline.reset();
        self.status = PathStatus::Initial;
    }

    /// Replaces the gamma table; entry `i` is the coverage reported for
    /// coverage `i`.
    pub fn set_gamma_table(&mut self, table: Vec<u64>)
        requires
            old(self).wf(),
            table@.len() == 256,
        ensures
            final(self).wf(),
            final(self).gamma@ == table@,
            final(self).outline == old(self).outline,
            final(self).filling_rule == old(self).filling_rule,
            final(self).clipper == old(self).clipper,
            final(self).status == old(self).status,
            final(self).x0 == old(self).x0,
            final(self).y0 == old(self).y0,
            final(self).scan_y == old(self).scan_y,
    {
        self.gamma = table;
    }

    /// Sets the filling rule.
    pub fn filling_rule(&mut self, rule: FillingRule)
        requires
            old(self).wf(),
        ensures
            final(self).wf(),
            final(self).filling_rule == rule,
            final(self).outline == old(self).outline,
            final(self).gamma == old(self).gamma,
            final(self).clipper == old(self).clipper,
            final(self).status == old(self).status,
            final(self).x0 == old(self).x0,
            final(self).y0 == old(self).y0,
    {
        self.filling_rule = rule;
    }

    /// Sets the clip rectangle, in sub-pixel units.
    pub fn clip_box(&mut self, x1: i64, y1: i64, x2: i64, y2: i64)
        requires
            old(self).wf(),
            coord_ok(x1 as int),
            coord_ok(y1 as int),
            coord_ok(x2 as int),
            coord_ok(y2 as int),
        ensures
            final(self).wf(),
            final(self).clipper.clipping,
            final(self).clipper.clip_box.x1 == if x1 <= x2 { x1 } else { x2 },
            final(self).clipper.clip_box.x2 == if x1 <= x2 { x2 } else { x1 },
            final(self).clipper.clip_box.y1 == if y1 <= y2 { y1 } else { y2 },
            final(self).clipper.clip_box.y2 == if y1 <= y2 { y2 } else { y1 },
            final(self).clipper.x1 == old(self).clipper.x1,
            final(self).clipper.y1 == old(self).clipper.y1,
            final(self).outline == old(self).outline,
            final(self).status == old(self).status,
            final(self).x0 == old(self).x0,
            final(self).y0 == old(self).y0,
            final(self).filling_rule == old(self).filling_rule,
            final(self).gamma == old(self).gamma,
    {
        self.clipper.clip_box(x1, y1, x2, y2);
    }

    /// Starts a sub-path at `(x, y)`, in sub-pixel units.
    pub fn move_to(&mut self, x: i64, y: i64)
        requires
            old(self).wf(),
            coord_ok(x as int),
            coord_ok(y as int),
        ensures
            final(self).wf(),
            final(self).x0 == x,
            final(self).y0 == y,
            final(self).clipper.x1 == x,
            final(self).clipper.y1 == y,
            final(self).clipper.clip_box == old(self).clipper.clip_box,
            final(self).clipper.clipping == old(self).clipper.clipping,
            final(self).status == PathStatus::MoveTo,
            final(self).outline == old(self).outline,
            final(self).filling_rule == old(self).filling_rule,
            final(self).gamma == old(self).gamma,
    {
        self.x0 = x;
        self.y0 = y;
        self.clipper.move_to(x, y);
        self.status = PathStatus::MoveTo;
    }

    /// Draws from the current point to `(x, y)`, in sub-pixel units. The
    /// store holds at most `MAX_CELLS` cells; cells past that are dropped.
    pub fn line_to(&mut self, x: i64, y: i64)
        requires
            old(self).wf(),
            coord_ok(x as int),
            coord_ok(y as int),
        ensures
            final(self).wf(),
            final(self).outline.cells@ == line_to_cells(*old(self), x as int, y as int),
            final(self).outline.sorted_y == old(self).outline.sorted_y,
            final(self).clipper.x1 == x,
            final(self).clipper.y1 == y,
            final(self).clipper.clip_box == old(self).clipper.clip_box,
            final(self).clipper.clipping == old(self).clipper.clipping,
            final(self).status == PathStatus::LineTo,
            final(self).x0 == old(self).x0,
            final(self).y0 == old(self).y0,
            final(self).filling_rule == old(self).filling_rule,
            final(self).gamma == old(self).gamma,
    {
        self.clipper.line_to(&mut self.outline, x, y);
        self.status = PathStatus::LineTo;
    }

    /// Closes the current polygon: draws back to the start of the sub-path
    /// when the last command drew a line; does nothing otherwise.
    pub fn close_polygon(&mut self)
        requires
            old(self).wf(),
        ensures
            final(self).wf(),
            final(self).outline.cells@ == close_cells(*old(self)),
            final(self).outline.sorted_y == old(self).outline.sorted_y,
            final(self).status == if old(self).status == PathStatus::LineTo {
                PathStatus::Closed
            } else {
                old(self).status
            },
            old(self).status == PathStatus::LineTo ==> final(self).clipper.x1 == old(self).x0
                && final(self).clipper.y1 == old(self).y0,
            old(self).status != PathStatus::LineTo ==> final(self).clipper == old(self).clipper,
            final(self).clipper.clip_box == old(self).clipper.clip_box,
            final(self).clipper.clipping == old(self).clipper.clipping,
            final(self).x0 == old(self).x0,
            final(self).y0 == old(self).y0,
            final(self).filling_rule == old(self).filling_rule,
            final(self).gamma == old(self).gamma,
    {
        if self.status == PathStatus::LineTo {
            let x0 = self.x0;
            let y0 = self.y0;
            self.clipper.line_to(&mut self.outline, x0, y0);
            self.status = PathStatus::Closed;
        }
    }

    /// The path state of this rasterizer.
    pub open spec fn path_state(&self) -> PathState {
        (self.clipper, self.outline.cells@, self.status, self.x0, self.y0)
    }

    /// Adds a path: each `MoveTo`, `LineTo` and `Close` in turn, up to the
    /// first `Stop` or the end. A store sorted by an earlier sweep is
    /// emptied first. The store holds at most `MAX_CELLS` cells; cells
    /// past that are dropped.
    pub fn add_path(&mut self, path: &Vec<Vertex>)
        requires
            old(self).wf(),
            path_points_ok(path@),
        ensures
            final(self).wf(),
            final(self).path_state() == path_run(
                if old(self).outline.sorted_y@.len() != 0 {
                    (old(self).clipper, Seq::<Cell>::empty(), PathStatus::Initial, old(self).x0, old(self).y0)
                } else {
                    old(self).path_state()
                },
                path@,
            ),
            final(self).filling_rule == old(self).filling_rule,
            final(self).gamma == old(self).gamma,
    {
        if self.outline.sorted_y.len() != 0 {
            self.reset();
            proof {
                assert(self.outline.cells@ =~= Seq::<Cell>::empty());
            }
        }
        let ghost start = self.path_state();
        let mut i: usize = 0;
        proof {
            assert(path@.skip(0) =~= path@);
        }
        while i < path.len()
            invariant
                self.wf(),
                self.filling_rule == old(self).filling_rule,
                self.gamma == old(self).gamma,
                i <= path@.len(),
                path_run(start, path@) == path_run(self.path_state(), path@.skip(i as int)),
                path_points_ok(path@.skip(i as int)),
            ensures
                self.wf(),
                self.filling_rule == old(self).filling_rule,
                self.gamma == old(self).gamma,
                path_run(start, path@) == self.path_state(),
            decreases path@.len() - i,
        {
            let v = path[i];
            let ghost before = self.path_state();
            proof {
                assert(path@.skip(i as int)[0] == v);
                assert(path@.skip(i as int).drop_first() =~= path@.skip(i + 1));
            }
            match v.cmd {
                PathCommand::LineTo => self.line_to(v.x, v.y),
                PathCommand::MoveTo => self.move_to(v.x, v.y),
                PathCommand::Close => self.close_polygon(),
                PathCommand::Stop => {
                    break;
                },
            }
            proof {
                assert(self.path_state() == path_step(before, v));
            }
            i = i + 1;
        }
    }

    /// Coverage for a doubled, signed area (`(cover << 9) - area` of a
    /// pixel), through the filling rule and the gamma table.
    pub fn calculate_alpha(&self, area: i64) -> (r: u64)
        requires
            self.wf(),
        ensures
            r == self.alpha_spec(area as int),
    {
        let magnitude: u64 = if area >= 0 {
            area as u64
        } else {
            (-(area as i128)) as u64
        };
        let mut cover: u64 = magnitude >> 9u64;
        proof {
            assert(magnitude >> 9u64 == magnitude / 512) by (bit_vector);
        }
        if self.filling_rule == FillingRule::EvenOdd {
            cover = cover & 511u64;
            proof {
                let c0 = magnitude / 512;
                assert(c0 & 511u64 == c0 % 512) by (bit_vector);
            }
            if cover > 256 {
                cover = 512 - cover;
            }
        }
        if cover > 255 {
            cover = 255;
        }
        self.gamma[cover as usize]
    }

    /// Closes the polygon, sorts the cells and starts the sweep at the
    /// first row; tells whether there are any cells.
    pub fn rewind_scanlines(&mut self) -> (r: bool)
        requires
            old(self).wf(),
        ensures
            final(self).wf(),
            final(self).ready(),
            final(self).outline.cells@.len() == close_cells(*old(self)).len(),
            forall|k: Cell| #[trigger] final(self).outline.cells@.filter(at_key(k)) == close_cells(*old(self)).filter(
                at_key(k),
            ),
            r == (final(self).outline.cells@.len() > 0),
            r ==> final(self).scan_y == final(self).outline.min_y,
            final(self).status == if old(self).status == PathStatus::LineTo {
                PathStatus::Closed
            } else {
                old(self).status
            },
            old(self).status == PathStatus::LineTo ==> final(self).clipper.x1 == old(self).x0
                && final(self).clipper.y1 == old(self).y0,
            old(self).status != PathStatus::LineTo ==> final(self).clipper == old(self).clipper,
            final(self).clipper.clip_box == old(self).clipper.clip_box,
            final(self).clipper.clipping == old(self).clipper.clipping,
            final(self).x0 == old(self).x0,
            final(self).y0 == old(self).y0,
            final(self).filling_rule == old(self).filling_rule,
            final(self).gamma == old(self).gamma,
    {
        self.close_polygon();
        self.outline.sort_cells();
        if self.outline.total_cells() == 0 {
            false
        } else {
            self.scan_y = self.outline.min_y;
            true
        }
    }

    /// Fills `sl` with the spans of the next row that has any coverage, and
    /// moves past it; returns false once no row is left.
    pub fn sweep_scanline(&mut self, sl: &mut ScanlineU8) -> (r: bool)
        requires
            old(self).wf(),
            old(self).ready(),
        ensures
            final(self).wf(),
            final(self).ready(),
            final(self).outline == old(self).outline,
            final(self).filling_rule == old(self).filling_rule,
            final(self).gamma == old(self).gamma,
            r ==> final(sl).wf() && final(sl).spans@.len() > 0 && old(self).scan_y <= final(sl).y
                <= final(self).outline.max_y && final(self).scan_y == final(sl).y + 1,
            r ==> final(self).outline.min_x <= final(sl).spans@[0].x && final(sl).end()
                <= final(self).outline.max_x + 1,
            !r ==> final(self).scan_y > final(self).outline.max_y,
            r ==> final(sl).y >= 0 && covers_positive(final(sl).spans@),
            final(self).clipper == old(self).clipper,
            final(self).status == old(self).status,
            final(self).x0 == old(self).x0,
            final(self).y0 == old(self).y0,
            r ==> forall|px: int| cover_at(final(sl).spans@, px) == row_alpha(*old(self), final(sl).y as int, px),
            forall|yy: int, px: int|
                0 <= yy && old(self).scan_y <= yy && (r ==> yy < final(sl).y) ==> row_alpha(*old(self), yy, px)
                    == 0,
    {
        loop
            invariant
                self.wf(),
                self.ready(),
                self.outline == old(self).outline,
                self.filling_rule == old(self).filling_rule,
                self.gamma == old(self).gamma,
                self.scan_y >= old(self).scan_y,
                self.clipper == old(self).clipper,
                self.status == old(self).status,
                self.x0 == old(self).x0,
                self.y0 == old(self).y0,
                forall|yy: int, px: int|
                    0 <= yy && old(self).scan_y <= yy < self.scan_y ==> row_alpha(*old(self), yy, px) == 0,
            ensures
                self.wf(),
                self.ready(),
                self.outline == old(self).outline,
                self.filling_rule == old(self).filling_rule,
                self.gamma == old(self).gamma,
                self.outline.cells@.len() > 0,
                sl.wf(),
                sl.spans@.len() > 0,
                old(self).scan_y <= self.scan_y <= self.outline.max_y,
                self.outline.min_x <= sl.spans@[0].x,
                sl.end() <= self.outline.max_x + 1,
                self.scan_y >= 0,
                covers_positive(sl.spans@),
                self.clipper == old(self).clipper,
                self.status == old(self).status,
                self.x0 == old(self).x0,
                self.y0 == old(self).y0,
                forall|px: int| cover_at(sl.spans@, px) == row_alpha(*old(self), self.scan_y as int, px),
                forall|yy: int, px: int|
                    0 <= yy && old(self).scan_y <= yy < self.scan_y ==> row_alpha(*old(self), yy, px) == 0,
            decreases (if self.scan_y > self.outline.max_y { 0 } else { self.outline.max_y - self.scan_y + 1 }),
        {
            proof {
                lemma_row_alpha_same(*self, *old(self));
            }
            if self.scan_y > self.outline.max_y {
                return false;
            }
            if self.scan_y < 0 {
                self.scan_y = 0;
                if self.scan_y > self.outline.max_y {
                    return false;
                }
            }
            proof {
                if self.outline.cells@.len() == 0 {
                    assert(self.outline.max_y == i64::MIN);
                }
                assert(self.outline.min_y <= self.outline.cells@[0].y <= self.outline.max_y);
            }
            if self.scan_y < self.outline.min_y {
                self.scan_y = self.outline.min_y;
            }
            sl.reset_spans();
            self.sweep_row(sl);
            proof {
                lemma_row_alpha_same(*self, *old(self));
            }
            if sl.num_spans() != 0 {
                break;
            }
            proof {
                assert forall|px: int| row_alpha(*old(self), self.scan_y as int, px) == 0 by {
                    assert(cover_at(sl.spans@, px) == 0);
                }
            }
            self.scan_y = self.scan_y + 1;
        }
        let y = self.scan_y;
        sl.finalize(y);
        self.scan_y = y + 1;
        true
    }

    /// Adds to the empty `sl` the spans of row `scan_y`.
    fn sweep_row(&self, sl: &mut ScanlineU8)
        requires
            self.wf(),
            self.ready(),
            self.outline.cells@.len() > 0,
            self.outline.min_y <= self.scan_y <= self.outline.max_y,
            old(sl).wf(),
            old(sl).spans@.len() == 0,
        ensures
            final(sl).wf(),
            final(sl).y == old(sl).y,
            final(sl).spans@.len() > 0 ==> self.outline.min_x <= final(sl).spans@[0].x && final(sl).end()
                <= self.outline.max_x + 1,
            forall|px: int| cover_at(final(sl).spans@, px) == row_alpha(*self, self.scan_y as int, px),
            covers_positive(final(sl).spans@),
    {
        let (start, end) = self.outline.scanline_range(self.scan_y);
        let cells = &self.outline.cells;
        let ghost q = cells@.subrange(start as int, end as int);
        proof {
            assert forall|a: int, b: int| 0 <= a < b < q.len() implies #[trigger] q[a].x <= #[trigger] q[b].x by {
                assert(q[a] == cells@[start + a]);
                assert(q[b] == cells@[start + b]);
                assert(crate::cell::cell_le(cells@[start + a], cells@[start + b]));
            }
            assert(q.take(0) =~= Seq::<Cell>::empty());
        }
        let mut cover: i64 = 0;
        let mut i: usize = start;
        while i < end
            invariant
                self.wf(),
                self.ready(),
                self.outline.cells@.len() > 0,
                self.outline.min_y <= self.scan_y <= self.outline.max_y,
                start == self.outline.sorted_y@[self.scan_y - self.outline.min_y],
                end == self.outline.sorted_y@[self.scan_y - self.outline.min_y + 1],
                cells == &self.outline.cells,
                start <= i <= end <= cells@.len(),
                end <= MAX_CELLS,
                q == cells@.subrange(start as int, end as int),
                forall|a: int, b: int| 0 <= a < b < q.len() ==> #[trigger] q[a].x <= #[trigger] q[b].x,
                forall|k: int| start <= k < end ==> (#[trigger] cells@[k]).y == self.scan_y,
                abs(cover as int) <= 256 * (i - start),
                cover == sum_where(q.take(i - start), X_LO as int, X_HI as int, false),
                start < i < end ==> cells@[i - 1].x < cells@[i as int].x,
                sl.wf(),
                sl.y == old(sl).y,
                i < end ==> sl.end() <= cells@[i as int].x,
                i >= end && q.len() > 0 ==> sl.end() <= q.last().x + 1,
                i == start ==> sl.spans@.len() == 0,
                covers_positive(sl.spans@),
                sl.spans@.len() > 0 ==> sl.end() <= self.outline.max_x + 1 && self.outline.min_x
                    <= sl.spans@[0].x,
                forall|p: int|
                    p < (if i < end { cells@[i as int].x as int } else { q.last().x + 1 }) ==> cover_at(
                        sl.spans@,
                        p,
                    ) == row_alpha(*self, self.scan_y as int, p),
            decreases end - i,
        {
            let x = cells[i].x;
            let cluster = i;
            let mut area: i64 = cells[i].area;
            proof {
                assert(crate::cell::cell_bounded(cells@[i as int]));
                let j0 = cluster - start;
                assert(q[j0] == cells@[cluster as int]);
                lemma_sum_where_step(q, j0, X_LO as int, X_HI as int, false);
                lemma_sum_where_step(q, j0, x as int, x as int, true);
                assert(self.outline.min_x <= cells@[cluster as int].x <= self.outline.max_x);
                assert forall|k: int| 0 <= k < q.take(j0).len() implies !(x <= #[trigger] q.take(j0)[k].x <= x) by {
                    assert(q.take(j0)[k] == q[k]);
                    if k < j0 - 1 {
                        assert(q[k].x <= q[j0 - 1].x);
                    }
                    assert(q[j0 - 1] == cells@[cluster - 1]);
                }
                lemma_sum_where_tail(q.take(j0), 0, x as int, x as int, true);
                assert(q.take(j0).take(0) =~= Seq::<Cell>::empty());
            }
            cover = cover + cells[i].cover;
            i = i + 1;
            while i < end && cells[i].x == x
                invariant
                    self.wf(),
                    cells == &self.outline.cells,
                    start <= cluster < i <= end <= cells@.len(),
                    end <= MAX_CELLS,
                    q == cells@.subrange(start as int, end as int),
                    abs(cover as int) <= 256 * (i - start),
                    abs(area as int) <= 131072 * (i - cluster),
                    x == cells@[cluster as int].x,
                    cover == sum_where(q.take(i - start), X_LO as int, X_HI as int, false),
                    area == sum_where(q.take(i - start), x as int, x as int, true),
                    forall|k: int| cluster <= k < i ==> (#[trigger] cells@[k]).x == x,
                decreases end - i,
            {
                proof {
                    assert(crate::cell::cell_bounded(cells@[i as int]));
                    assert(q[i - start] == cells@[i as int]);
                    lemma_sum_where_step(q, i - start, X_LO as int, X_HI as int, false);
                    lemma_sum_where_step(q, i - start, x as int, x as int, true);
                }
                area = area + cells[i].area;
                cover = cover + cells[i].cover;
                i = i + 1;
            }
            let ghost j1 = i - start;
            let ghost front: int = if i < end { cells@[i as int].x as int } else { q.last().x + 1 };
            proof {
                assert(self.outline.min_x <= cells@[cluster as int].x <= self.outline.max_x);
                if i < end {
                    assert(crate::cell::cell_le(cells@[cluster as int], cells@[i as int]));
                    assert(self.outline.min_x <= cells@[i as int].x <= self.outline.max_x);
                    assert(q[j1] == cells@[i as int]);
                } else {
                    assert(q.last() == cells@[i - 1]);
                }
                assert forall|k: int| 0 <= k < j1 implies #[trigger] q[k].x <= x by {
                    if k < cluster - start {
                        assert(q[k].x <= q[cluster - start].x);
                    } else {
                        assert(q[k] == cells@[start + k]);
                    }
                }
                assert forall|k: int| j1 <= k < q.len() implies #[trigger] q[k].x >= front by {
                    if k > j1 {
                        assert(q[j1].x <= q[k].x);
                    }
                }
            }
            let ghost sl0 = *sl;
            let mut px = x;
            if area != 0 {
                let alpha = self.calculate_alpha(cover * 512 - area);
                if alpha > 0 {
                    sl.add_cell(x, alpha);
                }
                px = x + 1;
            }
            let ghost sl1 = *sl;
            if i < end && cells[i].x > px {
                let alpha = self.calculate_alpha(cover * 512);
                if alpha > 0 {
                    sl.add_span(px, cells[i].x - px, alpha);
                }
            }
            proof {
                crate::scan::lemma_cover_at_below(sl0.spans@, x as int);
                assert forall|p: int| p < front implies cover_at(sl.spans@, p) == row_alpha(
                    *self,
                    self.scan_y as int,
                    p,
                ) by {
                    crate::scan::lemma_cover_at_below(sl0.spans@, p);
                    crate::scan::lemma_cover_at_below(sl1.spans@, p);
                    if p >= x {
                        self.lemma_row_alpha_cluster(q, j1, x as int, cover as int, area as int, p);
                    }
                }
            }
        }
        proof {
            assert forall|p: int| cover_at(sl.spans@, p) == row_alpha(*self, self.scan_y as int, p) by {
                crate::scan::lemma_cover_at_below(sl.spans@, p);
                if q.len() == 0 {
                    assert(sl.spans@.len() == 0);
                }
            }
        }
    }

    /// What `row_alpha` gives at a pixel `p` from the cluster of cells at `x`
    /// (the cells before index `j1` of row `q` are those at or left of `x`)
    /// up to the next cell.
    proof fn lemma_row_alpha_cluster(&self, q: Seq<Cell>, j1: int, x: int, c: int, a: int, p: int)
        requires
            self.outline.cells@.len() > 0,
            self.outline.min_y <= self.scan_y <= self.outline.max_y,
            q == self.outline.cells@.subrange(
                self.outline.sorted_y@[self.scan_y - self.outline.min_y] as int,
                self.outline.sorted_y@[self.scan_y - self.outline.min_y + 1] as int,
            ),
            0 < j1 <= q.len(),
            q[j1 - 1].x == x,
            forall|k: int| 0 <= k < j1 ==> #[trigger] q[k].x <= x,
            forall|k: int| j1 <= k < q.len() ==> #[trigger] q[k].x > p,
            forall|k: int| 0 <= k < q.len() ==> X_LO <= #[trigger] q[k].x <= X_HI,
            forall|a1: int, b1: int| 0 <= a1 < b1 < q.len() ==> #[trigger] q[a1].x <= #[trigger] q[b1].x,
            c == sum_where(q.take(j1), X_LO as int, X_HI as int, false),
            a == sum_where(q.take(j1), x, x, true),
            x <= p,
            j1 == q.len() ==> p == x,
        ensures
            row_alpha(*self, self.scan_y as int, p) == if p == x && a != 0 {
                self.alpha_spec(c * 512 - a)
            } else if j1 == q.len() {
                0
            } else {
                self.alpha_spec(c * 512)
            },
    {
        lemma_sum_where_tail(q, j1, X_LO as int, p, false);
        lemma_sum_where_tail(q, j1, p, p, true);
        let t = q.take(j1);
        assert forall|k: int| 0 <= k < t.len() implies ((X_LO <= #[trigger] t[k].x <= p) == (X_LO <= t[k].x
            <= X_HI)) by {
            assert(t[k] == q[k]);
        }
        lemma_sum_where_same(t, X_LO as int, p, X_LO as int, X_HI as int, false);
        if p > x {
            assert forall|k: int| 0 <= k < t.len() implies !(p <= #[trigger] t[k].x <= p) by {
                assert(t[k] == q[k]);
            }
            lemma_sum_where_tail(t, 0, p, p, true);
            assert(t.take(0) =~= Seq::<Cell>::empty());
        }
        assert(q[0].x <= x);
        if j1 < q.len() {
            assert(q[j1].x <= q.last().x);
        }
    }

    /// Smallest x of any cell.
    pub fn min_x(&self) -> (r: i64)
        ensures
            r == self.outline.min_x,
    {
        self.outline.min_x
    }

    /// Largest x of any cell.
    pub fn max_x(&self) -> (r: i64)
        ensures
            r == self.outline.max_x,
    {
        self.outline.max_x
    }
}

/// Closing a polygon emits the same cells as drawing a line back to the
/// start of the sub-path.
pub proof fn lemma_close_is_line_to_start(r: RasterizerScanlineAA)
    requires
        r.status == PathStatus::LineTo,
    ensures
        close_cells(r) == line_to_cells(r, r.x0 as int, r.y0 as int),
{
}

/// Under the non-zero rule with a non-decreasing gamma table, the coverage
/// of a pixel with no partial area does not decrease as the magnitude of
/// its cover grows.
pub proof fn lemma_alpha_monotone(r: RasterizerScanlineAA, c1: int, c2: int)
    requires
        r.wf(),
        r.filling_rule == FillingRule::NonZero,
        forall|i: int, j: int| 0 <= i <= j < 256 ==> r.gamma@[i] <= r.gamma@[j],
        abs(c1) <= abs(c2),
    ensures
        r.alpha_spec(c1 * 512) <= r.alpha_spec(c2 * 512),
{
    assert((c1 * 512) / 512 == c1);
    assert((c2 * 512) / 512 == c2);
}

/// Running a path with one more command at its end is running that
/// command after the path, when the path holds no `Stop`.
proof fn lemma_path_run_push(st: PathState, p: Seq<Vertex>, v: Vertex)
    requires
        forall|i: int| 0 <= i < p.len() ==> (#[trigger] p[i]).cmd != PathCommand::Stop,
    ensures
        path_run(st, p.push(v)) == if v.cmd == PathCommand::Stop {
            path_run(st, p)
        } else {
            path_step(path_run(st, p), v)
        },
    decreases p.len(),
{
    if p.len() == 0 {
        assert(p.push(v).drop_first() =~= Seq::<Vertex>::empty());
        assert(p.push(v)[0] == v);
        assert(path_run(path_step(st, v), Seq::<Vertex>::empty()) == path_step(st, v));
    } else {
        assert(p.push(v)[0] == p[0]);
        assert(p.push(v).drop_first() =~= p.drop_first().push(v));
        assert forall|i: int| 0 <= i < p.drop_first().len() implies (#[trigger] p.drop_first()[i]).cmd
            != PathCommand::Stop by {
            assert(p.drop_first()[i] == p[i + 1]);
        }
        lemma_path_run_push(path_step(st, p[0]), p.drop_first(), v);
    }
}

/// A path that ends in `Close` yields the same cells, clipper and start
/// point as the same path ending in an explicit line back to the start of
/// its last sub-path.
pub proof fn lemma_close_path_is_line_back(st: PathState, p: Seq<Vertex>, cx: i64, cy: i64)
    requires
        forall|i: int| 0 <= i < p.len() ==> (#[trigger] p[i]).cmd != PathCommand::Stop,
        path_run(st, p).2 == PathStatus::LineTo,
    ensures
        ({
            let closed = path_run(st, p.push(Vertex { x: cx, y: cy, cmd: PathCommand::Close }));
            let lined = path_run(
                st,
                p.push(Vertex { x: path_run(st, p).3, y: path_run(st, p).4, cmd: PathCommand::LineTo }),
            );
            closed.0 == lined.0 && closed.1 == lined.1 && closed.3 == lined.3 && closed.4 == lined.4
        }),
{
    lemma_path_run_push(st, p, Vertex { x: cx, y: cy, cmd: PathCommand::Close });
    lemma_path_run_push(st, p, Vertex { x: path_run(st, p).3, y: path_run(st, p).4, cmd: PathCommand::LineTo });
}

/// Rasterizing a path whose points (and the current point and sub-path
/// start) all lie within a clip rectangle yields the same cells, last
/// point, status and sub-path start as rasterizing it with no rectangle.
pub proof fn lemma_clip_path_inside(st: PathState, p: Seq<Vertex>)
    requires
        st.0.clip_box.contains(st.0.x1 as int, st.0.y1 as int),
        st.0.clip_box.contains(st.3 as int, st.4 as int),
        forall|i: int| 0 <= i < p.len() ==> st.0.clip_box.contains((#[trigger] p[i]).x as int, p[i].y as int),
    ensures
        ({
            let unclipped = (Clip { clipping: false, ..st.0 }, st.1, st.2, st.3, st.4);
            let a = path_run(st, p);
            let b = path_run(unclipped, p);
            a.1 == b.1 && a.0.x1 == b.0.x1 && a.0.y1 == b.0.y1 && a.2 == b.2 && a.3 == b.3 && a.4 == b.4
        }),
    decreases p.len(),
{
    let unclipped = (Clip { clipping: false, ..st.0 }, st.1, st.2, st.3, st.4);
    if p.len() > 0 && p[0].cmd != PathCommand::Stop {
        let v = p[0];
        lemma_clip_inside(st.0, v.x as int, v.y as int);
        lemma_clip_inside(st.0, st.3 as int, st.4 as int);
        let next = path_step(st, v);
        let next_u = path_step(unclipped, v);
        assert(next_u == (Clip { clipping: false, ..next.0 }, next.1, next.2, next.3, next.4));
        assert forall|i: int| 0 <= i < p.drop_first().len() implies next.0.clip_box.contains(
            (#[trigger] p.drop_first()[i]).x as int,
            p.drop_first()[i].y as int,
        ) by {
            assert(p.drop_first()[i] == p[i + 1]);
        }
        lemma_clip_path_inside(next, p.drop_first());
    }
}

/// On a pixel that `w` windings cover fully (cover `w * 256`, no partial
/// area), the non-zero rule gives the table's full entry for every `w != 0`;
/// the even-odd rule gives the full entry for odd `w` and the empty entry
/// for even `w`.
pub proof fn lemma_winding_parity(r: RasterizerScanlineAA, w: int)
    requires
        r.wf(),
    ensures
        r.filling_rule == FillingRule::NonZero && w != 0 ==> r.alpha_spec(w * 256 * 512) == r.gamma@[255],
        r.filling_rule == FillingRule::EvenOdd ==> r.alpha_spec(w * 256 * 512) == if w % 2 == 0 {
            r.gamma@[0]
        } else {
            r.gamma@[255]
        },
{
    let a = abs(w);
    assert(abs(w * 256 * 512) == a * 256 * 512) by (nonlinear_arith)
        requires
            a == abs(w),
    ;
    assert((a * 256 * 512) / 512 == a * 256) by (nonlinear_arith)
        requires
            a >= 0,
    ;
    let h = a / 2;
    assert(a == 2 * h + a % 2);
    assert(a * 256 == 512 * h + (a % 2) * 256) by (nonlinear_arith)
        requires
            a == 2 * h + a % 2,
    ;
    assert((a * 256) % 512 == (a % 2) * 256) by (nonlinear_arith)
        requires
            a * 256 == 512 * h + (a % 2) * 256,
            0 <= a % 2 <= 1,
            h >= 0,
    ;
    assert(a % 2 == w % 2);
    if w != 0 {
        assert(a >= 1);
        assert(a * 256 >= 256) by (nonlinear_arith)
            requires
                a >= 1,
        ;
    }
}

/// Drawing a line adds the line's vertical sub-pixel extent to the total
/// cover of the outline (limited to the clip rectangle's rows when one is
/// set), as long as the store has room for the line's cells.
pub proof fn lemma_line_to_cover(r: RasterizerScanlineAA, x: int, y: int)
    requires
        r.wf(),
        coord_ok(x),
        coord_ok(y),
        r.outline.cells@.len() + clip_to_cells(r.clipper, x, y).len() <= MAX_CELLS,
    ensures
        sum_cover(line_to_cells(r, x, y)) == sum_cover(r.outline.cells@) + if r.clipper.clipping {
            clamp_y(r.clipper.clip_box, y) - clamp_y(r.clipper.clip_box, r.clipper.y1 as int)
        } else {
            y - r.clipper.y1
        },
        all_bounded(line_to_cells(r, x, y)),
{
    let s = r.outline.cells@;
    let t = clip_to_cells(r.clipper, x, y);
    assert((s + t).take((s.len() + t.len()) as int) =~= s + t);
    lemma_sum_cover_append(s, t);
    if r.clipper.clipping {
        lemma_clip_line_cells(r.clipper.clip_box, r.clipper.x1 as int, r.clipper.y1 as int, x, y);
    } else {
        lemma_line_cells(r.clipper.x1 as int, r.clipper.y1 as int, x, y);
    }
    assert forall|i: int| 0 <= i < (s + t).len() implies cell_bounded(#[trigger] (s + t)[i]) by {
        if i < s.len() {
            assert((s + t)[i] == s[i]);
        } else {
            assert((s + t)[i] == t[i - s.len()]);
        }
    }
}

} // verus!
