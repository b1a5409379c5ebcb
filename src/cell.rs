//! The cell store and the line sweeper that fills it.

use vstd::prelude::*;
use vstd::arithmetic::div_mod::{lemma_div_by_multiple, lemma_div_is_ordered, lemma_div_pos_is_pos};
use vstd::arithmetic::mul::lemma_mul_inequality;

verus! {

/// Sub-pixel steps per pixel, as a shift.
pub const POLY_SUBPIXEL_SHIFT: i64 = 8;

/// Sub-pixel steps per pixel.
pub const POLY_SUBPIXEL_SCALE: i64 = 256;

/// Mask of the sub-pixel part of a coordinate.
pub const POLY_SUBPIXEL_MASK: i64 = 255;

/// Upper bound (exclusive) on the magnitude of a sub-pixel coordinate.
pub const COORD_LIMIT: i64 = 0x8000_0000;

/// Most cells that one store holds; cells past it are dropped.
pub const MAX_CELLS: usize = 4194304;

/// Largest magnitude of a cell's `area`: twice a full pixel of sub-pixel area.
pub const MAX_CELL_AREA: i64 = 131072;

/// One pixel's signed contribution from the edges that cross it.
#[derive(Clone, Copy, Debug, PartialEq, Eq, Structural)]
pub struct Cell {
    pub x: i64,
    pub y: i64,
    pub cover: i64,
    pub area: i64,
}

/// A sub-pixel coordinate that the sweeper accepts.
pub open spec fn coord_ok(v: int) -> bool {
    -COORD_LIMIT < v < COORD_LIMIT
}

pub open spec fn abs(v: int) -> int {
    if v < 0 {
        -v
    } else {
        v
    }
}

/// `a * t / d` rounded toward zero.
pub open spec fn scaled(a: int, t: int, d: int) -> int {
    if a >= 0 {
        (a * t) / d
    } else {
        -((-a * t) / d)
    }
}

/// The cell for the part of an edge inside column `c` of row `ey`, from
/// `(xa, ya)` to `(xb, yb)` (x absolute, y within the row); none when the
/// part has no height.
pub open spec fn piece_cell(ey: int, c: int, xa: int, ya: int, xb: int, yb: int) -> Seq<Cell> {
    let cover = yb - ya;
    let area = (xa - c * 256 + xb - c * 256) * cover;
    if cover == 0 {
        seq![]
    } else {
        seq![Cell { x: c as i64, y: ey as i64, cover: cover as i64, area: area as i64 }]
    }
}

/// Whether the walk along row `ey` from column `c` toward `x2` is at its last column.
pub open spec fn at_last_column(x1: int, x2: int, c: int) -> bool {
    (x2 > x1 && c >= x2 / 256) || (x2 <= x1 && c <= x2 / 256)
}

/// The cells of an edge within one pixel row `ey`, from column `c` (where
/// the edge stands at `(xa, ya)`) to the end `(x2, y2s)`. The edge runs from
/// `(x1, y1s)`; `y1s` and `y2s` are sub-pixel offsets within the row.
pub open spec fn hline_walk(ey: int, x1: int, y1s: int, x2: int, y2s: int, c: int, xa: int, ya: int) -> Seq<Cell>
    decreases (if x2 > x1 { x2 / 256 - c } else { c - x2 / 256 }),
{
    if at_last_column(x1, x2, c) {
        piece_cell(ey, c, xa, ya, x2, y2s)
    } else {
        let xb = if x2 > x1 { (c + 1) * 256 } else { c * 256 };
        let yb = y1s + scaled(y2s - y1s, abs(xb - x1), abs(x2 - x1));
        let next = if x2 > x1 { c + 1 } else { c - 1 };
        piece_cell(ey, c, xa, ya, xb, yb) + hline_walk(ey, x1, y1s, x2, y2s, next, xb, yb)
    }
}

/// The cells of an edge that stays within pixel row `ey`.
pub open spec fn hline_cells(ey: int, x1: int, y1s: int, x2: int, y2s: int) -> Seq<Cell> {
    hline_walk(ey, x1, y1s, x2, y2s, x1 / 256, x1, y1s)
}

/// Whether the walk from row `r` toward `y2` is at its last row.
pub open spec fn at_last_row(y1: int, y2: int, r: int) -> bool {
    (y2 > y1 && r >= y2 / 256) || (y2 <= y1 && r <= y2 / 256)
}

/// The cells of the edge `(x1, y1) -> (x2, y2)` from row `r` on, where the
/// edge stands at `(xa, ya)`.
pub open spec fn line_walk(x1: int, y1: int, x2: int, y2: int, r: int, xa: int, ya: int) -> Seq<Cell>
    decreases (if y2 > y1 { y2 / 256 - r } else { r - y2 / 256 }),
{
    if at_last_row(y1, y2, r) {
        hline_cells(r, xa, ya - r * 256, x2, y2 - r * 256)
    } else {
        let yb = if y2 > y1 { (r + 1) * 256 } else { r * 256 };
        let xb = x1 + scaled(x2 - x1, abs(yb - y1), abs(y2 - y1));
        let next = if y2 > y1 { r + 1 } else { r - 1 };
        hline_cells(r, xa, ya - r * 256, xb, yb - r * 256) + line_walk(x1, y1, x2, y2, next, xb, yb)
    }
}

/// The cells that the sweeper emits for the edge `(x1, y1) -> (x2, y2)`.
pub open spec fn line_cells(x1: int, y1: int, x2: int, y2: int) -> Seq<Cell> {
    line_walk(x1, y1, x2, y2, y1 / 256, x1, y1)
}

/// Sum of the covers of a sequence of cells.
pub open spec fn sum_cover(s: Seq<Cell>) -> int
    decreases s.len(),
{
    if s.len() == 0 {
        0
    } else {
        sum_cover(s.drop_last()) + s.last().cover
    }
}

/// A cell whose cover and area lie within one pixel's worth.
pub open spec fn cell_bounded(c: Cell) -> bool {
    abs(c.cover as int) <= 256 && abs(c.area as int) <= MAX_CELL_AREA && abs(c.x as int) < 0x100_0000
        && abs(c.y as int) < 0x100_0000
}

pub open spec fn all_bounded(s: Seq<Cell>) -> bool {
    forall|i: int| 0 <= i < s.len() ==> cell_bounded(#[trigger] s[i])
}

/// `a` comes no later than `b` in `(y, x)` order.
pub open spec fn cell_le(a: Cell, b: Cell) -> bool {
    a.y < b.y || (a.y == b.y && a.x <= b.x)
}

/// `a` comes strictly before `b` in `(y, x)` order.
pub open spec fn cell_lt(a: Cell, b: Cell) -> bool {
    a.y < b.y || (a.y == b.y && a.x < b.x)
}

/// The cells are in non-decreasing `(y, x)` order.
pub open spec fn sorted_by_yx(s: Seq<Cell>) -> bool {
    forall|a: int, b: int| 0 <= a < b < s.len() ==> cell_le(#[trigger] s[a], #[trigger] s[b])
}

/// `s` followed by `t`, as far as the store's capacity reaches.
pub open spec fn capped(s: Seq<Cell>, t: Seq<Cell>) -> Seq<Cell> {
    let n: int = s.len() as int + t.len() as int;
    (s + t).take(if n <= MAX_CELLS { n } else { MAX_CELLS as int })
}

pub proof fn lemma_sum_cover_append(a: Seq<Cell>, b: Seq<Cell>)
    ensures
        sum_cover(a + b) == sum_cover(a) + sum_cover(b),
    decreases b.len(),
{
    if b.len() == 0 {
        assert(a + b =~= a);
    } else {
        assert((a + b).drop_last() =~= a + b.drop_last());
        lemma_sum_cover_append(a, b.drop_last());
    }
}

pub(crate) proof fn lemma_scaled_bounds(a: int, t: int, d: int)
    requires
        0 <= t <= d,
        0 < d,
    ensures
        a >= 0 ==> 0 <= scaled(a, t, d) <= a,
        a < 0 ==> a <= scaled(a, t, d) <= 0,
        t == d ==> scaled(a, t, d) == a,
{
    let m = abs(a);
    lemma_mul_inequality(t, d, m);
    assert(t * m == m * t) by (nonlinear_arith);
    assert(d * m == m * d) by (nonlinear_arith);
    assert(0 <= m * t) by (nonlinear_arith)
        requires
            0 <= m,
            0 <= t,
    ;
    lemma_div_is_ordered(m * t, m * d, d);
    lemma_div_by_multiple(m, d);
    lemma_div_pos_is_pos(m * t, d);
}

proof fn lemma_piece_cell(ey: int, c: int, xa: int, ya: int, xb: int, yb: int)
    requires
        c * 256 <= xa <= c * 256 + 256,
        c * 256 <= xb <= c * 256 + 256,
        0 <= ya <= 256,
        0 <= yb <= 256,
        abs(c) < 0x100_0000,
        abs(ey) < 0x100_0000,
    ensures
        all_bounded(piece_cell(ey, c, xa, ya, xb, yb)),
        sum_cover(piece_cell(ey, c, xa, ya, xb, yb)) == yb - ya,
{
    let s = piece_cell(ey, c, xa, ya, xb, yb);
    let w = xa - c * 256 + xb - c * 256;
    let cover = yb - ya;
    assert(abs(w * cover) <= 512 * 256) by (nonlinear_arith)
        requires
            0 <= w <= 512,
            -256 <= cover <= 256,
    ;
    if cover != 0 {
        assert(s.drop_last() =~= Seq::<Cell>::empty());
        assert(sum_cover(s.drop_last()) == 0);
        assert(s.last().cover == cover);
    } else {
        assert(sum_cover(s) == 0);
    }
}

/// Within a row, the cells of an edge sum their covers to the edge's height
/// and stay within one pixel's worth each.
proof fn lemma_hline_walk(ey: int, x1: int, y1s: int, x2: int, y2s: int, c: int, xa: int, ya: int)
    requires
        0 <= y1s <= 256,
        0 <= y2s <= 256,
        0 <= ya <= 256,
        c * 256 <= xa <= c * 256 + 256,
        x2 > x1 ==> c <= x2 / 256 && x1 <= xa <= x2,
        x2 <= x1 ==> c >= x2 / 256 && x2 <= xa <= x1,
        coord_ok(x1),
        coord_ok(x2),
        abs(ey) < 0x100_0000,
    ensures
        sum_cover(hline_walk(ey, x1, y1s, x2, y2s, c, xa, ya)) == y2s - ya,
        all_bounded(hline_walk(ey, x1, y1s, x2, y2s, c, xa, ya)),
    decreases (if x2 > x1 { x2 / 256 - c } else { c - x2 / 256 }),
{
    if at_last_column(x1, x2, c) {
        lemma_piece_cell(ey, c, xa, ya, x2, y2s);
    } else {
        let xb = if x2 > x1 { (c + 1) * 256 } else { c * 256 };
        let t = abs(xb - x1);
        let d = abs(x2 - x1);
        lemma_scaled_bounds(y2s - y1s, t, d);
        let yb = y1s + scaled(y2s - y1s, t, d);
        let next = if x2 > x1 { c + 1 } else { c - 1 };
        lemma_piece_cell(ey, c, xa, ya, xb, yb);
        lemma_hline_walk(ey, x1, y1s, x2, y2s, next, xb, yb);
        lemma_sum_cover_append(
            piece_cell(ey, c, xa, ya, xb, yb),
            hline_walk(ey, x1, y1s, x2, y2s, next, xb, yb),
        );
    }
}

proof fn lemma_line_walk(x1: int, y1: int, x2: int, y2: int, r: int, xa: int, ya: int)
    requires
        r * 256 <= ya <= r * 256 + 256,
        y2 > y1 ==> r <= y2 / 256,
        y2 <= y1 ==> r >= y2 / 256,
        x1 <= x2 ==> x1 <= xa <= x2,
        x2 < x1 ==> x2 <= xa <= x1,
        y2 > y1 ==> y1 <= ya,
        y2 <= y1 ==> ya <= y1,
        coord_ok(x1),
        coord_ok(x2),
        coord_ok(y1),
        coord_ok(y2),
    ensures
        sum_cover(line_walk(x1, y1, x2, y2, r, xa, ya)) == y2 - ya,
        all_bounded(line_walk(x1, y1, x2, y2, r, xa, ya)),
    decreases (if y2 > y1 { y2 / 256 - r } else { r - y2 / 256 }),
{
    if at_last_row(y1, y2, r) {
        lemma_hline_walk(r, xa, ya - r * 256, x2, y2 - r * 256, xa / 256, xa, ya - r * 256);
    } else {
        let yb = if y2 > y1 { (r + 1) * 256 } else { r * 256 };
        let t = abs(yb - y1);
        let d = abs(y2 - y1);
        lemma_scaled_bounds(x2 - x1, t, d);
        let xb = x1 + scaled(x2 - x1, t, d);
        let next = if y2 > y1 { r + 1 } else { r - 1 };
        lemma_hline_walk(r, xa, ya - r * 256, xb, yb - r * 256, xa / 256, xa, ya - r * 256);
        lemma_line_walk(x1, y1, x2, y2, next, xb, yb);
        lemma_sum_cover_append(
            hline_cells(r, xa, ya - r * 256, xb, yb - r * 256),
            line_walk(x1, y1, x2, y2, next, xb, yb),
        );
    }
}

/// The covers of the cells that one edge produces sum to the edge's
/// vertical extent, and every such cell's area stays within twice a full
/// pixel of sub-pixel area.
pub proof fn lemma_line_cells(x1: int, y1: int, x2: int, y2: int)
    requires
        coord_ok(x1),
        coord_ok(y1),
        coord_ok(x2),
        coord_ok(y2),
    ensures
        sum_cover(line_cells(x1, y1, x2, y2)) == y2 - y1,
        all_bounded(line_cells(x1, y1, x2, y2)),
        forall|i: int|
            0 <= i < line_cells(x1, y1, x2, y2).len() ==> abs(
                #[trigger] line_cells(x1, y1, x2, y2)[i].area as int,
            ) <= 2 * 256 * 256,
{
    lemma_line_walk(x1, y1, x2, y2, y1 / 256, x1, y1);
}

pub(crate) proof fn lemma_capped_assoc(s: Seq<Cell>, a: Seq<Cell>, b: Seq<Cell>)
    requires
        s.len() <= MAX_CELLS,
    ensures
        capped(capped(s, a), b) == capped(s, a + b),
        capped(s, a).len() <= MAX_CELLS,
        capped(s, Seq::<Cell>::empty()) == s,
{
    assert(s + Seq::<Cell>::empty() =~= s);
    assert(s.take(s.len() as int) =~= s);
    assert((s + a) + b =~= s + (a + b));
    if s.len() + a.len() <= MAX_CELLS {
        assert((s + a).take((s.len() + a.len()) as int) =~= s + a);
    } else {
        assert(capped(capped(s, a), b) =~= capped(s, a + b));
    }
}

/// The pixel that holds a sub-pixel coordinate: `v >> 8`.
fn pixel_of(v: i64) -> (r: i64)
    requires
        coord_ok(v as int),
    ensures
        r == v / 256,
        abs(r as int) < 0x80_0001,
{
    if v >= 0 {
        v / 256
    } else {
        let w: i64 = -v;
        -((w + 255) / 256)
    }
}

/// `a * t / d` rounded toward zero.
pub(crate) fn scaled_exec(a: i128, t: i128, d: i128) -> (r: i128)
    requires
        0 <= t <= d,
        0 < d,
        d < 0x100_0000_0000,
        abs(a as int) < 0x100_0000_0000,
    ensures
        r == scaled(a as int, t as int, d as int),
{
    if a >= 0 {
        assert(a * t < 0x1_0000_0000_0000_0000_0000) by (nonlinear_arith)
            requires
                0 <= a < 0x100_0000_0000,
                0 <= t < 0x100_0000_0000,
        ;
        (a * t) / d
    } else {
        let m: i128 = -a;
        assert(m * t < 0x1_0000_0000_0000_0000_0000) by (nonlinear_arith)
            requires
                0 <= m < 0x100_0000_0000,
                0 <= t < 0x100_0000_0000,
        ;
        assert(0 <= m * t) by (nonlinear_arith)
            requires
                0 <= m,
                0 <= t,
        ;
        let q: i128 = (m * t) / d;
        -q
    }
}

/// Selects the cells at the position of `k`.
pub open spec fn at_key(k: Cell) -> spec_fn(Cell) -> bool {
    |c: Cell| c.y == k.y && c.x == k.x
}

fn cell_before(a: &Cell, b: &Cell) -> (r: bool)
    ensures
        r == cell_lt(*a, *b),
{
    a.y < b.y || (a.y == b.y && a.x < b.x)
}

/// Every cell is bounded and lies within the given extents.
pub open spec fn cells_within(s: Seq<Cell>, e: (i64, i64, i64, i64)) -> bool {
    forall|i: int|
        0 <= i < s.len() ==> cell_bounded(#[trigger] s[i]) && e.0 <= s[i].x <= e.1 && e.2 <= s[i].y <= e.3
}

proof fn lemma_filter_push(s: Seq<Cell>, c: Cell, k: Cell)
    ensures
        s.push(c).filter(at_key(k)) == if at_key(k)(c) {
            s.filter(at_key(k)).push(c)
        } else {
            s.filter(at_key(k))
        },
{
    reveal_with_fuel(Seq::<Cell>::filter, 1);
    assert(s.push(c).drop_last() =~= s);
}

/// Cells that all sit strictly before `c` include none at `c`'s position.
proof fn lemma_filter_none_before(s: Seq<Cell>, c: Cell)
    requires
        forall|t: int| 0 <= t < s.len() ==> cell_lt(#[trigger] s[t], c),
    ensures
        s.filter(at_key(c)) == Seq::<Cell>::empty(),
    decreases s.len(),
{
    reveal_with_fuel(Seq::<Cell>::filter, 1);
    if s.len() > 0 {
        let d = s.drop_last();
        assert forall|t: int| 0 <= t < d.len() implies cell_lt(#[trigger] d[t], c) by {
            assert(d[t] == s[t]);
        }
        lemma_filter_none_before(d, c);
        assert(!at_key(c)(s.last()));
    }
}

/// Merges two sorted runs; at each position the cells of `a` come before
/// those of `b`.
fn merge(a: &Vec<Cell>, b: &Vec<Cell>, e: Ghost<(i64, i64, i64, i64)>) -> (out: Vec<Cell>)
    requires
        sorted_by_yx(a@),
        sorted_by_yx(b@),
        cells_within(a@, e@),
        cells_within(b@, e@),
    ensures
        sorted_by_yx(out@),
        cells_within(out@, e@),
        out@.len() == a@.len() + b@.len(),
        forall|k: Cell| #[trigger] out@.filter(at_key(k)) == a@.filter(at_key(k)) + b@.filter(at_key(k)),
{
    let mut out: Vec<Cell> = Vec::new();
    let mut i: usize = 0;
    let mut j: usize = 0;
    let na = a.len();
    let nb = b.len();
    proof {
        assert(a@.take(0) =~= Seq::<Cell>::empty());
        assert(b@.take(0) =~= Seq::<Cell>::empty());
        reveal_with_fuel(Seq::<Cell>::filter, 1);
        assert forall|k: Cell| #[trigger] out@.filter(at_key(k)) == a@.take(0).filter(at_key(k)) + b@.take(
            0,
        ).filter(at_key(k)) by {
            assert(Seq::<Cell>::empty() + Seq::<Cell>::empty() =~= Seq::<Cell>::empty());
        }
    }
    while i < na || j < nb
        invariant
            na == a@.len(),
            nb == b@.len(),
            sorted_by_yx(a@),
            sorted_by_yx(b@),
            cells_within(a@, e@),
            cells_within(b@, e@),
            i <= na,
            j <= nb,
            out@.len() == i + j,
            sorted_by_yx(out@),
            cells_within(out@, e@),
            out@.len() > 0 && i < na ==> cell_le(out@.last(), a@[i as int]),
            out@.len() > 0 && j < nb ==> cell_le(out@.last(), b@[j as int]),
            i < na ==> forall|t: int| 0 <= t < j ==> cell_lt(#[trigger] b@[t], a@[i as int]),
            forall|k: Cell| #[trigger] out@.filter(at_key(k)) == a@.take(i as int).filter(at_key(k)) + b@.take(
                j as int,
            ).filter(at_key(k)),
        decreases na + nb - i - j,
    {
        let ghost before = out@;
        if j >= nb || (i < na && !cell_before(&b[j], &a[i])) {
            let c = a[i];
            out.push(c);
            proof {
                assert(a@.take(i + 1) =~= a@.take(i as int).push(c));
                assert forall|k: Cell| #[trigger] out@.filter(at_key(k)) == a@.take(i + 1).filter(at_key(k))
                    + b@.take(j as int).filter(at_key(k)) by {
                    lemma_filter_push(before, c, k);
                    lemma_filter_push(a@.take(i as int), c, k);
                    if at_key(k)(c) {
                        let bt = b@.take(j as int);
                        assert forall|t: int| 0 <= t < bt.len() implies cell_lt(#[trigger] bt[t], c) by {
                            assert(bt[t] == b@[t]);
                        }
                        lemma_filter_none_before(bt, c);
                        assert(at_key(k) == at_key(c));
                        assert((a@.take(i as int).filter(at_key(k)) + bt.filter(at_key(k))).push(c)
                            =~= a@.take(i as int).filter(at_key(k)).push(c) + bt.filter(at_key(k)));
                    }
                }
                assert forall|x: int, y: int| 0 <= x < y < out@.len() implies cell_le(
                    #[trigger] out@[x],
                    #[trigger] out@[y],
                ) by {
                    if y == out@.len() - 1 && x < y {
                        if x < before.len() - 1 {
                            assert(cell_le(before[x], before.last()));
                        }
                    }
                }
                if i + 1 < na {
                    assert(cell_le(a@[i as int], a@[i + 1]));
                }
            }
            i = i + 1;
        } else {
            let c = b[j];
            out.push(c);
            proof {
                assert(b@.take(j + 1) =~= b@.take(j as int).push(c));
                assert forall|k: Cell| #[trigger] out@.filter(at_key(k)) == a@.take(i as int).filter(at_key(k))
                    + b@.take(j + 1).filter(at_key(k)) by {
                    lemma_filter_push(before, c, k);
                    lemma_filter_push(b@.take(j as int), c, k);
                    assert((a@.take(i as int).filter(at_key(k)) + b@.take(j as int).filter(at_key(k))).push(c)
                        =~= a@.take(i as int).filter(at_key(k)) + b@.take(j as int).filter(at_key(k)).push(c));
                }
                assert forall|x: int, y: int| 0 <= x < y < out@.len() implies cell_le(
                    #[trigger] out@[x],
                    #[trigger] out@[y],
                ) by {
                    if y == out@.len() - 1 && x < y {
                        if x < before.len() - 1 {
                            assert(cell_le(before[x], before.last()));
                        }
                    }
                }
                if j + 1 < nb {
                    assert(cell_le(b@[j as int], b@[j + 1]));
                }
            }
            j = j + 1;
        }
    }
    proof {
        assert(a@.take(na as int) =~= a@);
        assert(b@.take(nb as int) =~= b@);
    }
    out
}

/// Sorts cells by `(y, x)`; at each position the cells keep their order.
fn merge_sort(v: &Vec<Cell>, e: Ghost<(i64, i64, i64, i64)>) -> (out: Vec<Cell>)
    requires
        cells_within(v@, e@),
    ensures
        sorted_by_yx(out@),
        cells_within(out@, e@),
        out@.len() == v@.len(),
        forall|k: Cell| #[trigger] out@.filter(at_key(k)) == v@.filter(at_key(k)),
    decreases v@.len(),
{
    let n = v.len();
    let mid = n / 2;
    let mut left: Vec<Cell> = Vec::new();
    let mut right: Vec<Cell> = Vec::new();
    let mut i: usize = 0;
    while i < n
        invariant
            n == v@.len(),
            mid == n / 2,
            i <= n,
            left@ == v@.take(if i < mid { i as int } else { mid as int }),
            right@ == if i < mid { Seq::<Cell>::empty() } else { v@.subrange(mid as int, i as int) },
        decreases n - i,
    {
        if i < mid {
            left.push(v[i]);
            proof {
                assert(left@ =~= v@.take(if i + 1 < mid { i + 1 } else { mid as int }));
            }
        } else {
            right.push(v[i]);
            proof {
                assert(right@ =~= v@.subrange(mid as int, i + 1));
            }
        }
        i = i + 1;
    }
    proof {
        assert(v@ =~= left@ + right@);
        assert(cells_within(left@, e@)) by {
            assert forall|t: int| 0 <= t < left@.len() implies cell_bounded(#[trigger] left@[t]) && e@.0
                <= left@[t].x <= e@.1 && e@.2 <= left@[t].y <= e@.3 by {
                assert(left@[t] == v@[t]);
            }
        }
        assert(cells_within(right@, e@)) by {
            assert forall|t: int| 0 <= t < right@.len() implies cell_bounded(#[trigger] right@[t]) && e@.0
                <= right@[t].x <= e@.1 && e@.2 <= right@[t].y <= e@.3 by {
                assert(right@[t] == v@[mid + t]);
            }
        }
    }
    if n <= 1 {
        proof {
            assert(right@ =~= v@);
        }
        return right;
    }
    let l = merge_sort(&left, e);
    let r = merge_sort(&right, e);
    let out = merge(&l, &r, e);
    proof {
        assert forall|k: Cell| #[trigger] out@.filter(at_key(k)) == v@.filter(at_key(k)) by {
            Seq::filter_distributes_over_add(left@, right@, at_key(k));
        }
    }
    out
}

/// The cells of a path's outline, with their extents and, once sorted, a
/// row index.
#[derive(Debug)]
pub struct RasterizerCell {
    /// Cells in the order they were emitted, or by `(y, x)` once sorted.
    pub cells: Vec<Cell>,
    /// Once sorted: for row `min_y + k`, the cells stand at
    /// `sorted_y[k] .. sorted_y[k + 1]`.
    pub sorted_y: Vec<usize>,
    pub min_x: i64,
    pub max_x: i64,
    pub min_y: i64,
    pub max_y: i64,
}

impl RasterizerCell {
    /// Every cell lies within the extents and within one pixel's worth.
    pub open spec fn wf(&self) -> bool {
        &&& self.cells@.len() <= MAX_CELLS
        &&& all_bounded(self.cells@)
        &&& forall|i: int|
            0 <= i < self.cells@.len() ==> self.min_x <= (#[trigger] self.cells@[i]).x <= self.max_x
                && self.min_y <= self.cells@[i].y <= self.max_y
        &&& self.cells@.len() == 0 ==> self.min_x == i64::MAX && self.max_x == i64::MIN && self.min_y
            == i64::MAX && self.max_y == i64::MIN
        &&& self.cells@.len() > 0 ==> abs(self.min_x as int) < 0x100_0000 && abs(self.max_x as int)
            < 0x100_0000 && abs(self.min_y as int) < 0x100_0000 && abs(self.max_y as int) < 0x100_0000
    }

    /// An empty store.
    pub fn new() -> (r: Self)
        ensures
            r.wf(),
            r.cells@.len() == 0,
            r.sorted_y@.len() == 0,
    {
        RasterizerCell {
            cells: Vec::new(),
            sorted_y: Vec::new(),
            min_x: i64::MAX,
            max_x: i64::MIN,
            min_y: i64::MAX,
            max_y: i64::MIN,
        }
    }

    /// Empties the store and unsets the extents.
    pub fn reset(&mut self)
        ensures
            final(self).wf(),
            final(self).cells@.len() == 0,
            final(self).sorted_y@.len() == 0,
    {
        self.cells.clear();
        self.sorted_y.clear();
        self.min_x = i64::MAX;
        self.max_x = i64::MIN;
        self.min_y = i64::MAX;
        self.max_y = i64::MIN;
    }

    /// Number of cells held.
    pub fn total_cells(&self) -> (r: usize)
        ensures
            r == self.cells@.len(),
    {
        self.cells.len()
    }

    /// Appends a cell while there is room, widening the extents to it.
    pub fn add_cell(&mut self, c: Cell)
        requires
            old(self).wf(),
            cell_bounded(c),
        ensures
            final(self).wf(),
            final(self).cells@ == capped(old(self).cells@, seq![c]),
            final(self).sorted_y == old(self).sorted_y,
    {
        proof {
            lemma_capped_assoc(self.cells@, seq![c], Seq::<Cell>::empty());
        }
        if self.cells.len() < MAX_CELLS {
            if c.x < self.min_x {
                self.min_x = c.x;
            }
            if c.x > self.max_x {
                self.max_x = c.x;
            }
            if c.y < self.min_y {
                self.min_y = c.y;
            }
            if c.y > self.max_y {
                self.max_y = c.y;
            }
            self.cells.push(c);
            assert(self.cells@ =~= capped(old(self).cells@, seq![c]));
        } else {
            assert(self.cells@ =~= capped(old(self).cells@, seq![c]));
        }
    }

    fn add_piece(&mut self, ey: i64, c: i64, xa: i64, ya: i64, xb: i64, yb: i64)
        requires
            old(self).wf(),
            c * 256 <= xa <= c * 256 + 256,
            c * 256 <= xb <= c * 256 + 256,
            0 <= ya <= 256,
            0 <= yb <= 256,
            abs(c as int) < 0x100_0000,
            abs(ey as int) < 0x100_0000,
        ensures
            final(self).wf(),
            final(self).cells@ == capped(
                old(self).cells@,
                piece_cell(ey as int, c as int, xa as int, ya as int, xb as int, yb as int),
            ),
            final(self).sorted_y == old(self).sorted_y,
    {
        proof {
            lemma_piece_cell(ey as int, c as int, xa as int, ya as int, xb as int, yb as int);
            lemma_capped_assoc(self.cells@, Seq::<Cell>::empty(), Seq::<Cell>::empty());
        }
        let cover: i64 = yb - ya;
        if cover != 0 {
            let w: i64 = xa - c * 256 + xb - c * 256;
            assert(-512 * 256 <= w * cover <= 512 * 256) by (nonlinear_arith)
                requires
                    0 <= w <= 512,
                    -256 <= cover <= 256,
            ;
            let cell = Cell { x: c, y: ey, cover, area: w * cover };
            proof {
                let p = piece_cell(ey as int, c as int, xa as int, ya as int, xb as int, yb as int);
                assert(p[0] == cell);
                assert(p =~= seq![cell]);
            }
            self.add_cell(cell);
        }
    }

    /// Emits the cells of an edge inside pixel row `ey`, from `(x1, y1s)` to
    /// `(x2, y2s)`, with `y1s`, `y2s` sub-pixel offsets within the row.
    pub fn render_hline(&mut self, ey: i64, x1: i64, y1s: i64, x2: i64, y2s: i64)
        requires
            old(self).wf(),
            0 <= y1s <= 256,
            0 <= y2s <= 256,
            coord_ok(x1 as int),
            coord_ok(x2 as int),
            abs(ey as int) < 0x100_0000,
        ensures
            final(self).wf(),
            final(self).cells@ == capped(
                old(self).cells@,
                hline_cells(ey as int, x1 as int, y1s as int, x2 as int, y2s as int),
            ),
            final(self).sorted_y == old(self).sorted_y,
    {
        let ex2 = pixel_of(x2);
        let mut c = pixel_of(x1);
        let mut xa = x1;
        let mut ya = y1s;
        proof {
            lemma_capped_assoc(self.cells@, Seq::<Cell>::empty(), Seq::<Cell>::empty());
        }
        while !((x2 > x1 && c >= ex2) || (x2 <= x1 && c <= ex2))
            invariant
                self.wf(),
                self.sorted_y == old(self).sorted_y,
                0 <= y1s <= 256,
                0 <= y2s <= 256,
                0 <= ya <= 256,
                c * 256 <= xa <= c * 256 + 256,
                x2 > x1 ==> c <= x2 / 256 && x1 <= xa <= x2,
                x2 <= x1 ==> c >= x2 / 256 && x2 <= xa <= x1,
                coord_ok(x1 as int),
                coord_ok(x2 as int),
                abs(ey as int) < 0x100_0000,
                ex2 == x2 / 256,
                capped(old(self).cells@, hline_cells(ey as int, x1 as int, y1s as int, x2 as int, y2s as int))
                    == capped(
                    self.cells@,
                    hline_walk(ey as int, x1 as int, y1s as int, x2 as int, y2s as int, c as int, xa as int, ya as int),
                ),
            decreases (if x2 > x1 { x2 / 256 - c } else { c - x2 / 256 }),
        {
            let xb: i64 = if x2 > x1 { (c + 1) * 256 } else { c * 256 };
            let t: i64 = if xb >= x1 { xb - x1 } else { x1 - xb };
            let d: i64 = if x2 >= x1 { x2 - x1 } else { x1 - x2 };
            let s = scaled_exec((y2s - y1s) as i128, t as i128, d as i128);
            proof {
                lemma_scaled_bounds(y2s - y1s, t as int, d as int);
            }
            let yb: i64 = y1s + s as i64;
            let next: i64 = if x2 > x1 { c + 1 } else { c - 1 };
            proof {
                let p = piece_cell(ey as int, c as int, xa as int, ya as int, xb as int, yb as int);
                let rest = hline_walk(ey as int, x1 as int, y1s as int, x2 as int, y2s as int, next as int, xb as int, yb as int);
                lemma_capped_assoc(self.cells@, p, rest);
            }
            self.add_piece(ey, c, xa, ya, xb, yb);
            c = next;
            xa = xb;
            ya = yb;
        }
        proof {
            let p = piece_cell(ey as int, c as int, xa as int, ya as int, x2 as int, y2s as int);
            lemma_capped_assoc(self.cells@, p, Seq::<Cell>::empty());
            assert(p + Seq::<Cell>::empty() =~= p);
        }
        self.add_piece(ey, c, xa, ya, x2, y2s);
    }

    /// Emits the cells of the edge `(x1, y1) -> (x2, y2)`, splitting it at
    /// every pixel row it crosses. Cells past `MAX_CELLS` are dropped.
    pub fn line(&mut self, x1: i64, y1: i64, x2: i64, y2: i64)
        requires
            old(self).wf(),
            coord_ok(x1 as int),
            coord_ok(y1 as int),
            coord_ok(x2 as int),
            coord_ok(y2 as int),
        ensures
            final(self).wf(),
            final(self).cells@ == capped(old(self).cells@, line_cells(x1 as int, y1 as int, x2 as int, y2 as int)),
            final(self).sorted_y == old(self).sorted_y,
    {
        let ey2 = pixel_of(y2);
        let mut r = pixel_of(y1);
        let mut xa = x1;
        let mut ya = y1;
        proof {
            lemma_capped_assoc(self.cells@, Seq::<Cell>::empty(), Seq::<Cell>::empty());
        }
        while !((y2 > y1 && r >= ey2) || (y2 <= y1 && r <= ey2))
            invariant
                self.wf(),
                self.sorted_y == old(self).sorted_y,
                r * 256 <= ya <= r * 256 + 256,
                y2 > y1 ==> r <= y2 / 256 && y1 <= ya,
                y2 <= y1 ==> r >= y2 / 256 && ya <= y1,
                x1 <= x2 ==> x1 <= xa <= x2,
                x2 < x1 ==> x2 <= xa <= x1,
                coord_ok(x1 as int),
                coord_ok(y1 as int),
                coord_ok(x2 as int),
                coord_ok(y2 as int),
                ey2 == y2 / 256,
                abs(r as int) < 0x80_0001,
                capped(old(self).cells@, line_cells(x1 as int, y1 as int, x2 as int, y2 as int)) == capped(
                    self.cells@,
                    line_walk(x1 as int, y1 as int, x2 as int, y2 as int, r as int, xa as int, ya as int),
                ),
            decreases (if y2 > y1 { y2 / 256 - r } else { r - y2 / 256 }),
        {
            let yb: i64 = if y2 > y1 { (r + 1) * 256 } else { r * 256 };
            let t: i64 = if yb >= y1 { yb - y1 } else { y1 - yb };
            let d: i64 = if y2 >= y1 { y2 - y1 } else { y1 - y2 };
            let s = scaled_exec((x2 - x1) as i128, t as i128, d as i128);
            proof {
                lemma_scaled_bounds(x2 - x1, t as int, d as int);
            }
            let xb: i64 = x1 + s as i64;
            let next: i64 = if y2 > y1 { r + 1 } else { r - 1 };
            proof {
                let h = hline_cells(r as int, xa as int, ya - r * 256, xb as int, yb - r * 256);
                let rest = line_walk(x1 as int, y1 as int, x2 as int, y2 as int, next as int, xb as int, yb as int);
                lemma_capped_assoc(self.cells@, h, rest);
            }
            self.render_hline(r, xa, ya - r * 256, xb, yb - r * 256);
            r = next;
            xa = xb;
            ya = yb;
        }
        proof {
            let h = hline_cells(r as int, xa as int, ya - r * 256, x2 as int, y2 - r * 256);
            lemma_capped_assoc(self.cells@, h, Seq::<Cell>::empty());
            assert(h + Seq::<Cell>::empty() =~= h);
        }
        self.render_hline(r, xa, ya - r * 256, x2, y2 - r * 256);
    }

    /// Once sorted: row `min_y + k` holds exactly the cells before
    /// `sorted_y[k + 1]` and from `sorted_y[k]` on.
    pub open spec fn row_index_ok(&self) -> bool {
        let n = self.cells@.len();
        let rows = self.max_y - self.min_y + 1;
        n > 0 ==> {
            &&& self.sorted_y@.len() == rows + 1
            &&& forall|k: int| 0 <= k <= rows ==> #[trigger] self.sorted_y@[k] <= n
            &&& forall|k: int, i: int|
                0 <= k <= rows && 0 <= i < n ==> (i < #[trigger] self.sorted_y@[k] <==> (#[trigger] self.cells@[i]).y
                    < self.min_y + k)
        }
    }

    /// Sorts the cells by `(y, x)`, keeping the emission order of equal
    /// positions, and builds the row index.
    pub fn sort_cells(&mut self)
        requires
            old(self).wf(),
        ensures
            final(self).wf(),
            sorted_by_yx(final(self).cells@),
            forall|k: Cell| #[trigger] final(self).cells@.filter(at_key(k)) == old(self).cells@.filter(at_key(k)),
            final(self).cells@.len() == old(self).cells@.len(),
            final(self).row_index_ok(),
            final(self).min_x == old(self).min_x,
            final(self).max_x == old(self).max_x,
            final(self).min_y == old(self).min_y,
            final(self).max_y == old(self).max_y,
    {
        let sorted = merge_sort(&self.cells, Ghost((self.min_x, self.max_x, self.min_y, self.max_y)));
        self.cells = sorted;
        self.build_row_index();
    }

    fn build_row_index(&mut self)
        requires
            old(self).wf(),
            sorted_by_yx(old(self).cells@),
        ensures
            final(self).wf(),
            final(self).cells == old(self).cells,
            final(self).row_index_ok(),
            final(self).min_x == old(self).min_x,
            final(self).max_x == old(self).max_x,
            final(self).min_y == old(self).min_y,
            final(self).max_y == old(self).max_y,
    {
        self.sorted_y.clear();
        let n = self.cells.len();
        if n == 0 {
            return;
        }
        proof {
            assert(self.min_y <= self.cells@[0].y <= self.max_y);
        }
        let rows: i64 = self.max_y - self.min_y + 1;
        let mut i: usize = 0;
        let mut k: i64 = 0;
        while k <= rows
            invariant
                self.wf(),
                self.cells == old(self).cells,
                sorted_by_yx(self.cells@),
                n == self.cells@.len(),
                n > 0,
                self.min_x == old(self).min_x,
                self.max_x == old(self).max_x,
                self.min_y == old(self).min_y,
                self.max_y == old(self).max_y,
                rows == self.max_y - self.min_y + 1,
                1 <= rows < 0x200_0000,
                0 <= k <= rows + 1,
                self.sorted_y@.len() == k,
                i <= n,
                forall|i2: int| 0 <= i2 < i ==> (#[trigger] self.cells@[i2]).y < self.min_y + k,
                forall|k2: int| 0 <= k2 < k ==> #[trigger] self.sorted_y@[k2] <= n,
                forall|k2: int, i2: int|
                    0 <= k2 < k && 0 <= i2 < n ==> (i2 < #[trigger] self.sorted_y@[k2] <==> (
                    #[trigger] self.cells@[i2]).y < self.min_y + k2),
            decreases rows + 1 - k,
        {
            let bound: i64 = self.min_y + k;
            while i < n && self.cells[i].y < bound
                invariant
                    self.wf(),
                    n == self.cells@.len(),
                    i <= n,
                    forall|i2: int| 0 <= i2 < i ==> (#[trigger] self.cells@[i2]).y < bound,
                decreases n - i,
            {
                i = i + 1;
            }
            proof {
                assert forall|i2: int| 0 <= i2 < n implies (i2 < i <==> (#[trigger] self.cells@[i2]).y < bound) by {
                    if i2 >= i {
                        assert(self.cells@[i as int].y >= bound);
                        if i2 > i {
                            assert(cell_le(self.cells@[i as int], self.cells@[i2]));
                        }
                    }
                }
            }
            self.sorted_y.push(i);
            k = k + 1;
        }
    }

    /// The cells of row `y`: they stand at `start .. end` of the sorted store.
    pub fn scanline_range(&self, y: i64) -> (r: (usize, usize))
        requires
            self.wf(),
            self.row_index_ok(),
            self.cells@.len() > 0,
            self.min_y <= y <= self.max_y,
        ensures
            r.0 == self.sorted_y@[y - self.min_y],
            r.1 == self.sorted_y@[y - self.min_y + 1],
            r.0 <= r.1 <= self.cells@.len(),
            forall|i: int| r.0 <= i < r.1 ==> (#[trigger] self.cells@[i]).y == y,
            forall|i: int| 0 <= i < self.cells@.len() && (#[trigger] self.cells@[i]).y == y ==> r.0 <= i < r.1,
    {
        let k: usize = (y - self.min_y) as usize;
        let start = self.sorted_y[k];
        let end = self.sorted_y[k + 1];
        proof {
            let n = self.cells@.len();
            let kk = k as int;
            if start > end {
                let i = end as int;
                assert(i < self.sorted_y@[kk] <==> self.cells@[i].y < self.min_y + kk);
                assert(i < self.sorted_y@[kk + 1] <==> self.cells@[i].y < self.min_y + kk + 1);
            }
            assert forall|i: int| start <= i < end implies (#[trigger] self.cells@[i]).y == y by {
                assert(i < self.sorted_y@[kk] <==> self.cells@[i].y < self.min_y + kk);
                assert(i < self.sorted_y@[kk + 1] <==> self.cells@[i].y < self.min_y + kk + 1);
            }
            assert forall|i: int| 0 <= i < n && (#[trigger] self.cells@[i]).y == y implies start <= i < end by {
                assert(i < self.sorted_y@[kk] <==> self.cells@[i].y < self.min_y + kk);
                assert(i < self.sorted_y@[kk + 1] <==> self.cells@[i].y < self.min_y + kk + 1);
            }
        }
        (start, end)
    }
}

} // verus!
