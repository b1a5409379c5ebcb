//! Drives the rasterizer's scanlines into a pixel format in a solid color.

use vstd::prelude::*;
use crate::cell::{at_key, Cell};
use crate::pixfmt::{hline_pixel, lemma_hline_pixel_zero, Pixfmt, Rgba8};
use crate::raster::{close_cells, row_alpha, RasterizerScanlineAA};
use crate::scan::{cover_at, lemma_cover_at_below, lemma_cover_at_gap, lemma_cover_at_in, lemma_cover_at_range, ScanlineU8};

verus! {

/// Blends the spans of `sl` in color `c` into row `sl.y` of `pix`: each
/// pixel of that row takes the blend at its coverage (zero coverage leaves
/// it as it was); pixels outside the buffer are skipped.
pub fn render_scanline_aa_solid(sl: &ScanlineU8, pix: &mut Pixfmt, c: Rgba8)
    requires
        old(pix).wf(),
        sl.wf(),
    ensures
        final(pix).wf(),
        final(pix).format == old(pix).format,
        final(pix).rbuf.width == old(pix).rbuf.width,
        final(pix).rbuf.height == old(pix).rbuf.height,
        forall|px: int, py: int|
            old(pix).rbuf.in_bounds(px, py) ==> #[trigger] final(pix).rbuf.pix(px, py) == if py == sl.y {
                hline_pixel(old(pix).format, old(pix).rbuf.pix(px, py), c, cover_at(sl.spans@, px) as u64)
            } else {
                old(pix).rbuf.pix(px, py)
            },
{
    let y = sl.y;
    let w = pix.rbuf.width;
    let h = pix.rbuf.height;
    let ghost f = pix.format;
    let ghost spans = sl.spans@;
    let ghost o = pix.rbuf;
    if y < 0 || y as u64 >= h as u64 {
        return;
    }
    let n = sl.spans.len();
    proof {
        assert forall|qx: int, qy: int| o.in_bounds(qx, qy) implies #[trigger] pix.rbuf.pix(qx, qy) == if qy == y
            && (0 >= n || qx < spans[0].x) {
            hline_pixel(f, o.pix(qx, qy), c, cover_at(spans, qx) as u64)
        } else {
            o.pix(qx, qy)
        } by {
            if qy == y && (0 >= n || qx < spans[0].x) {
                if n > 0 {
                    lemma_cover_at_gap(spans, 0, qx);
                }
                lemma_hline_pixel_zero(o, f, qx, qy, c);
            }
        }
    }
    let mut j: usize = 0;
    while j < n
        invariant
            pix.wf(),
            pix.format == f,
            pix.rbuf.width == w,
            pix.rbuf.height == h,
            o.width == w,
            o.height == h,
            o.wf(),
            o.bpp == pix.rbuf.bpp,
            0 <= y < h,
            sl.wf(),
            spans == sl.spans@,
            n == spans.len(),
            j <= n,
            forall|qx: int, qy: int|
                o.in_bounds(qx, qy) ==> #[trigger] pix.rbuf.pix(qx, qy) == if qy == y && (j >= n || qx
                    < spans[j as int].x) {
                    hline_pixel(f, o.pix(qx, qy), c, cover_at(spans, qx) as u64)
                } else {
                    o.pix(qx, qy)
                },
        decreases n - j,
    {
        let span = &sl.spans[j];
        let sx = span.x;
        let mut k: usize = 0;
        while k < span.covers.len()
            invariant
                pix.wf(),
                pix.format == f,
                pix.rbuf.width == w,
                pix.rbuf.height == h,
                o.width == w,
                o.height == h,
                o.wf(),
                o.bpp == pix.rbuf.bpp,
                0 <= y < h,
                sl.wf(),
                spans == sl.spans@,
                n == spans.len(),
                0 <= j < n,
                span == &spans[j as int],
                sx == span.x,
                k <= span.covers@.len(),
                forall|qx: int, qy: int|
                    o.in_bounds(qx, qy) ==> #[trigger] pix.rbuf.pix(qx, qy) == if qy == y && qx < sx + k {
                        hline_pixel(f, o.pix(qx, qy), c, cover_at(spans, qx) as u64)
                    } else {
                        o.pix(qx, qy)
                    },
            decreases span.covers@.len() - k,
        {
            let px: i64 = sx + k as i64;
            let ghost mid = pix.rbuf;
            if 0 <= px && (px as u64) < (w as u64) {
                pix.blend_hline(px, y, 1, c, span.covers[k]);
                proof {
                    lemma_cover_at_in(spans, j as int, px as int);
                }
            }
            proof {
                assert forall|qx: int, qy: int| o.in_bounds(qx, qy) implies #[trigger] pix.rbuf.pix(qx, qy)
                    == if qy == y && qx < sx + k + 1 {
                    hline_pixel(f, o.pix(qx, qy), c, cover_at(spans, qx) as u64)
                } else {
                    o.pix(qx, qy)
                } by {
                    if !(qy == y && qx == px) {
                        assert(pix.rbuf.pix(qx, qy) == mid.pix(qx, qy));
                    }
                }
            }
            k = k + 1;
        }
        proof {
            assert forall|qx: int, qy: int| o.in_bounds(qx, qy) implies #[trigger] pix.rbuf.pix(qx, qy)
                == if qy == y && (j + 1 >= n || qx < spans[j + 1].x) {
                hline_pixel(f, o.pix(qx, qy), c, cover_at(spans, qx) as u64)
            } else {
                o.pix(qx, qy)
            } by {
                if qy == y && qx >= sx + span.len {
                    lemma_cover_at_range(spans, qx);
                    if j + 1 < n {
                        if qx < spans[j + 1].x {
                            lemma_cover_at_gap(spans, j + 1, qx);
                            lemma_hline_pixel_zero(o, f, qx, qy, c);
                        }
                    } else {
                        lemma_cover_at_below(spans, qx);
                        lemma_hline_pixel_zero(o, f, qx, qy, c);
                    }
                }
            }
        }
        j = j + 1;
    }
}

/// Rasterizes what `ras` holds and blends it in color `c` into `pix`:
/// every pixel takes the blend at the coverage that sweeping its row of
/// the sorted cells gives it.
pub fn render_scanlines_aa_solid(ras: &mut RasterizerScanlineAA, sl: &mut ScanlineU8, pix: &mut Pixfmt, c: Rgba8)
    requires
        old(ras).wf(),
        old(pix).wf(),
    ensures
        final(ras).wf(),
        final(ras).ready(),
        forall|k: Cell| #[trigger] final(ras).outline.cells@.filter(at_key(k)) == close_cells(*old(ras)).filter(
            at_key(k),
        ),
        final(pix).wf(),
        final(pix).format == old(pix).format,
        final(pix).rbuf.width == old(pix).rbuf.width,
        final(pix).rbuf.height == old(pix).rbuf.height,
        forall|px: int, py: int|
            old(pix).rbuf.in_bounds(px, py) ==> #[trigger] final(pix).rbuf.pix(px, py) == hline_pixel(
                old(pix).format,
                old(pix).rbuf.pix(px, py),
                c,
                row_alpha(*final(ras), py, px) as u64,
            ),
{
    let ghost f = pix.format;
    let ghost o = pix.rbuf;
    let any = ras.rewind_scanlines();
    let ghost r0 = *ras;
    if any {
        proof {
            assert forall|qx: int, qy: int| o.in_bounds(qx, qy) implies #[trigger] pix.rbuf.pix(qx, qy) == if qy
                < ras.scan_y {
                hline_pixel(f, o.pix(qx, qy), c, row_alpha(r0, qy, qx) as u64)
            } else {
                o.pix(qx, qy)
            } by {
                if qy < ras.scan_y {
                    assert(row_alpha(r0, qy, qx) == 0);
                    lemma_hline_pixel_zero(o, f, qx, qy, c);
                }
            }
        }
        loop
            invariant_except_break
                forall|qx: int, qy: int|
                    o.in_bounds(qx, qy) ==> #[trigger] pix.rbuf.pix(qx, qy) == if qy < ras.scan_y {
                        hline_pixel(f, o.pix(qx, qy), c, row_alpha(r0, qy, qx) as u64)
                    } else {
                        o.pix(qx, qy)
                    },
            invariant
                ras.wf(),
                ras.ready(),
                ras.outline == r0.outline,
                ras.filling_rule == r0.filling_rule,
                ras.gamma == r0.gamma,
                ras.outline.cells@.len() > 0,
                pix.wf(),
                pix.format == f,
                o.wf(),
                o.bpp == pix.rbuf.bpp,
                pix.rbuf.width == o.width,
                pix.rbuf.height == o.height,
            ensures
                ras.wf(),
                ras.ready(),
                ras.outline == r0.outline,
                ras.filling_rule == r0.filling_rule,
                ras.gamma == r0.gamma,
                pix.wf(),
                pix.format == f,
                pix.rbuf.width == o.width,
                pix.rbuf.height == o.height,
                forall|qx: int, qy: int|
                    o.in_bounds(qx, qy) ==> #[trigger] pix.rbuf.pix(qx, qy) == hline_pixel(
                        f,
                        o.pix(qx, qy),
                        c,
                        row_alpha(r0, qy, qx) as u64,
                    ),
            decreases ras.outline.max_y - ras.scan_y + 1,
        {
            let ghost before = *ras;
            let ghost mid = pix.rbuf;
            if !ras.sweep_scanline(sl) {
                proof {
                    assert forall|qx: int, qy: int| o.in_bounds(qx, qy) implies #[trigger] pix.rbuf.pix(qx, qy)
                        == hline_pixel(f, o.pix(qx, qy), c, row_alpha(r0, qy, qx) as u64) by {
                        if qy >= before.scan_y {
                            assert(row_alpha(before, qy, qx) == 0);
                            lemma_hline_pixel_zero(o, f, qx, qy, c);
                        }
                    }
                }
                break;
            }
            render_scanline_aa_solid(sl, pix, c);
            proof {
                assert forall|qx: int, qy: int| o.in_bounds(qx, qy) implies #[trigger] pix.rbuf.pix(qx, qy)
                    == if qy < ras.scan_y {
                    hline_pixel(f, o.pix(qx, qy), c, row_alpha(r0, qy, qx) as u64)
                } else {
                    o.pix(qx, qy)
                } by {
                    if qy == sl.y {
                        assert(cover_at(sl.spans@, qx) == row_alpha(before, qy, qx));
                    } else if before.scan_y <= qy < sl.y {
                        assert(row_alpha(before, qy, qx) == 0);
                        lemma_hline_pixel_zero(o, f, qx, qy, c);
                    }
                }
            }
        }
    } else {
        proof {
            assert forall|qx: int, qy: int| o.in_bounds(qx, qy) implies #[trigger] pix.rbuf.pix(qx, qy)
                == hline_pixel(f, o.pix(qx, qy), c, row_alpha(r0, qy, qx) as u64) by {
                lemma_hline_pixel_zero(o, f, qx, qy, c);
            }
        }
    }
    proof {
        assert forall|qx: int, qy: int| o.in_bounds(qx, qy) implies row_alpha(*ras, qy, qx) == row_alpha(r0, qy, qx) by {
        }
    }
}

} // verus!
