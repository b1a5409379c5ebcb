//! Rendering buffer and pixel formats: byte layout per pixel, and blending
//! of a color with a coverage into it.

use vstd::prelude::*;
use crate::math::{lerp_u8, lerp_u8_spec, multiply_u8, mul_u8_spec, prelerp_u8, prelerp_u8_spec};

verus! {

/// A straight-alpha color with eight bits per channel.
#[derive(Debug, PartialEq, Eq, Copy, Clone, Structural)]
pub struct Rgba8 {
    pub r: u8,
    pub g: u8,
    pub b: u8,
    pub a: u8,
}

impl Rgba8 {
    pub fn new(r: u8, g: u8, b: u8, a: u8) -> (c: Rgba8)
        ensures
            c == (Rgba8 { r, g, b, a }),
    {
        Rgba8 { r, g, b, a }
    }

    /// Opaque white.
    pub fn white() -> (c: Rgba8)
        ensures
            c == (Rgba8 { r: 255, g: 255, b: 255, a: 255 }),
    {
        Rgba8 { r: 255, g: 255, b: 255, a: 255 }
    }

    /// Opaque black.
    pub fn black() -> (c: Rgba8)
        ensures
            c == (Rgba8 { r: 0, g: 0, b: 0, a: 255 }),
    {
        Rgba8 { r: 0, g: 0, b: 0, a: 255 }
    }

    pub fn is_opaque(&self) -> (r: bool)
        ensures
            r == (self.a == 255),
    {
        self.a == 255
    }

    pub fn is_transparent(&self) -> (r: bool)
        ensures
            r == (self.a == 0),
    {
        self.a == 0
    }
}

/// An opaque color with eight bits per channel.
#[derive(Debug, PartialEq, Eq, Copy, Clone, Structural)]
pub struct Rgb8 {
    pub r: u8,
    pub g: u8,
    pub b: u8,
}

impl Rgb8 {
    pub fn new(r: u8, g: u8, b: u8) -> (c: Rgb8)
        ensures
            c == (Rgb8 { r, g, b }),
    {
        Rgb8 { r, g, b }
    }

    /// The same color with full alpha.
    pub fn to_rgba(&self) -> (c: Rgba8)
        ensures
            c == (Rgba8 { r: self.r, g: self.g, b: self.b, a: 255 }),
    {
        Rgba8 { r: self.r, g: self.g, b: self.b, a: 255 }
    }
}

/// Byte layout of a pixel.
#[derive(Debug, PartialEq, Eq, Copy, Clone, Structural)]
pub enum PixelFormat {
    /// `[R, G, B]`, alpha taken as full.
    Rgb8,
    /// `[R, G, B, A]`, straight alpha.
    Rgba8,
    /// `[R, G, B]` holding samples premultiplied by alpha.
    Rgb8Pre,
}

/// Bytes per pixel of a layout.
pub open spec fn layout_bpp(f: PixelFormat) -> int {
    match f {
        PixelFormat::Rgba8 => 4,
        _ => 3,
    }
}

/// The bytes that storing color `c` writes in layout `f`.
pub open spec fn layout_bytes(f: PixelFormat, c: Rgba8) -> Seq<u8> {
    match f {
        PixelFormat::Rgb8 => seq![c.r, c.g, c.b],
        PixelFormat::Rgba8 => seq![c.r, c.g, c.b, c.a],
        PixelFormat::Rgb8Pre => seq![
            mul_u8_spec(c.r as int, c.a as int) as u8,
            mul_u8_spec(c.g as int, c.a as int) as u8,
            mul_u8_spec(c.b as int, c.a as int) as u8,
        ],
    }
}

/// The bytes of pixel `p` after blending color `c` over it with coverage
/// `cover`: the color's alpha scaled by the coverage drives a linear
/// interpolation per channel (premultiplied for `Rgb8Pre`).
///
/// For `Rgba8` the stored alpha moves toward the blend alpha by that same
/// alpha, `lerp(p.a, alpha, alpha)`. This keeps the long-standing behaviour
/// of this layout; the usual straight-over-straight composite would be
/// `prelerp(p.a, 255, alpha)`.
pub open spec fn blend_bytes(f: PixelFormat, p: Seq<u8>, c: Rgba8, cover: int) -> Seq<u8> {
    let alpha = mul_u8_spec(c.a as int, cover);
    match f {
        PixelFormat::Rgb8 => seq![
            lerp_u8_spec(p[0] as int, c.r as int, alpha) as u8,
            lerp_u8_spec(p[1] as int, c.g as int, alpha) as u8,
            lerp_u8_spec(p[2] as int, c.b as int, alpha) as u8,
        ],
        PixelFormat::Rgba8 => seq![
            lerp_u8_spec(p[0] as int, c.r as int, alpha) as u8,
            lerp_u8_spec(p[1] as int, c.g as int, alpha) as u8,
            lerp_u8_spec(p[2] as int, c.b as int, alpha) as u8,
            lerp_u8_spec(p[3] as int, alpha, alpha) as u8,
        ],
        PixelFormat::Rgb8Pre => {
            let q = layout_bytes(f, c);
            seq![
                prelerp_u8_spec(p[0] as int, mul_u8_spec(q[0] as int, cover), alpha) as u8,
                prelerp_u8_spec(p[1] as int, mul_u8_spec(q[1] as int, cover), alpha) as u8,
                prelerp_u8_spec(p[2] as int, mul_u8_spec(q[2] as int, cover), alpha) as u8,
            ]
        },
    }
}

/// Coverage as a channel value: anything above full counts as full.
pub open spec fn cover_u8(cover: u64) -> int {
    if cover > 255 {
        255
    } else {
        cover as int
    }
}

/// A pixel after a horizontal-line blend: untouched by a transparent color,
/// overwritten by an opaque color at full coverage, blended otherwise.
pub open spec fn hline_pixel(f: PixelFormat, p: Seq<u8>, c: Rgba8, cover: u64) -> Seq<u8> {
    if c.a == 0 {
        p
    } else if c.a == 255 && cover == 255 {
        layout_bytes(f, c)
    } else {
        blend_bytes(f, p, c, cover_u8(cover))
    }
}

/// Width x height pixels of `bpp` bytes each, row-major and contiguous.
#[derive(Debug)]
pub struct RenderingBuffer {
    pub data: Vec<u8>,
    pub width: usize,
    pub height: usize,
    pub bpp: usize,
}

impl RenderingBuffer {
    pub open spec fn wf(&self) -> bool {
        &&& 1 <= self.bpp <= 4
        &&& self.data@.len() == self.width * self.height * self.bpp
    }

    pub open spec fn in_bounds(&self, x: int, y: int) -> bool {
        0 <= x < self.width && 0 <= y < self.height
    }

    /// First byte of pixel `(x, y)`.
    pub open spec fn offset(&self, x: int, y: int) -> int {
        (y * self.width + x) * self.bpp
    }

    /// The bytes of pixel `(x, y)`.
    pub open spec fn pix(&self, x: int, y: int) -> Seq<u8> {
        self.data@.subrange(self.offset(x, y), self.offset(x, y) + self.bpp)
    }

    /// A buffer of zero bytes.
    pub fn new(width: usize, height: usize, bpp: usize) -> (r: Self)
        requires
            1 <= bpp <= 4,
            width * height * bpp <= usize::MAX,
        ensures
            r.wf(),
            r.width == width,
            r.height == height,
            r.bpp == bpp,
            forall|i: int| 0 <= i < r.data@.len() ==> r.data@[i] == 0,
    {
        assert(width * height <= width * height * bpp) by (nonlinear_arith)
            requires
                1 <= bpp,
        ;
        let n: usize = width * height * bpp;
        let mut data: Vec<u8> = Vec::new();
        let mut i: usize = 0;
        while i < n
            invariant
                i <= n,
                data@.len() == i,
                forall|j: int| 0 <= j < i ==> data@[j] == 0,
            decreases n - i,
        {
            data.push(0);
            i = i + 1;
        }
        RenderingBuffer { data, width, height, bpp }
    }

    /// Sets every byte to 255 (white).
    pub fn clear(&mut self)
        requires
            old(self).wf(),
        ensures
            final(self).wf(),
            final(self).width == old(self).width,
            final(self).height == old(self).height,
            final(self).bpp == old(self).bpp,
            final(self).data@.len() == old(self).data@.len(),
            forall|i: int| 0 <= i < final(self).data@.len() ==> final(self).data@[i] == 255,
    {
        let n = self.data.len();
        let mut i: usize = 0;
        while i < n
            invariant
                i <= n,
                n == self.data@.len(),
                self.width == old(self).width,
                self.height == old(self).height,
                self.bpp == old(self).bpp,
                self.wf(),
                forall|j: int| 0 <= j < i ==> self.data@[j] == 255,
            decreases n - i,
        {
            self.data[i] = 255;
            i = i + 1;
        }
    }
}

proof fn lemma_offsets(w: int, h: int, b: int, x: int, y: int, qx: int, qy: int)
    requires
        0 <= x < w,
        0 <= y < h,
        0 <= qx < w,
        0 <= qy < h,
        1 <= b,
    ensures
        0 <= y * w <= y * w + x <= (y * w + x) * b,
        0 <= (y * w + x) * b,
        (y * w + x) * b + b <= w * h * b,
        (x != qx || y != qy) ==> (y * w + x) * b + b <= (qy * w + qx) * b || (qy * w + qx) * b + b <= (y * w
            + x) * b,
{
    assert(0 <= y * w + x) by (nonlinear_arith)
        requires
            0 <= x,
            0 <= y,
            0 <= w,
    ;
    assert(y * w + x + 1 <= w * h) by (nonlinear_arith)
        requires
            0 <= x < w,
            0 <= y < h,
    ;
    assert(0 <= (y * w + x) * b) by (nonlinear_arith)
        requires
            0 <= y * w + x,
            1 <= b,
    ;
    assert(y * w + x <= (y * w + x) * b) by (nonlinear_arith)
        requires
            0 <= y * w + x,
            1 <= b,
    ;
    assert(0 <= y * w) by (nonlinear_arith)
        requires
            0 <= y,
            0 <= w,
    ;
    assert((y * w + x) * b + b <= w * h * b) by (nonlinear_arith)
        requires
            y * w + x + 1 <= w * h,
            1 <= b,
    ;
    if x != qx || y != qy {
        assert(y * w + x != qy * w + qx) by (nonlinear_arith)
            requires
                0 <= x < w,
                0 <= qx < w,
                0 <= y,
                0 <= qy,
                x != qx || y != qy,
        ;
        let n = y * w + x;
        let m = qy * w + qx;
        if n < m {
            assert(n * b + b <= m * b) by (nonlinear_arith)
                requires
                    n + 1 <= m,
                    1 <= b,
            ;
        } else {
            assert(m * b + b <= n * b) by (nonlinear_arith)
                requires
                    m + 1 <= n,
                    1 <= b,
            ;
        }
    }
}

impl RenderingBuffer {
    /// Stores the first `bpp` of `bytes` at pixel `(x, y)`.
    pub fn store(&mut self, x: usize, y: usize, bytes: [u8; 4])
        requires
            old(self).wf(),
            old(self).in_bounds(x as int, y as int),
        ensures
            final(self).wf(),
            final(self).width == old(self).width,
            final(self).height == old(self).height,
            final(self).bpp == old(self).bpp,
            final(self).pix(x as int, y as int) == bytes@.take(old(self).bpp as int),
            forall|qx: int, qy: int|
                old(self).in_bounds(qx, qy) && (qx != x || qy != y) ==> #[trigger] final(self).pix(qx, qy)
                    == old(self).pix(qx, qy),
    {
        proof {
            lemma_offsets(self.width as int, self.height as int, self.bpp as int, x as int, y as int, 0, 0);
        }
        let n = self.data.len();
        assert(n == self.data@.len());
        let off: usize = (y * self.width + x) * self.bpp;
        let b = self.bpp;
        let ghost before = self.data@;
        let mut k: usize = 0;
        while k < b
            invariant
                self.wf(),
                self.width == old(self).width,
                self.height == old(self).height,
                self.bpp == b,
                off + b <= self.data@.len(),
                self.data@.len() == n,
                off == (y * self.width + x) * self.bpp,
                b <= 4,
                k <= b,
                self.data@.len() == before.len(),
                forall|i: int| 0 <= i < self.data@.len() && !(off <= i < off + k) ==> self.data@[i] == before[i],
                forall|i: int| off <= i < off + k ==> self.data@[i] == bytes@[i - off],
            decreases b - k,
        {
            self.data[off + k] = bytes[k];
            k = k + 1;
        }
        proof {
            assert(self.pix(x as int, y as int) =~= bytes@.take(b as int));
            assert forall|qx: int, qy: int|
                old(self).in_bounds(qx, qy) && (qx != x || qy != y) implies #[trigger] self.pix(qx, qy)
                == old(self).pix(qx, qy) by {
                lemma_offsets(self.width as int, self.height as int, b as int, x as int, y as int, qx, qy);
                lemma_offsets(self.width as int, self.height as int, b as int, qx, qy, x as int, y as int);
                assert(before == old(self).data@);
                let qo = old(self).offset(qx, qy);
                assert(qo == self.offset(qx, qy));
                assert forall|j: int| 0 <= j < b implies #[trigger] self.data@[qo + j] == before[qo + j] by {
                    assert(!(off <= qo + j < off + b));
                }
                assert(self.pix(qx, qy) =~= old(self).pix(qx, qy));
            }
        }
    }

    /// The first four bytes of pixel `(x, y)`, padded with 255.
    pub fn load(&self, x: usize, y: usize) -> (r: [u8; 4])
        requires
            self.wf(),
            self.in_bounds(x as int, y as int),
        ensures
            r@.take(self.bpp as int) == self.pix(x as int, y as int),
            forall|k: int| self.bpp <= k < 4 ==> r@[k] == 255,
    {
        proof {
            lemma_offsets(self.width as int, self.height as int, self.bpp as int, x as int, y as int, 0, 0);
        }
        let n = self.data.len();
        assert(n == self.data@.len());
        let off: usize = (y * self.width + x) * self.bpp;
        let mut r: [u8; 4] = [255, 255, 255, 255];
        let mut k: usize = 0;
        while k < self.bpp
            invariant
                self.wf(),
                off + self.bpp <= self.data@.len(),
                self.data@.len() == n,
                off == (y * self.width + x) * self.bpp,
                k <= self.bpp,
                r@.len() == 4,
                forall|i: int| 0 <= i < k ==> r@[i] == self.data@[off + i],
                forall|i: int| k <= i < 4 ==> r@[i] == 255,
            decreases self.bpp - k,
        {
            r[k] = self.data[off + k];
            k = k + 1;
        }
        proof {
            assert(r@.take(self.bpp as int) =~= self.pix(x as int, y as int));
        }
        r
    }
}

/// The layout bytes of `c`, padded to four.
fn layout_array(f: PixelFormat, c: Rgba8) -> (r: [u8; 4])
    ensures
        r@.take(layout_bpp(f)) == layout_bytes(f, c),
{
    let r = match f {
        PixelFormat::Rgb8 => [c.r, c.g, c.b, 255],
        PixelFormat::Rgba8 => [c.r, c.g, c.b, c.a],
        PixelFormat::Rgb8Pre => [multiply_u8(c.r, c.a), multiply_u8(c.g, c.a), multiply_u8(c.b, c.a), 255],
    };
    proof {
        assert(r@.take(layout_bpp(f)) =~= layout_bytes(f, c));
    }
    r
}

impl RenderingBuffer {
    /// Pixels other than those of row `y` from `x` up to `end` are as in `o`.
    pub open spec fn same_outside_run(&self, o: &RenderingBuffer, x: int, end: int, y: int) -> bool {
        forall|qx: int, qy: int|
            o.in_bounds(qx, qy) && !(qy == y && x <= qx < end) ==> #[trigger] self.pix(qx, qy) == o.pix(qx, qy)
    }

    /// Stores color `c` at `(x, y)` in layout `f`.
    pub fn set_color(&mut self, f: PixelFormat, x: usize, y: usize, c: Rgba8)
        requires
            old(self).wf(),
            old(self).bpp == layout_bpp(f),
            old(self).in_bounds(x as int, y as int),
        ensures
            final(self).wf(),
            final(self).width == old(self).width,
            final(self).height == old(self).height,
            final(self).bpp == old(self).bpp,
            final(self).pix(x as int, y as int) == layout_bytes(f, c),
            final(self).same_outside_run(old(self), x as int, x + 1, y as int),
    {
        let bytes = layout_array(f, c);
        self.store(x, y, bytes);
    }

    /// Reads pixel `(x, y)` in layout `f` as a color; three-byte layouts
    /// read with full alpha.
    pub fn get_color(&self, f: PixelFormat, x: usize, y: usize) -> (c: Rgba8)
        requires
            self.wf(),
            self.bpp == layout_bpp(f),
            self.in_bounds(x as int, y as int),
        ensures
            c.r == self.pix(x as int, y as int)[0],
            c.g == self.pix(x as int, y as int)[1],
            c.b == self.pix(x as int, y as int)[2],
            c.a == if f == PixelFormat::Rgba8 {
                self.pix(x as int, y as int)[3]
            } else {
                255u8
            },
    {
        let p = self.load(x, y);
        proof {
            assert(p@.take(self.bpp as int)[0] == p@[0]);
            assert(p@.take(self.bpp as int)[1] == p@[1]);
            assert(p@.take(self.bpp as int)[2] == p@[2]);
            if f == PixelFormat::Rgba8 {
                assert(p@.take(self.bpp as int)[3] == p@[3]);
            }
        }
        Rgba8 { r: p[0], g: p[1], b: p[2], a: p[3] }
    }

    /// Blends color `c` into pixel `(x, y)` of layout `f` with coverage `cover`.
    pub fn blend_color(&mut self, f: PixelFormat, x: usize, y: usize, c: Rgba8, cover: u64)
        requires
            old(self).wf(),
            old(self).bpp == layout_bpp(f),
            old(self).in_bounds(x as int, y as int),
        ensures
            final(self).wf(),
            final(self).width == old(self).width,
            final(self).height == old(self).height,
            final(self).bpp == old(self).bpp,
            final(self).pix(x as int, y as int) == blend_bytes(
                f,
                old(self).pix(x as int, y as int),
                c,
                cover_u8(cover),
            ),
            final(self).same_outside_run(old(self), x as int, x + 1, y as int),
    {
        let p = self.load(x, y);
        let cv: u8 = if cover > 255 {
            255
        } else {
            cover as u8
        };
        let alpha = multiply_u8(c.a, cv);
        let out: [u8; 4] = match f {
            PixelFormat::Rgb8 => [lerp_u8(p[0], c.r, alpha), lerp_u8(p[1], c.g, alpha), lerp_u8(p[2], c.b, alpha), 255],
            PixelFormat::Rgba8 => [
                lerp_u8(p[0], c.r, alpha),
                lerp_u8(p[1], c.g, alpha),
                lerp_u8(p[2], c.b, alpha),
                lerp_u8(p[3], alpha, alpha),
            ],
            PixelFormat::Rgb8Pre => {
                let q = layout_array(f, c);
                proof {
                    assert(q@.take(3)[0] == q@[0]);
                    assert(q@.take(3)[1] == q@[1]);
                    assert(q@.take(3)[2] == q@[2]);
                }
                [
                    prelerp_u8(p[0], multiply_u8(q[0], cv), alpha),
                    prelerp_u8(p[1], multiply_u8(q[1], cv), alpha),
                    prelerp_u8(p[2], multiply_u8(q[2], cv), alpha),
                    255,
                ]
            },
        };
        proof {
            let old_p = old(self).pix(x as int, y as int);
            assert(p@.take(self.bpp as int)[0] == p@[0]);
            assert(p@.take(self.bpp as int)[1] == p@[1]);
            assert(p@.take(self.bpp as int)[2] == p@[2]);
            if f == PixelFormat::Rgba8 {
                assert(p@.take(self.bpp as int)[3] == p@[3]);
            }
            assert(out@.take(self.bpp as int) =~= blend_bytes(f, old_p, c, cover_u8(cover)));
        }
        self.store(x, y, out);
    }

    /// Blends color `c` with coverage `cover` into `len` pixels of row `y`
    /// from `x`: nothing for a transparent color, a plain store for an
    /// opaque color at full coverage, a blend otherwise.
    pub fn blend_hline(&mut self, f: PixelFormat, x: usize, y: usize, len: usize, c: Rgba8, cover: u64)
        requires
            old(self).wf(),
            old(self).bpp == layout_bpp(f),
            x + len <= old(self).width,
            y < old(self).height,
        ensures
            final(self).wf(),
            final(self).width == old(self).width,
            final(self).height == old(self).height,
            final(self).bpp == old(self).bpp,
            forall|px: int|
                x <= px < x + len ==> #[trigger] final(self).pix(px, y as int) == hline_pixel(
                    f,
                    old(self).pix(px, y as int),
                    c,
                    cover,
                ),
            final(self).same_outside_run(old(self), x as int, x + len, y as int),
    {
        if c.is_transparent() {
            return;
        }
        let mut i: usize = 0;
        while i < len
            invariant
                self.wf(),
                self.width == old(self).width,
                self.height == old(self).height,
                self.bpp == old(self).bpp,
                self.bpp == layout_bpp(f),
                x + len <= self.width,
                y < self.height,
                i <= len,
                c.a != 0,
                forall|px: int|
                    x <= px < x + i ==> #[trigger] self.pix(px, y as int) == hline_pixel(
                        f,
                        old(self).pix(px, y as int),
                        c,
                        cover,
                    ),
                self.same_outside_run(old(self), x as int, x + i, y as int),
            decreases len - i,
        {
            let ghost mid = *self;
            if c.is_opaque() && cover == 255 {
                self.set_color(f, x + i, y, c);
            } else {
                self.blend_color(f, x + i, y, c, cover);
            }
            proof {
                assert forall|px: int|
                    x <= px < x + i + 1 implies #[trigger] self.pix(px, y as int) == hline_pixel(
                        f,
                        old(self).pix(px, y as int),
                        c,
                        cover,
                    ) by {
                    if px < x + i {
                        assert(self.pix(px, y as int) == mid.pix(px, y as int));
                    } else {
                        assert(mid.pix(px, y as int) == old(self).pix(px, y as int));
                    }
                }
                assert forall|qx: int, qy: int|
                    old(self).in_bounds(qx, qy) && !(qy == y && x <= qx < x + i + 1) implies #[trigger] self.pix(
                    qx,
                    qy,
                ) == old(self).pix(qx, qy) by {
                    assert(self.pix(qx, qy) == mid.pix(qx, qy));
                }
            }
            i = i + 1;
        }
    }

    /// Blends color `c` into row `y` from `x`, with one coverage per pixel.
    pub fn blend_solid_hspan(&mut self, f: PixelFormat, x: usize, y: usize, c: Rgba8, covers: &Vec<u64>)
        requires
            old(self).wf(),
            old(self).bpp == layout_bpp(f),
            x + covers@.len() <= old(self).width,
            y < old(self).height,
        ensures
            final(self).wf(),
            final(self).width == old(self).width,
            final(self).height == old(self).height,
            final(self).bpp == old(self).bpp,
            forall|px: int|
                x <= px < x + covers@.len() ==> #[trigger] final(self).pix(px, y as int) == hline_pixel(
                    f,
                    old(self).pix(px, y as int),
                    c,
                    covers@[px - x],
                ),
            final(self).same_outside_run(old(self), x as int, x + covers@.len(), y as int),
    {
        let n = covers.len();
        let mut i: usize = 0;
        while i < n
            invariant
                self.wf(),
                self.width == old(self).width,
                self.height == old(self).height,
                self.bpp == old(self).bpp,
                self.bpp == layout_bpp(f),
                n == covers@.len(),
                x + n <= self.width,
                y < self.height,
                i <= n,
                forall|px: int|
                    x <= px < x + i ==> #[trigger] self.pix(px, y as int) == hline_pixel(
                        f,
                        old(self).pix(px, y as int),
                        c,
                        covers@[px - x],
                    ),
                self.same_outside_run(old(self), x as int, x + i, y as int),
            decreases n - i,
        {
            let ghost mid = *self;
            self.blend_hline(f, x + i, y, 1, c, covers[i]);
            proof {
                assert forall|px: int|
                    x <= px < x + i + 1 implies #[trigger] self.pix(px, y as int) == hline_pixel(
                        f,
                        old(self).pix(px, y as int),
                        c,
                        covers@[px - x],
                    ) by {
                    if px < x + i {
                        assert(self.pix(px, y as int) == mid.pix(px, y as int));
                    } else {
                        assert(mid.pix(px, y as int) == old(self).pix(px, y as int));
                    }
                }
                assert forall|qx: int, qy: int|
                    old(self).in_bounds(qx, qy) && !(qy == y && x <= qx < x + i + 1) implies #[trigger] self.pix(
                    qx,
                    qy,
                ) == old(self).pix(qx, qy) by {
                    assert(self.pix(qx, qy) == mid.pix(qx, qy));
                }
            }
            i = i + 1;
        }
    }
}

impl RenderingBuffer {
    /// Stores color `c` in `n` pixels of row `y` from `x`.
    pub fn copy_hline(&mut self, f: PixelFormat, x: usize, y: usize, n: usize, c: Rgba8)
        requires
            old(self).wf(),
            old(self).bpp == layout_bpp(f),
            x + n <= old(self).width,
            y < old(self).height,
        ensures
            final(self).wf(),
            final(self).width == old(self).width,
            final(self).height == old(self).height,
            final(self).bpp == old(self).bpp,
            forall|px: int| x <= px < x + n ==> #[trigger] final(self).pix(px, y as int) == layout_bytes(f, c),
            final(self).same_outside_run(old(self), x as int, x + n, y as int),
    {
        let mut i: usize = 0;
        while i < n
            invariant
                self.wf(),
                self.width == old(self).width,
                self.height == old(self).height,
                self.bpp == old(self).bpp,
                self.bpp == layout_bpp(f),
                x + n <= self.width,
                y < self.height,
                i <= n,
                forall|px: int| x <= px < x + i ==> #[trigger] self.pix(px, y as int) == layout_bytes(f, c),
                self.same_outside_run(old(self), x as int, x + i, y as int),
            decreases n - i,
        {
            let ghost mid = *self;
            self.set_color(f, x + i, y, c);
            proof {
                assert forall|px: int| x <= px < x + i + 1 implies #[trigger] self.pix(px, y as int) == layout_bytes(
                    f,
                    c,
                ) by {
                    if px < x + i {
                        assert(self.pix(px, y as int) == mid.pix(px, y as int));
                    }
                }
                assert forall|qx: int, qy: int|
                    old(self).in_bounds(qx, qy) && !(qy == y && x <= qx < x + i + 1) implies #[trigger] self.pix(
                    qx,
                    qy,
                ) == old(self).pix(qx, qy) by {
                    assert(self.pix(qx, qy) == mid.pix(qx, qy));
                }
            }
            i = i + 1;
        }
    }

    /// Stores color `c` in `n` pixels of column `x` from `y`.
    pub fn copy_vline(&mut self, f: PixelFormat, x: usize, y: usize, n: usize, c: Rgba8)
        requires
            old(self).wf(),
            old(self).bpp == layout_bpp(f),
            x < old(self).width,
            y + n <= old(self).height,
        ensures
            final(self).wf(),
            final(self).width == old(self).width,
            final(self).height == old(self).height,
            final(self).bpp == old(self).bpp,
            forall|py: int| y <= py < y + n ==> #[trigger] final(self).pix(x as int, py) == layout_bytes(f, c),
            forall|qx: int, qy: int|
                old(self).in_bounds(qx, qy) && !(qx == x && y <= qy < y + n) ==> #[trigger] final(self).pix(qx, qy)
                    == old(self).pix(qx, qy),
    {
        let mut i: usize = 0;
        while i < n
            invariant
                self.wf(),
                self.width == old(self).width,
                self.height == old(self).height,
                self.bpp == old(self).bpp,
                self.bpp == layout_bpp(f),
                x < self.width,
                y + n <= self.height,
                i <= n,
                forall|py: int| y <= py < y + i ==> #[trigger] self.pix(x as int, py) == layout_bytes(f, c),
                forall|qx: int, qy: int|
                    old(self).in_bounds(qx, qy) && !(qx == x && y <= qy < y + i) ==> #[trigger] self.pix(qx, qy)
                        == old(self).pix(qx, qy),
            decreases n - i,
        {
            let ghost mid = *self;
            self.set_color(f, x, y + i, c);
            proof {
                assert forall|py: int| y <= py < y + i + 1 implies #[trigger] self.pix(x as int, py) == layout_bytes(
                    f,
                    c,
                ) by {
                    if py < y + i {
                        assert(self.pix(x as int, py) == mid.pix(x as int, py));
                    }
                }
                assert forall|qx: int, qy: int|
                    old(self).in_bounds(qx, qy) && !(qx == x && y <= qy < y + i + 1) implies #[trigger] self.pix(
                    qx,
                    qy,
                ) == old(self).pix(qx, qy) by {
                    assert(self.pix(qx, qy) == mid.pix(qx, qy));
                }
            }
            i = i + 1;
        }
    }

    /// Stores `colors[i]` at pixel `x + i` of row `y`.
    pub fn copy_color_hspan(&mut self, f: PixelFormat, x: usize, y: usize, colors: &Vec<Rgba8>)
        requires
            old(self).wf(),
            old(self).bpp == layout_bpp(f),
            x + colors@.len() <= old(self).width,
            y < old(self).height,
        ensures
            final(self).wf(),
            final(self).width == old(self).width,
            final(self).height == old(self).height,
            final(self).bpp == old(self).bpp,
            forall|px: int|
                x <= px < x + colors@.len() ==> #[trigger] final(self).pix(px, y as int) == layout_bytes(
                    f,
                    colors@[px - x],
                ),
            final(self).same_outside_run(old(self), x as int, x + colors@.len(), y as int),
    {
        let n = colors.len();
        let mut i: usize = 0;
        while i < n
            invariant
                self.wf(),
                self.width == old(self).width,
                self.height == old(self).height,
                self.bpp == old(self).bpp,
                self.bpp == layout_bpp(f),
                n == colors@.len(),
                x + n <= self.width,
                y < self.height,
                i <= n,
                forall|px: int|
                    x <= px < x + i ==> #[trigger] self.pix(px, y as int) == layout_bytes(f, colors@[px - x]),
                self.same_outside_run(old(self), x as int, x + i, y as int),
            decreases n - i,
        {
            let ghost mid = *self;
            self.set_color(f, x + i, y, colors[i]);
            proof {
                assert forall|px: int| x <= px < x + i + 1 implies #[trigger] self.pix(px, y as int) == layout_bytes(
                    f,
                    colors@[px - x],
                ) by {
                    if px < x + i {
                        assert(self.pix(px, y as int) == mid.pix(px, y as int));
                    }
                }
                assert forall|qx: int, qy: int|
                    old(self).in_bounds(qx, qy) && !(qy == y && x <= qx < x + i + 1) implies #[trigger] self.pix(
                    qx,
                    qy,
                ) == old(self).pix(qx, qy) by {
                    assert(self.pix(qx, qy) == mid.pix(qx, qy));
                }
            }
            i = i + 1;
        }
    }

    /// Stores color `c` in every pixel.
    pub fn fill(&mut self, f: PixelFormat, c: Rgba8)
        requires
            old(self).wf(),
            old(self).bpp == layout_bpp(f),
        ensures
            final(self).wf(),
            final(self).width == old(self).width,
            final(self).height == old(self).height,
            final(self).bpp == old(self).bpp,
            forall|px: int, py: int| final(self).in_bounds(px, py) ==> #[trigger] final(self).pix(px, py) == layout_bytes(f, c),
    {
        let w = self.width;
        let h = self.height;
        let mut j: usize = 0;
        while j < h
            invariant
                self.wf(),
                self.width == w,
                self.height == h,
                self.bpp == old(self).bpp,
                self.bpp == layout_bpp(f),
                j <= h,
                forall|px: int, py: int|
                    0 <= px < w && 0 <= py < j ==> #[trigger] self.pix(px, py) == layout_bytes(f, c),
            decreases h - j,
        {
            let ghost mid = *self;
            self.copy_hline(f, 0, j, w, c);
            proof {
                assert forall|px: int, py: int| 0 <= px < w && 0 <= py < j + 1 implies #[trigger] self.pix(px, py)
                    == layout_bytes(f, c) by {
                    if py < j {
                        assert(self.pix(px, py) == mid.pix(px, py));
                    }
                }
            }
            j = j + 1;
        }
    }
}

/// A pixel format over a rendering buffer: one of the supported layouts.
#[derive(Debug)]
pub struct Pixfmt {
    pub rbuf: RenderingBuffer,
    pub format: PixelFormat,
}

impl Pixfmt {
    pub open spec fn wf(&self) -> bool {
        &&& self.rbuf.wf()
        &&& self.rbuf.bpp == layout_bpp(self.format)
    }

    /// A pixel format of `width` x `height` pixels, with a zeroed buffer.
    pub fn new(width: usize, height: usize, format: PixelFormat) -> (r: Self)
        requires
            width * height * layout_bpp(format) <= usize::MAX,
        ensures
            r.wf(),
            r.format == format,
            r.rbuf.width == width,
            r.rbuf.height == height,
            forall|i: int| 0 <= i < r.rbuf.data@.len() ==> r.rbuf.data@[i] == 0,
    {
        let bpp: usize = match format {
            PixelFormat::Rgba8 => 4,
            _ => 3,
        };
        Pixfmt { rbuf: RenderingBuffer::new(width, height, bpp), format }
    }

    /// A pixel format over an existing buffer of matching pixel size.
    pub fn from(rbuf: RenderingBuffer, format: PixelFormat) -> (r: Self)
        requires
            rbuf.wf(),
            rbuf.bpp == layout_bpp(format),
        ensures
            r.wf(),
            r.rbuf == rbuf,
            r.format == format,
    {
        Pixfmt { rbuf, format }
    }

    /// Bytes per pixel.
    pub fn bpp(&self) -> (r: usize)
        requires
            self.wf(),
        ensures
            r == layout_bpp(self.format),
    {
        self.rbuf.bpp
    }

    /// Full coverage.
    pub fn cover_mask() -> (r: u64)
        ensures
            r == 255,
    {
        255
    }

    /// Sets every byte of the buffer to 255.
    pub fn clear(&mut self)
        requires
            old(self).wf(),
        ensures
            final(self).wf(),
            final(self).format == old(self).format,
            final(self).rbuf.width == old(self).rbuf.width,
            final(self).rbuf.height == old(self).rbuf.height,
            forall|i: int| 0 <= i < final(self).rbuf.data@.len() ==> final(self).rbuf.data@[i] == 255,
    {
        self.rbuf.clear();
    }

    /// Stores color `c` in every pixel.
    pub fn fill(&mut self, c: Rgba8)
        requires
            old(self).wf(),
        ensures
            final(self).wf(),
            final(self).format == old(self).format,
            final(self).rbuf.width == old(self).rbuf.width,
            final(self).rbuf.height == old(self).rbuf.height,
            forall|px: int, py: int|
                final(self).rbuf.in_bounds(px, py) ==> #[trigger] final(self).rbuf.pix(px, py) == layout_bytes(
                    final(self).format,
                    c,
                ),
    {
        self.rbuf.fill(self.format, c);
    }

    /// Stores color `c` at `(x, y)`.
    pub fn set(&mut self, x: usize, y: usize, c: Rgba8)
        requires
            old(self).wf(),
            old(self).rbuf.in_bounds(x as int, y as int),
        ensures
            final(self).wf(),
            final(self).format == old(self).format,
            final(self).rbuf.width == old(self).rbuf.width,
            final(self).rbuf.height == old(self).rbuf.height,
            final(self).rbuf.pix(x as int, y as int) == layout_bytes(old(self).format, c),
            final(self).rbuf.same_outside_run(&old(self).rbuf, x as int, x + 1, y as int),
    {
        self.rbuf.set_color(self.format, x, y, c);
    }

    /// Reads the color at `(x, y)`.
    pub fn get(&self, x: usize, y: usize) -> (c: Rgba8)
        requires
            self.wf(),
            self.rbuf.in_bounds(x as int, y as int),
        ensures
            c.r == self.rbuf.pix(x as int, y as int)[0],
            c.g == self.rbuf.pix(x as int, y as int)[1],
            c.b == self.rbuf.pix(x as int, y as int)[2],
            c.a == if self.format == PixelFormat::Rgba8 {
                self.rbuf.pix(x as int, y as int)[3]
            } else {
                255u8
            },
    {
        self.rbuf.get_color(self.format, x, y)
    }

    /// Blends color `c` into `(x, y)` with coverage `cover`.
    pub fn blend_pix(&mut self, x: usize, y: usize, c: Rgba8, cover: u64)
        requires
            old(self).wf(),
            old(self).rbuf.in_bounds(x as int, y as int),
        ensures
            final(self).wf(),
            final(self).format == old(self).format,
            final(self).rbuf.width == old(self).rbuf.width,
            final(self).rbuf.height == old(self).rbuf.height,
            final(self).rbuf.pix(x as int, y as int) == blend_bytes(
                old(self).format,
                old(self).rbuf.pix(x as int, y as int),
                c,
                cover_u8(cover),
            ),
            final(self).rbuf.same_outside_run(&old(self).rbuf, x as int, x + 1, y as int),
    {
        self.rbuf.blend_color(self.format, x, y, c, cover);
    }

    /// Blends color `c` with coverage `cover` into `len` pixels of row `y`
    /// from `x`.
    pub fn blend_hline(&mut self, x: i64, y: i64, len: i64, c: Rgba8, cover: u64)
        requires
            old(self).wf(),
            c.a == 0 || (0 <= x && 0 <= len && x + len <= old(self).rbuf.width && 0 <= y < old(self).rbuf.height),
        ensures
            final(self).wf(),
            c.a == 0 ==> final(self).rbuf == old(self).rbuf,
            final(self).format == old(self).format,
            final(self).rbuf.width == old(self).rbuf.width,
            final(self).rbuf.height == old(self).rbuf.height,
            forall|px: int|
                x <= px < x + len ==> #[trigger] final(self).rbuf.pix(px, y as int) == hline_pixel(
                    old(self).format,
                    old(self).rbuf.pix(px, y as int),
                    c,
                    cover,
                ),
            final(self).rbuf.same_outside_run(&old(self).rbuf, x as int, x + len, y as int),
    {
        if c.is_transparent() {
            return;
        }
        self.rbuf.blend_hline(self.format, x as usize, y as usize, len as usize, c, cover);
    }

    /// Blends color `c` into row `y` from `x`, with one coverage per pixel.
    pub fn blend_solid_hspan(&mut self, x: i64, y: i64, _len: i64, c: Rgba8, covers: &Vec<u64>)
        requires
            old(self).wf(),
            c.a == 0 || (0 <= x && x + covers@.len() <= old(self).rbuf.width && 0 <= y < old(self).rbuf.height),
        ensures
            final(self).wf(),
            c.a == 0 ==> final(self).rbuf == old(self).rbuf,
            final(self).format == old(self).format,
            final(self).rbuf.width == old(self).rbuf.width,
            final(self).rbuf.height == old(self).rbuf.height,
            forall|px: int|
                x <= px < x + covers@.len() ==> #[trigger] final(self).rbuf.pix(px, y as int) == hline_pixel(
                    old(self).format,
                    old(self).rbuf.pix(px, y as int),
                    c,
                    covers@[px - x],
                ),
            final(self).rbuf.same_outside_run(&old(self).rbuf, x as int, x + covers@.len(), y as int),
    {
        if c.is_transparent() {
            return;
        }
        self.rbuf.blend_solid_hspan(self.format, x as usize, y as usize, c, covers);
    }

    /// Stores color `c` at `(x, y)`.
    pub fn copy_pixel(&mut self, x: usize, y: usize, c: Rgba8)
        requires
            old(self).wf(),
            old(self).rbuf.in_bounds(x as int, y as int),
        ensures
            final(self).wf(),
            final(self).format == old(self).format,
            final(self).rbuf.pix(x as int, y as int) == layout_bytes(old(self).format, c),
            final(self).rbuf.same_outside_run(&old(self).rbuf, x as int, x + 1, y as int),
    {
        self.rbuf.set_color(self.format, x, y, c);
    }

    /// Stores color `c` in `n` pixels of row `y` from `x`.
    pub fn copy_hline(&mut self, x: usize, y: usize, n: usize, c: Rgba8)
        requires
            old(self).wf(),
            x + n <= old(self).rbuf.width,
            y < old(self).rbuf.height,
        ensures
            final(self).wf(),
            final(self).format == old(self).format,
            forall|px: int|
                x <= px < x + n ==> #[trigger] final(self).rbuf.pix(px, y as int) == layout_bytes(old(self).format, c),
            final(self).rbuf.same_outside_run(&old(self).rbuf, x as int, x + n, y as int),
    {
        self.rbuf.copy_hline(self.format, x, y, n, c);
    }

    /// Stores color `c` in `n` pixels of column `x` from `y`.
    pub fn copy_vline(&mut self, x: usize, y: usize, n: usize, c: Rgba8)
        requires
            old(self).wf(),
            x < old(self).rbuf.width,
            y + n <= old(self).rbuf.height,
        ensures
            final(self).wf(),
            final(self).format == old(self).format,
            forall|py: int|
                y <= py < y + n ==> #[trigger] final(self).rbuf.pix(x as int, py) == layout_bytes(old(self).format, c),
            forall|qx: int, qy: int|
                old(self).rbuf.in_bounds(qx, qy) && !(qx == x && y <= qy < y + n) ==> #[trigger] final(self).rbuf.pix(
                    qx,
                    qy,
                ) == old(self).rbuf.pix(qx, qy),
    {
        self.rbuf.copy_vline(self.format, x, y, n, c);
    }

    /// Stores `colors[i]` at pixel `x + i` of row `y`; colors arrive already
    /// blended, so the coverage is not applied.
    pub fn blend_color_hspan(&mut self, x: usize, y: usize, _n: usize, colors: &Vec<Rgba8>, _cover: usize)
        requires
            old(self).wf(),
            x + colors@.len() <= old(self).rbuf.width,
            y < old(self).rbuf.height,
        ensures
            final(self).wf(),
            final(self).format == old(self).format,
            forall|px: int|
                x <= px < x + colors@.len() ==> #[trigger] final(self).rbuf.pix(px, y as int) == layout_bytes(
                    old(self).format,
                    colors@[px - x],
                ),
            final(self).rbuf.same_outside_run(&old(self).rbuf, x as int, x + colors@.len(), y as int),
    {
        self.rbuf.copy_color_hspan(self.format, x, y, colors);
    }
}

/// RGB24 pixel format: three bytes `[R, G, B]` per pixel.
#[derive(Debug)]
pub struct PixfmtRgb24 {
    /// Rendering buffer.
    pub rbuf: RenderingBuffer,
}

impl PixfmtRgb24 {
    pub open spec fn wf(&self) -> bool {
        &&& self.rbuf.wf()
        &&& self.rbuf.bpp == 3
    }

    /// A zeroed image of `width` x `height` pixels of `bpp` bytes.
    pub fn new(width: usize, height: usize, bpp: usize) -> (r: Self)
        requires
            bpp == 3,
            width * height * bpp <= usize::MAX,
        ensures
            r.wf(),
            r.rbuf.width == width,
            r.rbuf.height == height,
            forall|i: int| 0 <= i < r.rbuf.data@.len() ==> r.rbuf.data@[i] == 0,
    {
        PixfmtRgb24 { rbuf: RenderingBuffer::new(width, height, bpp) }
    }

    /// A pixel format over an existing three-byte buffer.
    pub fn from(rbuf: RenderingBuffer) -> (r: Self)
        requires
            rbuf.wf(),
            rbuf.bpp == 3,
        ensures
            r.wf(),
            r.rbuf == rbuf,
    {
        PixfmtRgb24 { rbuf }
    }

    /// Sets every byte to 255 (white).
    pub fn clear(&mut self)
        requires
            old(self).wf(),
        ensures
            final(self).wf(),
            final(self).rbuf.width == old(self).rbuf.width,
            final(self).rbuf.height == old(self).rbuf.height,
            forall|i: int| 0 <= i < final(self).rbuf.data@.len() ==> final(self).rbuf.data@[i] == 255,
    {
        self.rbuf.clear();
    }

    /// Stores color `c` in every pixel.
    pub fn fill(&mut self, c: Rgba8)
        requires
            old(self).wf(),
        ensures
            final(self).wf(),
            final(self).rbuf.width == old(self).rbuf.width,
            final(self).rbuf.height == old(self).rbuf.height,
            forall|px: int, py: int|
                final(self).rbuf.in_bounds(px, py) ==> #[trigger] final(self).rbuf.pix(px, py) == seq![c.r, c.g, c.b],
    {
        self.rbuf.fill(PixelFormat::Rgb8, c);
    }

    /// Stores the channels of `c` at `(x, y)`.
    pub fn set(&mut self, x: usize, y: usize, c: Rgba8)
        requires
            old(self).wf(),
            old(self).rbuf.in_bounds(x as int, y as int),
        ensures
            final(self).wf(),
            final(self).rbuf.width == old(self).rbuf.width,
            final(self).rbuf.height == old(self).rbuf.height,
            final(self).rbuf.pix(x as int, y as int) == seq![c.r, c.g, c.b],
            final(self).rbuf.same_outside_run(&old(self).rbuf, x as int, x + 1, y as int),
    {
        self.rbuf.set_color(PixelFormat::Rgb8, x, y, c);
    }

    /// Reads the color at `(x, y)`.
    pub fn get(&self, x: usize, y: usize) -> (c: Rgb8)
        requires
            self.wf(),
            self.rbuf.in_bounds(x as int, y as int),
        ensures
            seq![c.r, c.g, c.b] == self.rbuf.pix(x as int, y as int),
    {
        let p = self.rbuf.get_color(PixelFormat::Rgb8, x, y);
        proof {
            lemma_offsets(self.rbuf.width as int, self.rbuf.height as int, 3, x as int, y as int, 0, 0);
            assert(self.rbuf.pix(x as int, y as int).len() == 3);
            assert(seq![p.r, p.g, p.b] =~= self.rbuf.pix(x as int, y as int));
        }
        Rgb8 { r: p.r, g: p.g, b: p.b }
    }

    /// Stores color `c` at `(x, y)`.
    pub fn copy_pixel(&mut self, x: usize, y: usize, c: Rgb8)
        requires
            old(self).wf(),
            old(self).rbuf.in_bounds(x as int, y as int),
        ensures
            final(self).wf(),
            final(self).rbuf.pix(x as int, y as int) == seq![c.r, c.g, c.b],
            final(self).rbuf.same_outside_run(&old(self).rbuf, x as int, x + 1, y as int),
    {
        self.rbuf.set_color(PixelFormat::Rgb8, x, y, c.to_rgba());
    }

    /// Stores color `c` in `n` pixels of row `y` from `x`.
    pub fn copy_hline(&mut self, x: usize, y: usize, n: usize, c: Rgb8)
        requires
            old(self).wf(),
            x + n <= old(self).rbuf.width,
            y < old(self).rbuf.height,
        ensures
            final(self).wf(),
            forall|px: int| x <= px < x + n ==> #[trigger] final(self).rbuf.pix(px, y as int) == seq![c.r, c.g, c.b],
            final(self).rbuf.same_outside_run(&old(self).rbuf, x as int, x + n, y as int),
    {
        self.rbuf.copy_hline(PixelFormat::Rgb8, x, y, n, c.to_rgba());
    }

    /// Stores color `c` in `n` pixels of column `x` from `y`.
    pub fn copy_vline(&mut self, x: usize, y: usize, n: usize, c: Rgb8)
        requires
            old(self).wf(),
            x < old(self).rbuf.width,
            y + n <= old(self).rbuf.height,
        ensures
            final(self).wf(),
            forall|py: int| y <= py < y + n ==> #[trigger] final(self).rbuf.pix(x as int, py) == seq![c.r, c.g, c.b],
            forall|qx: int, qy: int|
                old(self).rbuf.in_bounds(qx, qy) && !(qx == x && y <= qy < y + n) ==> #[trigger] final(self).rbuf.pix(
                    qx,
                    qy,
                ) == old(self).rbuf.pix(qx, qy),
    {
        self.rbuf.copy_vline(PixelFormat::Rgb8, x, y, n, c.to_rgba());
    }

    /// Stores `c[i]` at pixel `x + i` of row `y`; the coverage is not applied.
    pub fn blend_color_hspan(&mut self, x: usize, y: usize, _n: usize, c: &Vec<Rgb8>, _cover: usize)
        requires
            old(self).wf(),
            x + c@.len() <= old(self).rbuf.width,
            y < old(self).rbuf.height,
        ensures
            final(self).wf(),
            forall|px: int|
                x <= px < x + c@.len() ==> #[trigger] final(self).rbuf.pix(px, y as int) == seq![
                    c@[px - x].r,
                    c@[px - x].g,
                    c@[px - x].b,
                ],
            final(self).rbuf.same_outside_run(&old(self).rbuf, x as int, x + c@.len(), y as int),
    {
        let mut colors: Vec<Rgba8> = Vec::new();
        let mut i: usize = 0;
        while i < c.len()
            invariant
                i <= c@.len(),
                colors@.len() == i,
                forall|j: int|
                    0 <= j < i ==> #[trigger] colors@[j] == (Rgba8 { r: c@[j].r, g: c@[j].g, b: c@[j].b, a: 255 }),
            decreases c@.len() - i,
        {
            colors.push(c[i].to_rgba());
            i = i + 1;
        }
        self.rbuf.copy_color_hspan(PixelFormat::Rgb8, x, y, &colors);
    }

    /// Blends color `c` with coverage `cover` into `len` pixels of row `y`
    /// from `x`.
    pub fn blend_hline(&mut self, x: i64, y: i64, len: i64, c: Rgba8, cover: u64)
        requires
            old(self).wf(),
            c.a == 0 || (0 <= x && 0 <= len && x + len <= old(self).rbuf.width && 0 <= y < old(self).rbuf.height),
        ensures
            final(self).wf(),
            c.a == 0 ==> final(self).rbuf == old(self).rbuf,
            forall|px: int|
                x <= px < x + len ==> #[trigger] final(self).rbuf.pix(px, y as int) == hline_pixel(
                    PixelFormat::Rgb8,
                    old(self).rbuf.pix(px, y as int),
                    c,
                    cover,
                ),
            final(self).rbuf.same_outside_run(&old(self).rbuf, x as int, x + len, y as int),
    {
        if c.is_transparent() {
            return;
        }
        self.rbuf.blend_hline(PixelFormat::Rgb8, x as usize, y as usize, len as usize, c, cover);
    }

    /// Blends color `c` into row `y` from `x`, with one coverage per pixel.
    pub fn blend_solid_hspan(&mut self, x: i64, y: i64, _len: i64, c: Rgba8, covers: &Vec<u64>)
        requires
            old(self).wf(),
            c.a == 0 || (0 <= x && x + covers@.len() <= old(self).rbuf.width && 0 <= y < old(self).rbuf.height),
        ensures
            final(self).wf(),
            c.a == 0 ==> final(self).rbuf == old(self).rbuf,
            forall|px: int|
                x <= px < x + covers@.len() ==> #[trigger] final(self).rbuf.pix(px, y as int) == hline_pixel(
                    PixelFormat::Rgb8,
                    old(self).rbuf.pix(px, y as int),
                    c,
                    covers@[px - x],
                ),
            final(self).rbuf.same_outside_run(&old(self).rbuf, x as int, x + covers@.len(), y as int),
    {
        if c.is_transparent() {
            return;
        }
        self.rbuf.blend_solid_hspan(PixelFormat::Rgb8, x as usize, y as usize, c, covers);
    }
}

/// Gray scale pixel format: one byte per pixel.
#[derive(Debug)]
pub struct PixfmtGray8 {
    /// Rendering buffer.
    pub rbuf: RenderingBuffer,
}

impl PixfmtGray8 {
    pub open spec fn wf(&self) -> bool {
        &&& self.rbuf.wf()
        &&& self.rbuf.bpp == 1
    }

    /// A zeroed gray image of `width` x `height` pixels of `bpp` bytes.
    pub fn new(width: usize, height: usize, bpp: usize) -> (r: Self)
        requires
            bpp == 1,
            width * height * bpp <= usize::MAX,
        ensures
            r.wf(),
            r.rbuf.width == width,
            r.rbuf.height == height,
            forall|i: int| 0 <= i < r.rbuf.data@.len() ==> r.rbuf.data@[i] == 0,
    {
        PixfmtGray8 { rbuf: RenderingBuffer::new(width, height, bpp) }
    }

    /// Stores gray level `c` in `n` pixels of row `y` from `x`.
    pub fn copy_hline(&mut self, x: usize, y: usize, n: usize, c: u8)
        requires
            old(self).wf(),
            x + n <= old(self).rbuf.width,
            y < old(self).rbuf.height,
        ensures
            final(self).wf(),
            forall|px: int| x <= px < x + n ==> #[trigger] final(self).rbuf.pix(px, y as int) == seq![c],
            final(self).rbuf.same_outside_run(&old(self).rbuf, x as int, x + n, y as int),
    {
        let mut i: usize = 0;
        while i < n
            invariant
                self.wf(),
                self.rbuf.width == old(self).rbuf.width,
                self.rbuf.height == old(self).rbuf.height,
                x + n <= self.rbuf.width,
                y < self.rbuf.height,
                i <= n,
                forall|px: int| x <= px < x + i ==> #[trigger] self.rbuf.pix(px, y as int) == seq![c],
                self.rbuf.same_outside_run(&old(self).rbuf, x as int, x + i, y as int),
            decreases n - i,
        {
            let ghost mid = self.rbuf;
            self.rbuf.store(x + i, y, [c, c, c, c]);
            proof {
                assert([c, c, c, c]@.take(1) =~= seq![c]);
                assert forall|px: int| x <= px < x + i + 1 implies #[trigger] self.rbuf.pix(px, y as int) == seq![c] by {
                    if px < x + i {
                        assert(self.rbuf.pix(px, y as int) == mid.pix(px, y as int));
                    }
                }
                assert forall|qx: int, qy: int|
                    old(self).rbuf.in_bounds(qx, qy) && !(qy == y && x <= qx < x + i + 1) implies #[trigger] self.rbuf.pix(
                    qx,
                    qy,
                ) == old(self).rbuf.pix(qx, qy) by {
                    assert(self.rbuf.pix(qx, qy) == mid.pix(qx, qy));
                }
            }
            i = i + 1;
        }
    }
}

/// Blending at zero coverage leaves a pixel as it was.
pub proof fn lemma_hline_pixel_zero(buf: RenderingBuffer, f: PixelFormat, x: int, y: int, c: Rgba8)
    requires
        buf.wf(),
        buf.bpp == layout_bpp(f),
        buf.in_bounds(x, y),
    ensures
        hline_pixel(f, buf.pix(x, y), c, 0) == buf.pix(x, y),
{
    lemma_offsets(buf.width as int, buf.height as int, buf.bpp as int, x, y, 0, 0);
    let p = buf.pix(x, y);
    crate::math::lemma_channel_identities(c.a, 0, 0);
    if c.a != 0 {
        let k = if f == PixelFormat::Rgba8 { 4int } else { 3int };
        assert forall|i: int| 0 <= i < k implies #[trigger] blend_bytes(f, p, c, 0)[i] == p[i] by {
            crate::math::lemma_channel_identities(p[i], p[i], 0);
            crate::math::lemma_channel_identities(0, p[i], 0);
            if f == PixelFormat::Rgb8 {
                if i == 0 {
                    crate::math::lemma_channel_identities(0, p[0], c.r);
                } else if i == 1 {
                    crate::math::lemma_channel_identities(0, p[1], c.g);
                } else {
                    crate::math::lemma_channel_identities(0, p[2], c.b);
                }
            } else if f == PixelFormat::Rgba8 {
                if i == 0 {
                    crate::math::lemma_channel_identities(0, p[0], c.r);
                } else if i == 1 {
                    crate::math::lemma_channel_identities(0, p[1], c.g);
                } else if i == 2 {
                    crate::math::lemma_channel_identities(0, p[2], c.b);
                } else {
                    crate::math::lemma_channel_identities(0, p[3], 0);
                }
            } else {
                let q = layout_bytes(f, c);
                crate::math::lemma_channel_identities(q[i], 0, 0);
            }
        }
        assert(blend_bytes(f, p, c, 0) =~= p);
    }
}

} // verus!
