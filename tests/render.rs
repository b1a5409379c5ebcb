use agg::pixfmt::{PixelFormat, Pixfmt, Rgba8};
use agg::raster::{FillingRule, RasterizerScanlineAA};
use agg::render::{render_scanline_aa_solid, render_scanlines_aa_solid};
use agg::scan::ScanlineU8;

fn sub(v: i64) -> i64 {
    v * 256
}

fn square(ras: &mut RasterizerScanlineAA, x0: i64, y0: i64, x1: i64, y1: i64) {
    ras.move_to(sub(x0), sub(y0));
    ras.line_to(sub(x1), sub(y0));
    ras.line_to(sub(x1), sub(y1));
    ras.line_to(sub(x0), sub(y1));
    ras.close_polygon();
}

#[test]
fn t15_path_stroke() {
    let (w, h) = (100usize, 100usize);
    let mut pix = Pixfmt::new(w, h, PixelFormat::Rgb8);
    pix.fill(Rgba8::new(255, 255, 255, 255));
    let red = Rgba8::new(255, 0, 0, 255);
    let mut ras = RasterizerScanlineAA::new();
    let mut sl = ScanlineU8::new();
    ras.clip_box(sub(40), sub(0), sub(w as i64 - 40), sub(h as i64));
    ras.reset();
    ras.move_to(sub(10), sub(10));
    ras.line_to(sub(50), sub(90));
    ras.line_to(sub(90), sub(10));
    render_scanlines_aa_solid(&mut ras, &mut sl, &mut pix, red);
    let mut red_seen = 0;
    for y in 0..h {
        for x in 0..w {
            let p = pix.get(x, y);
            if x < 40 || x >= 60 {
                assert_eq!((p.r, p.g, p.b), (255, 255, 255), "pixel {} {} outside the strip", x, y);
            } else if (p.r, p.g, p.b) != (255, 255, 255) {
                assert_eq!(p.r, 255);
                assert_eq!(p.g, p.b);
                red_seen += 1;
            }
        }
    }
    assert!(red_seen > 0);
    // the triangle's interior at the strip's centre is solid red
    let p = pix.get(50, 40);
    assert_eq!((p.r, p.g, p.b), (255, 0, 0));
}

#[test]
fn opaque_square_fills_rgba_exactly() {
    let mut pix = Pixfmt::new(10, 10, PixelFormat::Rgba8);
    let mut ras = RasterizerScanlineAA::new();
    let mut sl = ScanlineU8::new();
    square(&mut ras, 0, 0, 10, 10);
    render_scanlines_aa_solid(&mut ras, &mut sl, &mut pix, Rgba8::new(0, 0, 0, 255));
    for y in 0..10 {
        for x in 0..10 {
            assert_eq!(pix.get(x, y), Rgba8::new(0, 0, 0, 255));
        }
    }
}

#[test]
fn half_alpha_black_over_white_is_mid_gray() {
    let mut pix = Pixfmt::new(10, 10, PixelFormat::Rgb8);
    pix.clear();
    let mut ras = RasterizerScanlineAA::new();
    let mut sl = ScanlineU8::new();
    square(&mut ras, 0, 0, 10, 10);
    render_scanlines_aa_solid(&mut ras, &mut sl, &mut pix, Rgba8::new(0, 0, 0, 128));
    for y in 0..10 {
        for x in 0..10 {
            let p = pix.get(x, y);
            for v in [p.r, p.g, p.b] {
                assert!((127..=129).contains(&v), "pixel {} {} is {}", x, y, v);
            }
        }
    }
}

#[test]
fn scanline_cells_blend_into_black() {
    let mut pix = Pixfmt::new(2, 1, PixelFormat::Rgb8);
    let mut sl = ScanlineU8::new();
    sl.reset_spans();
    sl.add_cell(0, 128);
    sl.add_cell(1, 255);
    sl.finalize(0);
    assert_eq!(sl.num_spans(), 1);
    render_scanline_aa_solid(&sl, &mut pix, Rgba8::new(200, 100, 50, 255));
    let p0 = pix.get(0, 0);
    assert!((p0.r as i32 - 100).abs() <= 1);
    assert!((p0.g as i32 - 50).abs() <= 1);
    assert!((p0.b as i32 - 25).abs() <= 1);
    let p1 = pix.get(1, 0);
    assert_eq!((p1.r, p1.g, p1.b), (200, 100, 50));
}

#[test]
fn degenerate_path_has_no_spans() {
    let mut ras = RasterizerScanlineAA::new();
    let mut sl = ScanlineU8::new();
    ras.move_to(sub(5), sub(5));
    ras.line_to(sub(5), sub(5));
    ras.close_polygon();
    if ras.rewind_scanlines() {
        assert!(!ras.sweep_scanline(&mut sl));
    }
}

#[test]
fn even_odd_nested_squares_leave_a_hole() {
    let mut pix = Pixfmt::new(10, 10, PixelFormat::Rgb8);
    pix.clear();
    let mut ras = RasterizerScanlineAA::new();
    let mut sl = ScanlineU8::new();
    ras.filling_rule(FillingRule::EvenOdd);
    square(&mut ras, 0, 0, 10, 10);
    square(&mut ras, 2, 2, 8, 8);
    render_scanlines_aa_solid(&mut ras, &mut sl, &mut pix, Rgba8::new(0, 0, 0, 255));
    for y in 0..10 {
        for x in 0..10 {
            let p = pix.get(x, y);
            let inner = (2..8).contains(&x) && (2..8).contains(&y);
            if inner {
                assert_eq!((p.r, p.g, p.b), (255, 255, 255), "hole at {} {}", x, y);
            } else {
                assert_eq!((p.r, p.g, p.b), (0, 0, 0), "ring at {} {}", x, y);
            }
        }
    }
}

fn triangle(ras: &mut RasterizerScanlineAA, ax: i64, ay: i64, bx: i64, by: i64, cx: i64, cy: i64) {
    ras.move_to(sub(ax), sub(ay));
    ras.line_to(sub(bx), sub(by));
    ras.line_to(sub(cx), sub(cy));
    ras.close_polygon();
}

fn nested_triangles(rule: FillingRule) -> Pixfmt {
    let mut pix = Pixfmt::new(40, 40, PixelFormat::Rgb8);
    pix.clear();
    let mut ras = RasterizerScanlineAA::new();
    let mut sl = ScanlineU8::new();
    ras.filling_rule(rule);
    triangle(&mut ras, 0, 0, 40, 0, 0, 40);
    triangle(&mut ras, 0, 0, 40, 0, 0, 40);
    triangle(&mut ras, 4, 4, 24, 4, 4, 24);
    render_scanlines_aa_solid(&mut ras, &mut sl, &mut pix, Rgba8::new(0, 0, 0, 255));
    pix
}

#[test]
fn even_odd_parity_of_nested_triangles() {
    // two identical outer triangles and one inner one, all wound alike:
    // winding 2 in the ring, 3 in the inner triangle
    let nz = nested_triangles(FillingRule::NonZero);
    let eo = nested_triangles(FillingRule::EvenOdd);
    // inside the inner triangle
    assert_eq!(nz.get(8, 8), Rgba8::new(0, 0, 0, 255));
    assert_eq!(eo.get(8, 8), Rgba8::new(0, 0, 0, 255));
    // in the ring between the triangles
    assert_eq!(nz.get(30, 2), Rgba8::new(0, 0, 0, 255));
    assert_eq!(eo.get(30, 2), Rgba8::new(255, 255, 255, 255));
}

#[test]
fn even_odd_same_winding_pair() {
    let mut pix_nz = Pixfmt::new(20, 20, PixelFormat::Rgb8);
    let mut pix_eo = Pixfmt::new(20, 20, PixelFormat::Rgb8);
    pix_nz.clear();
    pix_eo.clear();
    for (rule, pix) in [(FillingRule::NonZero, &mut pix_nz), (FillingRule::EvenOdd, &mut pix_eo)] {
        let mut ras = RasterizerScanlineAA::new();
        let mut sl = ScanlineU8::new();
        ras.filling_rule(rule);
        triangle(&mut ras, 0, 0, 20, 0, 0, 20);
        triangle(&mut ras, 2, 2, 12, 2, 2, 12);
        render_scanlines_aa_solid(&mut ras, &mut sl, pix, Rgba8::new(0, 0, 0, 255));
    }
    // NonZero: opaque everywhere inside the outer triangle
    assert_eq!(pix_nz.get(4, 4), Rgba8::new(0, 0, 0, 255));
    assert_eq!(pix_nz.get(15, 1), Rgba8::new(0, 0, 0, 255));
    // EvenOdd: the inner region is transparent, the ring opaque
    assert_eq!(pix_eo.get(4, 4), Rgba8::new(255, 255, 255, 255));
    assert_eq!(pix_eo.get(15, 1), Rgba8::new(0, 0, 0, 255));
}

#[test]
fn convex_polygon_partly_off_screen_fills_without_seams() {
    let mut pix = Pixfmt::new(20, 20, PixelFormat::Rgb8);
    pix.clear();
    let mut ras = RasterizerScanlineAA::new();
    let mut sl = ScanlineU8::new();
    ras.clip_box(0, 0, sub(20), sub(20));
    square(&mut ras, -10, -10, 15, 30);
    render_scanlines_aa_solid(&mut ras, &mut sl, &mut pix, Rgba8::new(0, 0, 0, 255));
    for y in 0..20 {
        for x in 0..20 {
            let p = pix.get(x, y);
            if x < 15 {
                assert_eq!((p.r, p.g, p.b), (0, 0, 0), "seam at {} {}", x, y);
            } else {
                assert_eq!((p.r, p.g, p.b), (255, 255, 255));
            }
        }
    }
}
