use agg::math::{lerp_u8, multiply_u8, prelerp_u8};
use agg::pixfmt::{PixelFormat, Pixfmt, PixfmtGray8, PixfmtRgb24, Rgb8, Rgba8};

#[test]
fn channel_math_identities() {
    for x in 0..=255u8 {
        assert_eq!(multiply_u8(x, 255), x);
        assert_eq!(multiply_u8(x, 0), 0);
    }
    for p in (0..=255u8).step_by(5) {
        for q in (0..=255u8).step_by(3) {
            assert_eq!(lerp_u8(p, q, 0), p);
            assert_eq!(lerp_u8(p, q, 255), q);
        }
    }
}

#[test]
fn channel_math_values() {
    assert_eq!(multiply_u8(128, 128), 64);
    assert_eq!(multiply_u8(200, 128), 100);
    assert_eq!(multiply_u8(255, 255), 255);
    assert_eq!(lerp_u8(0, 200, 128), 100);
    assert_eq!(lerp_u8(255, 0, 128), 127);
    assert_eq!(prelerp_u8(200, 0, 255), 0);
    assert_eq!(prelerp_u8(200, 0, 128), 100);
    assert_eq!(prelerp_u8(200, 100, 0), 255);
}

#[test]
fn rgba_blend_keeps_source_alpha_rule() {
    let mut pix = Pixfmt::new(1, 1, PixelFormat::Rgba8);
    pix.set(0, 0, Rgba8::new(0, 0, 0, 0));
    pix.blend_pix(0, 0, Rgba8::new(255, 255, 255, 255), 128);
    let p = pix.get(0, 0);
    assert_eq!((p.r, p.g, p.b), (128, 128, 128));
    assert_eq!(p.a, multiply_u8(128, 128));
}

#[test]
fn premultiplied_layout_stores_scaled_channels() {
    let mut pix = Pixfmt::new(2, 1, PixelFormat::Rgb8Pre);
    pix.set(0, 0, Rgba8::new(200, 100, 50, 128));
    assert_eq!(pix.get(0, 0), Rgba8::new(100, 50, 25, 255));
    pix.blend_pix(1, 0, Rgba8::new(200, 100, 50, 255), 255);
    assert_eq!(pix.get(1, 0), Rgba8::new(200, 100, 50, 255));
    assert_eq!(pix.bpp(), 3);
    assert_eq!(Pixfmt::cover_mask(), 255);
}

#[test]
fn hline_skips_transparent_and_sets_opaque() {
    let mut pix = Pixfmt::new(5, 2, PixelFormat::Rgb8);
    pix.blend_hline(1, 1, 3, Rgba8::new(10, 20, 30, 0), 255);
    assert!(pix.rbuf.data.iter().all(|&b| b == 0));
    pix.blend_hline(1, 1, 3, Rgba8::new(10, 20, 30, 255), 255);
    for x in 0..5 {
        let expect = if (1..4).contains(&x) { Rgba8::new(10, 20, 30, 255) } else { Rgba8::new(0, 0, 0, 255) };
        assert_eq!(pix.get(x, 1), expect);
        assert_eq!(pix.get(x, 0), Rgba8::new(0, 0, 0, 255));
    }
    pix.blend_solid_hspan(0, 0, 2, Rgba8::new(255, 255, 255, 255), &vec![255, 0]);
    assert_eq!(pix.get(0, 0), Rgba8::new(255, 255, 255, 255));
    assert_eq!(pix.get(1, 0), Rgba8::new(0, 0, 0, 255));
}

#[test]
fn copy_lines_and_color_span() {
    let mut pix = Pixfmt::new(4, 4, PixelFormat::Rgba8);
    let c = Rgba8::new(1, 2, 3, 4);
    pix.copy_hline(0, 2, 4, c);
    pix.copy_vline(3, 0, 4, Rgba8::new(9, 9, 9, 9));
    pix.copy_pixel(0, 0, Rgba8::new(7, 7, 7, 7));
    assert_eq!(pix.get(1, 2), c);
    assert_eq!(pix.get(3, 2), Rgba8::new(9, 9, 9, 9));
    assert_eq!(pix.get(0, 0), Rgba8::new(7, 7, 7, 7));
    assert_eq!(pix.get(1, 1), Rgba8::new(0, 0, 0, 0));
    pix.blend_color_hspan(0, 3, 2, &vec![Rgba8::new(5, 6, 7, 8), Rgba8::new(8, 7, 6, 5)], 255);
    assert_eq!(pix.get(1, 3), Rgba8::new(8, 7, 6, 5));
}

#[test]
fn rgb24_format_operations() {
    let mut pix = PixfmtRgb24::new(3, 2, 3);
    pix.clear();
    assert_eq!(pix.get(2, 1), Rgb8::new(255, 255, 255));
    pix.copy_hline(0, 0, 3, Rgb8::new(1, 2, 3));
    pix.copy_vline(1, 0, 2, Rgb8::new(4, 5, 6));
    pix.copy_pixel(2, 1, Rgb8::new(7, 8, 9));
    assert_eq!(pix.get(0, 0), Rgb8::new(1, 2, 3));
    assert_eq!(pix.get(1, 1), Rgb8::new(4, 5, 6));
    assert_eq!(pix.get(2, 1), Rgb8::new(7, 8, 9));
    pix.blend_color_hspan(0, 1, 1, &vec![Rgb8::new(10, 11, 12)], 0);
    assert_eq!(pix.get(0, 1), Rgb8::new(10, 11, 12));
    pix.blend_hline(0, 0, 1, Rgba8::new(255, 255, 255, 255), 128);
    assert_eq!(pix.get(0, 0), Rgb8::new(128, 129, 129));
    pix.blend_solid_hspan(2, 0, 1, Rgba8::new(0, 0, 0, 255), &vec![255]);
    assert_eq!(pix.get(2, 0), Rgb8::new(0, 0, 0));
    pix.fill(Rgba8::new(3, 3, 3, 255));
    assert!(pix.rbuf.data.iter().all(|&b| b == 3));
    let mut pix2 = PixfmtRgb24::from(pix.rbuf);
    pix2.set(0, 0, Rgba8::new(9, 8, 7, 255));
    assert_eq!(pix2.get(0, 0), Rgb8::new(9, 8, 7));
}

#[test]
fn gray_copy_hline() {
    let mut g = PixfmtGray8::new(4, 2, 1);
    g.copy_hline(1, 1, 2, 77);
    assert_eq!(g.rbuf.data, vec![0, 0, 0, 0, 0, 77, 77, 0]);
}

#[test]
fn transparent_hline_touches_nothing_even_out_of_range() {
    let mut pix = Pixfmt::new(2, 2, PixelFormat::Rgb8);
    pix.blend_hline(-5, 40, 100, Rgba8::new(1, 2, 3, 0), 255);
    pix.blend_solid_hspan(-5, 40, 3, Rgba8::new(1, 2, 3, 0), &vec![255, 255, 255]);
    assert!(pix.rbuf.data.iter().all(|&b| b == 0));
    let mut rgb = PixfmtRgb24::new(2, 2, 3);
    rgb.blend_hline(7, -1, 9, Rgba8::new(1, 2, 3, 0), 255);
    assert!(rgb.rbuf.data.iter().all(|&b| b == 0));
}

#[test]
fn multiply_is_rounded_quotient() {
    for a in 0..=255u32 {
        for b in 0..=255u32 {
            assert_eq!(multiply_u8(a as u8, b as u8) as u32, (2 * a * b + 255) / 510);
        }
    }
    assert_eq!(lerp_u8(1, 0, 128), 0);
}
