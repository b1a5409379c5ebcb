use agg::cell::{Cell, RasterizerCell};
use agg::raster::{FillingRule, PathCommand, RasterizerScanlineAA, Vertex};
use agg::scan::ScanlineU8;

fn cover_sum(cells: &[Cell]) -> i64 {
    cells.iter().map(|c| c.cover).sum()
}

#[test]
fn single_segment_covers_sum_to_its_height() {
    let segments = [
        (0, 0, 256, 256),
        (10, 700, 3000, 20),
        (-500, -300, 900, 1200),
        (1000, 5, 1000, 2049),
        (77, 77, 5000, 77),
        (300, 512, 40, 256),
    ];
    for (x1, y1, x2, y2) in segments {
        let mut store = RasterizerCell::new();
        store.line(x1, y1, x2, y2);
        assert_eq!(cover_sum(&store.cells), y2 - y1, "segment {:?}", (x1, y1, x2, y2));
    }
}

#[test]
fn cell_areas_stay_within_one_pixel() {
    let mut store = RasterizerCell::new();
    store.line(13, 29, 4011, 3333);
    store.line(4011, 3333, -250, 1000);
    store.line(-250, 1000, 13, 29);
    assert!(!store.cells.is_empty());
    for c in &store.cells {
        assert!(c.area.abs() <= 2 * 256 * 256, "{:?}", c);
        assert!(c.cover.abs() <= 256, "{:?}", c);
    }
}

#[test]
fn vertical_segment_area_is_twice_offset_times_height() {
    let mut store = RasterizerCell::new();
    store.line(256 * 3 + 64, 10, 256 * 3 + 64, 200);
    assert_eq!(store.cells.len(), 1);
    let c = store.cells[0];
    assert_eq!((c.x, c.y, c.cover, c.area), (3, 0, 190, 2 * 64 * 190));
}

#[test]
fn segment_on_row_boundary_adds_no_cover_to_next_row() {
    let mut store = RasterizerCell::new();
    store.line(100, 0, 100, 512);
    assert!(store.cells.iter().all(|c| c.y == 0 || c.y == 1));
    assert_eq!(cover_sum(&store.cells), 512);
}

#[test]
fn sorted_cells_ascend_by_row_then_column() {
    let mut store = RasterizerCell::new();
    store.line(5000, 4000, 100, 100);
    store.line(100, 100, 3000, 2500);
    store.line(3000, 2500, 5000, 4000);
    store.sort_cells();
    for w in store.cells.windows(2) {
        assert!((w[0].y, w[0].x) <= (w[1].y, w[1].x));
    }
    for y in store.min_y..=store.max_y {
        let (start, end) = store.scanline_range(y);
        assert!(store.cells[start..end].iter().all(|c| c.y == y));
        assert_eq!(end - start, store.cells.iter().filter(|c| c.y == y).count());
    }
}

fn outline_after(path: &[(i64, i64)], close: bool, clip: Option<(i64, i64, i64, i64)>) -> Vec<Cell> {
    let mut ras = RasterizerScanlineAA::new();
    if let Some((a, b, c, d)) = clip {
        ras.clip_box(a, b, c, d);
    }
    ras.move_to(path[0].0, path[0].1);
    for &(x, y) in &path[1..] {
        ras.line_to(x, y);
    }
    if close {
        ras.close_polygon();
    }
    ras.outline.cells.clone()
}

#[test]
fn close_matches_explicit_line_back() {
    let path = [(300, 400), (5000, 900), (2600, 4700)];
    let closed = outline_after(&path, true, None);
    let explicit = outline_after(&[(300, 400), (5000, 900), (2600, 4700), (300, 400)], false, None);
    assert_eq!(closed, explicit);
}

#[test]
fn clip_box_around_path_changes_nothing() {
    let path = [(300, 400), (5000, 900), (2600, 4700), (300, 400)];
    let plain = outline_after(&path, false, None);
    let clipped = outline_after(&path, false, Some((0, 0, 256 * 30, 256 * 30)));
    let tight = outline_after(&path, false, Some((300, 400, 5000, 4700)));
    assert_eq!(plain, clipped);
    assert_eq!(plain, tight);
}

#[test]
fn default_gamma_full_pixel_is_opaque() {
    let ras = RasterizerScanlineAA::new();
    assert_eq!(ras.calculate_alpha(256 << 9), 255);
    assert_eq!(ras.calculate_alpha(-(256 << 9)), 255);
    assert_eq!(ras.calculate_alpha(0), 0);
    assert_eq!(ras.calculate_alpha(128 << 9), 128);
}

#[test]
fn alpha_grows_with_cover() {
    let ras = RasterizerScanlineAA::new();
    let mut last = 0;
    for cover in 0..600i64 {
        let a = ras.calculate_alpha(cover << 9);
        assert!(a >= last);
        assert_eq!(ras.calculate_alpha(-cover << 9), a);
        last = a;
    }
    assert_eq!(last, 255);
}

#[test]
fn even_odd_folds_winding_parity() {
    let mut ras = RasterizerScanlineAA::new();
    ras.filling_rule(FillingRule::EvenOdd);
    assert_eq!(ras.calculate_alpha(256 << 9), 255);
    assert_eq!(ras.calculate_alpha(512 << 9), 0);
    assert_eq!(ras.calculate_alpha(768 << 9), 255);
    assert_eq!(ras.calculate_alpha(384 << 9), 128);
    assert_eq!(ras.calculate_alpha(100 << 9), 100);
}

#[test]
fn custom_gamma_table_is_used() {
    let mut ras = RasterizerScanlineAA::new();
    let table: Vec<u64> = (0..256u64).map(|i| 255 - i).collect();
    ras.set_gamma_table(table);
    assert_eq!(ras.calculate_alpha(0), 255);
    assert_eq!(ras.calculate_alpha(256 << 9), 0);
}

#[test]
fn add_path_runs_commands_until_stop() {
    let v = |x: i64, y: i64, cmd: PathCommand| Vertex { x: x * 256, y: y * 256, cmd };
    let path = vec![
        v(0, 0, PathCommand::MoveTo),
        v(4, 0, PathCommand::LineTo),
        v(4, 4, PathCommand::LineTo),
        v(0, 4, PathCommand::LineTo),
        v(0, 0, PathCommand::Close),
        v(9, 9, PathCommand::Stop),
        v(90, 90, PathCommand::LineTo),
    ];
    let mut ras = RasterizerScanlineAA::new();
    ras.add_path(&path);
    assert!(ras.rewind_scanlines());
    assert_eq!((ras.min_x(), ras.max_x()), (0, 4));
    let mut sl = ScanlineU8::new();
    let mut rows = Vec::new();
    while ras.sweep_scanline(&mut sl) {
        rows.push(sl.y);
        let total: i64 = sl.spans.iter().map(|s| s.len).sum();
        assert_eq!(total, 4);
        assert!(sl.spans.iter().all(|s| s.covers.iter().all(|&c| c == 255)));
    }
    assert_eq!(rows, vec![0, 1, 2, 3]);
}

#[test]
fn half_pixel_edge_gives_half_coverage() {
    let mut ras = RasterizerScanlineAA::new();
    ras.move_to(128, 0);
    ras.line_to(1024, 0);
    ras.line_to(1024, 256);
    ras.line_to(128, 256);
    ras.close_polygon();
    assert!(ras.rewind_scanlines());
    let mut sl = ScanlineU8::new();
    assert!(ras.sweep_scanline(&mut sl));
    assert_eq!(sl.y, 0);
    let first = &sl.spans[0];
    assert_eq!(first.x, 0);
    assert_eq!(first.covers[0], 128);
    assert!(!ras.sweep_scanline(&mut sl));
}

#[test]
fn negative_rows_are_skipped() {
    let mut ras = RasterizerScanlineAA::new();
    ras.move_to(0, -1024);
    ras.line_to(1024, -1024);
    ras.line_to(1024, 512);
    ras.line_to(0, 512);
    ras.close_polygon();
    assert!(ras.rewind_scanlines());
    let mut sl = ScanlineU8::new();
    let mut rows = Vec::new();
    while ras.sweep_scanline(&mut sl) {
        rows.push(sl.y);
    }
    assert_eq!(rows, vec![0, 1]);
}

#[test]
fn scanline_merges_adjacent_cells_only() {
    let mut sl = ScanlineU8::new();
    sl.add_cell(3, 10);
    sl.add_cell(4, 20);
    sl.add_span(5, 3, 30);
    sl.add_cell(8, 40);
    sl.add_cell(10, 50);
    sl.finalize(7);
    assert_eq!(sl.num_spans(), 4);
    assert_eq!(sl.y, 7);
    assert_eq!(sl.spans[0].covers, vec![10, 20]);
    assert_eq!(sl.spans[1].covers, vec![30, 30, 30]);
    assert_eq!((sl.spans[2].x, sl.spans[2].len), (8, 1));
    assert_eq!((sl.spans[3].x, sl.spans[3].len), (10, 1));
}

#[test]
fn sort_keeps_emission_order_of_equal_positions() {
    let mut store = RasterizerCell::new();
    let cells = [
        Cell { x: 2, y: 1, cover: 10, area: 1 },
        Cell { x: 0, y: 1, cover: 20, area: 2 },
        Cell { x: 2, y: 1, cover: 30, area: 3 },
        Cell { x: 5, y: 0, cover: 40, area: 4 },
        Cell { x: 2, y: 1, cover: 50, area: 5 },
    ];
    for c in cells {
        store.add_cell(c);
    }
    store.sort_cells();
    let order: Vec<i64> = store.cells.iter().map(|c| c.cover).collect();
    assert_eq!(order, vec![40, 20, 10, 30, 50]);
    assert_eq!((store.min_x, store.max_x, store.min_y, store.max_y), (0, 5, 0, 1));
}

#[test]
fn store_stops_at_capacity() {
    let mut store = RasterizerCell::new();
    let span = 5_000_000i64 * 256;
    store.line(300, -span / 2, 300, span / 2);
    assert_eq!(store.cells.len(), agg::cell::MAX_CELLS);
    store.reset();
    assert_eq!(store.total_cells(), 0);
}

#[test]
fn alpha_takes_magnitude_before_shift() {
    let ras = RasterizerScanlineAA::new();
    assert_eq!(ras.calculate_alpha(-1), 0);
    assert_eq!(ras.calculate_alpha(1), 0);
    assert_eq!(ras.calculate_alpha(-511), 0);
    assert_eq!(ras.calculate_alpha(-512), 1);
    assert_eq!(ras.calculate_alpha(i64::MIN), 255);
    assert_eq!(ras.calculate_alpha(i64::MAX), 255);
    for a in [-100_000i64, -70_001, -513, 3, 99_999] {
        assert_eq!(ras.calculate_alpha(a), ras.calculate_alpha(-a));
    }
    let mut eo = RasterizerScanlineAA::new();
    eo.filling_rule(FillingRule::EvenOdd);
    assert_eq!(eo.calculate_alpha(-1), 0);
    assert_eq!(eo.calculate_alpha(-(300 << 9)), 212);
}

#[test]
fn sweep_rows_are_not_negative_and_covers_positive() {
    let mut ras = RasterizerScanlineAA::new();
    ras.move_to(-5000, -3000);
    ras.line_to(4000, -2900);
    ras.line_to(300, 2000);
    ras.close_polygon();
    assert!(ras.rewind_scanlines());
    assert_eq!(ras.status, agg::raster::PathStatus::Closed);
    let mut sl = ScanlineU8::new();
    while ras.sweep_scanline(&mut sl) {
        assert!(sl.y >= 0);
        assert!(sl.spans.iter().all(|s| s.covers.iter().all(|&c| c >= 1)));
    }
    assert!(!ras.sweep_scanline(&mut sl));
}

#[test]
fn clipped_cover_sums_to_clamped_height() {
    let box_ = (256 * 10, 256 * 10, 256 * 20, 256 * 20);
    let segments = [
        (256 * 2, 256 * 5, 256 * 30, 256 * 25),
        (256 * 15, 256 * 12, 256 * 40, 256 * 18),
        (256 * 25, 256 * 0, 256 * 5, 256 * 30),
        (256 * 12, 256 * 1, 256 * 18, 256 * 5),
    ];
    let clamp = |y: i64| y.clamp(box_.1, box_.3);
    for (x1, y1, x2, y2) in segments {
        let mut ras = RasterizerScanlineAA::new();
        ras.clip_box(box_.0, box_.1, box_.2, box_.3);
        ras.move_to(x1, y1);
        ras.line_to(x2, y2);
        assert_eq!(cover_sum(&ras.outline.cells), clamp(y2) - clamp(y1), "segment {:?}", (x1, y1, x2, y2));
        assert!(ras.outline.cells.iter().all(|c| c.x >= 10 && c.x <= 20 && c.y >= 10 && c.y < 20));
    }
}
