//! Stage-level tests: geometry arithmetic, run detection and erasure,
//! flood fill, classification, splitting, and junction counting.

use shape_finder::classify::classify_region;
use shape_finder::config::Config;
use shape_finder::geometry::{isqrt_u128, Line, Point};
use shape_finder::junction::classify_points;
use shape_finder::merge::merge_lines;
use shape_finder::raster::{Color, Raster};
use shape_finder::regions::extract_regions;
use shape_finder::scan::{detect_runs, erase_runs, Run};
use shape_finder::split::split_line;

const INK: Color = Color { r: 0, g: 0, b: 0 };

fn ink_raster(width: usize, height: usize, pixels: &[(usize, usize)]) -> Raster {
    let mut img = Raster::new(width, height);
    for &(x, y) in pixels {
        img.set_pixel(x, y, INK);
    }
    img
}

#[test]
fn isqrt_exact_values() {
    assert_eq!(isqrt_u128(0), 0);
    assert_eq!(isqrt_u128(1), 1);
    assert_eq!(isqrt_u128(15), 3);
    assert_eq!(isqrt_u128(16), 4);
    assert_eq!(isqrt_u128(u64::MAX as u128), 0xFFFF_FFFF);
}

#[test]
fn distance_three_four_five() {
    let a = Point(0, 0);
    let b = Point(3, 4);
    assert_eq!(a.distance_sq(&b), 25);
    assert_eq!(a.distance(&b), 5);
    assert_eq!(b.distance(&a), 5);
}

#[test]
fn segment_distance_clamped_projection() {
    let l = Line { start: Point(0, 0), end: Point(10, 0), thickness: 1 };
    // Perpendicular foot inside the segment.
    assert_eq!(l.distance_to_point(&Point(5, 3)), 3);
    // Before the start: distance to the start point.
    assert_eq!(l.distance_to_point(&Point(-4, 3)), 5);
    // Past the end: distance to the end point.
    assert_eq!(l.distance_to_point(&Point(14, 3)), 5);
    // Degenerate segment: distance to its single point.
    let d = Line { start: Point(2, 2), end: Point(2, 2), thickness: 1 };
    assert_eq!(d.distance_to_point(&Point(5, 6)), 5);
}

#[test]
fn similarity_and_merge_formulas() {
    let a = Line { start: Point(0, 0), end: Point(10, 0), thickness: 1 };
    let b = Line { start: Point(1, 1), end: Point(11, 1), thickness: 1 };
    // Each endpoint pair is sqrt(2) apart; the floor is 1.
    assert_eq!(a.similarity_to(&b), 1 + 1 - 1 - 1);
    let m = a.merge_with(&b);
    assert_eq!(m.start, Point(-1, -1));
    assert_eq!(m.end, Point(9, -1));
    assert_eq!(m.thickness, 2);
}

#[test]
fn config_defaults() {
    let cfg = Config::default();
    assert_eq!(cfg.ink_threshold, 200);
    assert_eq!(cfg.min_run_len, 200);
    assert_eq!(cfg.merge_tolerance, 20);
    assert_eq!(cfg.min_region_size, 50);
    assert_eq!(cfg.max_region_size, 200);
    assert_eq!(cfg.y_spread_tolerance, 3);
    assert_eq!(cfg.x_spread_tolerance, 4);
    assert_eq!(cfg.split_distance_tolerance, 5);
    assert_eq!(cfg.min_separation, 3);
    assert_eq!(cfg.junction_tolerance, 20);
}

#[test]
fn detects_single_run() {
    let pixels: Vec<(usize, usize)> = (3..=12).map(|x| (x, 2)).collect();
    let img = ink_raster(30, 5, &pixels);
    let runs = detect_runs(&img, 200, 5);
    assert_eq!(runs.len(), 1);
    assert_eq!(runs[0], Run { row: 2, x0: 3, x1: 12 });
}

#[test]
fn short_runs_are_noise() {
    let pixels: Vec<(usize, usize)> = (3..=6).map(|x| (x, 2)).collect();
    let img = ink_raster(30, 5, &pixels);
    let runs = detect_runs(&img, 200, 5);
    assert!(runs.is_empty());
}

#[test]
fn run_touching_right_edge_is_dropped() {
    let pixels: Vec<(usize, usize)> = (20..30).map(|x| (x, 2)).collect();
    let img = ink_raster(30, 5, &pixels);
    let runs = detect_runs(&img, 200, 5);
    assert!(runs.is_empty());
}

#[test]
fn runs_detected_bottom_up() {
    let mut pixels: Vec<(usize, usize)> = (0..10).map(|x| (x, 1)).collect();
    pixels.extend((0..10).map(|x| (x, 3)));
    let img = ink_raster(20, 5, &pixels);
    let runs = detect_runs(&img, 200, 5);
    assert_eq!(runs.len(), 2);
    assert_eq!(runs[0].row, 3);
    assert_eq!(runs[1].row, 1);
}

#[test]
fn erasure_clears_whole_run() {
    let pixels: Vec<(usize, usize)> = (3..=12).map(|x| (x, 2)).collect();
    let mut img = ink_raster(30, 5, &pixels);
    let runs = detect_runs(&img, 200, 5);
    erase_runs(&mut img, &runs);
    for x in 0..30 {
        for y in 0..5 {
            let c = img.get(x, y);
            assert_eq!((c.r, c.g, c.b), (255, 255, 255));
        }
    }
}

#[test]
fn merge_is_greedy_and_sequential() {
    let a = Line { start: Point(20, 5), end: Point(169, 5), thickness: 1 };
    let b = Line { start: Point(21, 6), end: Point(170, 6), thickness: 1 };
    let far = Line { start: Point(20, 90), end: Point(169, 90), thickness: 1 };
    let merged = merge_lines(&vec![a, b, far], 20);
    assert_eq!(merged.len(), 2);
    assert_eq!(merged[0], Line { start: Point(19, 4), end: Point(168, 4), thickness: 2 });
    assert_eq!(merged[1], far);
}

#[test]
fn flood_fill_collects_whole_component() {
    // Two separate blobs: a 3x3 square and a lone pixel.
    let mut pixels: Vec<(usize, usize)> = vec![];
    for x in 2..5 {
        for y in 2..5 {
            pixels.push((x, y));
        }
    }
    pixels.push((10, 10));
    let mut img = ink_raster(20, 20, &pixels);
    let regions = extract_regions(&mut img, 200);
    assert_eq!(regions.len(), 2);
    assert_eq!(regions[0].len(), 9);
    assert_eq!(regions[1].len(), 1);
    // Stored coordinates are (x, height - y).
    let mut got: Vec<(usize, usize)> = regions[0].clone();
    got.sort();
    let mut want: Vec<(usize, usize)> = (2..5usize)
        .flat_map(|x| (2..5usize).map(move |y| (x, 20 - y)))
        .collect();
    want.sort();
    assert_eq!(got, want);
}

#[test]
fn classifier_line_from_thick_diagonal() {
    // A diagonal two pixels thick: per-row counts 1..2, per-column 2.
    let mut region: Vec<(usize, usize)> = vec![];
    for i in 0..10 {
        region.push((i, i));
        region.push((i, i + 1));
    }
    let res = classify_region(&region, 3, 4);
    let line = res.expect("a straight region should classify as a line");
    assert_eq!(line.start, Point(0, 10));
    assert_eq!(line.end, Point(9, 0));
    assert_eq!(line.thickness, 2);
}

#[test]
fn classifier_rejects_high_variance() {
    // An L: one full row of 12 plus a column of single pixels.
    let mut region: Vec<(usize, usize)> = (0..12).map(|x| (x, 0)).collect();
    region.extend((1..10).map(|y| (0, y)));
    assert_eq!(classify_region(&region, 3, 4), None);
}

#[test]
fn classifier_rejects_empty_region() {
    assert_eq!(classify_region(&vec![], 3, 4), None);
}

#[test]
fn split_cuts_at_interior_point() {
    let line = Line { start: Point(0, 50), end: Point(150, 50), thickness: 1 };
    let pts = vec![Point(50, 50)];
    let subs = split_line(&line, &pts, 5, 3);
    assert_eq!(subs.len(), 2);
    assert_eq!(subs[0], Line { start: Point(0, 50), end: Point(50, 50), thickness: 1 });
    assert_eq!(subs[1], Line { start: Point(50, 50), end: Point(150, 50), thickness: 1 });
}

#[test]
fn split_collapses_near_duplicates() {
    let line = Line { start: Point(0, 0), end: Point(100, 0), thickness: 4 };
    // Two pixels from the start: closer than the separation of 3.
    let pts = vec![Point(2, 0), Point(40, 0)];
    let subs = split_line(&line, &pts, 5, 3);
    assert_eq!(subs.len(), 2);
    assert_eq!(subs[0], Line { start: Point(2, 0), end: Point(40, 0), thickness: 4 });
    assert_eq!(subs[1], Line { start: Point(40, 0), end: Point(100, 0), thickness: 4 });
}

#[test]
fn split_ignores_far_points() {
    let line = Line { start: Point(0, 0), end: Point(100, 0), thickness: 1 };
    let pts = vec![Point(50, 40)];
    let subs = split_line(&line, &pts, 5, 3);
    assert_eq!(subs.len(), 1);
    assert_eq!(subs[0], line);
}

#[test]
fn junction_counts_are_symmetric() {
    // Two points within the tolerance of each other: each counts the
    // other plus itself, so both are pass-through.
    let pts = vec![Point(0, 0), Point(5, 5)];
    let out = classify_points(&pts, 20);
    assert_eq!(out.len(), 2);
    assert!(out[0].1);
    assert!(out[1].1);
}

#[test]
fn junction_isolated_point_is_terminal() {
    let pts = vec![Point(0, 0), Point(500, 500)];
    let out = classify_points(&pts, 20);
    assert_eq!(out.len(), 2);
    assert!(!out[0].1);
    assert!(!out[1].1);
}

#[test]
fn junction_deduplicates_equal_points() {
    let pts = vec![Point(7, 7), Point(7, 7), Point(7, 7)];
    let out = classify_points(&pts, 20);
    assert_eq!(out.len(), 1);
    assert_eq!(out[0].0, Point(7, 7));
    // Three coincident endpoints: count 3, not a pass-through.
    assert!(!out[0].1);
}
