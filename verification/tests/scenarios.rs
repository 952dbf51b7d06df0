//! End-to-end scenarios through the whole pipeline, and the
//! accounting properties of erasure and coverage on concrete rasters.

use shape_finder::config::Config;
use shape_finder::geometry::{Line, Point};
use shape_finder::junction::classify_points;
use shape_finder::pipeline::{shapes_from_image, ExtractError, Shape};
use shape_finder::raster::{Color, Raster};
use shape_finder::regions::extract_regions;
use shape_finder::scan::{detect_runs, erase_runs};
use shape_finder::split::split_line;

const INK: Color = Color { r: 0, g: 0, b: 0 };

fn ink_raster(width: usize, height: usize, pixels: &[(usize, usize)]) -> Raster {
    let mut img = Raster::new(width, height);
    for &(x, y) in pixels {
        img.set_pixel(x, y, INK);
    }
    img
}

fn lines_of(shapes: &[Shape]) -> Vec<Line> {
    shapes
        .iter()
        .filter_map(|s| match s {
            Shape::Line(l) => Some(*l),
            _ => None,
        })
        .collect()
}

fn points_of(shapes: &[Shape]) -> Vec<(Point, bool)> {
    shapes
        .iter()
        .filter_map(|s| match s {
            Shape::Point(p, f) => Some((*p, *f)),
            _ => None,
        })
        .collect()
}

fn customs_of(shapes: &[Shape]) -> Vec<Vec<(usize, usize)>> {
    shapes
        .iter()
        .filter_map(|s| match s {
            Shape::Custom(c) => Some(c.clone()),
            _ => None,
        })
        .collect()
}

#[test]
fn zero_size_image_is_rejected() {
    let img = Raster::new(0, 5);
    let cfg = Config::default();
    assert_eq!(shapes_from_image(&img, &cfg), Err(ExtractError::InvalidImage));
    let img2 = Raster::new(5, 0);
    assert_eq!(shapes_from_image(&img2, &cfg), Err(ExtractError::InvalidImage));
}

#[test]
fn single_horizontal_run_yields_one_line() {
    // 150 ink pixels on one row, minimum run length 20.
    let pixels: Vec<(usize, usize)> = (20..170).map(|x| (x, 4)).collect();
    let img = ink_raster(200, 10, &pixels);
    let mut cfg = Config::default();
    cfg.min_run_len = 20;
    let shapes = shapes_from_image(&img, &cfg).unwrap();
    let lines = lines_of(&shapes);
    assert_eq!(lines.len(), 1);
    let l = lines[0];
    assert_eq!(l.start.1, l.end.1);
    assert_eq!(l.end.0 - l.start.0, 149);
    assert_eq!(l.thickness, 1);
    assert!(customs_of(&shapes).is_empty());
}

#[test]
fn adjacent_runs_merge_with_summed_thickness() {
    // Two runs on adjacent rows, offset by one pixel at both ends.
    let mut pixels: Vec<(usize, usize)> = (20..170).map(|x| (x, 5)).collect();
    pixels.extend((21..171).map(|x| (x, 4)));
    let img = ink_raster(200, 10, &pixels);
    let mut cfg = Config::default();
    cfg.min_run_len = 20;
    let shapes = shapes_from_image(&img, &cfg).unwrap();
    let lines = lines_of(&shapes);
    assert_eq!(lines.len(), 1);
    let l = lines[0];
    assert_eq!(l.thickness, 2);
    // The merged endpoints are pushed by the inter-row displacement:
    // row 5 is detected first (bottom-up), so its line at geometric
    // y = 5 absorbs the row above and moves away from it.
    assert_eq!(l.start, Point(19, 4));
    assert_eq!(l.end, Point(168, 4));
}

#[test]
fn diagonal_stroke_classifies_as_line() {
    // A 60-pixel 1-pixel-wide diagonal, below the run length, is
    // flood-filled and passes both spread tests.
    let pixels: Vec<(usize, usize)> = (20..80).map(|i| (i, i)).collect();
    let img = ink_raster(100, 100, &pixels);
    let cfg = Config::default();
    let shapes = shapes_from_image(&img, &cfg).unwrap();
    let lines = lines_of(&shapes);
    assert_eq!(lines.len(), 1);
    assert_eq!(lines[0], Line { start: Point(20, 80), end: Point(79, 21), thickness: 1 });
    assert!(customs_of(&shapes).is_empty());
}

#[test]
fn three_lines_meet_at_a_junction() {
    // Three lines through (50, 50); splitting makes every nearest
    // endpoint coincide exactly there, and the point is a junction.
    let l1 = Line { start: Point(0, 50), end: Point(150, 50), thickness: 1 };
    let l2 = Line { start: Point(50, 0), end: Point(50, 150), thickness: 1 };
    let l3 = Line { start: Point(50, 50), end: Point(150, 150), thickness: 1 };
    let cand = vec![l1.start, l1.end, l2.start, l2.end, l3.start, l3.end];
    let mut split = Vec::new();
    split.extend(split_line(&l1, &cand, 5, 3));
    split.extend(split_line(&l2, &cand, 5, 3));
    split.extend(split_line(&l3, &cand, 5, 3));
    assert_eq!(split.len(), 5);
    let j = Point(50, 50);
    let touching = split
        .iter()
        .filter(|l| l.start == j || l.end == j)
        .count();
    assert_eq!(touching, 5);
    let mut eps: Vec<Point> = split.iter().map(|l| l.start).collect();
    eps.extend(split.iter().map(|l| l.end));
    let flags = classify_points(&eps, 20);
    let at_j = flags.iter().find(|(p, _)| *p == j).unwrap();
    // Five coincident endpoints: not a pass-through point.
    assert!(!at_j.1);
}

#[test]
fn irregular_blob_is_returned_raw() {
    // An 80-pixel L-shaped blob with high spread on both axes.
    let mut pixels: Vec<(usize, usize)> = (10..50).map(|x| (x, 90)).collect();
    pixels.extend((50..90).map(|y| (10, y)));
    let img = ink_raster(100, 100, &pixels);
    let cfg = Config::default();
    let shapes = shapes_from_image(&img, &cfg).unwrap();
    assert!(lines_of(&shapes).is_empty());
    assert!(points_of(&shapes).is_empty());
    let customs = customs_of(&shapes);
    assert_eq!(customs.len(), 1);
    let mut got = customs[0].clone();
    got.sort();
    // Stored entries are (x, height - y).
    let mut want: Vec<(usize, usize)> = (10..50usize).map(|x| (x, 10)).collect();
    want.extend((50..90usize).map(|y| (10usize, 100 - y)));
    want.sort();
    assert_eq!(got, want);
}

#[test]
fn undersized_and_oversized_regions_are_dropped() {
    // Exactly 50 pixels: not strictly above the minimum, dropped.
    let small: Vec<(usize, usize)> = (10..60).map(|i| (i, i)).collect();
    let img = ink_raster(100, 100, &small);
    let cfg = Config::default();
    let shapes = shapes_from_image(&img, &cfg).unwrap();
    assert!(shapes.is_empty());
    // A 20x10 filled block is 200 pixels: not strictly below the
    // maximum, dropped as an implausible artifact.
    let mut big: Vec<(usize, usize)> = vec![];
    for x in 5..25 {
        for y in 5..15 {
            big.push((x, y));
        }
    }
    let img2 = ink_raster(100, 100, &big);
    let shapes2 = shapes_from_image(&img2, &cfg).unwrap();
    assert!(shapes2.is_empty());
}

#[test]
fn erasure_is_idempotent_on_concrete_raster() {
    // A long run plus a diagonal; after the run is erased, no flood
    // region may contain any pixel of the run.
    let mut pixels: Vec<(usize, usize)> = (0..249).map(|x| (x, 10)).collect();
    pixels.extend((12..23).map(|i| (i, i)));
    let mut img = ink_raster(300, 30, &pixels);
    let runs = detect_runs(&img, 200, 200);
    assert_eq!(runs.len(), 1);
    erase_runs(&mut img, &runs);
    let regions = extract_regions(&mut img, 200);
    for region in &regions {
        for &(x, sy) in region {
            let y = 30 - sy;
            let in_run = runs
                .iter()
                .any(|r| r.row == y && r.x0 <= x && x <= r.x1);
            assert!(!in_run);
        }
    }
}

#[test]
fn every_ink_pixel_is_accounted_for() {
    // Coverage: run pixels plus region pixels equal the original ink.
    let mut pixels: Vec<(usize, usize)> = (0..249).map(|x| (x, 10)).collect();
    pixels.extend((12..23).map(|i| (i, i)));
    let total_ink = pixels.len();
    let mut img = ink_raster(300, 30, &pixels);
    let runs = detect_runs(&img, 200, 200);
    erase_runs(&mut img, &runs);
    let regions = extract_regions(&mut img, 200);
    let run_pixels: usize = runs.iter().map(|r| r.x1 - r.x0 + 1).sum();
    let region_pixels: usize = regions.iter().map(|r| r.len()).sum();
    assert_eq!(run_pixels + region_pixels, total_ink);
    // And nothing is detected twice: the raster is fully consumed.
    for x in 0..300 {
        for y in 0..30 {
            let c = img.get(x, y);
            assert_eq!((c.r, c.g, c.b), (255, 255, 255));
        }
    }
}

#[test]
fn splitting_never_leaves_a_point_inside() {
    // Splitting correctness on values: each kept point ends up as an
    // endpoint, never strictly inside a sub-line.
    let line = Line { start: Point(0, 0), end: Point(100, 0), thickness: 1 };
    let pts = vec![Point(25, 1), Point(75, 2)];
    let subs = split_line(&line, &pts, 5, 3);
    assert_eq!(subs.len(), 3);
    for p in &pts {
        for l in &subs {
            let strictly_inside = l.start.0 < p.0 && p.0 < l.end.0;
            assert!(!strictly_inside);
        }
    }
    assert_eq!(subs[0], Line { start: Point(0, 0), end: Point(25, 1), thickness: 1 });
    assert_eq!(subs[1], Line { start: Point(25, 1), end: Point(75, 2), thickness: 1 });
    assert_eq!(subs[2], Line { start: Point(75, 2), end: Point(100, 0), thickness: 1 });
}
