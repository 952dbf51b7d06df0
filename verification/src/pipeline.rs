//! The whole extraction engine, stages one through six in sequence.
//!
//! One call takes a raster image and returns the extracted shapes:
//! the split lines, one classified point per distinct line endpoint,
//! and the residual pixel regions the classifier could not resolve.
//! The input image is never touched; the engine works on a private
//! copy that it consumes as its visited marker.

use vstd::prelude::*;
use crate::classify::{classify_region, region_is_line, region_line};
use crate::config::Config;
use crate::geometry::{pt_bounded, Line, Point};
use crate::junction::{classify_points, junction_post};
use crate::merge::{merge_greedy, merge_lines, merged_line_ok, seed_line};
use crate::raster::{white, Raster};
use crate::regions::{any_covers, extract_regions, good_region, region_covers};
use crate::scan::{
    covered, detect_runs, erase_runs, is_closed_run, run_covers, run_len, run_line, run_order,
    runs_to_lines, Run,
};
use crate::split::{split_line, split_post};

verus! {

/// Everything the engine can return.
#[derive(Clone, Debug, PartialEq)]
pub enum Shape {
    /// A straight stroke.
    Line(Line),
    /// A line endpoint; the flag is true for a pass-through point
    /// (exactly two neighbours), false for a junction or terminal.
    Point(Point, bool),
    /// A residual pixel region the classifier could not resolve.
    Custom(Vec<(usize, usize)>),
}

/// The one unrecoverable input error.
#[derive(Clone, Copy, Debug, PartialEq, Eq, Structural)]
pub enum ExtractError {
    /// The image has zero width or zero height.
    InvalidImage,
}

/// The lines the detected runs stand for, in detection order.
pub open spec fn runs_lines(runs: Seq<Run>, height: int) -> Seq<Line> {
    Seq::new(runs.len(), |i: int| run_line(runs[i], height))
}

/// The region passes the size gate: big enough to be structure,
/// small enough to be plausible.
pub open spec fn region_sized(cfg: Config, region: Seq<(usize, usize)>) -> bool {
    cfg.min_region_size < region.len() < cfg.max_region_size
}

/// The lines that the classifier extracts from the sized regions, in
/// region order.
pub open spec fn classified_lines(regions: Seq<Vec<(usize, usize)>>, cfg: Config) -> Seq<Line>
    decreases regions.len(),
{
    if regions.len() == 0 {
        Seq::empty()
    } else {
        classified_lines(regions.drop_last(), cfg) + (if region_sized(cfg, regions.last()@)
            && region_is_line(
            regions.last()@,
            cfg.y_spread_tolerance as int,
            cfg.x_spread_tolerance as int,
        ) {
            seq![region_line(regions.last()@)]
        } else {
            Seq::empty()
        })
    }
}

/// The sized regions the classifier rejects, kept as raw regions, in
/// region order.
pub open spec fn customs_of(regions: Seq<Vec<(usize, usize)>>, cfg: Config) -> Seq<
    Vec<(usize, usize)>,
>
    decreases regions.len(),
{
    if regions.len() == 0 {
        Seq::empty()
    } else {
        customs_of(regions.drop_last(), cfg) + (if region_sized(cfg, regions.last()@)
            && !region_is_line(
            regions.last()@,
            cfg.y_spread_tolerance as int,
            cfg.x_spread_tolerance as int,
        ) {
            seq![regions.last()]
        } else {
            Seq::empty()
        })
    }
}

/// Both endpoints of every line, in line order.
pub open spec fn endpoints_of(lines: Seq<Line>) -> Seq<Point>
    decreases lines.len(),
{
    if lines.len() == 0 {
        Seq::empty()
    } else {
        endpoints_of(lines.drop_last()) + seq![lines.last().start, lines.last().end]
    }
}

/// All start points, then all end points.
pub open spec fn starts_then_ends(lines: Seq<Line>) -> Seq<Point> {
    Seq::new(lines.len(), |i: int| lines[i].start) + Seq::new(
        lines.len(),
        |i: int| lines[i].end,
    )
}

/// The concatenation of the per-line splitter outputs.
pub open spec fn flat(parts: Seq<Seq<Line>>) -> Seq<Line>
    decreases parts.len(),
{
    if parts.len() == 0 {
        Seq::empty()
    } else {
        flat(parts.drop_last()) + parts.last()
    }
}

/// What stages one and two leave behind: the runs are exactly the
/// long closed ink runs of the input, in emission order, and the
/// working raster is the input with exactly the run pixels erased.
pub open spec fn scan_stage_post(img: Raster, cfg: Config, runs: Seq<Run>, work: Raster) -> bool {
    &&& forall|i: int|
        0 <= i < runs.len() ==> is_closed_run(img, cfg.ink_threshold, #[trigger] runs[i])
            && run_len(runs[i]) >= cfg.min_run_len
    &&& forall|r: Run|
        is_closed_run(img, cfg.ink_threshold, r) && run_len(r) >= cfg.min_run_len
            ==> runs.contains(r)
    &&& forall|i: int, j: int| 0 <= i < j < runs.len() ==> run_order(runs[i], runs[j])
    &&& work.wf()
    &&& work.width == img.width
    &&& work.height == img.height
    &&& forall|x: int, y: int|
        work.valid_xy(x, y) ==> work.color_at(x, y) == (if covered(runs, x, y) {
            white()
        } else {
            img.color_at(x, y)
        })
}

/// What stage three leaves behind: pairwise disjoint maximal
/// connected components that together cover exactly the ink of the
/// post-erasure working raster.
pub open spec fn extract_stage_post(work: Raster, thr: u8, regions: Seq<Vec<(usize, usize)>>) -> bool {
    &&& forall|k: int| 0 <= k < regions.len() ==> good_region(work, (#[trigger] regions[k])@, thr)
    &&& forall|k1: int, k2: int, x: int, y: int|
        0 <= k1 < k2 < regions.len() && #[trigger] region_covers(
            regions[k1]@,
            work.height as int,
            x,
            y,
        ) ==> !(#[trigger] region_covers(regions[k2]@, work.height as int, x, y))
    &&& forall|x: int, y: int|
        work.valid_xy(x, y) ==> (work.ink_at(x, y, thr) <==> any_covers(
            regions,
            work.height as int,
            x,
            y,
        ))
}

/// The assembled output: the split lines first, then one classified
/// point per distinct endpoint, then the raw regions.
pub open spec fn assembled(
    shapes: Seq<Shape>,
    all_split: Seq<Line>,
    pts_out: Seq<(Point, bool)>,
    customs: Seq<Vec<(usize, usize)>>,
) -> bool {
    &&& shapes.len() == all_split.len() + pts_out.len() + customs.len()
    &&& forall|i: int|
        0 <= i < all_split.len() ==> #[trigger] shapes[i] == Shape::Line(all_split[i])
    &&& forall|i: int|
        0 <= i < pts_out.len() ==> #[trigger] shapes[all_split.len() + i] == Shape::Point(
            pts_out[i].0,
            pts_out[i].1,
        )
    &&& forall|i: int|
        0 <= i < customs.len() ==> #[trigger] shapes[all_split.len() + pts_out.len() + i]
            == Shape::Custom(customs[i])
}

/// Stages five and six on a given base line set, plus assembly.
pub open spec fn tail_post(
    cfg: Config,
    base: Seq<Line>,
    customs: Seq<Vec<(usize, usize)>>,
    shapes: Seq<Shape>,
) -> bool {
    exists|parts: Seq<Seq<Line>>|
        (#[trigger] parts.len()) == base.len() && (forall|k: int|
            0 <= k < base.len() ==> split_post(
                base[k],
                endpoints_of(base),
                cfg.split_distance_tolerance as int,
                cfg.min_separation as int,
                #[trigger] parts[k],
            )) && (exists|pts_out: Seq<(Point, bool)>|
            #[trigger] junction_post(
                starts_then_ends(flat(parts)),
                cfg.junction_tolerance as int,
                pts_out,
            ) && assembled(shapes, flat(parts), pts_out, customs))
}

/// Stages three and four onward.
pub open spec fn residue_post(
    img: Raster,
    cfg: Config,
    runs: Seq<Run>,
    work: Raster,
    shapes: Seq<Shape>,
) -> bool {
    exists|regions: Seq<Vec<(usize, usize)>>|
        #[trigger] extract_stage_post(work, cfg.ink_threshold, regions) && tail_post(
            cfg,
            merge_greedy(runs_lines(runs, img.height as int), cfg.merge_tolerance as int)
                + classified_lines(regions, cfg),
            customs_of(regions, cfg),
            shapes,
        )
}

/// The whole engine's promise for a successful extraction.
pub open spec fn pipeline_post(img: Raster, cfg: Config, shapes: Seq<Shape>) -> bool {
    exists|runs: Seq<Run>, work: Raster|
        #[trigger] scan_stage_post(img, cfg, runs, work) && residue_post(
            img,
            cfg,
            runs,
            work,
            shapes,
        )
}

/// The bounds every base line (merged stroke or classified region
/// line) satisfies before splitting.
pub open spec fn base_line_ok(l: Line) -> bool {
    &&& -0x1000_0000 <= l.start.0 <= 0x1000_0000
    &&& -0x1000_0000 <= l.start.1 <= 0x1000_0000
    &&& -0x1000_0000 <= l.end.0 <= 0x1000_0000
    &&& -0x1000_0000 <= l.end.1 <= 0x1000_0000
    &&& 1 <= l.thickness <= 0x1000_0000
}

/// Run the whole pipeline on one raster image.
///
/// Fails exactly on a zero-width or zero-height image; otherwise the
/// returned shapes satisfy [`pipeline_post`]: the detected runs are
/// exactly the long closed ink runs, merged greedily; the residue is
/// flood-filled into maximal disjoint components covering exactly the
/// remaining ink; sized components become lines or raw regions; every
/// line is split at nearby kept points; and each distinct endpoint is
/// classified by its neighbour count.
/// Stages one through four: detect and erase runs, merge them, flood
/// the residue, and classify each sized region.  Returns the base
/// line set, the raw regions, and the stage witnesses.
#[verifier::rlimit(100)]
fn front_stages(img: &Raster, cfg: &Config) -> (r: (
    Vec<Line>,
    Vec<Vec<(usize, usize)>>,
    Ghost<Seq<Run>>,
    Ghost<Raster>,
    Ghost<Seq<Vec<(usize, usize)>>>,
))
    requires
        img.wf(),
        cfg.valid(),
        img.width > 0,
        img.height > 0,
    ensures
        ({
            let (base, customs, runs, work1, regions0) = r;
            &&& scan_stage_post(*img, *cfg, runs@, work1@)
            &&& extract_stage_post(work1@, cfg.ink_threshold, regions0@)
            &&& base@ == merge_greedy(
                runs_lines(runs@, img.height as int),
                cfg.merge_tolerance as int,
            ) + classified_lines(regions0@, *cfg)
            &&& customs@ == customs_of(regions0@, *cfg)
            &&& forall|i: int| 0 <= i < base@.len() ==> base_line_ok(#[trigger] base@[i])
        }),
{
    let thr = cfg.ink_threshold;
    let mut work = img.duplicate();
    let ghost copy0 = work;
    let runs = detect_runs(img, thr, cfg.min_run_len);
    proof {
        assert forall|i: int|
            0 <= i < runs.len() implies (#[trigger] runs[i]).row < work.height && runs[i].x0
            <= runs[i].x1 && runs[i].x1 < work.width by {
            assert(is_closed_run(*img, thr, runs[i]));
        }
    }
    erase_runs(&mut work, &runs);
    let ghost work1 = work;
    proof {
        lemma_scan_bridge(*img, *cfg, runs@, copy0, work1);
    }
    let rl = runs_to_lines(&runs, img.height);
    proof {
        assert(rl@ =~= runs_lines(runs@, img.height as int));
        lemma_seed_lines(*img, thr, runs@, rl@);
        crate::raster::lemma_area_bound(img.width as int, img.height as int);
    }
    let merged = merge_lines(&rl, cfg.merge_tolerance);
    let ghost merged0 = merged@;
    let mut regions = extract_regions(&mut work, thr);
    let ghost regions0 = regions@;
    let nregions = regions.len();
    proof {
        assert(regions0.len() == nregions);
        assert(extract_stage_post(work1, thr, regions0));
    }
    // Stage four: size-gate and classify each region.
    let (mut lines2, customs) = classify_stage(regions, cfg, Ghost(work1));
    let mut base: Vec<Line> = merged;
    base.append(&mut lines2);
    proof {
        assert forall|i: int| 0 <= i < base@.len() implies base_line_ok(
            #[trigger] base@[i],
        ) by {
            if i < merged0.len() {
                assert(merged_line_ok(merged0[i]));
            }
        }
    }
    (base, customs, Ghost(runs@), Ghost(work1), Ghost(regions0))
}

/// Run the whole pipeline on one raster image.
///
/// Fails exactly on a zero-width or zero-height image; otherwise the
/// returned shapes satisfy [`pipeline_post`]: the detected runs are
/// exactly the long closed ink runs, merged greedily; the residue is
/// flood-filled into maximal disjoint components covering exactly the
/// remaining ink; sized components become lines or raw regions; every
/// line is split at nearby kept points; and each distinct endpoint is
/// classified by its neighbour count.
#[verifier::rlimit(100)]
pub fn shapes_from_image(img: &Raster, cfg: &Config) -> (res: Result<Vec<Shape>, ExtractError>)
    requires
        img.wf(),
        cfg.valid(),
    ensures
        match res {
            Ok(shapes) => img.width > 0 && img.height > 0 && pipeline_post(
                *img,
                *cfg,
                shapes@,
            ),
            Err(e) => (img.width == 0 || img.height == 0) && e == ExtractError::InvalidImage,
        },
{
    if img.width == 0 || img.height == 0 {
        return Err(ExtractError::InvalidImage);
    }
    let (base, customs, runs, work1, regions0) = front_stages(img, cfg);
    let ghost merged0 = merge_greedy(
        runs_lines(runs@, img.height as int),
        cfg.merge_tolerance as int,
    );
    let ghost base0 = base@;
    let ghost customs0 = customs@;
    // Stage five, step A: gather every line's endpoints.
    let cand = collect_endpoints(&base);
    // Stage five, steps B and C: split every line at kept points.
    let mut all_split: Vec<Line> = Vec::new();
    let ghost mut parts: Seq<Seq<Line>> = Seq::empty();
    let mut i2: usize = 0;
    while i2 < base.len()
        invariant
            cfg.valid(),
            base@ == base0,
            cand@ == endpoints_of(base0),
            forall|k: int| 0 <= k < base.len() ==> base_line_ok(#[trigger] base[k]),
            forall|k: int| 0 <= k < cand.len() ==> pt_bounded(#[trigger] cand[k]),
            i2 <= base.len(),
            parts.len() == i2,
            forall|k: int|
                0 <= k < i2 ==> split_post(
                    base0[k],
                    endpoints_of(base0),
                    cfg.split_distance_tolerance as int,
                    cfg.min_separation as int,
                    #[trigger] parts[k],
                ),
            all_split@ == flat(parts),
            forall|k: int|
                0 <= k < all_split.len() ==> pt_bounded((#[trigger] all_split[k]).start)
                    && pt_bounded(all_split[k].end),
        decreases base.len() - i2,
    {
        let mut subs = split_line(
            &base[i2],
            &cand,
            cfg.split_distance_tolerance,
            cfg.min_separation,
        );
        let ghost old_parts = parts;
        proof {
            parts = parts.push(subs@);
            assert(parts.drop_last() =~= old_parts);
            assert(parts.last() == subs@);
            assert(flat(parts) == flat(old_parts) + subs@);
        }
        all_split.append(&mut subs);
        i2 = i2 + 1;
    }
    // Stage six: classify the endpoint multiset of the split lines.
    let ghost split0 = all_split@;
    let eps = endpoint_multiset(&all_split);
    let flags = classify_points(&eps, cfg.junction_tolerance);
    let ghost flags0 = flags@;
    // Assemble the output: lines, then points, then raw regions.
    let shapes = assemble_shapes(all_split, flags, customs);
    proof {
        lemma_pipeline_assemble(
            *img,
            *cfg,
            runs@,
            work1@,
            regions0@,
            merged0,
            base0,
            customs0,
            parts,
            split0,
            flags0,
            shapes@,
        );
    }
    Ok(shapes)
}

/// Stage four over the whole region list: keep each sized region as
/// a line when the classifier accepts it, as a raw region otherwise.
fn classify_stage(
    regions: Vec<Vec<(usize, usize)>>,
    cfg: &Config,
    Ghost(work1): Ghost<Raster>,
) -> (r: (Vec<Line>, Vec<Vec<(usize, usize)>>))
    requires
        cfg.valid(),
        work1.wf(),
        forall|k: int|
            0 <= k < regions@.len() ==> good_region(
                work1,
                (#[trigger] regions@[k])@,
                cfg.ink_threshold,
            ),
    ensures
        r.0@ == classified_lines(regions@, *cfg),
        r.1@ == customs_of(regions@, *cfg),
        forall|i: int| 0 <= i < r.0@.len() ==> base_line_ok(#[trigger] r.0@[i]),
{
    let thr = cfg.ink_threshold;
    let ghost regions0 = regions@;
    let mut regions = regions;
    let nregions = regions.len();
    proof {
        assert(regions0.len() == nregions);
    }
    let mut lines2: Vec<Line> = Vec::new();
    let mut customs: Vec<Vec<(usize, usize)>> = Vec::new();
    let mut consumed: usize = 0;
    while regions.len() > 0
        invariant
            cfg.valid(),
            work1.wf(),
            forall|k: int|
                0 <= k < regions0.len() ==> good_region(work1, (#[trigger] regions0[k])@, thr),
            thr == cfg.ink_threshold,
            regions0.len() <= usize::MAX,
            consumed + regions@.len() == regions0.len(),
            regions@ =~= regions0.skip(consumed as int),
            lines2@ == classified_lines(regions0.take(consumed as int), *cfg),
            customs@ == customs_of(regions0.take(consumed as int), *cfg),
            forall|i: int| 0 <= i < lines2.len() ==> base_line_ok(#[trigger] lines2[i]),
        decreases regions.len(),
    {
        let ghost c0 = consumed as int;
        let region = regions.remove(0);
        proof {
            assert(region == regions0.skip(c0)[0]);
            assert(region == regions0[c0]);
            assert(regions@ =~= regions0.skip(c0 + 1));
            assert(good_region(work1, regions0[c0]@, thr));
            assert forall|i: int|
                0 <= i < region@.len() implies (#[trigger] region@[i]).0 <= 0x2000
                && region@[i].1 <= 0x2000 by {
                assert(region@[i].0 < work1.width);
            }
        }
        if cfg.min_region_size < region.len() && region.len() < cfg.max_region_size {
            let lopt = classify_region(&region, cfg.y_spread_tolerance, cfg.x_spread_tolerance);
            match lopt {
                Some(l) => {
                    lines2.push(l);
                },
                None => {
                    customs.push(region);
                },
            }
        }
        consumed = consumed + 1;
        proof {
            assert(regions0.take(c0 + 1).drop_last() =~= regions0.take(c0));
            assert(regions0.take(c0 + 1).last() == regions0[c0]);
        }
    }
    proof {
        assert(regions0.take(regions0.len() as int) =~= regions0);
    }
    (lines2, customs)
}

/// Stage five, step A: both endpoints of every line, in line order.
fn collect_endpoints(lines: &Vec<Line>) -> (cand: Vec<Point>)
    requires
        forall|k: int| 0 <= k < lines.len() ==> base_line_ok(#[trigger] lines[k]),
    ensures
        cand@ == endpoints_of(lines@),
        forall|k: int| 0 <= k < cand.len() ==> pt_bounded(#[trigger] cand[k]),
{
    let mut cand: Vec<Point> = Vec::new();
    let mut i: usize = 0;
    while i < lines.len()
        invariant
            i <= lines.len(),
            forall|k: int| 0 <= k < lines.len() ==> base_line_ok(#[trigger] lines[k]),
            cand@ == endpoints_of(lines@.take(i as int)),
            forall|k: int| 0 <= k < cand.len() ==> pt_bounded(#[trigger] cand[k]),
        decreases lines.len() - i,
    {
        let l = lines[i];
        cand.push(l.start);
        cand.push(l.end);
        proof {
            assert(lines@.take(i + 1).drop_last() =~= lines@.take(i as int));
            assert(lines@.take(i + 1).last() == lines@[i as int]);
            assert(cand@ =~= endpoints_of(lines@.take(i as int)) + seq![l.start, l.end]);
        }
        i = i + 1;
    }
    proof {
        assert(lines@.take(lines@.len() as int) =~= lines@);
    }
    cand
}

/// Stage six input: all start points, then all end points.
fn endpoint_multiset(lines: &Vec<Line>) -> (eps: Vec<Point>)
    requires
        forall|k: int|
            0 <= k < lines.len() ==> pt_bounded((#[trigger] lines[k]).start) && pt_bounded(
                lines[k].end),
    ensures
        eps@ == starts_then_ends(lines@),
        forall|k: int| 0 <= k < eps.len() ==> pt_bounded(#[trigger] eps[k]),
{
    let ghost split0 = lines@;
    let mut eps: Vec<Point> = Vec::new();
    let mut i3: usize = 0;
    while i3 < lines.len()
        invariant
            lines@ == split0,
            i3 <= lines.len(),
            forall|k: int|
                0 <= k < lines.len() ==> pt_bounded((#[trigger] lines[k]).start) && pt_bounded(
                    lines[k].end),
            eps@ =~= Seq::new(i3 as nat, |j: int| split0[j].start),
        decreases lines.len() - i3,
    {
        eps.push(lines[i3].start);
        proof {
            assert(eps@ =~= Seq::new((i3 + 1) as nat, |j: int| split0[j].start));
        }
        i3 = i3 + 1;
    }
    let mut i4: usize = 0;
    while i4 < lines.len()
        invariant
            lines@ == split0,
            i4 <= lines.len(),
            forall|k: int|
                0 <= k < lines.len() ==> pt_bounded((#[trigger] lines[k]).start) && pt_bounded(
                    lines[k].end),
            eps@ =~= Seq::new(split0.len(), |j: int| split0[j].start) + Seq::new(
                i4 as nat,
                |j: int| split0[j].end,
            ),
        decreases lines.len() - i4,
    {
        eps.push(lines[i4].end);
        proof {
            assert(eps@ =~= Seq::new(split0.len(), |j: int| split0[j].start) + Seq::new(
                (i4 + 1) as nat,
                |j: int| split0[j].end,
            ));
        }
        i4 = i4 + 1;
    }
    proof {
        assert(eps@ =~= starts_then_ends(split0));
        assert forall|k: int| 0 <= k < eps@.len() implies pt_bounded(#[trigger] eps@[k]) by {
            if k < split0.len() {
                assert(eps@[k] == split0[k].start);
            } else {
                assert(eps@[k] == split0[k - split0.len()].end);
            }
        }
    }
    eps
}

/// Final assembly: the split lines, then the classified points, then
/// the raw regions, in that order.
fn assemble_shapes(
    all_split: Vec<Line>,
    flags: Vec<(Point, bool)>,
    customs: Vec<Vec<(usize, usize)>>,
) -> (shapes: Vec<Shape>)
    ensures
        assembled(shapes@, all_split@, flags@, customs@),
{
    let ghost split0 = all_split@;
    let ghost flags0 = flags@;
    let ghost customs0 = customs@;
    let mut customs = customs;
    let mut shapes: Vec<Shape> = Vec::new();
    let mut i5: usize = 0;
    while i5 < all_split.len()
        invariant
            all_split@ == split0,
            i5 <= all_split.len(),
            shapes@.len() == i5,
            forall|k: int| 0 <= k < i5 ==> #[trigger] shapes@[k] == Shape::Line(split0[k]),
        decreases all_split.len() - i5,
    {
        shapes.push(Shape::Line(all_split[i5]));
        i5 = i5 + 1;
    }
    let mut i6: usize = 0;
    while i6 < flags.len()
        invariant
            flags@ == flags0,
            i6 <= flags.len(),
            shapes@.len() == split0.len() + i6,
            forall|k: int|
                0 <= k < split0.len() ==> #[trigger] shapes@[k] == Shape::Line(split0[k]),
            forall|k: int|
                0 <= k < i6 ==> #[trigger] shapes@[split0.len() + k] == Shape::Point(
                    flags0[k].0,
                    flags0[k].1,
                ),
        decreases flags.len() - i6,
    {
        let f = flags[i6];
        shapes.push(Shape::Point(f.0, f.1));
        i6 = i6 + 1;
    }
    let ncustoms = customs.len();
    proof {
        assert(customs0.len() == ncustoms);
    }
    let mut i7: usize = 0;
    while customs.len() > 0
        invariant
            customs0.len() <= usize::MAX,
            i7 + customs@.len() == customs0.len(),
            customs@ =~= customs0.skip(i7 as int),
            shapes@.len() == split0.len() + flags0.len() + i7,
            forall|k: int|
                0 <= k < split0.len() ==> #[trigger] shapes@[k] == Shape::Line(split0[k]),
            forall|k: int|
                0 <= k < flags0.len() ==> #[trigger] shapes@[split0.len() + k] == Shape::Point(
                    flags0[k].0,
                    flags0[k].1,
                ),
            forall|k: int|
                0 <= k < i7 ==> #[trigger] shapes@[split0.len() + flags0.len() + k]
                    == Shape::Custom(customs0[k]),
        decreases customs.len(),
    {
        let ghost c7 = i7 as int;
        let c = customs.remove(0);
        proof {
            assert(c == customs0.skip(c7)[0]);
            assert(c == customs0[c7]);
            assert(customs@ =~= customs0.skip(c7 + 1));
        }
        shapes.push(Shape::Custom(c));
        i7 = i7 + 1;
    }
    shapes
}

/// Idempotence of erasure: re-running the flood-fill stage over the
/// post-merge working raster finds no pixel of an already-erased
/// horizontal run — no extracted region ever touches one.
pub proof fn lemma_erasure_idempotent(
    img: Raster,
    cfg: Config,
    runs: Seq<Run>,
    work: Raster,
    regions: Seq<Vec<(usize, usize)>>,
)
    requires
        cfg.ink_threshold <= 255,
        scan_stage_post(img, cfg, runs, work),
        extract_stage_post(work, cfg.ink_threshold, regions),
    ensures
        forall|k: int, x: int, y: int|
            0 <= k < regions.len() && covered(runs, x, y) && work.valid_xy(x, y) ==> !(
            #[trigger] region_covers(regions[k]@, work.height as int, x, y)),
{
    let thr = cfg.ink_threshold;
    assert forall|k: int, x: int, y: int|
        0 <= k < regions.len() && covered(runs, x, y) && work.valid_xy(x, y) implies !(
    #[trigger] region_covers(regions[k]@, work.height as int, x, y)) by {
        if region_covers(regions[k]@, work.height as int, x, y) {
            let region = regions[k]@;
            let i = choose|i: int|
                0 <= i < region.len() && (#[trigger] region[i]).0 == x && work.height
                    - region[i].1 == y;
            assert(good_region(work, region, thr));
            assert(work.ink_at(x, y, thr));
            assert(work.color_at(x, y) == white());
            assert(false);
        }
    }
}

/// Coverage: every ink pixel of the original raster is attributed to
/// exactly one place — an emitted horizontal run or a flood-filled
/// region (returned or discarded by the size gate) — and nothing is
/// attributed that was not ink.
pub proof fn lemma_coverage(
    img: Raster,
    cfg: Config,
    runs: Seq<Run>,
    work: Raster,
    regions: Seq<Vec<(usize, usize)>>,
)
    requires
        scan_stage_post(img, cfg, runs, work),
        extract_stage_post(work, cfg.ink_threshold, regions),
    ensures
        forall|x: int, y: int|
            img.valid_xy(x, y) && img.ink_at(x, y, cfg.ink_threshold) ==> #[trigger] covered(
                runs,
                x,
                y,
            ) || any_covers(regions, img.height as int, x, y),
        forall|x: int, y: int|
            img.valid_xy(x, y) && #[trigger] covered(runs, x, y) ==> img.ink_at(
                x,
                y,
                cfg.ink_threshold,
            ),
        forall|x: int, y: int|
            img.valid_xy(x, y) && #[trigger] any_covers(regions, img.height as int, x, y)
                ==> img.ink_at(x, y, cfg.ink_threshold) && !covered(runs, x, y),
{
    let thr = cfg.ink_threshold;
    assert forall|x: int, y: int|
        img.valid_xy(x, y) && img.ink_at(x, y, thr) implies #[trigger] covered(runs, x, y)
        || any_covers(regions, img.height as int, x, y) by {
        if !covered(runs, x, y) {
            assert(work.valid_xy(x, y));
            assert(work.color_at(x, y) == img.color_at(x, y));
            assert(work.ink_at(x, y, thr));
            assert(any_covers(regions, work.height as int, x, y));
        }
    }
    assert forall|x: int, y: int|
        img.valid_xy(x, y) && #[trigger] covered(runs, x, y) implies img.ink_at(
        x,
        y,
        thr,
    ) by {
        let i = choose|i: int| 0 <= i < runs.len() && run_covers(runs[i], x, y);
        assert(is_closed_run(img, thr, runs[i]));
        assert(img.ink_at(x, runs[i].row as int, thr));
    }
    assert forall|x: int, y: int|
        img.valid_xy(x, y) && #[trigger] any_covers(regions, img.height as int, x, y)
        implies img.ink_at(x, y, thr) && !covered(runs, x, y) by {
        assert(work.valid_xy(x, y));
        assert(work.ink_at(x, y, thr));
        if covered(runs, x, y) {
            assert(work.color_at(x, y) == white());
            assert(false);
        }
        assert(work.color_at(x, y) == img.color_at(x, y));
    }
}

/// The erased working copy of a duplicate of the image is, pixel for
/// pixel, the image with the run pixels repainted.
proof fn lemma_scan_bridge(img: Raster, cfg: Config, runs: Seq<Run>, copy0: Raster, work1: Raster)
    requires
        img.wf(),
        copy0.width == img.width,
        copy0.height == img.height,
        copy0.pixels@ == img.pixels@,
        forall|i: int|
            0 <= i < runs.len() ==> is_closed_run(img, cfg.ink_threshold, #[trigger] runs[i])
                && run_len(runs[i]) >= cfg.min_run_len,
        forall|r: Run|
            is_closed_run(img, cfg.ink_threshold, r) && run_len(r) >= cfg.min_run_len
                ==> runs.contains(r),
        forall|i: int, j: int| 0 <= i < j < runs.len() ==> run_order(runs[i], runs[j]),
        work1.wf(),
        work1.width == copy0.width,
        work1.height == copy0.height,
        forall|x: int, y: int|
            work1.valid_xy(x, y) ==> work1.color_at(x, y) == (if covered(runs, x, y) {
                white()
            } else {
                copy0.color_at(x, y)
            }),
    ensures
        scan_stage_post(img, cfg, runs, work1),
{
    assert forall|x: int, y: int| work1.valid_xy(x, y) implies work1.color_at(x, y) == (
    if covered(runs, x, y) {
        white()
    } else {
        img.color_at(x, y)
    }) by {
        assert(copy0.color_at(x, y) == img.color_at(x, y));
    }
}

/// Each detected run's line is a unit-thickness line inside the
/// image, as the merger expects.
proof fn lemma_seed_lines(img: Raster, thr: u8, runs: Seq<Run>, rl: Seq<Line>)
    requires
        img.wf(),
        forall|i: int| 0 <= i < runs.len() ==> is_closed_run(img, thr, #[trigger] runs[i]),
        rl == runs_lines(runs, img.height as int),
    ensures
        forall|i: int| 0 <= i < rl.len() ==> seed_line(#[trigger] rl[i]),
{
    assert forall|i: int| 0 <= i < rl.len() implies seed_line(#[trigger] rl[i]) by {
        assert(is_closed_run(img, thr, runs[i]));
        assert(rl[i] == run_line(runs[i], img.height as int));
    }
}

/// Collect the stage facts into the engine's overall promise.
proof fn lemma_pipeline_assemble(
    img: Raster,
    cfg: Config,
    runs: Seq<Run>,
    work1: Raster,
    regions0: Seq<Vec<(usize, usize)>>,
    merged0: Seq<Line>,
    base0: Seq<Line>,
    customs0: Seq<Vec<(usize, usize)>>,
    parts: Seq<Seq<Line>>,
    split0: Seq<Line>,
    flags0: Seq<(Point, bool)>,
    shapes: Seq<Shape>,
)
    requires
        scan_stage_post(img, cfg, runs, work1),
        extract_stage_post(work1, cfg.ink_threshold, regions0),
        merged0 == merge_greedy(runs_lines(runs, img.height as int), cfg.merge_tolerance as int),
        base0 == merged0 + classified_lines(regions0, cfg),
        customs0 == customs_of(regions0, cfg),
        parts.len() == base0.len(),
        forall|k: int|
            0 <= k < base0.len() ==> split_post(
                base0[k],
                endpoints_of(base0),
                cfg.split_distance_tolerance as int,
                cfg.min_separation as int,
                #[trigger] parts[k],
            ),
        split0 == flat(parts),
        junction_post(starts_then_ends(split0), cfg.junction_tolerance as int, flags0),
        assembled(shapes, split0, flags0, customs0),
    ensures
        pipeline_post(img, cfg, shapes),
{
    assert(junction_post(starts_then_ends(flat(parts)), cfg.junction_tolerance as int, flags0));
    assert(tail_post(cfg, base0, customs0, shapes));
    assert(residue_post(img, cfg, runs, work1, shapes));
    assert(pipeline_post(img, cfg, shapes));
}

} // verus!
