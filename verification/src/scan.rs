//! Scanline run detection and erasure.
//!
//! Rows are processed bottom-to-top so that the geometric y coordinate
//! (which increases upward) grows along the output, and each row is
//! scanned left to right.  A maximal horizontal stretch of ink pixels
//! that ends before the right edge and is at least the minimum length
//! becomes a run; shorter stretches are noise, and a stretch touching
//! the right edge is never closed and is dropped.

use vstd::prelude::*;
use crate::geometry::{Line, Point};
use crate::raster::{white, Raster};

verus! {

/// A horizontal stretch of ink: image row `row`, columns `x0..=x1`.
#[derive(Clone, Copy, PartialEq, Eq, Structural, Debug)]
pub struct Run {
    pub row: usize,
    pub x0: usize,
    pub x1: usize,
}

/// The number of pixels of a run.
pub open spec fn run_len(r: Run) -> int {
    r.x1 - r.x0 + 1
}

/// `r` is a maximal ink stretch of its row that ends strictly before
/// the right edge: all pixels of `x0..=x1` are ink, the pixel left of
/// `x0` (if any) is background, and the pixel right of `x1` exists
/// and is background.
pub open spec fn is_closed_run(img: Raster, thr: u8, r: Run) -> bool {
    &&& r.row < img.height
    &&& r.x0 <= r.x1
    &&& r.x1 + 1 < img.width
    &&& forall|x: int| r.x0 <= x <= r.x1 ==> img.ink_at(x, r.row as int, thr)
    &&& (r.x0 == 0 || !img.ink_at(r.x0 - 1, r.row as int, thr))
    &&& !img.ink_at(r.x1 + 1, r.row as int, thr)
}

/// `a` is emitted before `b`: on a lower image row (larger geometric
/// y), or further left on the same row.
pub open spec fn run_order(a: Run, b: Run) -> bool {
    a.row > b.row || (a.row == b.row && a.x1 < b.x0)
}

/// `r` covers the image pixel `(x, y)`.
pub open spec fn run_covers(r: Run, x: int, y: int) -> bool {
    r.row == y && r.x0 <= x <= r.x1
}

/// Some run of `runs` covers the image pixel `(x, y)`.
pub open spec fn covered(runs: Seq<Run>, x: int, y: int) -> bool {
    exists|i: int| 0 <= i < runs.len() && run_covers(runs[i], x, y)
}

/// The line a run stands for, in geometric coordinates: the row is
/// flipped so y increases upward, and a fresh run has unit thickness.
pub open spec fn run_line(r: Run, height: int) -> Line {
    Line {
        start: Point(r.x0 as i64, (height - r.row) as i64),
        end: Point(r.x1 as i64, (height - r.row) as i64),
        thickness: 1,
    }
}

/// Stage one: find every closed ink run of at least `min_len` pixels,
/// row by row from the bottom of the image upward.
///
/// The result is exactly the set of long closed runs (nothing else is
/// emitted, none is missed), in emission order.
pub fn detect_runs(img: &Raster, thr: u8, min_len: usize) -> (runs: Vec<Run>)
    requires
        img.wf(),
        min_len >= 1,
    ensures
        forall|i: int|
            0 <= i < runs.len() ==> is_closed_run(*img, thr, #[trigger] runs[i]) && run_len(
                runs[i]) >= min_len,
        forall|r: Run|
            is_closed_run(*img, thr, r) && run_len(r) >= min_len ==> runs@.contains(r),
        forall|i: int, j: int| 0 <= i < j < runs.len() ==> run_order(runs[i], runs[j]),
        runs.len() <= img.width * img.height,
{
    let mut runs: Vec<Run> = Vec::new();
    let mut rr: usize = 0;
    while rr < img.height
        invariant
            img.wf(),
            min_len >= 1,
            rr <= img.height,
            forall|i: int|
                0 <= i < runs.len() ==> is_closed_run(*img, thr, #[trigger] runs[i]) && run_len(
                    runs[i]) >= min_len && runs[i].row + rr >= img.height,
            forall|r: Run|
                is_closed_run(*img, thr, r) && run_len(r) >= min_len && r.row + rr
                    >= img.height ==> runs@.contains(r),
            forall|i: int, j: int| 0 <= i < j < runs.len() ==> run_order(runs[i], runs[j]),
            runs.len() <= rr * img.width,
        decreases img.height - rr,
    {
        let row = img.height - 1 - rr;
        let ghost n0 = runs@.len();
        let mut x: usize = 0;
        let mut in_run: bool = false;
        let mut start: usize = 0;
        while x < img.width
            invariant
                img.wf(),
                min_len >= 1,
                row < img.height,
                x <= img.width,
                in_run ==> start < x && (start == 0 || !img.ink_at(
                    start - 1,
                    row as int,
                    thr,
                )) && forall|xx: int| start <= xx < x ==> img.ink_at(xx, row as int, thr),
                !in_run ==> (x == 0 || !img.ink_at(x - 1, row as int, thr)),
                forall|i: int|
                    0 <= i < runs.len() ==> is_closed_run(*img, thr, #[trigger] runs[i])
                        && run_len(runs[i]) >= min_len && (runs[i].row > row || (runs[i].row
                        == row && runs[i].x1 + 2 <= x && (in_run ==> runs[i].x1 < start))),
                forall|r: Run|
                    is_closed_run(*img, thr, r) && run_len(r) >= min_len && r.row > row
                        ==> runs@.contains(r),
                forall|r: Run|
                    is_closed_run(*img, thr, r) && run_len(r) >= min_len && r.row == row
                        && r.x1 + 2 <= x ==> runs@.contains(r),
                forall|i: int, j: int| 0 <= i < j < runs.len() ==> run_order(runs[i], runs[j]),
                n0 <= rr * img.width,
                runs.len() <= n0 + x,
            decreases img.width - x,
        {
            if img.is_ink_at(x, row, thr) {
                if !in_run {
                    in_run = true;
                    start = x;
                }
                proof {
                    assert forall|r: Run|
                        is_closed_run(*img, thr, r) && run_len(r) >= min_len && r.row == row
                            && r.x1 + 2 <= x + 1 implies runs@.contains(r) by {
                        if r.x1 + 1 == x {
                            assert(img.ink_at(r.x1 + 1, row as int, thr));
                            assert(false);
                        }
                    }
                }
            } else {
                if in_run {
                    if x - start >= min_len {
                        let new_run = Run { row, x0: start, x1: x - 1 };
                        let ghost pre = runs@;
                        runs.push(new_run);
                        proof {
                            assert(is_closed_run(*img, thr, new_run));
                            assert(runs@[pre.len() as int] == new_run);
                            assert forall|r: Run| pre.contains(r) implies runs@.contains(
                                r) by {
                                let k = choose|k: int| 0 <= k < pre.len() && pre[k] == r;
                                assert(runs@[k] == r);
                            }
                            assert forall|i: int, j: int|
                                0 <= i < j < runs.len() implies run_order(
                                runs[i],
                                runs[j],
                            ) by {
                                if j == pre.len() {
                                    assert(run_order(pre[i], new_run));
                                }
                            }
                            assert forall|r: Run|
                                is_closed_run(*img, thr, r) && run_len(r) >= min_len && r.row
                                    == row && r.x1 + 2 <= x + 1 implies runs@.contains(
                                r) by {
                                if r.x1 + 2 == x + 1 {
                                    assert(r.x0 == start) by {
                                        if r.x0 < start {
                                            assert(img.ink_at(start - 1, row as int, thr));
                                            assert(false);
                                        }
                                        if start < r.x0 {
                                            assert(img.ink_at(r.x0 - 1, row as int, thr));
                                            assert(false);
                                        }
                                    }
                                    assert(r == new_run);
                                } else {
                                    assert(pre.contains(r));
                                    let k = choose|k: int| 0 <= k < pre.len() && pre[k] == r;
                                    assert(runs@[k] == r);
                                }
                            }
                        }
                    } else {
                        proof {
                            assert forall|r: Run|
                                is_closed_run(*img, thr, r) && run_len(r) >= min_len && r.row
                                    == row && r.x1 + 2 <= x + 1 implies runs@.contains(
                                r) by {
                                if r.x1 + 2 == x + 1 {
                                    assert(r.x0 == start) by {
                                        if r.x0 < start {
                                            assert(img.ink_at(start - 1, row as int, thr));
                                            assert(false);
                                        }
                                        if start < r.x0 {
                                            assert(img.ink_at(r.x0 - 1, row as int, thr));
                                            assert(false);
                                        }
                                    }
                                    assert(run_len(r) < min_len);
                                    assert(false);
                                }
                            }
                        }
                    }
                    in_run = false;
                }
            }
            x = x + 1;
        }
        proof {
            assert forall|r: Run|
                is_closed_run(*img, thr, r) && run_len(r) >= min_len && r.row + (rr + 1)
                    >= img.height implies runs@.contains(r) by {
                if r.row == row {
                    assert(r.x1 + 2 <= img.width);
                }
            }
            assert((rr + 1) * img.width == rr * img.width + img.width) by (nonlinear_arith);
        }
        rr = rr + 1;
    }
    proof {
        assert(img.height * img.width <= img.width * img.height) by (nonlinear_arith);
        assert(rr * img.width <= img.height * img.width) by (nonlinear_arith)
            requires
                rr <= img.height && 0 <= img.width,
        ;
    }
    runs
}

/// Stage two's erasure step: repaint every pixel of every run to the
/// background color, so later stages never re-detect a merged stroke.
pub fn erase_runs(img: &mut Raster, runs: &Vec<Run>)
    requires
        old(img).wf(),
        forall|i: int|
            0 <= i < runs.len() ==> (#[trigger] runs[i]).row < old(img).height && runs[i].x0
                <= runs[i].x1 && runs[i].x1 < old(img).width,
    ensures
        final(img).wf(),
        final(img).same_dims(*old(img)),
        forall|x: int, y: int|
            final(img).valid_xy(x, y) ==> final(img).color_at(x, y) == (if covered(
                runs@,
                x,
                y,
            ) {
                white()
            } else {
                old(img).color_at(x, y)
            }),
{
    let ghost img0 = *img;
    let mut i: usize = 0;
    while i < runs.len()
        invariant
            img.wf(),
            img.same_dims(img0),
            img0.wf(),
            runs.len() <= usize::MAX,
            i <= runs.len(),
            forall|k: int|
                0 <= k < runs.len() ==> (#[trigger] runs[k]).row < img0.height && runs[k].x0
                    <= runs[k].x1 && runs[k].x1 < img0.width,
            forall|x: int, y: int|
                img.valid_xy(x, y) ==> img.color_at(x, y) == (if covered(
                    runs@.take(i as int),
                    x,
                    y,
                ) {
                    white()
                } else {
                    img0.color_at(x, y)
                }),
        decreases runs.len() - i,
    {
        let r = runs[i];
        let mut x: usize = r.x0;
        while x <= r.x1
            invariant
                img.wf(),
                img.same_dims(img0),
                img0.wf(),
                i < runs.len(),
                r == runs[i as int],
                r.row < img0.height,
                r.x1 < img0.width,
                r.x0 <= x <= r.x1 + 1,
                forall|xx: int, yy: int|
                    img.valid_xy(xx, yy) ==> img.color_at(xx, yy) == (if covered(
                        runs@.take(i as int),
                        xx,
                        yy,
                    ) || (yy == r.row && r.x0 <= xx < x) {
                        white()
                    } else {
                        img0.color_at(xx, yy)
                    }),
            decreases r.x1 + 1 - x,
        {
            let ghost before = *img;
            img.erase(x, r.row);
            proof {
                assert forall|xx: int, yy: int| img.valid_xy(xx, yy) implies img.color_at(
                    xx,
                    yy,
                ) == (if covered(runs@.take(i as int), xx, yy) || (yy == r.row && r.x0 <= xx
                    < x + 1) {
                    white()
                } else {
                    img0.color_at(xx, yy)
                }) by {
                    if !(xx == x && yy == r.row) {
                        assert(img.color_at(xx, yy) == before.color_at(xx, yy));
                    }
                }
            }
            x = x + 1;
        }
        proof {
            assert forall|xx: int, yy: int| img.valid_xy(xx, yy) implies img.color_at(xx, yy)
                == (if covered(runs@.take(i + 1), xx, yy) {
                white()
            } else {
                img0.color_at(xx, yy)
            }) by {
                if covered(runs@.take(i + 1), xx, yy) {
                    let k = choose|k: int|
                        0 <= k < i + 1 && #[trigger] run_covers(runs@.take(i + 1)[k], xx, yy);
                    if k < i {
                        assert(run_covers(runs@.take(i as int)[k], xx, yy));
                        assert(covered(runs@.take(i as int), xx, yy));
                    } else {
                        assert(run_covers(r, xx, yy));
                        assert(yy == r.row && r.x0 <= xx < x);
                    }
                    assert(img.color_at(xx, yy) == white());
                } else {
                    if covered(runs@.take(i as int), xx, yy) {
                        let k = choose|k: int|
                            0 <= k < i && #[trigger] run_covers(runs@.take(i as int)[k], xx, yy);
                        assert(run_covers(runs@.take(i + 1)[k], xx, yy));
                        assert(false);
                    }
                    if yy == r.row && r.x0 <= xx < x {
                        assert(run_covers(runs@.take(i + 1)[i as int], xx, yy));
                        assert(false);
                    }
                    assert(img.color_at(xx, yy) == img0.color_at(xx, yy));
                }
            }
        }
        i = i + 1;
    }
    proof {
        assert(runs@.take(runs@.len() as int) =~= runs@);
    }
}

/// The lines the detected runs stand for, in geometric coordinates.
pub fn runs_to_lines(runs: &Vec<Run>, height: usize) -> (lines: Vec<Line>)
    requires
        height <= 0x2000,
        forall|i: int|
            0 <= i < runs.len() ==> (#[trigger] runs[i]).row < height && runs[i].x1 <= 0x2000,
    ensures
        lines.len() == runs.len(),
        forall|i: int| 0 <= i < lines.len() ==> #[trigger] lines[i] == run_line(
            runs[i],
            height as int,
        ),
{
    let mut lines: Vec<Line> = Vec::new();
    let mut i: usize = 0;
    while i < runs.len()
        invariant
            height <= 0x2000,
            i <= runs.len(),
            forall|k: int|
                0 <= k < runs.len() ==> (#[trigger] runs[k]).row < height && runs[k].x1
                    <= 0x2000,
            lines.len() == i,
            forall|k: int| 0 <= k < i ==> #[trigger] lines[k] == run_line(
                runs[k],
                height as int,
            ),
        decreases runs.len() - i,
    {
        let r = runs[i];
        lines.push(
            Line {
                start: Point(r.x0 as i64, (height - r.row) as i64),
                end: Point(r.x1 as i64, (height - r.row) as i64),
                thickness: 1,
            },
        );
        i = i + 1;
    }
    lines
}

} // verus!
