//! Stage six: classifying endpoints as pass-through points or
//! junctions.
//!
//! Over the endpoint multiset of all split lines, each point counts
//! how many entries (itself included) are equal to it or within the
//! Manhattan-distance tolerance.  A count of exactly two marks a
//! pass-through point — a splitting artifact on one continuing
//! stroke.  Any other count marks a junction or terminal.  One
//! classified point is emitted per distinct endpoint.

use vstd::prelude::*;
use crate::geometry::{pt_bounded, Point};

verus! {

/// The absolute value.
pub open spec fn iabs(x: int) -> int {
    if x >= 0 {
        x
    } else {
        -x
    }
}

/// The Manhattan distance between two points.
pub open spec fn manhattan(a: Point, b: Point) -> int {
    iabs(a.0 - b.0) + iabs(a.1 - b.1)
}

/// `b` counts as a neighbour of `a`: equal, or within the tolerance.
pub open spec fn counts_as_near(a: Point, b: Point, tol: int) -> bool {
    b == a || manhattan(a, b) < tol
}

/// How many entries of `pts` count as neighbours of `a`.
pub open spec fn count_near(pts: Seq<Point>, a: Point, tol: int) -> int
    decreases pts.len(),
{
    if pts.len() == 0 {
        0
    } else {
        count_near(pts.drop_last(), a, tol) + if counts_as_near(a, pts.last(), tol) {
            1int
        } else {
            0int
        }
    }
}

/// Neighbourhood is symmetric: whenever `a` counts `b`, `b` counts
/// `a`, because the Manhattan distance does not depend on the order
/// of its arguments.
pub proof fn lemma_junction_symmetry(a: Point, b: Point, tol: int)
    ensures
        manhattan(a, b) == manhattan(b, a),
        counts_as_near(a, b, tol) <==> counts_as_near(b, a, tol),
{
}

/// Everything stage six promises: one entry per distinct input
/// point, flagged as pass-through exactly when its neighbour count
/// over the whole input is two.
pub open spec fn junction_post(pts: Seq<Point>, tol: int, out: Seq<(Point, bool)>) -> bool {
    &&& forall|i: int|
        0 <= i < out.len() ==> pts.contains((#[trigger] out[i]).0) && (out[i].1 <==> count_near(
            pts,
            out[i].0,
            tol,
        ) == 2)
    &&& forall|p: Point| #[trigger] pts.contains(p) ==> exists|i: int|
            0 <= i < out.len() && (#[trigger] out[i]).0 == p
    &&& forall|i: int, j: int| 0 <= i < j < out.len() ==> (#[trigger] out[i]).0 != (
    #[trigger] out[j]).0
}

/// Count the entries of `pts` that count as neighbours of `a`.
fn count_neighbours(pts: &Vec<Point>, a: &Point, tol: i64) -> (cnt: usize)
    requires
        pt_bounded(*a),
        forall|k: int| 0 <= k < pts.len() ==> pt_bounded(#[trigger] pts[k]),
        0 <= tol,
    ensures
        cnt == count_near(pts@, *a, tol as int),
        cnt <= pts.len(),
{
    let mut cnt: usize = 0;
    let mut j: usize = 0;
    while j < pts.len()
        invariant
            pt_bounded(*a),
            forall|k: int| 0 <= k < pts.len() ==> pt_bounded(#[trigger] pts[k]),
            j <= pts.len(),
            cnt <= j,
            cnt == count_near(pts@.take(j as int), *a, tol as int),
        decreases pts.len() - j,
    {
        proof {
            assert(pts@.take(j + 1).drop_last() =~= pts@.take(j as int));
            assert(pts@.take(j + 1).last() == pts@[j as int]);
        }
        let b = pts[j];
        let dx = if a.0 >= b.0 {
            a.0 - b.0
        } else {
            b.0 - a.0
        };
        let dy = if a.1 >= b.1 {
            a.1 - b.1
        } else {
            b.1 - a.1
        };
        if (b.0 == a.0 && b.1 == a.1) || dx + dy < tol {
            cnt = cnt + 1;
        }
        j = j + 1;
    }
    proof {
        assert(pts@.take(pts@.len() as int) =~= pts@);
    }
    cnt
}

/// Stage six: classify every distinct endpoint of `pts`.
pub fn classify_points(pts: &Vec<Point>, tol: i64) -> (out: Vec<(Point, bool)>)
    requires
        forall|k: int| 0 <= k < pts.len() ==> pt_bounded(#[trigger] pts[k]),
        0 <= tol,
    ensures
        junction_post(pts@, tol as int, out@),
{
    let mut out: Vec<(Point, bool)> = Vec::new();
    let mut i: usize = 0;
    while i < pts.len()
        invariant
            forall|k: int| 0 <= k < pts.len() ==> pt_bounded(#[trigger] pts[k]),
            0 <= tol,
            i <= pts.len(),
            forall|k: int|
                0 <= k < out.len() ==> pts@.contains((#[trigger] out[k]).0) && (out[k].1
                    <==> count_near(pts@, out[k].0, tol as int) == 2),
            forall|k: int|
                0 <= k < i ==> exists|m: int|
                    0 <= m < out.len() && (#[trigger] out[m]).0 == #[trigger] pts@[k],
            forall|k: int, m: int| 0 <= k < m < out.len() ==> (#[trigger] out[k]).0 != (
            #[trigger] out[m]).0,
        decreases pts.len() - i,
    {
        let p = pts[i];
        let mut seen: bool = false;
        let mut m: usize = 0;
        while m < out.len()
            invariant
                m <= out.len(),
                seen <==> exists|k: int|
                    0 <= k < m && (#[trigger] out@[k]).0 == p,
            decreases out.len() - m,
        {
            if out[m].0 == p {
                seen = true;
                proof {
                    assert((out@[m as int]).0 == p);
                }
            }
            m = m + 1;
        }
        if !seen {
            let cnt = count_neighbours(pts, &p, tol);
            let ghost pre = out@;
            out.push((p, cnt == 2));
            proof {
                assert(out@[pre.len() as int] == (p, cnt == 2));
                assert(pts@[i as int] == p);
                assert forall|k: int|
                    0 <= k < i + 1 implies exists|mm: int|
                    0 <= mm < out@.len() && (#[trigger] out@[mm]).0 == #[trigger] pts@[k] by {
                    if k < i {
                        let mm = choose|mm: int|
                            0 <= mm < pre.len() && (#[trigger] pre[mm]).0 == pts@[k];
                        assert((out@[mm]).0 == pts@[k]);
                    } else {
                        assert((out@[pre.len() as int]).0 == pts@[k]);
                    }
                }
            }
        } else {
            proof {
                let k0 = choose|k: int| 0 <= k < out@.len() && (#[trigger] out@[k]).0 == p;
                assert forall|k: int|
                    0 <= k < i + 1 implies exists|mm: int|
                    0 <= mm < out@.len() && (#[trigger] out@[mm]).0 == #[trigger] pts@[k] by {
                    if k == i {
                        assert((out@[k0]).0 == pts@[k]);
                    }
                }
            }
        }
        i = i + 1;
    }
    out
}

} // verus!
