//! Stage five: re-cutting lines at nearby candidate endpoints.
//!
//! Every line's endpoints are candidate junction points.  For one
//! line, the splitter keeps the candidates that lie on the segment
//! (clamped-projection distance strictly below the tolerance), adds
//! the line's own endpoints, sorts the kept points by (x, then y),
//! and walks adjacent pairs: a pair far enough apart becomes a
//! sub-line inheriting the parent's thickness, and closer pairs are
//! collapsed as duplicates, so no degenerate segment is emitted.

use vstd::prelude::*;
use crate::geometry::{
    dist_sq, lemma_seg_dist_cmp, lemma_sq_nonneg, line_pts_bounded, pt_bounded, sq,
    within_seg_dist, Line, Point,
};

verus! {

/// Left-to-right order on points: by x, then by y.
pub open spec fn pt_le(a: Point, b: Point) -> bool {
    a.0 < b.0 || (a.0 == b.0 && a.1 <= b.1)
}

/// Strict left-to-right order.
pub open spec fn pt_lt(a: Point, b: Point) -> bool {
    pt_le(a, b) && a != b
}

/// Nondecreasing in the point order.
pub open spec fn pts_sorted(s: Seq<Point>) -> bool {
    forall|i: int, j: int| 0 <= i < j < s.len() ==> pt_le(#[trigger] s[i], #[trigger] s[j])
}

/// `p` survives the splitter's filter for `line`: it is a candidate
/// lying on the segment, or one of the line's own endpoints.
pub open spec fn is_kept(line: Line, pts: Seq<Point>, tol: int, p: Point) -> bool {
    (pts.contains(p) && within_seg_dist(line, p, tol)) || p == line.start || p == line.end
}

/// Everything stage five promises about its output `out` for one
/// input line and candidate set.
pub open spec fn split_post(
    line: Line,
    pts: Seq<Point>,
    tol: int,
    sep: int,
    out: Seq<Line>,
) -> bool {
    // Soundness: every emitted sub-line runs left-to-right between two
    // kept points, farther apart than the separation, with the
    // parent's thickness.
    &&& forall|k: int|
        0 <= k < out.len() ==> {
            let l = #[trigger] out[k];
            &&& l.thickness == line.thickness
            &&& is_kept(line, pts, tol, l.start)
            &&& is_kept(line, pts, tol, l.end)
            &&& pt_lt(l.start, l.end)
            &&& dist_sq(l.start, l.end) > sq(sep)
        }
    // No kept point lies strictly inside an emitted sub-line.
    &&& forall|k: int, p: Point|
        0 <= k < out.len() && #[trigger] is_kept(line, pts, tol, p) ==> !(pt_lt(
            (#[trigger] out[k]).start,
            p,
        ) && pt_lt(p, out[k].end))
    // Completeness: adjacent kept points far enough apart always get
    // their sub-line.
    &&& forall|p: Point, q: Point|
        is_kept(line, pts, tol, p) && is_kept(line, pts, tol, q) && pt_lt(p, q)
            && #[trigger] dist_sq(p, q) > sq(sep) && (forall|w: Point|
            #[trigger] is_kept(line, pts, tol, w) ==> !(pt_lt(p, w) && pt_lt(w, q)))
            ==> exists|k: int|
            0 <= k < out.len() && (#[trigger] out[k]).start == p && out[k].end == q
}

/// Splitting correctness: whenever a candidate point lies within the
/// on-segment distance tolerance of a line, no sub-line emitted for
/// that line has the point strictly in its interior — the point can
/// only appear as a sub-line endpoint.
pub proof fn lemma_splitting_correct(
    line: Line,
    pts: Seq<Point>,
    tol: int,
    sep: int,
    out: Seq<Line>,
    p: Point,
)
    requires
        split_post(line, pts, tol, sep, out),
        pts.contains(p),
        within_seg_dist(line, p, tol),
    ensures
        forall|k: int|
            0 <= k < out.len() ==> !(pt_lt((#[trigger] out[k]).start, p) && pt_lt(
                p,
                out[k].end,
            )),
{
    assert(is_kept(line, pts, tol, p));
}

/// Insert `p` into the sorted vector `s`, keeping it sorted.
fn insert_sorted(s: &mut Vec<Point>, p: Point)
    requires
        pts_sorted(old(s)@),
    ensures
        pts_sorted(final(s)@),
        final(s)@.len() == old(s)@.len() + 1,
        forall|q: Point| final(s)@.contains(q) <==> old(s)@.contains(q) || q == p,
{
    let mut idx: usize = 0;
    while idx < s.len() && !(p.0 < s[idx].0 || (p.0 == s[idx].0 && p.1 < s[idx].1))
        invariant
            pts_sorted(s@),
            idx <= s.len(),
            forall|k: int| 0 <= k < idx ==> pt_le(#[trigger] s@[k], p),
        decreases s.len() - idx,
    {
        idx = idx + 1;
    }
    let ghost pre = s@;
    s.insert(idx, p);
    proof {
        assert(s@ == pre.insert(idx as int, p));
        assert forall|i: int, j: int| 0 <= i < j < s@.len() implies pt_le(
            #[trigger] s@[i],
            #[trigger] s@[j],
        ) by {
            let ii = if i < idx { i } else { i - 1 };
            let jj = if j < idx { j } else { j - 1 };
            if i < idx {
                assert(s@[i] == pre[i]);
            }
            if i == idx {
                assert(s@[i] == p);
            }
            if i > idx {
                assert(s@[i] == pre[i - 1]);
            }
            if j < idx {
                assert(s@[j] == pre[j]);
            }
            if j == idx {
                assert(s@[j] == p);
            }
            if j > idx {
                assert(s@[j] == pre[j - 1]);
            }
        }
        assert forall|q: Point| s@.contains(q) implies pre.contains(q) || q == p by {
            let i = choose|i: int| 0 <= i < s@.len() && s@[i] == q;
            if i < idx {
                assert(pre[i] == q);
            } else if i > idx {
                assert(pre[i - 1] == q);
            }
        }
        assert forall|q: Point| pre.contains(q) || q == p implies s@.contains(q) by {
            if pre.contains(q) {
                let i = choose|i: int| 0 <= i < pre.len() && pre[i] == q;
                if i < idx {
                    assert(s@[i] == q);
                } else {
                    assert(s@[i + 1] == q);
                }
            } else {
                assert(s@[idx as int] == p);
            }
        }
    }
}

/// Sort points by (x, then y).  The result holds exactly the values
/// of the input (duplicates collapse to membership).
fn sort_points(v: &Vec<Point>) -> (s: Vec<Point>)
    ensures
        pts_sorted(s@),
        s@.len() == v@.len(),
        forall|q: Point| s@.contains(q) <==> v@.contains(q),
{
    let mut s: Vec<Point> = Vec::new();
    let mut i: usize = 0;
    while i < v.len()
        invariant
            pts_sorted(s@),
            i <= v.len(),
            s@.len() == i,
            forall|q: Point| s@.contains(q) <==> v@.take(i as int).contains(q),
        decreases v.len() - i,
    {
        let ghost pre = s@;
        insert_sorted(&mut s, v[i]);
        proof {
            assert(v@.take(i + 1).drop_last() =~= v@.take(i as int));
            assert(v@.take(i + 1).last() == v@[i as int]);
            assert forall|q: Point| s@.contains(q) implies v@.take(i + 1).contains(q) by {
                if pre.contains(q) {
                    let k = choose|k: int|
                        0 <= k < v@.take(i as int).len() && v@.take(i as int)[k] == q;
                    assert(v@.take(i + 1)[k] == q);
                } else {
                    assert(v@.take(i + 1)[i as int] == q);
                }
            }
            assert forall|q: Point| v@.take(i + 1).contains(q) implies s@.contains(q) by {
                let k = choose|k: int|
                    0 <= k < v@.take(i + 1).len() && #[trigger] v@.take(i + 1)[k] == q;
                if k < i {
                    assert(v@.take(i as int)[k] == q);
                }
            }
        }
        i = i + 1;
    }
    proof {
        assert(v@.take(v@.len() as int) =~= v@);
    }
    s
}

/// Stage five for one line: cut it at every kept candidate point.
#[verifier::rlimit(100)]
pub fn split_line(line: &Line, points: &Vec<Point>, tol: i64, sep: i64) -> (out: Vec<Line>)
    requires
        line_pts_bounded(*line),
        forall|i: int| 0 <= i < points.len() ==> pt_bounded(#[trigger] points[i]),
        0 <= tol <= 0x10000,
        0 <= sep <= 0x10000,
    ensures
        split_post(*line, points@, tol as int, sep as int, out@),
        forall|k: int|
            0 <= k < out.len() ==> pt_bounded((#[trigger] out[k]).start) && pt_bounded(
                out[k].end),
{
    let ghost pts0 = points@;
    let mut kept: Vec<Point> = Vec::new();
    let mut i: usize = 0;
    while i < points.len()
        invariant
            line_pts_bounded(*line),
            forall|k: int| 0 <= k < points.len() ==> pt_bounded(#[trigger] points[k]),
            0 <= tol <= 0x10000,
            i <= points.len(),
            forall|j: int|
                0 <= j < kept.len() ==> points@.contains(#[trigger] kept[j]) && within_seg_dist(
                    *line,
                    kept[j],
                    tol as int,
                ) && pt_bounded(kept[j]),
            forall|k: int|
                0 <= k < i && within_seg_dist(*line, #[trigger] points@[k], tol as int)
                    ==> kept@.contains(points@[k]),
        decreases points.len() - i,
    {
        let p = points[i];
        let d = line.distance_to_point(&p);
        proof {
            lemma_seg_dist_cmp(*line, p, tol as int);
        }
        if d < tol {
            let ghost pre = kept@;
            kept.push(p);
            proof {
                assert(kept@[pre.len() as int] == p);
                assert forall|k: int|
                    0 <= k < i + 1 && within_seg_dist(*line, #[trigger] points@[k], tol as int)
                        implies kept@.contains(points@[k]) by {
                    if k < i {
                        let m = choose|m: int| 0 <= m < pre.len() && pre[m] == points@[k];
                        assert(kept@[m] == points@[k]);
                    }
                }
            }
        }
        i = i + 1;
    }
    let ghost filtered = kept@;
    kept.push(Point(line.start.0, line.start.1));
    kept.push(Point(line.end.0, line.end.1));
    proof {
        assert(kept@[filtered.len() as int] == line.start);
        assert(kept@[filtered.len() as int + 1] == line.end);
        assert forall|p: Point|
            is_kept(*line, pts0, tol as int, p) implies kept@.contains(p) by {
            if pts0.contains(p) && within_seg_dist(*line, p, tol as int) {
                let k = choose|k: int| 0 <= k < pts0.len() && pts0[k] == p;
                assert(filtered.contains(p));
                let m = choose|m: int| 0 <= m < filtered.len() && filtered[m] == p;
                assert(kept@[m] == p);
            }
        }
        assert forall|j: int|
            0 <= j < kept@.len() implies is_kept(*line, pts0, tol as int, #[trigger] kept@[j])
            && pt_bounded(kept@[j]) by {
            if j < filtered.len() {
                assert(filtered[j] == kept@[j]);
            }
        }
    }
    let s = sort_points(&kept);
    proof {
        assert forall|p: Point|
            is_kept(*line, pts0, tol as int, p) implies s@.contains(p) by {}
        assert forall|j: int|
            0 <= j < s@.len() implies is_kept(*line, pts0, tol as int, #[trigger] s@[j])
            && pt_bounded(s@[j]) by {
            assert(kept@.contains(s@[j]));
            let m = choose|m: int| 0 <= m < kept@.len() && kept@[m] == s@[j];
        }
    }
    let mut out: Vec<Line> = Vec::new();
    let ghost mut js: Seq<int> = Seq::empty();
    let mut k: usize = 0;
    while k + 1 < s.len()
        invariant
            pts_sorted(s@),
            forall|j: int|
                0 <= j < s@.len() ==> is_kept(*line, pts0, tol as int, #[trigger] s@[j])
                    && pt_bounded(s@[j]),
            0 <= sep <= 0x10000,
            k + 1 <= s@.len(),
            js.len() == out@.len(),
            forall|m: int|
                0 <= m < out.len() ==> 0 <= #[trigger] js[m] < s@.len() - 1 && out@[m] == (Line {
                    start: s@[js[m]],
                    end: s@[js[m] + 1],
                    thickness: line.thickness,
                }) && dist_sq(s@[js[m]], s@[js[m] + 1]) > sq(sep as int),
            forall|j: int|
                0 <= j < k && #[trigger] dist_sq(s@[j], s@[j + 1]) > sq(sep as int)
                    ==> out@.contains(
                    Line { start: s@[j], end: s@[j + 1], thickness: line.thickness },
                ),
        decreases s.len() - k,
    {
        let a = s[k];
        let b = s[k + 1];
        let d = a.distance_sq(&b);
        assert(0 <= (sep as i128) * (sep as i128) <= 0x1_0000_0000) by (nonlinear_arith)
            requires
                0 <= sep <= 0x10000,
        ;
        let s2 = (sep as i128) * (sep as i128);
        if d > s2 {
            let ghost pre = out@;
            out.push(Line { start: a, end: b, thickness: line.thickness });
            proof {
                js = js.push(k as int);
                assert(out@[pre.len() as int] == (Line {
                    start: s@[k as int],
                    end: s@[k + 1],
                    thickness: line.thickness,
                }));
                assert(js[pre.len() as int] == k as int);
                assert forall|j: int|
                    0 <= j < k + 1 && #[trigger] dist_sq(s@[j], s@[j + 1]) > sq(sep as int)
                        implies out@.contains(
                    Line { start: s@[j], end: s@[j + 1], thickness: line.thickness },
                ) by {
                    if j < k {
                        let m = choose|m: int|
                            0 <= m < pre.len() && pre[m] == (Line {
                                start: s@[j],
                                end: s@[j + 1],
                                thickness: line.thickness,
                            });
                        assert(out@[m] == pre[m]);
                    }
                }
            }
        }
        k = k + 1;
    }
    proof {
        lemma_walk_sound(*line, pts0, tol as int, sep as int, s@, out@, js);
        lemma_walk_interior(*line, pts0, tol as int, sep as int, s@, out@, js);
        lemma_walk_complete(*line, pts0, tol as int, sep as int, s@, out@);
    }
    out
}

/// In a sorted run between two adjacent kept values there is an index
/// where the value changes from `p` to `q`.
proof fn lemma_boundary(s: Seq<Point>, p: Point, q: Point, ip: int, iq: int)
    requires
        pts_sorted(s),
        0 <= ip < iq < s.len(),
        s[ip] == p,
        s[iq] == q,
        forall|k: int| ip <= k <= iq ==> s[k] == p || s[k] == q,
    ensures
        exists|k: int| ip <= k < iq && #[trigger] s[k] == p && s[k + 1] == q,
    decreases iq - ip,
{
    if s[ip + 1] == q {
        assert(s[ip] == p && s[ip + 1] == q);
    } else {
        assert(s[ip + 1] == p);
        lemma_boundary(s, p, q, ip + 1, iq);
    }
}

/// From the sorted walk's loop facts: soundness of each emitted line.
proof fn lemma_walk_sound(
    line: Line,
    pts: Seq<Point>,
    tol: int,
    sep: int,
    s: Seq<Point>,
    out: Seq<Line>,
    js: Seq<int>,
)
    requires
        0 <= sep,
        pts_sorted(s),
        forall|j: int| 0 <= j < s.len() ==> is_kept(line, pts, tol, #[trigger] s[j]),
        js.len() == out.len(),
        forall|m: int|
            0 <= m < out.len() ==> 0 <= #[trigger] js[m] < s.len() - 1 && out[m] == (Line {
                start: s[js[m]],
                end: s[js[m] + 1],
                thickness: line.thickness,
            }) && dist_sq(s[js[m]], s[js[m] + 1]) > sq(sep),
    ensures
        forall|k: int|
            0 <= k < out.len() ==> {
                let l = #[trigger] out[k];
                &&& l.thickness == line.thickness
                &&& is_kept(line, pts, tol, l.start)
                &&& is_kept(line, pts, tol, l.end)
                &&& pt_lt(l.start, l.end)
                &&& dist_sq(l.start, l.end) > sq(sep)
            },
{
    lemma_sq_nonneg(sep);
    assert forall|k: int| 0 <= k < out.len() implies {
        let l = #[trigger] out[k];
        &&& l.thickness == line.thickness
        &&& is_kept(line, pts, tol, l.start)
        &&& is_kept(line, pts, tol, l.end)
        &&& pt_lt(l.start, l.end)
        &&& dist_sq(l.start, l.end) > sq(sep)
    } by {
        let j = js[k];
        assert(is_kept(line, pts, tol, s[j]));
        assert(is_kept(line, pts, tol, s[j + 1]));
        assert(pt_le(s[j], s[j + 1]));
        if s[j] == s[j + 1] {
            assert(s[j].0 - s[j + 1].0 == 0 && s[j].1 - s[j + 1].1 == 0);
            assert(sq(0) == 0) by (nonlinear_arith);
            assert(dist_sq(s[j], s[j + 1]) == 0);
            assert(false);
        }
    }
}

/// From the sorted walk's loop facts: no kept point sits strictly
/// inside an emitted line.
proof fn lemma_walk_interior(
    line: Line,
    pts: Seq<Point>,
    tol: int,
    sep: int,
    s: Seq<Point>,
    out: Seq<Line>,
    js: Seq<int>,
)
    requires
        pts_sorted(s),
        forall|p: Point| #[trigger] is_kept(line, pts, tol, p) ==> s.contains(p),
        js.len() == out.len(),
        forall|m: int|
            0 <= m < out.len() ==> 0 <= #[trigger] js[m] < s.len() - 1 && out[m] == (Line {
                start: s[js[m]],
                end: s[js[m] + 1],
                thickness: line.thickness,
            }) && dist_sq(s[js[m]], s[js[m] + 1]) > sq(sep),
    ensures
        forall|k: int, p: Point|
            0 <= k < out.len() && #[trigger] is_kept(line, pts, tol, p) ==> !(pt_lt(
                (#[trigger] out[k]).start,
                p,
            ) && pt_lt(p, out[k].end)),
{
    assert forall|k: int, p: Point|
        0 <= k < out.len() && #[trigger] is_kept(line, pts, tol, p) implies !(pt_lt(
        (#[trigger] out[k]).start,
        p,
    ) && pt_lt(p, out[k].end)) by {
        if pt_lt(out[k].start, p) && pt_lt(p, out[k].end) {
            let j = js[k];
            assert(s.contains(p));
            let m = choose|m: int| 0 <= m < s.len() && s[m] == p;
            if m <= j {
                assert(m < j ==> pt_le(s[m], s[j]));
                assert(false);
            } else {
                assert(j + 1 < m ==> pt_le(s[j + 1], s[m]));
                assert(false);
            }
        }
    }
}

/// From the sorted walk's loop facts: adjacent far-apart kept points
/// always get their sub-line.
proof fn lemma_walk_complete(
    line: Line,
    pts: Seq<Point>,
    tol: int,
    sep: int,
    s: Seq<Point>,
    out: Seq<Line>,
)
    requires
        pts_sorted(s),
        forall|j: int| 0 <= j < s.len() ==> is_kept(line, pts, tol, #[trigger] s[j]),
        forall|p: Point| #[trigger] is_kept(line, pts, tol, p) ==> s.contains(p),
        forall|j: int|
            0 <= j < s.len() - 1 && #[trigger] dist_sq(s[j], s[j + 1]) > sq(sep)
                ==> out.contains(
                Line { start: s[j], end: s[j + 1], thickness: line.thickness },
            ),
    ensures
        forall|p: Point, q: Point|
            is_kept(line, pts, tol, p) && is_kept(line, pts, tol, q) && pt_lt(p, q)
                && #[trigger] dist_sq(p, q) > sq(sep) && (forall|w: Point|
                #[trigger] is_kept(line, pts, tol, w) ==> !(pt_lt(p, w) && pt_lt(w, q)))
                ==> exists|k: int|
                0 <= k < out.len() && (#[trigger] out[k]).start == p && out[k].end == q,
{
    assert forall|p: Point, q: Point|
        is_kept(line, pts, tol, p) && is_kept(line, pts, tol, q) && pt_lt(p, q)
            && #[trigger] dist_sq(p, q) > sq(sep) && (forall|w: Point|
            #[trigger] is_kept(line, pts, tol, w) ==> !(pt_lt(p, w) && pt_lt(w, q)))
            implies exists|k: int|
            0 <= k < out.len() && (#[trigger] out[k]).start == p && out[k].end == q by {
        assert(s.contains(p));
        assert(s.contains(q));
        let ip = choose|ip: int| 0 <= ip < s.len() && s[ip] == p;
        let iq = choose|iq: int| 0 <= iq < s.len() && s[iq] == q;
        assert(ip < iq) by {
            if iq < ip {
                assert(pt_le(s[iq], s[ip]));
                assert(false);
            }
            if ip == iq {
                assert(false);
            }
        }
        assert forall|k: int| ip <= k <= iq implies s[k] == p || s[k] == q by {
            if k != ip && k != iq {
                assert(pt_le(s[ip], s[k]) && pt_le(s[k], s[iq]));
                assert(is_kept(line, pts, tol, s[k]));
                assert(!(pt_lt(p, s[k]) && pt_lt(s[k], q)));
            }
        }
        lemma_boundary(s, p, q, ip, iq);
        let k = choose|k: int| ip <= k < iq && #[trigger] s[k] == p && s[k + 1] == q;
        assert(out.contains(Line { start: p, end: q, thickness: line.thickness }));
        let m = choose|m: int|
            0 <= m < out.len() && out[m] == (Line {
                start: p,
                end: q,
                thickness: line.thickness,
            });
        assert(out[m].start == p && out[m].end == q);
    }
}

} // verus!
