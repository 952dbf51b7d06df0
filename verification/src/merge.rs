//! Stage two: greedy merging of adjacent runs into thick strokes.
//!
//! The detected runs arrive in emission order, each with thickness 1.
//! The merger walks them once, holding an accumulated stroke: when the
//! next run is similar enough to the accumulated stroke the two merge
//! (endpoints pushed by the displacement, thicknesses added); when it
//! is not, the accumulated stroke is emitted and the next run starts a
//! new one.  No backtracking and no global clustering.

use vstd::prelude::*;
use crate::geometry::{
    lemma_similar_displacement, line_pts_bounded, merged, similarity, Line,
};

verus! {

/// What the scanline stage hands the merger: a unit-thickness line
/// whose coordinates lie inside the image.
pub open spec fn seed_line(l: Line) -> bool {
    &&& 0 <= l.start.0 <= 0x2000
    &&& 0 <= l.start.1 <= 0x2000
    &&& 0 <= l.end.0 <= 0x2000
    &&& 0 <= l.end.1 <= 0x2000
    &&& l.thickness == 1
}

/// Bounds that every merged stroke satisfies: merging can push an
/// endpoint away from the image only by the merge tolerance plus the
/// accumulated thickness, so coordinates stay far inside
/// [`crate::geometry::GEOM_BOUND`].
pub open spec fn merged_line_ok(l: Line) -> bool {
    &&& -0x1000_0000 <= l.start.0 <= 0x1000_0000
    &&& -0x1000_0000 <= l.start.1 <= 0x1000_0000
    &&& -0x1000_0000 <= l.end.0 <= 0x1000_0000
    &&& -0x1000_0000 <= l.end.1 <= 0x1000_0000
    &&& 1 <= l.thickness <= 0x400_0001
}

/// The greedy merge, starting from an accumulated stroke `acc`.
pub open spec fn merge_from(acc: Line, rest: Seq<Line>, tol: int) -> Seq<Line>
    decreases rest.len(),
{
    if rest.len() == 0 {
        seq![acc]
    } else if similarity(acc, rest[0]) < tol {
        merge_from(merged(acc, rest[0]), rest.drop_first(), tol)
    } else {
        seq![acc] + merge_from(rest[0], rest.drop_first(), tol)
    }
}

/// The greedy merge of a whole stream of lines.
pub open spec fn merge_greedy(lines: Seq<Line>, tol: int) -> Seq<Line> {
    if lines.len() == 0 {
        Seq::empty()
    } else {
        merge_from(lines[0], lines.drop_first(), tol)
    }
}

/// Stage two: coalesce the stream of unit-thickness runs into merged
/// strokes, exactly as the greedy specification says.
pub fn merge_lines(lines: &Vec<Line>, tol: i64) -> (out: Vec<Line>)
    requires
        forall|i: int| 0 <= i < lines.len() ==> seed_line(#[trigger] lines[i]),
        0 <= tol <= 0x10000,
        lines.len() <= 0x400_0000,
    ensures
        out@ == merge_greedy(lines@, tol as int),
        forall|k: int| 0 <= k < out.len() ==> merged_line_ok(#[trigger] out[k]),
{
    let mut out: Vec<Line> = Vec::new();
    if lines.len() == 0 {
        return out;
    }
    let mut acc = lines[0];
    let mut i: usize = 1;
    proof {
        assert(lines@.drop_first() =~= lines@.skip(1));
    }
    while i < lines.len()
        invariant
            forall|k: int| 0 <= k < lines.len() ==> seed_line(#[trigger] lines[k]),
            0 <= tol <= 0x10000,
            lines.len() <= 0x400_0000,
            1 <= i <= lines.len(),
            1 <= acc.thickness <= i,
            acc_bounded(acc, tol as int),
            merge_greedy(lines@, tol as int) == out@ + merge_from(
                acc,
                lines@.skip(i as int),
                tol as int,
            ),
            forall|k: int| 0 <= k < out.len() ==> merged_line_ok(#[trigger] out[k]),
        decreases lines.len() - i,
    {
        let nxt = lines[i];
        proof {
            assert(line_pts_bounded(acc) && line_pts_bounded(nxt));
            assert(lines@.skip(i as int)[0] == lines[i as int]);
            assert(lines@.skip(i as int).drop_first() =~= lines@.skip(i + 1));
        }
        let s = acc.similarity_to(&nxt);
        if s < tol {
            proof {
                lemma_similar_displacement(acc, nxt, tol as int);
            }
            acc = acc.merge_with(&nxt);
        } else {
            out.push(acc);
            acc = nxt;
        }
        i = i + 1;
    }
    proof {
        assert(lines@.skip(lines.len() as int) =~= Seq::<Line>::empty());
    }
    out.push(acc);
    out
}

/// The accumulated stroke stays within reach of the image: each
/// coordinate is at most the image bound plus twice the tolerance
/// plus twice the accumulated thickness.
pub open spec fn acc_bounded(acc: Line, tol: int) -> bool {
    let b = 0x2000 + 2 * (tol + acc.thickness + 1);
    &&& -b <= acc.start.0 <= b
    &&& -b <= acc.start.1 <= b
    &&& -b <= acc.end.0 <= b
    &&& -b <= acc.end.1 <= b
}

} // verus!
