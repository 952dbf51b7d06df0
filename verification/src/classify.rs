//! Stage four: deciding whether a residual region is a straight line.
//!
//! The test is a cheap linearity heuristic: count the region's pixels
//! per distinct y coordinate and per distinct x coordinate; when the
//! spread between the least- and most-populated bucket is small on
//! both axes, the region is taken for a straight stroke.  Its line
//! then runs between opposite diagonal corners of the bounding box
//! (smallest x paired with largest y, largest x with smallest y), and
//! its thickness is the mean of the smallest and largest per-column
//! count.  A region that fails either test is kept as an opaque pixel
//! region.

use vstd::prelude::*;
use crate::geometry::{Line, Point};

verus! {

/// How many entries of `r` have x coordinate `v`.
pub open spec fn count_x(r: Seq<(usize, usize)>, v: int) -> int
    decreases r.len(),
{
    if r.len() == 0 {
        0
    } else {
        count_x(r.drop_last(), v) + if r.last().0 == v {
            1int
        } else {
            0int
        }
    }
}

/// How many entries of `r` have y coordinate `v`.
pub open spec fn count_y(r: Seq<(usize, usize)>, v: int) -> int
    decreases r.len(),
{
    if r.len() == 0 {
        0
    } else {
        count_y(r.drop_last(), v) + if r.last().1 == v {
            1int
        } else {
            0int
        }
    }
}

/// The least per-bucket x count among the first `k` entries.
pub open spec fn min_count_x(r: Seq<(usize, usize)>, k: int) -> int
    decreases k,
{
    if k <= 1 {
        count_x(r, r[0].0 as int)
    } else {
        vstd::math::min(min_count_x(r, k - 1), count_x(r, r[k - 1].0 as int))
    }
}

/// The greatest per-bucket x count among the first `k` entries.
pub open spec fn max_count_x(r: Seq<(usize, usize)>, k: int) -> int
    decreases k,
{
    if k <= 1 {
        count_x(r, r[0].0 as int)
    } else {
        vstd::math::max(max_count_x(r, k - 1), count_x(r, r[k - 1].0 as int))
    }
}

/// The least per-bucket y count among the first `k` entries.
pub open spec fn min_count_y(r: Seq<(usize, usize)>, k: int) -> int
    decreases k,
{
    if k <= 1 {
        count_y(r, r[0].1 as int)
    } else {
        vstd::math::min(min_count_y(r, k - 1), count_y(r, r[k - 1].1 as int))
    }
}

/// The greatest per-bucket y count among the first `k` entries.
pub open spec fn max_count_y(r: Seq<(usize, usize)>, k: int) -> int
    decreases k,
{
    if k <= 1 {
        count_y(r, r[0].1 as int)
    } else {
        vstd::math::max(max_count_y(r, k - 1), count_y(r, r[k - 1].1 as int))
    }
}

/// The smallest x coordinate of the first `k` entries.
pub open spec fn min_x(r: Seq<(usize, usize)>, k: int) -> int
    decreases k,
{
    if k <= 1 {
        r[0].0 as int
    } else {
        vstd::math::min(min_x(r, k - 1), r[k - 1].0 as int)
    }
}

/// The largest x coordinate of the first `k` entries.
pub open spec fn max_x(r: Seq<(usize, usize)>, k: int) -> int
    decreases k,
{
    if k <= 1 {
        r[0].0 as int
    } else {
        vstd::math::max(max_x(r, k - 1), r[k - 1].0 as int)
    }
}

/// The smallest y coordinate of the first `k` entries.
pub open spec fn min_y(r: Seq<(usize, usize)>, k: int) -> int
    decreases k,
{
    if k <= 1 {
        r[0].1 as int
    } else {
        vstd::math::min(min_y(r, k - 1), r[k - 1].1 as int)
    }
}

/// The largest y coordinate of the first `k` entries.
pub open spec fn max_y(r: Seq<(usize, usize)>, k: int) -> int
    decreases k,
{
    if k <= 1 {
        r[0].1 as int
    } else {
        vstd::math::max(max_y(r, k - 1), r[k - 1].1 as int)
    }
}

/// A nonempty region passes the linearity test when both per-axis
/// count spreads stay strictly below their tolerances.
pub open spec fn region_is_line(r: Seq<(usize, usize)>, y_tol: int, x_tol: int) -> bool {
    &&& r.len() >= 1
    &&& max_count_y(r, r.len() as int) - min_count_y(r, r.len() as int) < y_tol
    &&& max_count_x(r, r.len() as int) - min_count_x(r, r.len() as int) < x_tol
}

/// The line a linear region stands for: between opposite diagonal
/// corners of its bounding box, with the mean extreme column count as
/// thickness.
pub open spec fn region_line(r: Seq<(usize, usize)>) -> Line {
    let n = r.len() as int;
    Line {
        start: Point(min_x(r, n) as i64, max_y(r, n) as i64),
        end: Point(max_x(r, n) as i64, min_y(r, n) as i64),
        thickness: ((min_count_x(r, n) + max_count_x(r, n)) / 2) as i64,
    }
}

/// Every entry's own bucket holds at least itself.
proof fn lemma_count_x_pos(r: Seq<(usize, usize)>, i: int)
    requires
        0 <= i < r.len(),
    ensures
        count_x(r, r[i].0 as int) >= 1,
        count_x(r, r[i].0 as int) <= r.len(),
    decreases r.len(),
{
    lemma_count_x_bound(r, r[i].0 as int);
    if i == r.len() - 1 {
        lemma_count_x_nonneg(r.drop_last(), r[i].0 as int);
    } else {
        lemma_count_x_pos(r.drop_last(), i);
    }
}

proof fn lemma_count_x_nonneg(r: Seq<(usize, usize)>, v: int)
    ensures
        count_x(r, v) >= 0,
    decreases r.len(),
{
    if r.len() > 0 {
        lemma_count_x_nonneg(r.drop_last(), v);
    }
}

proof fn lemma_count_x_bound(r: Seq<(usize, usize)>, v: int)
    ensures
        count_x(r, v) <= r.len(),
    decreases r.len(),
{
    if r.len() > 0 {
        lemma_count_x_bound(r.drop_last(), v);
        lemma_count_x_nonneg(r.drop_last(), v);
    }
}

proof fn lemma_count_y_pos(r: Seq<(usize, usize)>, i: int)
    requires
        0 <= i < r.len(),
    ensures
        count_y(r, r[i].1 as int) >= 1,
        count_y(r, r[i].1 as int) <= r.len(),
    decreases r.len(),
{
    lemma_count_y_bound(r, r[i].1 as int);
    if i == r.len() - 1 {
        lemma_count_y_nonneg(r.drop_last(), r[i].1 as int);
    } else {
        lemma_count_y_pos(r.drop_last(), i);
    }
}

proof fn lemma_count_y_nonneg(r: Seq<(usize, usize)>, v: int)
    ensures
        count_y(r, v) >= 0,
    decreases r.len(),
{
    if r.len() > 0 {
        lemma_count_y_nonneg(r.drop_last(), v);
    }
}

proof fn lemma_count_y_bound(r: Seq<(usize, usize)>, v: int)
    ensures
        count_y(r, v) <= r.len(),
    decreases r.len(),
{
    if r.len() > 0 {
        lemma_count_y_bound(r.drop_last(), v);
        lemma_count_y_nonneg(r.drop_last(), v);
    }
}

/// Count the entries of `region` whose x coordinate is `v`.
fn count_matching_x(region: &Vec<(usize, usize)>, v: usize) -> (cnt: usize)
    requires
        region.len() <= 0x10000,
    ensures
        cnt == count_x(region@, v as int),
        cnt <= region.len(),
{
    let mut cnt: usize = 0;
    let mut j: usize = 0;
    while j < region.len()
        invariant
            region.len() <= 0x10000,
            j <= region.len(),
            cnt <= j,
            cnt == count_x(region@.take(j as int), v as int),
        decreases region.len() - j,
    {
        proof {
            assert(region@.take(j + 1).drop_last() =~= region@.take(j as int));
            assert(region@.take(j + 1).last() == region@[j as int]);
        }
        if region[j].0 == v {
            cnt = cnt + 1;
        }
        j = j + 1;
    }
    proof {
        assert(region@.take(region@.len() as int) =~= region@);
    }
    cnt
}

/// Count the entries of `region` whose y coordinate is `v`.
fn count_matching_y(region: &Vec<(usize, usize)>, v: usize) -> (cnt: usize)
    requires
        region.len() <= 0x10000,
    ensures
        cnt == count_y(region@, v as int),
        cnt <= region.len(),
{
    let mut cnt: usize = 0;
    let mut j: usize = 0;
    while j < region.len()
        invariant
            region.len() <= 0x10000,
            j <= region.len(),
            cnt <= j,
            cnt == count_y(region@.take(j as int), v as int),
        decreases region.len() - j,
    {
        proof {
            assert(region@.take(j + 1).drop_last() =~= region@.take(j as int));
            assert(region@.take(j + 1).last() == region@[j as int]);
        }
        if region[j].1 == v {
            cnt = cnt + 1;
        }
        j = j + 1;
    }
    proof {
        assert(region@.take(region@.len() as int) =~= region@);
    }
    cnt
}

/// Stage four: classify one residual region.  `Some(line)` exactly
/// when both per-axis spreads pass, with the line determined by the
/// bounding box and extreme column counts; `None` otherwise.
pub fn classify_region(region: &Vec<(usize, usize)>, y_tol: usize, x_tol: usize) -> (res:
    Option<Line>)
    requires
        region.len() <= 0x10000,
        forall|i: int|
            0 <= i < region.len() ==> (#[trigger] region[i]).0 <= 0x2000 && region[i].1
                <= 0x2000,
    ensures
        res.is_some() <==> region_is_line(region@, y_tol as int, x_tol as int),
        res.is_some() ==> res == Some(region_line(region@)),
        res.is_some() ==> ({
            let l = region_line(region@);
            &&& 0 <= l.start.0 <= 0x2000
            &&& 0 <= l.start.1 <= 0x2000
            &&& 0 <= l.end.0 <= 0x2000
            &&& 0 <= l.end.1 <= 0x2000
            &&& 1 <= l.thickness <= 0x10000
        }),
{
    if region.len() == 0 {
        return None;
    }
    let n = region.len();
    let c0 = count_matching_y(region, region[0].1);
    let mut mny: usize = c0;
    let mut mxy: usize = c0;
    let mut i: usize = 1;
    proof {
        lemma_count_y_pos(region@, 0);
    }
    while i < n
        invariant
            n == region.len(),
            1 <= n <= 0x10000,
            1 <= i <= n,
            1 <= mny <= mxy <= n,
            mny == min_count_y(region@, i as int),
            mxy == max_count_y(region@, i as int),
        decreases n - i,
    {
        let c = count_matching_y(region, region[i].1);
        proof {
            lemma_count_y_pos(region@, i as int);
        }
        if c < mny {
            mny = c;
        }
        if c > mxy {
            mxy = c;
        }
        i = i + 1;
    }
    if !(mxy - mny < y_tol) {
        return None;
    }
    let c0x = count_matching_x(region, region[0].0);
    let mut mnx: usize = c0x;
    let mut mxx: usize = c0x;
    let mut i2: usize = 1;
    proof {
        lemma_count_x_pos(region@, 0);
    }
    while i2 < n
        invariant
            n == region.len(),
            1 <= n <= 0x10000,
            1 <= i2 <= n,
            1 <= mnx <= mxx <= n,
            mnx == min_count_x(region@, i2 as int),
            mxx == max_count_x(region@, i2 as int),
        decreases n - i2,
    {
        let c = count_matching_x(region, region[i2].0);
        proof {
            lemma_count_x_pos(region@, i2 as int);
        }
        if c < mnx {
            mnx = c;
        }
        if c > mxx {
            mxx = c;
        }
        i2 = i2 + 1;
    }
    if !(mxx - mnx < x_tol) {
        return None;
    }
    let mut bminx: usize = region[0].0;
    let mut bmaxx: usize = region[0].0;
    let mut bminy: usize = region[0].1;
    let mut bmaxy: usize = region[0].1;
    let mut i3: usize = 1;
    while i3 < n
        invariant
            n == region.len(),
            1 <= n,
            forall|k: int|
                0 <= k < region.len() ==> (#[trigger] region[k]).0 <= 0x2000 && region[k].1
                    <= 0x2000,
            1 <= i3 <= n,
            bminx <= 0x2000 && bmaxx <= 0x2000 && bminy <= 0x2000 && bmaxy <= 0x2000,
            bminx == min_x(region@, i3 as int),
            bmaxx == max_x(region@, i3 as int),
            bminy == min_y(region@, i3 as int),
            bmaxy == max_y(region@, i3 as int),
        decreases n - i3,
    {
        let (px, py) = region[i3];
        if px < bminx {
            bminx = px;
        }
        if px > bmaxx {
            bmaxx = px;
        }
        if py < bminy {
            bminy = py;
        }
        if py > bmaxy {
            bmaxy = py;
        }
        i3 = i3 + 1;
    }
    let thickness = (mnx + mxx) / 2;
    Some(
        Line {
            start: Point(bminx as i64, bmaxy as i64),
            end: Point(bmaxx as i64, bminy as i64),
            thickness: thickness as i64,
        },
    )
}

} // verus!
