//! Stage three: flood-fill extraction of residual regions.
//!
//! After the horizontal strokes are erased, every remaining ink pixel
//! belongs to a residual region: a maximal 8-connected component of
//! ink (diagonal strokes, blobs, junction marks).  The fill walks an
//! explicit work stack — never the call stack — and erases each pixel
//! the moment it collects it, so the erasure itself is the visited
//! marker and memory stays bounded by the region size.
//!
//! A collected pixel is stored as `(x, height - y)`: the row is
//! flipped so the y coordinate increases upward, matching the
//! geometric coordinates used for lines.

use vstd::prelude::*;
use crate::raster::{count_ink_seq, lemma_count_ink_update, white, Raster};

verus! {

/// Two pixel positions are distinct 8-connected neighbours.
pub open spec fn adj8(x1: int, y1: int, x2: int, y2: int) -> bool {
    !(x1 == x2 && y1 == y2) && -1 <= x1 - x2 <= 1 && -1 <= y1 - y2 <= 1
}

/// A path of valid ink pixels, each step between 8-neighbours.
pub open spec fn is_ink_path(img: Raster, thr: u8, p: Seq<(int, int)>) -> bool {
    &&& p.len() >= 1
    &&& forall|i: int|
        0 <= i < p.len() ==> img.valid_xy((#[trigger] p[i]).0, p[i].1) && img.ink_at(
            p[i].0,
            p[i].1,
            thr,
        )
    &&& forall|i: int|
        0 <= i < p.len() - 1 ==> adj8((#[trigger] p[i]).0, p[i].1, p[i + 1].0, p[i + 1].1)
}

/// The pixel `(x, y)` can be reached from `(sx, sy)` through ink
/// pixels of `img`, stepping between 8-neighbours.
pub open spec fn reachable(img: Raster, thr: u8, sx: int, sy: int, x: int, y: int) -> bool {
    exists|p: Seq<(int, int)>|
        is_ink_path(img, thr, p) && p.first() == (sx, sy) && p.last() == (x, y)
}

proof fn lemma_reach_refl(img: Raster, thr: u8, x: int, y: int)
    requires
        img.valid_xy(x, y),
        img.ink_at(x, y, thr),
    ensures
        reachable(img, thr, x, y, x, y),
{
    let p = seq![(x, y)];
    assert(is_ink_path(img, thr, p));
    assert(p.first() == (x, y) && p.last() == (x, y));
}

proof fn lemma_reach_step(img: Raster, thr: u8, sx: int, sy: int, x: int, y: int, nx: int, ny: int)
    requires
        reachable(img, thr, sx, sy, x, y),
        adj8(x, y, nx, ny),
        img.valid_xy(nx, ny),
        img.ink_at(nx, ny, thr),
    ensures
        reachable(img, thr, sx, sy, nx, ny),
{
    let p = choose|p: Seq<(int, int)>|
        is_ink_path(img, thr, p) && p.first() == (sx, sy) && p.last() == (x, y);
    let q = p.push((nx, ny));
    assert forall|i: int| 0 <= i < q.len() - 1 implies adj8(
        (#[trigger] q[i]).0,
        q[i].1,
        q[i + 1].0,
        q[i + 1].1,
    ) by {
        if i < p.len() - 1 {
            assert(q[i] == p[i] && q[i + 1] == p[i + 1]);
        } else {
            assert(q[i] == p.last() && q[i + 1] == (nx, ny));
        }
    }
    assert(is_ink_path(img, thr, q));
    assert(q.first() == (sx, sy) && q.last() == (nx, ny));
}

/// Some entry of the region stands for image pixel `(x, y)` (entries
/// store the row flipped: `(x, height - y)`).
pub open spec fn region_covers(region: Seq<(usize, usize)>, height: int, x: int, y: int) -> bool {
    exists|i: int|
        0 <= i < region.len() && (#[trigger] region[i]).0 == x && height - region[i].1 == y
}

/// The image pixel `(x, y)` is on the pending stack.
pub open spec fn in_stack(stack: Seq<(usize, usize)>, x: int, y: int) -> bool {
    exists|i: int| 0 <= i < stack.len() && (#[trigger] stack[i]).0 == x && stack[i].1 == y
}

/// Every valid ink neighbour (in the original raster `img0`) of
/// `(x, y)` is already collected in the region.
pub open spec fn neighbors_done(
    img0: Raster,
    region: Seq<(usize, usize)>,
    x: int,
    y: int,
    thr: u8,
) -> bool {
    forall|nx: int, ny: int|
        adj8(x, y, nx, ny) && img0.valid_xy(nx, ny) && img0.ink_at(nx, ny, thr)
            ==> region_covers(region, img0.height as int, nx, ny)
}

/// The working state of one flood fill: `img` is `img0` with exactly
/// the collected pixels erased; every collected pixel was ink in
/// `img0` and is reachable from the seed; the stack holds collected
/// pixels still waiting to have their neighbours visited.
pub open spec fn fill_inv_core(
    img: Raster,
    region: Seq<(usize, usize)>,
    stack: Seq<(usize, usize)>,
    img0: Raster,
    sx: int,
    sy: int,
    thr: u8,
) -> bool {
    &&& img.wf()
    &&& img0.wf()
    &&& img.same_dims(img0)
    &&& img0.valid_xy(sx, sy)
    &&& img0.ink_at(sx, sy, thr)
    &&& forall|xx: int, yy: int|
        img.valid_xy(xx, yy) ==> img.color_at(xx, yy) == (if region_covers(
            region,
            img0.height as int,
            xx,
            yy,
        ) {
            white()
        } else {
            img0.color_at(xx, yy)
        })
    &&& forall|i: int|
        0 <= i < region.len() ==> (#[trigger] region[i]).0 < img0.width && 1 <= region[i].1
            <= img0.height && img0.ink_at(
            region[i].0 as int,
            img0.height - region[i].1,
            thr,
        ) && reachable(img0, thr, sx, sy, region[i].0 as int, img0.height - region[i].1)
    &&& region.no_duplicates()
    &&& forall|i: int|
        0 <= i < stack.len() ==> img0.valid_xy(
            (#[trigger] stack[i]).0 as int,
            stack[i].1 as int,
        ) && region_covers(region, img0.height as int, stack[i].0 as int, stack[i].1 as int)
}

/// Every collected pixel either still waits on the stack or already
/// has all its ink neighbours collected — except possibly the pixel
/// `(px, py)` whose neighbours are being visited right now.
pub open spec fn closure_except(
    region: Seq<(usize, usize)>,
    stack: Seq<(usize, usize)>,
    img0: Raster,
    thr: u8,
    px: int,
    py: int,
) -> bool {
    forall|i: int|
        0 <= i < region.len() ==> ((#[trigger] region[i]).0 == px && img0.height - region[i].1
            == py) || in_stack(stack, region[i].0 as int, img0.height - region[i].1)
            || neighbors_done(img0, region, region[i].0 as int, img0.height - region[i].1, thr)
}

proof fn lemma_covers_push(region: Seq<(usize, usize)>, e: (usize, usize), height: int, x: int, y: int)
    requires
        region_covers(region, height, x, y),
    ensures
        region_covers(region.push(e), height, x, y),
{
    let i = choose|i: int|
        0 <= i < region.len() && (#[trigger] region[i]).0 == x && height - region[i].1 == y;
    assert(region.push(e)[i] == region[i]);
}

proof fn lemma_in_stack_push(stack: Seq<(usize, usize)>, e: (usize, usize), x: int, y: int)
    requires
        in_stack(stack, x, y),
    ensures
        in_stack(stack.push(e), x, y),
{
    let i = choose|i: int|
        0 <= i < stack.len() && (#[trigger] stack[i]).0 == x && stack[i].1 == y;
    assert(stack.push(e)[i] == stack[i]);
}

/// Visit one neighbour position during a fill: if it is still ink,
/// erase it, collect it, and queue it for its own neighbour visit.
fn visit(
    img: &mut Raster,
    region: &mut Vec<(usize, usize)>,
    stack: &mut Vec<(usize, usize)>,
    nx: usize,
    ny: usize,
    thr: u8,
    Ghost(img0): Ghost<Raster>,
    Ghost(seed): Ghost<(int, int)>,
    Ghost(pend): Ghost<(int, int)>,
)
    requires
        fill_inv_core(*old(img), old(region)@, old(stack)@, img0, seed.0, seed.1, thr),
        closure_except(old(region)@, old(stack)@, img0, thr, pend.0, pend.1),
        nx < img0.width,
        ny < img0.height,
        img0.ink_at(nx as int, ny as int, thr) ==> reachable(
            img0,
            thr,
            seed.0,
            seed.1,
            nx as int,
            ny as int,
        ),
    ensures
        fill_inv_core(*final(img), final(region)@, final(stack)@, img0, seed.0, seed.1, thr),
        closure_except(final(region)@, final(stack)@, img0, thr, pend.0, pend.1),
        forall|x: int, y: int|
            region_covers(old(region)@, img0.height as int, x, y) ==> region_covers(
                final(region)@,
                img0.height as int,
                x,
                y,
            ),
        forall|x: int, y: int|
            in_stack(old(stack)@, x, y) ==> in_stack(final(stack)@, x, y),
        old(region)@.len() <= final(region)@.len(),
        forall|i: int| 0 <= i < old(region)@.len() ==> final(region)@[i] == old(region)@[i],
        img0.ink_at(nx as int, ny as int, thr) ==> region_covers(
            final(region)@,
            img0.height as int,
            nx as int,
            ny as int,
        ),
        count_ink_seq(final(img).pixels@, thr) <= count_ink_seq(old(img).pixels@, thr),
        final(stack)@.len() >= old(stack)@.len(),
        final(stack)@.len() > old(stack)@.len() ==> count_ink_seq(final(img).pixels@, thr)
            < count_ink_seq(old(img).pixels@, thr),
{
    let ghost h = img0.height as int;
    if img.is_ink_at(nx, ny, thr) {
        proof {
            // An already collected pixel would be white, not ink.
            if region_covers(region@, h, nx as int, ny as int) {
                assert(img.color_at(nx as int, ny as int) == white());
                assert(false);
            }
            assert(img0.ink_at(nx as int, ny as int, thr));
        }
        let ghost old_pixels = img.pixels@;
        img.erase(nx, ny);
        proof {
            crate::raster::lemma_grid_index(
                img0.width as int,
                img0.height as int,
                nx as int,
                ny as int,
            );
            lemma_count_ink_update(
                old_pixels,
                ny * img0.width + nx,
                white(),
                thr,
            );
        }
        let e = (nx, img.height - ny);
        let ghost old_region = region@;
        let ghost old_stack = stack@;
        region.push(e);
        stack.push((nx, ny));
        proof {
            assert(region@ == old_region.push(e));
            assert(stack@ == old_stack.push((nx, ny)));
            assert(region@[old_region.len() as int] == e);
            assert(stack@[old_stack.len() as int] == (nx, ny));
            // Coverage extends by exactly the new pixel.
            assert forall|x: int, y: int|
                region_covers(old_region, h, x, y) implies region_covers(
                region@,
                h,
                x,
                y,
            ) by {
                lemma_covers_push(old_region, e, h, x, y);
            }
            assert(region_covers(region@, h, nx as int, ny as int));
            assert forall|x: int, y: int|
                region_covers(region@, h, x, y) && !(x == nx && y == ny) implies region_covers(
                old_region,
                h,
                x,
                y,
            ) by {
                let i = choose|i: int|
                    0 <= i < region@.len() && (#[trigger] region@[i]).0 == x && h
                        - region@[i].1 == y;
                assert(i < old_region.len());
            }
            // The erased-exactly clause, pointwise.
            assert forall|xx: int, yy: int| img.valid_xy(xx, yy) implies img.color_at(xx, yy)
                == (if region_covers(region@, h, xx, yy) {
                white()
            } else {
                img0.color_at(xx, yy)
            }) by {}
            // The new entry is fresh, so distinctness is kept.
            assert(!old_region.contains(e)) by {
                if old_region.contains(e) {
                    let i = choose|i: int|
                        0 <= i < old_region.len() && old_region[i] == e;
                    assert(region_covers(old_region, h, nx as int, ny as int));
                }
            }
            // Stack entries persist.
            assert forall|x: int, y: int| in_stack(old_stack, x, y) implies in_stack(
                stack@,
                x,
                y,
            ) by {
                lemma_in_stack_push(old_stack, (nx, ny), x, y);
            }
            // Closure: the new entry is on the stack; old entries keep
            // whichever disjunct they had.
            assert(in_stack(stack@, nx as int, ny as int));
            assert forall|i: int|
                0 <= i < region@.len() implies ((#[trigger] region@[i]).0 == pend.0
                && h - region@[i].1 == pend.1) || in_stack(
                stack@,
                region@[i].0 as int,
                h - region@[i].1,
            ) || neighbors_done(img0, region@, region@[i].0 as int, h - region@[i].1, thr) by {
                if i < old_region.len() {
                    let ex = region@[i].0 as int;
                    let ey = h - region@[i].1;
                    if !(ex == pend.0 && ey == pend.1) {
                        if in_stack(old_stack, ex, ey) {
                            lemma_in_stack_push(old_stack, (nx, ny), ex, ey);
                        } else {
                            assert(neighbors_done(img0, old_region, ex, ey, thr));
                            assert forall|qx: int, qy: int|
                                adj8(ex, ey, qx, qy) && img0.valid_xy(qx, qy) && img0.ink_at(
                                    qx,
                                    qy,
                                    thr,
                                ) implies region_covers(region@, h, qx, qy) by {
                                lemma_covers_push(old_region, e, h, qx, qy);
                            }
                        }
                    }
                }
            }
        }
    } else {
        proof {
            if img0.ink_at(nx as int, ny as int, thr) {
                // Not ink any more means it was erased, hence collected.
                if !region_covers(region@, h, nx as int, ny as int) {
                    assert(img.color_at(nx as int, ny as int) == img0.color_at(
                        nx as int,
                        ny as int,
                    ));
                    assert(false);
                }
            }
        }
    }
}

/// One flood fill: collect the whole 8-connected ink component of the
/// seed `(x, y)`, erasing each pixel as it is collected.
///
/// On return the erased pixels are exactly the collected ones; every
/// collected pixel was ink, is reachable from the seed, and has all
/// its ink neighbours collected too (the component is maximal).
#[verifier::rlimit(100)]
pub fn extract_shape(img: &mut Raster, x: usize, y: usize, thr: u8) -> (region: Vec<
    (usize, usize),
>)
    requires
        old(img).wf(),
        x < old(img).width,
        y < old(img).height,
        old(img).ink_at(x as int, y as int, thr),
    ensures
        final(img).wf(),
        final(img).same_dims(*old(img)),
        region@.len() >= 1,
        region@[0].0 == x && region@[0].1 + y == old(img).height,
        region@.no_duplicates(),
        forall|i: int|
            0 <= i < region@.len() ==> (#[trigger] region@[i]).0 < old(img).width && 1
                <= region@[i].1 <= old(img).height && old(img).ink_at(
                region@[i].0 as int,
                old(img).height - region@[i].1,
                thr,
            ) && reachable(
                *old(img),
                thr,
                x as int,
                y as int,
                region@[i].0 as int,
                old(img).height - region@[i].1,
            ),
        forall|xx: int, yy: int|
            final(img).valid_xy(xx, yy) ==> final(img).color_at(xx, yy) == (if region_covers(
                region@,
                old(img).height as int,
                xx,
                yy,
            ) {
                white()
            } else {
                old(img).color_at(xx, yy)
            }),
        forall|i: int|
            0 <= i < region@.len() ==> neighbors_done(
                *old(img),
                region@,
                (#[trigger] region@[i]).0 as int,
                old(img).height - region@[i].1,
                thr,
            ),
{
    let ghost img0 = *img;
    let ghost h = img0.height as int;
    let ghost sx = x as int;
    let ghost sy = y as int;
    let mut region: Vec<(usize, usize)> = Vec::new();
    let mut stack: Vec<(usize, usize)> = Vec::new();
    let ghost old_pixels = img.pixels@;
    img.erase(x, y);
    proof {
        crate::raster::lemma_grid_index(img0.width as int, img0.height as int, sx, sy);
        lemma_count_ink_update(old_pixels, y * img0.width + x, white(), thr);
        lemma_reach_refl(img0, thr, sx, sy);
    }
    let e0 = (x, img.height - y);
    region.push(e0);
    stack.push((x, y));
    proof {
        assert(region@[0] == e0);
        assert(stack@[0] == (x, y));
        assert(region_covers(region@, h, sx, sy));
        assert forall|xx: int, yy: int|
            region_covers(region@, h, xx, yy) implies xx == sx && yy == sy by {
            let i = choose|i: int|
                0 <= i < region@.len() && (#[trigger] region@[i]).0 == xx && h - region@[i].1
                    == yy;
            assert(i == 0);
        }
        assert(in_stack(stack@, sx, sy));
        assert(fill_inv_core(*img, region@, stack@, img0, sx, sy, thr));
        assert(closure_except(region@, stack@, img0, thr, -1, -1));
    }
    while stack.len() > 0
        invariant
            h == img0.height as int,
            fill_inv_core(*img, region@, stack@, img0, sx, sy, thr),
            closure_except(region@, stack@, img0, thr, -1, -1),
            region@.len() >= 1,
            region@[0] == e0,
            e0.0 == x && e0.1 + y == img0.height,
        decreases count_ink_seq(img.pixels@, thr), stack@.len(),
    {
        let ghost stack_before = stack@;
        let top = stack.pop().unwrap();
        let cx = top.0;
        let cy = top.1;
        let ghost cxi = cx as int;
        let ghost cyi = cy as int;
        let ghost pend = (cxi, cyi);
        proof {
            let ghost jt = stack_before.len() - 1;
            assert(stack_before[jt] == top);
            assert(img0.valid_xy(stack_before[jt].0 as int, stack_before[jt].1 as int)
                && region_covers(
                region@,
                h,
                stack_before[jt].0 as int,
                stack_before[jt].1 as int,
            ));
            assert(img0.valid_xy(cxi, cyi));
            assert(region_covers(region@, h, cxi, cyi));
            // The popped pixel is reachable from the seed.
            let i = choose|i: int|
                0 <= i < region@.len() && (#[trigger] region@[i]).0 == cxi && h - region@[i].1
                    == cyi;
            assert(reachable(img0, thr, sx, sy, cxi, cyi));
            // Closure still holds for every pixel but the popped one.
            assert forall|k: int|
                0 <= k < region@.len() implies ((#[trigger] region@[k]).0 == pend.0 && h
                - region@[k].1 == pend.1) || in_stack(
                stack@,
                region@[k].0 as int,
                h - region@[k].1,
            ) || neighbors_done(img0, region@, region@[k].0 as int, h - region@[k].1, thr) by {
                let ex = region@[k].0 as int;
                let ey = h - region@[k].1;
                if !(ex == pend.0 && ey == pend.1) && in_stack(stack_before, ex, ey) {
                    let j = choose|j: int|
                        0 <= j < stack_before.len() && (#[trigger] stack_before[j]).0 == ex
                            && stack_before[j].1 == ey;
                    if j == stack_before.len() - 1 {
                        assert(ex == cxi && ey == cyi);
                        assert(false);
                    } else {
                        assert(stack@[j] == stack_before[j]);
                        assert(in_stack(stack@, ex, ey));
                    }
                }
            }
        }
        let w = img.width;
        let hh = img.height;
        proof {
            if cxi + 1 < img0.width && img0.ink_at(cxi + 1, cyi, thr) {
                lemma_reach_step(img0, thr, sx, sy, cxi, cyi, cxi + 1, cyi);
            }
        }
        if cx + 1 < w {
            visit(img, &mut region, &mut stack, cx + 1, cy, thr, Ghost(img0), Ghost((sx, sy)),
                Ghost(pend));
        }
        proof {
            if cxi - 1 >= 0 && img0.ink_at(cxi - 1, cyi, thr) {
                lemma_reach_step(img0, thr, sx, sy, cxi, cyi, cxi - 1, cyi);
            }
        }
        if cx > 0 {
            visit(img, &mut region, &mut stack, cx - 1, cy, thr, Ghost(img0), Ghost((sx, sy)),
                Ghost(pend));
        }
        proof {
            if cyi + 1 < img0.height && img0.ink_at(cxi, cyi + 1, thr) {
                lemma_reach_step(img0, thr, sx, sy, cxi, cyi, cxi, cyi + 1);
            }
            if cxi + 1 < img0.width && cyi + 1 < img0.height && img0.ink_at(
                cxi + 1,
                cyi + 1,
                thr,
            ) {
                lemma_reach_step(img0, thr, sx, sy, cxi, cyi, cxi + 1, cyi + 1);
            }
            if cxi - 1 >= 0 && cyi + 1 < img0.height && img0.ink_at(cxi - 1, cyi + 1, thr) {
                lemma_reach_step(img0, thr, sx, sy, cxi, cyi, cxi - 1, cyi + 1);
            }
        }
        if cy + 1 < hh {
            visit(img, &mut region, &mut stack, cx, cy + 1, thr, Ghost(img0), Ghost((sx, sy)),
                Ghost(pend));
            if cx + 1 < w {
                visit(img, &mut region, &mut stack, cx + 1, cy + 1, thr, Ghost(img0),
                    Ghost((sx, sy)), Ghost(pend));
            }
            if cx > 0 {
                visit(img, &mut region, &mut stack, cx - 1, cy + 1, thr, Ghost(img0),
                    Ghost((sx, sy)), Ghost(pend));
            }
        }
        proof {
            if cyi - 1 >= 0 && img0.ink_at(cxi, cyi - 1, thr) {
                lemma_reach_step(img0, thr, sx, sy, cxi, cyi, cxi, cyi - 1);
            }
            if cxi + 1 < img0.width && cyi - 1 >= 0 && img0.ink_at(cxi + 1, cyi - 1, thr) {
                lemma_reach_step(img0, thr, sx, sy, cxi, cyi, cxi + 1, cyi - 1);
            }
            if cxi - 1 >= 0 && cyi - 1 >= 0 && img0.ink_at(cxi - 1, cyi - 1, thr) {
                lemma_reach_step(img0, thr, sx, sy, cxi, cyi, cxi - 1, cyi - 1);
            }
        }
        if cy > 0 {
            visit(img, &mut region, &mut stack, cx, cy - 1, thr, Ghost(img0), Ghost((sx, sy)),
                Ghost(pend));
            if cx + 1 < w {
                visit(img, &mut region, &mut stack, cx + 1, cy - 1, thr, Ghost(img0),
                    Ghost((sx, sy)), Ghost(pend));
            }
            if cx > 0 {
                visit(img, &mut region, &mut stack, cx - 1, cy - 1, thr, Ghost(img0),
                    Ghost((sx, sy)), Ghost(pend));
            }
        }
        proof {
            // The popped pixel's neighbours are all settled now, so the
            // full closure holds again.
            assert forall|k: int|
                0 <= k < region@.len() implies ((#[trigger] region@[k]).0 == -1 && h
                - region@[k].1 == -1) || in_stack(
                stack@,
                region@[k].0 as int,
                h - region@[k].1,
            ) || neighbors_done(img0, region@, region@[k].0 as int, h - region@[k].1, thr) by {
                let ex = region@[k].0 as int;
                let ey = h - region@[k].1;
                if ex == cxi && ey == cyi {
                    assert forall|qx: int, qy: int|
                        adj8(cxi, cyi, qx, qy) && img0.valid_xy(qx, qy) && img0.ink_at(
                            qx,
                            qy,
                            thr,
                        ) implies region_covers(region@, h, qx, qy) by {
                        assert(cxi - 1 <= qx <= cxi + 1 && cyi - 1 <= qy <= cyi + 1);
                    }
                }
            }
        }
    }
    proof {
        assert forall|i: int|
            0 <= i < region@.len() implies neighbors_done(
            img0,
            region@,
            (#[trigger] region@[i]).0 as int,
            h - region@[i].1,
            thr,
        ) by {
            assert(!in_stack(stack@, region@[i].0 as int, h - region@[i].1));
            assert(!(region@[i].0 == -1));
        }
    }
    region
}

/// What one extracted region guarantees relative to the raster the
/// sweep started from: a nonempty duplicate-free list of pixels that
/// were all ink, mutually reachable from the region's first pixel,
/// and with no ink neighbour left outside the region.
pub open spec fn good_region(img0: Raster, region: Seq<(usize, usize)>, thr: u8) -> bool {
    &&& region.len() >= 1
    &&& region.no_duplicates()
    &&& forall|i: int|
        0 <= i < region.len() ==> (#[trigger] region[i]).0 < img0.width && 1 <= region[i].1
            <= img0.height && img0.ink_at(
            region[i].0 as int,
            img0.height - region[i].1,
            thr,
        ) && reachable(
            img0,
            thr,
            region[0].0 as int,
            img0.height - region[0].1,
            region[i].0 as int,
            img0.height - region[i].1,
        )
    &&& forall|i: int|
        0 <= i < region.len() ==> neighbors_done(
            img0,
            region,
            (#[trigger] region[i]).0 as int,
            img0.height - region[i].1,
            thr,
        )
}

/// Some region of the collection covers image pixel `(x, y)`.
pub open spec fn any_covers(
    regions: Seq<Vec<(usize, usize)>>,
    height: int,
    x: int,
    y: int,
) -> bool {
    exists|k: int|
        0 <= k < regions.len() && region_covers((#[trigger] regions[k])@, height, x, y)
}

proof fn lemma_reach_transfer(
    cur: Raster,
    img0: Raster,
    thr: u8,
    sx: int,
    sy: int,
    x: int,
    y: int,
)
    requires
        cur.width == img0.width,
        cur.height == img0.height,
        forall|a: int, b: int|
            cur.valid_xy(a, b) && cur.ink_at(a, b, thr) ==> img0.ink_at(a, b, thr),
        reachable(cur, thr, sx, sy, x, y),
    ensures
        reachable(img0, thr, sx, sy, x, y),
{
    let p = choose|p: Seq<(int, int)>|
        is_ink_path(cur, thr, p) && p.first() == (sx, sy) && p.last() == (x, y);
    assert forall|i: int| 0 <= i < p.len() implies img0.valid_xy((#[trigger] p[i]).0, p[i].1)
        && img0.ink_at(p[i].0, p[i].1, thr) by {
        assert(cur.valid_xy(p[i].0, p[i].1) && cur.ink_at(p[i].0, p[i].1, thr));
    }
    assert(is_ink_path(img0, thr, p));
}

/// Stage three, whole-raster sweep: scan every pixel in raster order
/// and flood-fill each remaining ink pixel into a region.
///
/// On return the working raster holds no ink at all; the regions are
/// pairwise disjoint, each is a maximal connected component, and
/// together they cover exactly the ink pixels the sweep started with.
#[verifier::rlimit(100)]
pub fn extract_regions(img: &mut Raster, thr: u8) -> (regions: Vec<Vec<(usize, usize)>>)
    requires
        old(img).wf(),
    ensures
        final(img).wf(),
        final(img).same_dims(*old(img)),
        forall|x: int, y: int|
            final(img).valid_xy(x, y) ==> !final(img).ink_at(x, y, thr),
        forall|k: int|
            0 <= k < regions.len() ==> good_region(*old(img), (#[trigger] regions[k])@, thr),
        forall|k1: int, k2: int, x: int, y: int|
            0 <= k1 < k2 < regions.len() && #[trigger] region_covers(
                regions[k1]@,
                old(img).height as int,
                x,
                y,
            ) ==> !(#[trigger] region_covers(regions[k2]@, old(img).height as int, x, y)),
        forall|x: int, y: int|
            old(img).valid_xy(x, y) ==> (old(img).ink_at(x, y, thr) <==> any_covers(
                regions@,
                old(img).height as int,
                x,
                y,
            )),
{
    let ghost img0 = *img;
    let ghost h = img0.height as int;
    let mut regions: Vec<Vec<(usize, usize)>> = Vec::new();
    let mut y: usize = 0;
    while y < img.height
        invariant
            h == img0.height as int,
            img0.wf(),
            img.wf(),
            img.same_dims(img0),
            y <= img0.height,
            forall|xx: int, yy: int|
                img.valid_xy(xx, yy) && yy < y ==> !img.ink_at(xx, yy, thr),
            forall|xx: int, yy: int|
                img.valid_xy(xx, yy) ==> img.color_at(xx, yy) == (if any_covers(
                    regions@,
                    h,
                    xx,
                    yy,
                ) {
                    white()
                } else {
                    img0.color_at(xx, yy)
                }),
            forall|k: int|
                0 <= k < regions.len() ==> good_region(img0, (#[trigger] regions[k])@, thr),
            forall|k1: int, k2: int, xx: int, yy: int|
                0 <= k1 < k2 < regions.len() && #[trigger] region_covers(
                    regions[k1]@,
                    h,
                    xx,
                    yy,
                ) ==> !(#[trigger] region_covers(regions[k2]@, h, xx, yy)),
        decreases img0.height - y,
    {
        let mut x: usize = 0;
        while x < img.width
            invariant
                h == img0.height as int,
                img0.wf(),
                img.wf(),
                img.same_dims(img0),
                y < img0.height,
                x <= img0.width,
                forall|xx: int, yy: int|
                    img.valid_xy(xx, yy) && (yy < y || (yy == y && xx < x)) ==> !img.ink_at(
                        xx,
                        yy,
                        thr,
                    ),
                forall|xx: int, yy: int|
                    img.valid_xy(xx, yy) ==> img.color_at(xx, yy) == (if any_covers(
                        regions@,
                        h,
                        xx,
                        yy,
                    ) {
                        white()
                    } else {
                        img0.color_at(xx, yy)
                    }),
                forall|k: int|
                    0 <= k < regions.len() ==> good_region(img0, (#[trigger] regions[k])@, thr),
                forall|k1: int, k2: int, xx: int, yy: int|
                    0 <= k1 < k2 < regions.len() && #[trigger] region_covers(
                        regions[k1]@,
                        h,
                        xx,
                        yy,
                    ) ==> !(#[trigger] region_covers(regions[k2]@, h, xx, yy)),
            decreases img0.width - x,
        {
            if img.is_ink_at(x, y, thr) {
                let ghost cur = *img;
                let ghost pre_regions = regions@;
                let region = extract_shape(img, x, y, thr);
                proof {
                    lemma_region_absorbed(img0, cur, pre_regions, region@, x as int, y as int, thr);
                }
                regions.push(region);
                proof {
                    assert(regions@.drop_last() =~= pre_regions);
                    assert(regions@[pre_regions.len() as int] == region);
                    assert forall|xx: int, yy: int| img.valid_xy(xx, yy) implies img.color_at(
                        xx,
                        yy,
                    ) == (if any_covers(regions@, h, xx, yy) {
                        white()
                    } else {
                        img0.color_at(xx, yy)
                    }) by {
                        if any_covers(regions@, h, xx, yy) {
                            let k = choose|k: int|
                                0 <= k < regions@.len() && region_covers(
                                    (#[trigger] regions@[k])@,
                                    h,
                                    xx,
                                    yy,
                                );
                            if k < pre_regions.len() {
                                assert(region_covers(pre_regions[k]@, h, xx, yy));
                                assert(any_covers(pre_regions, h, xx, yy));
                                assert(cur.color_at(xx, yy) == white());
                                assert(!cur.ink_at(xx, yy, thr));
                                if region_covers(region@, h, xx, yy) {
                                    assert(cur.ink_at(xx, yy, thr));
                                }
                                assert(img.color_at(xx, yy) == cur.color_at(xx, yy));
                            } else {
                                assert(region_covers(region@, h, xx, yy));
                            }
                        } else {
                            assert(!region_covers(region@, h, xx, yy)) by {
                                if region_covers(region@, h, xx, yy) {
                                    assert(region_covers(
                                        (regions@[pre_regions.len() as int])@,
                                        h,
                                        xx,
                                        yy,
                                    ));
                                }
                            }
                            assert(!any_covers(pre_regions, h, xx, yy)) by {
                                if any_covers(pre_regions, h, xx, yy) {
                                    let k = choose|k: int|
                                        0 <= k < pre_regions.len() && region_covers(
                                            (#[trigger] pre_regions[k])@,
                                            h,
                                            xx,
                                            yy,
                                        );
                                    assert(region_covers((regions@[k])@, h, xx, yy));
                                }
                            }
                        }
                    }
                    assert forall|k: int|
                        0 <= k < regions@.len() implies good_region(
                        img0,
                        (#[trigger] regions@[k])@,
                        thr,
                    ) by {
                        if k < pre_regions.len() {
                            assert(regions@[k] == pre_regions[k]);
                        }
                    }
                    assert forall|k1: int, k2: int, xx: int, yy: int|
                        0 <= k1 < k2 < regions@.len() && #[trigger] region_covers(
                            regions@[k1]@,
                            h,
                            xx,
                            yy,
                        ) implies !(#[trigger] region_covers(regions@[k2]@, h, xx, yy)) by {
                        assert(regions@[k1] == pre_regions[k1]);
                        if k2 < pre_regions.len() {
                            assert(regions@[k2] == pre_regions[k2]);
                        } else {
                            // A pixel of the new region was still ink, so no
                            // earlier region covers it.
                            if region_covers((regions@[k2])@, h, xx, yy) {
                                assert((regions@[k2])@ == region@);
                                let i = choose|i: int|
                                    0 <= i < region@.len() && (#[trigger] region@[i]).0 == xx
                                        && h - region@[i].1 == yy;
                                assert(cur.ink_at(xx, yy, thr));
                                assert(any_covers(pre_regions, h, xx, yy));
                                assert(cur.color_at(xx, yy) == white());
                                assert(false);
                            }
                        }
                    }
                    assert forall|xx: int, yy: int|
                        img.valid_xy(xx, yy) && (yy < y || (yy == y && xx < x + 1))
                            implies !img.ink_at(xx, yy, thr) by {
                        if !(xx == x && yy == y) {
                            if region_covers(region@, h, xx, yy) {
                                assert(img.color_at(xx, yy) == white());
                            } else {
                                assert(img.color_at(xx, yy) == cur.color_at(xx, yy));
                                assert(cur.valid_xy(xx, yy));
                                assert(yy < y || (yy == y && xx < x));
                                assert(!cur.ink_at(xx, yy, thr));
                            }
                        } else {
                            assert(region_covers(region@, h, xx, yy)) by {
                                assert(region@[0].0 == x && region@[0].1 + y == img0.height);
                            }
                            assert(img.color_at(xx, yy) == white());
                        }
                    }
                }
            }
            x = x + 1;
        }
        y = y + 1;
    }
    proof {
        assert forall|x: int, y: int| img0.valid_xy(x, y) implies (img0.ink_at(x, y, thr)
            <==> any_covers(regions@, h, x, y)) by {
            if any_covers(regions@, h, x, y) {
                let k = choose|k: int|
                    0 <= k < regions@.len() && region_covers((#[trigger] regions@[k])@, h, x, y);
                let region = (regions@[k])@;
                let i = choose|i: int|
                    0 <= i < region.len() && (#[trigger] region[i]).0 == x && h - region[i].1
                        == y;
                assert(img0.ink_at(x, y, thr));
            }
            if img0.ink_at(x, y, thr) && !any_covers(regions@, h, x, y) {
                assert(img.color_at(x, y) == img0.color_at(x, y));
                assert(img.ink_at(x, y, thr));
                assert(false);
            }
        }
    }
    regions
}

/// Once a fill finishes, the new region fits the already collected
/// ones: its pixels were ink in the original raster, it is connected
/// there, and it swallows every ink neighbour of its pixels.
proof fn lemma_region_absorbed(
    img0: Raster,
    cur: Raster,
    pre_regions: Seq<Vec<(usize, usize)>>,
    region: Seq<(usize, usize)>,
    sx: int,
    sy: int,
    thr: u8,
)
    requires
        img0.wf(),
        cur.wf(),
        cur.same_dims(img0),
        forall|xx: int, yy: int|
            cur.valid_xy(xx, yy) ==> cur.color_at(xx, yy) == (if any_covers(
                pre_regions,
                img0.height as int,
                xx,
                yy,
            ) {
                white()
            } else {
                img0.color_at(xx, yy)
            }),
        forall|k: int|
            0 <= k < pre_regions.len() ==> good_region(img0, (#[trigger] pre_regions[k])@, thr),
        // what the fill itself guarantees, relative to `cur`:
        region.len() >= 1,
        region[0].0 == sx && region[0].1 + sy == img0.height,
        region.no_duplicates(),
        forall|i: int|
            0 <= i < region.len() ==> (#[trigger] region[i]).0 < img0.width && 1 <= region[i].1
                <= img0.height && cur.ink_at(
                region[i].0 as int,
                img0.height - region[i].1,
                thr,
            ) && reachable(
                cur,
                thr,
                sx,
                sy,
                region[i].0 as int,
                img0.height - region[i].1,
            ),
        forall|i: int|
            0 <= i < region.len() ==> neighbors_done(
                cur,
                region,
                (#[trigger] region[i]).0 as int,
                img0.height - region[i].1,
                thr,
            ),
    ensures
        good_region(img0, region, thr),
{
    let h = img0.height as int;
    assert forall|a: int, b: int|
        cur.valid_xy(a, b) && cur.ink_at(a, b, thr) implies img0.ink_at(a, b, thr) by {
        if any_covers(pre_regions, h, a, b) {
            assert(cur.color_at(a, b) == white());
            assert(!cur.ink_at(a, b, thr));
        }
    }
    assert forall|i: int|
        0 <= i < region.len() implies (#[trigger] region[i]).0 < img0.width && 1 <= region[i].1
        <= img0.height && img0.ink_at(region[i].0 as int, h - region[i].1, thr) && reachable(
        img0,
        thr,
        region[0].0 as int,
        h - region[0].1,
        region[i].0 as int,
        h - region[i].1,
    ) by {
        assert(cur.ink_at(region[i].0 as int, h - region[i].1, thr));
        lemma_reach_transfer(
            cur,
            img0,
            thr,
            sx,
            sy,
            region[i].0 as int,
            h - region[i].1,
        );
    }
    assert forall|i: int|
        0 <= i < region.len() implies neighbors_done(
        img0,
        region,
        (#[trigger] region[i]).0 as int,
        h - region[i].1,
        thr,
    ) by {
        let ex = region[i].0 as int;
        let ey = h - region[i].1;
        assert forall|qx: int, qy: int|
            adj8(ex, ey, qx, qy) && img0.valid_xy(qx, qy) && img0.ink_at(
                qx,
                qy,
                thr,
            ) implies region_covers(region, h, qx, qy) by {
            if cur.ink_at(qx, qy, thr) {
                assert(neighbors_done(cur, region, ex, ey, thr));
                assert(cur.valid_xy(qx, qy));
                assert(region_covers(region, cur.height as int, qx, qy));
                assert(cur.height as int == h);
            } else {
                // The neighbour was erased by an earlier fill; but that
                // earlier region would then have swallowed this pixel
                // too, contradicting that it is still ink.
                assert(any_covers(pre_regions, h, qx, qy));
                let k = choose|k: int|
                    0 <= k < pre_regions.len() && region_covers(
                        (#[trigger] pre_regions[k])@,
                        h,
                        qx,
                        qy,
                    );
                let early = (pre_regions[k])@;
                let j = choose|j: int|
                    0 <= j < early.len() && (#[trigger] early[j]).0 == qx && h - early[j].1
                        == qy;
                assert(neighbors_done(img0, early, qx, qy, thr));
                assert(adj8(qx, qy, ex, ey));
                assert(region_covers(early, h, ex, ey));
                assert(any_covers(pre_regions, h, ex, ey));
                assert(cur.color_at(ex, ey) == white());
                assert(cur.ink_at(ex, ey, thr));
                assert(false);
            }
        }
    }
}

} // verus!
