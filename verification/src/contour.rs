use vstd::prelude::*;
use crate::boundary_graph::{
    all_balanced, covered, flagged, flagged_covered, grows, lemma_flag_step_covered,
    lemma_flagged_covered_push, lemma_grows_scanned, lemma_none_open, lemma_present_in_lattice,
    lemma_scan_next, lemma_unflagged_balanced, lemma_walk_step, out_open, present, scanned,
    walk_state, with_flag,
};
use crate::trace_order::{
    avoids_start, closes_once, greedy_prefix, lemma_avoids_start_push, lemma_greedy_walk_step,
    lemma_order_add_loop, lemma_start_first, lemma_walk_order_start, starts_first, steps_greedy,
};
use crate::raster::{
    count_true, flood_background, lemma_count_true_bound, lemma_count_true_set,
    lemma_count_zero, lemma_index_in_bounds, PixelImage, Raster,
};

verus! {

/// Traces the outline of an image's foreground as it is, pixel by pixel.
pub struct BasicTracer;

/// The cell (`x`, `y`) of the image padded by one background pixel on each
/// side is foreground: it is a pixel of the image that the background
/// flood fill does not reach.
pub open spec fn fg(r: Raster, x: int, y: int) -> bool {
    1 <= x <= r.width && 1 <= y <= r.height && !r.is_background(x - 1, y - 1)
}

/// The unit step from lattice point `a` in direction `d`:
/// 0 left, 1 up, 2 down, 3 right.
pub open spec fn step(a: (int, int), d: int) -> (int, int) {
    if d == 0 {
        (a.0 - 1, a.1)
    } else if d == 1 {
        (a.0, a.1 - 1)
    } else if d == 2 {
        (a.0, a.1 + 1)
    } else {
        (a.0 + 1, a.1)
    }
}

/// The directed unit segment from lattice point `a` to `b` separates a
/// background cell from a foreground cell, with the background cell on its
/// left-hand side as the padded grid is drawn (x to the right, y down).
/// Lattice point (`x`, `y`) is the top-left corner of cell (`x`, `y`).
pub open spec fn is_boundary_segment(r: Raster, a: (int, int), b: (int, int)) -> bool {
    let (x, y) = a;
    ||| b == (x, y + 1) && !fg(r, x - 1, y) && fg(r, x, y)
    ||| b == (x, y - 1) && !fg(r, x, y - 1) && fg(r, x - 1, y - 1)
    ||| b == (x - 1, y) && !fg(r, x - 1, y - 1) && fg(r, x - 1, y)
    ||| b == (x + 1, y) && !fg(r, x, y) && fg(r, x, y - 1)
}

pub open spec fn pt(p: (i32, i32)) -> (int, int) {
    (p.0 as int, p.1 as int)
}

/// Every loop is closed, has at least one segment, and runs along boundary
/// segments.
pub open spec fn loops_follow_boundary(r: Raster, ls: Seq<Seq<(i32, i32)>>) -> bool {
    forall|a: int|
        0 <= a < ls.len() ==> {
            &&& #[trigger] ls[a].len() >= 2
            &&& ls[a][0] == ls[a].last()
            &&& forall|i: int|
                0 <= i < ls[a].len() - 1 ==> is_boundary_segment(
                    r,
                    pt(#[trigger] ls[a][i]),
                    pt(ls[a][i + 1]),
                )
        }
}

/// No segment occurs twice in the loops.
pub open spec fn segments_distinct(ls: Seq<Seq<(i32, i32)>>) -> bool {
    forall|a: int, i: int, b: int, j: int|
        0 <= a < ls.len() && 0 <= i < ls[a].len() - 1 && 0 <= b < ls.len() && 0 <= j < ls[b].len()
            - 1 && (a, i) != (b, j) ==> (#[trigger] ls[a][i], ls[a][i + 1]) != (
            #[trigger] ls[b][j],
            ls[b][j + 1],
        )
}

/// The number of points of all loops together.
pub open spec fn total_points(ls: Seq<Seq<(i32, i32)>>) -> nat
    decreases ls.len(),
{
    if ls.len() == 0 {
        0
    } else {
        total_points(ls.drop_last()) + ls.last().len()
    }
}

pub proof fn lemma_total_points_prefix(ls: Seq<Seq<(i32, i32)>>, k: int)
    requires
        0 <= k <= ls.len(),
    ensures
        total_points(ls.take(k)) <= total_points(ls),
        k < ls.len() ==> total_points(ls.take(k + 1)) == total_points(ls.take(k)) + ls[k].len(),
    decreases ls.len(),
{
    if k < ls.len() {
        assert(ls.take(k + 1).drop_last() =~= ls.take(k));
        lemma_total_points_prefix(ls.drop_last(), k);
        assert(ls.drop_last().take(k) =~= ls.take(k));
        if k + 1 < ls.len() {
            lemma_total_points_prefix(ls.drop_last(), k + 1);
            assert(ls.drop_last().take(k + 1) =~= ls.take(k + 1));
        } else {
            assert(ls.take(k + 1) =~= ls);
        }
    } else {
        assert(ls.take(k) =~= ls);
    }
}

pub open spec fn deep(ls: Seq<Vec<(i32, i32)>>) -> Seq<Seq<(i32, i32)>> {
    ls.map_values(|l: Vec<(i32, i32)>| l@)
}

/// `vis` marks the background pixels of `r` (row-major).
pub open spec fn marks_background(r: Raster, vis: Seq<bool>) -> bool {
    &&& r.wf()
    &&& r.width > 0 && r.height > 0
    &&& vis.len() == r.width * r.height
    &&& forall|x: int, y: int|
        r.in_bounds(x, y) ==> (#[trigger] vis[y * r.width + x] <==> r.is_background(x, y))
}

/// Whether cell (`x`, `y`) of the padded grid is foreground.
fn fg_at(vis: &Vec<bool>, w: u32, h: u32, x: i64, y: i64, Ghost(r): Ghost<Raster>) -> (res: bool)
    requires
        marks_background(r, vis@),
        w == r.width,
        h == r.height,
        -2 <= x <= w + 4,
        -2 <= y <= h + 4,
    ensures
        res == fg(r, x as int, y as int),
{
    if 1 <= x && x <= w as i64 && 1 <= y && y <= h as i64 {
        proof {
            lemma_index_in_bounds(w as int, h as int, x - 1, y - 1);
        }
        let _n = vis.len();
        !vis[((y - 1) as usize) * (w as usize) + ((x - 1) as usize)]
    } else {
        false
    }
}

/// Whether the unit segment from (`x`, `y`) in direction `d` is a boundary
/// segment.
fn segment_at(
    vis: &Vec<bool>,
    w: u32,
    h: u32,
    x: i64,
    y: i64,
    d: u8,
    Ghost(r): Ghost<Raster>,
) -> (res: bool)
    requires
        marks_background(r, vis@),
        w == r.width,
        h == r.height,
        0 <= x <= w + 2,
        0 <= y <= h + 2,
        d < 4,
    ensures
        res == is_boundary_segment(r, (x as int, y as int), step((x as int, y as int), d as int)),
{
    if d == 0 {
        !fg_at(vis, w, h, x - 1, y - 1, Ghost(r)) && fg_at(vis, w, h, x - 1, y, Ghost(r))
    } else if d == 1 {
        !fg_at(vis, w, h, x, y - 1, Ghost(r)) && fg_at(vis, w, h, x - 1, y - 1, Ghost(r))
    } else if d == 2 {
        !fg_at(vis, w, h, x - 1, y, Ghost(r)) && fg_at(vis, w, h, x, y, Ghost(r))
    } else {
        !fg_at(vis, w, h, x, y, Ghost(r)) && fg_at(vis, w, h, x, y - 1, Ghost(r))
    }
}

/// A boundary segment ends next to a foreground cell, inside the lattice.
proof fn lemma_segment_target(r: Raster, a: (int, int), d: int)
    requires
        0 <= d < 4,
        is_boundary_segment(r, a, step(a, d)),
    ensures
        1 <= step(a, d).0 <= r.width + 1,
        1 <= step(a, d).1 <= r.height + 1,
        0 <= a.0 <= r.width + 1,
        0 <= a.1 <= r.height + 1,
{
}

/// The direction of the unit step from `p` to `q` (see `step`).
pub open spec fn dir_between(p: (i32, i32), q: (i32, i32)) -> int {
    if q.0 == p.0 - 1 && q.1 == p.1 {
        0
    } else if q.0 == p.0 && q.1 == p.1 - 1 {
        1
    } else if q.0 == p.0 && q.1 == p.1 + 1 {
        2
    } else {
        3
    }
}

/// The index of the flag that records the use of the segment from `p` to
/// `q`, where lattice point (`x`, `y`) has number `x * gh1 + y`.
///
/// The segments still to take are kept as four flags per lattice point
/// rather than in a hash map from points to lists of segments: vstd gives
/// a hash map's contents a meaning only for keys with a key model, which a
/// pair `(i32, i32)` lacks. The flags hold what such lists hold, since a
/// point has at most one segment in each direction and the lists would
/// hand their segments out in the order of the directions (left, up, down,
/// right, the last one first), as `next_dir` does.
pub open spec fn slot(gh1: int, p: (i32, i32), q: (i32, i32)) -> int {
    4 * (p.0 * gh1 + p.1) + dir_between(p, q)
}

/// Every segment of the loops has its flag set.
pub open spec fn edges_used(used: Seq<bool>, gh1: int, ls: Seq<Seq<(i32, i32)>>) -> bool {
    forall|a: int, i: int|
        0 <= a < ls.len() && 0 <= i < ls[a].len() - 1 ==> 0 <= slot(
            gh1,
            #[trigger] ls[a][i],
            ls[a][i + 1],
        ) < used.len() && used[slot(gh1, ls[a][i], ls[a][i + 1])]
}

/// Consecutive points of `l` are joined by boundary segments.
pub open spec fn follows_segments(r: Raster, l: Seq<(i32, i32)>) -> bool {
    forall|i: int|
        0 <= i < l.len() - 1 ==> is_boundary_segment(r, pt(#[trigger] l[i]), pt(l[i + 1]))
}

/// Appending a segment whose flag is clear to the last chain keeps the
/// segments distinct and flagged once its flag is set.
proof fn lemma_push_edge(
    ls: Seq<Seq<(i32, i32)>>,
    used0: Seq<bool>,
    gh1: int,
    p: (i32, i32),
)
    requires
        ls.len() > 0,
        ls.last().len() >= 1,
        segments_distinct(ls),
        edges_used(used0, gh1, ls),
        0 <= slot(gh1, ls.last().last(), p) < used0.len(),
        !used0[slot(gh1, ls.last().last(), p)],
    ensures
        segments_distinct(ls.update(ls.len() - 1, ls.last().push(p))),
        edges_used(
            used0.update(slot(gh1, ls.last().last(), p), true),
            gh1,
            ls.update(ls.len() - 1, ls.last().push(p)),
        ),
{
    let last = ls.last();
    let n = last.len() as int;
    let ls2 = ls.update(ls.len() - 1, last.push(p));
    let s = slot(gh1, last.last(), p);
    let used1 = used0.update(s, true);
    let top = ls.len() - 1;
    assert forall|a: int, i: int|
        0 <= a < ls2.len() && 0 <= i < ls2[a].len() - 1 && (a, i) != (top, n - 1) implies #[trigger] ls2[a][i]
        == ls[a][i] && ls2[a][i + 1] == ls[a][i + 1] && i < ls[a].len() - 1 by {
        if a == top {
            assert(ls2[a] == last.push(p));
        }
    }
    assert(ls2[top][n - 1] == last.last() && ls2[top][n] == p);
    assert forall|a: int, i: int|
        0 <= a < ls2.len() && 0 <= i < ls2[a].len() - 1 implies 0 <= slot(
        gh1,
        #[trigger] ls2[a][i],
        ls2[a][i + 1],
    ) < used1.len() && used1[slot(gh1, ls2[a][i], ls2[a][i + 1])] by {
        if (a, i) != (top, n - 1) {
            assert(used0[slot(gh1, ls[a][i], ls[a][i + 1])]);
        }
    }
    assert forall|a: int, i: int, b: int, j: int|
        0 <= a < ls2.len() && 0 <= i < ls2[a].len() - 1 && 0 <= b < ls2.len() && 0 <= j
            < ls2[b].len() - 1 && (a, i) != (b, j) implies (#[trigger] ls2[a][i], ls2[a][i + 1])
        != (#[trigger] ls2[b][j], ls2[b][j + 1]) by {
        if (a, i) == (top, n - 1) {
            assert(used0[slot(gh1, ls[b][j], ls[b][j + 1])]);
        } else if (b, j) == (top, n - 1) {
            assert(used0[slot(gh1, ls[a][i], ls[a][i + 1])]);
        } else {
            assert((ls[a][i], ls[a][i + 1]) != (ls[b][j], ls[b][j + 1]));
        }
    }
}

/// The flag of a segment out of a lattice point lies within the flags.
proof fn lemma_slot_range(w: int, h: int, x: int, y: int, d: int)
    requires
        0 <= w,
        0 <= h,
        0 <= x <= w + 2,
        0 <= y <= h + 2,
        0 <= d < 4,
    ensures
        0 <= x * (h + 3) + y < (w + 3) * (h + 3),
        0 <= 4 * (x * (h + 3) + y) + d < 4 * ((w + 3) * (h + 3)),
{
    lemma_index_in_bounds(h + 3, w + 3, y, x);
    assert((h + 3) * (w + 3) == (w + 3) * (h + 3)) by (nonlinear_arith);
}

/// A direction out of (`x`, `y`) along a boundary segment whose flag is
/// clear; the last one in the order left, up, down, right.
fn next_dir(
    vis: &Vec<bool>,
    w: u32,
    h: u32,
    used: &Vec<bool>,
    x: i64,
    y: i64,
    Ghost(r): Ghost<Raster>,
) -> (res: Option<u8>)
    requires
        marks_background(r, vis@),
        w == r.width,
        h == r.height,
        0 <= x <= w + 2,
        0 <= y <= h + 2,
        used@.len() == 4 * ((w + 3) * (h + 3)),
    ensures
        res matches Some(d) ==> d < 4 && is_boundary_segment(
            r,
            (x as int, y as int),
            step((x as int, y as int), d as int),
        ) && !used@[4 * (x * (h + 3) + y) + d],
        res matches Some(d) ==> forall|e: int|
            d < e < 4 && is_boundary_segment(r, (x as int, y as int), step((x as int, y as int), e))
                ==> used@[4 * (x * (h + 3) + y) + e],
        res is None ==> forall|d: int|
            0 <= d < 4 && is_boundary_segment(r, (x as int, y as int), step((x as int, y as int), d))
                ==> used@[4 * (x * (h + 3) + y) + d],
{
    proof {
        lemma_slot_range(w as int, h as int, x as int, y as int, 3);
    }
    let _n = used.len();
    let base = 4 * ((x as usize) * (h as usize + 3) + (y as usize));
    let mut d: u8 = 4;
    while d > 0
        invariant
            d <= 4,
            base == 4 * (x * (h + 3) + y),
            base + 4 <= used@.len(),
            marks_background(r, vis@),
            w == r.width,
            h == r.height,
            0 <= x <= w + 2,
            0 <= y <= h + 2,
            forall|e: int|
                d <= e < 4 && is_boundary_segment(
                    r,
                    (x as int, y as int),
                    step((x as int, y as int), e),
                ) ==> used@[base + e],
        decreases d,
    {
        d = d - 1;
        if segment_at(vis, w, h, x, y, d, Ghost(r)) && !used[base + d as usize] {
            return Some(d);
        }
    }
    None
}

proof fn lemma_dir_between(p: (i32, i32), q: (i32, i32), d: int)
    requires
        0 <= d < 4,
        pt(q) == step(pt(p), d),
    ensures
        dir_between(p, q) == d,
{
}

/// A chain of one point adds no segment.
proof fn lemma_push_point(ls: Seq<Seq<(i32, i32)>>, used: Seq<bool>, gh1: int, p: (i32, i32))
    requires
        segments_distinct(ls),
        edges_used(used, gh1, ls),
    ensures
        segments_distinct(ls.push(seq![p])),
        edges_used(used, gh1, ls.push(seq![p])),
{
    let ls2 = ls.push(seq![p]);
    assert forall|a: int, i: int|
        0 <= a < ls2.len() && 0 <= i < ls2[a].len() - 1 implies #[trigger] ls2[a][i] == ls[a][i]
        && ls2[a][i + 1] == ls[a][i + 1] && a < ls.len() by {
        if a == ls.len() {
            assert(ls2[a] == seq![p]);
        }
    }
}

/// Follows boundary segments from (`sx`, `sy`), each time along the last
/// unflagged one out of the current point, flagging each one taken, until
/// it is back at the start (`true`) or finds no unflagged segment
/// (`false`). Returns the points visited, the start first.
fn walk_from(
    vis: &Vec<bool>,
    w: u32,
    h: u32,
    used: &mut Vec<bool>,
    sx: i64,
    sy: i64,
    Ghost(r): Ghost<Raster>,
    Ghost(ls): Ghost<Seq<Seq<(i32, i32)>>>,
) -> (res: (Vec<(i32, i32)>, bool))
    requires
        marks_background(r, vis@),
        w == r.width,
        h == r.height,
        0 <= sx <= w + 2,
        0 <= sy <= h + 2,
        old(used)@.len() == 4 * ((w + 3) * (h + 3)),
        count_true(old(used)@) <= old(used)@.len(),
        segments_distinct(ls),
        edges_used(old(used)@, h + 3, ls),
        all_balanced(r, old(used)@),
        flagged_covered(r, old(used)@, ls),
        exists|d: int|
            0 <= d < 4 && is_boundary_segment(r, (sx as int, sy as int), step((sx as int, sy as int), d))
                && !old(used)@[4 * (sx * (h + 3) + sy) + d],
    ensures
        res.1,
        all_balanced(r, final(used)@),
        flagged_covered(r, final(used)@, ls.push(res.0@)),
        grows(old(used)@, final(used)@),
        final(used)@.len() == old(used)@.len(),
        count_true(old(used)@) < count_true(final(used)@) <= final(used)@.len(),
        forall|i: int| 0 <= i < old(used)@.len() && old(used)@[i] ==> final(used)@[i],
        res.0@.len() >= 1,
        count_true(old(used)@) + res.0@.len() - 1 <= count_true(final(used)@),
        res.0@[0] == (sx as i32, sy as i32),
        follows_segments(r, res.0@),
        segments_distinct(ls.push(res.0@)),
        edges_used(final(used)@, h + 3, ls.push(res.0@)),
        res.1 ==> res.0@.len() >= 2 && res.0@.last() == res.0@[0],
        greedy_prefix(r, ls, res.0@, res.0@.len() - 1),
        avoids_start(res.0@, res.0@.len() - 1),
{
    let ghost used0 = used@;
    let start = (sx as i32, sy as i32);
    let mut path: Vec<(i32, i32)> = Vec::new();
    path.push(start);
    let mut cx = sx;
    let mut cy = sy;
    proof {
        lemma_push_point(ls, used@, h + 3, start);
        assert(path@ == seq![start]);
        lemma_count_true_bound(used@);
        lemma_flagged_covered_push(r, used@, ls, path@);
        lemma_walk_order_start(r, ls, start);
    }
    loop
        invariant
            marks_background(r, vis@),
            w == r.width,
            h == r.height,
            0 <= sx <= w + 2,
            0 <= sy <= h + 2,
            0 <= cx <= w + 2,
            0 <= cy <= h + 2,
            start == (sx as i32, sy as i32),
            used0 == old(used)@,
            used@.len() == used0.len(),
            used0.len() == 4 * ((w + 3) * (h + 3)),
            count_true(used0) + path@.len() - 1 <= count_true(used@) <= used@.len(),
            forall|i: int| 0 <= i < used0.len() && used0[i] ==> used@[i],
            path@.len() >= 1,
            path@[0] == start,
            path@.last() == (cx as i32, cy as i32),
            path@.len() == 1 ==> used@ == used0 && cx == sx && cy == sy,
            exists|d: int|
                0 <= d < 4 && is_boundary_segment(r, (sx as int, sy as int), step((sx as int, sy as int), d))
                    && !used0[4 * (sx * (h + 3) + sy) + d],
            follows_segments(r, path@),
            segments_distinct(ls.push(path@)),
            edges_used(used@, h + 3, ls.push(path@)),
            path@.len() > 1 ==> (cx, cy) != (sx, sy),
            walk_state(r, used@, (sx as int, sy as int), (cx as int, cy as int)),
            flagged_covered(r, used@, ls.push(path@)),
            greedy_prefix(r, ls, path@, path@.len() - 1),
            avoids_start(path@, path@.len() as int),
        decreases used@.len() - count_true(used@),
    {
        match next_dir(vis, w, h, used, cx, cy, Ghost(r)) {
            None => {
                proof {
                    if path@.len() == 1 {
                        let d = choose|d: int|
                            0 <= d < 4 && is_boundary_segment(
                                r,
                                (sx as int, sy as int),
                                step((sx as int, sy as int), d),
                            ) && !used0[4 * (sx * (h + 3) + sy) + d];
                        assert(used@[4 * (cx * (h + 3) + cy) + d]);
                    } else {
                        lemma_none_open(r, used@, cx as int, cy as int);
                        assert(out_open(r, used@, cx as int, cy as int) >= 1);
                    }
                }
                return (path, false);
            },
            Some(d) => {
                let ghost p = path@.last();
                let (nx, ny) = if d == 0 {
                    (cx - 1, cy)
                } else if d == 1 {
                    (cx, cy - 1)
                } else if d == 2 {
                    (cx, cy + 1)
                } else {
                    (cx + 1, cy)
                };
                proof {
                    lemma_segment_target(r, (cx as int, cy as int), d as int);
                    lemma_slot_range(w as int, h as int, cx as int, cy as int, d as int);
                }
                let q = (nx as i32, ny as i32);
                let idx = 4 * ((cx as usize) * (h as usize + 3) + (cy as usize)) + d as usize;
                proof {
                    lemma_dir_between(p, q, d as int);
                    let ext = ls.push(path@);
                    assert(ext.last() == path@);
                    lemma_push_edge(ext, used@, h + 3, q);
                    assert(ext.update(ext.len() - 1, ext.last().push(q)) =~= ls.push(path@.push(q)));
                    lemma_count_true_set(used@, idx as int);
                    lemma_count_true_bound(used@.update(idx as int, true));
                    assert(used@.update(idx as int, true) == with_flag(r, used@, cx as int, cy as int, d as int));
                    lemma_walk_step(r, used@, (sx as int, sy as int), (cx as int, cy as int), d as int);
                    lemma_flag_step_covered(r, used@, ls, path@, q, d as int);
                    lemma_greedy_walk_step(r, used@, ls, path@, q, d as int);
                    lemma_avoids_start_push(path@, q);
                }
                let ghost used_before = used@;
                used.set(idx, true);
                path.push(q);
                cx = nx;
                cy = ny;
                proof {
                    assert forall|i: int| 0 <= i < used0.len() && used0[i] implies used@[i] by {
                        assert(used_before[i]);
                    }
                    let l = path@;
                    assert forall|i: int| 0 <= i < l.len() - 1 implies is_boundary_segment(
                        r,
                        pt(#[trigger] l[i]),
                        pt(l[i + 1]),
                    ) by {
                        if i < l.len() - 2 {
                            assert(l[i] == l.drop_last()[i] && l[i + 1] == l.drop_last()[i + 1]);
                        }
                    }
                }
                if cx == sx && cy == sy {
                    return (path, true);
                }
            },
        }
    }
}

proof fn lemma_edges_used_mono(u0: Seq<bool>, u1: Seq<bool>, gh1: int, ls: Seq<Seq<(i32, i32)>>)
    requires
        edges_used(u0, gh1, ls),
        u1.len() == u0.len(),
        forall|i: int| 0 <= i < u0.len() && u0[i] ==> u1[i],
    ensures
        edges_used(u1, gh1, ls),
{
    assert forall|a: int, i: int| 0 <= a < ls.len() && 0 <= i < ls[a].len() - 1 implies 0 <= slot(
        gh1,
        #[trigger] ls[a][i],
        ls[a][i + 1],
    ) < u1.len() && u1[slot(gh1, ls[a][i], ls[a][i + 1])] by {
        assert(u0[slot(gh1, ls[a][i], ls[a][i + 1])]);
    }
}

proof fn lemma_edges_used_prefix(u: Seq<bool>, gh1: int, ls: Seq<Seq<(i32, i32)>>, l: Seq<(i32, i32)>)
    requires
        edges_used(u, gh1, ls.push(l)),
    ensures
        edges_used(u, gh1, ls),
{
    let ext = ls.push(l);
    assert forall|a: int, i: int| 0 <= a < ls.len() && 0 <= i < ls[a].len() - 1 implies 0 <= slot(
        gh1,
        #[trigger] ls[a][i],
        ls[a][i + 1],
    ) < u.len() && u[slot(gh1, ls[a][i], ls[a][i + 1])] by {
        assert(ext[a] == ls[a]);
        assert(u[slot(gh1, ext[a][i], ext[a][i + 1])]);
    }
}

proof fn lemma_add_loop(r: Raster, ls: Seq<Seq<(i32, i32)>>, l: Seq<(i32, i32)>)
    requires
        loops_follow_boundary(r, ls),
        l.len() >= 2,
        l[0] == l.last(),
        follows_segments(r, l),
    ensures
        loops_follow_boundary(r, ls.push(l)),
{
    let ext = ls.push(l);
    assert forall|a: int| 0 <= a < ext.len() implies {
        &&& #[trigger] ext[a].len() >= 2
        &&& ext[a][0] == ext[a].last()
        &&& forall|i: int|
            0 <= i < ext[a].len() - 1 ==> is_boundary_segment(
                r,
                pt(#[trigger] ext[a][i]),
                pt(ext[a][i + 1]),
            )
    } by {
        if a < ls.len() {
            assert(ext[a] == ls[a]);
        } else {
            assert(ext[a] == l);
        }
    }
}

/// Every point of every loop lies in the lattice of the padded image.
pub open spec fn points_in_lattice(r: Raster, ls: Seq<Seq<(i32, i32)>>) -> bool {
    forall|a: int, i: int|
        0 <= a < ls.len() && 0 <= i < ls[a].len() ==> 0 <= #[trigger] ls[a][i].0 <= r.width + 1
            && 0 <= ls[a][i].1 <= r.height + 1
}

proof fn lemma_points_in_lattice(r: Raster, ls: Seq<Seq<(i32, i32)>>)
    requires
        loops_follow_boundary(r, ls),
    ensures
        points_in_lattice(r, ls),
{
    assert forall|a: int, i: int| 0 <= a < ls.len() && 0 <= i < ls[a].len() implies 0
        <= #[trigger] ls[a][i].0 <= r.width + 1 && 0 <= ls[a][i].1 <= r.height + 1 by {
        let l = ls[a];
        assert(l.len() >= 2);
        if i < l.len() - 1 {
            assert(is_boundary_segment(r, pt(l[i]), pt(l[i + 1])));
        } else {
            assert(l[i] == l[0]);
            assert(is_boundary_segment(r, pt(l[0]), pt(l[1])));
        }
    }
}

/// Sets every flag of the segments out of lattice point number `id`.
fn flag_all_from(used: &mut Vec<bool>, id: usize)
    requires
        4 * id + 4 <= old(used)@.len(),
        count_true(old(used)@) <= old(used)@.len(),
    ensures
        final(used)@.len() == old(used)@.len(),
        count_true(old(used)@) <= count_true(final(used)@) <= final(used)@.len(),
        forall|i: int| 0 <= i < old(used)@.len() && old(used)@[i] ==> final(used)@[i],
        forall|i: int|
            0 <= i < old(used)@.len() ==> final(used)@[i] == (old(used)@[i] || (4 * id <= i < 4
                * id + 4)),
{
    let ghost u0 = used@;
    let _n = used.len();
    let base = 4 * id;
    let mut d: usize = 0;
    while d < 4
        invariant
            base == 4 * id,
            4 * id + 4 <= u0.len(),
            d <= 4,
            used@.len() == u0.len(),
            count_true(u0) <= count_true(used@) <= used@.len(),
            forall|i: int| 0 <= i < u0.len() && u0[i] ==> used@[i],
            forall|i: int|
                0 <= i < u0.len() ==> used@[i] == (u0[i] || (base <= i < base + d)),
        decreases 4 - d,
    {
        if !used[base + d] {
            proof {
                lemma_count_true_set(used@, base + d);
                lemma_count_true_bound(used@.update(base + d, true));
            }
            let ghost before = used@;
            used.set(base + d, true);
            assert forall|i: int| 0 <= i < u0.len() && u0[i] implies used@[i] by {
                assert(before[i]);
            }
        }
        d = d + 1;
    }
}

/// Walks from (`x`, `y`), which has an unflagged boundary segment, and
/// keeps the walk as a loop where it closes; otherwise flags every segment
/// out of (`x`, `y`).
#[verifier::rlimit(40)]
fn trace_from(
    vis: &Vec<bool>,
    w: u32,
    h: u32,
    used: &mut Vec<bool>,
    loops: &mut Vec<Vec<(i32, i32)>>,
    x: i64,
    y: i64,
    Ghost(r): Ghost<Raster>,
)
    requires
        marks_background(r, vis@),
        w == r.width,
        h == r.height,
        0 <= x <= w + 2,
        0 <= y <= h + 2,
        old(used)@.len() == 4 * ((w + 3) * (h + 3)),
        count_true(old(used)@) <= old(used)@.len(),
        loops_follow_boundary(r, deep(old(loops)@)),
        segments_distinct(deep(old(loops)@)),
        edges_used(old(used)@, h + 3, deep(old(loops)@)),
        total_points(deep(old(loops)@)) <= 2 * count_true(old(used)@),
        all_balanced(r, old(used)@),
        flagged_covered(r, old(used)@, deep(old(loops)@)),
        scanned(r, old(used)@, x as int, y as int),
        steps_greedy(r, deep(old(loops)@)),
        starts_first(r, deep(old(loops)@)),
        closes_once(deep(old(loops)@)),
        exists|d: int|
            0 <= d < 4 && is_boundary_segment(r, (x as int, y as int), step((x as int, y as int), d))
                && !old(used)@[4 * (x * (h + 3) + y) + d],
    ensures
        all_balanced(r, final(used)@),
        flagged_covered(r, final(used)@, deep(final(loops)@)),
        steps_greedy(r, deep(final(loops)@)),
        starts_first(r, deep(final(loops)@)),
        closes_once(deep(final(loops)@)),
        grows(old(used)@, final(used)@),
        final(used)@.len() == old(used)@.len(),
        count_true(old(used)@) < count_true(final(used)@) <= final(used)@.len(),
        loops_follow_boundary(r, deep(final(loops)@)),
        segments_distinct(deep(final(loops)@)),
        edges_used(final(used)@, h + 3, deep(final(loops)@)),
        total_points(deep(final(loops)@)) <= 2 * count_true(final(used)@),
{
    let ghost ls = deep(loops@);
    let ghost u0 = used@;
    let (path, closed) = walk_from(vis, w, h, used, x, y, Ghost(r), Ghost(ls));
    if closed {
        proof {
            lemma_add_loop(r, ls, path@);
            lemma_start_first(r, u0, ls, path@);
            lemma_order_add_loop(r, ls, path@);
        }
        loops.push(path);
        assert(deep(loops@) =~= ls.push(path@));
        assert(deep(loops@).drop_last() =~= ls);
    } else {
        proof {
            lemma_slot_range(w as int, h as int, x as int, y as int, 3);
            lemma_edges_used_prefix(used@, h + 3, ls, path@);
        }
        let ghost u1 = used@;
        flag_all_from(used, (x as usize) * (h as usize + 3) + (y as usize));
        proof {
            lemma_edges_used_mono(u1, used@, h + 3, ls);
        }
    }
}

/// Every boundary segment is a step of one of the loops.
pub open spec fn covers_boundary(r: Raster, ls: Seq<Seq<(i32, i32)>>) -> bool {
    forall|a: (int, int), b: (int, int)|
        #[trigger] is_boundary_segment(r, a, b) ==> exists|k: int, i: int|
            0 <= k < ls.len() && 0 <= i < ls[k].len() - 1 && #[trigger] pt(ls[k][i]) == a && pt(
                ls[k][i + 1],
            ) == b
}

/// Once every lattice point is scanned, every boundary segment is flagged
/// and so a step of one of the loops.
proof fn lemma_scanned_covers(r: Raster, used: Seq<bool>, ls: Seq<Seq<(i32, i32)>>, y0: int)
    requires
        scanned(r, used, r.width + 3int, y0),
        flagged_covered(r, used, ls),
    ensures
        covers_boundary(r, ls),
{
    assert forall|a: (int, int), b: (int, int)| #[trigger] is_boundary_segment(r, a, b) implies exists|
        k: int,
        i: int,
    |
        0 <= k < ls.len() && 0 <= i < ls[k].len() - 1 && #[trigger] pt(ls[k][i]) == a && pt(
            ls[k][i + 1],
        ) == b by {
        let d: int = if b == (a.0 - 1, a.1) {
            0
        } else if b == (a.0, a.1 - 1) {
            1
        } else if b == (a.0, a.1 + 1) {
            2
        } else {
            3
        };
        assert(b == step(a, d));
        assert(present(r, a.0, a.1, d));
        lemma_present_in_lattice(r, a.0, a.1, d);
        assert(flagged(r, used, a.0, a.1, d));
        assert(covered(ls, a.0, a.1, d));
        let (k, i) = choose|k: int, i: int|
            0 <= k < ls.len() && 0 <= i < ls[k].len() - 1 && #[trigger] pt(ls[k][i]) == (a.0, a.1)
                && pt(ls[k][i + 1]) == step((a.0, a.1), d);
        assert(pt(ls[k][i]) == a);
    }
}

impl BasicTracer {
    /// Traces the outline of the foreground of `img`: the pixels that the
    /// flood fill of the background from the top-left pixel does not reach.
    /// Each loop is a closed chain of lattice points of the image padded by
    /// one pixel on each side, the corner (`x`, `y`) being the top-left
    /// corner of pixel (`x - 1`, `y - 1`); consecutive points are joined by
    /// a boundary segment, and the loops take every boundary segment exactly
    /// once. Each loop starts at the first point, by columns and then rows,
    /// with a segment left, takes at each point the last segment left in
    /// the order left, up, down, right, and ends when it is back at its
    /// start; no other loops have these properties (`lemma_trace_unique`).
    pub fn trace_raw_mask(img: &PixelImage) -> (res: Vec<Vec<(i32, i32)>>)
        ensures
            img@.width == 0 || img@.height == 0 ==> res@.len() == 0,
            loops_follow_boundary(img@, deep(res@)),
            segments_distinct(deep(res@)),
            total_points(deep(res@)) <= 8 * ((img@.width + 3) * (img@.height + 3)),
            points_in_lattice(img@, deep(res@)),
            covers_boundary(img@, deep(res@)),
            starts_first(img@, deep(res@)),
            steps_greedy(img@, deep(res@)),
            closes_once(deep(res@)),
    {
        let w = img.width();
        let h = img.height();
        let ghost r = img@;
        if w == 0 || h == 0 {
            let res: Vec<Vec<(i32, i32)>> = Vec::new();
            assert(deep(res@) =~= Seq::<Seq<(i32, i32)>>::empty());
            assert(8 * ((img@.width + 3) * (img@.height + 3)) >= 0) by (nonlinear_arith);
            return res;
        }
        let vis = flood_background(img);
        let nv = (w as usize + 3) * (h as usize + 3);
        let total = 4 * nv;
        let mut used: Vec<bool> = Vec::new();
        while used.len() < total
            invariant
                used.len() <= total,
                forall|i: int| 0 <= i < used.len() ==> !used@[i],
            decreases total - used.len(),
        {
            used.push(false);
        }
        proof {
            lemma_count_zero(used@);
            assert(used@.len() == 4 * ((w + 3) * (h + 3)));
            lemma_unflagged_balanced(r, used@);
        }
        let mut loops: Vec<Vec<(i32, i32)>> = Vec::new();
        assert(deep(loops@) =~= Seq::<Seq<(i32, i32)>>::empty());
        let mut x: i64 = 0;
        let mut y: i64 = 0;
        while x <= w as i64 + 2
            invariant
                marks_background(r, vis@),
                w == r.width,
                h == r.height,
                total == 4 * ((w + 3) * (h + 3)),
                used@.len() == total,
                count_true(used@) <= used@.len(),
                0 <= x <= w + 3,
                0 <= y <= h + 2,
                loops_follow_boundary(r, deep(loops@)),
                segments_distinct(deep(loops@)),
                edges_used(used@, h + 3, deep(loops@)),
                total_points(deep(loops@)) <= 2 * count_true(used@),
                all_balanced(r, used@),
                flagged_covered(r, used@, deep(loops@)),
                scanned(r, used@, x as int, y as int),
                steps_greedy(r, deep(loops@)),
                starts_first(r, deep(loops@)),
                closes_once(deep(loops@)),
            decreases total - count_true(used@), w + 3 - x, h + 3 - y,
        {
            match next_dir(&vis, w, h, &used, x, y, Ghost(r)) {
                None => {
                    proof {
                        lemma_scan_next(r, used@, x as int, y as int);
                    }
                    if y < h as i64 + 2 {
                        y = y + 1;
                    } else {
                        y = 0;
                        x = x + 1;
                    }
                },
                Some(_) => {
                    let ghost before = used@;
                    trace_from(&vis, w, h, &mut used, &mut loops, x, y, Ghost(r));
                    proof {
                        lemma_grows_scanned(r, before, used@, x as int, y as int);
                    }
                },
            }
        }
        proof {
            lemma_count_true_bound(used@);
            lemma_points_in_lattice(r, deep(loops@));
            lemma_scanned_covers(r, used@, deep(loops@), y as int);
        }
        loops
    }
}

} // verus!
