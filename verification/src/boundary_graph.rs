use vstd::prelude::*;
use crate::contour::{is_boundary_segment, pt, step};
use crate::raster::{lemma_same_index, Raster};

verus! {

// The boundary segments of an image form a directed graph on the lattice
// points of the padded image in which every point has as many segments in
// as out. The tracer flags each segment it takes; the definitions below
// count the unflagged ones at each point.

/// Lattice point (`x`, `y`) of the image padded by one pixel on each side,
/// with one more row and column of room on the far sides.
pub open spec fn in_lattice(r: Raster, x: int, y: int) -> bool {
    0 <= x <= r.width + 2 && 0 <= y <= r.height + 2
}

/// There is a boundary segment from (`x`, `y`) in direction `d`.
pub open spec fn present(r: Raster, x: int, y: int, d: int) -> bool {
    is_boundary_segment(r, (x, y), step((x, y), d))
}

/// The flag of the segment from (`x`, `y`) in direction `d`.
pub open spec fn flagged(r: Raster, used: Seq<bool>, x: int, y: int, d: int) -> bool {
    used[4 * (x * (r.height + 3) + y) + d]
}

/// The segment from (`x`, `y`) in direction `d` is a boundary segment that
/// has not been taken yet.
pub open spec fn open_segment(r: Raster, used: Seq<bool>, x: int, y: int, d: int) -> bool {
    present(r, x, y, d) && !flagged(r, used, x, y, d)
}

pub open spec fn ind(b: bool) -> int {
    if b {
        1
    } else {
        0
    }
}

/// The number of open segments out of (`x`, `y`).
pub open spec fn out_open(r: Raster, used: Seq<bool>, x: int, y: int) -> int {
    ind(open_segment(r, used, x, y, 0)) + ind(open_segment(r, used, x, y, 1)) + ind(
        open_segment(r, used, x, y, 2),
    ) + ind(open_segment(r, used, x, y, 3))
}

/// The number of open segments into (`x`, `y`).
pub open spec fn in_open(r: Raster, used: Seq<bool>, x: int, y: int) -> int {
    ind(open_segment(r, used, x - 1, y, 3)) + ind(open_segment(r, used, x, y - 1, 2)) + ind(
        open_segment(r, used, x, y + 1, 1),
    ) + ind(open_segment(r, used, x + 1, y, 0))
}

/// Every lattice point has as many open segments out as in.
pub open spec fn all_balanced(r: Raster, used: Seq<bool>) -> bool {
    forall|x: int, y: int|
        in_lattice(r, x, y) ==> #[trigger] out_open(r, used, x, y) == in_open(r, used, x, y)
}

/// The open segments are those of a balanced graph less a path from `s`
/// to `c`, where `s != c`.
pub open spec fn walk_balanced(r: Raster, used: Seq<bool>, s: (int, int), c: (int, int)) -> bool {
    &&& s != c
    &&& forall|x: int, y: int|
        in_lattice(r, x, y) ==> #[trigger] out_open(r, used, x, y) + ind((x, y) == s) == in_open(
            r,
            used,
            x,
            y,
        ) + ind((x, y) == c)
}

/// The state of a walk from `s` that has reached `c`.
pub open spec fn walk_state(r: Raster, used: Seq<bool>, s: (int, int), c: (int, int)) -> bool {
    if c == s {
        all_balanced(r, used)
    } else {
        walk_balanced(r, used, s, c)
    }
}

/// The segment from (`x`, `y`) in direction `d` is a step of one of `ls`.
pub open spec fn covered(ls: Seq<Seq<(i32, i32)>>, x: int, y: int, d: int) -> bool {
    exists|a: int, i: int|
        0 <= a < ls.len() && 0 <= i < ls[a].len() - 1 && #[trigger] pt(ls[a][i]) == (x, y) && pt(
            ls[a][i + 1],
        ) == step((x, y), d)
}

/// Every flagged boundary segment is a step of one of `ls`.
pub open spec fn flagged_covered(r: Raster, used: Seq<bool>, ls: Seq<Seq<(i32, i32)>>) -> bool {
    forall|x: int, y: int, d: int|
        in_lattice(r, x, y) && 0 <= d < 4 && present(r, x, y, d) && #[trigger] flagged(
            r,
            used,
            x,
            y,
            d,
        ) ==> covered(ls, x, y, d)
}

/// Every boundary segment out of a lattice point before (`x0`, `y0`), in
/// the order of columns and then rows, is flagged.
pub open spec fn scanned(r: Raster, used: Seq<bool>, x0: int, y0: int) -> bool {
    forall|x: int, y: int, d: int|
        in_lattice(r, x, y) && 0 <= d < 4 && (x < x0 || (x == x0 && y < y0)) && present(r, x, y, d)
            ==> #[trigger] flagged(r, used, x, y, d)
}

/// `used` with the flag of the segment from (`x`, `y`) in direction `d` set.
pub open spec fn with_flag(r: Raster, used: Seq<bool>, x: int, y: int, d: int) -> Seq<bool> {
    used.update(4 * (x * (r.height + 3) + y) + d, true)
}

/// Every flag of `u0` is set in `u1`.
pub open spec fn grows(u0: Seq<bool>, u1: Seq<bool>) -> bool {
    &&& u1.len() == u0.len()
    &&& forall|i: int| 0 <= i < u0.len() && u0[i] ==> u1[i]
}

/// The index of the flag of a segment out of a lattice point.
pub proof fn lemma_flag_index(r: Raster, x: int, y: int, d: int)
    requires
        in_lattice(r, x, y),
        0 <= d < 4,
    ensures
        0 <= x * (r.height + 3) + y < (r.width + 3) * (r.height + 3),
        0 <= 4 * (x * (r.height + 3) + y) + d < 4 * ((r.width + 3) * (r.height + 3)),
{
    lemma_same_index_bound(r.width + 3int, r.height + 3int, x, y);
}

proof fn lemma_same_index_bound(w: int, h: int, x: int, y: int)
    requires
        0 <= x < w,
        0 <= y < h,
    ensures
        0 <= x * h + y < w * h,
{
    assert(0 <= x * h + y < w * h) by (nonlinear_arith)
        requires
            0 <= x < w,
            0 <= y < h,
    ;
}

/// Distinct segments out of lattice points have distinct flags.
pub proof fn lemma_flag_injective(r: Raster, x: int, y: int, d: int, x2: int, y2: int, d2: int)
    requires
        in_lattice(r, x, y),
        in_lattice(r, x2, y2),
        0 <= d < 4,
        0 <= d2 < 4,
        4 * (x * (r.height + 3) + y) + d == 4 * (x2 * (r.height + 3) + y2) + d2,
    ensures
        x == x2 && y == y2 && d == d2,
{
    let h1 = r.height + 3int;
    let k = x * h1 + y;
    let k2 = x2 * h1 + y2;
    assert(k == k2 && d == d2);
    lemma_same_index(h1, r.width + 3int, y, x, y2, x2);
}

/// A boundary segment starts and ends at lattice points.
pub proof fn lemma_present_in_lattice(r: Raster, x: int, y: int, d: int)
    requires
        0 <= d < 4,
        present(r, x, y, d),
    ensures
        1 <= step((x, y), d).0 <= r.width + 1,
        1 <= step((x, y), d).1 <= r.height + 1,
        0 <= x <= r.width + 1,
        0 <= y <= r.height + 1,
{
}

/// Setting the flag of the open segment (`px`, `py`, `d0`) closes it and
/// leaves every other segment as it was.
proof fn lemma_open_after_flag(
    r: Raster,
    used: Seq<bool>,
    px: int,
    py: int,
    d0: int,
    x: int,
    y: int,
    d: int,
)
    requires
        used.len() == 4 * ((r.width + 3) * (r.height + 3)),
        in_lattice(r, px, py),
        0 <= d0 < 4,
        0 <= d < 4,
    ensures
        open_segment(r, with_flag(r, used, px, py, d0), x, y, d) == (
        open_segment(r, used, x, y, d) && !(x == px && y == py && d == d0)),
{
    if present(r, x, y, d) {
        lemma_present_in_lattice(r, x, y, d);
        lemma_flag_index(r, x, y, d);
        lemma_flag_index(r, px, py, d0);
        if 4 * (x * (r.height + 3) + y) + d == 4 * (px * (r.height + 3) + py) + d0 {
            lemma_flag_injective(r, x, y, d, px, py, d0);
        }
    }
}

/// Setting the flag of an open segment takes one open segment out of its
/// start and one into its end.
pub proof fn lemma_flag_counts(r: Raster, used: Seq<bool>, px: int, py: int, d0: int)
    requires
        used.len() == 4 * ((r.width + 3) * (r.height + 3)),
        in_lattice(r, px, py),
        0 <= d0 < 4,
        open_segment(r, used, px, py, d0),
    ensures
        forall|x: int, y: int|
            #![trigger out_open(r, with_flag(r, used, px, py, d0), x, y)]
            out_open(r, with_flag(r, used, px, py, d0), x, y) == out_open(
                r,
                used,
                x,
                y,
            ) - ind(x == px && y == py) && in_open(
                r,
                with_flag(r, used, px, py, d0),
                x,
                y,
            ) == in_open(r, used, x, y) - ind((x, y) == step((px, py), d0)),
{
    let u2 = with_flag(r, used, px, py, d0);
    assert forall|x: int, y: int|
        #![trigger out_open(r, u2, x, y)]
        out_open(r, u2, x, y) == out_open(r, used, x, y) - ind(x == px && y == py) && in_open(
            r,
            u2,
            x,
            y,
        ) == in_open(r, used, x, y) - ind((x, y) == step((px, py), d0)) by {
        lemma_open_after_flag(r, used, px, py, d0, x, y, 0);
        lemma_open_after_flag(r, used, px, py, d0, x, y, 1);
        lemma_open_after_flag(r, used, px, py, d0, x, y, 2);
        lemma_open_after_flag(r, used, px, py, d0, x, y, 3);
        lemma_open_after_flag(r, used, px, py, d0, x - 1, y, 3);
        lemma_open_after_flag(r, used, px, py, d0, x, y - 1, 2);
        lemma_open_after_flag(r, used, px, py, d0, x, y + 1, 1);
        lemma_open_after_flag(r, used, px, py, d0, x + 1, y, 0);
    }
}

/// Taking the open segment out of `c` in direction `d` moves the walk on
/// to the end of the segment.
pub proof fn lemma_walk_step(r: Raster, used: Seq<bool>, s: (int, int), c: (int, int), d: int)
    requires
        used.len() == 4 * ((r.width + 3) * (r.height + 3)),
        in_lattice(r, c.0, c.1),
        0 <= d < 4,
        open_segment(r, used, c.0, c.1, d),
        walk_state(r, used, s, c),
    ensures
        walk_state(
            r,
            with_flag(r, used, c.0, c.1, d),
            s,
            step(c, d),
        ),
{
    let u2 = with_flag(r, used, c.0, c.1, d);
    let n = step(c, d);
    lemma_flag_counts(r, used, c.0, c.1, d);
    assert(n != c);
    assert forall|x: int, y: int| in_lattice(r, x, y) implies #[trigger] out_open(r, u2, x, y) + ind(
        (x, y) == s && n != s,
    ) == in_open(r, u2, x, y) + ind((x, y) == n && n != s) by {
        assert(out_open(r, used, x, y) == out_open(r, used, x, y));
    }
}

/// No flag is set: every point is balanced.
pub proof fn lemma_unflagged_balanced(r: Raster, used: Seq<bool>)
    requires
        used.len() == 4 * ((r.width + 3) * (r.height + 3)),
        forall|i: int| 0 <= i < used.len() ==> !used[i],
    ensures
        all_balanced(r, used),
        flagged_covered(r, used, seq![]),
        scanned(r, used, 0, 0),
{
    assert forall|x: int, y: int| in_lattice(r, x, y) implies #[trigger] out_open(r, used, x, y)
        == in_open(r, used, x, y) by {
        lemma_open_unflagged(r, used, x, y, 0);
        lemma_open_unflagged(r, used, x, y, 1);
        lemma_open_unflagged(r, used, x, y, 2);
        lemma_open_unflagged(r, used, x, y, 3);
        lemma_open_unflagged(r, used, x - 1, y, 3);
        lemma_open_unflagged(r, used, x, y - 1, 2);
        lemma_open_unflagged(r, used, x, y + 1, 1);
        lemma_open_unflagged(r, used, x + 1, y, 0);
    }
    assert forall|x: int, y: int, d: int|
        in_lattice(r, x, y) && 0 <= d < 4 && present(r, x, y, d) && #[trigger] flagged(
            r,
            used,
            x,
            y,
            d,
        ) implies covered(seq![], x, y, d) by {
        lemma_flag_index(r, x, y, d);
    }
}

proof fn lemma_open_unflagged(r: Raster, used: Seq<bool>, x: int, y: int, d: int)
    requires
        used.len() == 4 * ((r.width + 3) * (r.height + 3)),
        forall|i: int| 0 <= i < used.len() ==> !used[i],
        0 <= d < 4,
    ensures
        open_segment(r, used, x, y, d) == present(r, x, y, d),
{
    if present(r, x, y, d) {
        lemma_present_in_lattice(r, x, y, d);
        lemma_flag_index(r, x, y, d);
    }
}

/// Setting more flags keeps the flagged segments flagged.
pub proof fn lemma_grows_flagged(r: Raster, u0: Seq<bool>, u1: Seq<bool>, x: int, y: int, d: int)
    requires
        u0.len() == 4 * ((r.width + 3) * (r.height + 3)),
        grows(u0, u1),
        in_lattice(r, x, y),
        0 <= d < 4,
        flagged(r, u0, x, y, d),
    ensures
        flagged(r, u1, x, y, d),
{
    lemma_flag_index(r, x, y, d);
}

/// Setting more flags keeps the scanned points scanned.
pub proof fn lemma_grows_scanned(r: Raster, u0: Seq<bool>, u1: Seq<bool>, x0: int, y0: int)
    requires
        u0.len() == 4 * ((r.width + 3) * (r.height + 3)),
        grows(u0, u1),
        scanned(r, u0, x0, y0),
    ensures
        scanned(r, u1, x0, y0),
{
    assert forall|x: int, y: int, d: int|
        in_lattice(r, x, y) && 0 <= d < 4 && (x < x0 || (x == x0 && y < y0)) && present(
            r,
            x,
            y,
            d,
        ) implies #[trigger] flagged(r, u1, x, y, d) by {
        assert(flagged(r, u0, x, y, d));
        lemma_grows_flagged(r, u0, u1, x, y, d);
    }
}

/// A step of one of `ls` is a step of one of `ls` with a chain added.
pub proof fn lemma_covered_push(ls: Seq<Seq<(i32, i32)>>, l: Seq<(i32, i32)>, x: int, y: int, d: int)
    requires
        covered(ls, x, y, d),
    ensures
        covered(ls.push(l), x, y, d),
{
    let (a, i) = choose|a: int, i: int|
        0 <= a < ls.len() && 0 <= i < ls[a].len() - 1 && #[trigger] pt(ls[a][i]) == (x, y) && pt(
            ls[a][i + 1],
        ) == step((x, y), d);
    assert(ls.push(l)[a] == ls[a]);
    assert(pt(ls.push(l)[a][i]) == (x, y));
}

/// A step of the last chain is still one once the chain is extended.
pub proof fn lemma_covered_extend(
    ls: Seq<Seq<(i32, i32)>>,
    l: Seq<(i32, i32)>,
    q: (i32, i32),
    x: int,
    y: int,
    d: int,
)
    requires
        covered(ls.push(l), x, y, d),
    ensures
        covered(ls.push(l.push(q)), x, y, d),
{
    let ext = ls.push(l);
    let ext2 = ls.push(l.push(q));
    let (a, i) = choose|a: int, i: int|
        0 <= a < ext.len() && 0 <= i < ext[a].len() - 1 && #[trigger] pt(ext[a][i]) == (x, y) && pt(
            ext[a][i + 1],
        ) == step((x, y), d);
    if a < ls.len() {
        assert(ext[a] == ls[a] && ext2[a] == ls[a]);
    } else {
        assert(ext[a] == l && ext2[a] == l.push(q));
        assert(ext2[a][i] == l[i] && ext2[a][i + 1] == l[i + 1]);
    }
    assert(pt(ext2[a][i]) == (x, y));
}

/// The last step of the last chain is a step of the chains.
pub proof fn lemma_covered_last(ls: Seq<Seq<(i32, i32)>>, l: Seq<(i32, i32)>, q: (i32, i32), d: int)
    requires
        l.len() >= 1,
        pt(q) == step(pt(l.last()), d),
    ensures
        covered(ls.push(l.push(q)), pt(l.last()).0, pt(l.last()).1, d),
{
    let ext2 = ls.push(l.push(q));
    let a = ls.len() as int;
    let i = l.len() - 1;
    assert(ext2[a] == l.push(q));
    assert(ext2[a][i] == l.last() && ext2[a][i + 1] == q);
    assert(pt(ext2[a][i]) == (pt(l.last()).0, pt(l.last()).1));
}

/// Setting the flag of the segment from the end of the last chain to `q`
/// and adding `q` to that chain keeps every flagged segment covered.
pub proof fn lemma_flag_step_covered(
    r: Raster,
    used: Seq<bool>,
    ls: Seq<Seq<(i32, i32)>>,
    l: Seq<(i32, i32)>,
    q: (i32, i32),
    d: int,
)
    requires
        used.len() == 4 * ((r.width + 3) * (r.height + 3)),
        flagged_covered(r, used, ls.push(l)),
        l.len() >= 1,
        in_lattice(r, pt(l.last()).0, pt(l.last()).1),
        0 <= d < 4,
        pt(q) == step(pt(l.last()), d),
    ensures
        flagged_covered(r, with_flag(r, used, pt(l.last()).0, pt(l.last()).1, d), ls.push(l.push(q))),
{
    let c = pt(l.last());
    let u2 = with_flag(r, used, c.0, c.1, d);
    assert forall|x: int, y: int, e: int|
        in_lattice(r, x, y) && 0 <= e < 4 && present(r, x, y, e) && #[trigger] flagged(
            r,
            u2,
            x,
            y,
            e,
        ) implies covered(ls.push(l.push(q)), x, y, e) by {
        lemma_flag_index(r, x, y, e);
        lemma_flag_index(r, c.0, c.1, d);
        if x == c.0 && y == c.1 && e == d {
            lemma_covered_last(ls, l, q, d);
        } else {
            if 4 * (x * (r.height + 3) + y) + e == 4 * (c.0 * (r.height + 3) + c.1) + d {
                lemma_flag_injective(r, x, y, e, c.0, c.1, d);
            }
            assert(flagged(r, used, x, y, e));
            lemma_covered_extend(ls, l, q, x, y, e);
        }
    }
}

/// Flagged segments covered by `ls` stay covered once a chain is added.
pub proof fn lemma_flagged_covered_push(
    r: Raster,
    used: Seq<bool>,
    ls: Seq<Seq<(i32, i32)>>,
    l: Seq<(i32, i32)>,
)
    requires
        flagged_covered(r, used, ls),
    ensures
        flagged_covered(r, used, ls.push(l)),
{
    assert forall|x: int, y: int, e: int|
        in_lattice(r, x, y) && 0 <= e < 4 && present(r, x, y, e) && #[trigger] flagged(
            r,
            used,
            x,
            y,
            e,
        ) implies covered(ls.push(l), x, y, e) by {
        lemma_covered_push(ls, l, x, y, e);
    }
}

/// A point whose segments out are all flagged has none open.
pub proof fn lemma_none_open(r: Raster, used: Seq<bool>, x: int, y: int)
    requires
        forall|d: int| 0 <= d < 4 && present(r, x, y, d) ==> flagged(r, used, x, y, d),
    ensures
        out_open(r, used, x, y) == 0,
{
}

/// A point whose segments out are all flagged extends the scanned points
/// by one.
pub proof fn lemma_scan_next(r: Raster, used: Seq<bool>, x0: int, y0: int)
    requires
        scanned(r, used, x0, y0),
        0 <= y0 <= r.height + 2,
        forall|d: int| 0 <= d < 4 && present(r, x0, y0, d) ==> flagged(r, used, x0, y0, d),
    ensures
        y0 < r.height + 2 ==> scanned(r, used, x0, y0 + 1),
        y0 == r.height + 2 ==> scanned(r, used, x0 + 1, 0),
{
    assert forall|x: int, y: int, d: int|
        in_lattice(r, x, y) && 0 <= d < 4 && (x < x0 || (x == x0 && y < y0 + 1)) && present(
            r,
            x,
            y,
            d,
        ) implies #[trigger] flagged(r, used, x, y, d) by {
        if x == x0 && y == y0 {
        }
    }
    if y0 == r.height + 2 {
        assert forall|x: int, y: int, d: int|
            in_lattice(r, x, y) && 0 <= d < 4 && (x < x0 + 1 || (x == x0 + 1 && y < 0)) && present(
                r,
                x,
                y,
                d,
            ) implies #[trigger] flagged(r, used, x, y, d) by {
            if x == x0 && y == y0 {
            }
        }
    }
}

} // verus!
