use vstd::prelude::*;
use crate::boundary_graph::{
    covered, flagged, flagged_covered, in_lattice, lemma_present_in_lattice, present, scanned,
};
use crate::contour::{
    covers_boundary, dir_between, is_boundary_segment, loops_follow_boundary, pt, segments_distinct,
    step,
};
use crate::raster::Raster;

verus! {

// The order in which the tracer takes the boundary segments: where each
// loop starts, which segment it takes at each point, and where it ends.
// With the loops taking every boundary segment once, the order fixes them
// (`lemma_trace_unique`).

/// The segment from `v` to `w` is a step of one of the loops before loop
/// `a`, or a step of loop `a` before its step `i`.
pub open spec fn taken_before(
    ls: Seq<Seq<(i32, i32)>>,
    a: int,
    i: int,
    v: (int, int),
    w: (int, int),
) -> bool {
    exists|b: int, j: int|
        0 <= b <= a && b < ls.len() && 0 <= j < ls[b].len() - 1 && (b < a || j < i) && #[trigger] pt(
            ls[b][j],
        ) == v && pt(ls[b][j + 1]) == w
}

/// Step `i` of loop `a` goes, of the boundary segments out of its point
/// that are not taken before it, along the last one in the order left, up,
/// down, right.
pub open spec fn greedy_at(r: Raster, ls: Seq<Seq<(i32, i32)>>, a: int, i: int) -> bool {
    forall|e: int|
        dir_between(ls[a][i], ls[a][i + 1]) < e < 4 && #[trigger] is_boundary_segment(
            r,
            pt(ls[a][i]),
            step(pt(ls[a][i]), e),
        ) ==> taken_before(ls, a, i, pt(ls[a][i]), step(pt(ls[a][i]), e))
}

/// Every step of every loop is greedy.
pub open spec fn steps_greedy(r: Raster, ls: Seq<Seq<(i32, i32)>>) -> bool {
    forall|a: int, i: int|
        0 <= a < ls.len() && 0 <= i < ls[a].len() - 1 ==> #[trigger] greedy_at(r, ls, a, i)
}

/// (`x`, `y`) comes before `p` by columns and then rows.
pub open spec fn before(x: int, y: int, p: (int, int)) -> bool {
    x < p.0 || (x == p.0 && y < p.1)
}

/// Loop `a` starts at the first lattice point, by columns and then rows,
/// out of which a boundary segment is not taken by the loops before it.
pub open spec fn starts_first_at(r: Raster, ls: Seq<Seq<(i32, i32)>>, a: int) -> bool {
    forall|x: int, y: int, e: int|
        0 <= e < 4 && before(x, y, pt(ls[a][0])) && #[trigger] is_boundary_segment(
            r,
            (x, y),
            step((x, y), e),
        ) ==> taken_before(ls, a, 0, (x, y), step((x, y), e))
}

/// Every loop starts at the first point with a segment left.
pub open spec fn starts_first(r: Raster, ls: Seq<Seq<(i32, i32)>>) -> bool {
    forall|a: int| 0 <= a < ls.len() ==> #[trigger] starts_first_at(r, ls, a)
}

/// Every loop ends the first time it is back at its start.
pub open spec fn closes_once(ls: Seq<Seq<(i32, i32)>>) -> bool {
    forall|a: int, i: int| 0 <= a < ls.len() && 0 < i < ls[a].len() - 1 ==> #[trigger] ls[a][i] != ls[a][0]
}

/// The first `n` steps of `l`, added after `ls`, are greedy.
pub closed spec fn greedy_prefix(r: Raster, ls: Seq<Seq<(i32, i32)>>, l: Seq<(i32, i32)>, n: int) -> bool {
    forall|i: int| 0 <= i < n ==> #[trigger] greedy_at(r, ls.push(l), ls.len() as int, i)
}

/// The points of `l` after the first and before point `n` differ from the
/// first.
pub closed spec fn avoids_start(l: Seq<(i32, i32)>, n: int) -> bool {
    forall|i: int| 0 < i < n ==> #[trigger] l[i] != l[0]
}

/// A chain of one point.
pub proof fn lemma_walk_order_start(r: Raster, ls: Seq<Seq<(i32, i32)>>, p: (i32, i32))
    ensures
        greedy_prefix(r, ls, seq![p], 0),
        avoids_start(seq![p], 1),
{
}

/// A chain that is not back at its start keeps avoiding it when it moves
/// on to a point other than the start; its steps but the last one avoid it
/// whatever the new point.
pub proof fn lemma_avoids_start_push(l: Seq<(i32, i32)>, q: (i32, i32))
    requires
        l.len() >= 1,
        avoids_start(l, l.len() as int),
    ensures
        q != l[0] ==> avoids_start(l.push(q), l.len() + 1int),
        avoids_start(l.push(q), l.len() as int),
{
    let l2 = l.push(q);
    assert forall|i: int| 0 < i < l.len() implies #[trigger] l2[i] != l2[0] by {
        assert(l2[i] == l[i]);
    }
    if q != l[0] {
        assert forall|i: int| 0 < i < l.len() + 1 implies #[trigger] l2[i] != l2[0] by {
            if i < l.len() {
                assert(l2[i] == l[i]);
            }
        }
    }
}

/// The step out of the end of the chain, as in `lemma_greedy_new_step`,
/// extends the greedy steps of the chain by one.
pub proof fn lemma_greedy_walk_step(
    r: Raster,
    used: Seq<bool>,
    ls: Seq<Seq<(i32, i32)>>,
    l: Seq<(i32, i32)>,
    q: (i32, i32),
    d: int,
)
    requires
        greedy_prefix(r, ls, l, l.len() - 1),
        flagged_covered(r, used, ls.push(l)),
        l.len() >= 1,
        in_lattice(r, pt(l.last()).0, pt(l.last()).1),
        0 <= d < 4,
        pt(q) == step(pt(l.last()), d),
        forall|e: int|
            d < e < 4 && present(r, pt(l.last()).0, pt(l.last()).1, e) ==> flagged(
                r,
                used,
                pt(l.last()).0,
                pt(l.last()).1,
                e,
            ),
    ensures
        greedy_prefix(r, ls, l.push(q), l.len() as int),
{
    lemma_greedy_new_step(r, used, ls, l, q, d);
    assert forall|i: int| 0 <= i < l.len() implies #[trigger] greedy_at(
        r,
        ls.push(l.push(q)),
        ls.len() as int,
        i,
    ) by {
        if i < l.len() - 1 {
            lemma_greedy_extend(r, ls, l, q, i);
        }
    }
}

/// A step taken before a position is still taken before it once a loop is
/// added after the others.
proof fn lemma_taken_push(
    ls: Seq<Seq<(i32, i32)>>,
    l: Seq<(i32, i32)>,
    a: int,
    i: int,
    v: (int, int),
    w: (int, int),
)
    requires
        0 <= a < ls.len(),
        taken_before(ls, a, i, v, w),
    ensures
        taken_before(ls.push(l), a, i, v, w),
{
    let (b, j) = choose|b: int, j: int|
        0 <= b <= a && b < ls.len() && 0 <= j < ls[b].len() - 1 && (b < a || j < i) && #[trigger] pt(
            ls[b][j],
        ) == v && pt(ls[b][j + 1]) == w;
    assert(ls.push(l)[b] == ls[b]);
    assert(pt(ls.push(l)[b][j]) == v);
}

/// Adding a loop after the others keeps the order of the loops before it.
pub proof fn lemma_order_push(r: Raster, ls: Seq<Seq<(i32, i32)>>, l: Seq<(i32, i32)>)
    requires
        steps_greedy(r, ls),
        starts_first(r, ls),
        closes_once(ls),
    ensures
        forall|a: int, i: int|
            0 <= a < ls.len() && 0 <= i < ls[a].len() - 1 ==> #[trigger] greedy_at(r, ls.push(l), a, i),
        forall|a: int| 0 <= a < ls.len() ==> #[trigger] starts_first_at(r, ls.push(l), a),
        forall|a: int, i: int|
            0 <= a < ls.len() && 0 < i < ls[a].len() - 1 ==> #[trigger] ls.push(l)[a][i] != ls.push(
                l,
            )[a][0],
{
    let ext = ls.push(l);
    assert forall|a: int, i: int| 0 <= a < ls.len() && 0 <= i < ls[a].len() - 1 implies #[trigger] greedy_at(
        r,
        ext,
        a,
        i,
    ) by {
        assert(greedy_at(r, ls, a, i));
        assert(ext[a] == ls[a]);
        assert forall|e: int|
            dir_between(ext[a][i], ext[a][i + 1]) < e < 4 && #[trigger] is_boundary_segment(
                r,
                pt(ext[a][i]),
                step(pt(ext[a][i]), e),
            ) implies taken_before(ext, a, i, pt(ext[a][i]), step(pt(ext[a][i]), e)) by {
            lemma_taken_push(ls, l, a, i, pt(ls[a][i]), step(pt(ls[a][i]), e));
        }
    }
    assert forall|a: int| 0 <= a < ls.len() implies #[trigger] starts_first_at(r, ext, a) by {
        assert(starts_first_at(r, ls, a));
        assert(ext[a] == ls[a]);
        assert forall|x: int, y: int, e: int|
            0 <= e < 4 && before(x, y, pt(ext[a][0])) && #[trigger] is_boundary_segment(
                r,
                (x, y),
                step((x, y), e),
            ) implies taken_before(ext, a, 0, (x, y), step((x, y), e)) by {
            lemma_taken_push(ls, l, a, 0, (x, y), step((x, y), e));
        }
    }
    assert forall|a: int, i: int| 0 <= a < ls.len() && 0 < i < ls[a].len() - 1 implies #[trigger] ext[a][i]
        != ext[a][0] by {
        assert(ext[a] == ls[a]);
    }
}

/// The order of the loops, with one more loop that keeps it.
pub proof fn lemma_order_add_loop(r: Raster, ls: Seq<Seq<(i32, i32)>>, l: Seq<(i32, i32)>)
    requires
        steps_greedy(r, ls),
        starts_first(r, ls),
        closes_once(ls),
        greedy_prefix(r, ls, l, l.len() - 1),
        starts_first_at(r, ls.push(l), ls.len() as int),
        avoids_start(l, l.len() - 1),
    ensures
        steps_greedy(r, ls.push(l)),
        starts_first(r, ls.push(l)),
        closes_once(ls.push(l)),
{
    lemma_order_push(r, ls, l);
    let ext = ls.push(l);
    assert(ext[ls.len() as int] == l);
    assert forall|a: int, i: int| 0 <= a < ext.len() && 0 <= i < ext[a].len() - 1 implies #[trigger] greedy_at(
        r,
        ext,
        a,
        i,
    ) by {
        if a == ls.len() {
            assert(greedy_at(r, ext, ls.len() as int, i));
        }
    }
    assert forall|a: int| 0 <= a < ext.len() implies #[trigger] starts_first_at(r, ext, a) by {}
    assert forall|a: int, i: int| 0 <= a < ext.len() && 0 < i < ext[a].len() - 1 implies #[trigger] ext[a][i]
        != ext[a][0] by {
        if a == ls.len() {
            assert(l[i] != l[0]);
        }
    }
}

/// The steps of the last loop stay greedy as it grows.
pub proof fn lemma_greedy_extend(
    r: Raster,
    ls: Seq<Seq<(i32, i32)>>,
    l: Seq<(i32, i32)>,
    q: (i32, i32),
    i: int,
)
    requires
        0 <= i < l.len() - 1,
        greedy_at(r, ls.push(l), ls.len() as int, i),
    ensures
        greedy_at(r, ls.push(l.push(q)), ls.len() as int, i),
{
    let a = ls.len() as int;
    let ext = ls.push(l);
    let ext2 = ls.push(l.push(q));
    assert(ext[a] == l && ext2[a] == l.push(q));
    assert(ext2[a][i] == l[i] && ext2[a][i + 1] == l[i + 1]);
    assert forall|e: int|
        dir_between(ext2[a][i], ext2[a][i + 1]) < e < 4 && #[trigger] is_boundary_segment(
            r,
            pt(ext2[a][i]),
            step(pt(ext2[a][i]), e),
        ) implies taken_before(ext2, a, i, pt(ext2[a][i]), step(pt(ext2[a][i]), e)) by {
        let v = pt(l[i]);
        let w = step(v, e);
        assert(taken_before(ext, a, i, v, w));
        let (b, j) = choose|b: int, j: int|
            0 <= b <= a && b < ext.len() && 0 <= j < ext[b].len() - 1 && (b < a || j < i)
                && #[trigger] pt(ext[b][j]) == v && pt(ext[b][j + 1]) == w;
        if b < a {
            assert(ext2[b] == ls[b] && ext[b] == ls[b]);
        } else {
            assert(ext2[b][j] == l[j] && ext2[b][j + 1] == l[j + 1]);
        }
        assert(pt(ext2[b][j]) == v);
    }
}

/// A step out of the end `c` of the last chain in direction `d`, where
/// every boundary segment out of `c` after `d` is flagged and every flagged
/// segment is a step of the chains, is greedy.
pub proof fn lemma_greedy_new_step(
    r: Raster,
    used: Seq<bool>,
    ls: Seq<Seq<(i32, i32)>>,
    l: Seq<(i32, i32)>,
    q: (i32, i32),
    d: int,
)
    requires
        flagged_covered(r, used, ls.push(l)),
        l.len() >= 1,
        in_lattice(r, pt(l.last()).0, pt(l.last()).1),
        0 <= d < 4,
        pt(q) == step(pt(l.last()), d),
        forall|e: int|
            d < e < 4 && present(r, pt(l.last()).0, pt(l.last()).1, e) ==> flagged(
                r,
                used,
                pt(l.last()).0,
                pt(l.last()).1,
                e,
            ),
    ensures
        greedy_at(r, ls.push(l.push(q)), ls.len() as int, l.len() - 1),
{
    let a = ls.len() as int;
    let i = l.len() - 1;
    let c = pt(l.last());
    let ext = ls.push(l);
    let ext2 = ls.push(l.push(q));
    assert(ext2[a] == l.push(q));
    assert(ext2[a][i] == l.last() && ext2[a][i + 1] == q);
    assert(dir_between(ext2[a][i], ext2[a][i + 1]) == d);
    assert forall|e: int|
        dir_between(ext2[a][i], ext2[a][i + 1]) < e < 4 && #[trigger] is_boundary_segment(
            r,
            pt(ext2[a][i]),
            step(pt(ext2[a][i]), e),
        ) implies taken_before(ext2, a, i, pt(ext2[a][i]), step(pt(ext2[a][i]), e)) by {
        assert(present(r, c.0, c.1, e));
        assert(flagged(r, used, c.0, c.1, e));
        assert(covered(ext, c.0, c.1, e));
        let (b, j) = choose|b: int, j: int|
            0 <= b < ext.len() && 0 <= j < ext[b].len() - 1 && #[trigger] pt(ext[b][j]) == (c.0, c.1)
                && pt(ext[b][j + 1]) == step((c.0, c.1), e);
        if b < a {
            assert(ext2[b] == ls[b] && ext[b] == ls[b]);
        } else {
            assert(ext[b] == l);
            assert(ext2[b][j] == l[j] && ext2[b][j + 1] == l[j + 1]);
        }
        assert(pt(ext2[b][j]) == c);
    }
}

/// A chain that starts at `s`, where every boundary segment out of a point
/// before `s` is flagged and every flagged segment is a step of `ls`,
/// starts at the first point with a segment that `ls` leaves.
pub proof fn lemma_start_first(
    r: Raster,
    used: Seq<bool>,
    ls: Seq<Seq<(i32, i32)>>,
    l: Seq<(i32, i32)>,
)
    requires
        flagged_covered(r, used, ls),
        l.len() >= 1,
        scanned(r, used, pt(l[0]).0 as int, pt(l[0]).1 as int),
    ensures
        starts_first_at(r, ls.push(l), ls.len() as int),
{
    let a = ls.len() as int;
    let ext = ls.push(l);
    assert(ext[a] == l);
    assert forall|x: int, y: int, e: int|
        0 <= e < 4 && before(x, y, pt(ext[a][0])) && #[trigger] is_boundary_segment(
            r,
            (x, y),
            step((x, y), e),
        ) implies taken_before(ext, a, 0, (x, y), step((x, y), e)) by {
        assert(present(r, x, y, e));
        lemma_present_in_lattice(r, x, y, e);
        assert(flagged(r, used, x, y, e));
        assert(covered(ls, x, y, e));
        let (b, j) = choose|b: int, j: int|
            0 <= b < ls.len() && 0 <= j < ls[b].len() - 1 && #[trigger] pt(ls[b][j]) == (x, y) && pt(
                ls[b][j + 1],
            ) == step((x, y), e);
        assert(ext[b] == ls[b]);
        assert(pt(ext[b][j]) == (x, y));
    }
}

// ---- The order fixes the loops ----

/// `ls1` and `ls2` agree on the loops before loop `a` and on the points of
/// loop `a` up to point `i`.
spec fn same_before(ls1: Seq<Seq<(i32, i32)>>, ls2: Seq<Seq<(i32, i32)>>, a: int, i: int) -> bool {
    &&& 0 <= a < ls1.len()
    &&& a < ls2.len()
    &&& 0 <= i < ls1[a].len()
    &&& i < ls2[a].len()
    &&& forall|b: int| 0 <= b < a ==> #[trigger] ls1[b] == ls2[b]
    &&& forall|k: int| 0 <= k <= i ==> #[trigger] ls1[a][k] == ls2[a][k]
}

proof fn lemma_taken_same(
    ls1: Seq<Seq<(i32, i32)>>,
    ls2: Seq<Seq<(i32, i32)>>,
    a: int,
    i: int,
    v: (int, int),
    w: (int, int),
)
    requires
        same_before(ls1, ls2, a, i),
        taken_before(ls1, a, i, v, w),
    ensures
        taken_before(ls2, a, i, v, w),
{
    let (b, j) = choose|b: int, j: int|
        0 <= b <= a && b < ls1.len() && 0 <= j < ls1[b].len() - 1 && (b < a || j < i) && #[trigger] pt(
            ls1[b][j],
        ) == v && pt(ls1[b][j + 1]) == w;
    if b < a {
        assert(ls1[b] == ls2[b]);
    } else {
        assert(ls1[a][j] == ls2[a][j] && ls1[a][j + 1] == ls2[a][j + 1]);
    }
    assert(pt(ls2[b][j]) == v);
}

proof fn lemma_same_before_sym(ls1: Seq<Seq<(i32, i32)>>, ls2: Seq<Seq<(i32, i32)>>, a: int, i: int)
    requires
        same_before(ls1, ls2, a, i),
    ensures
        same_before(ls2, ls1, a, i),
{
    assert forall|b: int| 0 <= b < a implies #[trigger] ls2[b] == ls1[b] by {
        assert(ls1[b] == ls2[b]);
    }
    assert forall|k: int| 0 <= k <= i implies #[trigger] ls2[a][k] == ls1[a][k] by {
        assert(ls1[a][k] == ls2[a][k]);
    }
}

/// A step of a loop is not taken before itself.
proof fn lemma_step_not_taken(ls: Seq<Seq<(i32, i32)>>, a: int, i: int)
    requires
        segments_distinct(ls),
        0 <= a < ls.len(),
        0 <= i < ls[a].len() - 1,
    ensures
        !taken_before(ls, a, i, pt(ls[a][i]), pt(ls[a][i + 1])),
{
    if taken_before(ls, a, i, pt(ls[a][i]), pt(ls[a][i + 1])) {
        let (b, j) = choose|b: int, j: int|
            0 <= b <= a && b < ls.len() && 0 <= j < ls[b].len() - 1 && (b < a || j < i)
                && #[trigger] pt(ls[b][j]) == pt(ls[a][i]) && pt(ls[b][j + 1]) == pt(ls[a][i + 1]);
        assert(ls[b][j] == ls[a][i] && ls[b][j + 1] == ls[a][i + 1]);
        assert((ls[a][i], ls[a][i + 1]) != (ls[b][j], ls[b][j + 1]));
    }
}

/// A boundary segment goes one step in the direction between its ends.
proof fn lemma_segment_dir(r: Raster, p: (i32, i32), q: (i32, i32))
    requires
        is_boundary_segment(r, pt(p), pt(q)),
    ensures
        0 <= dir_between(p, q) < 4,
        pt(q) == step(pt(p), dir_between(p, q)),
{
}

/// Two traces that agree up to a step of a loop agree on the next point.
proof fn lemma_next_same(
    r: Raster,
    ls1: Seq<Seq<(i32, i32)>>,
    ls2: Seq<Seq<(i32, i32)>>,
    a: int,
    i: int,
)
    requires
        same_before(ls1, ls2, a, i),
        i < ls1[a].len() - 1,
        i < ls2[a].len() - 1,
        loops_follow_boundary(r, ls1),
        loops_follow_boundary(r, ls2),
        segments_distinct(ls1),
        segments_distinct(ls2),
        steps_greedy(r, ls1),
        steps_greedy(r, ls2),
    ensures
        ls1[a][i + 1] == ls2[a][i + 1],
{
    let p = ls1[a][i];
    assert(ls2[a][i] == p);
    let v = pt(p);
    assert(is_boundary_segment(r, pt(ls1[a][i]), pt(ls1[a][i + 1])));
    assert(is_boundary_segment(r, pt(ls2[a][i]), pt(ls2[a][i + 1])));
    lemma_segment_dir(r, p, ls1[a][i + 1]);
    lemma_segment_dir(r, p, ls2[a][i + 1]);
    let d1 = dir_between(p, ls1[a][i + 1]);
    let d2 = dir_between(p, ls2[a][i + 1]);
    lemma_step_not_taken(ls1, a, i);
    lemma_step_not_taken(ls2, a, i);
    if d1 < d2 {
        assert(greedy_at(r, ls1, a, i));
        assert(is_boundary_segment(r, pt(ls1[a][i]), step(pt(ls1[a][i]), d2)));
        assert(taken_before(ls1, a, i, v, step(v, d2)));
        lemma_taken_same(ls1, ls2, a, i, v, step(v, d2));
    } else if d2 < d1 {
        assert(greedy_at(r, ls2, a, i));
        assert(is_boundary_segment(r, pt(ls2[a][i]), step(pt(ls2[a][i]), d1)));
        assert(taken_before(ls2, a, i, v, step(v, d1)));
        lemma_same_before_sym(ls1, ls2, a, i);
        lemma_taken_same(ls2, ls1, a, i, v, step(v, d1));
    }
    assert(pt(ls1[a][i + 1]) == pt(ls2[a][i + 1]));
}

/// Two traces that agree on the loops before loop `a` start loop `a` at
/// the same point.
proof fn lemma_start_same(r: Raster, ls1: Seq<Seq<(i32, i32)>>, ls2: Seq<Seq<(i32, i32)>>, a: int)
    requires
        0 <= a < ls1.len(),
        a < ls2.len(),
        forall|b: int| 0 <= b < a ==> #[trigger] ls1[b] == ls2[b],
        loops_follow_boundary(r, ls1),
        loops_follow_boundary(r, ls2),
        segments_distinct(ls1),
        segments_distinct(ls2),
        starts_first(r, ls1),
        starts_first(r, ls2),
    ensures
        ls1[a][0] == ls2[a][0],
{
    let s1 = pt(ls1[a][0]);
    let s2 = pt(ls2[a][0]);
    assert(ls1[a].len() >= 2 && ls2[a].len() >= 2);
    assert(is_boundary_segment(r, pt(ls1[a][0]), pt(ls1[a][1])));
    assert(is_boundary_segment(r, pt(ls2[a][0]), pt(ls2[a][1])));
    lemma_segment_dir(r, ls1[a][0], ls1[a][1]);
    lemma_segment_dir(r, ls2[a][0], ls2[a][1]);
    lemma_step_not_taken(ls1, a, 0);
    lemma_step_not_taken(ls2, a, 0);
    if before(s1.0, s1.1, s2) {
        let e = dir_between(ls1[a][0], ls1[a][1]);
        assert(starts_first_at(r, ls2, a));
        assert(is_boundary_segment(r, (s1.0, s1.1), step((s1.0, s1.1), e)));
        assert(taken_before(ls2, a, 0, s1, pt(ls1[a][1])));
        let (b, j) = choose|b: int, j: int|
            0 <= b <= a && b < ls2.len() && 0 <= j < ls2[b].len() - 1 && (b < a || j < 0)
                && #[trigger] pt(ls2[b][j]) == s1 && pt(ls2[b][j + 1]) == pt(ls1[a][1]);
        assert(ls1[b] == ls2[b]);
        assert(pt(ls1[b][j]) == s1);
        assert(taken_before(ls1, a, 0, pt(ls1[a][0]), pt(ls1[a][1])));
    } else if before(s2.0, s2.1, s1) {
        let e = dir_between(ls2[a][0], ls2[a][1]);
        assert(starts_first_at(r, ls1, a));
        assert(is_boundary_segment(r, (s2.0, s2.1), step((s2.0, s2.1), e)));
        assert(taken_before(ls1, a, 0, s2, pt(ls2[a][1])));
        let (b, j) = choose|b: int, j: int|
            0 <= b <= a && b < ls1.len() && 0 <= j < ls1[b].len() - 1 && (b < a || j < 0)
                && #[trigger] pt(ls1[b][j]) == s2 && pt(ls1[b][j + 1]) == pt(ls2[a][1]);
        assert(ls1[b] == ls2[b]);
        assert(pt(ls2[b][j]) == s2);
        assert(taken_before(ls2, a, 0, pt(ls2[a][0]), pt(ls2[a][1])));
    }
    assert(s1 == s2);
}

/// Two traces that agree on the loops before loop `a` agree on loop `a` up
/// to point `i`.
proof fn lemma_prefix_same(r: Raster, ls1: Seq<Seq<(i32, i32)>>, ls2: Seq<Seq<(i32, i32)>>, a: int, i: int)
    requires
        0 <= a < ls1.len(),
        a < ls2.len(),
        0 <= i < ls1[a].len(),
        i < ls2[a].len(),
        forall|b: int| 0 <= b < a ==> #[trigger] ls1[b] == ls2[b],
        loops_follow_boundary(r, ls1),
        loops_follow_boundary(r, ls2),
        segments_distinct(ls1),
        segments_distinct(ls2),
        starts_first(r, ls1),
        starts_first(r, ls2),
        steps_greedy(r, ls1),
        steps_greedy(r, ls2),
    ensures
        same_before(ls1, ls2, a, i),
    decreases i,
{
    if i == 0 {
        lemma_start_same(r, ls1, ls2, a);
        assert forall|k: int| 0 <= k <= 0 implies #[trigger] ls1[a][k] == ls2[a][k] by {}
    } else {
        lemma_prefix_same(r, ls1, ls2, a, i - 1);
        lemma_next_same(r, ls1, ls2, a, i - 1);
        assert forall|k: int| 0 <= k <= i implies #[trigger] ls1[a][k] == ls2[a][k] by {
            if k < i {
                assert(same_before(ls1, ls2, a, i - 1));
            }
        }
    }
}

/// Two traces that agree on the loops before loop `a` agree on loop `a`.
proof fn lemma_loop_same(r: Raster, ls1: Seq<Seq<(i32, i32)>>, ls2: Seq<Seq<(i32, i32)>>, a: int)
    requires
        0 <= a < ls1.len(),
        a < ls2.len(),
        forall|b: int| 0 <= b < a ==> #[trigger] ls1[b] == ls2[b],
        loops_follow_boundary(r, ls1),
        loops_follow_boundary(r, ls2),
        segments_distinct(ls1),
        segments_distinct(ls2),
        starts_first(r, ls1),
        starts_first(r, ls2),
        steps_greedy(r, ls1),
        steps_greedy(r, ls2),
        closes_once(ls1),
        closes_once(ls2),
    ensures
        ls1[a] == ls2[a],
{
    let n1 = ls1[a].len() as int;
    let n2 = ls2[a].len() as int;
    assert(n1 >= 2 && ls1[a][0] == ls1[a].last());
    assert(n2 >= 2 && ls2[a][0] == ls2[a].last());
    if n1 < n2 {
        lemma_prefix_same(r, ls1, ls2, a, n1 - 1);
        assert(ls2[a][n1 - 1] == ls1[a][n1 - 1]);
        assert(ls1[a][0] == ls2[a][0]);
        assert(ls2[a][n1 - 1] != ls2[a][0]);
    } else if n2 < n1 {
        lemma_prefix_same(r, ls1, ls2, a, n2 - 1);
        assert(ls2[a][n2 - 1] == ls1[a][n2 - 1]);
        assert(ls1[a][0] == ls2[a][0]);
        assert(ls1[a][n2 - 1] != ls1[a][0]);
    } else {
        lemma_prefix_same(r, ls1, ls2, a, n1 - 1);
        assert(ls1[a] =~= ls2[a]);
    }
}

/// Two traces agree on their first `a` loops.
proof fn lemma_loops_same_upto(r: Raster, ls1: Seq<Seq<(i32, i32)>>, ls2: Seq<Seq<(i32, i32)>>, a: int)
    requires
        0 <= a <= ls1.len(),
        a <= ls2.len(),
        loops_follow_boundary(r, ls1),
        loops_follow_boundary(r, ls2),
        segments_distinct(ls1),
        segments_distinct(ls2),
        starts_first(r, ls1),
        starts_first(r, ls2),
        steps_greedy(r, ls1),
        steps_greedy(r, ls2),
        closes_once(ls1),
        closes_once(ls2),
    ensures
        forall|b: int| 0 <= b < a ==> #[trigger] ls1[b] == ls2[b],
    decreases a,
{
    if a > 0 {
        lemma_loops_same_upto(r, ls1, ls2, a - 1);
        lemma_loop_same(r, ls1, ls2, a - 1);
    }
}

/// A trace that agrees with one that takes every boundary segment on its
/// first `n` loops has no loop after them.
proof fn lemma_no_extra_loop(r: Raster, ls1: Seq<Seq<(i32, i32)>>, ls2: Seq<Seq<(i32, i32)>>)
    requires
        ls2.len() <= ls1.len(),
        forall|b: int| 0 <= b < ls2.len() ==> #[trigger] ls1[b] == ls2[b],
        loops_follow_boundary(r, ls1),
        segments_distinct(ls1),
        covers_boundary(r, ls2),
    ensures
        ls1.len() == ls2.len(),
{
    if ls2.len() < ls1.len() {
        let a = ls2.len() as int;
        assert(ls1[a].len() >= 2);
        assert(is_boundary_segment(r, pt(ls1[a][0]), pt(ls1[a][1])));
        let (k, j) = choose|k: int, j: int|
            0 <= k < ls2.len() && 0 <= j < ls2[k].len() - 1 && #[trigger] pt(ls2[k][j]) == pt(ls1[a][0])
                && pt(ls2[k][j + 1]) == pt(ls1[a][1]);
        assert(ls1[k] == ls2[k]);
        assert(ls1[k][j] == ls1[a][0] && ls1[k][j + 1] == ls1[a][1]);
        assert((ls1[a][0], ls1[a][1]) != (ls1[k][j], ls1[k][j + 1]));
    }
}

/// The order fixes the loops: two sequences of loops that both take every
/// boundary segment of `r` once, in the tracer's order, are the same.
pub proof fn lemma_trace_unique(r: Raster, ls1: Seq<Seq<(i32, i32)>>, ls2: Seq<Seq<(i32, i32)>>)
    requires
        loops_follow_boundary(r, ls1),
        loops_follow_boundary(r, ls2),
        segments_distinct(ls1),
        segments_distinct(ls2),
        covers_boundary(r, ls1),
        covers_boundary(r, ls2),
        starts_first(r, ls1),
        starts_first(r, ls2),
        steps_greedy(r, ls1),
        steps_greedy(r, ls2),
        closes_once(ls1),
        closes_once(ls2),
    ensures
        ls1 == ls2,
{
    if ls1.len() <= ls2.len() {
        lemma_loops_same_upto(r, ls1, ls2, ls1.len() as int);
        if ls1.len() < ls2.len() {
            assert forall|b: int| 0 <= b < ls1.len() implies #[trigger] ls2[b] == ls1[b] by {
                assert(ls1[b] == ls2[b]);
            }
            lemma_no_extra_loop(r, ls2, ls1);
        }
    } else {
        lemma_loops_same_upto(r, ls1, ls2, ls2.len() as int);
        lemma_no_extra_loop(r, ls1, ls2);
    }
    assert(ls1 =~= ls2);
}

} // verus!
