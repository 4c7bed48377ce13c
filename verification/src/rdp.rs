use vstd::prelude::*;

verus! {

pub open spec fn abs(v: int) -> int {
    if v < 0 {
        -v
    } else {
        v
    }
}

/// The squared length of the chord from `s` to `e`.
pub open spec fn chord_len_sq(s: (i32, i32), e: (i32, i32)) -> int {
    (e.0 - s.0) * (e.0 - s.0) + (e.1 - s.1) * (e.1 - s.1)
}

/// A number that grows with the distance of `p` from the line through `s`
/// and `e`: the squared distance from `s` where `s == e`, and otherwise
/// the distance times the chord's length (the cross product's magnitude).
pub open spec fn offset_key(s: (i32, i32), e: (i32, i32), p: (i32, i32)) -> int {
    if chord_len_sq(s, e) == 0 {
        (p.0 - s.0) * (p.0 - s.0) + (p.1 - s.1) * (p.1 - s.1)
    } else {
        abs((e.0 - s.0) * (p.1 - s.1) - (e.1 - s.1) * (p.0 - s.0))
    }
}

/// The distance of `p` from the line through `s` and `e` (from `s` where
/// `s == e`) exceeds `eps_halves / 2`.
pub open spec fn beyond(s: (i32, i32), e: (i32, i32), p: (i32, i32), eps_halves: int) -> bool {
    if chord_len_sq(s, e) == 0 {
        4 * offset_key(s, e, p) > eps_halves * eps_halves
    } else {
        4 * offset_key(s, e, p) * offset_key(s, e, p) > eps_halves * eps_halves * chord_len_sq(s, e)
    }
}

/// The first point among `pts[s+1..j]` that lies farthest from the chord
/// `pts[s]`-`pts[e]` (strictly farther than the chord's ends), or `s`
/// where none does.
pub open spec fn farthest_upto(pts: Seq<(i32, i32)>, s: int, e: int, j: int) -> int
    decreases j - s,
{
    if j <= s + 1 {
        s
    } else {
        let b = farthest_upto(pts, s, e, j - 1);
        let kb = if b == s {
            0
        } else {
            offset_key(pts[s], pts[e], pts[b])
        };
        if offset_key(pts[s], pts[e], pts[j - 1]) > kb {
            j - 1
        } else {
            b
        }
    }
}

/// The indices strictly between `s` and `e` that the Ramer-Douglas-Peucker
/// simplification keeps: the farthest point, where it lies farther than the
/// tolerance from the chord, and recursively those of both halves.
pub open spec fn rdp_keep(pts: Seq<(i32, i32)>, eps_halves: int, s: int, e: int) -> Set<int>
    decreases e - s,
{
    if e <= s + 1 {
        Set::empty()
    } else {
        let m = farthest_upto(pts, s, e, e);
        if s < m < e && beyond(pts[s], pts[e], pts[m], eps_halves) {
            rdp_keep(pts, eps_halves, s, m).union(rdp_keep(pts, eps_halves, m, e)).insert(m)
        } else {
            Set::empty()
        }
    }
}

/// Index `i` survives the simplification of `pts`.
pub open spec fn rdp_kept(pts: Seq<(i32, i32)>, eps_halves: int, i: int) -> bool {
    i == 0 || i == pts.len() - 1 || rdp_keep(pts, eps_halves, 0, pts.len() - 1).contains(i)
}

/// The points of `pts[..m]` that survive, in order.
pub open spec fn kept_prefix(pts: Seq<(i32, i32)>, eps_halves: int, m: int) -> Seq<(i32, i32)>
    decreases m,
{
    if m <= 0 {
        Seq::empty()
    } else {
        kept_prefix(pts, eps_halves, m - 1) + if rdp_kept(pts, eps_halves, m - 1) {
            seq![pts[m - 1]]
        } else {
            Seq::empty()
        }
    }
}

/// The Ramer-Douglas-Peucker simplification of the polyline `pts` with
/// tolerance `eps_halves / 2`.
pub open spec fn rdp_simplified(pts: Seq<(i32, i32)>, eps_halves: int) -> Seq<(i32, i32)> {
    if pts.len() <= 2 {
        pts
    } else {
        kept_prefix(pts, eps_halves, pts.len() as int)
    }
}

pub proof fn lemma_farthest_range(pts: Seq<(i32, i32)>, s: int, e: int, j: int)
    requires
        s <= j,
    ensures
        s <= farthest_upto(pts, s, e, j) < (if j <= s + 1 { s + 1 } else { j }),
        farthest_upto(pts, s, e, j) == s || s + 1 <= farthest_upto(pts, s, e, j),
    decreases j - s,
{
    if j > s + 1 {
        lemma_farthest_range(pts, s, e, j - 1);
    }
}

pub proof fn lemma_keep_range(pts: Seq<(i32, i32)>, eps_halves: int, s: int, e: int)
    ensures
        forall|i: int| #[trigger] rdp_keep(pts, eps_halves, s, e).contains(i) ==> s < i < e,
    decreases e - s,
{
    if e > s + 1 {
        let m = farthest_upto(pts, s, e, e);
        if s < m < e && beyond(pts[s], pts[e], pts[m], eps_halves) {
            lemma_keep_range(pts, eps_halves, s, m);
            lemma_keep_range(pts, eps_halves, m, e);
            assert(rdp_keep(pts, eps_halves, s, e) == rdp_keep(pts, eps_halves, s, m).union(
                rdp_keep(pts, eps_halves, m, e),
            ).insert(m));
        } else {
            assert(rdp_keep(pts, eps_halves, s, e) == Set::<int>::empty());
        }
    } else {
        assert(rdp_keep(pts, eps_halves, s, e) == Set::<int>::empty());
    }
}

proof fn lemma_chord_nonneg(s: (i32, i32), e: (i32, i32))
    ensures
        0 <= chord_len_sq(s, e),
{
    let dx = e.0 - s.0;
    let dy = e.1 - s.1;
    assert(0 <= dx * dx + dy * dy) by (nonlinear_arith);
}

/// The offset key of `p` from the chord `s`-`e`, exactly.
fn offset_key_exec(s: (i32, i32), e: (i32, i32), p: (i32, i32)) -> (res: u128)
    ensures
        res == offset_key(s, e, p),
        res <= 0x2_0000_0000_0000_0000,
{
    let dx = e.0 as i128 - s.0 as i128;
    let dy = e.1 as i128 - s.1 as i128;
    let px = p.0 as i128 - s.0 as i128;
    let py = p.1 as i128 - s.1 as i128;
    assert(dx * dx <= 0x1_0000_0000 * 0x1_0000_0000 && dy * dy <= 0x1_0000_0000 * 0x1_0000_0000
        && px * px <= 0x1_0000_0000 * 0x1_0000_0000 && py * py <= 0x1_0000_0000 * 0x1_0000_0000)
        by (nonlinear_arith)
        requires
            -0x1_0000_0000 <= dx <= 0x1_0000_0000,
            -0x1_0000_0000 <= dy <= 0x1_0000_0000,
            -0x1_0000_0000 <= px <= 0x1_0000_0000,
            -0x1_0000_0000 <= py <= 0x1_0000_0000,
    ;
    assert(0 <= dx * dx && 0 <= dy * dy && 0 <= px * px && 0 <= py * py) by (nonlinear_arith);
    assert(-0x1_0000_0000_0000_0000 <= dx * py <= 0x1_0000_0000_0000_0000
        && -0x1_0000_0000_0000_0000 <= dy * px <= 0x1_0000_0000_0000_0000) by (nonlinear_arith)
        requires
            -0x1_0000_0000 <= dx <= 0x1_0000_0000,
            -0x1_0000_0000 <= dy <= 0x1_0000_0000,
            -0x1_0000_0000 <= px <= 0x1_0000_0000,
            -0x1_0000_0000 <= py <= 0x1_0000_0000,
    ;
    if dx * dx + dy * dy == 0 {
        (px * px + py * py) as u128
    } else {
        let c = dx * py - dy * px;
        if c < 0 {
            (-c) as u128
        } else {
            c as u128
        }
    }
}

/// The product `a * b` in two parts `(h, l)`: `a * b == h * 2^64 + l`, with
/// `l < 2^64`.
fn wide_mul(a: u128, b: u128) -> (res: (u128, u128))
    requires
        a < 0x40_0000_0000_0000_0000,
        b < 0x40_0000_0000_0000_0000,
    ensures
        res.1 < 0x1_0000_0000_0000_0000,
        a * b == res.0 * 0x1_0000_0000_0000_0000 + res.1,
{
    let base: u128 = 0x1_0000_0000_0000_0000;
    let a1 = a / base;
    let a0 = a % base;
    let b1 = b / base;
    let b0 = b % base;
    assert(a == a1 * base + a0 && b == b1 * base + b0) by (nonlinear_arith)
        requires
            a1 == a / base,
            a0 == a % base,
            b1 == b / base,
            b0 == b % base,
            base > 0,
    ;
    assert(a1 < 0x40 && b1 < 0x40 && a0 < base && b0 < base) by (nonlinear_arith)
        requires
            a == a1 * base + a0,
            b == b1 * base + b0,
            0 <= a0 < base,
            0 <= b0 < base,
            a < 0x40_0000_0000_0000_0000,
            b < 0x40_0000_0000_0000_0000,
            base == 0x1_0000_0000_0000_0000,
            a1 >= 0,
            b1 >= 0,
    ;
    assert(a0 * b0 <= (base - 1) * (base - 1)) by (nonlinear_arith)
        requires
            0 <= a0 < base,
            0 <= b0 < base,
    ;
    let p = a0 * b0;
    let ph = p / base;
    let pl = p % base;
    assert(p == ph * base + pl && ph < base) by (nonlinear_arith)
        requires
            ph == p / base,
            pl == p % base,
            base == 0x1_0000_0000_0000_0000,
            p <= (base - 1) * (base - 1),
            p >= 0,
    ;
    assert(a1 * b1 < 0x1000 && a1 * b0 < 0x40 * base && a0 * b1 < 0x40 * base) by (nonlinear_arith)
        requires
            0 <= a1 < 0x40,
            0 <= b1 < 0x40,
            0 <= a0 < base,
            0 <= b0 < base,
    ;
    let h = a1 * b1 * base + a1 * b0 + a0 * b1 + ph;
    assert(a * b == h * base + pl) by (nonlinear_arith)
        requires
            a == a1 * base + a0,
            b == b1 * base + b0,
            p == a0 * b0,
            p == ph * base + pl,
            h == a1 * b1 * base + a1 * b0 + a0 * b1 + ph,
    ;
    (h, pl)
}

// ---- Laws of the simplification ----

proof fn lemma_kept_prefix_len(pts: Seq<(i32, i32)>, k: int, m: int)
    requires
        0 <= m <= pts.len(),
    ensures
        kept_prefix(pts, k, m).len() <= m,
        m >= 1 ==> kept_prefix(pts, k, m).len() >= 1 && kept_prefix(pts, k, m)[0] == pts[0],
    decreases m,
{
    if m > 0 {
        lemma_kept_prefix_len(pts, k, m - 1);
        if m == 1 {
            assert(rdp_kept(pts, k, 0));
            assert(kept_prefix(pts, k, 0) =~= Seq::<(i32, i32)>::empty());
        }
    }
}

/// The simplification keeps the first and the last point and never adds
/// points.
pub proof fn lemma_rdp_keeps_ends(pts: Seq<(i32, i32)>, k: int)
    ensures
        rdp_simplified(pts, k).len() <= pts.len(),
        pts.len() >= 2 ==> {
            let s = rdp_simplified(pts, k);
            &&& s.len() >= 2
            &&& s[0] == pts[0]
            &&& s.last() == pts.last()
        },
{
    if pts.len() > 2 {
        let n = pts.len() as int;
        lemma_kept_prefix_len(pts, k, n);
        lemma_kept_prefix_len(pts, k, n - 1);
        assert(rdp_kept(pts, k, n - 1));
    }
}

/// A farther tolerance keeps no index that a nearer one drops.
pub proof fn lemma_rdp_keep_monotone(pts: Seq<(i32, i32)>, k1: int, k2: int, s: int, e: int)
    requires
        0 <= k1 <= k2,
    ensures
        rdp_keep(pts, k2, s, e).subset_of(rdp_keep(pts, k1, s, e)),
    decreases e - s,
{
    if e > s + 1 {
        let m = farthest_upto(pts, s, e, e);
        if s < m < e && beyond(pts[s], pts[e], pts[m], k2) {
            let key = offset_key(pts[s], pts[e], pts[m]);
            let len_sq = chord_len_sq(pts[s], pts[e]);
            lemma_chord_nonneg(pts[s], pts[e]);
            assert(k1 * k1 <= k2 * k2) by (nonlinear_arith)
                requires
                    0 <= k1 <= k2,
            ;
            assert(k1 * k1 * len_sq <= k2 * k2 * len_sq) by (nonlinear_arith)
                requires
                    k1 * k1 <= k2 * k2,
                    0 <= len_sq,
            ;
            assert(beyond(pts[s], pts[e], pts[m], k1));
            lemma_rdp_keep_monotone(pts, k1, k2, s, m);
            lemma_rdp_keep_monotone(pts, k1, k2, m, e);
        }
    }
}

proof fn lemma_kept_prefix_monotone(pts: Seq<(i32, i32)>, k1: int, k2: int, m: int)
    requires
        0 <= k1 <= k2,
        0 <= m <= pts.len(),
    ensures
        kept_prefix(pts, k2, m).len() <= kept_prefix(pts, k1, m).len(),
    decreases m,
{
    if m > 0 {
        lemma_kept_prefix_monotone(pts, k1, k2, m - 1);
        lemma_rdp_keep_monotone(pts, k1, k2, 0, pts.len() - 1);
        if rdp_kept(pts, k2, m - 1) {
            assert(rdp_kept(pts, k1, m - 1));
        }
    }
}

/// A larger tolerance leaves no more points: optimisation level 5 gives
/// the fewest.
pub proof fn lemma_rdp_tolerance_monotone(pts: Seq<(i32, i32)>, k1: int, k2: int)
    requires
        0 <= k1 <= k2,
    ensures
        rdp_simplified(pts, k2).len() <= rdp_simplified(pts, k1).len(),
{
    if pts.len() > 2 {
        lemma_kept_prefix_monotone(pts, k1, k2, pts.len() as int);
    }
}

/// `a` is `b` with some elements left out, the others in their order.
pub open spec fn is_subsequence(a: Seq<(i32, i32)>, b: Seq<(i32, i32)>) -> bool
    decreases b.len(),
{
    if a.len() == 0 {
        true
    } else if b.len() == 0 {
        false
    } else {
        (a.last() == b.last() && is_subsequence(a.drop_last(), b.drop_last())) || is_subsequence(
            a,
            b.drop_last(),
        )
    }
}

proof fn lemma_subsequence_refl(a: Seq<(i32, i32)>)
    ensures
        is_subsequence(a, a),
    decreases a.len(),
{
    if a.len() > 0 {
        lemma_subsequence_refl(a.drop_last());
    }
}

proof fn lemma_kept_prefix_subsequence(pts: Seq<(i32, i32)>, k1: int, k2: int, m: int)
    requires
        0 <= k1 <= k2,
        pts.len() > 2,
        0 <= m <= pts.len(),
    ensures
        is_subsequence(kept_prefix(pts, k2, m), kept_prefix(pts, k1, m)),
    decreases m,
{
    if m > 0 {
        lemma_kept_prefix_subsequence(pts, k1, k2, m - 1);
        lemma_rdp_keep_monotone(pts, k1, k2, 0, pts.len() - 1);
        let a0 = kept_prefix(pts, k2, m - 1);
        let b0 = kept_prefix(pts, k1, m - 1);
        let a = kept_prefix(pts, k2, m);
        let b = kept_prefix(pts, k1, m);
        if rdp_kept(pts, k2, m - 1) {
            assert(rdp_kept(pts, k1, m - 1));
            assert(a =~= a0.push(pts[m - 1]));
            assert(b =~= b0.push(pts[m - 1]));
            assert(a.drop_last() =~= a0 && b.drop_last() =~= b0);
        } else {
            assert(a =~= a0);
            if rdp_kept(pts, k1, m - 1) {
                assert(b =~= b0.push(pts[m - 1]));
                assert(b.drop_last() =~= b0);
            } else {
                assert(b =~= b0);
            }
        }
    }
}

/// A larger tolerance keeps a subsequence of the points that a smaller one
/// keeps: it keeps no point that the smaller one drops.
pub proof fn lemma_rdp_tolerance_subsequence(pts: Seq<(i32, i32)>, k1: int, k2: int)
    requires
        0 <= k1 <= k2,
    ensures
        is_subsequence(rdp_simplified(pts, k2), rdp_simplified(pts, k1)),
{
    if pts.len() <= 2 {
        lemma_subsequence_refl(pts);
    } else {
        lemma_kept_prefix_subsequence(pts, k1, k2, pts.len() as int);
    }
}

/// Every point strictly between `s` and `j` lies no farther from the chord
/// than the farthest one.
proof fn lemma_farthest_is_max(pts: Seq<(i32, i32)>, s: int, e: int, j: int, t: int)
    requires
        s < t < j,
    ensures
        offset_key(pts[s], pts[e], pts[t]) <= (if farthest_upto(pts, s, e, j) == s {
            0
        } else {
            offset_key(pts[s], pts[e], pts[farthest_upto(pts, s, e, j)])
        }),
    decreases j - s,
{
    lemma_farthest_range(pts, s, e, j - 1);
    if t < j - 1 {
        lemma_farthest_is_max(pts, s, e, j - 1, t);
    }
}

proof fn lemma_offset_key_nonneg(s: (i32, i32), e: (i32, i32), p: (i32, i32))
    ensures
        0 <= offset_key(s, e, p),
{
    let px = p.0 - s.0;
    let py = p.1 - s.1;
    assert(0 <= px * px + py * py) by (nonlinear_arith);
}

/// Where the farthest point is within tolerance, so is every other.
proof fn lemma_within_if_farthest_within(pts: Seq<(i32, i32)>, k: int, s: int, e: int, t: int)
    requires
        s < t < e,
        0 <= k,
        !(s < farthest_upto(pts, s, e, e) < e && beyond(
            pts[s],
            pts[e],
            pts[farthest_upto(pts, s, e, e)],
            k,
        )),
    ensures
        !beyond(pts[s], pts[e], pts[t], k),
{
    let f = farthest_upto(pts, s, e, e);
    lemma_farthest_range(pts, s, e, e);
    lemma_farthest_is_max(pts, s, e, e, t);
    lemma_offset_key_nonneg(pts[s], pts[e], pts[t]);
    lemma_chord_nonneg(pts[s], pts[e]);
    let kt = offset_key(pts[s], pts[e], pts[t]);
    let kf = if f == s {
        0
    } else {
        offset_key(pts[s], pts[e], pts[f])
    };
    let len_sq = chord_len_sq(pts[s], pts[e]);
    assert(4 * kt * kt <= 4 * kf * kf) by (nonlinear_arith)
        requires
            0 <= kt <= kf,
    ;
    assert(0 <= k * k) by (nonlinear_arith);
    assert(0 <= k * k * len_sq) by (nonlinear_arith)
        requires
            0 <= len_sq,
    ;
    if f == s {
        assert(kt == 0);
        assert(4 * kt * kt == 0) by (nonlinear_arith)
            requires
                kt == 0,
        ;
    } else {
        assert(!beyond(pts[s], pts[e], pts[f], k));
    }
}

/// An index that the recursion over `s..e` drops lies within tolerance of
/// the chord joining the nearest kept indices around it.
proof fn lemma_rdp_tolerance_between(pts: Seq<(i32, i32)>, k: int, s: int, e: int, t: int) -> (ij: (
    int,
    int,
))
    requires
        s < t < e,
        0 <= k,
        !rdp_keep(pts, k, s, e).contains(t),
    ensures
        s <= ij.0 < t < ij.1 <= e,
        ij.0 == s || rdp_keep(pts, k, s, e).contains(ij.0),
        ij.1 == e || rdp_keep(pts, k, s, e).contains(ij.1),
        forall|u: int| ij.0 < u < ij.1 ==> !rdp_keep(pts, k, s, e).contains(u),
        !beyond(pts[ij.0], pts[ij.1], pts[t], k),
    decreases e - s,
{
    let m = farthest_upto(pts, s, e, e);
    lemma_keep_range(pts, k, s, e);
    if s < m < e && beyond(pts[s], pts[e], pts[m], k) {
        let keep = rdp_keep(pts, k, s, e);
        assert(keep == rdp_keep(pts, k, s, m).union(rdp_keep(pts, k, m, e)).insert(m));
        lemma_keep_range(pts, k, s, m);
        lemma_keep_range(pts, k, m, e);
        if t < m {
            let (i, j) = lemma_rdp_tolerance_between(pts, k, s, m, t);
            assert forall|u: int| i < u < j implies !keep.contains(u) by {
                if keep.contains(u) {
                    assert(!rdp_keep(pts, k, m, e).contains(u));
                }
            }
            (i, j)
        } else {
            assert(t != m);
            let (i, j) = lemma_rdp_tolerance_between(pts, k, m, e, t);
            assert forall|u: int| i < u < j implies !keep.contains(u) by {
                if keep.contains(u) {
                    assert(!rdp_keep(pts, k, s, m).contains(u));
                }
            }
            (i, j)
        }
    } else {
        lemma_within_if_farthest_within(pts, k, s, e, t);
        (s, e)
    }
}

/// The tolerance guarantee of the simplification: every point that it
/// drops lies within `eps_halves / 2` of the straight line between the
/// kept points just before and just after it.
pub proof fn lemma_rdp_within_tolerance(pts: Seq<(i32, i32)>, k: int, t: int)
    requires
        pts.len() >= 3,
        0 < t < pts.len() - 1,
        !rdp_kept(pts, k, t),
        0 <= k,
    ensures
        exists|i: int, j: int|
            0 <= i < t < j < pts.len() && rdp_kept(pts, k, i) && rdp_kept(pts, k, j) && (forall|
                u: int,
            | i < u < j ==> !rdp_kept(pts, k, u)) && !beyond(pts[i], pts[j], pts[t], k),
{
    let (i, j) = lemma_rdp_tolerance_between(pts, k, 0, pts.len() - 1, t);
    assert(rdp_kept(pts, k, i) && rdp_kept(pts, k, j));
    assert forall|u: int| i < u < j implies !rdp_kept(pts, k, u) by {}
}

/// The farthest point of `points[start+1..end]` from the chord
/// `points[start]`-`points[end]` and its offset key (see `farthest_upto`).
fn farthest(points: &[(i32, i32)], start: usize, end: usize) -> (res: (usize, u128))
    requires
        start < end < points@.len(),
    ensures
        res.0 == farthest_upto(points@, start as int, end as int, end as int),
        res.1 == if res.0 == start {
            0
        } else {
            offset_key(points@[start as int], points@[end as int], points@[res.0 as int])
        },
        res.1 <= 0x2_0000_0000_0000_0000,
{
    let ps = points[start];
    let pe = points[end];
    let mut d_max: u128 = 0;
    let mut index = start;
    let mut i = start + 1;
    while i < end
        invariant
            start < i <= end < points@.len(),
            ps == points@[start as int],
            pe == points@[end as int],
            index == farthest_upto(points@, start as int, end as int, i as int),
            d_max == if index == start {
                0
            } else {
                offset_key(ps, pe, points@[index as int])
            },
            d_max <= 0x2_0000_0000_0000_0000,
        decreases end - i,
    {
        let p = points[i];
        let k = offset_key_exec(ps, pe, p);
        if k > d_max {
            d_max = k;
            index = i;
        }
        i = i + 1;
    }
    (index, d_max)
}

/// Whether an offset key `d_max` of the chord `s`-`e` puts its point
/// farther than `eps_halves / 2` from the chord.
fn exceeds(s: (i32, i32), e: (i32, i32), d_max: u128, eps_halves: u32) -> (res: bool)
    requires
        d_max <= 0x2_0000_0000_0000_0000,
    ensures
        res == if chord_len_sq(s, e) == 0 {
            4 * d_max > eps_halves * eps_halves
        } else {
            4 * d_max * d_max > eps_halves * eps_halves * chord_len_sq(s, e)
        },
{
    let dx = e.0 as i128 - s.0 as i128;
    let dy = e.1 as i128 - s.1 as i128;
    assert(0 <= dx * dx <= 0x1_0000_0000 * 0x1_0000_0000 && 0 <= dy * dy <= 0x1_0000_0000
        * 0x1_0000_0000) by (nonlinear_arith)
        requires
            -0x1_0000_0000 <= dx <= 0x1_0000_0000,
            -0x1_0000_0000 <= dy <= 0x1_0000_0000,
    ;
    let len_sq = (dx * dx + dy * dy) as u128;
    assert(len_sq == chord_len_sq(s, e));
    assert(eps_halves * eps_halves <= 0xffff_ffff * 0xffff_ffff) by (nonlinear_arith)
        requires
            eps_halves <= 0xffff_ffff,
    ;
    let kk = (eps_halves as u128) * (eps_halves as u128);
    if len_sq == 0 {
        4 * d_max > kk
    } else {
        let q = 2 * d_max;
        let (xh, xl) = wide_mul(q, q);
        let (yh, yl) = wide_mul(kk, len_sq);
        assert(4 * d_max * d_max == q * q) by (nonlinear_arith)
            requires
                q == 2 * d_max,
        ;
        assert(eps_halves * eps_halves * len_sq == kk * len_sq) by (nonlinear_arith)
            requires
                kk == eps_halves * eps_halves,
        ;
        xh > yh || (xh == yh && xl > yl)
    }
}

/// Marks in `keep` the indices that the simplification keeps strictly
/// between `start` and `end`.
fn rdp_recursive(
    points: &[(i32, i32)],
    eps_halves: u32,
    start: usize,
    end: usize,
    keep: &mut Vec<bool>,
)
    requires
        start <= end < points@.len(),
        old(keep)@.len() == points@.len(),
    ensures
        final(keep)@.len() == old(keep)@.len(),
        forall|i: int|
            0 <= i < final(keep)@.len() ==> final(keep)@[i] == (old(keep)@[i] || rdp_keep(
                points@,
                eps_halves as int,
                start as int,
                end as int,
            ).contains(i)),
    decreases end - start,
{
    let ghost pts = points@;
    let ghost k = eps_halves as int;
    if end - start <= 1 {
        assert(rdp_keep(pts, k, start as int, end as int) == Set::<int>::empty());
        return;
    }
    let (index, d_max) = farthest(points, start, end);
    proof {
        lemma_farthest_range(pts, start as int, end as int, end as int);
        lemma_chord_nonneg(pts[start as int], pts[end as int]);
    }
    if exceeds(points[start], points[end], d_max, eps_halves) {
        proof {
            if index == start {
                assert(false) by (nonlinear_arith)
                    requires
                        d_max == 0,
                        chord_len_sq(pts[start as int], pts[end as int]) == 0 ==> 4 * d_max > k * k,
                        chord_len_sq(pts[start as int], pts[end as int]) != 0 ==> 4 * d_max * d_max
                            > k * k * chord_len_sq(pts[start as int], pts[end as int]),
                        0 <= chord_len_sq(pts[start as int], pts[end as int]),
                ;
            }
            assert(rdp_keep(pts, k, start as int, end as int) == rdp_keep(
                pts,
                k,
                start as int,
                index as int,
            ).union(rdp_keep(pts, k, index as int, end as int)).insert(index as int));
        }
        keep.set(index, true);
        rdp_recursive(points, eps_halves, start, index, keep);
        rdp_recursive(points, eps_halves, index, end, keep);
    } else {
        assert(rdp_keep(pts, k, start as int, end as int) == Set::<int>::empty());
    }
}

/// The Ramer-Douglas-Peucker simplification of the polyline `points` with
/// tolerance `eps_halves / 2`: the first and last points, and recursively
/// the farthest point from the chord of each part where it lies farther
/// than the tolerance.
pub fn simplify_rdp(points: &[(i32, i32)], eps_halves: u32) -> (res: Vec<(i32, i32)>)
    ensures
        res@ == rdp_simplified(points@, eps_halves as int),
{
    let n = points.len();
    if n <= 2 {
        let mut out: Vec<(i32, i32)> = Vec::new();
        let mut i: usize = 0;
        while i < n
            invariant
                i <= n == points@.len(),
                out@ == points@.take(i as int),
            decreases n - i,
        {
            out.push(points[i]);
            i = i + 1;
            assert(out@ =~= points@.take(i as int));
        }
        assert(points@.take(n as int) =~= points@);
        return out;
    }
    let mut keep: Vec<bool> = Vec::new();
    while keep.len() < n
        invariant
            keep.len() <= n,
            forall|i: int| 0 <= i < keep.len() ==> !keep@[i],
        decreases n - keep.len(),
    {
        keep.push(false);
    }
    keep.set(0, true);
    keep.set(n - 1, true);
    rdp_recursive(points, eps_halves, 0, n - 1, &mut keep);
    let ghost pts = points@;
    let ghost k = eps_halves as int;
    assert forall|i: int| 0 <= i < n implies keep@[i] == rdp_kept(pts, k, i) by {}
    let mut out: Vec<(i32, i32)> = Vec::new();
    let mut i: usize = 0;
    while i < n
        invariant
            i <= n == pts.len(),
            keep@.len() == n,
            pts == points@,
            forall|j: int| 0 <= j < n ==> keep@[j] == rdp_kept(pts, k, j),
            out@ == kept_prefix(pts, k, i as int),
        decreases n - i,
    {
        if keep[i] {
            out.push(points[i]);
        }
        i = i + 1;
    }
    out
}

// ---- Simplifying twice ----

/// The number of points of `pts[..m]` that survive.
spec fn kept_count(pts: Seq<(i32, i32)>, k: int, m: int) -> int {
    kept_prefix(pts, k, m).len() as int
}

proof fn lemma_kept_count_step(pts: Seq<(i32, i32)>, k: int, m: int)
    requires
        0 <= m,
    ensures
        kept_count(pts, k, m + 1) == kept_count(pts, k, m) + if rdp_kept(pts, k, m) {
            1int
        } else {
            0int
        },
{
}

proof fn lemma_kept_count_mono(pts: Seq<(i32, i32)>, k: int, m1: int, m2: int)
    requires
        0 <= m1 <= m2,
    ensures
        kept_count(pts, k, m1) <= kept_count(pts, k, m2),
        m1 < m2 && rdp_kept(pts, k, m1) ==> kept_count(pts, k, m1) < kept_count(pts, k, m2),
    decreases m2 - m1,
{
    if m1 < m2 {
        lemma_kept_count_mono(pts, k, m1, m2 - 1);
        lemma_kept_count_step(pts, k, m2 - 1);
        lemma_kept_count_step(pts, k, m1);
        if m1 + 1 <= m2 - 1 {
            lemma_kept_count_mono(pts, k, m1 + 1, m2 - 1);
        }
    }
}

/// The surviving points of a prefix stay where they are in a longer one.
proof fn lemma_kept_prefix_stable(pts: Seq<(i32, i32)>, k: int, m1: int, m2: int, x: int)
    requires
        0 <= m1 <= m2,
        0 <= x < kept_count(pts, k, m1),
    ensures
        kept_prefix(pts, k, m2)[x] == kept_prefix(pts, k, m1)[x],
    decreases m2 - m1,
{
    if m1 < m2 {
        lemma_kept_count_mono(pts, k, m1, m2 - 1);
        lemma_kept_prefix_stable(pts, k, m1, m2 - 1, x);
    }
}

/// A surviving point `p` is point number `kept_count(p)` of the result.
proof fn lemma_kept_position(pts: Seq<(i32, i32)>, k: int, p: int)
    requires
        0 <= p < pts.len(),
        rdp_kept(pts, k, p),
    ensures
        kept_prefix(pts, k, pts.len() as int)[kept_count(pts, k, p)] == pts[p],
        kept_count(pts, k, p) < kept_count(pts, k, pts.len() as int),
{
    lemma_kept_count_step(pts, k, p);
    lemma_kept_count_mono(pts, k, p + 1, pts.len() as int);
    lemma_kept_prefix_stable(pts, k, p + 1, pts.len() as int, kept_count(pts, k, p));
}

/// Every point of the result strictly between those of surviving points
/// `a` and `b` is that of a surviving point between them.
proof fn lemma_kept_preimage(pts: Seq<(i32, i32)>, k: int, a: int, b: int, x: int) -> (p: int)
    requires
        0 <= a < b <= pts.len(),
        kept_count(pts, k, a) < x < kept_count(pts, k, b),
    ensures
        a < p < b,
        rdp_kept(pts, k, p),
        kept_count(pts, k, p) == x,
    decreases b - a,
{
    lemma_kept_count_step(pts, k, b - 1);
    if x < kept_count(pts, k, b - 1) {
        if b - 1 <= a {
            lemma_kept_count_mono(pts, k, b - 1, a);
        }
        lemma_kept_preimage(pts, k, a, b - 1, x)
    } else {
        if b - 1 <= a {
            lemma_kept_count_mono(pts, k, b - 1, a);
        }
        b - 1
    }
}

/// Where no point between surviving `a` and `b` survives, their points are
/// neighbours in the result.
proof fn lemma_kept_none_between(pts: Seq<(i32, i32)>, k: int, a: int, b: int)
    requires
        0 <= a < b <= pts.len(),
        rdp_kept(pts, k, a),
        forall|i: int| a < i < b ==> !rdp_kept(pts, k, i),
    ensures
        kept_count(pts, k, b) == kept_count(pts, k, a) + 1,
    decreases b - a,
{
    lemma_kept_count_step(pts, k, b - 1);
    if b - 1 > a {
        lemma_kept_none_between(pts, k, a, b - 1);
    }
}

/// The farthest point is the first one that far.
proof fn lemma_farthest_first(pts: Seq<(i32, i32)>, s: int, e: int, j: int, u: int)
    requires
        s < u < farthest_upto(pts, s, e, j),
    ensures
        offset_key(pts[s], pts[e], pts[u]) < offset_key(
            pts[s],
            pts[e],
            pts[farthest_upto(pts, s, e, j)],
        ),
    decreases j - s,
{
    lemma_farthest_range(pts, s, e, j);
    if j > s + 1 {
        let b = farthest_upto(pts, s, e, j - 1);
        lemma_farthest_range(pts, s, e, j - 1);
        if farthest_upto(pts, s, e, j) == j - 1 {
            if u < j - 1 {
                lemma_farthest_is_max(pts, s, e, j - 1, u);
            }
        } else {
            lemma_farthest_first(pts, s, e, j - 1, u);
        }
    }
}

/// The first point that lies farthest, and farther than the chord's ends,
/// is the farthest point.
proof fn lemma_farthest_char(q: Seq<(i32, i32)>, a: int, e: int, j: int, r: int)
    requires
        a < r < j,
        offset_key(q[a], q[e], q[r]) > 0,
        forall|u: int| a < u < j ==> offset_key(q[a], q[e], #[trigger] q[u]) <= offset_key(q[a], q[e], q[r]),
        forall|u: int| a < u < r ==> offset_key(q[a], q[e], #[trigger] q[u]) < offset_key(q[a], q[e], q[r]),
    ensures
        farthest_upto(q, a, e, j) == r,
    decreases j - r,
{
    if j > r + 1 {
        lemma_farthest_char(q, a, e, j - 1, r);
    } else {
        lemma_farthest_range(q, a, e, r);
        let b = farthest_upto(q, a, e, r);
        if b != a {
            assert(offset_key(q[a], q[e], q[b]) < offset_key(q[a], q[e], q[r]));
        }
    }
}

/// A point beyond the tolerance lies farther than the chord's ends.
proof fn lemma_beyond_positive(s: (i32, i32), e: (i32, i32), p: (i32, i32), k: int)
    requires
        0 <= k,
        beyond(s, e, p, k),
    ensures
        offset_key(s, e, p) > 0,
{
    lemma_offset_key_nonneg(s, e, p);
    lemma_chord_nonneg(s, e);
    let key = offset_key(s, e, p);
    if chord_len_sq(s, e) != 0 && key == 0 {
        assert(4 * key * key == 0);
        assert(k * k * chord_len_sq(s, e) >= 0) by (nonlinear_arith)
            requires
                chord_len_sq(s, e) >= 0,
        ;
    }
    if chord_len_sq(s, e) == 0 && key == 0 {
        assert(k * k >= 0) by (nonlinear_arith);
    }
}

/// Simplifying the result again, between the points of two surviving
/// points `a` and `b` whose part the first simplification split as it
/// did, keeps every point between them.
proof fn lemma_resimplify_part(pts: Seq<(i32, i32)>, k: int, a: int, b: int)
    requires
        0 <= k,
        pts.len() > 2,
        0 <= a < b < pts.len(),
        rdp_kept(pts, k, a),
        rdp_kept(pts, k, b),
        forall|i: int| a < i < b ==> (rdp_kept(pts, k, i) <==> #[trigger] rdp_keep(pts, k, a, b).contains(i)),
    ensures
        rdp_keep(kept_prefix(pts, k, pts.len() as int), k, kept_count(pts, k, a), kept_count(pts, k, b))
            == Set::new(|x: int| kept_count(pts, k, a) < x < kept_count(pts, k, b)),
    decreases b - a,
{
    let n = pts.len() as int;
    let sr = kept_prefix(pts, k, n);
    let ca = kept_count(pts, k, a);
    let cb = kept_count(pts, k, b);
    lemma_kept_position(pts, k, a);
    lemma_kept_position(pts, k, b);
    lemma_kept_count_mono(pts, k, a, b);
    let m = farthest_upto(pts, a, b, b);
    if b > a + 1 && a < m < b && beyond(pts[a], pts[b], pts[m], k) {
        let k1 = rdp_keep(pts, k, a, m);
        let k2 = rdp_keep(pts, k, m, b);
        assert(rdp_keep(pts, k, a, b) == k1.union(k2).insert(m));
        lemma_keep_range(pts, k, a, m);
        lemma_keep_range(pts, k, m, b);
        assert(rdp_keep(pts, k, a, b).contains(m));
        assert(rdp_kept(pts, k, m));
        let t = kept_count(pts, k, m);
        lemma_kept_position(pts, k, m);
        lemma_kept_count_mono(pts, k, a, m);
        lemma_kept_count_mono(pts, k, m, b);
        lemma_beyond_positive(pts[a], pts[b], pts[m], k);
        assert forall|u: int| ca < u < cb implies offset_key(sr[ca], sr[cb], #[trigger] sr[u])
            <= offset_key(sr[ca], sr[cb], sr[t]) by {
            let p = lemma_kept_preimage(pts, k, a, b, u);
            lemma_kept_position(pts, k, p);
            lemma_farthest_is_max(pts, a, b, b, p);
        }
        assert forall|u: int| ca < u < t implies offset_key(sr[ca], sr[cb], #[trigger] sr[u])
            < offset_key(sr[ca], sr[cb], sr[t]) by {
            let p = lemma_kept_preimage(pts, k, a, b, u);
            lemma_kept_position(pts, k, p);
            if p >= m {
                lemma_kept_count_mono(pts, k, m, p);
            }
            lemma_farthest_first(pts, a, b, b, p);
        }
        lemma_farthest_char(sr, ca, cb, cb, t);
        assert(rdp_keep(sr, k, ca, cb) == rdp_keep(sr, k, ca, t).union(rdp_keep(sr, k, t, cb)).insert(
            t,
        ));
        assert forall|i: int| a < i < m implies (rdp_kept(pts, k, i) <==> #[trigger] rdp_keep(
            pts,
            k,
            a,
            m,
        ).contains(i)) by {
            assert(rdp_keep(pts, k, a, b).contains(i) <==> k1.contains(i));
        }
        assert forall|i: int| m < i < b implies (rdp_kept(pts, k, i) <==> #[trigger] rdp_keep(
            pts,
            k,
            m,
            b,
        ).contains(i)) by {
            assert(rdp_keep(pts, k, a, b).contains(i) <==> k2.contains(i));
        }
        lemma_resimplify_part(pts, k, a, m);
        lemma_resimplify_part(pts, k, m, b);
        assert(rdp_keep(sr, k, ca, cb) =~= Set::new(|x: int| ca < x < cb));
    } else {
        assert(rdp_keep(pts, k, a, b) == Set::<int>::empty());
        assert forall|i: int| a < i < b implies !rdp_kept(pts, k, i) by {
            assert(!rdp_keep(pts, k, a, b).contains(i));
        }
        lemma_kept_none_between(pts, k, a, b);
        assert(rdp_keep(sr, k, ca, cb) == Set::<int>::empty());
        assert(Set::new(|x: int| ca < x < cb) =~= Set::<int>::empty());
    }
}

/// Where every point survives, the surviving points are the points.
proof fn lemma_all_kept(q: Seq<(i32, i32)>, k: int, m: int)
    requires
        0 <= m <= q.len(),
        forall|x: int| 0 <= x < q.len() ==> #[trigger] rdp_kept(q, k, x),
    ensures
        kept_prefix(q, k, m) == q.take(m),
    decreases m,
{
    if m > 0 {
        lemma_all_kept(q, k, m - 1);
        assert(rdp_kept(q, k, m - 1));
        assert(q.take(m) =~= q.take(m - 1).push(q[m - 1]));
    } else {
        assert(q.take(0) =~= Seq::<(i32, i32)>::empty());
    }
}

/// Simplifying a simplified polyline again with the same tolerance leaves
/// it as it is.
pub proof fn lemma_rdp_idempotent(pts: Seq<(i32, i32)>, k: int)
    requires
        0 <= k,
    ensures
        rdp_simplified(rdp_simplified(pts, k), k) == rdp_simplified(pts, k),
{
    let n = pts.len() as int;
    if n > 2 {
        let sr = kept_prefix(pts, k, n);
        assert(rdp_kept(pts, k, 0) && rdp_kept(pts, k, n - 1));
        assert forall|i: int| 0 < i < n - 1 implies (rdp_kept(pts, k, i) <==> #[trigger] rdp_keep(
            pts,
            k,
            0,
            n - 1,
        ).contains(i)) by {}
        lemma_resimplify_part(pts, k, 0, n - 1);
        assert(kept_prefix(pts, k, 0) =~= Seq::<(i32, i32)>::empty());
        lemma_kept_count_step(pts, k, n - 1);
        lemma_kept_count_mono(pts, k, 0, n - 1);
        let len = sr.len() as int;
        assert forall|x: int| 0 <= x < len implies #[trigger] rdp_kept(sr, k, x) by {
            if 0 < x < len - 1 {
                assert(Set::new(|y: int| 0 < y < len - 1).contains(x));
            }
        }
        if len > 2 {
            lemma_all_kept(sr, k, len);
            assert(sr.take(len) =~= sr);
        }
    }
}

} // verus!
