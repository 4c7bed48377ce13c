use vstd::prelude::*;
use crate::contour::{
    covers_boundary, is_boundary_segment, pt, deep, lemma_total_points_prefix, loops_follow_boundary, points_in_lattice,
    segments_distinct, total_points, BasicTracer,
};
use crate::raster::{PixelImage, Raster};
use crate::rdp::{
    is_subsequence, lemma_rdp_keeps_ends, lemma_rdp_tolerance_monotone,
    lemma_rdp_tolerance_subsequence, rdp_simplified, simplify_rdp,
};
use crate::text::{append_decimal, decimal_string};
use crate::trace_order::{closes_once, lemma_trace_unique, starts_first, steps_greedy};
use vstd::string::StringExecFns;

verus! {

/// A point of a traced outline, in the coordinates of the padded image
/// (lattice point (`x`, `y`) is the top-left corner of pixel
/// (`x - 1`, `y - 1`)).
#[derive(Clone, Copy, Debug, PartialEq, Eq)]
pub enum OutlinePoint {
    /// A lattice point, reached by a straight line.
    Corner { x: i32, y: i32 },
    /// The midpoint of `a` and `b`: an end point of a cubic Bézier segment.
    Midpoint { a: (i32, i32), b: (i32, i32) },
    /// `m / 3 + 2 * b / 3`, where `m` is the midpoint of `a` and `b`: a
    /// control point of a cubic Bézier segment.
    Control { a: (i32, i32), b: (i32, i32) },
}

impl OutlinePoint {
    /// Whether the point is a Bézier control point.
    pub open spec fn spec_is_bezier(&self) -> bool {
        *self is Control
    }

    #[verifier::when_used_as_spec(spec_is_bezier)]
    pub fn is_bezier(&self) -> (res: bool)
        ensures
            res == self.spec_is_bezier(),
    {
        match self {
            OutlinePoint::Control { .. } => true,
            _ => false,
        }
    }

    /// Six times the point's coordinates, which are integers.
    pub open spec fn spec_sixths(self) -> (int, int) {
        match self {
            OutlinePoint::Corner { x, y } => (6 * x, 6 * y),
            OutlinePoint::Midpoint { a, b } => (3 * (a.0 + b.0), 3 * (a.1 + b.1)),
            OutlinePoint::Control { a, b } => (a.0 + 5 * b.0, a.1 + 5 * b.1),
        }
    }

    /// Six times the point's coordinates, exactly.
    pub fn sixths(&self) -> (res: (i64, i64))
        ensures
            (res.0 as int, res.1 as int) == self.spec_sixths(),
    {
        match self {
            OutlinePoint::Corner { x, y } => (6 * (*x as i64), 6 * (*y as i64)),
            OutlinePoint::Midpoint { a, b } => (
                3 * (a.0 as i64 + b.0 as i64),
                3 * (a.1 as i64 + b.1 as i64),
            ),
            OutlinePoint::Control { a, b } => (
                a.0 as i64 + 5 * (b.0 as i64),
                a.1 as i64 + 5 * (b.1 as i64),
            ),
        }
    }
}

/// An outline with more vertices or loops than a tracer accepts.
#[derive(Clone, Copy, Debug, PartialEq, Eq, Structural)]
pub struct ComplexityError {
    pub vertices: usize,
    pub loops: usize,
    pub max_vertices: usize,
    pub max_loops: usize,
}

impl ComplexityError {
    /// The text that reports the error.
    pub fn message(&self) -> (res: String)
        ensures
            res@ == "Image is too complex: outline contains "@ + decimal_string(
                self.vertices as nat,
            ) + " vertices and "@ + decimal_string(self.loops as nat)
                + " loops. The maximum supported limits are "@ + decimal_string(
                self.max_vertices as nat,
            ) + " vertices and "@ + decimal_string(self.max_loops as nat) + " loops."@,
    {
        let mut s = String::from_str("Image is too complex: outline contains ");
        append_decimal(&mut s, self.vertices);
        s.append(" vertices and ");
        append_decimal(&mut s, self.loops);
        s.append(" loops. The maximum supported limits are ");
        append_decimal(&mut s, self.max_vertices);
        s.append(" vertices and ");
        append_decimal(&mut s, self.max_loops);
        s.append(" loops.");
        s
    }
}

/// The tracing limits: (vertices, loops).
pub open spec fn basic_limits() -> (usize, usize) {
    (1000000, 500)
}

/// The advanced tracer refuses an outline of 70 loops, so its loop limit
/// stays below the 1,500 that the command's documentation gives; its
/// limits are taken together, as 100,000 vertices and 60 loops.
pub open spec fn advanced_limits() -> (usize, usize) {
    (100000, 60)
}

pub open spec fn curves_limits() -> (usize, usize) {
    (4000000, 3000)
}

/// The tolerance of the simplification, in half pixels, for an
/// optimisation level: 1 to 5 give 0.5, 1, 1.5, 2 and 3 pixels, any other
/// level 1.5.
pub open spec fn spec_rdp_epsilon_halves(level: u8) -> u32 {
    if level == 1 {
        1
    } else if level == 2 {
        2
    } else if level == 3 {
        3
    } else if level == 4 {
        4
    } else if level == 5 {
        6
    } else {
        3
    }
}

#[verifier::when_used_as_spec(spec_rdp_epsilon_halves)]
pub fn rdp_epsilon_halves(level: u8) -> (res: u32)
    ensures
        res == spec_rdp_epsilon_halves(level),
{
    match level {
        1 => 1,
        2 => 2,
        3 => 3,
        4 => 4,
        5 => 6,
        _ => 3,
    }
}

/// `raw` is refused where the limits are not lifted and it has more
/// vertices or loops than they allow.
pub open spec fn complexity_check(
    raw: Seq<Seq<(i32, i32)>>,
    limits: (usize, usize),
    is_unsafe: bool,
) -> Option<ComplexityError> {
    if !is_unsafe && (total_points(raw) > limits.0 || raw.len() > limits.1) {
        Some(
            ComplexityError {
                vertices: total_points(raw) as usize,
                loops: raw.len() as usize,
                max_vertices: limits.0,
                max_loops: limits.1,
            },
        )
    } else {
        None
    }
}

/// The points of a loop, reached by straight lines.
pub open spec fn corners(l: Seq<(i32, i32)>) -> Seq<OutlinePoint> {
    l.map_values(|p: (i32, i32)| OutlinePoint::Corner { x: p.0, y: p.1 })
}

/// The outline of the basic tracer: the raw loops as they are.
pub open spec fn basic_loops(raw: Seq<Seq<(i32, i32)>>) -> Seq<Seq<OutlinePoint>>
    decreases raw.len(),
{
    if raw.len() == 0 {
        Seq::empty()
    } else {
        basic_loops(raw.drop_last()).push(corners(raw.last()))
    }
}

/// The outline of the advanced tracer: each raw loop simplified, where
/// the simplification keeps at least four points.
pub open spec fn advanced_loops(raw: Seq<Seq<(i32, i32)>>, eps_halves: int) -> Seq<
    Seq<OutlinePoint>,
>
    decreases raw.len(),
{
    if raw.len() == 0 {
        Seq::empty()
    } else {
        let prev = advanced_loops(raw.drop_last(), eps_halves);
        let s = rdp_simplified(raw.last(), eps_halves);
        if s.len() >= 4 {
            prev.push(corners(s))
        } else {
            prev
        }
    }
}

/// The corners of a closed simplified loop without its repeated start.
pub open spec fn curve_polygon(s: Seq<(i32, i32)>) -> Seq<(i32, i32)> {
    if s.len() > 0 && s[0] == s.last() {
        s.drop_last()
    } else {
        s
    }
}

pub open spec fn prev_corner(poly: Seq<(i32, i32)>, i: int) -> (i32, i32) {
    if i == 0 {
        poly.last()
    } else {
        poly[i - 1]
    }
}

pub open spec fn next_corner(poly: Seq<(i32, i32)>, i: int) -> (i32, i32) {
    if i == poly.len() - 1 {
        poly[0]
    } else {
        poly[i + 1]
    }
}

/// The smoothed outline of the first `i` corners of `poly`: the midpoint
/// of the edge into corner 0, then for each corner its two control points
/// and the midpoint of the edge out of it (a quadratic B-spline written as
/// cubic Bézier segments).
pub open spec fn spline_prefix(poly: Seq<(i32, i32)>, i: int) -> Seq<OutlinePoint>
    decreases i,
{
    if i <= 0 {
        seq![OutlinePoint::Midpoint { a: poly.last(), b: poly[0] }]
    } else {
        let j = i - 1;
        spline_prefix(poly, j) + seq![
            OutlinePoint::Control { a: prev_corner(poly, j), b: poly[j] },
            OutlinePoint::Control { a: next_corner(poly, j), b: poly[j] },
            OutlinePoint::Midpoint { a: poly[j], b: next_corner(poly, j) },
        ]
    }
}

pub open spec fn spline_points(poly: Seq<(i32, i32)>) -> Seq<OutlinePoint> {
    spline_prefix(poly, poly.len() as int)
}

/// The outline of the curves tracer: each raw loop simplified where that
/// keeps at least four points, without its repeated start, and smoothed
/// where at least three corners remain.
pub open spec fn curve_loops(raw: Seq<Seq<(i32, i32)>>, eps_halves: int) -> Seq<Seq<OutlinePoint>>
    decreases raw.len(),
{
    if raw.len() == 0 {
        Seq::empty()
    } else {
        let prev = curve_loops(raw.drop_last(), eps_halves);
        let s = rdp_simplified(raw.last(), eps_halves);
        let poly = curve_polygon(s);
        if s.len() >= 4 && poly.len() >= 3 {
            prev.push(spline_points(poly))
        } else {
            prev
        }
    }
}

/// What a tracer gives for the raw loops `raw`.
pub open spec fn outline_result(
    raw: Seq<Seq<(i32, i32)>>,
    limits: (usize, usize),
    is_unsafe: bool,
    loops: Seq<Seq<OutlinePoint>>,
) -> Result<Seq<Seq<OutlinePoint>>, ComplexityError> {
    match complexity_check(raw, limits, is_unsafe) {
        Some(e) => Err(e),
        None => Ok(loops),
    }
}

pub open spec fn deep_outline(ls: Seq<Vec<OutlinePoint>>) -> Seq<Seq<OutlinePoint>> {
    ls.map_values(|l: Vec<OutlinePoint>| l@)
}

pub open spec fn result_view(res: Result<Vec<Vec<OutlinePoint>>, ComplexityError>) -> Result<
    Seq<Seq<OutlinePoint>>,
    ComplexityError,
> {
    match res {
        Ok(v) => Ok(deep_outline(v@)),
        Err(e) => Err(e),
    }
}

/// `raw` is what the raw tracing of `r` gives: closed loops that take every
/// boundary segment of the padded image once, in the tracer's order.
pub open spec fn raw_trace_of(r: Raster, raw: Seq<Seq<(i32, i32)>>) -> bool {
    &&& (r.width == 0 || r.height == 0 ==> raw.len() == 0)
    &&& loops_follow_boundary(r, raw)
    &&& segments_distinct(raw)
    &&& points_in_lattice(r, raw)
    &&& covers_boundary(r, raw)
    &&& starts_first(r, raw)
    &&& steps_greedy(r, raw)
    &&& closes_once(raw)
    &&& total_points(raw) <= usize::MAX
}

// ---- Laws of the tracers ----

/// The raw tracing of an image is determined by it: two sequences of loops
/// that both take every boundary segment once in the tracer's order are
/// the same.
pub proof fn lemma_raw_trace_determined(r: Raster, raw1: Seq<Seq<(i32, i32)>>, raw2: Seq<Seq<(i32, i32)>>)
    requires
        raw_trace_of(r, raw1),
        raw_trace_of(r, raw2),
    ensures
        raw1 == raw2,
{
    lemma_trace_unique(r, raw1, raw2);
}

/// With the limits lifted, no outline is refused.
pub proof fn lemma_unsafe_never_refused(
    raw: Seq<Seq<(i32, i32)>>,
    limits: (usize, usize),
    loops: Seq<Seq<OutlinePoint>>,
)
    ensures
        outline_result(raw, limits, true, loops) == Ok::<Seq<Seq<OutlinePoint>>, ComplexityError>(
            loops,
        ),
{
}

/// Within the limits, no outline is refused; beyond them (and not lifted),
/// every outline is.
pub proof fn lemma_refused_iff_over_limits(
    raw: Seq<Seq<(i32, i32)>>,
    limits: (usize, usize),
    is_unsafe: bool,
    loops: Seq<Seq<OutlinePoint>>,
)
    ensures
        outline_result(raw, limits, is_unsafe, loops) is Err <==> (!is_unsafe && (total_points(raw)
            > limits.0 || raw.len() > limits.1)),
{
}

/// A smoothed outline has three points per corner and one more: it starts
/// and ends at the same midpoint, and every third point is an end point
/// of a Bézier segment while the two between are control points.
pub proof fn lemma_spline_shape(poly: Seq<(i32, i32)>)
    requires
        poly.len() >= 1,
    ensures
        spline_points(poly).len() == 3 * poly.len() + 1,
        spline_points(poly)[0] == spline_points(poly).last(),
        forall|j: int|
            0 <= j < spline_points(poly).len() ==> (#[trigger] spline_points(poly)[j].spec_is_bezier()
                <==> j % 3 != 0),
{
    lemma_spline_prefix_shape(poly, poly.len() as int);
}

proof fn lemma_spline_prefix_shape(poly: Seq<(i32, i32)>, i: int)
    requires
        poly.len() >= 1,
        0 <= i <= poly.len(),
    ensures
        spline_prefix(poly, i).len() == 3 * i + 1,
        spline_prefix(poly, i)[0] == (OutlinePoint::Midpoint { a: poly.last(), b: poly[0] }),
        i >= 1 ==> spline_prefix(poly, i).last() == (OutlinePoint::Midpoint {
            a: poly[i - 1],
            b: next_corner(poly, i - 1),
        }),
        forall|j: int|
            0 <= j < spline_prefix(poly, i).len() ==> (#[trigger] spline_prefix(
                poly,
                i,
            )[j].spec_is_bezier() <==> j % 3 != 0),
    decreases i,
{
    if i > 0 {
        lemma_spline_prefix_shape(poly, i - 1);
        let prev = spline_prefix(poly, i - 1);
        let cur = spline_prefix(poly, i);
        assert forall|j: int| 0 <= j < cur.len() implies (#[trigger] cur[j].spec_is_bezier() <==> j
            % 3 != 0) by {
            if j < prev.len() {
                assert(cur[j] == prev[j]);
            }
        }
    }
}

/// Every loop of a curves outline is a smoothed polygon of at least three
/// corners.
pub proof fn lemma_curve_loops_shape(raw: Seq<Seq<(i32, i32)>>, k: int)
    ensures
        forall|a: int|
            0 <= a < curve_loops(raw, k).len() ==> {
                let l = #[trigger] curve_loops(raw, k)[a];
                &&& l.len() >= 10
                &&& l.len() % 3 == 1
                &&& l[0] == l.last()
                &&& forall|j: int| 0 <= j < l.len() ==> (#[trigger] l[j].spec_is_bezier() <==> j % 3 != 0)
            },
    decreases raw.len(),
{
    if raw.len() > 0 {
        lemma_curve_loops_shape(raw.drop_last(), k);
        let prev = curve_loops(raw.drop_last(), k);
        let sm = rdp_simplified(raw.last(), k);
        let poly = curve_polygon(sm);
        if sm.len() >= 4 && poly.len() >= 3 {
            lemma_spline_shape(poly);
            let cur = curve_loops(raw, k);
            assert forall|a: int| 0 <= a < cur.len() implies {
                let l = #[trigger] cur[a];
                &&& l.len() >= 10
                &&& l.len() % 3 == 1
                &&& l[0] == l.last()
                &&& forall|j: int| 0 <= j < l.len() ==> (#[trigger] l[j].spec_is_bezier() <==> j % 3 != 0)
            } by {
                if a < prev.len() {
                    assert(cur[a] == prev[a]);
                } else {
                    assert(cur[a] == spline_points(poly));
                }
            }
        }
    }
}

/// The advanced tracer never has more points than the raw outline.
pub proof fn lemma_advanced_no_more_points(raw: Seq<Seq<(i32, i32)>>, k: int)
    ensures
        total_outline_points(advanced_loops(raw, k)) <= total_points(raw),
    decreases raw.len(),
{
    if raw.len() > 0 {
        lemma_advanced_no_more_points(raw.drop_last(), k);
        let sm = rdp_simplified(raw.last(), k);
        lemma_rdp_keeps_ends(raw.last(), k);
        if sm.len() >= 4 {
            let cur = advanced_loops(raw, k);
            assert(cur.drop_last() =~= advanced_loops(raw.drop_last(), k));
            assert(corners(sm).len() == sm.len());
        }
    }
}

/// A larger tolerance gives an advanced outline with no more points.
pub proof fn lemma_advanced_tolerance_monotone(raw: Seq<Seq<(i32, i32)>>, k1: int, k2: int)
    requires
        0 <= k1 <= k2,
    ensures
        total_outline_points(advanced_loops(raw, k2)) <= total_outline_points(
            advanced_loops(raw, k1),
        ),
    decreases raw.len(),
{
    if raw.len() > 0 {
        lemma_advanced_tolerance_monotone(raw.drop_last(), k1, k2);
        lemma_rdp_tolerance_monotone(raw.last(), k1, k2);
        let s1 = rdp_simplified(raw.last(), k1);
        let s2 = rdp_simplified(raw.last(), k2);
        assert(corners(s1).len() == s1.len());
        assert(corners(s2).len() == s2.len());
        let a1 = advanced_loops(raw, k1);
        let a2 = advanced_loops(raw, k2);
        if s1.len() >= 4 {
            assert(a1.drop_last() =~= advanced_loops(raw.drop_last(), k1));
        }
        if s2.len() >= 4 {
            assert(a2.drop_last() =~= advanced_loops(raw.drop_last(), k2));
        }
    }
}

/// A higher optimisation level (1 to 5) gives an advanced outline with no
/// more points.
pub proof fn lemma_advanced_level_monotone(raw: Seq<Seq<(i32, i32)>>, level1: u8, level2: u8)
    requires
        1 <= level1 <= level2 <= 5,
    ensures
        total_outline_points(advanced_loops(raw, spec_rdp_epsilon_halves(level2) as int))
            <= total_outline_points(advanced_loops(raw, spec_rdp_epsilon_halves(level1) as int)),
{
    lemma_advanced_tolerance_monotone(
        raw,
        spec_rdp_epsilon_halves(level1) as int,
        spec_rdp_epsilon_halves(level2) as int,
    );
}

/// A larger tolerance gives a curves outline with no more points.
pub proof fn lemma_curves_tolerance_monotone(raw: Seq<Seq<(i32, i32)>>, k1: int, k2: int)
    requires
        0 <= k1 <= k2,
    ensures
        total_outline_points(curve_loops(raw, k2)) <= total_outline_points(curve_loops(raw, k1)),
    decreases raw.len(),
{
    if raw.len() > 0 {
        lemma_curves_tolerance_monotone(raw.drop_last(), k1, k2);
        let pts = raw.last();
        lemma_rdp_tolerance_monotone(pts, k1, k2);
        lemma_rdp_keeps_ends(pts, k1);
        lemma_rdp_keeps_ends(pts, k2);
        let s1 = rdp_simplified(pts, k1);
        let s2 = rdp_simplified(pts, k2);
        let p1 = curve_polygon(s1);
        let p2 = curve_polygon(s2);
        let c1 = curve_loops(raw, k1);
        let c2 = curve_loops(raw, k2);
        if s1.len() >= 4 && p1.len() >= 3 {
            lemma_spline_shape(p1);
            assert(c1.drop_last() =~= curve_loops(raw.drop_last(), k1));
        }
        if s2.len() >= 4 && p2.len() >= 3 {
            lemma_spline_shape(p2);
            assert(c2.drop_last() =~= curve_loops(raw.drop_last(), k2));
            assert(p2.len() <= p1.len());
        }
    }
}

/// A higher optimisation level (1 to 5) gives a curves outline with no
/// more points.
pub proof fn lemma_curves_level_monotone(raw: Seq<Seq<(i32, i32)>>, level1: u8, level2: u8)
    requires
        1 <= level1 <= level2 <= 5,
    ensures
        total_outline_points(curve_loops(raw, spec_rdp_epsilon_halves(level2) as int))
            <= total_outline_points(curve_loops(raw, spec_rdp_epsilon_halves(level1) as int)),
{
    lemma_curves_tolerance_monotone(
        raw,
        spec_rdp_epsilon_halves(level1) as int,
        spec_rdp_epsilon_halves(level2) as int,
    );
}

/// Of each raw loop, a higher optimisation level (1 to 5) keeps a
/// subsequence of the corners that a lower level keeps.
pub proof fn lemma_level_keeps_subsequence(pts: Seq<(i32, i32)>, level1: u8, level2: u8)
    requires
        1 <= level1 <= level2 <= 5,
    ensures
        is_subsequence(
            rdp_simplified(pts, spec_rdp_epsilon_halves(level2) as int),
            rdp_simplified(pts, spec_rdp_epsilon_halves(level1) as int),
        ),
{
    lemma_rdp_tolerance_subsequence(
        pts,
        spec_rdp_epsilon_halves(level1) as int,
        spec_rdp_epsilon_halves(level2) as int,
    );
}

/// The number of points of all loops of an outline.
pub open spec fn total_outline_points(ls: Seq<Seq<OutlinePoint>>) -> nat
    decreases ls.len(),
{
    if ls.len() == 0 {
        0
    } else {
        total_outline_points(ls.drop_last()) + ls.last().len()
    }
}

/// The number of points of all loops of `raw`.
fn count_points(raw: &Vec<Vec<(i32, i32)>>) -> (res: usize)
    requires
        total_points(deep(raw@)) <= usize::MAX,
    ensures
        res == total_points(deep(raw@)),
{
    let ghost ls = deep(raw@);
    let mut total: usize = 0;
    let mut a: usize = 0;
    while a < raw.len()
        invariant
            a <= raw@.len(),
            ls == deep(raw@),
            total_points(ls) <= usize::MAX,
            total == total_points(ls.take(a as int)),
        decreases raw@.len() - a,
    {
        proof {
            lemma_total_points_prefix(ls, a as int);
            lemma_total_points_prefix(ls, a + 1);
        }
        total = total + raw[a].len();
        a = a + 1;
    }
    assert(ls.take(a as int) =~= ls);
    total
}

/// The limit check of a tracer.
fn check_complexity(raw: &Vec<Vec<(i32, i32)>>, max_vertices: usize, max_loops: usize, is_unsafe: bool) -> (res: Option<ComplexityError>)
    requires
        total_points(deep(raw@)) <= usize::MAX,
    ensures
        res == complexity_check(deep(raw@), (max_vertices, max_loops), is_unsafe),
{
    let total = count_points(raw);
    let count = raw.len();
    if !is_unsafe && (total > max_vertices || count > max_loops) {
        Some(
            ComplexityError {
                vertices: total,
                loops: count,
                max_vertices,
                max_loops,
            },
        )
    } else {
        None
    }
}

/// The loop `l` as corner points.
fn corners_of(l: &Vec<(i32, i32)>) -> (res: Vec<OutlinePoint>)
    ensures
        res@ == corners(l@),
{
    let mut out: Vec<OutlinePoint> = Vec::new();
    let mut i: usize = 0;
    while i < l.len()
        invariant
            i <= l@.len(),
            out@ == corners(l@.take(i as int)),
        decreases l@.len() - i,
    {
        let p = l[i];
        out.push(OutlinePoint::Corner { x: p.0, y: p.1 });
        i = i + 1;
        assert(corners(l@.take(i as int)) =~= corners(l@.take(i - 1)).push(
            OutlinePoint::Corner { x: p.0, y: p.1 },
        ));
    }
    assert(l@.take(i as int) =~= l@);
    out
}

/// The smoothed outline of the polygon `poly` (see `spline_prefix`).
fn spline_of(poly: &Vec<(i32, i32)>) -> (res: Vec<OutlinePoint>)
    requires
        poly@.len() >= 1,
    ensures
        res@ == spline_points(poly@),
{
    let m = poly.len();
    let mut out: Vec<OutlinePoint> = Vec::new();
    out.push(OutlinePoint::Midpoint { a: poly[m - 1], b: poly[0] });
    let mut i: usize = 0;
    assert(out@ =~= spline_prefix(poly@, 0));
    while i < m
        invariant
            i <= m == poly@.len(),
            m >= 1,
            out@ == spline_prefix(poly@, i as int),
        decreases m - i,
    {
        let curr = poly[i];
        let prev = if i == 0 {
            poly[m - 1]
        } else {
            poly[i - 1]
        };
        let next = if i == m - 1 {
            poly[0]
        } else {
            poly[i + 1]
        };
        let ghost before = out@;
        out.push(OutlinePoint::Control { a: prev, b: curr });
        out.push(OutlinePoint::Control { a: next, b: curr });
        out.push(OutlinePoint::Midpoint { a: curr, b: next });
        i = i + 1;
        assert(out@ =~= spline_prefix(poly@, i as int));
    }
    out
}

impl BasicTracer {
    /// The basic tracer's outline for the raw loops `raw`: the loops as
    /// they are, unless they exceed 1000000 vertices or 500 loops and
    /// `is_unsafe` does not lift that limit.
    pub fn outline_from_raw(&self, raw: &Vec<Vec<(i32, i32)>>, is_unsafe: bool) -> (res: Result<
        Vec<Vec<OutlinePoint>>,
        ComplexityError,
    >)
        requires
            total_points(deep(raw@)) <= usize::MAX,
        ensures
            result_view(res) == outline_result(
                deep(raw@),
                basic_limits(),
                is_unsafe,
                basic_loops(deep(raw@)),
            ),
    {
        if let Some(e) = check_complexity(raw, 1000000, 500, is_unsafe) {
            return Err(e);
        }
        let ghost ls = deep(raw@);
        let mut out: Vec<Vec<OutlinePoint>> = Vec::new();
        let mut a: usize = 0;
        while a < raw.len()
            invariant
                a <= raw@.len(),
                ls == deep(raw@),
                deep_outline(out@) == basic_loops(ls.take(a as int)),
            decreases raw@.len() - a,
        {
            assert(ls[a as int] == raw@[a as int]@);
            let c = corners_of(&raw[a]);
            out.push(c);
            a = a + 1;
            assert(ls.take(a as int).drop_last() =~= ls.take(a - 1));
            assert(deep_outline(out@) =~= basic_loops(ls.take(a as int)));
        }
        assert(ls.take(a as int) =~= ls);
        Ok(out)
    }

    /// Traces the outline of `img` and checks it against the basic
    /// tracer's limits.
    pub fn trace_mask(&self, img: &PixelImage, is_unsafe: bool) -> (res: Result<
        Vec<Vec<OutlinePoint>>,
        ComplexityError,
    >)
        ensures
            exists|raw: Seq<Seq<(i32, i32)>>| #[trigger]
                raw_trace_of(img@, raw) && result_view(res) == outline_result(
                    raw,
                    basic_limits(),
                    is_unsafe,
                    basic_loops(raw),
                ),
    {
        let _w = img.width();
        let raw = BasicTracer::trace_raw_mask(img);
        let res = self.outline_from_raw(&raw, is_unsafe);
        assert(raw_trace_of(img@, deep(raw@)));
        res
    }
}

/// Traces the outline of an image's foreground and simplifies it.
#[derive(Clone, Copy, Debug, PartialEq, Eq)]
pub struct AdvancedTracer {
    pub rdp_level: u8,
}

impl AdvancedTracer {
    /// The advanced tracer's outline for the raw loops `raw`: each loop
    /// simplified with the tolerance of `rdp_level`, where that keeps at
    /// least four points, unless the raw loops exceed 100000 vertices or 60
    /// loops and `is_unsafe` does not lift that limit.
    pub fn outline_from_raw(&self, raw: &Vec<Vec<(i32, i32)>>, is_unsafe: bool) -> (res: Result<
        Vec<Vec<OutlinePoint>>,
        ComplexityError,
    >)
        requires
            total_points(deep(raw@)) <= usize::MAX,
        ensures
            result_view(res) == outline_result(
                deep(raw@),
                advanced_limits(),
                is_unsafe,
                advanced_loops(deep(raw@), spec_rdp_epsilon_halves(self.rdp_level) as int),
            ),
    {
        if let Some(e) = check_complexity(raw, 100000, 60, is_unsafe) {
            return Err(e);
        }
        let eps = rdp_epsilon_halves(self.rdp_level);
        let ghost ls = deep(raw@);
        let mut out: Vec<Vec<OutlinePoint>> = Vec::new();
        let mut a: usize = 0;
        while a < raw.len()
            invariant
                a <= raw@.len(),
                ls == deep(raw@),
                deep_outline(out@) == advanced_loops(ls.take(a as int), eps as int),
            decreases raw@.len() - a,
        {
            assert(ls[a as int] == raw@[a as int]@);
            let s = simplify_rdp(raw[a].as_slice(), eps);
            if s.len() >= 4 {
                let c = corners_of(&s);
                out.push(c);
            }
            a = a + 1;
            assert(ls.take(a as int).drop_last() =~= ls.take(a - 1));
            assert(deep_outline(out@) =~= advanced_loops(ls.take(a as int), eps as int));
        }
        assert(ls.take(a as int) =~= ls);
        Ok(out)
    }

    /// Traces the outline of `img`, checks it against the advanced
    /// tracer's limits and simplifies it.
    pub fn trace_mask(&self, img: &PixelImage, is_unsafe: bool) -> (res: Result<
        Vec<Vec<OutlinePoint>>,
        ComplexityError,
    >)
        ensures
            exists|raw: Seq<Seq<(i32, i32)>>| #[trigger]
                raw_trace_of(img@, raw) && result_view(res) == outline_result(
                    raw,
                    advanced_limits(),
                    is_unsafe,
                    advanced_loops(raw, spec_rdp_epsilon_halves(self.rdp_level) as int),
                ),
    {
        let _w = img.width();
        let raw = BasicTracer::trace_raw_mask(img);
        proof {
        }
        let res = self.outline_from_raw(&raw, is_unsafe);
        assert(raw_trace_of(img@, deep(raw@)));
        res
    }
}

/// Traces the outline of an image's foreground, simplifies it and smooths
/// it into Bézier curves.
#[derive(Clone, Copy, Debug, PartialEq, Eq)]
pub struct CurvesTracer {
    pub rdp_level: u8,
}

impl CurvesTracer {
    /// The curves tracer's outline for the raw loops `raw` (see
    /// `curve_loops`), unless the raw loops exceed 4000000 vertices or 3000
    /// loops and `is_unsafe` does not lift that limit.
    pub fn outline_from_raw(&self, raw: &Vec<Vec<(i32, i32)>>, is_unsafe: bool) -> (res: Result<
        Vec<Vec<OutlinePoint>>,
        ComplexityError,
    >)
        requires
            total_points(deep(raw@)) <= usize::MAX,
        ensures
            result_view(res) == outline_result(
                deep(raw@),
                curves_limits(),
                is_unsafe,
                curve_loops(deep(raw@), spec_rdp_epsilon_halves(self.rdp_level) as int),
            ),
    {
        if let Some(e) = check_complexity(raw, 4000000, 3000, is_unsafe) {
            return Err(e);
        }
        let eps = rdp_epsilon_halves(self.rdp_level);
        let ghost ls = deep(raw@);
        let mut out: Vec<Vec<OutlinePoint>> = Vec::new();
        let mut a: usize = 0;
        while a < raw.len()
            invariant
                a <= raw@.len(),
                ls == deep(raw@),
                deep_outline(out@) == curve_loops(ls.take(a as int), eps as int),
            decreases raw@.len() - a,
        {
            assert(ls[a as int] == raw@[a as int]@);
            let mut s = simplify_rdp(raw[a].as_slice(), eps);
            let ghost simplified = s@;
            if s.len() >= 4 {
                let first = s[0];
                let last = s[s.len() - 1];
                if first.0 == last.0 && first.1 == last.1 {
                    s.pop();
                }
                assert(s@ =~= curve_polygon(simplified));
                if s.len() >= 3 {
                    let c = spline_of(&s);
                    out.push(c);
                }
            }
            a = a + 1;
            assert(ls.take(a as int).drop_last() =~= ls.take(a - 1));
            assert(deep_outline(out@) =~= curve_loops(ls.take(a as int), eps as int));
        }
        assert(ls.take(a as int) =~= ls);
        Ok(out)
    }

    /// Traces the outline of `img`, checks it against the curves tracer's
    /// limits, simplifies it and smooths it.
    pub fn trace_mask(&self, img: &PixelImage, is_unsafe: bool) -> (res: Result<
        Vec<Vec<OutlinePoint>>,
        ComplexityError,
    >)
        ensures
            exists|raw: Seq<Seq<(i32, i32)>>| #[trigger]
                raw_trace_of(img@, raw) && result_view(res) == outline_result(
                    raw,
                    curves_limits(),
                    is_unsafe,
                    curve_loops(raw, spec_rdp_epsilon_halves(self.rdp_level) as int),
                ),
    {
        let _w = img.width();
        let raw = BasicTracer::trace_raw_mask(img);
        proof {
        }
        let res = self.outline_from_raw(&raw, is_unsafe);
        assert(raw_trace_of(img@, deep(raw@)));
        res
    }
}

// ---- What the outlines are made of ----

/// `l` is the polyline `s` drawn through its points as straight-line
/// corners, point for point.
pub open spec fn is_corners_of(l: Seq<OutlinePoint>, s: Seq<(i32, i32)>) -> bool {
    &&& l.len() == s.len()
    &&& forall|i: int|
        0 <= i < s.len() ==> #[trigger] l[i] == (OutlinePoint::Corner { x: s[i].0, y: s[i].1 })
}

proof fn lemma_corners_are_corners(s: Seq<(i32, i32)>)
    ensures
        is_corners_of(corners(s), s),
{
}

/// The basic outline is the raw trace itself: one loop per raw loop, each
/// point the corner at the traced lattice point (`x` the column, `y` the
/// row).
pub proof fn lemma_basic_outline_is_trace(raw: Seq<Seq<(i32, i32)>>)
    ensures
        basic_loops(raw).len() == raw.len(),
        forall|a: int| 0 <= a < raw.len() ==> is_corners_of(#[trigger] basic_loops(raw)[a], raw[a]),
    decreases raw.len(),
{
    if raw.len() > 0 {
        lemma_basic_outline_is_trace(raw.drop_last());
        let prev = basic_loops(raw.drop_last());
        let cur = basic_loops(raw);
        lemma_corners_are_corners(raw.last());
        assert forall|a: int| 0 <= a < raw.len() implies is_corners_of(#[trigger] cur[a], raw[a]) by {
            if a < raw.len() - 1 {
                assert(cur[a] == prev[a]);
                assert(raw.drop_last()[a] == raw[a]);
            }
        }
    }
}

/// Every corner of the basic outline of an image but a loop's last (its
/// first again) starts a boundary segment of the image's foreground that
/// ends at the next corner.
pub proof fn lemma_basic_outline_on_boundary(r: Raster, raw: Seq<Seq<(i32, i32)>>)
    requires
        raw_trace_of(r, raw),
    ensures
        forall|a: int, i: int|
            0 <= a < raw.len() && 0 <= i < basic_loops(raw)[a].len() - 1 ==> {
                let p = #[trigger] basic_loops(raw)[a][i];
                let q = basic_loops(raw)[a][i + 1];
                &&& p is Corner
                &&& q is Corner
                &&& is_boundary_segment(r, (p->x as int, p->y as int), (q->x as int, q->y as int))
            },
{
    lemma_basic_outline_is_trace(raw);
    assert forall|a: int, i: int|
        0 <= a < raw.len() && 0 <= i < basic_loops(raw)[a].len() - 1 implies {
            let p = #[trigger] basic_loops(raw)[a][i];
            let q = basic_loops(raw)[a][i + 1];
            &&& p is Corner
            &&& q is Corner
            &&& is_boundary_segment(r, (p->x as int, p->y as int), (q->x as int, q->y as int))
        } by {
        assert(is_corners_of(basic_loops(raw)[a], raw[a]));
        assert(raw[a].len() >= 2);
        assert(is_boundary_segment(r, pt(raw[a][i]), pt(raw[a][i + 1])));
    }
}

/// The number of raw loops whose simplification keeps at least four
/// points: a closed polygon of at least three corners.
pub open spec fn polygon_count(raw: Seq<Seq<(i32, i32)>>, eps_halves: int) -> nat
    decreases raw.len(),
{
    if raw.len() == 0 {
        0
    } else {
        polygon_count(raw.drop_last(), eps_halves) + if rdp_simplified(raw.last(), eps_halves).len()
            >= 4 {
            1nat
        } else {
            0nat
        }
    }
}

/// The advanced outline has a loop for each raw loop whose simplification
/// keeps at least four points, and no other: that loop runs through the
/// simplified points as corners.
pub proof fn lemma_advanced_outline_loops(raw: Seq<Seq<(i32, i32)>>, k: int)
    ensures
        advanced_loops(raw, k).len() == polygon_count(raw, k),
        forall|a: int|
            0 <= a < raw.len() && #[trigger] rdp_simplified(raw[a], k).len() >= 4 ==> exists|b: int|
                0 <= b < advanced_loops(raw, k).len() && is_corners_of(
                    #[trigger] advanced_loops(raw, k)[b],
                    rdp_simplified(raw[a], k),
                ),
        forall|b: int|
            0 <= b < advanced_loops(raw, k).len() ==> exists|a: int|
                0 <= a < raw.len() && rdp_simplified(raw[a], k).len() >= 4 && is_corners_of(
                    #[trigger] advanced_loops(raw, k)[b],
                    #[trigger] rdp_simplified(raw[a], k),
                ),
    decreases raw.len(),
{
    if raw.len() > 0 {
        let pr = raw.drop_last();
        lemma_advanced_outline_loops(pr, k);
        let prev = advanced_loops(pr, k);
        let cur = advanced_loops(raw, k);
        let n = raw.len() - 1;
        let s = rdp_simplified(raw.last(), k);
        lemma_corners_are_corners(s);
        if s.len() >= 4 {
            assert(cur == prev.push(corners(s)));
        } else {
            assert(cur == prev);
        }
        assert forall|a: int|
            0 <= a < raw.len() && #[trigger] rdp_simplified(raw[a], k).len() >= 4 implies exists|b: int|
            0 <= b < cur.len() && is_corners_of(#[trigger] cur[b], rdp_simplified(raw[a], k)) by {
            if a < n {
                assert(pr[a] == raw[a]);
                assert(rdp_simplified(pr[a], k).len() >= 4);
                let b = choose|b: int|
                    0 <= b < prev.len() && is_corners_of(#[trigger] prev[b], rdp_simplified(pr[a], k));
                assert(cur[b] == prev[b]);
            } else {
                assert(cur[prev.len() as int] == corners(s));
            }
        }
        assert forall|b: int| 0 <= b < cur.len() implies exists|a: int|
            0 <= a < raw.len() && rdp_simplified(raw[a], k).len() >= 4 && is_corners_of(
                #[trigger] cur[b],
                #[trigger] rdp_simplified(raw[a], k),
            ) by {
            if b < prev.len() {
                let a = choose|a: int|
                    0 <= a < pr.len() && rdp_simplified(pr[a], k).len() >= 4 && is_corners_of(
                        #[trigger] prev[b],
                        #[trigger] rdp_simplified(pr[a], k),
                    );
                assert(pr[a] == raw[a]);
                assert(cur[b] == prev[b]);
                assert(is_corners_of(cur[b], rdp_simplified(raw[a], k)));
            } else {
                assert(cur[b] == corners(s));
                assert(raw[n] == raw.last());
                assert(is_corners_of(cur[b], rdp_simplified(raw[n], k)));
            }
        }
    }
}

/// Around each corner `j` of a smoothed polygon the spline runs from the
/// midpoint of the edge into the corner, with control points on that edge
/// and on the edge out of it, each a third of the way from the corner to
/// the edge's midpoint, to the midpoint of the edge out of the corner
/// (in sixths of a pixel).
pub open spec fn rounds_corner(l: Seq<OutlinePoint>, poly: Seq<(i32, i32)>, j: int) -> bool {
    let m = poly.len() as int;
    let prev = if j == 0 {
        poly[m - 1]
    } else {
        poly[j - 1]
    };
    let cur = poly[j];
    let next = if j == m - 1 {
        poly[0]
    } else {
        poly[j + 1]
    };
    &&& l[3 * j].spec_sixths() == (3 * (prev.0 + cur.0), 3 * (prev.1 + cur.1))
    &&& l[3 * j + 1].spec_sixths() == (prev.0 + 5 * cur.0, prev.1 + 5 * cur.1)
    &&& l[3 * j + 2].spec_sixths() == (next.0 + 5 * cur.0, next.1 + 5 * cur.1)
    &&& l[3 * j + 3].spec_sixths() == (3 * (cur.0 + next.0), 3 * (cur.1 + next.1))
}

proof fn lemma_spline_prefix_rounds(poly: Seq<(i32, i32)>, i: int)
    requires
        poly.len() >= 1,
        0 <= i <= poly.len(),
    ensures
        forall|j: int| 0 <= j < i ==> #[trigger] rounds_corner(spline_prefix(poly, i), poly, j),
    decreases i,
{
    if i > 0 {
        lemma_spline_prefix_rounds(poly, i - 1);
        lemma_spline_prefix_shape(poly, i - 1);
        let prev = spline_prefix(poly, i - 1);
        let cur = spline_prefix(poly, i);
        assert(cur.len() == prev.len() + 3);
        assert forall|j: int| 0 <= j < i implies #[trigger] rounds_corner(cur, poly, j) by {
            if j < i - 1 {
                assert(rounds_corner(prev, poly, j));
                assert(cur[3 * j] == prev[3 * j]);
                assert(cur[3 * j + 1] == prev[3 * j + 1]);
                assert(cur[3 * j + 2] == prev[3 * j + 2]);
                assert(cur[3 * j + 3] == prev[3 * j + 3]);
            } else {
                assert(cur[3 * j] == prev.last());
            }
        }
    }
}

/// The spline of a polygon rounds every corner, in order.
pub proof fn lemma_spline_rounds_corners(poly: Seq<(i32, i32)>)
    requires
        poly.len() >= 1,
    ensures
        spline_points(poly).len() == 3 * poly.len() + 1,
        forall|j: int| 0 <= j < poly.len() ==> #[trigger] rounds_corner(spline_points(poly), poly, j),
{
    lemma_spline_shape(poly);
    lemma_spline_prefix_rounds(poly, poly.len() as int);
}

/// `l` is a smoothed outline of the polygon `poly`: three points per corner
/// and the closing one, every corner rounded.
pub open spec fn is_rounding_of(l: Seq<OutlinePoint>, poly: Seq<(i32, i32)>) -> bool {
    &&& l.len() == 3 * poly.len() + 1
    &&& forall|j: int| 0 <= j < poly.len() ==> #[trigger] rounds_corner(l, poly, j)
}

/// The curves outline has a loop for each raw loop whose simplification
/// keeps at least four points, and no other: that loop rounds every corner
/// of the simplified polygon (its closing point left out).
pub proof fn lemma_curve_outline_loops(raw: Seq<Seq<(i32, i32)>>, k: int)
    ensures
        curve_loops(raw, k).len() == polygon_count(raw, k),
        forall|a: int|
            0 <= a < raw.len() && #[trigger] rdp_simplified(raw[a], k).len() >= 4 ==> exists|b: int|
                0 <= b < curve_loops(raw, k).len() && is_rounding_of(
                    #[trigger] curve_loops(raw, k)[b],
                    curve_polygon(rdp_simplified(raw[a], k)),
                ),
        forall|b: int|
            0 <= b < curve_loops(raw, k).len() ==> exists|a: int|
                0 <= a < raw.len() && rdp_simplified(raw[a], k).len() >= 4 && is_rounding_of(
                    #[trigger] curve_loops(raw, k)[b],
                    curve_polygon(#[trigger] rdp_simplified(raw[a], k)),
                ),
    decreases raw.len(),
{
    if raw.len() > 0 {
        let pr = raw.drop_last();
        lemma_curve_outline_loops(pr, k);
        let prev = curve_loops(pr, k);
        let cur = curve_loops(raw, k);
        let n = raw.len() - 1;
        let s = rdp_simplified(raw.last(), k);
        let poly = curve_polygon(s);
        if s.len() >= 4 {
            assert(poly.len() >= 3);
            lemma_spline_rounds_corners(poly);
            assert(is_rounding_of(spline_points(poly), poly));
            assert(cur == prev.push(spline_points(poly)));
        } else {
            assert(cur == prev);
        }
        assert forall|a: int|
            0 <= a < raw.len() && #[trigger] rdp_simplified(raw[a], k).len() >= 4 implies exists|b: int|
            0 <= b < cur.len() && is_rounding_of(#[trigger] cur[b], curve_polygon(rdp_simplified(raw[a], k))) by {
            if a < n {
                assert(pr[a] == raw[a]);
                assert(rdp_simplified(pr[a], k).len() >= 4);
                let b = choose|b: int|
                    0 <= b < prev.len() && is_rounding_of(
                        #[trigger] prev[b],
                        curve_polygon(rdp_simplified(pr[a], k)),
                    );
                assert(cur[b] == prev[b]);
            } else {
                assert(cur[prev.len() as int] == spline_points(poly));
            }
        }
        assert forall|b: int| 0 <= b < cur.len() implies exists|a: int|
            0 <= a < raw.len() && rdp_simplified(raw[a], k).len() >= 4 && is_rounding_of(
                #[trigger] cur[b],
                curve_polygon(#[trigger] rdp_simplified(raw[a], k)),
            ) by {
            if b < prev.len() {
                let a = choose|a: int|
                    0 <= a < pr.len() && rdp_simplified(pr[a], k).len() >= 4 && is_rounding_of(
                        #[trigger] prev[b],
                        curve_polygon(#[trigger] rdp_simplified(pr[a], k)),
                    );
                assert(pr[a] == raw[a]);
                assert(cur[b] == prev[b]);
                assert(is_rounding_of(cur[b], curve_polygon(rdp_simplified(raw[a], k))));
            } else {
                assert(cur[b] == spline_points(poly));
                assert(raw[n] == raw.last());
                assert(is_rounding_of(cur[b], curve_polygon(rdp_simplified(raw[n], k))));
            }
        }
    }
}

} // verus!
