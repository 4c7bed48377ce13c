use vstd::prelude::*;
use std::collections::VecDeque;

verus! {

/// The largest width or height of an image that the tracers accept: the
/// lattice of the image padded by one pixel on each side, with the column
/// and row of room past it, has coordinates up to a side plus two, which
/// must be an `i32` (`i32::MAX - 2`).
pub const MAX_SIDE: u32 = 0x7fff_fffd;

/// An image as the tracers read it: `width` x `height` pixels in
/// row-major order, each one an RGBA colour packed into a `u32`.
pub struct PixelImage {
    width: u32,
    height: u32,
    pixels: Vec<u32>,
}

/// What a `PixelImage` holds.
pub ghost struct Raster {
    pub width: nat,
    pub height: nat,
    pub pixels: Seq<u32>,
}

impl Raster {
    pub open spec fn wf(self) -> bool {
        &&& self.pixels.len() == self.width * self.height
        &&& self.width <= MAX_SIDE
        &&& self.height <= MAX_SIDE
        &&& 8 * ((self.width + 3) * (self.height + 3)) <= usize::MAX
    }

    pub open spec fn in_bounds(self, x: int, y: int) -> bool {
        0 <= x < self.width && 0 <= y < self.height
    }

    /// The colour of the pixel in column `x` and row `y`.
    pub open spec fn pixel(self, x: int, y: int) -> u32 {
        self.pixels[y * self.width + x]
    }

    /// The pixel (`x`, `y`) lies in the image and has the colour of the
    /// top-left pixel.
    pub open spec fn bg_colored(self, x: int, y: int) -> bool {
        self.in_bounds(x, y) && self.pixel(x, y) == self.pixel(0, 0)
    }

    /// `path` leads from the top-left pixel through pixels of its colour,
    /// each one next to the one before it (horizontally or vertically).
    pub open spec fn is_bg_path(self, path: Seq<(int, int)>) -> bool {
        &&& path.len() >= 1
        &&& path[0] == (0int, 0int)
        &&& forall|i: int| 0 <= i < path.len() ==> self.bg_colored(#[trigger] path[i].0, path[i].1)
        &&& forall|i: int|
            0 <= i < path.len() - 1 ==> adjacent(#[trigger] path[i], path[i + 1])
    }

    /// The pixel (`x`, `y`) is background: a flood fill from the top-left
    /// pixel over its colour reaches it.
    #[verifier::opaque]
    pub open spec fn is_background(self, x: int, y: int) -> bool {
        exists|path: Seq<(int, int)>| #[trigger]
            self.is_bg_path(path) && path.last() == (x, y)
    }
}

/// `a` and `b` are horizontal or vertical neighbours.
pub open spec fn adjacent(a: (int, int), b: (int, int)) -> bool {
    ||| a.0 == b.0 && (a.1 == b.1 + 1 || b.1 == a.1 + 1)
    ||| a.1 == b.1 && (a.0 == b.0 + 1 || b.0 == a.0 + 1)
}

impl View for PixelImage {
    type V = Raster;

    closed spec fn view(&self) -> Raster {
        Raster { width: self.width as nat, height: self.height as nat, pixels: self.pixels@ }
    }
}

impl PixelImage {
    #[verifier::type_invariant]
    spec fn inv(self) -> bool {
        self@.wf()
    }

    /// The image of the given size with the given pixels, or `None` where
    /// their number is not `width * height` or a side exceeds `MAX_SIDE`.
    pub fn new(width: u32, height: u32, pixels: Vec<u32>) -> (res: Option<PixelImage>)
        ensures
            res is Some <==> (pixels@.len() == width * height && width <= MAX_SIDE && height
                <= MAX_SIDE && 8 * ((width + 3) * (height + 3)) <= usize::MAX),
            res matches Some(img) ==> img@ == (Raster {
                width: width as nat,
                height: height as nat,
                pixels: pixels@,
            }),
    {
        if width > MAX_SIDE || height > MAX_SIDE {
            return None;
        }
        assert((width as u64) * (height as u64) <= 0x7fff_fffd * 0x7fff_fffd) by (nonlinear_arith)
            requires
                width <= 0x7fff_fffd,
                height <= 0x7fff_fffd,
        ;
        if (width as u64) * (height as u64) != pixels.len() as u64 {
            return None;
        }
        assert(8 * ((width as u128 + 3) * (height as u128 + 3)) <= 8 * (0x8000_0000 * 0x8000_0000))
            by (nonlinear_arith)
            requires
                width <= 0x7fff_fffd,
                height <= 0x7fff_fffd,
        ;
        if 8 * ((width as u128 + 3) * (height as u128 + 3)) > usize::MAX as u128 {
            return None;
        }
        Some(PixelImage { width, height, pixels })
    }

    pub fn width(&self) -> (res: u32)
        ensures
            res == self@.width,
            self@.wf(),
    {
        proof {
            use_type_invariant(self);
        }
        self.width
    }

    pub fn height(&self) -> (res: u32)
        ensures
            res == self@.height,
            self@.wf(),
    {
        proof {
            use_type_invariant(self);
        }
        self.height
    }

    /// The number of pixels, `width * height`.
    pub fn pixel_count(&self) -> (res: usize)
        ensures
            res == self@.width * self@.height,
    {
        proof {
            use_type_invariant(self);
        }
        self.pixels.len()
    }

    /// The colour of the pixel in column `x` and row `y`.
    pub fn pixel(&self, x: u32, y: u32) -> (res: u32)
        requires
            self@.in_bounds(x as int, y as int),
        ensures
            res == self@.pixel(x as int, y as int),
    {
        proof {
            use_type_invariant(self);
            lemma_index_in_bounds(self@.width as int, self@.height as int, x as int, y as int);
        }
        let _n = self.pixels.len();
        self.pixels[(y as usize) * (self.width as usize) + (x as usize)]
    }
}

pub proof fn lemma_index_in_bounds(w: int, h: int, x: int, y: int)
    requires
        0 <= x < w,
        0 <= y < h,
    ensures
        0 <= y * w + x < w * h,
        y * w + x <= (h - 1) * w + (w - 1),
{
    assert(y * w <= (h - 1) * w) by (nonlinear_arith)
        requires
            0 <= y <= h - 1,
            0 <= w,
    ;
    assert((h - 1) * w + w == h * w) by (nonlinear_arith);
    assert(0 <= y * w) by (nonlinear_arith)
        requires
            0 <= y,
            0 <= w,
    ;
}

/// The number of `true` entries of `s`.
pub open spec fn count_true(s: Seq<bool>) -> nat
    decreases s.len(),
{
    if s.len() == 0 {
        0
    } else {
        count_true(s.drop_last()) + if s.last() {
            1nat
        } else {
            0nat
        }
    }
}

pub proof fn lemma_count_true_bound(s: Seq<bool>)
    ensures
        count_true(s) <= s.len(),
    decreases s.len(),
{
    if s.len() > 0 {
        lemma_count_true_bound(s.drop_last());
    }
}

pub proof fn lemma_count_true_set(s: Seq<bool>, i: int)
    requires
        0 <= i < s.len(),
        !s[i],
    ensures
        count_true(s.update(i, true)) == count_true(s) + 1,
    decreases s.len(),
{
    let t = s.update(i, true);
    if i == s.len() - 1 {
        assert(t.drop_last() =~= s.drop_last());
    } else {
        assert(t.drop_last() =~= s.drop_last().update(i, true));
        lemma_count_true_set(s.drop_last(), i);
    }
}

/// Every path of background-coloured pixels from the top-left pixel stays
/// within a set that holds the top-left pixel and every background-coloured
/// neighbour of its members.
proof fn lemma_closed_holds_paths(r: Raster, vis: Seq<bool>, path: Seq<(int, int)>)
    requires
        r.wf(),
        r.width > 0 && r.height > 0,
        vis.len() == r.width * r.height,
        vis[0],
        forall|x: int, y: int, nx: int, ny: int|
            r.in_bounds(x, y) && #[trigger] vis[y * r.width + x] && adjacent((x, y), (nx, ny))
                && #[trigger] r.bg_colored(nx, ny) ==> vis[ny * r.width + nx],
        r.is_bg_path(path),
    ensures
        vis[path.last().1 * r.width + path.last().0],
    decreases path.len(),
{
    if path.len() > 1 {
        let prev = path.drop_last();
        assert(r.is_bg_path(prev)) by {
            assert forall|i: int| 0 <= i < prev.len() implies r.bg_colored(
                #[trigger] prev[i].0,
                prev[i].1,
            ) by {
                assert(prev[i] == path[i]);
            }
            assert forall|i: int| 0 <= i < prev.len() - 1 implies adjacent(
                #[trigger] prev[i],
                prev[i + 1],
            ) by {
                assert(prev[i] == path[i]);
                assert(prev[i + 1] == path[i + 1]);
            }
        }
        lemma_closed_holds_paths(r, vis, prev);
        let p = prev.last();
        let q = path.last();
        assert(p == path[path.len() - 2]);
        assert(adjacent(path[path.len() - 2], path[path.len() - 1]));
        assert(r.bg_colored(path[path.len() - 1].0, path[path.len() - 1].1));
        assert(r.in_bounds(p.0, p.1)) by {
            assert(r.bg_colored(path[path.len() - 2].0, path[path.len() - 2].1));
        }
    } else {
        assert(path.last() == (0int, 0int));
        assert(0 * r.width + 0 == 0);
    }
}

/// A background pixel's background-coloured neighbour is background too.
proof fn lemma_extend_background(r: Raster, x: int, y: int, nx: int, ny: int)
    requires
        r.is_background(x, y),
        adjacent((x, y), (nx, ny)),
        r.bg_colored(nx, ny),
    ensures
        r.is_background(nx, ny),
{
    reveal(Raster::is_background);
    let path = choose|path: Seq<(int, int)>| #[trigger]
        r.is_bg_path(path) && path.last() == (x, y);
    let ext = path.push((nx, ny));
    assert forall|i: int| 0 <= i < ext.len() implies r.bg_colored(
        #[trigger] ext[i].0,
        ext[i].1,
    ) by {
        if i < path.len() {
            assert(ext[i] == path[i]);
        }
    }
    assert forall|i: int| 0 <= i < ext.len() - 1 implies adjacent(#[trigger] ext[i], ext[i + 1]) by {
        assert(ext[i] == path[i]);
        if i < path.len() - 1 {
            assert(ext[i + 1] == path[i + 1]);
        }
    }
    assert(r.is_bg_path(ext));
    assert(ext.last() == (nx, ny));
}

proof fn lemma_origin_background(r: Raster)
    requires
        r.wf(),
        r.width > 0 && r.height > 0,
    ensures
        r.is_background(0, 0),
{
    reveal(Raster::is_background);
    let path = seq![(0int, 0int)];
    assert(r.is_bg_path(path));
    assert(path.last() == (0int, 0int));
}

/// What the flood fill has marked is background, and what waits on the
/// queue lies in the image and is marked.
#[verifier::opaque]
pub open spec fn marks_sound(r: Raster, vis: Seq<bool>, queue: Seq<(u32, u32)>) -> bool {
    &&& vis.len() == r.width * r.height
    &&& vis[0]
    &&& forall|x: int, y: int|
        r.in_bounds(x, y) && #[trigger] vis[y * r.width + x] ==> r.is_background(x, y)
    &&& forall|i: int|
        0 <= i < queue.len() ==> r.in_bounds(#[trigger] queue[i].0 as int, queue[i].1 as int)
            && vis[queue[i].1 * r.width + queue[i].0]
}

/// Every marked pixel other than `p` and off the queue has its
/// background-coloured neighbours marked.
#[verifier::opaque]
pub open spec fn closed_except(
    r: Raster,
    vis: Seq<bool>,
    queue: Seq<(u32, u32)>,
    p: (int, int),
) -> bool {
    forall|x: int, y: int, nx: int, ny: int|
        r.in_bounds(x, y) && #[trigger] vis[y * r.width + x] && adjacent((x, y), (nx, ny))
            && #[trigger] r.bg_colored(nx, ny) && !queue.contains((x as u32, y as u32)) && (x, y)
            != p ==> vis[ny * r.width + nx]
}

/// The state of the flood fill: `vis` marks what was reached, `queue`
/// holds what was reached but whose neighbours are not yet looked at.
pub open spec fn flood_inv(r: Raster, vis: Seq<bool>, queue: Seq<(u32, u32)>) -> bool {
    marks_sound(r, vis, queue) && closed_except(r, vis, queue, (-1, -1))
}

/// Marks (`nx`, `ny`) as reached and puts it on the queue, where it lies in
/// the image, has the background colour and was not reached yet.
fn visit(
    img: &PixelImage,
    bg: u32,
    vis: &mut Vec<bool>,
    queue: &mut VecDeque<(u32, u32)>,
    nx: u32,
    ny: u32,
    Ghost(from): Ghost<(int, int)>,
)
    requires
        img@.wf(),
        img@.width > 0 && img@.height > 0,
        bg == img@.pixel(0, 0),
        img@.in_bounds(nx as int, ny as int),
        img@.in_bounds(from.0, from.1),
        old(vis)@[from.1 * img@.width + from.0],
        adjacent(from, (nx as int, ny as int)),
        marks_sound(img@, old(vis)@, old(queue)@),
        closed_except(img@, old(vis)@, old(queue)@, from),
        count_true(old(vis)@) <= old(vis)@.len(),
    ensures
        marks_sound(img@, final(vis)@, final(queue)@),
        closed_except(img@, final(vis)@, final(queue)@, from),
        count_true(final(vis)@) <= final(vis)@.len(),
        final(vis)@.len() == old(vis)@.len(),
        final(vis)@[from.1 * img@.width + from.0],
        forall|i: int| 0 <= i < old(vis)@.len() && old(vis)@[i] ==> final(vis)@[i],
        img@.bg_colored(nx as int, ny as int) ==> final(vis)@[ny * img@.width + nx],
        final(vis)@ == (if !old(vis)@[ny * img@.width + nx] && img@.pixel(nx as int, ny as int)
            == bg {
            old(vis)@.update(ny * img@.width + nx, true)
        } else {
            old(vis)@
        }),
        final(queue)@ == (if !old(vis)@[ny * img@.width + nx] && img@.pixel(nx as int, ny as int)
            == bg {
            old(queue)@.push((nx, ny))
        } else {
            old(queue)@
        }),
        2 * (final(vis)@.len() - count_true(final(vis)@)) + final(queue)@.len() <= 2 * (old(
            vis,
        )@.len() - count_true(old(vis)@)) + old(queue)@.len(),
{
    reveal(marks_sound);
    reveal(closed_except);
    let ghost r = img@;
    let w = img.width();
    let _n = vis.len();
    proof {
        lemma_index_in_bounds(r.width as int, r.height as int, nx as int, ny as int);
    }
    let idx = (ny as usize) * (w as usize) + (nx as usize);
    if !vis[idx] && img.pixel(nx, ny) == bg {
        proof {
            lemma_index_in_bounds(r.width as int, r.height as int, from.0, from.1);
            assert(r.is_background(from.0, from.1));
            lemma_extend_background(r, from.0, from.1, nx as int, ny as int);
            lemma_count_true_set(vis@, idx as int);
            lemma_count_true_bound(vis@.update(idx as int, true));
        }
        let ghost vis0 = vis@;
        let ghost queue0 = queue@;
        vis.set(idx, true);
        queue.push_back((nx, ny));
        proof {
            assert(vis@ == vis0.update(idx as int, true));
            assert forall|k: int| 0 <= k < vis0.len() && vis0[k] implies vis@[k] by {
                if k != idx {
                    assert(vis@[k] == vis0[k]);
                }
            }
            assert forall|x: int, y: int|
                r.in_bounds(x, y) && #[trigger] vis@[y * r.width + x] implies r.is_background(
                x,
                y,
            ) by {
                lemma_index_in_bounds(r.width as int, r.height as int, x, y);
                if y * r.width + x != idx {
                    assert(vis0[y * r.width + x] == vis@[y * r.width + x]);
                } else {
                    lemma_same_index(r.width as int, r.height as int, x, y, nx as int, ny as int);
                }
            }
            assert forall|i: int| 0 <= i < queue@.len() implies r.in_bounds(
                #[trigger] queue@[i].0 as int,
                queue@[i].1 as int,
            ) && vis@[queue@[i].1 * r.width + queue@[i].0] by {
                if i < queue0.len() {
                    assert(queue@[i] == queue0[i]);
                    lemma_index_in_bounds(
                        r.width as int,
                        r.height as int,
                        queue0[i].0 as int,
                        queue0[i].1 as int,
                    );
                }
            }
            assert forall|x: int, y: int, mx: int, my: int|
                r.in_bounds(x, y) && #[trigger] vis@[y * r.width + x] && adjacent((x, y), (mx, my))
                    && #[trigger] r.bg_colored(mx, my) && !queue@.contains((x as u32, y as u32))
                    && (x, y) != from implies vis@[my * r.width + mx] by {
                lemma_index_in_bounds(r.width as int, r.height as int, x, y);
                lemma_index_in_bounds(r.width as int, r.height as int, mx, my);
                if y * r.width + x == idx {
                    lemma_same_index(r.width as int, r.height as int, x, y, nx as int, ny as int);
                    assert(queue@[queue@.len() - 1] == (nx, ny));
                } else {
                    assert(vis0[y * r.width + x]);
                    if queue0.contains((x as u32, y as u32)) {
                        let i = choose|i: int|
                            0 <= i < queue0.len() && queue0[i] == (x as u32, y as u32);
                        assert(queue@[i] == queue0[i]);
                    }
                    assert(vis0[my * r.width + mx]);
                }
            }
        }
    }
}

/// Takes the first pixel off the queue and visits its four neighbours.
fn flood_step(img: &PixelImage, bg: u32, vis: &mut Vec<bool>, queue: &mut VecDeque<(u32, u32)>)
    requires
        img@.wf(),
        img@.width > 0 && img@.height > 0,
        bg == img@.pixel(0, 0),
        flood_inv(img@, old(vis)@, old(queue)@),
        count_true(old(vis)@) <= old(vis)@.len(),
        old(queue)@.len() > 0,
    ensures
        flood_inv(img@, final(vis)@, final(queue)@),
        count_true(final(vis)@) <= final(vis)@.len(),
        final(vis)@.len() == old(vis)@.len(),
        2 * (final(vis)@.len() - count_true(final(vis)@)) + final(queue)@.len() < 2 * (old(
            vis,
        )@.len() - count_true(old(vis)@)) + old(queue)@.len(),
{
    let ghost r = img@;
    let w = img.width();
    let h = img.height();
    let ghost vis0 = vis@;
    let ghost queue0 = queue@;
    proof {
        reveal(marks_sound);
    }
    let (cx, cy) = queue.pop_front().unwrap();
    let ghost p = (cx as int, cy as int);
    proof {
        lemma_after_pop(r, vis0, queue0, p);
        assert(queue@ =~= queue0.drop_first());
        reveal(marks_sound);
        assert(vis@[p.1 * r.width + p.0]);
        if p.0 + 1 < r.width {
            lemma_index_in_bounds(r.width as int, r.height as int, p.0 + 1, p.1);
        }
        if p.0 > 0 {
            lemma_index_in_bounds(r.width as int, r.height as int, p.0 - 1, p.1);
        }
        if p.1 + 1 < r.height {
            lemma_index_in_bounds(r.width as int, r.height as int, p.0, p.1 + 1);
        }
        if p.1 > 0 {
            lemma_index_in_bounds(r.width as int, r.height as int, p.0, p.1 - 1);
        }
    }
    if cx + 1 < w {
        visit(img, bg, vis, queue, cx + 1, cy, Ghost(p));
    }
    let ghost v1 = vis@;
    assert(p.0 + 1 < r.width && r.bg_colored(p.0 + 1, p.1) ==> v1[p.1 * r.width + p.0 + 1]);
    if cx > 0 {
        visit(img, bg, vis, queue, cx - 1, cy, Ghost(p));
    }
    let ghost v2 = vis@;
    assert(p.0 + 1 < r.width && r.bg_colored(p.0 + 1, p.1) ==> v2[p.1 * r.width + p.0 + 1]);
    assert(p.0 > 0 && r.bg_colored(p.0 - 1, p.1) ==> v2[p.1 * r.width + p.0 - 1]);
    if cy + 1 < h {
        visit(img, bg, vis, queue, cx, cy + 1, Ghost(p));
    }
    let ghost v3 = vis@;
    assert(p.0 + 1 < r.width && r.bg_colored(p.0 + 1, p.1) ==> v3[p.1 * r.width + p.0 + 1]);
    assert(p.0 > 0 && r.bg_colored(p.0 - 1, p.1) ==> v3[p.1 * r.width + p.0 - 1]);
    assert(p.1 + 1 < r.height && r.bg_colored(p.0, p.1 + 1) ==> v3[(p.1 + 1) * r.width + p.0]);
    if cy > 0 {
        visit(img, bg, vis, queue, cx, cy - 1, Ghost(p));
    }
    assert(p.0 + 1 < r.width && r.bg_colored(p.0 + 1, p.1) ==> vis@[p.1 * r.width + p.0 + 1]);
    assert(p.0 > 0 && r.bg_colored(p.0 - 1, p.1) ==> vis@[p.1 * r.width + p.0 - 1]);
    assert(p.1 + 1 < r.height && r.bg_colored(p.0, p.1 + 1) ==> vis@[(p.1 + 1) * r.width + p.0]);
    assert(p.1 > 0 && r.bg_colored(p.0, p.1 - 1) ==> vis@[(p.1 - 1) * r.width + p.0]);
    proof {
        lemma_close_at(r, vis@, queue@, p);
    }
}

/// Taking `p` off the front of the queue leaves the marks sound and
/// closed but at `p`.
proof fn lemma_after_pop(r: Raster, vis: Seq<bool>, queue0: Seq<(u32, u32)>, p: (int, int))
    requires
        r.wf(),
        flood_inv(r, vis, queue0),
        queue0.len() > 0,
        queue0[0] == (p.0 as u32, p.1 as u32),
        0 <= p.0 <= u32::MAX,
        0 <= p.1 <= u32::MAX,
    ensures
        marks_sound(r, vis, queue0.drop_first()),
        closed_except(r, vis, queue0.drop_first(), p),
        r.in_bounds(p.0, p.1),
        vis[p.1 * r.width + p.0],
{
    reveal(marks_sound);
    reveal(closed_except);
    let queue = queue0.drop_first();
    assert forall|i: int| 0 <= i < queue.len() implies r.in_bounds(
        #[trigger] queue[i].0 as int,
        queue[i].1 as int,
    ) && vis[queue[i].1 * r.width + queue[i].0] by {
        assert(queue[i] == queue0[i + 1]);
    }
    assert forall|x: int, y: int, nx: int, ny: int|
        r.in_bounds(x, y) && #[trigger] vis[y * r.width + x] && adjacent((x, y), (nx, ny))
            && #[trigger] r.bg_colored(nx, ny) && !queue.contains((x as u32, y as u32)) && (x, y)
            != p implies vis[ny * r.width + nx] by {
        if queue0.contains((x as u32, y as u32)) {
            let i = choose|i: int| 0 <= i < queue0.len() && queue0[i] == (x as u32, y as u32);
            if i == 0 {
                assert((x as u32, y as u32) == (p.0 as u32, p.1 as u32));
                assert(x as u32 == x && y as u32 == y);
                assert(p.0 as u32 == p.0 && p.1 as u32 == p.1);
                assert((x, y) == p);
            } else {
                assert(queue[i - 1] == queue0[i]);
            }
        }
    }
}

/// Once every background-coloured neighbour of `p` is marked, the marks are
/// closed at `p` too.
proof fn lemma_close_at(r: Raster, vis: Seq<bool>, queue: Seq<(u32, u32)>, p: (int, int))
    requires
        r.wf(),
        r.in_bounds(p.0, p.1),
        closed_except(r, vis, queue, p),
        p.0 + 1 < r.width && r.bg_colored(p.0 + 1, p.1) ==> vis[p.1 * r.width + p.0 + 1],
        p.0 > 0 && r.bg_colored(p.0 - 1, p.1) ==> vis[p.1 * r.width + p.0 - 1],
        p.1 + 1 < r.height && r.bg_colored(p.0, p.1 + 1) ==> vis[(p.1 + 1) * r.width + p.0],
        p.1 > 0 && r.bg_colored(p.0, p.1 - 1) ==> vis[(p.1 - 1) * r.width + p.0],
    ensures
        closed_except(r, vis, queue, (-1, -1)),
{
    reveal(closed_except);
    assert forall|x: int, y: int, nx: int, ny: int|
        r.in_bounds(x, y) && #[trigger] vis[y * r.width + x] && adjacent((x, y), (nx, ny))
            && #[trigger] r.bg_colored(nx, ny) && !queue.contains((x as u32, y as u32)) && (x, y)
            != (-1int, -1int) implies vis[ny * r.width + nx] by {
        if (x, y) == p {
            assert(r.in_bounds(nx, ny));
        }
    }
}

/// Marks the background of `img`: the pixels that a flood fill from the
/// top-left pixel reaches over pixels of that pixel's colour. The pixel in
/// column `x` and row `y` is at index `y * width + x`.
pub fn flood_background(img: &PixelImage) -> (res: Vec<bool>)
    ensures
        res@.len() == img@.width * img@.height,
        forall|x: int, y: int|
            img@.in_bounds(x, y) ==> (#[trigger] res@[y * img@.width + x] <==> img@.is_background(
                x,
                y,
            )),
{
    let w = img.width();
    let h = img.height();
    if w == 0 || h == 0 {
        assert(img@.width * img@.height == 0) by (nonlinear_arith)
            requires
                img@.width == 0 || img@.height == 0,
        ;
        return Vec::new();
    }
    let n = img.pixel_count();
    assert(n > 0) by (nonlinear_arith)
        requires
            n == w * h,
            w > 0,
            h > 0,
    ;
    let mut vis: Vec<bool> = Vec::new();
    while vis.len() < n
        invariant
            vis.len() <= n,
            forall|i: int| 0 <= i < vis.len() ==> !vis@[i],
        decreases n - vis.len(),
    {
        vis.push(false);
    }
    let bg = img.pixel(0, 0);
    proof {
        lemma_count_true_set(vis@, 0);
        assert(count_true(vis@) == 0) by {
            lemma_count_zero(vis@);
        }
        lemma_origin_background(img@);
    }
    vis.set(0, true);
    let mut queue: VecDeque<(u32, u32)> = VecDeque::new();
    queue.push_back((0, 0));
    let ghost r = img@;
    proof {
        reveal(marks_sound);
        reveal(closed_except);
        lemma_count_true_bound(vis@);
        assert forall|x: int, y: int|
            r.in_bounds(x, y) && #[trigger] vis@[y * r.width + x] implies r.is_background(x, y) by {
            lemma_index_in_bounds(r.width as int, r.height as int, x, y);
            if y * r.width + x != 0 {
                assert(vis@[y * r.width + x] == false);
            } else {
                lemma_same_index(r.width as int, r.height as int, x, y, 0, 0);
            }
        }
        assert forall|x: int, y: int, nx: int, ny: int|
            r.in_bounds(x, y) && #[trigger] vis@[y * r.width + x] && adjacent((x, y), (nx, ny))
                && #[trigger] r.bg_colored(nx, ny) && !queue@.contains(
                (x as u32, y as u32),
            ) implies vis@[ny * r.width + nx] by {
            lemma_index_in_bounds(r.width as int, r.height as int, x, y);
            if y * r.width + x != 0 {
                assert(vis@[y * r.width + x] == false);
            } else {
                lemma_same_index(r.width as int, r.height as int, x, y, 0, 0);
                assert(queue@[0] == (0u32, 0u32));
            }
        }
    }
    while queue.len() > 0
        invariant
            r == img@,
            r.wf(),
            w == r.width,
            h == r.height,
            w > 0 && h > 0,
            bg == r.pixel(0, 0),
            flood_inv(r, vis@, queue@),
            vis@.len() == r.width * r.height,
            count_true(vis@) <= vis@.len(),
        decreases 2 * (vis@.len() - count_true(vis@)) + queue@.len(),
    {
        flood_step(img, bg, &mut vis, &mut queue);
    }
    proof {
        reveal(marks_sound);
        reveal(closed_except);
        assert forall|x: int, y: int| r.in_bounds(x, y) implies (#[trigger] vis@[y * r.width + x]
            <==> r.is_background(x, y)) by {
            reveal(Raster::is_background);
            if r.is_background(x, y) {
                let path = choose|path: Seq<(int, int)>| #[trigger]
                    r.is_bg_path(path) && path.last() == (x, y);
                lemma_closed_holds_paths(r, vis@, path);
            }
        }
    }
    vis
}

pub proof fn lemma_count_zero(s: Seq<bool>)
    requires
        forall|i: int| 0 <= i < s.len() ==> !s[i],
    ensures
        count_true(s) == 0,
    decreases s.len(),
{
    if s.len() > 0 {
        lemma_count_zero(s.drop_last());
    }
}

/// Distinct pixels have distinct indices.
pub proof fn lemma_same_index(w: int, h: int, x: int, y: int, x2: int, y2: int)
    requires
        0 <= x < w,
        0 <= x2 < w,
        0 <= y < h,
        0 <= y2 < h,
        y * w + x == y2 * w + x2,
    ensures
        x == x2 && y == y2,
{
    if y < y2 {
        assert(y * w + w <= y2 * w) by (nonlinear_arith)
            requires
                y + 1 <= y2,
                0 <= w,
        ;
    } else if y2 < y {
        assert(y2 * w + w <= y * w) by (nonlinear_arith)
            requires
                y2 + 1 <= y,
                0 <= w,
        ;
    }
}

} // verus!
