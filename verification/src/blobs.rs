//! Connected regions of a pixel mask.
//!
//! A mask is a row-major grid of bytes; a non-zero byte is a set pixel. Two set pixels belong to
//! the same region when a chain of neighbouring set pixels joins them. Neighbours share an edge
//! or, where diagonal steps are allowed, a corner.

use crate::order;
use vstd::prelude::*;

verus! {

/// The bounding box and the number of pixels of one region. The bounds are inclusive.
#[derive(Clone, Copy, Debug, PartialEq, Eq, Structural)]
pub struct Component {
    pub x0: usize,
    pub y0: usize,
    pub x1: usize,
    pub y1: usize,
    pub area: usize,
}

impl Component {
    pub open spec fn valid(self) -> bool {
        &&& self.x0 <= self.x1 < usize::MAX
        &&& self.y0 <= self.y1 < usize::MAX
    }

    pub open spec fn spec_width(self) -> int {
        self.x1 - self.x0 + 1
    }

    pub open spec fn spec_height(self) -> int {
        self.y1 - self.y0 + 1
    }

    /// Columns covered by the box.
    pub fn width(self) -> (w: usize)
        requires
            self.valid(),
        ensures
            w == self.spec_width(),
    {
        self.x1 - self.x0 + 1
    }

    /// Rows covered by the box.
    pub fn height(self) -> (h: usize)
        requires
            self.valid(),
        ensures
            h == self.spec_height(),
    {
        self.y1 - self.y0 + 1
    }
}

/// The box lies inside a grid of `width` columns and `height` rows.
pub open spec fn component_in(c: Component, width: int, height: int) -> bool {
    &&& c.x0 <= c.x1 < width
    &&& c.y0 <= c.y1 < height
    &&& 1 <= c.area <= width * height
}

/// A mask with its row length and the kind of step that joins two pixels.
pub struct Grid {
    pub mask: Seq<u8>,
    pub width: int,
    pub diagonal: bool,
}

impl Grid {
    /// Pixel `p` is inside the mask and set.
    pub open spec fn set(self, p: int) -> bool {
        0 <= p < self.mask.len() && self.mask[p] != 0
    }

    pub open spec fn col(self, p: int) -> int {
        p % self.width
    }

    pub open spec fn row(self, p: int) -> int {
        p / self.width
    }

    /// Pixels `p` and `q` are neighbours.
    pub open spec fn adjacent(self, p: int, q: int) -> bool {
        &&& p != q
        &&& -1 <= self.col(p) - self.col(q) <= 1
        &&& -1 <= self.row(p) - self.row(q) <= 1
        &&& self.diagonal || self.col(p) == self.col(q) || self.row(p) == self.row(q)
    }

    /// A chain of set pixels, each a neighbour of the one before it.
    pub open spec fn chain(self, s: Seq<int>) -> bool {
        &&& s.len() > 0
        &&& forall|i: int| 0 <= i < s.len() ==> self.set(#[trigger] s[i])
        &&& forall|i: int, j: int| 0 <= i && j == i + 1 && j < s.len() ==> self.adjacent(#[trigger] s[i], #[trigger] s[j])
    }

    /// Pixels `p` and `q` belong to the same region.
    pub open spec fn joined(self, p: int, q: int) -> bool {
        exists|s: Seq<int>| #[trigger] self.chain(s) && s[0] == p && s.last() == q
    }

    /// The region of pixel `p`.
    pub open spec fn region(self, p: int) -> Set<int> {
        Set::new(|q: int| self.joined(p, q))
    }

    /// Pixel `p` is set and comes before every other pixel of its region.
    pub open spec fn is_root(self, p: int) -> bool {
        self.set(p) && forall|r: int| 0 <= r < p ==> !#[trigger] self.joined(r, p)
    }

    /// The first pixels of the regions that start before pixel `n`, in order.
    pub open spec fn roots(self, n: int) -> Seq<int>
        decreases n,
    {
        if n <= 0 {
            Seq::empty()
        } else if self.is_root(n - 1) {
            self.roots(n - 1).push(n - 1)
        } else {
            self.roots(n - 1)
        }
    }

    /// `c` is the tight bounding box of `pixels` with their number.
    pub open spec fn outlines(self, pixels: Set<int>, c: Component) -> bool {
        &&& c.area == pixels.len()
        &&& forall|p: int| #[trigger]
            pixels.contains(p) ==> c.x0 <= self.col(p) <= c.x1 && c.y0 <= self.row(p) <= c.y1
        &&& exists|p: int| #[trigger] pixels.contains(p) && self.col(p) == c.x0
        &&& exists|p: int| #[trigger] pixels.contains(p) && self.col(p) == c.x1
        &&& exists|p: int| #[trigger] pixels.contains(p) && self.row(p) == c.y0
        &&& exists|p: int| #[trigger] pixels.contains(p) && self.row(p) == c.y1
    }

    /// The outline of the region of pixel `p`.
    pub open spec fn outline(self, p: int) -> Component {
        choose|c: Component| self.outlines(self.region(p), c)
    }

    /// The outlines of all regions, ordered by their first pixels.
    pub open spec fn outline_list(self) -> Seq<Component> {
        self.roots(self.mask.len() as int).map_values(|p: int| self.outline(p))
    }

    proof fn lemma_outline_unique(self, pixels: Set<int>, a: Component, b: Component)
        requires
            self.outlines(pixels, a),
            self.outlines(pixels, b),
        ensures
            a == b,
    {
        let a0 = choose|p: int| #[trigger] pixels.contains(p) && self.col(p) == a.x0;
        let a1 = choose|p: int| #[trigger] pixels.contains(p) && self.col(p) == a.x1;
        let a2 = choose|p: int| #[trigger] pixels.contains(p) && self.row(p) == a.y0;
        let a3 = choose|p: int| #[trigger] pixels.contains(p) && self.row(p) == a.y1;
        let b0 = choose|p: int| #[trigger] pixels.contains(p) && self.col(p) == b.x0;
        let b1 = choose|p: int| #[trigger] pixels.contains(p) && self.col(p) == b.x1;
        let b2 = choose|p: int| #[trigger] pixels.contains(p) && self.row(p) == b.y0;
        let b3 = choose|p: int| #[trigger] pixels.contains(p) && self.row(p) == b.y1;
        assert(pixels.contains(a0) && pixels.contains(a1) && pixels.contains(a2) && pixels.contains(a3));
        assert(pixels.contains(b0) && pixels.contains(b1) && pixels.contains(b2) && pixels.contains(b3));
    }

    /// A set pixel's region has an outline, and only one: `outline` is it. The grid has rows of `width` pixels.
    pub proof fn lemma_outline(self, p: int, height: int)
        requires
            self.set(p),
            self.mask.len() == self.width * height,
            0 <= self.width <= usize::MAX,
            0 <= height <= usize::MAX,
            self.mask.len() <= usize::MAX,
        ensures
            self.outlines(self.region(p), self.outline(p)),
            forall|c: Component| self.outlines(self.region(p), c) ==> c == self.outline(p),
    {
        let r = self.region(p);
        self.lemma_region_bounded(p);
        self.lemma_joined_self(p);
        assert(r.contains(p));
        assert forall|q: int| #[trigger] r.contains(q) implies 0 <= self.col(q) < self.width && 0 <= self.row(q)
            < height by {
            lemma_position(q, self.width, height);
        }
        let left = lemma_has_least(r, |q: int| self.col(q));
        let top = lemma_has_least(r, |q: int| self.row(q));
        let right = lemma_has_least(r, |q: int| -self.col(q));
        let bottom = lemma_has_least(r, |q: int| -self.row(q));
        let c = Component {
            x0: self.col(left) as usize,
            y0: self.row(top) as usize,
            x1: self.col(right) as usize,
            y1: self.row(bottom) as usize,
            area: r.len() as usize,
        };
        assert(self.outlines(r, c));
        assert forall|d: Component| self.outlines(r, d) implies d == self.outline(p) by {
            self.lemma_outline_unique(r, d, self.outline(p));
        }
    }

    pub proof fn lemma_joined_self(self, p: int)
        requires
            self.set(p),
        ensures
            self.joined(p, p),
    {
        assert(self.chain(seq![p]));
    }

    proof fn lemma_joined_step(self, p: int, q: int, r: int)
        requires
            self.joined(p, q),
            self.set(r),
            self.adjacent(q, r),
        ensures
            self.joined(p, r),
    {
        let s = choose|s: Seq<int>| #[trigger] self.chain(s) && s[0] == p && s.last() == q;
        let t = s.push(r);
        assert(self.chain(t)) by {
            assert forall|i: int, j: int| 0 <= i && j == i + 1 && j < t.len() implies self.adjacent(
                #[trigger] t[i],
                #[trigger] t[j],
            ) by {
                if j < s.len() {
                    assert(self.adjacent(s[i], s[j]));
                }
            }
        }
        assert(t[0] == p && t.last() == r);
    }

    /// Belonging to the same region is symmetric.
    pub proof fn lemma_joined_symmetric(self, p: int, q: int)
        requires
            self.joined(p, q),
        ensures
            self.joined(q, p),
    {
        let s = choose|s: Seq<int>| #[trigger] self.chain(s) && s[0] == p && s.last() == q;
        let t = s.reverse();
        assert(self.chain(t)) by {
            assert forall|i: int, j: int| 0 <= i && j == i + 1 && j < t.len() implies self.adjacent(
                #[trigger] t[i],
                #[trigger] t[j],
            ) by {
                assert(self.adjacent(s[s.len() - 1 - j], s[s.len() - 1 - i]));
            }
        }
        assert(t[0] == q && t.last() == p);
    }

    /// Belonging to the same region is transitive.
    pub proof fn lemma_joined_transitive(self, p: int, q: int, r: int)
        requires
            self.joined(p, q),
            self.joined(q, r),
        ensures
            self.joined(p, r),
    {
        let s = choose|s: Seq<int>| #[trigger] self.chain(s) && s[0] == p && s.last() == q;
        let t = choose|t: Seq<int>| #[trigger] self.chain(t) && t[0] == q && t.last() == r;
        let u = s + t.drop_first();
        assert(self.chain(u)) by {
            assert forall|i: int| 0 <= i < u.len() implies self.set(#[trigger] u[i]) by {
                if i >= s.len() {
                    assert(u[i] == t[i - s.len() + 1]);
                }
            }
            assert forall|i: int, j: int| 0 <= i && j == i + 1 && j < u.len() implies self.adjacent(
                #[trigger] u[i],
                #[trigger] u[j],
            ) by {
                if j < s.len() {
                    assert(self.adjacent(s[i], s[j]));
                } else {
                    assert(u[i] == t[i - s.len() + 1]);
                    assert(u[j] == t[j - s.len() + 1]);
                    assert(self.adjacent(t[i - s.len() + 1], t[j - s.len() + 1]));
                }
            }
        }
        assert(u[0] == p);
        assert(u.last() == r) by {
            if t.len() == 1 {
                assert(u =~= s);
            } else {
                assert(u.last() == t[t.len() - 1]);
            }
        }
    }

    /// A set of pixels that is closed under set neighbours holds the whole region of each member.
    proof fn lemma_closed_holds_region(self, closed: Set<int>, p: int, q: int)
        requires
            closed.contains(p),
            self.joined(p, q),
            forall|a: int, b: int|
                #![trigger closed.contains(a), closed.contains(b)]
                closed.contains(a) && self.set(b) && self.adjacent(a, b) ==> closed.contains(b),
        ensures
            closed.contains(q),
    {
        let s = choose|s: Seq<int>| #[trigger] self.chain(s) && s[0] == p && s.last() == q;
        self.lemma_closed_along(closed, s, s.len() - 1);
    }

    proof fn lemma_closed_along(self, closed: Set<int>, s: Seq<int>, k: int)
        requires
            self.chain(s),
            0 <= k < s.len(),
            closed.contains(s[0]),
            forall|a: int, b: int|
                #![trigger closed.contains(a), closed.contains(b)]
                closed.contains(a) && self.set(b) && self.adjacent(a, b) ==> closed.contains(b),
        ensures
            closed.contains(s[k]),
        decreases k,
    {
        if k > 0 {
            self.lemma_closed_along(closed, s, k - 1);
            assert(self.adjacent(s[k - 1], s[k]));
            assert(closed.contains(s[k]) || !closed.contains(s[k]));
        }
    }

    /// Every set pixel belongs to a region whose first pixel is listed among the roots.
    pub proof fn lemma_set_pixel_has_root(self, p: int) -> (r: int)
        requires
            self.set(p),
        ensures
            0 <= r <= p,
            self.is_root(r),
            self.roots(self.mask.len() as int).contains(r),
            self.region(r).contains(p),
        decreases p,
    {
        if self.is_root(p) {
            self.lemma_joined_self(p);
            self.lemma_root_listed(p, self.mask.len() as int);
            p
        } else {
            let q = choose|q: int| 0 <= q < p && #[trigger] self.joined(q, p);
            self.lemma_joined_symmetric(q, p);
            self.lemma_region_bounded(p);
            assert(self.region(p).contains(q));
            let r = self.lemma_set_pixel_has_root(q);
            self.lemma_joined_transitive(r, q, p);
            r
        }
    }

    /// The regions of two different roots share no pixel.
    pub proof fn lemma_regions_disjoint(self, a: int, b: int, p: int)
        requires
            self.is_root(a),
            self.is_root(b),
            self.region(a).contains(p),
            self.region(b).contains(p),
        ensures
            a == b,
    {
        self.lemma_joined_symmetric(b, p);
        self.lemma_joined_transitive(a, p, b);
        self.lemma_joined_symmetric(a, b);
        if a < b {
            assert(self.joined(a, b));
        } else if b < a {
            assert(self.joined(b, a));
        }
    }

    proof fn lemma_root_listed(self, p: int, n: int)
        requires
            self.is_root(p),
            p < n,
        ensures
            self.roots(n).contains(p),
        decreases n,
    {
        if p == n - 1 {
            assert(self.roots(n)[self.roots(n - 1).len() as int] == p);
        } else {
            self.lemma_root_listed(p, n - 1);
            let i = self.roots(n - 1).index_of(p);
            assert(self.roots(n)[i] == p);
        }
    }

    proof fn lemma_region_bounded(self, p: int)
        ensures
            self.region(p).finite(),
            self.region(p).len() <= self.mask.len(),
            forall|q: int| #[trigger] self.region(p).contains(q) ==> self.set(q),
    {
        assert forall|q: int| #[trigger] self.region(p).contains(q) implies self.set(q) by {
            let s = choose|s: Seq<int>| #[trigger] self.chain(s) && s[0] == p && s.last() == q;
            assert(self.set(s[s.len() - 1]));
        }
        let all = vstd::set_lib::set_int_range(0, self.mask.len() as int);
        vstd::set_lib::lemma_int_range(0, self.mask.len() as int);
        assert(self.region(p).subset_of(all));
        vstd::set_lib::lemma_len_subset(self.region(p), all);
    }
}

/// A region has no more pixels than its box.
pub open spec fn fills_box(c: Component) -> bool {
    c.area <= c.spec_width() * c.spec_height()
}

impl Grid {
    /// A region has no more pixels than its box.
    pub proof fn lemma_area_in_box(self, p: int, c: Component)
        requires
            0 < self.width,
            self.outlines(self.region(p), c),
            c.x0 <= c.x1 < self.width,
            c.y0 <= c.y1,
        ensures
            fills_box(c),
    {
        let r = self.region(p);
        self.lemma_region_bounded(p);
        let w = c.spec_width();
        let h = c.spec_height();
        let f = |q: int| (self.row(q) - c.y0) * w + (self.col(q) - c.x0);
        let image = r.map(f);
        assert(vstd::relations::injective_on(f, r)) by {
            assert forall|a: int, b: int|
                #![trigger f(a), f(b)]
                r.contains(a) && r.contains(b) && f(a) == f(b) implies a == b by {
                lemma_pixel(self.col(a) - c.x0, self.row(a) - c.y0, w, h);
                lemma_pixel(self.col(b) - c.x0, self.row(b) - c.y0, w, h);
                assert(self.col(a) == self.col(b) && self.row(a) == self.row(b));
                vstd::arithmetic::div_mod::lemma_fundamental_div_mod(a, self.width);
                vstd::arithmetic::div_mod::lemma_fundamental_div_mod(b, self.width);
            }
        }
        vstd::set_lib::lemma_map_size(r, image, f);
        assert(0 <= w * h) by (nonlinear_arith)
            requires
                w >= 1,
                h >= 1,
        ;
        let all = vstd::set_lib::set_int_range(0, w * h);
        vstd::set_lib::lemma_int_range(0, w * h);
        assert forall|v: int| image.contains(v) implies all.contains(v) by {
            let q = choose|q: int| r.contains(q) && f(q) == v;
            lemma_pixel(self.col(q) - c.x0, self.row(q) - c.y0, w, h);
        }
        assert(image.subset_of(all));
        vstd::set_lib::lemma_len_subset(image, all);
    }
}

/// The visited marks of `after` are those of `before` and the pixels of the region of `start`.
pub open spec fn marks_region(g: Grid, before: Seq<bool>, after: Seq<bool>, start: int) -> bool {
    &&& after.len() == before.len()
    &&& forall|p: int| 0 <= p < after.len() ==> (#[trigger] after[p] <==> before[p] || g.joined(start, p))
}

/// The marked pixels are set, and every set neighbour of a marked pixel is marked.
pub open spec fn marks_closed(g: Grid, marks: Seq<bool>) -> bool {
    &&& marks.len() == g.mask.len()
    &&& forall|p: int| 0 <= p < marks.len() && #[trigger] marks[p] ==> g.set(p)
    &&& forall|a: int, b: int|
        0 <= a < marks.len() && 0 <= b < marks.len() && #[trigger] marks[a] && g.set(b) && g.adjacent(a, b)
            ==> #[trigger] marks[b]
}

/// Row-major positions and coordinates correspond.
proof fn lemma_has_least(s: Set<int>, f: spec_fn(int) -> int) -> (p: int)
    requires
        s.finite(),
        s.len() > 0,
    ensures
        s.contains(p),
        forall|q: int| #[trigger] s.contains(q) ==> f(p) <= f(q),
    decreases s.len(),
{
    let a = s.choose();
    if s.len() == 1 {
        assert(s.remove(a).len() == 0);
        assert(s.remove(a) =~= Set::empty());
        assert forall|q: int| #[trigger] s.contains(q) implies f(a) <= f(q) by {
            if q != a {
                assert(s.remove(a).contains(q));
            }
        }
        a
    } else {
        let b = lemma_has_least(s.remove(a), f);
        assert forall|q: int| #[trigger] s.contains(q) implies (f(a) <= f(q) || f(b) <= f(q)) by {
            if q != a {
                assert(s.remove(a).contains(q));
            }
        }
        if f(a) <= f(b) {
            a
        } else {
            b
        }
    }
}

pub proof fn lemma_pixel(x: int, y: int, w: int, h: int)
    requires
        0 <= x < w,
        0 <= y < h,
    ensures
        0 <= y * w + x < w * h,
        (y * w + x) % w == x,
        (y * w + x) / w == y,
{
    vstd::arithmetic::div_mod::lemma_fundamental_div_mod_converse(y * w + x, w, y, x);
    assert(y * w + x < w * h) by (nonlinear_arith)
        requires
            0 <= x < w,
            0 <= y < h,
    ;
    assert(0 <= y * w) by (nonlinear_arith)
        requires
            0 <= y,
            0 < w,
    ;
}

/// Every position of a grid has its coordinates inside it.
pub proof fn lemma_position(p: int, w: int, h: int)
    requires
        0 <= p < w * h,
        0 <= w,
        0 <= h,
    ensures
        0 < w,
        0 <= p % w < w,
        0 <= p / w < h,
        p == (p / w) * w + p % w,
{
    assert(w > 0 && h > 0) by (nonlinear_arith)
        requires
            0 <= p < w * h,
            0 <= w,
            0 <= h,
    ;
    vstd::arithmetic::div_mod::lemma_fundamental_div_mod(p, w);
    assert(w * (p / w) == (p / w) * w) by (nonlinear_arith);
    assert(p / w < h) by (nonlinear_arith)
        requires
            p == (p / w) * w + p % w,
            0 <= p % w,
            p < w * h,
            w > 0,
    ;
    assert(0 <= p / w) by (nonlinear_arith)
        requires
            p == (p / w) * w + p % w,
            p % w < w,
            0 <= p,
            w > 0,
    ;
}

/// Marks the region of `start` and returns its outline.
fn fill(mask: &[u8], marks: &mut Vec<bool>, width: usize, height: usize, diagonal: bool, start: usize) -> (c:
    Component)
    requires
        mask@.len() == width * height,
        ({
            let g = Grid { mask: mask@, width: width as int, diagonal };
            marks_closed(g, old(marks)@) && g.set(start as int) && !old(marks)@[start as int]
        }),
    ensures
        ({
            let g = Grid { mask: mask@, width: width as int, diagonal };
            &&& marks_region(g, old(marks)@, final(marks)@, start as int)
            &&& marks_closed(g, final(marks)@)
            &&& g.outlines(g.region(start as int), c)
        }),
        c.valid(),
        c.x1 < width,
        c.y1 < height,
        1 <= c.area <= mask@.len(),
{
    let ghost g = Grid { mask: mask@, width: width as int, diagonal };
    let ghost before = marks@;
    let total: usize = mask.len();
    let ghost n = total as int;
    proof {
        lemma_position(start as int, width as int, height as int);
        g.lemma_joined_self(start as int);
    }
    let sx: usize = start % width;
    let sy: usize = start / width;
    let mut x0: usize = sx;
    let mut y0: usize = sy;
    let mut x1: usize = sx;
    let mut y1: usize = sy;
    let mut area: usize = 0;
    let mut stack: Vec<usize> = Vec::new();
    marks.set(start, true);
    stack.push(start);
    let ghost mut done: Set<int> = Set::empty();
    let ghost mut left: int = start as int;
    let ghost mut right: int = start as int;
    let ghost mut top: int = start as int;
    let ghost mut bottom: int = start as int;
    assert(stack@[0] == start);
    while stack.len() > 0
        invariant
            n == total,
            n == mask@.len(),
            n == width * height,
            g == (Grid { mask: mask@, width: width as int, diagonal }),
            0 <= start < n,
            0 < width,
            marks@.len() == n,
            before.len() == n,
            marks_closed(g, before),
            !before[start as int],
            marks@[start as int],
            g.set(start as int),
            forall|i: int| 0 <= i < stack.len() ==> {
                &&& (#[trigger] stack@[i]) < n
                &&& marks@[stack@[i] as int]
                &&& g.joined(start as int, stack@[i] as int)
                &&& g.set(stack@[i] as int)
                &&& !before[stack@[i] as int]
                &&& !done.contains(stack@[i] as int)
            },
            forall|i: int, j: int| 0 <= i < j < stack.len() ==> #[trigger] stack@[i] != #[trigger] stack@[j],
            forall|p: int| 0 <= p < n && #[trigger] marks@[p] && !before[p] && !done.contains(p) ==> exists|i: int|
                0 <= i < stack.len() && #[trigger] stack@[i] == p,
            forall|p: int| 0 <= p < n && #[trigger] before[p] ==> marks@[p],
            forall|p: int| #[trigger] done.contains(p) ==> {
                &&& 0 <= p < n
                &&& marks@[p]
                &&& !before[p]
                &&& g.set(p)
                &&& g.joined(start as int, p)
                &&& x0 <= g.col(p) <= x1
                &&& y0 <= g.row(p) <= y1
            },
            forall|p: int, q: int|
                #![trigger done.contains(p), marks@[q]]
                done.contains(p) && 0 <= q < n && g.set(q) && g.adjacent(p, q) ==> marks@[q],
            done.finite(),
            done.len() == area,
            area <= n,
            x0 <= x1 < width,
            y0 <= y1 < height,
            g.joined(start as int, left) && g.col(left) == x0,
            g.joined(start as int, right) && g.col(right) == x1,
            g.joined(start as int, top) && g.row(top) == y0,
            g.joined(start as int, bottom) && g.row(bottom) == y1,
        decreases n - area,
    {
        let ghost stack0 = stack@;
        let ghost done0 = done;
        let idx: usize = stack.pop().unwrap();
        assert(stack0[stack0.len() - 1] == idx);
        proof {
            done = done.insert(idx as int);
            let all = vstd::set_lib::set_int_range(0, n);
            vstd::set_lib::lemma_int_range(0, n);
            assert(done.subset_of(all));
            vstd::set_lib::lemma_len_subset(done, all);
            lemma_position(idx as int, width as int, height as int);
            assert forall|i: int, j: int| 0 <= i < j < stack.len() implies #[trigger] stack@[i] != #[trigger] stack@[j] by {
                assert(stack0[i] != stack0[j]);
            }
            assert forall|p: int| 0 <= p < n && #[trigger] marks@[p] && !before[p] && !done.contains(p) implies exists|i: int|
                0 <= i < stack.len() && #[trigger] stack@[i] == p by {
                let i = choose|i: int| 0 <= i < stack0.len() && #[trigger] stack0[i] == p;
                assert(stack@[i] == p);
            }
        }
        area = area + 1;
        let x: usize = idx % width;
        let y: usize = idx / width;
        if x < x0 {
            x0 = x;
            proof {
                left = idx as int;
            }
        }
        if y < y0 {
            y0 = y;
            proof {
                top = idx as int;
            }
        }
        if x > x1 {
            x1 = x;
            proof {
                right = idx as int;
            }
        }
        if y > y1 {
            y1 = y;
            proof {
                bottom = idx as int;
            }
        }
        let mut k: usize = 0;
        while k < 9
            invariant
                k <= 9,
                n == total,
                n == mask@.len(),
                n == width * height,
                g == (Grid { mask: mask@, width: width as int, diagonal }),
                0 <= idx < n,
                0 < width,
                x == g.col(idx as int),
                y == g.row(idx as int),
                x < width,
                y < height,
                marks@.len() == n,
                before.len() == n,
                done.contains(idx as int),
                g.joined(start as int, idx as int),
                forall|i: int| 0 <= i < stack.len() ==> {
                    &&& (#[trigger] stack@[i]) < n
                    &&& marks@[stack@[i] as int]
                    &&& g.joined(start as int, stack@[i] as int)
                    &&& g.set(stack@[i] as int)
                    &&& !before[stack@[i] as int]
                    &&& !done.contains(stack@[i] as int)
                },
                forall|i: int, j: int| 0 <= i < j < stack.len() ==> #[trigger] stack@[i] != #[trigger] stack@[j],
                forall|p: int| 0 <= p < n && #[trigger] marks@[p] && !before[p] && !done.contains(p) ==> exists|
                    i: int,
                |
                    0 <= i < stack.len() && #[trigger] stack@[i] == p,
                forall|p: int| 0 <= p < n && #[trigger] before[p] ==> marks@[p],
                forall|p: int| #[trigger] done.contains(p) ==> 0 <= p < n && marks@[p],
                marks@[start as int],
                0 <= start < n,
                forall|p: int, q: int|
                    #![trigger done0.contains(p), marks@[q]]
                    done0.contains(p) && 0 <= q < n && g.set(q) && g.adjacent(p, q) ==> marks@[q],
                forall|q: int|
                    0 <= q < n && g.set(q) && g.adjacent(idx as int, q) && (g.row(q) - y + 1) * 3 + (g.col(q) - x + 1)
                        < k ==> #[trigger] marks@[q],
            decreases 9 - k,
        {
            let dx: usize = k % 3;
            let dy: usize = k / 3;
            let ghost cell: int = (y + dy - 1) * width + (x + dx - 1);
            let ghost marks0 = marks@;
            let ghost stack1 = stack@;
            let inside: bool = (dx != 0 || x > 0) && (dy != 0 || y > 0) && (dx != 2 || x < width - 1) && (dy != 2 || y
                < height - 1);
            if inside && (diagonal || dx == 1 || dy == 1) && !(dx == 1 && dy == 1) {
                let nx: usize = if dx == 0 {
                    x - 1
                } else {
                    x + (dx - 1)
                };
                let ny: usize = if dy == 0 {
                    y - 1
                } else {
                    y + (dy - 1)
                };
                proof {
                    lemma_pixel(nx as int, ny as int, width as int, height as int);
                    assert(ny * width <= n) by (nonlinear_arith)
                        requires
                            ny < height,
                            n == width * height,
                    ;
                }
                let ni: usize = ny * width + nx;
                if mask[ni] != 0 && !marks[ni] {
                    proof {
                        assert(g.adjacent(idx as int, ni as int));
                        g.lemma_joined_step(start as int, idx as int, ni as int);
                    }
                    marks.set(ni, true);
                    stack.push(ni);
                    proof {
                        assert(stack@[stack@.len() - 1] == ni);
                        assert forall|p: int| 0 <= p < n && #[trigger] marks@[p] && !before[p] && !done.contains(p) implies exists|
                            i: int,
                        |
                            0 <= i < stack.len() && #[trigger] stack@[i] == p by {
                            if p != ni {
                                assert(marks0[p]);
                                let i = choose|i: int| 0 <= i < stack1.len() && #[trigger] stack1[i] == p;
                                assert(stack@[i] == p);
                            }
                        }
                    }
                }
                assert(ni == cell);
                assert(marks@[cell] || mask@[cell] == 0);
            }
            proof {
                assert forall|q: int|
                    0 <= q < n && g.set(q) && g.adjacent(idx as int, q) && (g.row(q) - y + 1) * 3 + (g.col(q) - x + 1)
                        < k + 1 implies #[trigger] marks@[q] by {
                    lemma_position(q, width as int, height as int);
                    lemma_position(idx as int, width as int, height as int);
                    if (g.row(q) - y + 1) * 3 + (g.col(q) - x + 1) == k {
                        assert(g.row(q) - y + 1 == dy);
                        assert(g.col(q) - x + 1 == dx);
                        assert((q / (width as int)) * width == (y + dy - 1) * width);
                        assert(q == cell);
                    } else {
                        assert(marks0[q]);
                    }
                }
            }
            k = k + 1;
        }
        proof {
            assert forall|p: int, q: int|
                #![trigger done.contains(p), marks@[q]]
                done.contains(p) && 0 <= q < n && g.set(q) && g.adjacent(p, q) implies marks@[q] by {
                if p == idx {
                    lemma_position(q, width as int, height as int);
                } else {
                    assert(done0.contains(p));
                }
            }
        }
    }
    let c = Component { x0, y0, x1, y1, area };
    proof {
        let r = g.region(start as int);
        let closed = Set::new(|p: int| 0 <= p < n && marks@[p]);
        assert forall|a: int, b: int|
            #![trigger closed.contains(a), closed.contains(b)]
            closed.contains(a) && g.set(b) && g.adjacent(a, b) implies closed.contains(b) by {
            if before[a] {
                assert(before[b]);
            } else {
                assert(done.contains(a));
                assert(marks@[b]);
            }
        }
        let was = Set::new(|p: int| 0 <= p < n && before[p]);
        assert forall|p: int| r.contains(p) implies done.contains(p) by {
            g.lemma_region_bounded(start as int);
            g.lemma_closed_holds_region(closed, start as int, p);
            if before[p] {
                g.lemma_joined_symmetric(start as int, p);
                assert forall|a: int, b: int|
                    #![trigger was.contains(a), was.contains(b)]
                    was.contains(a) && g.set(b) && g.adjacent(a, b) implies was.contains(b) by {
                    assert(before[b]);
                }
                g.lemma_closed_holds_region(was, p, start as int);
            }
        }
        assert(r =~= done);
        assert(r.contains(left) && r.contains(right) && r.contains(top) && r.contains(bottom));
        assert(r.contains(start as int));
        vstd::set::axiom_set_contains_len(r, start as int);
        assert forall|a: int, b: int|
            0 <= a < marks.len() && 0 <= b < marks.len() && #[trigger] marks@[a] && g.set(b) && g.adjacent(a, b) implies
            #[trigger] marks@[b] by {
            assert(closed.contains(a));
            assert(closed.contains(b));
        }
        assert forall|p: int| 0 <= p < n implies (#[trigger] marks@[p] <==> before[p] || g.joined(start as int, p)) by {
            assert(r.contains(p) <==> done.contains(p));
        }
    }
    c
}

/// The outlines of all regions of a mask, ordered by their first pixels.
pub fn outlines(mask: &[u8], width: usize, height: usize, diagonal: bool) -> (out: Vec<Component>)
    requires
        mask@.len() == width * height,
    ensures
        out@ == (Grid { mask: mask@, width: width as int, diagonal }).outline_list(),
        forall|i: int|
            0 <= i < out.len() ==> component_in(#[trigger] out@[i], width as int, height as int) && fills_box(
                out@[i],
            ),
{
    let ghost g = Grid { mask: mask@, width: width as int, diagonal };
    let total: usize = mask.len();
    let mut marks: Vec<bool> = vec![false; total];
    let mut out: Vec<Component> = Vec::new();
    let mut start: usize = 0;
    let ghost f = |p: int| g.outline(p);
    while start < total
        invariant
            start <= total,
            total == mask@.len(),
            mask@.len() == width * height,
            g == (Grid { mask: mask@, width: width as int, diagonal }),
            f == (|p: int| g.outline(p)),
            marks_closed(g, marks@),
            forall|p: int| 0 <= p < start && g.set(p) ==> #[trigger] marks@[p],
            forall|q: int| 0 <= q < total && #[trigger] marks@[q] ==> exists|r: int|
                0 <= r < start && #[trigger] g.joined(r, q),
            out@ == g.roots(start as int).map_values(f),
            forall|i: int|
                0 <= i < out.len() ==> component_in(#[trigger] out@[i], width as int, height as int) && fills_box(
                    out@[i],
                ),
        decreases total - start,
    {
        if mask[start] != 0 && !marks[start] {
            let ghost marks0 = marks@;
            let c = fill(mask, &mut marks, width, height, diagonal, start);
            proof {
                let was = Set::new(|p: int| 0 <= p < total && marks0[p]);
                assert forall|r: int| 0 <= r < start implies !#[trigger] g.joined(r, start as int) by {
                    if g.joined(r, start as int) {
                        g.lemma_joined_symmetric(r, start as int);
                        g.lemma_region_bounded(start as int);
                        assert(g.region(start as int).contains(r));
                        assert(marks0[r]);
                        assert forall|a: int, b: int|
                            #![trigger was.contains(a), was.contains(b)]
                            was.contains(a) && g.set(b) && g.adjacent(a, b) implies was.contains(b) by {
                            assert(marks0[b]);
                        }
                        g.lemma_closed_holds_region(was, r, start as int);
                    }
                }
                assert(g.is_root(start as int));
                g.lemma_area_in_box(start as int, c);
                let chosen = g.outline(start as int);
                g.lemma_outline_unique(g.region(start as int), c, chosen);
                assert(g.roots(start + 1).map_values(f) =~= g.roots(start as int).map_values(f).push(c));
                g.lemma_joined_self(start as int);
                assert forall|q: int| 0 <= q < total && #[trigger] marks@[q] implies exists|r: int|
                    0 <= r < start + 1 && #[trigger] g.joined(r, q) by {
                    if marks0[q] {
                        let r = choose|r: int| 0 <= r < start && #[trigger] g.joined(r, q);
                        assert(g.joined(r, q));
                    } else {
                        assert(g.joined(start as int, q));
                    }
                }
            }
            out.push(c);
        } else {
            proof {
                assert(!g.is_root(start as int)) by {
                    if marks@[start as int] {
                        let r = choose|r: int| 0 <= r < start && #[trigger] g.joined(r, start as int);
                        assert(g.joined(r, start as int));
                    }
                }
                assert forall|q: int| 0 <= q < total && #[trigger] marks@[q] implies exists|r: int|
                    0 <= r < start + 1 && #[trigger] g.joined(r, q) by {
                    let r = choose|r: int| 0 <= r < start && #[trigger] g.joined(r, q);
                    assert(g.joined(r, q));
                }
            }
        }
        start = start + 1;
    }
    out
}

/// The diagonally joined regions of at least `min_area` pixels, ordered by their first pixels.
pub open spec fn component_list(mask: Seq<u8>, width: int, min_area: int) -> Seq<Component> {
    Grid { mask, width, diagonal: true }.outline_list().filter(|c: Component| c.area >= min_area)
}

/// The diagonally joined regions of at least `min_area` pixels.
pub fn components(mask: &[u8], width: usize, height: usize, min_area: usize) -> (out: Vec<Component>)
    requires
        mask@.len() == width * height,
    ensures
        out@ == component_list(mask@, width as int, min_area as int),
        forall|i: int| 0 <= i < out.len() ==> component_in(#[trigger] out@[i], width as int, height as int),
{
    let all = outlines(mask, width, height, true);
    let ghost keep = |c: Component| c.area >= min_area as int;
    let mut out: Vec<Component> = Vec::new();
    let mut i: usize = 0;
    proof {
        lemma_filter_start(all@, keep);
    }
    while i < all.len()
        invariant
            i <= all.len(),
            keep == (|c: Component| c.area >= min_area as int),
            out@ == all@.take(i as int).filter(keep),
            forall|k: int| 0 <= k < all.len() ==> component_in(#[trigger] all@[k], width as int, height as int),
            forall|k: int| 0 <= k < out.len() ==> component_in(#[trigger] out@[k], width as int, height as int),
        decreases all.len() - i,
    {
        let c = all[i];
        if c.area >= min_area {
            out.push(c);
        }
        proof {
            lemma_filter_step(all@, i as int, keep);
        }
        i = i + 1;
    }
    assert(all@.take(i as int) =~= all@);
    out
}

/// Filtering one more item either appends it or changes nothing.
pub proof fn lemma_filter_step<T>(s: Seq<T>, i: int, keep: spec_fn(T) -> bool)
    requires
        0 <= i < s.len(),
    ensures
        s.take(i + 1).filter(keep) == (if keep(s[i]) {
            s.take(i).filter(keep).push(s[i])
        } else {
            s.take(i).filter(keep)
        }),
{
    reveal(Seq::filter);
    assert(s.take(i + 1).drop_last() =~= s.take(i));
    assert(s.take(i + 1).last() == s[i]);
}

pub proof fn lemma_filter_start<T>(s: Seq<T>, keep: spec_fn(T) -> bool)
    ensures
        s.take(0).filter(keep) == Seq::<T>::empty(),
{
    reveal(Seq::filter);
    assert(s.take(0).len() == 0);
}

/// Orders regions by left edge; those with the same left edge keep their order.
pub fn sort_by_column(items: &Vec<Component>) -> (out: Vec<Component>)
    ensures
        out@ == order::sorted_by(items@, |c: Component| c.x0 as int),
        out.len() == items.len(),
        forall|i: int| 0 <= i < out.len() ==> items@.contains(#[trigger] out@[i]),
{
    let ghost key = |c: Component| c.x0 as int;
    let mut keys: Vec<u128> = Vec::new();
    let mut i: usize = 0;
    while i < items.len()
        invariant
            i <= items.len(),
            keys.len() == i,
            forall|k: int| 0 <= k < i ==> #[trigger] keys@[k] == items@[k].x0,
        decreases items.len() - i,
    {
        keys.push(items[i].x0 as u128);
        i = i + 1;
    }
    proof {
        assert(keys@.map_values(|k: u128| k as int) =~= items@.map_values(key));
    }
    arrange(items, &keys)
}

/// The row-major sort key of a box's top left corner.
pub open spec fn corner_key(c: Component) -> int {
    c.y0 * 0x1_0000_0000_0000_0000 + c.x0
}

/// Orders regions by top edge, then by left edge.
pub fn sort_by_corner(items: &Vec<Component>) -> (out: Vec<Component>)
    ensures
        out@ == order::sorted_by(items@, |c: Component| corner_key(c)),
        out.len() == items.len(),
        forall|i: int| 0 <= i < out.len() ==> items@.contains(#[trigger] out@[i]),
{
    let ghost key = |c: Component| corner_key(c);
    let mut keys: Vec<u128> = Vec::new();
    let mut i: usize = 0;
    while i < items.len()
        invariant
            i <= items.len(),
            keys.len() == i,
            forall|k: int| 0 <= k < i ==> #[trigger] keys@[k] == corner_key(items@[k]),
        decreases items.len() - i,
    {
        keys.push(items[i].y0 as u128 * 0x1_0000_0000_0000_0000 + items[i].x0 as u128);
        i = i + 1;
    }
    proof {
        assert(keys@.map_values(|k: u128| k as int) =~= items@.map_values(key));
    }
    arrange(items, &keys)
}

fn arrange(items: &Vec<Component>, keys: &Vec<u128>) -> (out: Vec<Component>)
    requires
        keys.len() == items.len(),
    ensures
        out@ == order::stable_order(keys@.map_values(|k: u128| k as int)).map_values(|i: int| items@[i]),
        out.len() == items.len(),
        forall|i: int| 0 <= i < out.len() ==> items@.contains(#[trigger] out@[i]),
{
    let order = order::order_by(keys);
    let ghost pick = |i: int| items@[i];
    let ghost spots = order@.map_values(|i: usize| i as int);
    let mut out: Vec<Component> = Vec::new();
    let mut n: usize = 0;
    while n < order.len()
        invariant
            n <= order.len(),
            out.len() == n,
            order.len() == items.len(),
            forall|a: int| 0 <= a < order.len() ==> (#[trigger] order@[a]) < items.len(),
            forall|a: int| 0 <= a < n ==> #[trigger] out@[a] == items@[order@[a] as int],
        decreases order.len() - n,
    {
        out.push(items[order[n]]);
        n = n + 1;
    }
    proof {
        assert(out@ =~= spots.map_values(pick));
        assert forall|i: int| 0 <= i < out.len() implies items@.contains(#[trigger] out@[i]) by {
            assert(items@[order@[i] as int] == out@[i]);
        }
    }
    out
}

/// Pixels are neighbours where they are one step apart: a step to any side and, where regions join diagonally, to any
/// corner. It goes both ways.
pub proof fn lemma_adjacent(g: Grid, height: int, x: int, y: int, dx: int, dy: int)
    requires
        0 <= x < g.width,
        0 <= y < height,
        0 <= x + dx < g.width,
        0 <= y + dy < height,
    ensures
        ({
            let p = y * g.width + x;
            let q = (y + dy) * g.width + (x + dx);
            &&& g.diagonal ==> (g.adjacent(p, q) <==> -1 <= dx <= 1 && -1 <= dy <= 1 && (dx != 0 || dy != 0))
            &&& !g.diagonal ==> (g.adjacent(p, q) <==> (dx == 0 && (dy == 1 || dy == -1)) || (dy == 0 && (dx == 1 || dx == -1)))
            &&& g.adjacent(p, q) == g.adjacent(q, p)
        }),
{
    lemma_pixel(x, y, g.width, height);
    lemma_pixel(x + dx, y + dy, g.width, height);
}

/// Two set pixels that are neighbours belong to the same region.
pub proof fn lemma_neighbours_joined(g: Grid, p: int, q: int)
    requires
        g.set(p),
        g.set(q),
        g.adjacent(p, q),
    ensures
        g.joined(p, q),
        g.region(p).contains(q),
{
    let s = seq![p, q];
    assert(g.chain(s));
    assert(s[0] == p && s.last() == q);
}

/// The region of every set pixel is listed where it has at least the given number of pixels, by the least box around it
/// and their number; and everything listed is such a region.
pub proof fn lemma_component_list(mask: Seq<u8>, width: int, height: int, min_area: int, p: int, c: Component)
    requires
        mask.len() == width * height,
        0 <= width <= usize::MAX,
        0 <= height <= usize::MAX,
        mask.len() <= usize::MAX,
    ensures
        ({
            let g = Grid { mask, width, diagonal: true };
            let list = component_list(mask, width, min_area);
            &&& g.set(p) && g.outlines(g.region(p), c) && c.area >= min_area ==> list.contains(c)
            &&& list.contains(c) ==> c.area >= min_area && exists|q: int| g.set(q) && #[trigger] g.outlines(g.region(q), c)
        }),
{
    let g = Grid { mask, width, diagonal: true };
    let list = component_list(mask, width, min_area);
    let all = g.outline_list();
    let roots = g.roots(mask.len() as int);
    order::lemma_filter_member(all, |c: Component| c.area >= min_area, c);
    if g.set(p) && g.outlines(g.region(p), c) {
        let r = g.lemma_set_pixel_has_root(p);
        assert(g.region(r) =~= g.region(p)) by {
            assert forall|q: int| g.joined(r, q) <==> g.joined(p, q) by {
                g.lemma_joined_symmetric(r, p);
                if g.joined(r, q) {
                    g.lemma_joined_transitive(p, r, q);
                }
                if g.joined(p, q) {
                    g.lemma_joined_transitive(r, p, q);
                }
            }
        }
        g.lemma_outline(r, height);
        assert(c == g.outline(r));
        let i = roots.index_of(r);
        assert(all[i] == c);
    }
    if all.contains(c) {
        let i = choose|i: int| 0 <= i < all.len() && all[i] == c;
        let r = roots[i];
        lemma_roots_set(g, mask.len() as int, i);
        g.lemma_outline(r, height);
        assert(g.outlines(g.region(r), c));
    }
}

proof fn lemma_roots_set(g: Grid, n: int, i: int)
    requires
        0 <= i < g.roots(n).len(),
    ensures
        g.set(g.roots(n)[i]),
    decreases n,
{
    if n > 0 {
        let before = g.roots(n - 1);
        if i < before.len() {
            lemma_roots_set(g, n - 1, i);
            assert(g.roots(n)[i] == before[i]);
        }
    }
}

} // verus!
