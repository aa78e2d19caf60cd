//! Drawing into a frame, and bitmap files.

use crate::blobs;
use crate::pixels;
use crate::tools::boot_breaker::motion::Roi;
use vstd::prelude::*;

verus! {

/// Byte `k` of a pixel of this colour, which is given as red, green and blue.
pub open spec fn color_byte(color: Seq<u8>, k: int) -> u8 {
    if k == 0 {
        color[2]
    } else if k == 1 {
        color[1]
    } else if k == 2 {
        color[0]
    } else {
        255
    }
}

/// A frame whose pixels at the positions of `shape` have this colour, and are as before elsewhere.
pub open spec fn tint(image: Seq<u8>, width: int, height: int, shape: Set<(int, int)>, color: Seq<u8>) -> Seq<u8> {
    Seq::new(
        image.len(),
        |i: int|
            if i / 4 < width * height && shape.contains(((i / 4) % width, (i / 4) / width)) {
                color_byte(color, i % 4)
            } else {
                image[i]
            },
    )
}

/// Drawing two shapes in one colour draws what they cover together.
pub proof fn lemma_tint_union(
    image: Seq<u8>,
    width: int,
    height: int,
    a: Set<(int, int)>,
    b: Set<(int, int)>,
    color: Seq<u8>,
)
    ensures
        tint(tint(image, width, height, a, color), width, height, b, color) == tint(
            image,
            width,
            height,
            a.union(b),
            color,
        ),
{
    assert(tint(tint(image, width, height, a, color), width, height, b, color) =~= tint(
        image,
        width,
        height,
        a.union(b),
        color,
    ));
}

/// Drawing what lies outside of the frame changes nothing.
pub proof fn lemma_tint_outside(
    image: Seq<u8>,
    width: int,
    height: int,
    a: Set<(int, int)>,
    b: Set<(int, int)>,
    color: Seq<u8>,
)
    requires
        0 < width,
        0 < height,
        forall|x: int, y: int|
            0 <= x < width && 0 <= y < height ==> (#[trigger] a.contains((x, y)) <==> b.contains((x, y))),
    ensures
        tint(image, width, height, a, color) == tint(image, width, height, b, color),
{
    assert forall|i: int| 0 <= i < image.len() implies tint(image, width, height, a, color)[i] == tint(
        image,
        width,
        height,
        b,
        color,
    )[i] by {
        let p = i / 4;
        if p < width * height {
            blobs::lemma_position(p, width, height);
            assert(a.contains((p % width, p / width)) <==> b.contains((p % width, p / width)));
        }
    }
    assert(tint(image, width, height, a, color) =~= tint(image, width, height, b, color));
}

/// A frame with pixels, whose bytes are there and can be numbered in 32 bits.
pub open spec fn canvas(len: int, width: int, height: int) -> bool {
    0 < width && 0 < height && width * height * 4 <= i32::MAX && width * height * 4 <= len
}

/// One position.
pub open spec fn dot(x: int, y: int) -> Set<(int, int)> {
    set![(x, y)]
}

/// Colours one pixel; a position outside of the frame is left alone.
pub fn set_pixel(image: &mut Vec<u8>, width: i32, height: i32, x: i64, y: i64, color: [u8; 3])
    requires
        canvas(old(image)@.len() as int, width as int, height as int),
    ensures
        final(image)@ == tint(old(image)@, width as int, height as int, dot(x as int, y as int), color@),
{
    let ghost before = image@;
    let ghost w = width as int;
    let ghost h = height as int;
    if x < 0 || y < 0 || x >= width as i64 || y >= height as i64 {
        proof {
            assert forall|i: int| 0 <= i < before.len() implies #[trigger] before[i] == tint(
                before,
                w,
                h,
                dot(x as int, y as int),
                color@,
            )[i] by {
                if i / 4 < w * h {
                    blobs::lemma_position(i / 4, w, h);
                }
            }
            assert(before =~= tint(before, w, h, dot(x as int, y as int), color@));
        }
        return ;
    }
    let ghost q = y * w + x;
    proof {
        blobs::lemma_pixel(x as int, y as int, w, h);
        assert(y * w >= 0) by (nonlinear_arith)
            requires
                y >= 0,
                w > 0,
        ;
    }
    let i: usize = ((y * width as i64 + x) * 4) as usize;
    image.set(i, color[2]);
    image.set(i + 1, color[1]);
    image.set(i + 2, color[0]);
    image.set(i + 3, 255);
    proof {
        let want = tint(before, w, h, dot(x as int, y as int), color@);
        assert forall|k: int| 0 <= k < before.len() implies #[trigger] image@[k] == want[k] by {
            let p = k / 4;
            if p < w * h {
                blobs::lemma_position(p, w, h);
            }
            if p == q {
                assert(dot(x as int, y as int).contains((p % w, p / w)));
            } else if p < w * h {
                assert(!dot(x as int, y as int).contains((p % w, p / w)));
            }
        }
        assert(image@ =~= want);
    }
}

/// A number brought into a range.
pub open spec fn clamped(v: int, lo: int, hi: int) -> int {
    if v < lo {
        lo
    } else if v > hi {
        hi
    } else {
        v
    }
}

fn clamp(v: i64, lo: i64, hi: i64) -> (r: i64)
    requires
        lo <= hi,
    ensures
        r == clamped(v as int, lo as int, hi as int),
        lo <= r <= hi,
{
    if v < lo {
        lo
    } else if v > hi {
        hi
    } else {
        v
    }
}

/// The smaller of two numbers.
pub open spec fn smaller(a: int, b: int) -> int {
    if a < b {
        a
    } else {
        b
    }
}

/// The larger of two numbers.
pub open spec fn larger(a: int, b: int) -> int {
    if a > b {
        a
    } else {
        b
    }
}

/// `v` lies between two ends, whichever is the smaller, after these were brought into the range from zero
/// to before `len`.
pub open spec fn spans(v: int, a: int, b: int, len: int) -> bool {
    clamped(smaller(a, b), 0, len - 1) <= v <= clamped(larger(a, b), 0, len - 1)
}

/// A horizontal line: in a row of the frame, between two columns brought into it.
pub open spec fn hline(width: int, height: int, y: int, x0: int, x1: int) -> Set<(int, int)> {
    Set::new(|p: (int, int)| 0 <= y < height && p.1 == y && spans(p.0, x0, x1, width))
}

/// A vertical line: in a column of the frame, between two rows brought into it.
pub open spec fn vline(width: int, height: int, x: int, y0: int, y1: int) -> Set<(int, int)> {
    Set::new(|p: (int, int)| 0 <= x < width && p.0 == x && spans(p.1, y0, y1, height))
}

/// Draws a horizontal line.
pub fn draw_hline(image: &mut Vec<u8>, width: i32, height: i32, y: i64, x0: i64, x1: i64, color: [u8; 3])
    requires
        canvas(old(image)@.len() as int, width as int, height as int),
    ensures
        final(image)@ == tint(
            old(image)@,
            width as int,
            height as int,
            hline(width as int, height as int, y as int, x0 as int, x1 as int),
            color@,
        ),
{
    let ghost before = image@;
    let ghost w = width as int;
    let ghost h = height as int;
    let ghost all = hline(w, h, y as int, x0 as int, x1 as int);
    if y < 0 || y >= height as i64 {
        proof {
            assert(before =~= tint(before, w, h, all, color@));
        }
        return ;
    }
    let (lo, hi) = if x0 < x1 {
        (x0, x1)
    } else {
        (x1, x0)
    };
    let start: i64 = clamp(lo, 0, width as i64 - 1);
    let end: i64 = clamp(hi, 0, width as i64 - 1);
    let mut x: i64 = start;
    proof {
        assert(image@ =~= tint(before, w, h, Set::empty(), color@));
        assert(all.filter(|p: (int, int)| p.0 < start) =~= Set::empty());
    }
    while x <= end
        invariant
            w == width && h == height,
            canvas(before.len() as int, w, h),
            0 <= y < h,
            all == hline(w, h, y as int, x0 as int, x1 as int),
            0 <= start <= x <= end + 1 <= w,
            start == clamped(smaller(x0 as int, x1 as int), 0, w - 1),
            end == clamped(larger(x0 as int, x1 as int), 0, w - 1),
            image@ == tint(before, w, h, all.filter(|p: (int, int)| p.0 < x), color@),
        decreases end + 1 - x,
    {
        let ghost done = all.filter(|p: (int, int)| p.0 < x);
        set_pixel(image, width, height, x, y, color);
        proof {
            lemma_tint_union(before, w, h, done, dot(x as int, y as int), color@);
            assert(done.union(dot(x as int, y as int)) =~= all.filter(|p: (int, int)| p.0 < x + 1));
        }
        x = x + 1;
    }
    proof {
        assert(all.filter(|p: (int, int)| p.0 < x) =~= all);
    }
}

/// Draws a vertical line.
pub fn draw_vline(image: &mut Vec<u8>, width: i32, height: i32, x: i64, y0: i64, y1: i64, color: [u8; 3])
    requires
        canvas(old(image)@.len() as int, width as int, height as int),
    ensures
        final(image)@ == tint(
            old(image)@,
            width as int,
            height as int,
            vline(width as int, height as int, x as int, y0 as int, y1 as int),
            color@,
        ),
{
    let ghost before = image@;
    let ghost w = width as int;
    let ghost h = height as int;
    let ghost all = vline(w, h, x as int, y0 as int, y1 as int);
    if x < 0 || x >= width as i64 {
        proof {
            assert(before =~= tint(before, w, h, all, color@));
        }
        return ;
    }
    let (lo, hi) = if y0 < y1 {
        (y0, y1)
    } else {
        (y1, y0)
    };
    let start: i64 = clamp(lo, 0, height as i64 - 1);
    let end: i64 = clamp(hi, 0, height as i64 - 1);
    let mut y: i64 = start;
    proof {
        assert(image@ =~= tint(before, w, h, Set::empty(), color@));
        assert(all.filter(|p: (int, int)| p.1 < start) =~= Set::empty());
    }
    while y <= end
        invariant
            w == width && h == height,
            canvas(before.len() as int, w, h),
            0 <= x < w,
            all == vline(w, h, x as int, y0 as int, y1 as int),
            0 <= start <= y <= end + 1 <= h,
            start == clamped(smaller(y0 as int, y1 as int), 0, h - 1),
            end == clamped(larger(y0 as int, y1 as int), 0, h - 1),
            image@ == tint(before, w, h, all.filter(|p: (int, int)| p.1 < y), color@),
        decreases end + 1 - y,
    {
        let ghost done = all.filter(|p: (int, int)| p.1 < y);
        set_pixel(image, width, height, x, y, color);
        proof {
            lemma_tint_union(before, w, h, done, dot(x as int, y as int), color@);
            assert(done.union(dot(x as int, y as int)) =~= all.filter(|p: (int, int)| p.1 < y + 1));
        }
        y = y + 1;
    }
    proof {
        assert(all.filter(|p: (int, int)| p.1 < y) =~= all);
    }
}

/// The border of a rectangle whose edges were brought into the frame.
pub open spec fn border(width: int, height: int, r: Roi) -> Set<(int, int)> {
    let x0 = clamped(r.x as int, 0, width - 1);
    let y0 = clamped(r.y as int, 0, height - 1);
    let x1 = clamped(r.x + r.w - 1, 0, width - 1);
    let y1 = clamped(r.y + r.h - 1, 0, height - 1);
    Set::new(
        |p: (int, int)|
            {
                &&& smaller(x0, x1) <= p.0 <= larger(x0, x1)
                &&& smaller(y0, y1) <= p.1 <= larger(y0, y1)
                &&& p.0 == x0 || p.0 == x1 || p.1 == y0 || p.1 == y1
            },
    )
}

/// Draws the border of a rectangle.
pub fn draw_rect(image: &mut Vec<u8>, width: i32, height: i32, rect: Roi, color: [u8; 3])
    requires
        canvas(old(image)@.len() as int, width as int, height as int),
    ensures
        final(image)@ == tint(
            old(image)@,
            width as int,
            height as int,
            border(width as int, height as int, rect),
            color@,
        ),
{
    let ghost before = image@;
    let ghost w = width as int;
    let ghost h = height as int;
    let x0: i64 = clamp(rect.x as i64, 0, width as i64 - 1);
    let y0: i64 = clamp(rect.y as i64, 0, height as i64 - 1);
    let x1: i64 = clamp(rect.x as i64 + rect.w as i64 - 1, 0, width as i64 - 1);
    let y1: i64 = clamp(rect.y as i64 + rect.h as i64 - 1, 0, height as i64 - 1);
    draw_hline(image, width, height, y0, x0, x1, color);
    draw_hline(image, width, height, y1, x0, x1, color);
    draw_vline(image, width, height, x0, y0, y1, color);
    draw_vline(image, width, height, x1, y0, y1, color);
    proof {
        let a = hline(w, h, y0 as int, x0 as int, x1 as int);
        let b = hline(w, h, y1 as int, x0 as int, x1 as int);
        let c = vline(w, h, x0 as int, y0 as int, y1 as int);
        let d = vline(w, h, x1 as int, y0 as int, y1 as int);
        lemma_tint_union(before, w, h, a, b, color@);
        lemma_tint_union(before, w, h, a.union(b), c, color@);
        lemma_tint_union(before, w, h, a.union(b).union(c), d, color@);
        assert(a.union(b).union(c).union(d) =~= border(w, h, rect));
    }
}

/// A cross: a horizontal and a vertical line through a position.
pub open spec fn cross(width: int, height: int, x: int, y: int, radius: int) -> Set<(int, int)> {
    hline(width, height, y, x - radius, x + radius).union(vline(width, height, x, y - radius, y + radius))
}

/// Draws a cross.
pub fn draw_cross(image: &mut Vec<u8>, width: i32, height: i32, x: i32, y: i32, radius: i32, color: [u8; 3])
    requires
        canvas(old(image)@.len() as int, width as int, height as int),
    ensures
        final(image)@ == tint(
            old(image)@,
            width as int,
            height as int,
            cross(width as int, height as int, x as int, y as int, radius as int),
            color@,
        ),
{
    let ghost before = image@;
    let (a, b, r) = (x as i64, y as i64, radius as i64);
    draw_hline(image, width, height, b, a - r, a + r, color);
    draw_vline(image, width, height, a, b - r, b + r, color);
    proof {
        lemma_tint_union(
            before,
            width as int,
            height as int,
            hline(width as int, height as int, y as int, x - radius, x + radius),
            vline(width as int, height as int, x as int, y - radius, y + radius),
            color@,
        );
    }
}

/// The distance of two numbers.
pub open spec fn apart(a: int, b: int) -> int {
    if a < b {
        b - a
    } else {
        a - b
    }
}

/// The number of steps of a line: the longer of its two extents.
pub open spec fn steps(x0: int, y0: int, x1: int, y1: int) -> int {
    larger(apart(x0, x1), apart(y0, y1))
}

/// One coordinate after step `n` of `m` on the way from `a` to `b`: the nearest whole number to the
/// straight line, away from `a` where two are equally near.
pub open spec fn on_way(a: int, b: int, n: int, m: int) -> int {
    let k = if m == 0 {
        0
    } else {
        (2 * n * apart(a, b) + m) / (2 * m)
    };
    if a < b {
        a + k
    } else {
        a - k
    }
}

/// The position of a line after step `n`.
pub open spec fn line_at(x0: int, y0: int, x1: int, y1: int, n: int) -> (int, int) {
    let m = steps(x0, y0, x1, y1);
    (on_way(x0, x1, n, m), on_way(y0, y1, n, m))
}

/// The positions of a line up to step `n`.
pub open spec fn line_to(x0: int, y0: int, x1: int, y1: int, n: int) -> Set<(int, int)> {
    Set::new(|p: (int, int)| exists|k: int| 0 <= k <= n && #[trigger] line_at(x0, y0, x1, y1, k) == p)
}

/// The positions of a line from `(x0, y0)` to `(x1, y1)`.
pub open spec fn line(x0: int, y0: int, x1: int, y1: int) -> Set<(int, int)> {
    line_to(x0, y0, x1, y1, steps(x0, y0, x1, y1))
}

proof fn lemma_share(d: int, n: int, m: int)
    requires
        0 < m,
        0 <= d <= m,
        0 <= n <= m,
    ensures
        ({
            let k = (2 * n * d + m) / (2 * m);
            &&& 0 <= k <= d
            &&& -m <= 2 * (n * d - k * m) < m
            &&& d == m ==> k == n
            &&& n == m ==> k == d
        }),
{
    let top = 2 * n * d + m;
    let k = top / (2 * m);
    assert(n * d >= 0) by (nonlinear_arith)
        requires
            n >= 0,
            d >= 0,
    ;
    assert(2 * n * d == 2 * (n * d)) by (nonlinear_arith);
    vstd::arithmetic::div_mod::lemma_fundamental_div_mod(top, 2 * m);
    assert((2 * m) * k == 2 * (k * m)) by (nonlinear_arith);
    assert(n * d <= m * d) by (nonlinear_arith)
        requires
            n <= m,
            d >= 0,
    ;
    assert(k >= 0) by (nonlinear_arith)
        requires
            k == top / (2 * m),
            top >= 0,
            m > 0,
    ;
    assert(k <= d) by (nonlinear_arith)
        requires
            2 * (k * m) <= top,
            top <= 2 * (m * d) + m,
            m > 0,
    ;
    if d == m {
        assert(k == n) by (nonlinear_arith)
            requires
                d == m,
                -m <= 2 * (n * d - k * m),
                2 * (n * d - k * m) < m,
                m > 0,
        ;
    }
    if n == m {
        assert(k == d) by (nonlinear_arith)
            requires
                n == m,
                -m <= 2 * (n * d - k * m),
                2 * (n * d - k * m) < m,
                m > 0,
        ;
    }
}

/// A line starts and ends where it should, and is nowhere more than half a pixel off the straight one.
pub proof fn lemma_line(x0: int, y0: int, x1: int, y1: int, n: int)
    requires
        0 <= n <= steps(x0, y0, x1, y1),
    ensures
        line_at(x0, y0, x1, y1, 0) == (x0, y0),
        line_at(x0, y0, x1, y1, steps(x0, y0, x1, y1)) == (x1, y1),
        ({
            let m = steps(x0, y0, x1, y1);
            let p = line_at(x0, y0, x1, y1, n);
            &&& -m <= 2 * (n * apart(x0, x1) - apart(x0, p.0) * m) <= m
            &&& -m <= 2 * (n * apart(y0, y1) - apart(y0, p.1) * m) <= m
        }),
{
    let m = steps(x0, y0, x1, y1);
    if m > 0 {
        lemma_share(apart(x0, x1), 0, m);
        lemma_share(apart(y0, y1), 0, m);
        lemma_share(apart(x0, x1), m, m);
        lemma_share(apart(y0, y1), m, m);
        lemma_share(apart(x0, x1), n, m);
        lemma_share(apart(y0, y1), n, m);
        assert(0 * apart(x0, x1) == 0 && 0 * apart(y0, y1) == 0);
        let kx = (2 * 0 * apart(x0, x1) + m) / (2 * m);
        let ky = (2 * 0 * apart(y0, y1) + m) / (2 * m);
        assert(kx == 0) by (nonlinear_arith)
            requires
                -m <= 2 * (0 - kx * m),
                kx >= 0,
                m > 0,
        ;
        assert(ky == 0) by (nonlinear_arith)
            requires
                -m <= 2 * (0 - ky * m),
                ky >= 0,
                m > 0,
        ;
    } else {
        assert(n == 0);
        assert(n * apart(x0, x1) == 0 && n * apart(y0, y1) == 0) by (nonlinear_arith)
            requires
                n == 0,
        ;
        assert(apart(x0, x0) * m == 0 && apart(y0, y0) * m == 0) by (nonlinear_arith)
            requires
                m == 0,
        ;
    }
}

/// The whole number next to a share is fixed by how far it is off.
proof fn lemma_share_unique(d: int, n: int, m: int, k: int)
    requires
        0 < m,
        0 <= d <= m,
        0 <= n <= m,
        -m <= 2 * (n * d - k * m) < m,
    ensures
        k == (2 * n * d + m) / (2 * m),
{
    lemma_share(d, n, m);
    let q = (2 * n * d + m) / (2 * m);
    assert(k == q) by (nonlinear_arith)
        requires
            0 < m,
            -m <= 2 * (n * d - k * m),
            2 * (n * d - k * m) < m,
            -m <= 2 * (n * d - q * m),
            2 * (n * d - q * m) < m,
    ;
}

/// The positions of a line after one more step.
proof fn lemma_line_step(x0: int, y0: int, x1: int, y1: int, n: int)
    requires
        0 <= n,
    ensures
        line_to(x0, y0, x1, y1, n - 1).union(
            dot(line_at(x0, y0, x1, y1, n).0, line_at(x0, y0, x1, y1, n).1),
        ) == line_to(x0, y0, x1, y1, n),
{
    let q = line_at(x0, y0, x1, y1, n);
    let done = line_to(x0, y0, x1, y1, n - 1);
    let more = line_to(x0, y0, x1, y1, n);
    assert forall|p: (int, int)| more.contains(p) implies done.union(dot(q.0, q.1)).contains(p) by {
        let k = choose|k: int| 0 <= k <= n && #[trigger] line_at(x0, y0, x1, y1, k) == p;
        if k < n {
            assert(line_at(x0, y0, x1, y1, k) == p);
        }
    }
    assert forall|p: (int, int)| done.contains(p) implies more.contains(p) by {
        let k = choose|k: int| 0 <= k <= n - 1 && #[trigger] line_at(x0, y0, x1, y1, k) == p;
        assert(line_at(x0, y0, x1, y1, k) == p);
    }
    assert(more.contains(q));
    assert(done.union(dot(q.0, q.1)) =~= more);
}

/// How far the walk along a line has come: `n` steps, `i` of them across and `j` down, with this error.
spec fn walked(dx: int, dy: int, n: int, i: int, j: int, err: int) -> bool {
    let m = larger(dx, dy);
    &&& 0 <= n <= m
    &&& err == dx - dy - (i * dy - j * dx)
    &&& m > 0 ==> {
        &&& -m <= 2 * (n * dx - i * m) < m
        &&& -m <= 2 * (n * dy - j * m) < m
    }
    &&& m == 0 ==> i == 0 && j == 0
}

/// One step of the walk.
proof fn lemma_walk(dx: int, dy: int, n: int, i: int, j: int, err: int)
    requires
        0 <= dx,
        0 <= dy,
        walked(dx, dy, n, i, j, err),
        n < larger(dx, dy),
    ensures
        walked(
            dx,
            dy,
            n + 1,
            if 2 * err >= -dy {
                i + 1
            } else {
                i
            },
            if 2 * err <= dx {
                j + 1
            } else {
                j
            },
            err + if 2 * err >= -dy {
                -dy
            } else {
                0
            } + if 2 * err <= dx {
                dx
            } else {
                0
            },
        ),
{
    let m = larger(dx, dy);
    lemma_share_unique(dx, n, m, i);
    lemma_share_unique(dy, n, m, j);
    lemma_share(dx, n, m);
    lemma_share(dy, n, m);
    assert((i + 1) * dy == i * dy + dy) by (nonlinear_arith);
    assert((j + 1) * dx == j * dx + dx) by (nonlinear_arith);
    assert((n + 1) * dx == n * dx + dx) by (nonlinear_arith);
    assert((n + 1) * dy == n * dy + dy) by (nonlinear_arith);
    assert((i + 1) * m == i * m + m) by (nonlinear_arith);
    assert((j + 1) * m == j * m + m) by (nonlinear_arith);
    if dx >= dy {
        assert(i == n);
        assert(n * dx - i * m == 0);
    } else {
        assert(j == n);
        assert(n * dy - j * m == 0);
    }
}

/// Draws a line. Positions outside of the frame are left alone.
pub fn draw_vector(image: &mut Vec<u8>, width: i32, height: i32, x0: i32, y0: i32, x1: i32, y1: i32, color: [u8; 3])
    requires
        canvas(old(image)@.len() as int, width as int, height as int),
    ensures
        final(image)@ == tint(
            old(image)@,
            width as int,
            height as int,
            line(x0 as int, y0 as int, x1 as int, y1 as int),
            color@,
        ),
{
    let ghost before = image@;
    let ghost w = width as int;
    let ghost h = height as int;
    let (ax, ay, bx, by) = (x0 as i64, y0 as i64, x1 as i64, y1 as i64);
    let dx: i64 = if ax < bx {
        bx - ax
    } else {
        ax - bx
    };
    let dy: i64 = if ay < by {
        by - ay
    } else {
        ay - by
    };
    let sx: i64 = if ax < bx {
        1
    } else {
        -1
    };
    let sy: i64 = if ay < by {
        1
    } else {
        -1
    };
    let ghost m = larger(dx as int, dy as int);
    let mut err: i64 = dx - dy;
    let mut x: i64 = ax;
    let mut y: i64 = ay;
    let ghost mut n: int = 0;
    let ghost mut i: int = 0;
    let ghost mut j: int = 0;
    proof {
        assert(0 * dx == 0 && 0 * dy == 0 && 0 * m == 0);
        assert(image@ =~= tint(before, w, h, Set::empty(), color@));
        lemma_line(ax as int, ay as int, bx as int, by as int, 0);
        assert(line_to(ax as int, ay as int, bx as int, by as int, -1) =~= Set::empty());
    }
    loop
        invariant_except_break
            image@ == tint(before, w, h, line_to(ax as int, ay as int, bx as int, by as int, n - 1), color@),
        invariant
            w == width && h == height,
            canvas(before.len() as int, w, h),
            -0x8000_0000 <= ax <= 0x7fff_ffff,
            -0x8000_0000 <= ay <= 0x7fff_ffff,
            -0x8000_0000 <= bx <= 0x7fff_ffff,
            -0x8000_0000 <= by <= 0x7fff_ffff,
            dx == apart(ax as int, bx as int),
            dy == apart(ay as int, by as int),
            sx == if ax < bx {
                1
            } else {
                -1
            },
            sy == if ay < by {
                1
            } else {
                -1
            },
            m == larger(dx as int, dy as int),
            m == steps(ax as int, ay as int, bx as int, by as int),
            walked(dx as int, dy as int, n, i, j, err as int),
            -0x2_0000_0000 <= err <= 0x2_0000_0000,
            x == if ax < bx {
                ax + i
            } else {
                ax - i
            },
            y == if ay < by {
                ay + j
            } else {
                ay - j
            },
            0 <= i <= dx,
            0 <= j <= dy,
            (x as int, y as int) == line_at(ax as int, ay as int, bx as int, by as int, n),
        ensures
            image@ == tint(before, w, h, line(ax as int, ay as int, bx as int, by as int), color@),
        decreases m - n,
    {
        let ghost done = line_to(ax as int, ay as int, bx as int, by as int, n - 1);
        set_pixel(image, width, height, x, y, color);
        proof {
            lemma_tint_union(before, w, h, done, dot(x as int, y as int), color@);
            lemma_line_step(ax as int, ay as int, bx as int, by as int, n);
            lemma_line(ax as int, ay as int, bx as int, by as int, n);
        }
        if x == bx && y == by {
            proof {
                lemma_walk_end(dx as int, dy as int, n, i, j, err as int);
            }
            break ;
        }
        proof {
            if n == m {
                assert(false);
            }
            lemma_walk(dx as int, dy as int, n, i, j, err as int);
        }
        let e2: i64 = err * 2;
        if e2 >= -dy {
            err = err - dy;
            x = x + sx;
            proof {
                i = i + 1;
            }
        }
        if e2 <= dx {
            err = err + dx;
            y = y + sy;
            proof {
                j = j + 1;
            }
        }
        proof {
            n = n + 1;
            lemma_share(dx as int, n, m);
            lemma_share(dy as int, n, m);
            lemma_share_unique(dx as int, n, m, i);
            lemma_share_unique(dy as int, n, m, j);
            lemma_err_bound(dx as int, dy as int, n, i, j, err as int);
        }
    }
}

/// The walk has reached its end only after all of its steps.
proof fn lemma_walk_end(dx: int, dy: int, n: int, i: int, j: int, err: int)
    requires
        0 <= dx,
        0 <= dy,
        walked(dx, dy, n, i, j, err),
        i == dx,
        j == dy,
    ensures
        n == larger(dx, dy),
{
    let m = larger(dx, dy);
    if m > 0 {
        lemma_share(dx, n, m);
        lemma_share(dy, n, m);
        lemma_share_unique(dx, n, m, i);
        lemma_share_unique(dy, n, m, j);
    }
}

proof fn lemma_err_bound(dx: int, dy: int, n: int, i: int, j: int, err: int)
    requires
        0 <= dx <= 0xffff_ffff,
        0 <= dy <= 0xffff_ffff,
        0 < larger(dx, dy),
        walked(dx, dy, n, i, j, err),
    ensures
        -0x2_0000_0000 <= err <= 0x2_0000_0000,
{
    let m = larger(dx, dy);
    lemma_share(dx, n, m);
    lemma_share(dy, n, m);
    lemma_share_unique(dx, n, m, i);
    lemma_share_unique(dy, n, m, j);
}

/// The bytes of a 32-bit number, the least significant first.
pub open spec fn little_endian(v: int) -> Seq<u8> {
    let u = v % 0x1_0000_0000;
    seq![(u % 0x100) as u8, (u / 0x100 % 0x100) as u8, (u / 0x1_0000 % 0x100) as u8, (u / 0x100_0000 % 0x100) as u8]
}

/// The bytes of a bitmap file: a file header, a bitmap header whose negative height means that rows run
/// from the top, and the frame.
pub open spec fn bmp_file(image: Seq<u8>, width: int, height: int) -> Seq<u8> {
    let bytes = width * height * 4;
    seq![0x42u8, 0x4d] + little_endian(54 + bytes) + little_endian(0) + little_endian(54) + little_endian(40)
        + little_endian(width) + little_endian(-height) + seq![1u8, 0, 32, 0] + little_endian(0) + little_endian(bytes)
        + little_endian(0) + little_endian(0) + little_endian(0) + little_endian(0) + image
}

fn push_number(out: &mut Vec<u8>, v: i64)
    requires
        -0x8000_0000 <= v < 0x1_0000_0000,
    ensures
        final(out)@ == old(out)@ + little_endian(v as int),
{
    let u: u64 = if v >= 0 {
        v as u64
    } else {
        (v + 0x1_0000_0000) as u64
    };
    assert(u == v as int % 0x1_0000_0000);
    out.push((u % 0x100) as u8);
    out.push((u / 0x100 % 0x100) as u8);
    out.push((u / 0x1_0000 % 0x100) as u8);
    out.push((u / 0x100_0000 % 0x100) as u8);
    assert(out@ =~= old(out)@ + little_endian(v as int));
}

/// The bytes of a bitmap file that shows a frame.
pub fn write_bmp(image: &Vec<u8>, width: i32, height: i32) -> (out: Vec<u8>)
    requires
        0 <= width,
        0 <= height,
        width * height * 4 <= i32::MAX,
    ensures
        out@ == bmp_file(image@, width as int, height as int),
{
    proof {
        assert(0 <= width * height) by (nonlinear_arith)
            requires
                0 <= width,
                0 <= height,
        ;
    }
    let bytes: i64 = (width as i64 * height as i64) * 4;
    let mut out: Vec<u8> = Vec::new();
    out.push(0x42);
    out.push(0x4d);
    push_number(&mut out, 54 + bytes);
    push_number(&mut out, 0);
    push_number(&mut out, 54);
    push_number(&mut out, 40);
    push_number(&mut out, width as i64);
    push_number(&mut out, -(height as i64));
    let ghost mid = out@;
    out.push(1);
    out.push(0);
    out.push(32);
    out.push(0);
    assert(out@ =~= mid + seq![1u8, 0, 32, 0]);
    push_number(&mut out, 0);
    push_number(&mut out, bytes);
    push_number(&mut out, 0);
    push_number(&mut out, 0);
    push_number(&mut out, 0);
    push_number(&mut out, 0);
    out.extend_from_slice(image.as_slice());
    assert(out@ =~= bmp_file(image@, width as int, height as int));
    out
}

/// Each pixel of a shape has the colour afterwards, and every other one that it had.
pub proof fn lemma_tinted_pixel(
    image: Seq<u8>,
    width: int,
    height: int,
    shape: Set<(int, int)>,
    color: Seq<u8>,
    x: int,
    y: int,
)
    requires
        canvas(image.len() as int, width, height),
        0 <= x < width,
        0 <= y < height,
    ensures
        pixels::pixel(tint(image, width, height, shape, color), width, x, y) == (if shape.contains((x, y)) {
            (color[0], color[1], color[2])
        } else {
            pixels::pixel(image, width, x, y)
        }),
{
    let p = y * width + x;
    blobs::lemma_pixel(x, y, width, height);
    pixels::lemma_offset(width, x, y);
    assert(pixels::offset(width, x, y) == 4 * p);
    assert(4 * p + 3 < 4 * (width * height));
    assert((4 * p) / 4 == p && (4 * p + 1) / 4 == p && (4 * p + 2) / 4 == p);
}

/// A level or upright line between two places of the frame has exactly the pixels between them, whichever end comes
/// first; one outside of the frame has none.
pub proof fn lemma_straight_lines(width: int, height: int, at: int, a: int, b: int, x: int, y: int)
    requires
        0 < width,
        0 < height,
    ensures
        hline(width, height, at, a, b) == hline(width, height, at, b, a),
        vline(width, height, at, a, b) == vline(width, height, at, b, a),
        0 <= at < height && 0 <= a <= b < width ==> (hline(width, height, at, a, b).contains((x, y)) <==> y == at && a <= x <= b),
        0 <= at < width && 0 <= a <= b < height ==> (vline(width, height, at, a, b).contains((x, y)) <==> x == at && a <= y <= b),
        at < 0 || at >= height ==> !hline(width, height, at, a, b).contains((x, y)),
        at < 0 || at >= width ==> !vline(width, height, at, a, b).contains((x, y)),
        hline(width, height, at, a, b).contains((x, y)) ==> 0 <= x < width && 0 <= y < height,
        vline(width, height, at, a, b).contains((x, y)) ==> 0 <= x < width && 0 <= y < height,
{
    assert(hline(width, height, at, a, b) =~= hline(width, height, at, b, a));
    assert(vline(width, height, at, a, b) =~= vline(width, height, at, b, a));
}

/// The border of a rectangle that lies in the frame: its pixels that are not inside of all four sides.
pub proof fn lemma_border(width: int, height: int, r: Roi, x: int, y: int)
    requires
        0 <= r.x,
        0 <= r.y,
        1 <= r.w,
        1 <= r.h,
        r.x + r.w <= width,
        r.y + r.h <= height,
    ensures
        border(width, height, r).contains((x, y)) <==> r.x <= x < r.x + r.w && r.y <= y < r.y + r.h && !(r.x < x < r.x + r.w - 1
            && r.y < y < r.y + r.h - 1),
{
}

/// A cross that lies in the frame: the pixels in the row or the column of its middle that are at most its radius away.
/// It is the same mirrored and turned.
pub proof fn lemma_cross(width: int, height: int, x: int, y: int, radius: int, dx: int, dy: int)
    requires
        0 <= radius,
        0 <= x - radius,
        x + radius < width,
        0 <= y - radius,
        y + radius < height,
    ensures
        cross(width, height, x, y, radius).contains((x + dx, y + dy)) <==> (dx == 0 || dy == 0) && -radius <= dx <= radius
            && -radius <= dy <= radius,
{
}

/// A drawn line goes on from pixel to pixel, at most one column and one row at a time, and always one in the direction
/// that is longer.
pub proof fn lemma_line_connected(x0: int, y0: int, x1: int, y1: int, n: int)
    requires
        0 <= n < steps(x0, y0, x1, y1),
    ensures
        ({
            let p = line_at(x0, y0, x1, y1, n);
            let q = line_at(x0, y0, x1, y1, n + 1);
            &&& -1 <= q.0 - p.0 <= 1
            &&& -1 <= q.1 - p.1 <= 1
            &&& q != p
        }),
{
    let m = steps(x0, y0, x1, y1);
    let dx = apart(x0, x1);
    let dy = apart(y0, y1);
    lemma_share(dx, n, m);
    lemma_share(dx, n + 1, m);
    lemma_share(dy, n, m);
    lemma_share(dy, n + 1, m);
    lemma_share_step(dx, n, m);
    lemma_share_step(dy, n, m);
}

proof fn lemma_share_step(d: int, n: int, m: int)
    requires
        0 < m,
        0 <= d <= m,
        0 <= n < m,
    ensures
        0 <= (2 * (n + 1) * d + m) / (2 * m) - (2 * n * d + m) / (2 * m) <= 1,
{
    let k = (2 * n * d + m) / (2 * m);
    let j = (2 * (n + 1) * d + m) / (2 * m);
    lemma_share(d, n, m);
    lemma_share(d, n + 1, m);
    assert(0 <= j - k <= 1) by (nonlinear_arith)
        requires
            0 < m,
            0 <= d <= m,
            -m <= 2 * (n * d - k * m),
            2 * (n * d - k * m) < m,
            -m <= 2 * ((n + 1) * d - j * m),
            2 * ((n + 1) * d - j * m) < m,
    ;
}

/// A number can be told from its four bytes.
pub proof fn lemma_little_endian(v: int)
    requires
        0 <= v < 0x1_0000_0000,
    ensures
        ({
            let b = little_endian(v);
            &&& b.len() == 4
            &&& b[0] + 0x100 * b[1] + 0x1_0000 * b[2] + 0x100_0000 * b[3] == v
            &&& v > 0 ==> little_endian(-v) == little_endian(0x1_0000_0000 - v)
        }),
{
    if v > 0 {
        assert((-v) % 0x1_0000_0000 == 0x1_0000_0000 - v);
    }
}

/// A bitmap file has a header of 54 bytes and then the frame.
pub proof fn lemma_bmp_file(image: Seq<u8>, width: int, height: int)
    ensures
        bmp_file(image, width, height).len() == 54 + image.len(),
        bmp_file(image, width, height).skip(54) == image,
        bmp_file(image, width, height).take(2) == seq![66u8, 77u8],
        bmp_file(image, width, height).subrange(2, 6) == little_endian(54 + width * height * 4),
        bmp_file(image, width, height).subrange(10, 14) == little_endian(54),
        bmp_file(image, width, height).subrange(18, 22) == little_endian(width),
        bmp_file(image, width, height).subrange(22, 26) == little_endian(-height),
{
    let f = bmp_file(image, width, height);
    assert(f.skip(54) =~= image);
    assert(f.take(2) =~= seq![66u8, 77u8]);
    assert(f.subrange(2, 6) =~= little_endian(54 + width * height * 4));
    assert(f.subrange(10, 14) =~= little_endian(54));
    assert(f.subrange(18, 22) =~= little_endian(width));
    assert(f.subrange(22, 26) =~= little_endian(-height));
}

} // verus!
