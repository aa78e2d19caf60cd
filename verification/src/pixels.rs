//! Frames of 32-bit pixels, and the extents of sets of positions in them.
//!
//! A frame is a sequence of bytes: row after row from the top, four bytes for each pixel, in the
//! order blue, green, red and one more that is not looked at.

use vstd::prelude::*;

verus! {

/// The bytes of the rows up to `y` are there and can be numbered in 32 bits.
pub open spec fn row_fits(len: int, width: int, y: int) -> bool {
    0 <= y && (y + 1) * width * 4 <= i32::MAX && (y + 1) * width * 4 <= len
}

/// The bytes of a frame of this size are there and can be numbered in 32 bits. Nothing is asked of a
/// frame without pixels.
pub open spec fn frame_fits(len: int, width: int, height: int) -> bool {
    0 < width && 0 < height ==> width * height * 4 <= i32::MAX && width * height * 4 <= len
}

/// Where the bytes of a pixel start.
pub open spec fn offset(width: int, x: int, y: int) -> int {
    (y * width + x) * 4
}

/// The red, green and blue values of a pixel.
pub open spec fn pixel(frame: Seq<u8>, width: int, x: int, y: int) -> (u8, u8, u8) {
    let i = offset(width, x, y);
    (frame[i + 2], frame[i + 1], frame[i])
}

/// Every row of a frame fits.
pub proof fn lemma_row_fits(len: int, width: int, height: int, y: int)
    requires
        frame_fits(len, width, height),
        0 < width,
        0 <= y < height,
    ensures
        row_fits(len, width, y),
{
    assert((y + 1) * width * 4 <= width * height * 4) by (nonlinear_arith)
        requires
            0 < width,
            0 <= y < height,
    ;
}

/// The bytes of a pixel lie within the rows up to its own.
pub proof fn lemma_offset(width: int, x: int, y: int)
    requires
        0 <= x < width,
        0 <= y,
    ensures
        0 <= y * width <= y * width + x,
        0 <= offset(width, x, y),
        offset(width, x, y) + 4 <= (y + 1) * width * 4,
{
    assert((y + 1) * width == y * width + width) by (nonlinear_arith);
    assert(0 <= y * width) by (nonlinear_arith)
        requires
            0 <= y,
            0 < width,
    ;
}

/// Where the bytes of a pixel start.
pub fn idx(width: i32, x: i32, y: i32) -> (i: usize)
    requires
        0 <= x < width,
        0 <= y,
        (y + 1) * width * 4 <= i32::MAX,
    ensures
        i == offset(width as int, x as int, y as int),
{
    proof {
        lemma_offset(width as int, x as int, y as int);
    }
    ((y * width + x) * 4) as usize
}

/// The red, green and blue values of a pixel.
pub fn pixel_at(frame: &[u8], width: i32, x: i32, y: i32) -> (p: (u8, u8, u8))
    requires
        0 <= x < width,
        row_fits(frame@.len() as int, width as int, y as int),
    ensures
        p == pixel(frame@, width as int, x as int, y as int),
{
    proof {
        lemma_offset(width as int, x as int, y as int);
    }
    let i: usize = idx(width, x, y);
    (frame[i + 2], frame[i + 1], frame[i])
}

/// `m` is the least number of `s`.
pub open spec fn is_least(s: Set<int>, m: int) -> bool {
    s.contains(m) && forall|x: int| #[trigger] s.contains(x) ==> m <= x
}

/// `m` is the greatest number of `s`.
pub open spec fn is_greatest(s: Set<int>, m: int) -> bool {
    s.contains(m) && forall|x: int| #[trigger] s.contains(x) ==> x <= m
}

/// The least number of a set.
pub open spec fn least(s: Set<int>) -> int {
    choose|m: int| is_least(s, m)
}

/// The greatest number of a set.
pub open spec fn greatest(s: Set<int>) -> int {
    choose|m: int| is_greatest(s, m)
}

/// A set has one least number.
pub proof fn lemma_least(s: Set<int>, m: int)
    requires
        is_least(s, m),
    ensures
        least(s) == m,
{
    let n = least(s);
    assert(is_least(s, n));
    assert(s.contains(n) && s.contains(m));
}

/// A set has one greatest number.
pub proof fn lemma_greatest(s: Set<int>, m: int)
    requires
        is_greatest(s, m),
    ensures
        greatest(s) == m,
{
    let n = greatest(s);
    assert(is_greatest(s, n));
    assert(s.contains(n) && s.contains(m));
}

/// The columns in which a set has positions.
pub open spec fn columns(s: Set<(int, int)>) -> Set<int> {
    Set::new(|x: int| exists|y: int| #[trigger] s.contains((x, y)))
}

/// The rows in which a set has positions.
pub open spec fn rows(s: Set<(int, int)>) -> Set<int> {
    Set::new(|y: int| exists|x: int| #[trigger] s.contains((x, y)))
}

/// The box from `(x0, y0)` to `(x1, y1)`, edges included, is the least that holds `s`.
pub open spec fn encloses(s: Set<(int, int)>, x0: int, y0: int, x1: int, y1: int) -> bool {
    &&& is_least(columns(s), x0)
    &&& is_least(rows(s), y0)
    &&& is_greatest(columns(s), x1)
    &&& is_greatest(rows(s), y1)
}

/// The enclosing box after one more position.
pub proof fn lemma_encloses_step(s: Set<(int, int)>, x0: int, y0: int, x1: int, y1: int, x: int, y: int)
    requires
        encloses(s, x0, y0, x1, y1),
    ensures
        encloses(
            s.insert((x, y)),
            if x < x0 {
                x
            } else {
                x0
            },
            if y < y0 {
                y
            } else {
                y0
            },
            if x > x1 {
                x
            } else {
                x1
            },
            if y > y1 {
                y
            } else {
                y1
            },
        ),
{
    let t = s.insert((x, y));
    assert(t.contains((x, y)));
    assert(columns(t).contains(x));
    assert(rows(t).contains(y));
    assert forall|c: int| #[trigger] columns(t).contains(c) implies c == x || columns(s).contains(c) by {
        let r = choose|r: int| #[trigger] t.contains((c, r));
        if c != x {
            assert(s.contains((c, r)));
        }
    }
    assert forall|r: int| #[trigger] rows(t).contains(r) implies r == y || rows(s).contains(r) by {
        let c = choose|c: int| #[trigger] t.contains((c, r));
        if r != y {
            assert(s.contains((c, r)));
        }
    }
    assert forall|c: int| columns(s).contains(c) implies #[trigger] columns(t).contains(c) by {
        let r = choose|r: int| #[trigger] s.contains((c, r));
        assert(t.contains((c, r)));
    }
    assert forall|r: int| rows(s).contains(r) implies #[trigger] rows(t).contains(r) by {
        let c = choose|c: int| #[trigger] s.contains((c, r));
        assert(t.contains((c, r)));
    }
}

/// The enclosing box of a single position.
pub proof fn lemma_encloses_one(x: int, y: int)
    ensures
        encloses(Set::empty().insert((x, y)), x, y, x, y),
{
    let t = Set::<(int, int)>::empty().insert((x, y));
    assert(t.contains((x, y)));
    assert(columns(t).contains(x));
    assert(rows(t).contains(y));
}

/// Every pixel has bytes of its own.
pub proof fn lemma_pixels_apart(width: int, x: int, y: int, other_x: int, other_y: int)
    requires
        0 <= x < width,
        0 <= other_x < width,
        0 <= y,
        0 <= other_y,
        x != other_x || y != other_y,
    ensures
        offset(width, x, y) + 4 <= offset(width, other_x, other_y) || offset(width, other_x, other_y) + 4 <= offset(width, x, y),
{
    if y < other_y {
        assert(y * width + width <= other_y * width) by (nonlinear_arith)
            requires
                y + 1 <= other_y,
                0 < width,
        ;
    } else if other_y < y {
        assert(other_y * width + width <= y * width) by (nonlinear_arith)
            requires
                other_y + 1 <= y,
                0 < width,
        ;
    }
}

/// A step to the right leads to the next four bytes, a step down to those one row on.
pub proof fn lemma_pixel_steps(frame: Seq<u8>, width: int, x: int, y: int)
    ensures
        offset(width, 0, 0) == 0,
        offset(width, x + 1, y) == offset(width, x, y) + 4,
        offset(width, x, y + 1) == offset(width, x, y) + 4 * width,
        pixel(frame, width, 0, 0) == (frame[2], frame[1], frame[0]),
{
    assert((y + 1) * width == y * width + width) by (nonlinear_arith);
    assert(0 * width == 0) by (nonlinear_arith);
}

} // verus!
