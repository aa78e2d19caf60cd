//! Cutting text lines out of a frame.
//!
//! A line is found from one letter in the colour of the next letter to type: letters of about the
//! same size and height, left and right of it, are taken in as long as the gaps stay small. The
//! line is enlarged and drawn black on white.

use crate::blobs;
use crate::blobs::Component;
use crate::order;
use crate::single;
use crate::tools::automation_attack::color::ColorAnalyzer;
use vstd::prelude::*;

verus! {

/// 0.45 in single precision, in units of 2^-52.
pub const SHORTEST: u128 = 2026619778629632;

/// 1.65 in single precision, in units of 2^-52.
pub const TALLEST: u128 = 7430939277787136;

/// 0.55 in single precision, in units of 2^-52.
pub const FARTHEST: u128 = 2476979848740864;

/// 1.15 in single precision, in units of 2^-52.
pub const WIDEST_GAP: u128 = 5179139464101888;

/// One text line, enlarged, black on white.
pub struct TextImage {
    pub width: usize,
    pub height: usize,
    pub pixels: Vec<u8>,
    /// The column of the middle of the next letter, a single-precision value.
    pub current_center_x: i64,
    /// The part of the frame that is shown, as left, top, right and bottom, all inclusive.
    pub source_bounds: (usize, usize, usize, usize),
}

/// What a text image shows.
pub struct ImageView {
    pub width: int,
    pub height: int,
    pub pixels: Seq<u8>,
    pub center: int,
    pub bounds: (int, int, int, int),
}

impl View for TextImage {
    type V = ImageView;

    open spec fn view(&self) -> ImageView {
        ImageView {
            width: self.width as int,
            height: self.height as int,
            pixels: self.pixels@,
            center: self.current_center_x as int,
            bounds: (
                self.source_bounds.0 as int,
                self.source_bounds.1 as int,
                self.source_bounds.2 as int,
                self.source_bounds.3 as int,
            ),
        }
    }
}

impl ImageView {
    pub open spec fn wf(self) -> bool {
        &&& 0 <= self.width <= 0x10_0000_0000
        &&& 0 <= self.height <= 0x10_0000_0000
        &&& self.pixels.len() == self.width * self.height
        &&& 0 <= self.bounds.0 <= self.bounds.2 < usize::MAX
        &&& 0 <= self.bounds.1 <= self.bounds.3 < usize::MAX
    }
}

/// Do two inclusive rectangles share a pixel?
pub open spec fn overlap(a: (int, int, int, int), b: (int, int, int, int)) -> bool {
    &&& a.0 <= b.2 && b.0 <= a.2
    &&& a.1 <= b.3 && b.1 <= a.3
}

pub fn rects_overlap(a: (usize, usize, usize, usize), b: (usize, usize, usize, usize)) -> (hit: bool)
    ensures
        hit == overlap(
            (a.0 as int, a.1 as int, a.2 as int, a.3 as int),
            (b.0 as int, b.1 as int, b.2 as int, b.3 as int),
        ),
{
    let x_overlap: bool = a.0 <= b.2 && b.0 <= a.2;
    let y_overlap: bool = a.1 <= b.3 && b.1 <= a.3;
    x_overlap && y_overlap
}

/// Two inclusive rectangles share a pixel exactly when some pixel lies in both.
pub proof fn lemma_overlap_shares_pixel(a: (int, int, int, int), b: (int, int, int, int))
    requires
        a.0 <= a.2,
        a.1 <= a.3,
        b.0 <= b.2,
        b.1 <= b.3,
    ensures
        overlap(a, b) <==> exists|x: int, y: int| #[trigger] in_rect(a, x, y) && in_rect(b, x, y),
{
    if overlap(a, b) {
        let x = if a.0 >= b.0 {
            a.0
        } else {
            b.0
        };
        let y = if a.1 >= b.1 {
            a.1
        } else {
            b.1
        };
        assert(in_rect(a, x, y) && in_rect(b, x, y));
    }
}

/// The pixel lies in the inclusive rectangle.
pub open spec fn in_rect(r: (int, int, int, int), x: int, y: int) -> bool {
    r.0 <= x <= r.2 && r.1 <= y <= r.3
}

/// The middle column of a box, in units of 2^-52 of a pixel.
pub open spec fn middle_x(c: Component) -> nat {
    single::whole((c.x0 + c.x1) as nat) * single::HALF as nat
}

/// The middle row of a box, in units of 2^-52 of a pixel.
pub open spec fn middle_y(c: Component) -> nat {
    single::whole((c.y0 + c.y1) as nat) * single::HALF as nat
}

/// A box fits on the line of `current`: its height is 45 % to 165 % of it, and its middle row is
/// off by at most 55 % of it.
pub open spec fn on_line(current: Component, c: Component) -> bool {
    let tall = current.spec_height() as nat;
    let h = single::whole(c.spec_height() as nat) * single::ONE as nat;
    &&& h >= single::scaled(tall, SHORTEST as nat)
    &&& h <= single::scaled(tall, TALLEST as nat)
    &&& single::distance(middle_y(c), middle_y(current)) <= single::scaled(tall, FARTHEST as nat)
}

/// The boxes on the line of `current`, from left to right.
pub open spec fn line_of(combined: Seq<u8>, width: int, current: Component) -> Seq<Component> {
    order::sorted_by(
        blobs::component_list(combined, width, 4).filter(|c: Component| on_line(current, c)),
        |c: Component| c.x0 as int,
    )
}

/// The first position that holds the least value.
pub open spec fn first_least(s: Seq<nat>) -> int
    decreases s.len(),
{
    if s.len() <= 1 {
        0
    } else {
        let m = first_least(s.drop_last());
        if s.last() < s[m] {
            s.len() - 1
        } else {
            m
        }
    }
}

/// `first_least` is what its name says.
pub proof fn lemma_first_least(s: Seq<nat>)
    requires
        s.len() > 0,
    ensures
        0 <= first_least(s) < s.len(),
        forall|i: int| 0 <= i < s.len() ==> s[first_least(s)] <= #[trigger] s[i],
        forall|i: int| 0 <= i < first_least(s) ==> s[first_least(s)] < #[trigger] s[i],
    decreases s.len(),
{
    if s.len() > 1 {
        let t = s.drop_last();
        lemma_first_least(t);
        assert forall|i: int| 0 <= i < s.len() implies s[first_least(s)] <= #[trigger] s[i] by {
            if i < t.len() {
                assert(t[i] == s[i]);
            }
        }
        assert forall|i: int| 0 <= i < first_least(s) implies s[first_least(s)] < #[trigger] s[i] by {
            assert(t[i] == s[i]);
        }
    }
}

/// How far the middle columns of the boxes are from that of `current`.
pub open spec fn offsets(line: Seq<Component>, current: Component) -> Seq<nat> {
    line.map_values(|c: Component| single::distance(middle_x(c), middle_x(current)))
}

/// The widest gap between two letters of a line, in pixels.
pub open spec fn gap_limit(current: Component) -> nat {
    let g = single::floor(single::scaled(current.spec_height() as nat, WIDEST_GAP as nat));
    if g < 8 {
        8
    } else {
        g
    }
}

/// The number of columns between two boxes; zero where they touch or overlap.
pub open spec fn gap_between(a: Component, b: Component) -> int {
    if b.x0 > a.x1 + 1 {
        b.x0 - a.x1 - 1
    } else {
        0
    }
}

/// The leftmost position that is reached from `i` over small gaps.
pub open spec fn reach_left(line: Seq<Component>, i: int, limit: int) -> int
    decreases i,
{
    if i > 0 && gap_between(line[i - 1], line[i]) <= limit {
        reach_left(line, i - 1, limit)
    } else {
        i
    }
}

/// The rightmost position that is reached from `i` over small gaps.
pub open spec fn reach_right(line: Seq<Component>, i: int, limit: int) -> int
    decreases line.len() - i,
{
    if i + 1 < line.len() && gap_between(line[i], line[i + 1]) <= limit {
        reach_right(line, i + 1, limit)
    } else {
        i
    }
}

/// The boxes that make up the text around `current`, where `line` is not empty.
pub open spec fn run_of(line: Seq<Component>, current: Component) -> Seq<Component> {
    let anchor = first_least(offsets(line, current));
    let limit = gap_limit(current) as int;
    line.subrange(reach_left(line, anchor, limit), reach_right(line, anchor, limit) + 1)
}

/// The box around all of `run`, with three pixels added on each side where the frame has them.
pub open spec fn padded(run: Seq<Component>, width: int, height: int) -> (int, int, int, int) {
    let x0 = run.map_values(|c: Component| c.x0 as int).min();
    let y0 = run.map_values(|c: Component| c.y0 as int).min();
    let x1 = run.map_values(|c: Component| c.x1 as int).max();
    let y1 = run.map_values(|c: Component| c.y1 as int).max();
    (
        if x0 < 3 {
            0
        } else {
            x0 - 3
        },
        if y0 < 3 {
            0
        } else {
            y0 - 3
        },
        if x1 + 3 < width - 1 {
            x1 + 3
        } else {
            width - 1
        },
        if y1 + 3 < height - 1 {
            y1 + 3
        } else {
            height - 1
        },
    )
}

/// Pixel (`x`, `y`) of the enlarged picture of the part `b` of a frame: four picture pixels for
/// each pixel, with a white margin of sixteen all round.
pub open spec fn enlarged_at(combined: Seq<u8>, width: int, b: (int, int, int, int), x: int, y: int) -> u8 {
    let sx = b.0 + (x - 16) / 4;
    let sy = b.1 + (y - 16) / 4;
    if x >= 16 && y >= 16 && sx <= b.2 && sy <= b.3 && combined[sy * width + sx] != 0 {
        0u8
    } else {
        255u8
    }
}

/// The column of a letter's middle in the enlarged picture, in single precision, for the sum of the letter's
/// edges and the left edge of the part that is shown. The distance from that edge is first taken in half
/// columns.
pub open spec fn enlarged_center(edges: int, left: int) -> int {
    single::signed(16 + 2 * single::signed(single::whole(edges as nat) - 2 * single::whole(left as nat)))
}

fn center_of(edges: u64, left: u64) -> (center: i64)
    requires
        edges < 0x1_0000_0000,
        left < 0x8000_0000,
    ensures
        center == enlarged_center(edges as int, left as int),
{
    let e: i128 = single::round_ratio(edges as u128, 1) as i128;
    let l: i128 = single::round_ratio(left as u128, 1) as i128;
    proof {
        single::lemma_nearest_size(edges as nat);
        single::lemma_nearest_size(left as nat);
        let v = e - 2 * l;
        single::lemma_nearest_size(
            if v >= 0 {
                v as nat
            } else {
                (-v) as nat
            },
        );
        let c = 16 + 2 * single::signed(v as int);
        single::lemma_nearest_size(
            if c >= 0 {
                c as nat
            } else {
                (-c) as nat
            },
        );
    }
    let half_columns: i128 = single::round_signed(e - 2 * l);
    single::round_signed(16 + 2 * half_columns) as i64
}

/// The enlarged picture of the part `b` of a frame.
pub open spec fn enlarged(combined: Seq<u8>, width: int, b: (int, int, int, int), current: Component) -> ImageView {
    let w = (b.2 - b.0 + 1) * 4 + 32;
    let h = (b.3 - b.1 + 1) * 4 + 32;
    ImageView {
        width: w,
        height: h,
        pixels: Seq::new((w * h) as nat, |i: int| enlarged_at(combined, width, b, i % w, i / w)),
        center: enlarged_center(current.x0 + current.x1, b.0),
        bounds: b,
    }
}

/// The text image around the letter `current`.
pub open spec fn image_around(combined: Seq<u8>, width: int, height: int, current: Component) -> Option<ImageView> {
    let line = line_of(combined, width, current);
    if current.spec_height() < 8 || current.spec_width() < 2 || line.len() == 0 {
        None
    } else {
        Some(enlarged(combined, width, padded(run_of(line, current), width, height), current))
    }
}

/// A region is large enough for a letter that is to be typed next.
pub open spec fn letter_sized(c: Component) -> bool {
    c.area >= 12 && c.spec_height() >= 8 && c.spec_width() >= 2
}

/// The regions in the colour of the next letter, from top to bottom, then from left to right.
pub open spec fn current_letters(orange: Seq<u8>, width: int) -> Seq<Component> {
    order::sorted_by(
        blobs::component_list(orange, width, 5).filter(|c: Component| letter_sized(c)),
        |c: Component| blobs::corner_key(c),
    )
}

/// The text images around `letters`, without those that overlap an earlier one.
pub open spec fn images_around(
    combined: Seq<u8>,
    width: int,
    height: int,
    letters: Seq<Component>,
) -> Seq<ImageView>
    decreases letters.len(),
{
    if letters.len() == 0 {
        Seq::empty()
    } else {
        let before = images_around(combined, width, height, letters.drop_last());
        match image_around(combined, width, height, letters.last()) {
            Some(image) => if exists|i: int| 0 <= i < before.len() && overlap((#[trigger] before[i]).bounds, image.bounds) {
                before
            } else {
                before.push(image)
            },
            None => before,
        }
    }
}

/// No two of the text images of a frame overlap.
pub proof fn lemma_images_disjoint(combined: Seq<u8>, width: int, height: int, letters: Seq<Component>)
    ensures
        ({
            let images = images_around(combined, width, height, letters);
            forall|i: int, j: int|
                0 <= i < j < images.len() ==> !overlap((#[trigger] images[i]).bounds, (#[trigger] images[j]).bounds)
        }),
    decreases letters.len(),
{
    if letters.len() > 0 {
        lemma_images_disjoint(combined, width, height, letters.drop_last());
        let before = images_around(combined, width, height, letters.drop_last());
        let images = images_around(combined, width, height, letters);
        assert forall|i: int, j: int| 0 <= i < j < images.len() implies !overlap(
            (#[trigger] images[i]).bounds,
            (#[trigger] images[j]).bounds,
        ) by {
            assert(images[i] == before[i]);
            if j < before.len() {
                assert(images[j] == before[j]);
            }
        }
    }
}

/// The widest gap in a line is 115 % of the current letter's height, and eight pixels where that is less: it
/// grows with the letter and is never less than the letter is high.
pub proof fn lemma_gap_limit(current: Component)
    requires
        current.y0 <= current.y1 < 0x100_0000,
    ensures
        gap_limit(current) >= 8,
        gap_limit(current) >= current.y1 - current.y0 + 1,
        gap_limit(current) > 8 ==> 1_000_000 * gap_limit(current) <= 1_150_001 * (current.y1 - current.y0 + 1),
        10_000_000 * (gap_limit(current) + 1) > 11_499_997 * (current.y1 - current.y0 + 1),
{
    let h = current.spec_height() as nat;
    let r = WIDEST_GAP as nat;
    let v = single::scaled(h, r);
    single::lemma_scaled_close(h, r);
    assert(h * r == 5179139464101888 * h);
    let g = single::floor(v);
    assert(g * 4503599627370496 <= v < (g + 1) * 4503599627370496);
}

/// A taller letter never has a narrower widest gap.
pub proof fn lemma_gap_limit_grows(a: Component, b: Component)
    requires
        a.y0 <= a.y1,
        b.y0 <= b.y1,
        a.y1 - a.y0 <= b.y1 - b.y0,
    ensures
        gap_limit(a) <= gap_limit(b),
{
    let v = single::scaled(a.spec_height() as nat, WIDEST_GAP as nat);
    let w = single::scaled(b.spec_height() as nat, WIDEST_GAP as nat);
    single::lemma_scaled_order(a.spec_height() as nat, b.spec_height() as nat, WIDEST_GAP as nat, WIDEST_GAP as nat);
    vstd::arithmetic::div_mod::lemma_div_is_ordered(v as int, w as int, single::ONE as int);
}

proof fn lemma_reach_left(line: Seq<Component>, i: int, limit: int)
    requires
        0 <= i < line.len(),
        0 <= limit,
    ensures
        ({
            let lo = reach_left(line, i, limit);
            &&& 0 <= lo <= i
            &&& forall|k: int, m: int|
                lo <= k && m == k + 1 && m <= i ==> (#[trigger] line[m]).x0 - (#[trigger] line[k]).x1 - 1 <= limit
            &&& lo > 0 ==> line[lo].x0 - line[lo - 1].x1 - 1 > limit
        }),
    decreases i,
{
    if i > 0 && gap_between(line[i - 1], line[i]) <= limit {
        lemma_reach_left(line, i - 1, limit);
    }
}

proof fn lemma_reach_right(line: Seq<Component>, i: int, limit: int)
    requires
        0 <= i < line.len(),
        0 <= limit,
    ensures
        ({
            let hi = reach_right(line, i, limit);
            &&& i <= hi < line.len()
            &&& forall|k: int, m: int|
                i <= k && m == k + 1 && m <= hi ==> (#[trigger] line[m]).x0 - (#[trigger] line[k]).x1 - 1 <= limit
            &&& hi + 1 < line.len() ==> line[hi + 1].x0 - line[hi].x1 - 1 > limit
        }),
    decreases line.len() - i,
{
    if i + 1 < line.len() && gap_between(line[i], line[i + 1]) <= limit {
        lemma_reach_right(line, i + 1, limit);
    }
}

/// The positions from `lo` up to `hi` are one stretch of text on the line of `current`. Two neighbouring boxes
/// in it are at most eight columns or 115 % of the letter's height apart; the boxes next to it are farther off
/// than eight columns, and than the letter is high.
pub open spec fn text_stretch(line: Seq<Component>, current: Component, lo: int, hi: int) -> bool {
    let tall = current.y1 - current.y0 + 1;
    &&& 0 <= lo < hi <= line.len()
    &&& forall|k: int, m: int|
        lo <= k && m == k + 1 && m < hi ==> {
            ||| (#[trigger] line[m]).x0 - (#[trigger] line[k]).x1 - 1 <= 8
            ||| 1_000_000 * (line[m].x0 - line[k].x1 - 1) <= 1_150_001 * tall
        }
    &&& lo > 0 ==> line[lo].x0 - line[lo - 1].x1 - 1 > 8
    &&& lo > 0 ==> line[lo].x0 - line[lo - 1].x1 - 1 > tall
    &&& lo > 0 ==> 10_000_000 * (line[lo].x0 - line[lo - 1].x1 - 1) > 11_499_997 * tall
    &&& hi < line.len() ==> line[hi].x0 - line[hi - 1].x1 - 1 > 8
    &&& hi < line.len() ==> line[hi].x0 - line[hi - 1].x1 - 1 > tall
    &&& hi < line.len() ==> 10_000_000 * (line[hi].x0 - line[hi - 1].x1 - 1) > 11_499_997 * tall
}

/// The text around a letter is the stretch of its line with the box whose middle column is nearest to the
/// letter's.
pub proof fn lemma_run(line: Seq<Component>, current: Component) -> (r: (int, int, int))
    requires
        line.len() > 0,
        current.y0 <= current.y1 < 0x100_0000,
    ensures
        text_stretch(line, current, r.0, r.2),
        run_of(line, current) == line.subrange(r.0, r.2),
        r.0 <= r.1 < r.2,
        forall|k: int|
            0 <= k < line.len() ==> single::distance(middle_x(line[r.1]), middle_x(current)) <= single::distance(
                middle_x(#[trigger] line[k]),
                middle_x(current),
            ),
{
    let d = offsets(line, current);
    lemma_first_least(d);
    let a = first_least(d);
    let limit = gap_limit(current) as int;
    lemma_gap_limit(current);
    lemma_reach_left(line, a, limit);
    lemma_reach_right(line, a, limit);
    let lo = reach_left(line, a, limit);
    let hi = reach_right(line, a, limit) + 1;
    assert forall|k: int| 0 <= k < line.len() implies single::distance(middle_x(line[a]), middle_x(current))
        <= single::distance(middle_x(#[trigger] line[k]), middle_x(current)) by {
        assert(d[a] <= d[k]);
    }
    assert forall|k: int, m: int| lo <= k && m == k + 1 && m < hi implies {
        ||| (#[trigger] line[m]).x0 - (#[trigger] line[k]).x1 - 1 <= 8
        ||| 1_000_000 * (line[m].x0 - line[k].x1 - 1) <= 1_150_001 * (current.y1 - current.y0 + 1)
    } by {
        assert(line[m].x0 - line[k].x1 - 1 <= limit);
    }
    (lo, a, hi)
}

/// The middle columns of two boxes are half as far apart as the sums of their edges.
proof fn lemma_middle_apart(a: Component, b: Component)
    requires
        a.x0 + a.x1 < 0x100_0000,
        b.x0 + b.x1 < 0x100_0000,
    ensures
        ({
            let d = (a.x0 + a.x1) - (b.x0 + b.x1);
            single::distance(middle_x(a), middle_x(b)) == 2251799813685248 * (if d >= 0 {
                d
            } else {
                -d
            })
        }),
{
    single::lemma_whole_exact((a.x0 + a.x1) as nat);
    single::lemma_whole_exact((b.x0 + b.x1) as nat);
    let d = (a.x0 + a.x1) - (b.x0 + b.x1);
    if d >= 0 {
        single::lemma_whole_value(d as nat);
    } else {
        single::lemma_whole_value((-d) as nat);
    }
}

/// The text around a letter has a box whose middle column is as near to the letter's as that of any box of the line,
/// where middles are taken between the edges.
pub proof fn lemma_run_nearest(line: Seq<Component>, current: Component) -> (a: int)
    requires
        line.len() > 0,
        current.y0 <= current.y1 < 0x100_0000,
        current.x0 + current.x1 < 0x100_0000,
        forall|k: int| 0 <= k < line.len() ==> (#[trigger] line[k]).x0 + line[k].x1 < 0x100_0000,
    ensures
        0 <= a < line.len(),
        run_of(line, current).contains(line[a]),
        forall|k: int| 0 <= k < line.len() ==> {
            let here = (line[a].x0 + line[a].x1) - (current.x0 + current.x1);
            let there = ((#[trigger] line[k]).x0 + line[k].x1) - (current.x0 + current.x1);
            -there <= here <= there || there <= here <= -there
        },
{
    let (lo, a, hi) = lemma_run(line, current);
    assert(line.subrange(lo, hi)[a - lo] == line[a]);
    lemma_middle_apart(line[a], current);
    assert forall|k: int| 0 <= k < line.len() implies {
        let here = (line[a].x0 + line[a].x1) - (current.x0 + current.x1);
        let there = ((#[trigger] line[k]).x0 + line[k].x1) - (current.x0 + current.x1);
        -there <= here <= there || there <= here <= -there
    } by {
        lemma_middle_apart(line[k], current);
    }
    a
}

/// Two neighbouring boxes of a line that are no farther apart than the current letter is high, or than eight
/// columns, are both in the text around it or both outside.
pub proof fn lemma_close_letters_stay_together(line: Seq<Component>, current: Component, k: int)
    requires
        0 <= k,
        k + 1 < line.len(),
        current.y0 <= current.y1 < 0x100_0000,
        forall|i: int, j: int| 0 <= i < j < line.len() ==> #[trigger] line[i] != #[trigger] line[j],
        line[k + 1].x0 - line[k].x1 - 1 <= 8 || line[k + 1].x0 - line[k].x1 - 1 <= current.y1 - current.y0 + 1,
    ensures
        run_of(line, current).contains(line[k]) <==> run_of(line, current).contains(line[k + 1]),
{
    let (lo, a, hi) = lemma_run(line, current);
    lemma_stretch_member(line, lo, hi, k);
    lemma_stretch_member(line, lo, hi, k + 1);
}

proof fn lemma_stretch_member(line: Seq<Component>, lo: int, hi: int, m: int)
    requires
        0 <= lo <= hi <= line.len(),
        0 <= m < line.len(),
        forall|i: int, j: int| 0 <= i < j < line.len() ==> #[trigger] line[i] != #[trigger] line[j],
    ensures
        line.subrange(lo, hi).contains(line[m]) <==> lo <= m < hi,
{
    let run = line.subrange(lo, hi);
    if lo <= m < hi {
        assert(run[m - lo] == line[m]);
    }
    if run.contains(line[m]) {
        let i = choose|i: int| 0 <= i < run.len() && run[i] == line[m];
        assert(run[i] == line[lo + i]);
        if lo + i < m {
            assert(line[lo + i] != line[m]);
        } else if m < lo + i {
            assert(line[m] != line[lo + i]);
        }
    }
}

/// The part that is cut out holds every box of the text with three pixels around it, as far as the frame goes,
/// and no more than that.
pub proof fn lemma_padded(run: Seq<Component>, width: int, height: int)
    requires
        run.len() > 0,
        forall|i: int| 0 <= i < run.len() ==> blobs::component_in(#[trigger] run[i], width, height),
    ensures
        ({
            let b = padded(run, width, height);
            &&& 0 <= b.0 <= b.2 < width
            &&& 0 <= b.1 <= b.3 < height
            &&& forall|i: int, x: int, y: int|
                #![trigger run[i], in_rect(b, x, y)]
                0 <= i < run.len() && run[i].x0 - 3 <= x <= run[i].x1 + 3 && run[i].y0 - 3 <= y <= run[i].y1 + 3
                    && 0 <= x < width && 0 <= y < height ==> in_rect(b, x, y)
            &&& b.0 == 0 || exists|i: int| 0 <= i < run.len() && #[trigger] run[i].x0 == b.0 + 3
            &&& b.1 == 0 || exists|i: int| 0 <= i < run.len() && #[trigger] run[i].y0 == b.1 + 3
            &&& b.2 == width - 1 || exists|i: int| 0 <= i < run.len() && #[trigger] run[i].x1 == b.2 - 3
            &&& b.3 == height - 1 || exists|i: int| 0 <= i < run.len() && #[trigger] run[i].y1 == b.3 - 3
        }),
{
    let xs0 = run.map_values(|c: Component| c.x0 as int);
    let ys0 = run.map_values(|c: Component| c.y0 as int);
    let xs1 = run.map_values(|c: Component| c.x1 as int);
    let ys1 = run.map_values(|c: Component| c.y1 as int);
    xs0.min_ensures();
    ys0.min_ensures();
    xs1.max_ensures();
    ys1.max_ensures();
    let b = padded(run, width, height);
    let i0 = choose|i: int| 0 <= i < xs0.len() && xs0[i] == xs0.min();
    let i1 = choose|i: int| 0 <= i < ys0.len() && ys0[i] == ys0.min();
    let i2 = choose|i: int| 0 <= i < xs1.len() && xs1[i] == xs1.max();
    let i3 = choose|i: int| 0 <= i < ys1.len() && ys1[i] == ys1.max();
    assert(run[i0].x0 == xs0.min() && run[i1].y0 == ys0.min() && run[i2].x1 == xs1.max() && run[i3].y1 == ys1.max());
    assert(xs0[i2] >= xs0[i0] && ys0[i3] >= ys0[i1]);
    assert forall|i: int, x: int, y: int|
        #![trigger run[i], in_rect(b, x, y)]
        0 <= i < run.len() && run[i].x0 - 3 <= x <= run[i].x1 + 3 && run[i].y0 - 3 <= y <= run[i].y1 + 3
            && 0 <= x < width && 0 <= y < height implies in_rect(b, x, y) by {
        assert(xs0[i] >= xs0[i0] && ys0[i] >= ys0[i1] && xs1[i] <= xs1[i2] && ys1[i] <= ys1[i3]);
    }
}

/// A box on the line of a letter is about 45 % to 165 % as high as it, with its middle row at most about 55 % of
/// the letter's height off; every box well within these bounds is on the line.
pub proof fn lemma_on_line(current: Component, c: Component)
    requires
        current.y0 <= current.y1 < 0x80_0000,
        c.y0 <= c.y1 < 0x80_0000,
    ensures
        ({
            let tall = current.y1 - current.y0 + 1;
            let rows = c.y1 - c.y0 + 1;
            let down = c.y0 + c.y1 - (current.y0 + current.y1);
            &&& on_line(current, c) ==> 1_000_000 * rows >= 449_999 * tall
            &&& on_line(current, c) ==> 1_000_000 * rows <= 1_650_001 * tall
            &&& on_line(current, c) ==> 1_000_000 * down <= 1_100_001 * tall && -1_000_000 * down <= 1_100_001 * tall
            &&& {
                &&& 1_000_000 * rows >= 450_001 * tall
                &&& 1_000_000 * rows <= 1_649_999 * tall
                &&& 1_000_000 * down <= 1_099_999 * tall
                &&& -1_000_000 * down <= 1_099_999 * tall
            } ==> on_line(current, c)
        }),
{
    let tall = current.spec_height() as nat;
    let rows = c.spec_height() as nat;
    single::lemma_whole_exact(rows);
    single::lemma_whole_exact((c.y0 + c.y1) as nat);
    single::lemma_whole_exact((current.y0 + current.y1) as nat);
    single::lemma_scaled_close(tall, SHORTEST as nat);
    single::lemma_scaled_close(tall, TALLEST as nat);
    single::lemma_scaled_close(tall, FARTHEST as nat);
    assert(tall * (SHORTEST as nat) == 2026619778629632 * tall);
    assert(tall * (TALLEST as nat) == 7430939277787136 * tall);
    assert(tall * (FARTHEST as nat) == 2476979848740864 * tall);
    let a = middle_y(c);
    let b = middle_y(current);
    assert(a == 2251799813685248 * (c.y0 + c.y1));
    assert(b == 2251799813685248 * (current.y0 + current.y1));
    if a >= b {
        single::lemma_nearest_close((a - b) as nat);
    } else {
        single::lemma_nearest_close((b - a) as nat);
    }
}

/// The line of a letter holds exactly the regions of at least four pixels that fit on it, from left to right.
pub proof fn lemma_line(combined: Seq<u8>, width: int, current: Component)
    ensures
        ({
            let line = line_of(combined, width, current);
            &&& forall|c: Component|
                line.contains(c) <==> blobs::component_list(combined, width, 1).contains(c) && c.area >= 4 && on_line(current, c)
            &&& forall|i: int, j: int| 0 <= i < j < line.len() ==> (#[trigger] line[i]).x0 <= (#[trigger] line[j]).x0
        }),
{
    let all = blobs::component_list(combined, width, 4);
    let g = blobs::Grid { mask: combined, width, diagonal: true };
    let keep = |c: Component| on_line(current, c);
    let key = |c: Component| c.x0 as int;
    let kept = all.filter(keep);
    let line = line_of(combined, width, current);
    order::lemma_sorted_by(kept, key);
    assert forall|c: Component| line.contains(c) <==> blobs::component_list(combined, width, 1).contains(c) && c.area >= 4
        && on_line(current, c) by {
        order::lemma_filter_member(all, keep, c);
        order::lemma_filter_member(g.outline_list(), |c: Component| c.area >= 4, c);
        order::lemma_filter_member(g.outline_list(), |c: Component| c.area >= 1, c);
    }
    assert forall|i: int, j: int| 0 <= i < j < line.len() implies (#[trigger] line[i]).x0 <= (#[trigger] line[j]).x0 by {
        assert(key(line[i]) <= key(line[j]));
    }
}

/// Each pixel of the part that is shown makes a block of four by four picture pixels, black where the pixel is
/// text; the sixteen pixels along each edge of the picture are white.
pub proof fn lemma_enlarged(combined: Seq<u8>, width: int, b: (int, int, int, int), current: Component, x: int, y: int)
    requires
        0 <= b.0 <= b.2,
        0 <= b.1 <= b.3,
    ensures
        ({
            let image = enlarged(combined, width, b, current);
            let shown = image.pixels[y * image.width + x];
            &&& image.width == 4 * (b.2 - b.0 + 1) + 32
            &&& image.height == 4 * (b.3 - b.1 + 1) + 32
            &&& image.bounds == b
            &&& image.pixels.len() == image.width * image.height
            &&& forall|sx: int, sy: int|
                #![trigger in_rect(b, sx, sy)]
                in_rect(b, sx, sy) && 0 <= x - 16 - 4 * (sx - b.0) < 4 && 0 <= y - 16 - 4 * (sy - b.1) < 4 ==> shown == (
                if combined[sy * width + sx] != 0 {
                    0u8
                } else {
                    255u8
                })
            &&& 0 <= x < image.width && 0 <= y < image.height && (x < 16 || y < 16 || x >= image.width - 16 || y
                >= image.height - 16) ==> shown == 255
        }),
{
    let image = enlarged(combined, width, b, current);
    let w = image.width;
    let h = image.height;
    assert(w * h >= 0) by (nonlinear_arith)
        requires
            w >= 0,
            h >= 0,
    ;
    if 0 <= x < w && 0 <= y < h {
        blobs::lemma_pixel(x, y, w, h);
        assert(image.pixels[y * w + x] == enlarged_at(combined, width, b, x, y));
    }
}

/// The middle of the current letter keeps its place in the enlarged picture: four columns for each column from
/// the left edge of the part that is shown, behind the margin.
pub proof fn lemma_enlarged_center(edges: int, left: int)
    requires
        0 <= edges < 0x20_0000,
        0 <= left < 0x20_0000,
    ensures
        enlarged_center(edges, left) == 16 + 2 * edges - 4 * left,
{
    single::lemma_whole_exact(edges as nat);
    single::lemma_whole_exact(left as nat);
    let v = edges - 2 * left;
    single::lemma_nearest_size(
        if v >= 0 {
            v as nat
        } else {
            (-v) as nat
        },
    );
    let c = 16 + 2 * v;
    single::lemma_nearest_size(
        if c >= 0 {
            c as nat
        } else {
            (-c) as nat
        },
    );
}

/// The letters to type next are exactly the regions of at least twelve pixels that are at least eight rows high
/// and two columns wide; a letter whose top is higher comes first, and of two at the same height the left one.
pub proof fn lemma_current_letters(orange: Seq<u8>, width: int)
    ensures
        ({
            let letters = current_letters(orange, width);
            &&& forall|c: Component|
                letters.contains(c) <==> blobs::component_list(orange, width, 1).contains(c) && c.area >= 12 && c.y1 - c.y0 >= 7
                    && c.x1 - c.x0 >= 1
            &&& forall|i: int, j: int|
                0 <= i < j < letters.len() ==> {
                    ||| (#[trigger] letters[i]).y0 < (#[trigger] letters[j]).y0
                    ||| letters[i].y0 == letters[j].y0 && letters[i].x0 <= letters[j].x0
                }
        }),
{
    let all = blobs::component_list(orange, width, 5);
    let g = blobs::Grid { mask: orange, width, diagonal: true };
    let keep = |c: Component| letter_sized(c);
    let key = |c: Component| blobs::corner_key(c);
    let kept = all.filter(keep);
    let letters = current_letters(orange, width);
    order::lemma_sorted_by(kept, key);
    assert forall|c: Component| letters.contains(c) <==> blobs::component_list(orange, width, 1).contains(c) && c.area >= 12
        && c.y1 - c.y0 >= 7 && c.x1 - c.x0 >= 1 by {
        order::lemma_filter_member(all, keep, c);
        order::lemma_filter_member(g.outline_list(), |c: Component| c.area >= 5, c);
        order::lemma_filter_member(g.outline_list(), |c: Component| c.area >= 1, c);
    }
    assert forall|i: int, j: int| 0 <= i < j < letters.len() implies {
        ||| (#[trigger] letters[i]).y0 < (#[trigger] letters[j]).y0
        ||| letters[i].y0 == letters[j].y0 && letters[i].x0 <= letters[j].x0
    } by {
        assert(key(letters[i]) <= key(letters[j]));
    }
}

/// Around a letter of at least eight rows and two columns there is a text image as soon as anything is on its
/// line. It shows one stretch of the line, with up to three pixels around it.
pub proof fn lemma_image_around(combined: Seq<u8>, width: int, height: int, current: Component)
    requires
        current.y0 <= current.y1 < 0x100_0000,
        current.x0 <= current.x1,
    ensures
        ({
            let line = line_of(combined, width, current);
            let image = image_around(combined, width, height, current);
            &&& image is Some <==> current.y1 - current.y0 >= 7 && current.x1 - current.x0 >= 1 && line.len() > 0
            &&& image matches Some(i) ==> exists|lo: int, hi: int|
                text_stretch(line, current, lo, hi) && i.bounds == padded(#[trigger] line.subrange(lo, hi), width, height)
        }),
{
    let line = line_of(combined, width, current);
    if line.len() > 0 {
        let (lo, a, hi) = lemma_run(line, current);
        assert(run_of(line, current) == line.subrange(lo, hi));
    }
}

/// The text image of every letter is among those of a frame, unless one there shows a part of the same text;
/// and each one there is the text image of some letter.
pub proof fn lemma_images_cover(combined: Seq<u8>, width: int, height: int, letters: Seq<Component>)
    ensures
        ({
            let images = images_around(combined, width, height, letters);
            &&& forall|i: int|
                0 <= i < letters.len() && image_around(combined, width, height, #[trigger] letters[i]) is Some ==> {
                    let image = image_around(combined, width, height, letters[i])->0;
                    ||| images.contains(image)
                    ||| exists|k: int| 0 <= k < images.len() && overlap((#[trigger] images[k]).bounds, image.bounds)
                }
            &&& forall|k: int|
                0 <= k < images.len() ==> exists|i: int|
                    0 <= i < letters.len() && image_around(combined, width, height, #[trigger] letters[i]) == Some(
                        #[trigger] images[k],
                    )
        }),
    decreases letters.len(),
{
    if letters.len() > 0 {
        let t = letters.drop_last();
        lemma_images_cover(combined, width, height, t);
        let before = images_around(combined, width, height, t);
        let images = images_around(combined, width, height, letters);
        assert forall|k: int| 0 <= k < before.len() implies #[trigger] images[k] == before[k] by {}
        assert forall|i: int|
            0 <= i < letters.len() && image_around(combined, width, height, #[trigger] letters[i]) is Some implies {
            let image = image_around(combined, width, height, letters[i])->0;
            ||| images.contains(image)
            ||| exists|k: int| 0 <= k < images.len() && overlap((#[trigger] images[k]).bounds, image.bounds)
        } by {
            let image = image_around(combined, width, height, letters[i])->0;
            if i < t.len() {
                assert(t[i] == letters[i]);
                if before.contains(image) {
                    let k = choose|k: int| 0 <= k < before.len() && before[k] == image;
                    assert(images[k] == image);
                } else {
                    let k = choose|k: int| 0 <= k < before.len() && overlap((#[trigger] before[k]).bounds, image.bounds);
                    assert(images[k] == before[k]);
                }
            } else {
                if exists|k: int| 0 <= k < before.len() && overlap((#[trigger] before[k]).bounds, image.bounds) {
                    let k = choose|k: int| 0 <= k < before.len() && overlap((#[trigger] before[k]).bounds, image.bounds);
                    assert(images[k] == before[k]);
                } else {
                    assert(images[before.len() as int] == image);
                }
            }
        }
        assert forall|k: int| 0 <= k < images.len() implies exists|i: int|
            0 <= i < letters.len() && image_around(combined, width, height, #[trigger] letters[i]) == Some(#[trigger] images[k]) by {
            if k < before.len() {
                let i = choose|i: int|
                    0 <= i < t.len() && image_around(combined, width, height, #[trigger] t[i]) == Some(before[k]);
                assert(letters[i] == t[i]);
            } else {
                assert(letters[letters.len() - 1] == letters.last());
            }
        }
    }
}

/// The middle of a box, from the sum of its edges.
fn middle(sum: u64) -> (m: u128)
    requires
        sum < 0x1_0000_0000,
    ensures
        m == single::whole(sum as nat) * single::HALF as nat,
        m < 0x10_0000_0000_0000_0000_0000_0000,
{
    let w: u128 = single::round_ratio(sum as u128, 1);
    proof {
        single::lemma_nearest_size(sum as nat);
    }
    w * single::HALF
}

fn fits_line(current: &Component, c: &Component) -> (fits: bool)
    requires
        current.x1 <= i32::MAX,
        current.y0 <= current.y1 <= i32::MAX,
        c.x1 <= i32::MAX,
        c.y0 <= c.y1 <= i32::MAX,
    ensures
        fits == on_line(*current, *c),
{
    let tall: u64 = (current.y1 - current.y0 + 1) as u64;
    let rows: u64 = (c.y1 - c.y0 + 1) as u64;
    let w: u128 = single::round_ratio(rows as u128, 1);
    proof {
        single::lemma_nearest_size(rows as nat);
    }
    let h: u128 = w * single::ONE;
    let low: u128 = single::scale(tall, SHORTEST);
    let high: u128 = single::scale(tall, TALLEST);
    let far: u128 = single::scale(tall, FARTHEST);
    let a: u128 = middle(c.y0 as u64 + c.y1 as u64);
    let b: u128 = middle(current.y0 as u64 + current.y1 as u64);
    let off: u128 = single::gap(a, b);
    h >= low && h <= high && off <= far
}

proof fn lemma_sorted_members(line: Seq<Component>, items: Seq<Component>, width: int, height: int)
    requires
        forall|i: int| 0 <= i < line.len() ==> items.contains(#[trigger] line[i]),
        forall|i: int| 0 <= i < items.len() ==> blobs::component_in(#[trigger] items[i], width, height),
    ensures
        forall|i: int| 0 <= i < line.len() ==> blobs::component_in(#[trigger] line[i], width, height),
{
    assert forall|i: int| 0 <= i < line.len() implies blobs::component_in(#[trigger] line[i], width, height) by {
        let k = choose|k: int| 0 <= k < items.len() && items[k] == line[i];
        assert(blobs::component_in(items[k], width, height));
    }
}

/// The enlarged picture of every part of a frame can be held in memory.
pub open spec fn picture_fits(width: int, height: int) -> bool {
    (width * 4 + 32) * (height * 4 + 32) <= usize::MAX
}

impl ColorAnalyzer {
    /// The boxes on the line of `current`, from left to right.
    fn line(&self, current: Component) -> (line: Vec<Component>)
        requires
            self.wf(),
            blobs::component_in(current, self.width as int, self.height as int),
        ensures
            line@ == line_of(self.combined@, self.width as int, current),
            forall|i: int|
                0 <= i < line.len() ==> blobs::component_in(#[trigger] line@[i], self.width as int, self.height as int),
    {
        let all = blobs::components(self.combined.as_slice(), self.width, self.height, 4);
        let ghost keep = |c: Component| on_line(current, c);
        let mut kept: Vec<Component> = Vec::new();
        let mut i: usize = 0;
        proof {
            blobs::lemma_filter_start(all@, keep);
        }
        while i < all.len()
            invariant
                i <= all.len(),
                self.wf(),
                blobs::component_in(current, self.width as int, self.height as int),
                keep == (|c: Component| on_line(current, c)),
                kept@ == all@.take(i as int).filter(keep),
                forall|k: int|
                    0 <= k < all.len() ==> blobs::component_in(
                        #[trigger] all@[k],
                        self.width as int,
                        self.height as int,
                    ),
                forall|k: int|
                    0 <= k < kept.len() ==> blobs::component_in(
                        #[trigger] kept@[k],
                        self.width as int,
                        self.height as int,
                    ),
            decreases all.len() - i,
        {
            let c = all[i];
            if fits_line(&current, &c) {
                kept.push(c);
            }
            proof {
                blobs::lemma_filter_step(all@, i as int, keep);
            }
            i = i + 1;
        }
        assert(all@.take(i as int) =~= all@);
        let line = blobs::sort_by_column(&kept);
        proof {
            lemma_sorted_members(line@, kept@, self.width as int, self.height as int);
        }
        line
    }
}

/// The box around all of `run`, before padding.
fn run_box(run: &[Component], Ghost(width): Ghost<int>, Ghost(height): Ghost<int>) -> (b: (usize, usize, usize, usize))
    requires
        run@.len() > 0,
        forall|i: int| 0 <= i < run@.len() ==> blobs::component_in(#[trigger] run@[i], width, height),
    ensures
        b.0 == run@.map_values(|c: Component| c.x0 as int).min(),
        b.1 == run@.map_values(|c: Component| c.y0 as int).min(),
        b.2 == run@.map_values(|c: Component| c.x1 as int).max(),
        b.3 == run@.map_values(|c: Component| c.y1 as int).max(),
        b.0 <= b.2 < width,
        b.1 <= b.3 < height,
{
    let ghost xs0 = run@.map_values(|c: Component| c.x0 as int);
    let ghost ys0 = run@.map_values(|c: Component| c.y0 as int);
    let ghost xs1 = run@.map_values(|c: Component| c.x1 as int);
    let ghost ys1 = run@.map_values(|c: Component| c.y1 as int);
    let mut x0: usize = run[0].x0;
    let mut y0: usize = run[0].y0;
    let mut x1: usize = run[0].x1;
    let mut y1: usize = run[0].y1;
    let ghost mut a: int = 0;
    let ghost mut b: int = 0;
    let ghost mut c: int = 0;
    let ghost mut d: int = 0;
    let mut i: usize = 1;
    assert(blobs::component_in(run@[0], width, height));
    while i < run.len()
        invariant
            1 <= i <= run.len(),
            forall|i: int| 0 <= i < run@.len() ==> blobs::component_in(#[trigger] run@[i], width, height),
            0 <= a < run@.len() && run@[a].x0 == x0,
            0 <= b < run@.len() && run@[b].y0 == y0,
            0 <= c < run@.len() && run@[c].x1 == x1,
            0 <= d < run@.len() && run@[d].y1 == y1,
            forall|k: int|
                0 <= k < i ==> x0 <= (#[trigger] run@[k]).x0 && y0 <= run@[k].y0 && run@[k].x1 <= x1 && run@[k].y1 <= y1,
            x0 <= x1 < width,
            y0 <= y1 < height,
        decreases run.len() - i,
    {
        let box_i = run[i];
        assert(blobs::component_in(run@[i as int], width, height));
        if box_i.x0 < x0 {
            x0 = box_i.x0;
            proof {
                a = i as int;
            }
        }
        if box_i.y0 < y0 {
            y0 = box_i.y0;
            proof {
                b = i as int;
            }
        }
        if box_i.x1 > x1 {
            x1 = box_i.x1;
            proof {
                c = i as int;
            }
        }
        if box_i.y1 > y1 {
            y1 = box_i.y1;
            proof {
                d = i as int;
            }
        }
        i = i + 1;
    }
    proof {
        xs0.min_ensures();
        ys0.min_ensures();
        xs1.max_ensures();
        ys1.max_ensures();
        assert(xs0[a] == x0 && ys0[b] == y0 && xs1[c] == x1 && ys1[d] == y1);
        assert(xs0.contains(x0 as int) && ys0.contains(y0 as int) && xs1.contains(x1 as int) && ys1.contains(y1 as int));
        let ka = choose|k: int| 0 <= k < xs0.len() && xs0[k] == xs0.min();
        let kb = choose|k: int| 0 <= k < ys0.len() && ys0[k] == ys0.min();
        let kc = choose|k: int| 0 <= k < xs1.len() && xs1[k] == xs1.max();
        let kd = choose|k: int| 0 <= k < ys1.len() && ys1[k] == ys1.max();
        assert(x0 <= run@[ka].x0);
        assert(y0 <= run@[kb].y0);
        assert(run@[kc].x1 <= x1);
        assert(run@[kd].y1 <= y1);
    }
    (x0, y0, x1, y1)
}

impl ColorAnalyzer {
    /// The part of the frame that holds the text around `current`.
    fn text_bounds(&self, current: Component, line: &Vec<Component>) -> (b: (usize, usize, usize, usize))
        requires
            self.wf(),
            blobs::component_in(current, self.width as int, self.height as int),
            line.len() > 0,
            forall|i: int|
                0 <= i < line.len() ==> blobs::component_in(#[trigger] line@[i], self.width as int, self.height as int),
        ensures
            (b.0 as int, b.1 as int, b.2 as int, b.3 as int) == padded(
                run_of(line@, current),
                self.width as int,
                self.height as int,
            ),
            b.0 <= b.2 < self.width,
            b.1 <= b.3 < self.height,
    {
        let n: usize = line.len();
        let center: u128 = middle(current.x0 as u64 + current.x1 as u64);
        let ghost offs = offsets(line@, current);
        let mut anchor: usize = 0;
        assert(blobs::component_in(line@[0], self.width as int, self.height as int));
        let mut least: u128 = single::gap(middle(line[0].x0 as u64 + line[0].x1 as u64), center);
        let mut i: usize = 1;
        proof {
            assert(offs.take(1).len() == 1);
        }
        while i < n
            invariant
                1 <= i <= n,
                n == line.len(),
                self.wf(),
                forall|k: int|
                    0 <= k < n ==> blobs::component_in(#[trigger] line@[k], self.width as int, self.height as int),
                center == middle_x(current),
                center < 0x10_0000_0000_0000_0000_0000_0000,
                offs == offsets(line@, current),
                anchor < i,
                anchor == first_least(offs.take(i as int)),
                least == offs[anchor as int],
            decreases n - i,
        {
            assert(blobs::component_in(line@[i as int], self.width as int, self.height as int));
            let off: u128 = single::gap(middle(line[i].x0 as u64 + line[i].x1 as u64), center);
            proof {
                assert(off == offs[i as int]);
                assert(offs.take(i + 1).drop_last() =~= offs.take(i as int));
                assert(offs.take(i + 1).last() == offs[i as int]);
            }
            if off < least {
                least = off;
                anchor = i;
            }
            i = i + 1;
        }
        proof {
            assert(offs.take(n as int) =~= offs);
        }
        let tall: u64 = (current.y1 - current.y0 + 1) as u64;
        let wide: u128 = single::scale(tall, WIDEST_GAP) / single::ONE;
        let limit: u128 = if wide < 8 {
            8
        } else {
            wide
        };
        let mut left: usize = anchor;
        while left > 0 && gap_columns(&line[left - 1], &line[left]) as u128 <= limit
            invariant
                left <= anchor < n,
                n == line.len(),
                self.wf(),
                forall|k: int|
                    0 <= k < n ==> blobs::component_in(#[trigger] line@[k], self.width as int, self.height as int),
                reach_left(line@, left as int, limit as int) == reach_left(line@, anchor as int, limit as int),
            decreases left,
        {
            left = left - 1;
        }
        let mut right: usize = anchor;
        while right < n - 1 && gap_columns(&line[right], &line[right + 1]) as u128 <= limit
            invariant
                anchor <= right < n,
                n == line.len(),
                self.wf(),
                forall|k: int|
                    0 <= k < n ==> blobs::component_in(#[trigger] line@[k], self.width as int, self.height as int),
                reach_right(line@, right as int, limit as int) == reach_right(line@, anchor as int, limit as int),
            decreases n - right,
        {
            right = right + 1;
        }
        proof {
            assert(left == reach_left(line@, left as int, limit as int));
            assert(right == reach_right(line@, right as int, limit as int));
            assert(limit == gap_limit(current));
        }
        let run = vstd::slice::slice_subrange(line.as_slice(), left, right + 1);
        proof {
            assert(run@ == run_of(line@, current));
            assert forall|k: int| 0 <= k < run@.len() implies blobs::component_in(
                #[trigger] run@[k],
                self.width as int,
                self.height as int,
            ) by {
                assert(run@[k] == line@[k + left]);
            }
        }
        let b = run_box(run, Ghost(self.width as int), Ghost(self.height as int));
        let x0: usize = if b.0 < 3 {
            0
        } else {
            b.0 - 3
        };
        let y0: usize = if b.1 < 3 {
            0
        } else {
            b.1 - 3
        };
        let x1: usize = if b.2 + 3 < self.width - 1 {
            b.2 + 3
        } else {
            self.width - 1
        };
        let y1: usize = if b.3 + 3 < self.height - 1 {
            b.3 + 3
        } else {
            self.height - 1
        };
        (x0, y0, x1, y1)
    }
}

fn gap_columns(a: &Component, b: &Component) -> (gap: usize)
    requires
        a.x1 <= i32::MAX,
    ensures
        gap == gap_between(*a, *b),
{
    b.x0.saturating_sub(a.x1 + 1)
}

proof fn lemma_picture_size(x: int, y: int, width: int, height: int)
    requires
        0 <= x <= width <= i32::MAX,
        0 <= y <= height <= i32::MAX,
        picture_fits(width, height),
    ensures
        0 <= (x * 4 + 32) * (y * 4 + 32) <= usize::MAX,
{
    assert(0 <= (x * 4 + 32) * (y * 4 + 32) <= (width * 4 + 32) * (height * 4 + 32)) by (nonlinear_arith)
        requires
            0 <= x <= width,
            0 <= y <= height,
    ;
}

impl ColorAnalyzer {
    /// Draws the part `b` of the frame four times as large, with a white margin.
    fn enlarge(&self, b: (usize, usize, usize, usize), current: Component) -> (image: TextImage)
        requires
            self.wf(),
            picture_fits(self.width as int, self.height as int),
            blobs::component_in(current, self.width as int, self.height as int),
            b.0 <= b.2 < self.width,
            b.1 <= b.3 < self.height,
        ensures
            image@ == enlarged(
                self.combined@,
                self.width as int,
                (b.0 as int, b.1 as int, b.2 as int, b.3 as int),
                current,
            ),
            image@.wf(),
    {
        let ghost bb = (b.0 as int, b.1 as int, b.2 as int, b.3 as int);
        let ghost width = self.width as int;
        let cols: u64 = (b.2 - b.0 + 1) as u64;
        let rows: u64 = (b.3 - b.1 + 1) as u64;
        proof {
            lemma_picture_size(cols as int, rows as int, self.width as int, self.height as int);
            let cw = cols * 4 + 32;
            let ch = rows * 4 + 32;
            assert(cw <= cw * ch && ch <= cw * ch) by (nonlinear_arith)
                requires
                    cw >= 1,
                    ch >= 1,
            ;
        }
        let w: usize = (cols * 4 + 32) as usize;
        let h: usize = (rows * 4 + 32) as usize;
        let mut pixels: Vec<u8> = Vec::new();
        let mut y: usize = 0;
        while y < h
            invariant
                y <= h,
                w == (b.2 - b.0 + 1) * 4 + 32,
                h == (b.3 - b.1 + 1) * 4 + 32,
                bb == (b.0 as int, b.1 as int, b.2 as int, b.3 as int),
                width == self.width,
                self.wf(),
                b.0 <= b.2 < self.width,
                b.1 <= b.3 < self.height,
                pixels@.len() == y * w,
                forall|i: int|
                    0 <= i < y * w ==> #[trigger] pixels@[i] == enlarged_at(
                        self.combined@,
                        width,
                        bb,
                        i % (w as int),
                        i / (w as int),
                    ),
            decreases h - y,
        {
            let mut x: usize = 0;
            while x < w
                invariant
                    x <= w,
                    y < h,
                    w == (b.2 - b.0 + 1) * 4 + 32,
                    h == (b.3 - b.1 + 1) * 4 + 32,
                    bb == (b.0 as int, b.1 as int, b.2 as int, b.3 as int),
                    width == self.width,
                    self.wf(),
                    b.0 <= b.2 < self.width,
                    b.1 <= b.3 < self.height,
                    pixels@.len() == y * w + x,
                    forall|i: int|
                        0 <= i < y * w + x ==> #[trigger] pixels@[i] == enlarged_at(
                            self.combined@,
                            width,
                            bb,
                            i % (w as int),
                            i / (w as int),
                        ),
                decreases w - x,
            {
                let mut value: u8 = 255;
                if x >= 16 && y >= 16 {
                    let sx: usize = b.0 + (x - 16) / 4;
                    let sy: usize = b.1 + (y - 16) / 4;
                    if sx <= b.2 && sy <= b.3 {
                        proof {
                            blobs::lemma_pixel(sx as int, sy as int, width, self.height as int);
                        }
                        proof {
                            assert(self.combined.len() <= usize::MAX);
                            assert(sy * width <= sy * width + sx);
                        }
                        if self.combined[sy * self.width + sx] != 0 {
                            value = 0;
                        }
                    }
                }
                proof {
                    blobs::lemma_pixel(x as int, y as int, w as int, h as int);
                    assert(value == enlarged_at(self.combined@, width, bb, x as int, y as int));
                }
                pixels.push(value);
                x = x + 1;
            }
            proof {
                assert((y + 1) * w == y * w + w) by (nonlinear_arith);
            }
            y = y + 1;
        }
        let center: i64 = center_of(current.x0 as u64 + current.x1 as u64, b.0 as u64);
        let image = TextImage { width: w, height: h, pixels, current_center_x: center, source_bounds: b };
        proof {
            let want = enlarged(self.combined@, width, bb, current);
            assert(h * w == w * h) by (nonlinear_arith);
            assert(image@.pixels =~= want.pixels);
        }
        image
    }

    /// The text image around the letter `current`, where there is a line of text.
    pub fn extract_text_image_around(&self, current: Component) -> (image: Option<TextImage>)
        requires
            self.wf(),
            picture_fits(self.width as int, self.height as int),
            blobs::component_in(current, self.width as int, self.height as int),
        ensures
            image is Some <==> image_around(self.combined@, self.width as int, self.height as int, current) is Some,
            image matches Some(i) ==> i@ == image_around(
                self.combined@,
                self.width as int,
                self.height as int,
                current,
            )->0 && i@.wf(),
    {
        if current.height() < 8 || current.width() < 2 {
            return None;
        }
        let line = self.line(current);
        if line.len() == 0 {
            return None;
        }
        let b = self.text_bounds(current, &line);
        Some(self.enlarge(b, current))
    }

    /// The regions in the colour of the next letter, in reading order.
    fn letters(&self) -> (out: Vec<Component>)
        requires
            self.wf(),
        ensures
            out@ == current_letters(self.orange@, self.width as int),
            forall|i: int|
                0 <= i < out.len() ==> blobs::component_in(#[trigger] out@[i], self.width as int, self.height as int),
    {
        let all = blobs::components(self.orange.as_slice(), self.width, self.height, 5);
        let ghost keep = |c: Component| letter_sized(c);
        let mut kept: Vec<Component> = Vec::new();
        let mut i: usize = 0;
        proof {
            blobs::lemma_filter_start(all@, keep);
        }
        while i < all.len()
            invariant
                i <= all.len(),
                self.wf(),
                keep == (|c: Component| letter_sized(c)),
                kept@ == all@.take(i as int).filter(keep),
                forall|k: int|
                    0 <= k < all.len() ==> blobs::component_in(
                        #[trigger] all@[k],
                        self.width as int,
                        self.height as int,
                    ),
                forall|k: int|
                    0 <= k < kept.len() ==> blobs::component_in(
                        #[trigger] kept@[k],
                        self.width as int,
                        self.height as int,
                    ),
            decreases all.len() - i,
        {
            let c = all[i];
            if c.area >= 12 && c.height() >= 8 && c.width() >= 2 {
                kept.push(c);
            }
            proof {
                blobs::lemma_filter_step(all@, i as int, keep);
            }
            i = i + 1;
        }
        assert(all@.take(i as int) =~= all@);
        let out = blobs::sort_by_corner(&kept);
        proof {
            lemma_sorted_members(out@, kept@, self.width as int, self.height as int);
        }
        out
    }

    /// The text images of the frame, one for each line that holds a next letter.
    pub fn extract_text_images(&self) -> (out: Vec<TextImage>)
        requires
            self.wf(),
            picture_fits(self.width as int, self.height as int),
        ensures
            out@.map_values(|i: TextImage| i@) == images_around(
                self.combined@,
                self.width as int,
                self.height as int,
                current_letters(self.orange@, self.width as int),
            ),
            forall|i: int| 0 <= i < out.len() ==> (#[trigger] out@[i])@.wf(),
    {
        let letters = self.letters();
        let ghost views = |i: TextImage| i@;
        let mut out: Vec<TextImage> = Vec::new();
        let mut n: usize = 0;
        proof {
            assert(letters@.take(0).len() == 0);
            assert(out@.map_values(views) =~= Seq::<ImageView>::empty());
        }
        while n < letters.len()
            invariant
                n <= letters.len(),
                self.wf(),
                picture_fits(self.width as int, self.height as int),
                views == (|i: TextImage| i@),
                out@.map_values(views) == images_around(
                    self.combined@,
                    self.width as int,
                    self.height as int,
                    letters@.take(n as int),
                ),
                forall|i: int| 0 <= i < out.len() ==> (#[trigger] out@[i])@.wf(),
                forall|i: int|
                    0 <= i < letters.len() ==> blobs::component_in(
                        #[trigger] letters@[i],
                        self.width as int,
                        self.height as int,
                    ),
            decreases letters.len() - n,
        {
            let ghost before = out@.map_values(views);
            proof {
                assert(letters@.take(n + 1).drop_last() =~= letters@.take(n as int));
                assert(letters@.take(n + 1).last() == letters@[n as int]);
            }
            match self.extract_text_image_around(letters[n]) {
                Some(image) => {
                    let key = image.source_bounds;
                    let mut clash: bool = false;
                    let mut i: usize = 0;
                    while i < out.len()
                        invariant
                            i <= out.len(),
                            before == out@.map_values(views),
                            views == (|i: TextImage| i@),
                            key == image.source_bounds,
                            clash ==> exists|k: int| 0 <= k < before.len() && overlap((#[trigger] before[k]).bounds, image@.bounds),
                            !clash ==> forall|k: int| 0 <= k < i ==> !overlap((#[trigger] before[k]).bounds, image@.bounds),
                        decreases out.len() - i,
                    {
                        assert(before[i as int] == out@[i as int]@);
                        if rects_overlap(out[i].source_bounds, key) {
                            clash = true;
                        }
                        i = i + 1;
                    }
                    if !clash {
                        out.push(image);
                        proof {
                            assert(out@.map_values(views) =~= before.push(image@));
                        }
                    }
                },
                None => {},
            }
            n = n + 1;
        }
        assert(letters@.take(n as int) =~= letters@);
        out
    }
}

} // verus!
