//! Finding the minigame frame and the PLAY button on a captured screen.

use crate::pixels;
use crate::platform::win32::Rect;
use vstd::prelude::*;

verus! {

/// Which corner decoration the frame is found by.
#[derive(Clone, Copy, Debug, PartialEq, Eq, Structural)]
pub enum Detector {
    StandardFrame,
    BootBreakerFrame,
}

/// The name of a detector in logs.
pub open spec fn detector_name(d: Detector) -> Seq<char> {
    match d {
        Detector::StandardFrame => "standard_frame"@,
        Detector::BootBreakerFrame => "boot_breaker_frame"@,
    }
}

impl Detector {
    /// The name of a detector in logs.
    pub fn name(self) -> (name: &'static str)
        ensures
            name@ == detector_name(self),
    {
        match self {
            Detector::StandardFrame => "standard_frame",
            Detector::BootBreakerFrame => "boot_breaker_frame",
        }
    }
}

/// The largest of three numbers.
pub open spec fn most(r: int, g: int, b: int) -> int {
    if r >= g && r >= b {
        r
    } else if g >= b {
        g
    } else {
        b
    }
}

/// The smallest of three numbers.
pub open spec fn fewest(r: int, g: int, b: int) -> int {
    if r <= g && r <= b {
        r
    } else if g <= b {
        g
    } else {
        b
    }
}

/// A colour of the standard frame's corners: dull, and not bluish.
pub open spec fn standard_corner(r: u8, g: u8, b: u8) -> bool {
    &&& 55 <= r <= 190
    &&& 45 <= g <= 155
    &&& 35 <= b <= 135
    &&& most(r as int, g as int, b as int) - fewest(r as int, g as int, b as int) <= 90
    &&& r >= b
}

/// A colour of the boot breaker frame's corners: orange or dark red.
pub open spec fn boot_breaker_corner(r: u8, g: u8, b: u8) -> bool {
    (r >= 115 && 20 <= g <= 175 && b <= 90) || (r >= 70 && g <= 70 && b <= 90 && r > b + 25)
}

/// A colour of the corners that a detector looks for.
pub open spec fn corner(d: Detector, p: (u8, u8, u8)) -> bool {
    match d {
        Detector::StandardFrame => standard_corner(p.0, p.1, p.2),
        Detector::BootBreakerFrame => boot_breaker_corner(p.0, p.1, p.2),
    }
}

/// Is this a colour of the standard frame's corners?
pub fn standard_corner_pixel(r: u8, g: u8, b: u8) -> (yes: bool)
    ensures
        yes == standard_corner(r, g, b),
{
    let max: u8 = if r >= g && r >= b {
        r
    } else if g >= b {
        g
    } else {
        b
    };
    let min: u8 = if r <= g && r <= b {
        r
    } else if g <= b {
        g
    } else {
        b
    };
    r >= 55 && r <= 190 && g >= 45 && g <= 155 && b >= 35 && b <= 135 && max - min <= 90 && r >= b
}

/// Is this a colour of the boot breaker frame's corners?
pub fn boot_breaker_corner_pixel(r: u8, g: u8, b: u8) -> (yes: bool)
    ensures
        yes == boot_breaker_corner(r, g, b),
{
    (r >= 115 && g >= 20 && g <= 175 && b <= 90) || (r >= 70 && g <= 70 && b <= 90 && r > b + 25)
}

/// The columns that are scanned for corners, from the first to before the last: without a tenth on
/// each side.
pub open spec fn scan_columns(width: int) -> (int, int) {
    (width / 10, width - width / 10)
}

/// The rows that are scanned for corners, from the first to before the last: without a twelfth above
/// and a twentieth below.
pub open spec fn scan_rows(height: int) -> (int, int) {
    (height / 12, height - height / 20)
}

/// The corner pixels of the scanned area.
pub open spec fn corner_pixels(frame: Seq<u8>, width: int, height: int, d: Detector) -> Set<(int, int)> {
    let cols = scan_columns(width);
    let rows = scan_rows(height);
    Set::new(
        |p: (int, int)|
            cols.0 <= p.0 < cols.1 && rows.0 <= p.1 < rows.1 && corner(d, pixels::pixel(frame, width, p.0, p.1)),
    )
}

/// The fewest corner pixels that make a frame.
pub const ENOUGH_CORNERS: u32 = 120;

/// How far a frame reaches beyond its corner pixels, to the left, above, to the right and below.
pub open spec fn padding(d: Detector) -> (int, int, int, int) {
    match d {
        Detector::StandardFrame => (42, 24, 42, 36),
        Detector::BootBreakerFrame => (4, 4, 10, 28),
    }
}

/// The larger of two numbers.
pub open spec fn larger(a: int, b: int) -> int {
    if a > b {
        a
    } else {
        b
    }
}

/// The smaller of two numbers.
pub open spec fn smaller(a: int, b: int) -> int {
    if a < b {
        a
    } else {
        b
    }
}

/// The frame around a box of corner pixels, cut to the screen, where it is large enough.
pub open spec fn frame_around(x0: int, y0: int, x1: int, y1: int, width: int, height: int, d: Detector) -> Option<
    Rect,
> {
    let pad = padding(d);
    let left = larger(x0 - pad.0, 0);
    let top = larger(y0 - pad.1, 0);
    let right = smaller(x1 + pad.2, width - 1);
    let bottom = smaller(y1 + pad.3, height - 1);
    if right - left < 220 || bottom - top < 160 {
        None
    } else {
        Some(
            Rect { left: left as i32, top: top as i32, width: (right - left) as i32, height: (bottom - top) as i32 },
        )
    }
}

/// The frame that a detector finds: the box of its corner pixels with padding, where there are enough
/// of them and it is large enough.
pub open spec fn frame_rect(frame: Seq<u8>, width: int, height: int, d: Detector) -> Option<Rect> {
    let s = corner_pixels(frame, width, height, d);
    if s.len() < ENOUGH_CORNERS {
        None
    } else {
        frame_around(
            pixels::least(pixels::columns(s)),
            pixels::least(pixels::rows(s)),
            pixels::greatest(pixels::columns(s)),
            pixels::greatest(pixels::rows(s)),
            width,
            height,
            d,
        )
    }
}

/// A frame that was found lies on the screen.
pub proof fn lemma_frame_on_screen(frame: Seq<u8>, width: i32, height: i32, d: Detector)
    requires
        frame_rect(frame, width as int, height as int, d) is Some,
    ensures
        ({
            let r = frame_rect(frame, width as int, height as int, d)->0;
            &&& 0 <= r.left && 0 <= r.top && 220 <= r.width && 160 <= r.height
            &&& r.left + r.width < width && r.top + r.height < height
        }),
{
    let s = corner_pixels(frame, width as int, height as int, d);
    let x0 = pixels::least(pixels::columns(s));
    let pad = padding(d);
    let left = larger(x0 - pad.0, 0);
    assert(left >= 0);
}

/// The corner pixels that come before position `(x, y)`, row by row.
spec fn corners_before(frame: Seq<u8>, width: int, height: int, d: Detector, x: int, y: int) -> Set<(int, int)> {
    corner_pixels(frame, width, height, d).filter(|p: (int, int)| p.1 < y || (p.1 == y && p.0 < x))
}

proof fn lemma_corner_step(frame: Seq<u8>, width: int, height: int, d: Detector, x: int, y: int)
    requires
        scan_columns(width).0 <= x < scan_columns(width).1,
        scan_rows(height).0 <= y < scan_rows(height).1,
    ensures
        corners_before(frame, width, height, d, x + 1, y) == if corner(d, pixels::pixel(frame, width, x, y)) {
            corners_before(frame, width, height, d, x, y).insert((x, y))
        } else {
            corners_before(frame, width, height, d, x, y)
        },
        !corners_before(frame, width, height, d, x, y).contains((x, y)),
{
    let a = corners_before(frame, width, height, d, x + 1, y);
    let b = corners_before(frame, width, height, d, x, y);
    if corner(d, pixels::pixel(frame, width, x, y)) {
        assert(a =~= b.insert((x, y)));
    } else {
        assert(a =~= b);
    }
}

proof fn lemma_corner_row(frame: Seq<u8>, width: int, height: int, d: Detector, y: int)
    ensures
        scan_columns(width).0 <= scan_columns(width).1 ==> corners_before(
            frame,
            width,
            height,
            d,
            scan_columns(width).1,
            y,
        ) == corners_before(frame, width, height, d, scan_columns(width).0, y + 1),
{
    assert(corners_before(frame, width, height, d, scan_columns(width).1, y) =~= corners_before(
        frame,
        width,
        height,
        d,
        scan_columns(width).0,
        y + 1,
    ));
}

/// What is known of a set of corner pixels: how many there are, up to the fewest that matter, and
/// their box.
spec fn surveyed(s: Set<(int, int)>, count: u32, x0: int, y0: int, x1: int, y1: int) -> bool {
    &&& s.finite()
    &&& count == smaller(s.len() as int, ENOUGH_CORNERS as int)
    &&& s.len() > 0 ==> pixels::encloses(s, x0, y0, x1, y1)
}

fn pixel_hit(frame: &[u8], width: i32, x: i32, y: i32, detector: Detector) -> (hit: bool)
    requires
        0 <= x < width,
        pixels::row_fits(frame@.len() as int, width as int, y as int),
    ensures
        hit == corner(detector, pixels::pixel(frame@, width as int, x as int, y as int)),
{
    let p = pixels::pixel_at(frame, width, x, y);
    match detector {
        Detector::StandardFrame => standard_corner_pixel(p.0, p.1, p.2),
        Detector::BootBreakerFrame => boot_breaker_corner_pixel(p.0, p.1, p.2),
    }
}

/// Finds the minigame frame on a captured screen.
#[verifier::rlimit(40)]
pub fn detect_frame_rect(frame: &[u8], width: i32, height: i32, detector: Detector) -> (r: Option<Rect>)
    requires
        0 <= width,
        0 <= height,
        pixels::frame_fits(frame@.len() as int, width as int, height as int),
    ensures
        r == frame_rect(frame@, width as int, height as int, detector),
{
    let x0: i32 = width / 10;
    let x1: i32 = width - width / 10;
    let y0: i32 = height / 12;
    let y1: i32 = height - height / 20;
    let ghost w = width as int;
    let ghost h = height as int;
    let ghost f = frame@;
    let mut min_x: i32 = i32::MAX;
    let mut min_y: i32 = i32::MAX;
    let mut max_x: i32 = i32::MIN;
    let mut max_y: i32 = i32::MIN;
    let mut count: u32 = 0;
    let mut y: i32 = y0;
    proof {
        assert(corners_before(f, w, h, detector, x0 as int, y0 as int) =~= Set::empty());
    }
    while y < y1
        invariant
            w == width && h == height && f == frame@,
            (x0 as int, x1 as int) == scan_columns(w),
            (y0 as int, y1 as int) == scan_rows(h),
            0 <= x0 <= x1 <= width,
            0 <= y0 <= y <= y1 <= height,
            pixels::frame_fits(f.len() as int, w, h),
            surveyed(
                corners_before(f, w, h, detector, x0 as int, y as int),
                count,
                min_x as int,
                min_y as int,
                max_x as int,
                max_y as int,
            ),
            count == 0 ==> min_x == i32::MAX && min_y == i32::MAX && max_x == i32::MIN && max_y == i32::MIN,
        decreases y1 - y,
    {
        let mut x: i32 = x0;
        while x < x1
            invariant
                w == width && h == height && f == frame@,
                (x0 as int, x1 as int) == scan_columns(w),
                (y0 as int, y1 as int) == scan_rows(h),
                0 <= x0 <= x <= x1 <= width,
                0 <= y0 <= y < y1 <= height,
                pixels::frame_fits(f.len() as int, w, h),
                surveyed(
                    corners_before(f, w, h, detector, x as int, y as int),
                    count,
                    min_x as int,
                    min_y as int,
                    max_x as int,
                    max_y as int,
                ),
                count == 0 ==> min_x == i32::MAX && min_y == i32::MAX && max_x == i32::MIN && max_y == i32::MIN,
            decreases x1 - x,
        {
            let ghost s = corners_before(f, w, h, detector, x as int, y as int);
            proof {
                pixels::lemma_row_fits(f.len() as int, w, h, y as int);
                lemma_corner_step(f, w, h, detector, x as int, y as int);
            }
            if pixel_hit(frame, width, x, y, detector) {
                proof {
                    if s.len() == 0 {
                        assert(s =~= Set::empty());
                        pixels::lemma_encloses_one(x as int, y as int);
                    } else {
                        pixels::lemma_encloses_step(
                            s,
                            min_x as int,
                            min_y as int,
                            max_x as int,
                            max_y as int,
                            x as int,
                            y as int,
                        );
                    }
                }
                if x < min_x {
                    min_x = x;
                }
                if y < min_y {
                    min_y = y;
                }
                if x > max_x {
                    max_x = x;
                }
                if y > max_y {
                    max_y = y;
                }
                if count < ENOUGH_CORNERS {
                    count = count + 1;
                }
            }
            x = x + 1;
        }
        proof {
            lemma_corner_row(f, w, h, detector, y as int);
        }
        y = y + 1;
    }
    let ghost all = corner_pixels(f, w, h, detector);
    proof {
        assert(corners_before(f, w, h, detector, x0 as int, y1 as int) =~= all);
    }
    if count < ENOUGH_CORNERS {
        return None;
    }
    proof {
        pixels::lemma_least(pixels::columns(all), min_x as int);
        pixels::lemma_least(pixels::rows(all), min_y as int);
        pixels::lemma_greatest(pixels::columns(all), max_x as int);
        pixels::lemma_greatest(pixels::rows(all), max_y as int);
        let r = choose|r: int| #[trigger] all.contains((min_x as int, r));
        let r2 = choose|r: int| #[trigger] all.contains((max_x as int, r));
        let c = choose|c: int| #[trigger] all.contains((c, min_y as int));
        let c2 = choose|c: int| #[trigger] all.contains((c, max_y as int));
        assert(all.contains((min_x as int, r)) && all.contains((max_x as int, r2)));
        assert(all.contains((c, min_y as int)) && all.contains((c2, max_y as int)));
    }
    let pad: (i64, i64, i64, i64) = match detector {
        Detector::StandardFrame => (42, 24, 42, 36),
        Detector::BootBreakerFrame => (4, 4, 10, 28),
    };
    let mut left: i64 = min_x as i64 - pad.0;
    if left < 0 {
        left = 0;
    }
    let mut top: i64 = min_y as i64 - pad.1;
    if top < 0 {
        top = 0;
    }
    let mut right: i64 = max_x as i64 + pad.2;
    if right > width as i64 - 1 {
        right = width as i64 - 1;
    }
    let mut bottom: i64 = max_y as i64 + pad.3;
    if bottom > height as i64 - 1 {
        bottom = height as i64 - 1;
    }
    if right - left < 220 || bottom - top < 160 {
        return None;
    }
    Some(Rect { left: left as i32, top: top as i32, width: (right - left) as i32, height: (bottom - top) as i32 })
}

/// A colour of the PLAY button's frame.
pub open spec fn gold(p: (u8, u8, u8)) -> bool {
    &&& 95 <= p.0 <= 235
    &&& 70 <= p.1 <= 190
    &&& 35 <= p.2 <= 145
    &&& p.0 >= p.1
    &&& p.1 >= p.2 - 18
    &&& p.0 - p.2 >= 25
}

/// Is this a colour of the PLAY button's frame?
pub fn play_button_gold_pixel(r: u8, g: u8, b: u8) -> (yes: bool)
    ensures
        yes == gold((r, g, b)),
{
    let r: i32 = r as i32;
    let g: i32 = g as i32;
    let b: i32 = b as i32;
    r >= 95 && r <= 235 && g >= 70 && g <= 190 && b >= 35 && b <= 145 && r >= g && g >= b - 18 && r - b >= 25
}

/// The gold pixels of a row, from column `x0` to before column `end`.
pub open spec fn gold_pixels(frame: Seq<u8>, width: int, x0: int, end: int, y: int) -> Set<int> {
    Set::new(|x: int| x0 <= x < end && gold(pixels::pixel(frame, width, x, y)))
}

/// The first and last gold pixel of a row from column `x0` to `x1` and how many there are, where
/// there are any.
pub open spec fn gold_span(frame: Seq<u8>, width: int, x0: int, x1: int, y: int) -> Option<(int, int, nat)> {
    let s = gold_pixels(frame, width, x0, x1 + 1, y);
    if s.len() == 0 {
        None
    } else {
        Some((pixels::least(s), pixels::greatest(s), s.len()))
    }
}

/// The first and last gold pixel of a row from column `x0` to `x1` and how many there are, where
/// there are any.
pub fn gold_row_span(frame: &[u8], width: i32, x0: i32, x1: i32, y: i32) -> (r: Option<(i32, i32, i32)>)
    requires
        x0 <= x1 ==> 0 <= x0 && x1 < width && pixels::row_fits(frame@.len() as int, width as int, y as int),
    ensures
        r is Some <==> gold_span(frame@, width as int, x0 as int, x1 as int, y as int) is Some,
        r matches Some((a, b, n)) ==> {
            &&& gold_span(frame@, width as int, x0 as int, x1 as int, y as int) == Some((a as int, b as int, n as nat))
            &&& x0 <= a <= b <= x1
            &&& n >= 1
        },
{
    let ghost w = width as int;
    let ghost f = frame@;
    let mut min_x: i32 = i32::MAX;
    let mut max_x: i32 = i32::MIN;
    let mut count: i32 = 0;
    let mut x: i32 = x0;
    proof {
        assert(gold_pixels(f, w, x0 as int, x0 as int, y as int) =~= Set::empty());
    }
    while x <= x1
        invariant
            w == width && f == frame@,
            x0 <= x,
            x <= x1 + 1 || x == x0,
            x0 <= x1 ==> 0 <= x0 && x1 < width && pixels::row_fits(f.len() as int, w, y as int),
            0 <= count <= x - x0,
            ({
                let s = gold_pixels(f, w, x0 as int, x as int, y as int);
                &&& s.finite()
                &&& count == s.len()
                &&& count > 0 ==> pixels::is_least(s, min_x as int) && pixels::is_greatest(s, max_x as int)
                &&& count == 0 ==> min_x == i32::MAX && max_x == i32::MIN
            }),
        decreases x1 + 1 - x,
    {
        let ghost s = gold_pixels(f, w, x0 as int, x as int, y as int);
        let ghost t = gold_pixels(f, w, x0 as int, x + 1, y as int);
        let p = pixels::pixel_at(frame, width, x, y);
        if play_button_gold_pixel(p.0, p.1, p.2) {
            proof {
                assert(t =~= s.insert(x as int));
                assert(!s.contains(x as int));
                if count == 0 {
                    assert(s =~= Set::empty());
                }
            }
            if x < min_x {
                min_x = x;
            }
            if x > max_x {
                max_x = x;
            }
            count = count + 1;
        } else {
            assert(t =~= s);
        }
        x = x + 1;
    }
    let ghost all = gold_pixels(f, w, x0 as int, x1 + 1, y as int);
    proof {
        assert(all =~= gold_pixels(f, w, x0 as int, x as int, y as int));
    }
    if count > 0 {
        proof {
            pixels::lemma_least(all, min_x as int);
            pixels::lemma_greatest(all, max_x as int);
            assert(all.contains(min_x as int) && all.contains(max_x as int));
        }
        Some((min_x, max_x, count))
    } else {
        None
    }
}

/// Where the search for the button's lower edge looks.
#[derive(Clone, Copy, Debug, PartialEq, Eq, Structural)]
pub struct EdgeSearch {
    /// The columns that are looked at, both included.
    pub x0: i32,
    pub x1: i32,
    /// The middle and the span of the upper edge.
    pub center: i32,
    pub span: i32,
    /// How far the middle of the lower edge may be off that of the upper.
    pub slack: i32,
}

/// Row `y` can be the lower edge of the button: it has at least 24 gold pixels, spans 65% to 125% of
/// the upper edge and has nearly the same middle.
pub open spec fn lower_edge(frame: Seq<u8>, width: int, e: EdgeSearch, y: int) -> bool {
    gold_span(frame, width, e.x0 as int, e.x1 as int, y) matches Some((a, b, n)) && {
        &&& n >= 24
        &&& e.span * 65 / 100 <= b - a <= e.span * 125 / 100
        &&& -e.slack <= (a + b) / 2 - e.center <= e.slack
    }
}

/// The last row of `from` to `to` that can be the lower edge.
pub open spec fn last_edge(frame: Seq<u8>, width: int, e: EdgeSearch, from: int, to: int) -> Option<int>
    decreases to - from + 1,
{
    if to < from {
        None
    } else if lower_edge(frame, width, e, to) {
        Some(to)
    } else {
        last_edge(frame, width, e, from, to - 1)
    }
}

/// The last row that can be the lower edge of a button whose upper edge is in row `top_y`: 12 to 90
/// rows below it, and not below row `y1`.
pub fn find_play_button_bottom_edge(frame: &[u8], width: i32, top_y: i32, y1: i32, e: EdgeSearch) -> (r: Option<i32>)
    requires
        e.x0 <= e.x1 && top_y + 12 <= smaller(top_y + 90, y1 as int) ==> {
            &&& 0 <= e.x0
            &&& e.x1 < width
            &&& 0 <= top_y + 12
            &&& pixels::row_fits(frame@.len() as int, width as int, smaller(top_y + 90, y1 as int))
        },
    ensures
        r is Some <==> last_edge(frame@, width as int, e, top_y + 12, smaller(top_y + 90, y1 as int)) is Some,
        r matches Some(y) ==> last_edge(frame@, width as int, e, top_y + 12, smaller(top_y + 90, y1 as int)) == Some(
            y as int,
        ) && top_y + 12 <= y <= y1,
{
    let ghost w = width as int;
    let ghost f = frame@;
    let min_span: i64 = if e.span >= 0 {
        e.span as i64 * 65 / 100
    } else {
        0
    };
    let max_span: i64 = if e.span >= 0 {
        e.span as i64 * 125 / 100
    } else {
        -1
    };
    let start: i64 = top_y as i64 + 12;
    let scan_bottom: i64 = if top_y as i64 + 90 < y1 as i64 {
        top_y as i64 + 90
    } else {
        y1 as i64
    };
    let mut bottom_y: Option<i32> = None;
    let mut y: i64 = start;
    while y <= scan_bottom
        invariant
            w == width && f == frame@,
            e.span >= 0 ==> min_span == e.span * 65 / 100 && max_span == e.span * 125 / 100,
            e.span < 0 ==> max_span == -1,
            start == top_y + 12,
            start <= y,
            scan_bottom == smaller(top_y + 90, y1 as int),
            y <= scan_bottom + 1 || y == start,
            e.x0 <= e.x1 && start <= scan_bottom ==> {
                &&& 0 <= e.x0
                &&& e.x1 < width
                &&& 0 <= start
                &&& pixels::row_fits(f.len() as int, w, scan_bottom as int)
            },
            bottom_y is Some <==> last_edge(f, w, e, start as int, y - 1) is Some,
            bottom_y matches Some(b) ==> last_edge(f, w, e, start as int, y - 1) == Some(b as int) && start <= b
                <= y1,
        decreases scan_bottom + 1 - y,
    {
        proof {
            if e.x0 <= e.x1 {
                assert((y + 1) * w * 4 <= (scan_bottom + 1) * w * 4) by (nonlinear_arith)
                    requires
                        0 <= y <= scan_bottom,
                        0 < w,
                ;
            }
        }
        if let Some((a, b, n)) = gold_row_span(frame, width, e.x0, e.x1, y as i32) {
            let span: i64 = b as i64 - a as i64;
            let center: i64 = (a as i64 + b as i64) / 2;
            let off: i64 = center - e.center as i64;
            if n >= 24 && span >= min_span && span <= max_span && off <= e.slack as i64 && -off <= e.slack as i64 {
                bottom_y = Some(y as i32);
            }
        }
        y = y + 1;
    }
    bottom_y
}

/// A number brought into a range.
pub open spec fn clamped(v: int, lo: int, hi: int) -> int {
    if v < lo {
        lo
    } else if v > hi {
        hi
    } else {
        v
    }
}

fn clamp(v: i64, lo: i64, hi: i64) -> (r: i64)
    requires
        lo <= hi,
    ensures
        r == clamped(v as int, lo as int, hi as int),
        lo <= r <= hi,
{
    if v < lo {
        lo
    } else if v > hi {
        hi
    } else {
        v
    }
}

/// How far the middle of the button may be off the middle of the searched columns.
pub open spec fn center_slack(x0: int, x1: int) -> int {
    clamped((x1 - x0) / 6, 50, 90)
}

/// The upper edge of the button in row `y`, by its first and last pixel: at least 40 gold pixels that
/// span 90 to 380 columns around the middle of the searched ones.
pub open spec fn upper_edge(frame: Seq<u8>, width: int, x0: int, x1: int, y: int) -> Option<(int, int)> {
    match gold_span(frame, width, x0, x1, y) {
        Some((a, b, n)) => {
            let off = (a + b) / 2 - (x0 + x1) / 2;
            let slack = center_slack(x0, x1);
            if n >= 40 && 90 <= b - a <= 380 && -slack <= off <= slack {
                Some((a, b))
            } else {
                None
            }
        },
        None => None,
    }
}

/// Where to click a button whose upper edge lies in row `y`: halfway to its lower edge or, where that
/// is not seen, a sixth of its span below.
pub open spec fn button_center(frame: Seq<u8>, width: int, x0: int, x1: int, y1: int, y: int, a: int, b: int) -> (
    int,
    int,
) {
    let e = EdgeSearch {
        x0: x0 as i32,
        x1: x1 as i32,
        center: ((a + b) / 2) as i32,
        span: (b - a) as i32,
        slack: center_slack(x0, x1) as i32,
    };
    let click_y = match last_edge(frame, width, e, y + 12, smaller(y + 90, y1)) {
        Some(bottom) => (y + bottom) / 2,
        None => smaller(y + clamped((b - a) / 6, 28, 44), y1),
    };
    ((a + b) / 2, click_y)
}

/// The middle of the first button from row `y` on.
pub open spec fn gold_button(frame: Seq<u8>, width: int, x0: int, x1: int, y: int, y1: int) -> Option<(int, int)>
    decreases y1 - y + 1,
{
    if y > y1 {
        None
    } else {
        match upper_edge(frame, width, x0, x1, y) {
            Some((a, b)) => Some(button_center(frame, width, x0, x1, y1, y, a, b)),
            None => gold_button(frame, width, x0, x1, y + 1, y1),
        }
    }
}

/// Finds the middle of the PLAY button in an area, by its gold frame. An area without rows or columns
/// to compare holds none.
pub fn detect_play_by_gold_frame_inner(frame: &[u8], width: i32, x0: i32, y0: i32, x1: i32, y1: i32) -> (r: Option<
    (i32, i32),
>)
    requires
        x0 < x1 && y0 < y1 ==> {
            &&& 0 <= x0
            &&& x1 < width
            &&& 0 <= y0
            &&& pixels::row_fits(frame@.len() as int, width as int, y1 as int)
        },
    ensures
        r is Some <==> x0 < x1 && y0 < y1 && gold_button(
            frame@,
            width as int,
            x0 as int,
            x1 as int,
            y0 as int,
            y1 as int,
        ) is Some,
        r matches Some((x, y)) ==> gold_button(frame@, width as int, x0 as int, x1 as int, y0 as int, y1 as int)
            == Some((x as int, y as int)),
{
    let ghost w = width as int;
    let ghost f = frame@;
    if x0 >= x1 || y0 >= y1 {
        return None;
    }
    let expected_x: i64 = (x0 as i64 + x1 as i64) / 2;
    let slack: i64 = clamp((x1 as i64 - x0 as i64) / 6, 50, 90);
    let mut y: i32 = y0;
    proof {
        assert(y1 < i32::MAX) by (nonlinear_arith)
            requires
                (y1 + 1) * w * 4 <= i32::MAX,
                w > 0,
                y1 > 0,
        ;
    }
    while y <= y1
        invariant
            w == width && f == frame@,
            0 <= x0 < x1 < width,
            0 <= y0 <= y <= y1 + 1,
            y0 < y1,
            y1 < i32::MAX,
            expected_x == (x0 + x1) / 2,
            slack == center_slack(x0 as int, x1 as int),
            pixels::row_fits(f.len() as int, w, y1 as int),
            gold_button(f, w, x0 as int, x1 as int, y0 as int, y1 as int) == gold_button(
                f,
                w,
                x0 as int,
                x1 as int,
                y as int,
                y1 as int,
            ),
        decreases y1 + 1 - y,
    {
        proof {
            assert((y + 1) * w * 4 <= (y1 + 1) * w * 4) by (nonlinear_arith)
                requires
                    0 <= y <= y1,
                    0 < w,
            ;
        }
        if let Some((a, b, n)) = gold_row_span(frame, width, x0, x1, y) {
            let span: i32 = b - a;
            let center: i64 = (a as i64 + b as i64) / 2;
            let off: i64 = center - expected_x;
            if n >= 40 && span >= 90 && span <= 380 && off <= slack && -off <= slack {
                let e = EdgeSearch { x0, x1, center: center as i32, span, slack: slack as i32 };
                proof {
                    let low = smaller(y + 90, y1 as int);
                    assert((low + 1) * w * 4 <= (y1 + 1) * w * 4) by (nonlinear_arith)
                        requires
                            0 <= low <= y1,
                            0 < w,
                    ;
                }
                let click_y: i64 = match find_play_button_bottom_edge(frame, width, y, y1, e) {
                    Some(bottom) => (y as i64 + bottom as i64) / 2,
                    None => {
                        let below: i64 = y as i64 + clamp(span as i64 / 6, 28, 44);
                        if below < y1 as i64 {
                            below
                        } else {
                            y1 as i64
                        }
                    },
                };
                proof {
                    let (a, b) = (a as int, b as int);
                    assert(upper_edge(f, w, x0 as int, x1 as int, y as int) == Some((a, b)));
                    assert(button_center(f, w, x0 as int, x1 as int, y1 as int, y as int, a, b) == (
                        center as int,
                        click_y as int,
                    ));
                }
                return Some((center as i32, click_y as i32));
            }
        }
        y = y + 1;
    }
    None
}

/// How the place to click was found.
#[derive(Clone, Copy, Debug, PartialEq, Eq, Structural)]
pub enum ClickMethod {
    GoldFrame,
    Anchor,
}

/// The name of a method in logs.
pub open spec fn method_name(m: ClickMethod) -> Seq<char> {
    match m {
        ClickMethod::GoldFrame => "play_gold_frame"@,
        ClickMethod::Anchor => "play_anchor"@,
    }
}

impl ClickMethod {
    /// The name of a method in logs.
    pub fn name(self) -> (name: &'static str)
        ensures
            name@ == method_name(self),
    {
        match self {
            ClickMethod::GoldFrame => "play_gold_frame",
            ClickMethod::Anchor => "play_anchor",
        }
    }
}

/// A place to click, in the captured area and on the screen.
#[derive(Clone, Copy, Debug, PartialEq, Eq, Structural)]
pub struct PlayClick {
    pub x: i32,
    pub y: i32,
    pub screen_x: i32,
    pub screen_y: i32,
    pub method: ClickMethod,
}

impl PlayClick {
    /// A place in the captured area.
    pub fn local(x: i32, y: i32, method: ClickMethod) -> (c: Self)
        ensures
            c == (PlayClick { x, y, screen_x: 0, screen_y: 0, method }),
    {
        PlayClick { x, y, screen_x: 0, screen_y: 0, method }
    }

    /// The same place, with its position on the screen.
    pub fn with_screen(self, capture_rect: Rect) -> (c: Self)
        requires
            i32::MIN <= capture_rect.left + self.x <= i32::MAX,
            i32::MIN <= capture_rect.top + self.y <= i32::MAX,
        ensures
            c == (PlayClick {
                screen_x: (capture_rect.left + self.x) as i32,
                screen_y: (capture_rect.top + self.y) as i32,
                ..self
            }),
            same_place(c, capture_rect),
    {
        PlayClick {
            x: self.x,
            y: self.y,
            screen_x: capture_rect.left + self.x,
            screen_y: capture_rect.top + self.y,
            method: self.method,
        }
    }

    /// Where the cursor was when it clicked, seen from the captured area.
    pub fn at_cursor(self, capture_rect: Rect, x: i32, y: i32) -> (c: Self)
        requires
            i32::MIN <= x - capture_rect.left <= i32::MAX,
            i32::MIN <= y - capture_rect.top <= i32::MAX,
        ensures
            c == (PlayClick {
                x: (x - capture_rect.left) as i32,
                y: (y - capture_rect.top) as i32,
                screen_x: x,
                screen_y: y,
                method: self.method,
            }),
            same_place(c, capture_rect),
    {
        PlayClick {
            x: x - capture_rect.left,
            y: y - capture_rect.top,
            screen_x: x,
            screen_y: y,
            method: self.method,
        }
    }
}

/// `p` percent of a length.
pub open spec fn percent(v: int, p: int) -> int {
    v * p / 100
}

/// A frame that is no larger than its percentages can be computed with, and whose edges are numbers.
pub open spec fn usable(rect: Rect) -> bool {
    &&& 0 <= rect.width
    &&& 0 <= rect.height
    &&& rect.width * 72 <= i32::MAX
    &&& rect.height * 95 <= i32::MAX
    &&& rect.left + rect.width <= i32::MAX
    &&& rect.top + rect.height <= i32::MAX
}

/// The area of a frame that is searched for the button, cut to the screen: its first and last column
/// and its first and last row.
pub open spec fn button_area(rect: Rect, width: int, height: int) -> (int, int, int, int) {
    (
        clamped(rect.left + percent(rect.width as int, 28), 0, width - 1),
        clamped(rect.left + percent(rect.width as int, 72), 0, width - 1),
        clamped(rect.top + percent(rect.height as int, 80), 0, height - 1),
        clamped(rect.top + percent(rect.height as int, 95), 0, height - 1),
    )
}

/// Where to click PLAY in a frame: in the middle of the gold button or, where none is seen, at its
/// usual place.
pub open spec fn play_place(frame: Seq<u8>, width: int, height: int, rect: Rect) -> PlayClick {
    let (x0, x1, y0, y1) = button_area(rect, width, height);
    let found = if x0 < x1 && y0 < y1 {
        gold_button(frame, width, x0, x1, y0, y1)
    } else {
        None
    };
    match found {
        Some((x, y)) => PlayClick {
            x: x as i32,
            y: y as i32,
            screen_x: 0,
            screen_y: 0,
            method: ClickMethod::GoldFrame,
        },
        None => PlayClick {
            x: (rect.left + rect.width as int / 2) as i32,
            y: (rect.top + percent(rect.height as int, 87)) as i32,
            screen_x: 0,
            screen_y: 0,
            method: ClickMethod::Anchor,
        },
    }
}

/// Finds where to click PLAY. There is always such a place.
pub fn detect_play_button(frame: &[u8], width: i32, height: i32, rect: Rect) -> (r: Option<PlayClick>)
    requires
        0 < width,
        0 < height,
        pixels::frame_fits(frame@.len() as int, width as int, height as int),
        usable(rect),
    ensures
        r == Some(play_place(frame@, width as int, height as int, rect)),
{
    let left: i64 = rect.left as i64;
    let top: i64 = rect.top as i64;
    let w: i64 = rect.width as i64;
    let h: i64 = rect.height as i64;
    let x0: i32 = clamp(left + w * 28 / 100, 0, width as i64 - 1) as i32;
    let x1: i32 = clamp(left + w * 72 / 100, 0, width as i64 - 1) as i32;
    let y0: i32 = clamp(top + h * 80 / 100, 0, height as i64 - 1) as i32;
    let y1: i32 = clamp(top + h * 95 / 100, 0, height as i64 - 1) as i32;
    proof {
        pixels::lemma_row_fits(frame@.len() as int, width as int, height as int, y1 as int);
    }
    if let Some((x, y)) = detect_play_by_gold_frame_inner(frame, width, x0, y0, x1, y1) {
        return Some(PlayClick::local(x, y, ClickMethod::GoldFrame));
    }
    let x: i64 = left + w / 2;
    let y: i64 = top + h * 87 / 100;
    Some(PlayClick::local(x as i32, y as i32, ClickMethod::Anchor))
}

/// A set of numbers between `lo` and `hi` that is not empty has a least and a greatest number, which
/// lie between them too.
proof fn lemma_extent(s: Set<int>, lo: int, hi: int)
    requires
        forall|x: int| #[trigger] s.contains(x) ==> lo <= x <= hi,
        exists|x: int| s.contains(x),
    ensures
        lo <= pixels::least(s) <= pixels::greatest(s) <= hi,
        s.contains(pixels::least(s)),
        s.contains(pixels::greatest(s)),
    decreases hi - lo + 1,
{
    let some = choose|x: int| s.contains(x);
    assert(s.contains(some));
    if s.contains(lo) && s.contains(hi) {
        pixels::lemma_least(s, lo);
        pixels::lemma_greatest(s, hi);
    } else if !s.contains(lo) {
        lemma_extent(s, lo + 1, hi);
    } else {
        lemma_extent(s, lo, hi - 1);
    }
}

/// The gold pixels of a row lie between the columns that were looked at.
proof fn lemma_gold_span(frame: Seq<u8>, width: int, x0: int, x1: int, y: int)
    ensures
        gold_span(frame, width, x0, x1, y) matches Some((a, b, n)) ==> x0 <= a <= b <= x1,
{
    let s = gold_pixels(frame, width, x0, x1 + 1, y);
    if s.len() != 0 {
        assert(exists|x: int| s.contains(x)) by {
            if !(exists|x: int| s.contains(x)) {
                assert(s =~= Set::empty());
            }
        }
        lemma_extent(s, x0, x1);
    }
}

proof fn lemma_last_edge(frame: Seq<u8>, width: int, e: EdgeSearch, from: int, to: int)
    ensures
        last_edge(frame, width, e, from, to) matches Some(y) ==> from <= y <= to,
    decreases to - from + 1,
{
    if !(to < from || lower_edge(frame, width, e, to)) {
        lemma_last_edge(frame, width, e, from, to - 1);
    }
}

/// The middle of a button that was found lies in the searched area.
pub proof fn lemma_button_inside(frame: Seq<u8>, width: int, x0: int, x1: int, y: int, y1: int)
    ensures
        gold_button(frame, width, x0, x1, y, y1) matches Some((cx, cy)) ==> x0 <= cx <= x1 && y <= cy <= y1,
    decreases y1 - y + 1,
{
    if y <= y1 {
        match upper_edge(frame, width, x0, x1, y) {
            Some((a, b)) => {
                lemma_gold_span(frame, width, x0, x1, y);
                let e = EdgeSearch {
                    x0: x0 as i32,
                    x1: x1 as i32,
                    center: ((a + b) / 2) as i32,
                    span: (b - a) as i32,
                    slack: center_slack(x0, x1) as i32,
                };
                lemma_last_edge(frame, width, e, y + 12, smaller(y + 90, y1));
            },
            None => {
                lemma_button_inside(frame, width, x0, x1, y + 1, y1);
            },
        }
    }
}

/// PLAY is clicked on the captured screen, where the frame lies on it.
pub proof fn lemma_play_place(frame: Seq<u8>, width: int, height: int, rect: Rect)
    requires
        usable(rect),
        0 <= rect.left,
        0 <= rect.top,
        0 < rect.width,
        0 < rect.height,
        rect.left + rect.width <= width <= i32::MAX,
        rect.top + rect.height <= height <= i32::MAX,
    ensures
        0 <= play_place(frame, width, height, rect).x < width,
        0 <= play_place(frame, width, height, rect).y < height,
{
    let (x0, x1, y0, y1) = button_area(rect, width, height);
    lemma_button_inside(frame, width, x0, x1, y0, y1);
}

/// The area that is searched for the button lies in the frame, from 28 % to 72 % of its width and from 80 % to 95 %
/// of its height.
pub proof fn lemma_button_area(rect: Rect, width: int, height: int)
    requires
        usable(rect),
        0 <= rect.left,
        0 <= rect.top,
        0 < rect.width,
        0 < rect.height,
        rect.left + rect.width <= width,
        rect.top + rect.height <= height,
    ensures
        ({
            let (x0, x1, y0, y1) = button_area(rect, width, height);
            &&& rect.left <= x0 <= x1 < rect.left + rect.width
            &&& rect.top <= y0 <= y1 < rect.top + rect.height
            &&& 100 * (x0 - rect.left) <= 28 * rect.width < 100 * (x0 - rect.left + 1)
            &&& 100 * (x1 - rect.left) <= 72 * rect.width < 100 * (x1 - rect.left + 1)
            &&& 100 * (y0 - rect.top) <= 80 * rect.height < 100 * (y0 - rect.top + 1)
            &&& 100 * (y1 - rect.top) <= 95 * rect.height < 100 * (y1 - rect.top + 1)
        }),
{
}

/// PLAY is clicked inside the frame, from 28 % to 72 % of its width and from 80 % to 95 % of its height; where no
/// button is seen, in the middle and at 87 % of the height.
pub proof fn lemma_click_in_frame(frame: Seq<u8>, width: int, height: int, rect: Rect)
    requires
        usable(rect),
        0 <= rect.left,
        0 <= rect.top,
        0 < rect.width,
        0 < rect.height,
        rect.left + rect.width <= width <= i32::MAX,
        rect.top + rect.height <= height <= i32::MAX,
    ensures
        ({
            let c = play_place(frame, width, height, rect);
            &&& rect.left <= c.x < rect.left + rect.width
            &&& rect.top <= c.y < rect.top + rect.height
            &&& 28 * rect.width < 100 * (c.x - rect.left + 1)
            &&& 100 * (c.x - rect.left) <= 72 * rect.width
            &&& 80 * rect.height < 100 * (c.y - rect.top + 1)
            &&& 100 * (c.y - rect.top) <= 95 * rect.height
            &&& c.method is Anchor ==> 0 <= rect.width - 2 * (c.x - rect.left) <= 1
            &&& c.method is Anchor ==> 0 <= 87 * rect.height - 100 * (c.y - rect.top) < 100
        }),
{
    let (x0, x1, y0, y1) = button_area(rect, width, height);
    lemma_button_area(rect, width, height);
    lemma_button_inside(frame, width, x0, x1, y0, y1);
}

/// The picture of one screen shows in another one, moved by `(dx, dy)`, in the columns `x0` to `x1` and the rows
/// `y0` to `y1` of the first.
pub open spec fn shows_moved(
    frame: Seq<u8>,
    width: int,
    other: Seq<u8>,
    other_width: int,
    area: (int, int, int, int),
    dx: int,
    dy: int,
) -> bool {
    forall|x: int, y: int|
        area.0 <= x <= area.1 && area.2 <= y <= area.3 ==> #[trigger] pixels::pixel(frame, width, x, y) == pixels::pixel(
            other,
            other_width,
            x + dx,
            y + dy,
        )
}

proof fn lemma_gold_moved(
    frame: Seq<u8>,
    width: int,
    other: Seq<u8>,
    other_width: int,
    x0: int,
    end: int,
    y: int,
    dx: int,
    dy: int,
)
    requires
        shows_moved(frame, width, other, other_width, (x0, end - 1, y, y), dx, dy),
    ensures
        gold_pixels(frame, width, x0, end, y).finite(),
        gold_pixels(other, other_width, x0 + dx, end + dx, y + dy).finite(),
        gold_pixels(frame, width, x0, end, y).len() == gold_pixels(other, other_width, x0 + dx, end + dx, y + dy).len(),
        forall|x: int| #[trigger]
            gold_pixels(frame, width, x0, end, y).contains(x) ==> gold_pixels(
                other,
                other_width,
                x0 + dx,
                end + dx,
                y + dy,
            ).contains(x + dx),
        forall|x: int| #[trigger]
            gold_pixels(other, other_width, x0 + dx, end + dx, y + dy).contains(x) ==> gold_pixels(
                frame,
                width,
                x0,
                end,
                y,
            ).contains(x - dx),
    decreases end - x0,
{
    let s = gold_pixels(frame, width, x0, end, y);
    let t = gold_pixels(other, other_width, x0 + dx, end + dx, y + dy);
    if end <= x0 {
        assert(s =~= Set::empty());
        assert(t =~= Set::empty());
    } else {
        let last = end - 1;
        lemma_gold_moved(frame, width, other, other_width, x0, last, y, dx, dy);
        let sb = gold_pixels(frame, width, x0, last, y);
        let tb = gold_pixels(other, other_width, x0 + dx, last + dx, y + dy);
        assert(pixels::pixel(frame, width, last, y) == pixels::pixel(other, other_width, last + dx, y + dy));
        if gold(pixels::pixel(frame, width, last, y)) {
            assert(s =~= sb.insert(last));
            assert(t =~= tb.insert(last + dx));
        } else {
            assert(s =~= sb);
            assert(t =~= tb);
        }
        assert forall|x: int| #[trigger] s.contains(x) implies t.contains(x + dx) by {
            assert(pixels::pixel(frame, width, x, y) == pixels::pixel(other, other_width, x + dx, y + dy));
        }
        assert forall|x: int| #[trigger] t.contains(x) implies s.contains(x - dx) by {
            assert(pixels::pixel(frame, width, x - dx, y) == pixels::pixel(other, other_width, x - dx + dx, y + dy));
        }
    }
}

proof fn lemma_span_moved(
    frame: Seq<u8>,
    width: int,
    other: Seq<u8>,
    other_width: int,
    x0: int,
    x1: int,
    y: int,
    dx: int,
    dy: int,
)
    requires
        shows_moved(frame, width, other, other_width, (x0, x1, y, y), dx, dy),
    ensures
        gold_span(other, other_width, x0 + dx, x1 + dx, y + dy) == match gold_span(frame, width, x0, x1, y) {
            Some((a, b, n)) => Some((a + dx, b + dx, n)),
            None => None,
        },
{
    assert(shows_moved(frame, width, other, other_width, (x0, x1 + 1 - 1, y, y), dx, dy));
    lemma_gold_moved(frame, width, other, other_width, x0, x1 + 1, y, dx, dy);
    let s = gold_pixels(frame, width, x0, x1 + 1, y);
    let t = gold_pixels(other, other_width, x0 + dx, x1 + dx + 1, y + dy);
    assert(x1 + 1 + dx == x1 + dx + 1);
    assert(t == gold_pixels(other, other_width, x0 + dx, x1 + 1 + dx, y + dy));
    if s.len() != 0 {
        assert(exists|x: int| s.contains(x)) by {
            if !(exists|x: int| s.contains(x)) {
                assert(s =~= Set::empty());
            }
        }
        lemma_extent(s, x0, x1);
        let a = pixels::least(s);
        let b = pixels::greatest(s);
        lemma_has_bounds(s, x0, x1);
        assert(s.contains(a) && s.contains(b));
        assert(t.contains(a + dx) && t.contains(b + dx));
        assert forall|x: int| #[trigger] t.contains(x) implies a + dx <= x <= b + dx by {
            assert(s.contains(x - dx));
        }
        pixels::lemma_least(t, a + dx);
        pixels::lemma_greatest(t, b + dx);
    }
}

proof fn lemma_has_bounds(s: Set<int>, lo: int, hi: int)
    requires
        forall|x: int| #[trigger] s.contains(x) ==> lo <= x <= hi,
        exists|x: int| s.contains(x),
    ensures
        pixels::is_least(s, pixels::least(s)),
        pixels::is_greatest(s, pixels::greatest(s)),
    decreases hi - lo + 1,
{
    let some = choose|x: int| s.contains(x);
    assert(s.contains(some));
    if s.contains(lo) && s.contains(hi) {
        pixels::lemma_least(s, lo);
        pixels::lemma_greatest(s, hi);
    } else if !s.contains(lo) {
        lemma_has_bounds(s, lo + 1, hi);
    } else {
        lemma_has_bounds(s, lo, hi - 1);
    }
}

proof fn lemma_last_edge_moved(
    frame: Seq<u8>,
    width: int,
    other: Seq<u8>,
    other_width: int,
    e: EdgeSearch,
    m: EdgeSearch,
    from: int,
    to: int,
    dx: int,
    dy: int,
)
    requires
        shows_moved(frame, width, other, other_width, (e.x0 as int, e.x1 as int, from, to), dx, dy),
        m.x0 == e.x0 + dx,
        m.x1 == e.x1 + dx,
        m.center == e.center + dx,
        m.span == e.span,
        m.slack == e.slack,
    ensures
        last_edge(other, other_width, m, from + dy, to + dy) == match last_edge(frame, width, e, from, to) {
            Some(y) => Some(y + dy),
            None => None,
        },
    decreases to - from + 1,
{
    if to >= from {
        lemma_span_moved(frame, width, other, other_width, e.x0 as int, e.x1 as int, to, dx, dy);
        assert(lower_edge(frame, width, e, to) == lower_edge(other, other_width, m, to + dy));
        if !lower_edge(frame, width, e, to) {
            lemma_last_edge_moved(frame, width, other, other_width, e, m, from, to - 1, dx, dy);
            assert(to - 1 + dy == to + dy - 1);
        }
    }
}

/// A button is found where the picture shows it: in a picture that is moved, at the place moved alike.
pub proof fn lemma_button_moved(
    frame: Seq<u8>,
    width: int,
    other: Seq<u8>,
    other_width: int,
    x0: int,
    x1: int,
    y: int,
    y1: int,
    dx: int,
    dy: int,
)
    requires
        0 <= x0 <= x1 <= i32::MAX,
        0 <= x0 + dx,
        x1 + dx <= i32::MAX,
        shows_moved(frame, width, other, other_width, (x0, x1, y, y1), dx, dy),
    ensures
        gold_button(other, other_width, x0 + dx, x1 + dx, y + dy, y1 + dy) == match gold_button(
            frame,
            width,
            x0,
            x1,
            y,
            y1,
        ) {
            Some((cx, cy)) => Some((cx + dx, cy + dy)),
            None => None,
        },
    decreases y1 - y + 1,
{
    if y <= y1 {
        lemma_span_moved(frame, width, other, other_width, x0, x1, y, dx, dy);
        lemma_gold_span(frame, width, x0, x1, y);
        match upper_edge(frame, width, x0, x1, y) {
            Some((a, b)) => {
                let e = EdgeSearch {
                    x0: x0 as i32,
                    x1: x1 as i32,
                    center: ((a + b) / 2) as i32,
                    span: (b - a) as i32,
                    slack: center_slack(x0, x1) as i32,
                };
                let m = EdgeSearch {
                    x0: (x0 + dx) as i32,
                    x1: (x1 + dx) as i32,
                    center: ((a + dx + b + dx) / 2) as i32,
                    span: (b - a) as i32,
                    slack: center_slack(x0 + dx, x1 + dx) as i32,
                };
                assert(upper_edge(other, other_width, x0 + dx, x1 + dx, y + dy) == Some((a + dx, b + dx)));
                lemma_last_edge_moved(frame, width, other, other_width, e, m, y + 12, smaller(y + 90, y1), dx, dy);
                assert(y + 12 + dy == y + dy + 12);
                assert(smaller(y + 90, y1) + dy == smaller(y + dy + 90, y1 + dy));
                assert(m == EdgeSearch {
                    x0: (x0 + dx) as i32,
                    x1: (x1 + dx) as i32,
                    center: (((a + dx) + (b + dx)) / 2) as i32,
                    span: ((b + dx) - (a + dx)) as i32,
                    slack: center_slack(x0 + dx, x1 + dx) as i32,
                });
            },
            None => {
                assert(upper_edge(other, other_width, x0 + dx, x1 + dx, y + dy) is None);
                lemma_button_moved(frame, width, other, other_width, x0, x1, y + 1, y1, dx, dy);
                assert(y + 1 + dy == y + dy + 1);
            },
        }
    }
}

/// Where a frame and its picture are moved alike, so is the place to click.
pub proof fn lemma_click_moved(
    frame: Seq<u8>,
    width: int,
    height: int,
    rect: Rect,
    other: Seq<u8>,
    other_width: int,
    other_height: int,
    moved: Rect,
)
    requires
        usable(rect),
        0 <= rect.left,
        0 <= rect.top,
        0 < rect.width,
        0 < rect.height,
        rect.left + rect.width <= width <= i32::MAX,
        rect.top + rect.height <= height <= i32::MAX,
        usable(moved),
        0 <= moved.left,
        0 <= moved.top,
        moved.width == rect.width,
        moved.height == rect.height,
        moved.left + moved.width <= other_width <= i32::MAX,
        moved.top + moved.height <= other_height <= i32::MAX,
        shows_moved(
            frame,
            width,
            other,
            other_width,
            (rect.left as int, rect.left + rect.width - 1, rect.top as int, rect.top + rect.height - 1),
            moved.left - rect.left,
            moved.top - rect.top,
        ),
    ensures
        ({
            let c = play_place(frame, width, height, rect);
            let m = play_place(other, other_width, other_height, moved);
            &&& m.x - moved.left == c.x - rect.left
            &&& m.y - moved.top == c.y - rect.top
            &&& m.method == c.method
        }),
{
    let (x0, x1, y0, y1) = button_area(rect, width, height);
    let dx = moved.left - rect.left;
    let dy = moved.top - rect.top;
    lemma_button_area(rect, width, height);
    lemma_button_area(moved, other_width, other_height);
    assert(button_area(moved, other_width, other_height) == (x0 + dx, x1 + dx, y0 + dy, y1 + dy));
    lemma_button_moved(frame, width, other, other_width, x0, x1, y0, y1, dx, dy);
    lemma_button_inside(frame, width, x0, x1, y0, y1);
    lemma_button_inside(other, other_width, x0 + dx, x1 + dx, y0 + dy, y1 + dy);
}

/// The colours of the standard frame's corners: each channel in its range, red no darker than blue, and no two
/// channels more than 90 apart. A grey is one of them from 55 to 135.
pub proof fn lemma_standard_corner(r: u8, g: u8, b: u8)
    ensures
        standard_corner(r, g, b) ==> r - g <= 90 && g - r <= 90 && g - b <= 90 && b - g <= 90 && 0 <= r - b <= 90,
        standard_corner(r, g, b) ==> 55 <= r <= 190 && 45 <= g <= 155 && 35 <= b <= 135,
        55 <= r <= 190 && 45 <= g <= 155 && 35 <= b <= 135 && -90 <= r - g <= 90 && -90 <= g - b <= 90 && 0 <= r - b <= 90
            ==> standard_corner(r, g, b),
        standard_corner(r, r, r) <==> 54 < r < 136,
{
}

/// The colours of the boot breaker frame's corners: orange from red 115 on with some green, or dark red from 70 on
/// with little green and clearly more red than blue; never with much blue. More red never hurts.
pub proof fn lemma_boot_breaker_corner(r: u8, g: u8, b: u8, more: u8)
    requires
        r <= more,
    ensures
        boot_breaker_corner(r, g, b) ==> boot_breaker_corner(more, g, b),
        boot_breaker_corner(r, g, b) ==> r > 69 && g < 176 && b < 91,
        boot_breaker_corner(r, g, b) && r < 115 ==> g < 71 && r - b > 25,
        boot_breaker_corner(r, g, b) && g > 70 ==> r > 114,
        b < 91 && r > 114 && 19 < g < 176 ==> boot_breaker_corner(r, g, b),
        b < 91 && r > 69 && g < 71 && r - b > 25 ==> boot_breaker_corner(r, g, b),
        boot_breaker_corner(r, g, b) && g < 20 ==> r - b > 25,
{
}

/// The gold of the button: each channel in its range, red at least as bright as green and at least 25 brighter than
/// blue, and green at most 18 darker than blue.
pub proof fn lemma_gold(r: u8, g: u8, b: u8)
    ensures
        gold((r, g, b)) ==> 94 < r < 236 && 69 < g < 191 && 34 < b < 146,
        gold((r, g, b)) ==> r >= g && r > b + 24 && b - g < 19,
        94 < r < 236 && 69 < g < 191 && 34 < b < 146 && g <= r && b + 25 <= r && b <= g + 18 ==> gold((r, g, b)),
        !gold((r, r, r)),
{
}

/// The position lies in the frame or on its right or lower border.
pub open spec fn in_frame(r: Rect, x: int, y: int) -> bool {
    r.left <= x <= r.left + r.width && r.top <= y <= r.top + r.height
}

/// A frame that is found holds every corner pixel with the detector's padding around it, as far as the screen goes,
/// and no more than that: each of its sides is the padding away from a corner pixel or at the screen's edge.
pub proof fn lemma_frame_around_corners(frame: Seq<u8>, width: i32, height: i32, d: Detector)
    requires
        frame_rect(frame, width as int, height as int, d) is Some,
    ensures
        ({
            let r = frame_rect(frame, width as int, height as int, d)->0;
            let s = corner_pixels(frame, width as int, height as int, d);
            let standard = d is StandardFrame;
            let pl: int = if standard { 42 } else { 4 };
            let pt: int = if standard { 24 } else { 4 };
            let pr: int = if standard { 42 } else { 10 };
            let pb: int = if standard { 36 } else { 28 };
            &&& s.len() >= 120
            &&& forall|x: int, y: int, px: int, py: int|
                #![trigger s.contains((x, y)), in_frame(r, px, py)]
                s.contains((x, y)) && 0 <= px < width && 0 <= py < height && x - pl <= px <= x + pr && y - pt <= py <= y + pb
                    ==> in_frame(r, px, py)
            &&& r.left == 0 || exists|x: int, y: int| #[trigger] s.contains((x, y)) && x == r.left + pl
            &&& r.top == 0 || exists|x: int, y: int| #[trigger] s.contains((x, y)) && y == r.top + pt
            &&& r.left + r.width == width - 1 || exists|x: int, y: int| #[trigger] s.contains((x, y)) && x == r.left + r.width - pr
            &&& r.top + r.height == height - 1 || exists|x: int, y: int| #[trigger] s.contains((x, y)) && y == r.top + r.height - pb
        }),
{
    let w = width as int;
    let h = height as int;
    let s = corner_pixels(frame, w, h, d);
    lemma_corners_bounded(frame, w, h, d);
    let x0 = pixels::least(pixels::columns(s));
    let y0 = pixels::least(pixels::rows(s));
    let x1 = pixels::greatest(pixels::columns(s));
    let y1 = pixels::greatest(pixels::rows(s));
    let r = frame_rect(frame, w, h, d)->0;
    assert forall|x: int, y: int, px: int, py: int|
        #![trigger s.contains((x, y)), in_frame(r, px, py)]
        s.contains((x, y)) && 0 <= px < width && 0 <= py < height && x - padding(d).0 <= px <= x + padding(d).2 && y - padding(
            d,
        ).1 <= py <= y + padding(d).3 implies in_frame(r, px, py) by {
        assert(pixels::columns(s).contains(x));
        assert(pixels::rows(s).contains(y));
    }
    assert(pixels::columns(s).contains(x0) && pixels::columns(s).contains(x1));
    assert(pixels::rows(s).contains(y0) && pixels::rows(s).contains(y1));
    let ya = choose|y: int| #[trigger] s.contains((x0, y));
    let yb = choose|y: int| #[trigger] s.contains((x1, y));
    let xa = choose|x: int| #[trigger] s.contains((x, y0));
    let xb = choose|x: int| #[trigger] s.contains((x, y1));
    assert(s.contains((x0, ya)) && s.contains((x1, yb)) && s.contains((xa, y0)) && s.contains((xb, y1)));
    if r.left != 0 {
        assert(r.left + padding(d).0 == x0);
    }
    if r.top != 0 {
        assert(r.top + padding(d).1 == y0);
    }
    if r.left + r.width != width - 1 {
        assert(r.left + r.width - padding(d).2 == x1);
    }
    if r.top + r.height != height - 1 {
        assert(r.top + r.height - padding(d).3 == y1);
    }
}

proof fn lemma_corners_bounded(frame: Seq<u8>, width: int, height: int, d: Detector)
    requires
        corner_pixels(frame, width, height, d).len() > 0,
        0 <= width,
        0 <= height,
    ensures
        ({
            let s = corner_pixels(frame, width, height, d);
            &&& pixels::is_least(pixels::columns(s), pixels::least(pixels::columns(s)))
            &&& pixels::is_least(pixels::rows(s), pixels::least(pixels::rows(s)))
            &&& pixels::is_greatest(pixels::columns(s), pixels::greatest(pixels::columns(s)))
            &&& pixels::is_greatest(pixels::rows(s), pixels::greatest(pixels::rows(s)))
            &&& forall|x: int, y: int| #[trigger] s.contains((x, y)) ==> 0 <= x < width && 0 <= y < height
        }),
{
    let s = corner_pixels(frame, width, height, d);
    let cs = pixels::columns(s);
    let rs = pixels::rows(s);
    assert(exists|p: (int, int)| s.contains(p)) by {
        if !(exists|p: (int, int)| s.contains(p)) {
            assert(s =~= Set::empty());
        }
    }
    let p = choose|p: (int, int)| s.contains(p);
    assert(s.contains((p.0, p.1)));
    assert(cs.contains(p.0));
    assert(rs.contains(p.1));
    assert forall|x: int, y: int| #[trigger] s.contains((x, y)) implies 0 <= x < width && 0 <= y < height by {}
    assert forall|x: int| #[trigger] cs.contains(x) implies 0 <= x <= width - 1 by {
        let y = choose|y: int| #[trigger] s.contains((x, y));
        assert(s.contains((x, y)));
    }
    assert forall|y: int| #[trigger] rs.contains(y) implies 0 <= y <= height - 1 by {
        let x = choose|x: int| #[trigger] s.contains((x, y));
        assert(s.contains((x, y)));
    }
    lemma_has_bounds(cs, 0, width - 1);
    lemma_has_bounds(rs, 0, height - 1);
}

/// A frame is found as soon as there are 120 corner pixels that reach over 220 columns and 160 rows.
pub proof fn lemma_wide_corners_found(frame: Seq<u8>, width: i32, height: i32, d: Detector, a: (int, int), b: (int, int))
    requires
        0 <= width,
        0 <= height,
        corner_pixels(frame, width as int, height as int, d).len() >= 120,
        corner_pixels(frame, width as int, height as int, d).contains(a),
        corner_pixels(frame, width as int, height as int, d).contains(b),
        b.0 - a.0 >= 220,
        b.1 - a.1 >= 160 || a.1 - b.1 >= 160,
    ensures
        frame_rect(frame, width as int, height as int, d) is Some,
{
    let s = corner_pixels(frame, width as int, height as int, d);
    lemma_corners_bounded(frame, width as int, height as int, d);
    assert(s.contains((a.0, a.1)) && s.contains((b.0, b.1)));
    assert(pixels::columns(s).contains(a.0) && pixels::columns(s).contains(b.0));
    assert(pixels::rows(s).contains(a.1) && pixels::rows(s).contains(b.1));
}

/// Corners are looked for in the screen without about a tenth on the left and on the right, a twelfth above and a
/// twentieth below.
pub proof fn lemma_scanned(frame: Seq<u8>, width: int, height: int, d: Detector, x: int, y: int)
    requires
        0 <= width,
        0 <= height,
    ensures
        corner_pixels(frame, width, height, d).contains((x, y)) ==> 10 * (x + 1) > width && 10 * (width - x) >= width && 12 * (y
            + 1) > height && 20 * (height - y) > height - 20 && 0 <= x < width && 0 <= y < height,
        10 * x >= width && 10 * (width - x) >= width + 10 && 12 * y >= height && 20 * (height - y) >= height + 20 && corner(
            d,
            pixels::pixel(frame, width, x, y),
        ) ==> corner_pixels(frame, width, height, d).contains((x, y)),
{
}

/// The upper edge of a button: its ends are gold with no gold beyond them in the searched columns, there are at least
/// 40 gold pixels, the ends are 90 to 380 columns apart, and their middle is within 90 columns of the middle of
/// the searched ones, within 50 where fewer than 300 columns are searched.
pub proof fn lemma_upper_edge(frame: Seq<u8>, width: int, x0: int, x1: int, y: int)
    ensures
        upper_edge(frame, width, x0, x1, y) matches Some((a, b)) ==> {
            &&& x0 <= a < b <= x1
            &&& gold(pixels::pixel(frame, width, a, y))
            &&& gold(pixels::pixel(frame, width, b, y))
            &&& forall|x: int|
                x0 <= x <= x1 && gold(#[trigger] pixels::pixel(frame, width, x, y)) ==> a <= x <= b
            &&& gold_pixels(frame, width, x0, x1 + 1, y).len() >= 40
            &&& 90 <= b - a <= 380
            &&& -181 <= (a + b) - (x0 + x1) <= 181
            &&& x1 - x0 < 300 ==> -101 <= (a + b) - (x0 + x1) <= 101
        },
        upper_edge(frame, width, x0, x1, y) is None ==> {
            let s = gold_pixels(frame, width, x0, x1 + 1, y);
            forall|a: int, b: int|
                #![trigger s.contains(a), s.contains(b)]
                pixels::is_least(s, a) && pixels::is_greatest(s, b) && s.len() >= 40 && 90 <= b - a <= 380 ==> (a + b) - (x0
                    + x1) < -99 || (a + b) - (x0 + x1) > 99
        },
{
    let s = gold_pixels(frame, width, x0, x1 + 1, y);
    if s.len() != 0 {
        assert(exists|x: int| s.contains(x)) by {
            if !(exists|x: int| s.contains(x)) {
                assert(s =~= Set::empty());
            }
        }
        lemma_extent(s, x0, x1);
        lemma_has_bounds(s, x0, x1);
        assert forall|x: int| x0 <= x <= x1 && gold(#[trigger] pixels::pixel(frame, width, x, y)) implies pixels::least(s) <= x
            <= pixels::greatest(s) by {
            assert(s.contains(x));
        }
        assert forall|a: int, b: int|
            #![trigger s.contains(a), s.contains(b)]
            pixels::is_least(s, a) && pixels::is_greatest(s, b) implies a == pixels::least(s) && b == pixels::greatest(s) by {
            pixels::lemma_least(s, a);
            pixels::lemma_greatest(s, b);
        }
    }
}

/// The lower edge that is taken is the last row in reach that can be one: none below it can.
pub proof fn lemma_lowest_edge(frame: Seq<u8>, width: int, e: EdgeSearch, from: int, to: int)
    ensures
        last_edge(frame, width, e, from, to) is None ==> forall|y: int|
            from <= y <= to ==> !#[trigger] lower_edge(frame, width, e, y),
        last_edge(frame, width, e, from, to) matches Some(m) ==> {
            &&& from <= m <= to
            &&& lower_edge(frame, width, e, m)
            &&& forall|y: int| m < y <= to ==> !#[trigger] lower_edge(frame, width, e, y)
        },
    decreases to - from + 1,
{
    if !(to < from || lower_edge(frame, width, e, to)) {
        lemma_lowest_edge(frame, width, e, from, to - 1);
    }
}

/// The lower edge of a button has its ends in the searched columns, 65 % to 125 % as far apart as those of the upper
/// one, with the same middle to within the slack, and at least 24 gold pixels.
pub proof fn lemma_lower_edge(frame: Seq<u8>, width: int, e: EdgeSearch, y: int)
    requires
        0 <= e.span,
    ensures
        ({
            let s = gold_pixels(frame, width, e.x0 as int, e.x1 + 1, y);
            let a = pixels::least(s);
            let b = pixels::greatest(s);
            &&& lower_edge(frame, width, e, y) ==> s.len() > 23 && 100 * (b - a) > 65 * e.span - 100 && 100 * (b - a) <= 125
                * e.span && 2 * e.center - 2 * e.slack <= a + b <= 2 * e.center + 2 * e.slack + 1
            &&& s.len() > 23 && 100 * (b - a) >= 65 * e.span && 100 * (b - a) <= 125 * e.span && 2 * e.center - 2 * e.slack <= a
                + b <= 2 * e.center + 2 * e.slack ==> lower_edge(frame, width, e, y)
        }),
{
}

/// A button is found by the first row that holds an upper edge. It is clicked in the middle of that edge and, below
/// it, between 6 and 45 rows or in the last row of the area.
pub proof fn lemma_first_button(frame: Seq<u8>, width: int, x0: int, x1: int, y: int, y1: int) -> (r: int)
    ensures
        gold_button(frame, width, x0, x1, y, y1) is None ==> forall|q: int|
            y <= q <= y1 ==> #[trigger] upper_edge(frame, width, x0, x1, q) is None,
        gold_button(frame, width, x0, x1, y, y1) matches Some((cx, cy)) ==> {
            &&& y <= r <= y1
            &&& forall|q: int| y <= q < r ==> #[trigger] upper_edge(frame, width, x0, x1, q) is None
            &&& upper_edge(frame, width, x0, x1, r) matches Some((a, b)) && 0 <= a + b - 2 * cx <= 1
            &&& r + 6 <= cy <= r + 45 || cy == y1
            &&& cy <= y1
        },
    decreases y1 - y + 1,
{
    if y > y1 {
        y
    } else {
        match upper_edge(frame, width, x0, x1, y) {
            Some((a, b)) => {
                let e = EdgeSearch {
                    x0: x0 as i32,
                    x1: x1 as i32,
                    center: ((a + b) / 2) as i32,
                    span: (b - a) as i32,
                    slack: center_slack(x0, x1) as i32,
                };
                lemma_last_edge(frame, width, e, y + 12, smaller(y + 90, y1));
                y
            },
            None => lemma_first_button(frame, width, x0, x1, y + 1, y1),
        }
    }
}

/// Where the button's lower edge is seen, the click is halfway between both edges.
pub proof fn lemma_click_between_edges(
    frame: Seq<u8>,
    width: int,
    x0: int,
    x1: int,
    y1: int,
    y: int,
    a: int,
    b: int,
    bottom: int,
)
    requires
        0 <= x0 <= a <= b <= x1 <= i32::MAX,
        ({
            let e = EdgeSearch {
                x0: x0 as i32,
                x1: x1 as i32,
                center: ((a + b) / 2) as i32,
                span: (b - a) as i32,
                slack: center_slack(x0, x1) as i32,
            };
            &&& y + 12 <= bottom <= y + 90
            &&& bottom <= y1
            &&& lower_edge(frame, width, e, bottom)
            &&& forall|q: int| bottom < q <= y + 90 && q <= y1 ==> !#[trigger] lower_edge(frame, width, e, q)
        }),
    ensures
        ({
            let (cx, cy) = button_center(frame, width, x0, x1, y1, y, a, b);
            &&& 0 <= y + bottom - 2 * cy <= 1
            &&& 0 <= a + b - 2 * cx <= 1
        }),
{
    let e = EdgeSearch {
        x0: x0 as i32,
        x1: x1 as i32,
        center: ((a + b) / 2) as i32,
        span: (b - a) as i32,
        slack: center_slack(x0, x1) as i32,
    };
    lemma_lowest_edge(frame, width, e, y + 12, smaller(y + 90, y1));
    assert(lower_edge(frame, width, e, bottom));
}

/// Where no lower edge is seen, the click is a sixth of the upper edge's span below it, but from 28 to 44 rows, and
/// not below the area.
pub proof fn lemma_click_below_edge(frame: Seq<u8>, width: int, x0: int, x1: int, y1: int, y: int, a: int, b: int)
    requires
        a <= b,
        ({
            let e = EdgeSearch {
                x0: x0 as i32,
                x1: x1 as i32,
                center: ((a + b) / 2) as i32,
                span: (b - a) as i32,
                slack: center_slack(x0, x1) as i32,
            };
            forall|q: int| y + 12 <= q <= y + 90 && q <= y1 ==> !#[trigger] lower_edge(frame, width, e, q)
        }),
    ensures
        ({
            let (cx, cy) = button_center(frame, width, x0, x1, y1, y, a, b);
            &&& cy <= y1
            &&& cy < y1 ==> 28 <= cy - y <= 44
            &&& cy < y1 && cy - y > 28 ==> 6 * (cy - y) <= b - a
            &&& cy < y1 && cy - y < 44 ==> b - a < 6 * (cy - y + 1)
            &&& y + 44 <= y1 ==> cy < y1 || cy == y + 44
        }),
{
    let e = EdgeSearch {
        x0: x0 as i32,
        x1: x1 as i32,
        center: ((a + b) / 2) as i32,
        span: (b - a) as i32,
        slack: center_slack(x0, x1) as i32,
    };
    lemma_lowest_edge(frame, width, e, y + 12, smaller(y + 90, y1));
}

/// The middle of a button may be off by a sixth of the searched columns, but from 50 to 90.
pub proof fn lemma_center_slack(x0: int, x1: int)
    ensures
        50 <= center_slack(x0, x1) <= 90,
        center_slack(x0, x1) > 50 ==> 6 * center_slack(x0, x1) <= x1 - x0,
        center_slack(x0, x1) < 90 ==> x1 - x0 < 6 * (center_slack(x0, x1) + 1),
{
}

/// The place that was clicked, on the screen and in the captured area, belongs together: one is the other seen from
/// the area's corner.
pub open spec fn same_place(c: PlayClick, capture_rect: Rect) -> bool {
    c.screen_x - c.x == capture_rect.left && c.screen_y - c.y == capture_rect.top
}

} // verus!
