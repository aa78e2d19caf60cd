//! Finding the boot: the brown things that have moved since the last frame.

use crate::blobs;
use crate::blobs::Component;
use crate::pixels;
use crate::single;
use crate::tools::boot_breaker::cart;
use crate::tools::boot_breaker::color;
use vstd::prelude::*;

verus! {

/// A part of the frame, by its corner and size.
#[derive(Clone, Copy, Debug, PartialEq, Eq, Structural)]
pub struct Roi {
    pub x: i32,
    pub y: i32,
    pub w: i32,
    pub h: i32,
}

/// The usual size of the boot.
#[derive(Clone, Copy, Debug, PartialEq, Eq, Structural)]
pub struct BootSize {
    pub w: i32,
    pub h: i32,
}

/// How a boot was found.
#[derive(Clone, Copy, Debug, PartialEq, Eq, Structural)]
pub enum Source {
    /// In the whole search area, before it was ever seen.
    FullInit,
    /// Around its last place.
    LastKnown,
    /// In the whole search area, after it was lost.
    Reacquire,
}

/// The name of a source in the log.
pub open spec fn source_name(s: Source) -> Seq<char> {
    match s {
        Source::FullInit => "full-init-motion"@,
        Source::LastKnown => "last-known-motion"@,
        Source::Reacquire => "playfield-reacquire"@,
    }
}

/// The name of a search in the log.
pub open spec fn search_name(s: Source) -> Seq<char> {
    match s {
        Source::FullInit => "full-init"@,
        Source::LastKnown => "last-known-roi"@,
        Source::Reacquire => "full-reacquire"@,
    }
}

impl Source {
    /// The name of a source in the log.
    pub fn name(self) -> (name: &'static str)
        ensures
            name@ == source_name(self),
    {
        match self {
            Source::FullInit => "full-init-motion",
            Source::LastKnown => "last-known-motion",
            Source::Reacquire => "playfield-reacquire",
        }
    }

    /// The name of a search in the log.
    pub fn search(self) -> (name: &'static str)
        ensures
            name@ == search_name(self),
    {
        match self {
            Source::FullInit => "full-init",
            Source::LastKnown => "last-known-roi",
            Source::Reacquire => "full-reacquire",
        }
    }
}

/// A boot that was found: its middle, its score in units of 2^-52, its box and how it was found.
#[derive(Clone, Copy, Debug, PartialEq, Eq, Structural)]
pub struct Detection {
    pub x: i32,
    pub y: i32,
    pub score: u128,
    pub bbox: Roi,
    pub source: Source,
}

/// The larger of two numbers.
pub open spec fn larger(a: int, b: int) -> int {
    if a > b {
        a
    } else {
        b
    }
}

/// The smaller of two numbers.
pub open spec fn smaller(a: int, b: int) -> int {
    if a < b {
        a
    } else {
        b
    }
}

/// The shares of the frame that bound the search for the boot, in units of 2^-52: the side margin, the
/// upper and the lower edge.
#[derive(Clone, Copy, Debug, PartialEq, Eq, Structural)]
pub struct SearchArea {
    pub margin: u128,
    pub top: u128,
    pub bottom: u128,
}

/// The part of the frame that is searched for the boot. It has at least one pixel.
pub open spec fn search_roi(width: int, height: int, area: SearchArea) -> Roi {
    let x0 = cart::share(width, area.margin as int);
    let x1 = cart::share(width, single::distance(single::ONE as nat, area.margin as nat) as int);
    let y0 = cart::share(height, area.top as int);
    let y1 = cart::share(height, area.bottom as int);
    Roi { x: x0 as i32, y: y0 as i32, w: larger(x1 - x0, 1) as i32, h: larger(y1 - y0, 1) as i32 }
}

/// The part of the frame that is searched for the boot.
pub fn base_search_roi(width: i32, height: i32, area: SearchArea) -> (r: Roi)
    requires
        0 <= width,
        0 <= height,
        area.margin <= single::ONE,
        area.top <= single::ONE,
        area.bottom <= single::ONE,
    ensures
        r == search_roi(width as int, height as int, area),
{
    let rest: u128 = single::gap(single::ONE, area.margin);
    proof {
        let d = (single::ONE - area.margin) as nat;
        lemma_rest(d);
    }
    let x0: i32 = cart::share_of(width, area.margin);
    let x1: i32 = cart::share_of(width, rest);
    let y0: i32 = cart::share_of(height, area.top);
    let y1: i32 = cart::share_of(height, area.bottom);
    let w: i32 = if x1 - x0 > 1 {
        x1 - x0
    } else {
        1
    };
    let h: i32 = if y1 - y0 > 1 {
        y1 - y0
    } else {
        1
    };
    Roi { x: x0, y: y0, w, h }
}

/// What is left of one is at most one.
pub proof fn lemma_rest(d: nat)
    requires
        d <= single::ONE,
    ensures
        single::nearest(d, 1) <= single::ONE,
{
    single::lemma_whole_exact(1);
    single::lemma_scaled_at_most(1, d);
    assert(1 * d == d);
    assert(single::whole(1) * d == d);
}

/// What two parts have in common, where it is more than eight pixels wide and high.
pub open spec fn common(a: Roi, b: Roi) -> Option<Roi> {
    let x0 = larger(a.x as int, b.x as int);
    let y0 = larger(a.y as int, b.y as int);
    let x1 = smaller(a.x + a.w, b.x + b.w);
    let y1 = smaller(a.y + a.h, b.y + b.h);
    if x1 <= x0 + 8 || y1 <= y0 + 8 {
        None
    } else {
        Some(Roi { x: x0 as i32, y: y0 as i32, w: (x1 - x0) as i32, h: (y1 - y0) as i32 })
    }
}

/// Position `(x, y)` lies in the part.
pub open spec fn holds(r: Roi, x: int, y: int) -> bool {
    r.x <= x < r.x + r.w && r.y <= y < r.y + r.h
}

/// The common part holds exactly the positions that both hold.
pub proof fn lemma_common(a: Roi, b: Roi, x: int, y: int)
    requires
        common(a, b) is Some,
    ensures
        holds(common(a, b)->0, x, y) <==> holds(a, x, y) && holds(b, x, y),
        common(a, b) == common(b, a),
{
}

/// What two parts have in common, where it is more than eight pixels wide and high.
pub fn intersect(a: Roi, b: Roi) -> (r: Option<Roi>)
    ensures
        r == common(a, b),
{
    let x0: i32 = if a.x > b.x {
        a.x
    } else {
        b.x
    };
    let y0: i32 = if a.y > b.y {
        a.y
    } else {
        b.y
    };
    let ax: i64 = a.x as i64 + a.w as i64;
    let bx: i64 = b.x as i64 + b.w as i64;
    let ay: i64 = a.y as i64 + a.h as i64;
    let by: i64 = b.y as i64 + b.h as i64;
    let x1: i64 = if ax < bx {
        ax
    } else {
        bx
    };
    let y1: i64 = if ay < by {
        ay
    } else {
        by
    };
    if x1 <= x0 as i64 + 8 || y1 <= y0 as i64 + 8 {
        None
    } else {
        Some(Roi { x: x0, y: y0, w: (x1 - x0 as i64) as i32, h: (y1 - y0 as i64) as i32 })
    }
}

/// The first column or row of a square around a place, in single precision and as far as 32-bit numbers go.
pub open spec fn corner(place: int, radius: int) -> int {
    let v = single::signed(single::signed(place) - single::signed(radius));
    if v > i32::MAX {
        i32::MAX as int
    } else if v < i32::MIN {
        i32::MIN as int
    } else {
        v
    }
}

/// Numbers of less than 24 bits are taken as they stand.
pub proof fn lemma_corner_exact(place: int, radius: int)
    requires
        -0x80_0000 < place < 0x80_0000,
        -0x80_0000 < radius < 0x80_0000,
    ensures
        corner(place, radius) == place - radius,
{
    lemma_signed_exact(place);
    lemma_signed_exact(radius);
    lemma_signed_exact(place - radius);
}

proof fn lemma_signed_exact(v: int)
    requires
        -0x100_0000 < v < 0x100_0000,
    ensures
        single::signed(v) == v,
{
    single::lemma_nearest_size(
        if v >= 0 {
            v as nat
        } else {
            (-v) as nat
        },
    );
}

fn corner_of(place: i32, radius: i32) -> (c: i32)
    ensures
        c == corner(place as int, radius as int),
{
    proof {
        single::lemma_nearest_size(
            if place >= 0 {
                place as nat
            } else {
                (-place) as nat
            },
        );
        single::lemma_nearest_size(
            if radius >= 0 {
                radius as nat
            } else {
                (-radius) as nat
            },
        );
    }
    let p: i128 = single::round_signed(place as i128);
    let r: i128 = single::round_signed(radius as i128);
    let v: i128 = single::round_signed(p - r);
    if v > 0x7fff_ffff {
        i32::MAX
    } else if v < -0x8000_0000 {
        i32::MIN
    } else {
        v as i32
    }
}

/// A square around a place, cut to the frame and to the search area; the whole search area where too
/// little is left of it.
pub open spec fn around(x: int, y: int, radius: int, width: int, height: int, base: Roi) -> Roi {
    let local = Roi {
        x: corner(x, radius) as i32,
        y: corner(y, radius) as i32,
        w: (radius * 2) as i32,
        h: (radius * 2) as i32,
    };
    let screen = Roi { x: 0, y: 0, w: width as i32, h: height as i32 };
    match common(local, screen) {
        Some(r) => match common(r, base) {
            Some(q) => q,
            None => base,
        },
        None => base,
    }
}

/// A square around a place, cut to the frame and to the search area.
pub fn roi_around(x: i32, y: i32, radius: i32, width: i32, height: i32, base: Roi) -> (r: Roi)
    requires
        0 <= radius,
        radius * 2 <= i32::MAX,
    ensures
        r == around(x as int, y as int, radius as int, width as int, height as int, base),
{
    let local = Roi { x: corner_of(x, radius), y: corner_of(y, radius), w: radius * 2, h: radius * 2 };
    let screen = Roi { x: 0, y: 0, w: width, h: height };
    match intersect(local, screen) {
        Some(r) => match intersect(r, base) {
            Some(q) => q,
            None => base,
        },
        None => base,
    }
}

/// A search stays in the search area.
pub proof fn lemma_around_in_base(x: int, y: int, radius: int, width: int, height: int, base: Roi, px: int, py: int)
    requires
        holds(around(x, y, radius, width, height, base), px, py),
    ensures
        holds(base, px, py),
{
}

/// From this many lost frames on, the whole search area is searched.
pub const LOST_FOR_GOOD: i32 = 7;

/// How far around its last place a boot is searched: half its diagonal, some padding, more the faster
/// it was and the longer it is lost, but from 90 to 280 pixels.
pub open spec fn search_radius(half_diagonal: int, padding: int, speed_extra: int, lost: int, grow: int) -> int {
    let r = half_diagonal + padding + speed_extra + lost * grow;
    if r < 90 {
        90
    } else if r > 280 {
        280
    } else {
        r
    }
}

/// What is known of the boot when it is searched.
#[derive(Clone, Copy, Debug, PartialEq, Eq, Structural)]
pub struct LastSeen {
    pub x: i32,
    pub y: i32,
    pub lost_frames: i32,
    /// What its speed adds to the radius.
    pub speed_extra: i32,
}

/// How wide the search around the last place is.
#[derive(Clone, Copy, Debug, PartialEq, Eq, Structural)]
pub struct SearchWidth {
    /// Half the diagonal of the boot, rounded up.
    pub half_diagonal: i32,
    pub padding: i32,
    /// What each lost frame adds.
    pub lost_grow: i32,
}

/// The parts that are searched for the boot, in order.
pub open spec fn search_rois(seen: LastSeen, width: int, height: int, base: Roi, s: SearchWidth) -> Seq<Roi> {
    if seen.lost_frames >= LOST_FOR_GOOD {
        seq![base]
    } else {
        seq![
            around(
                seen.x as int,
                seen.y as int,
                search_radius(
                    s.half_diagonal as int,
                    s.padding as int,
                    seen.speed_extra as int,
                    seen.lost_frames as int,
                    s.lost_grow as int,
                ),
                width,
                height,
                base,
            ),
        ]
    }
}

/// The parts that are searched for the boot, in order.
pub fn boot_search_rois(seen: LastSeen, width: i32, height: i32, base: Roi, s: SearchWidth) -> (out: Vec<Roi>)
    ensures
        out@ == search_rois(seen, width as int, height as int, base, s),
{
    let mut out: Vec<Roi> = Vec::new();
    if seen.lost_frames >= LOST_FOR_GOOD {
        out.push(base);
    } else {
        proof {
            assert(-0x8000_0000 * 0x8000_0000 <= seen.lost_frames * s.lost_grow <= 0x8000_0000 * 0x8000_0000)
                by (nonlinear_arith)
                requires
                    -0x8000_0000 <= seen.lost_frames <= 0x8000_0000,
                    -0x8000_0000 <= s.lost_grow <= 0x8000_0000,
            ;
        }
        let extra: i128 = seen.lost_frames as i128 * s.lost_grow as i128;
        let sum: i128 = s.half_diagonal as i128 + s.padding as i128 + seen.speed_extra as i128 + extra;
        let radius: i32 = if sum < 90 {
            90
        } else if sum > 280 {
            280
        } else {
            sum as i32
        };
        out.push(roi_around(seen.x, seen.y, radius, width, height, base));
    }
    assert(out@ =~= search_rois(seen, width as int, height as int, base, s));
    out
}

/// The least change of brightness that counts as motion.
pub const MOVED: i32 = 18;

/// The brightness at position `i` has changed enough.
pub open spec fn moving(gray: Seq<u8>, prev: Seq<u8>, i: int) -> bool {
    gray[i] - prev[i] >= MOVED || prev[i] - gray[i] >= MOVED
}

/// The pixel in column `x` of row `y` has moved and has a colour of the boot.
pub open spec fn hot(frame: Seq<u8>, gray: Seq<u8>, prev: Seq<u8>, width: int, x: int, y: int) -> bool {
    moving(gray, prev, y * width + x) && color::boot_like(pixels::pixel(frame, width, x, y))
}

/// The moving boot-coloured pixels of a part, row by row.
pub open spec fn hot_mask(frame: Seq<u8>, gray: Seq<u8>, prev: Seq<u8>, width: int, roi: Roi) -> Seq<u8> {
    Seq::new(
        (roi.w * roi.h) as nat,
        |p: int|
            if hot(frame, gray, prev, width, roi.x + p % (roi.w as int), roi.y + p / (roi.w as int)) {
                1u8
            } else {
                0u8
            },
    )
}

/// The part lies in a frame of this width, and the pixels of its rows are there.
pub open spec fn roi_fits(frame: int, gray: int, prev: int, width: int, roi: Roi) -> bool {
    &&& 0 <= roi.x
    &&& 0 <= roi.y
    &&& 0 <= roi.w
    &&& 0 <= roi.h
    &&& roi.x + roi.w <= width
    &&& roi.y + roi.h <= i32::MAX
    &&& 0 < roi.w && 0 < roi.h ==> {
        &&& pixels::row_fits(frame, width, roi.y + roi.h - 1)
        &&& (roi.y + roi.h) * width <= gray
        &&& (roi.y + roi.h) * width <= prev
    }
}

/// A part of a frame fits.
pub proof fn lemma_roi_fits(frame: int, gray: int, prev: int, width: int, height: int, roi: Roi)
    requires
        pixels::frame_fits(frame, width, height),
        gray == width * height,
        prev == width * height,
        height <= i32::MAX,
        0 <= roi.x,
        0 <= roi.y,
        0 <= roi.w,
        0 <= roi.h,
        roi.x + roi.w <= width,
        roi.y + roi.h <= height,
    ensures
        roi_fits(frame, gray, prev, width, roi),
{
    if 0 < roi.w && 0 < roi.h {
        pixels::lemma_row_fits(frame, width, height, roi.y + roi.h - 1);
        assert((roi.y + roi.h) * width <= width * height) by (nonlinear_arith)
            requires
                0 <= roi.y + roi.h <= height,
                0 <= width,
        ;
    }
}

fn mark_hot(frame: &[u8], gray: &[u8], prev: &[u8], width: i32, roi: Roi) -> (mask: Vec<u8>)
    requires
        roi_fits(frame@.len() as int, gray@.len() as int, prev@.len() as int, width as int, roi),
    ensures
        mask@ == hot_mask(frame@, gray@, prev@, width as int, roi),
{
    let ghost w = width as int;
    let ghost want = hot_mask(frame@, gray@, prev@, w, roi);
    let mut mask: Vec<u8> = Vec::new();
    let mut yy: i32 = 0;
    proof {
        assert(0 * roi.w == 0);
        assert(roi.w * roi.h >= 0) by (nonlinear_arith)
            requires
                0 <= roi.w,
                0 <= roi.h,
        ;
    }
    while yy < roi.h
        invariant
            w == width,
            0 <= yy <= roi.h,
            want == hot_mask(frame@, gray@, prev@, w, roi),
            want.len() == roi.w * roi.h,
            roi_fits(frame@.len() as int, gray@.len() as int, prev@.len() as int, w, roi),
            mask.len() == yy * roi.w,
            mask@ == want.take(mask@.len() as int),
            mask@.len() <= want.len(),
        decreases roi.h - yy,
    {
        let mut xx: i32 = 0;
        while xx < roi.w
            invariant
                w == width,
                0 <= yy < roi.h,
                0 <= xx <= roi.w,
                want == hot_mask(frame@, gray@, prev@, w, roi),
                want.len() == roi.w * roi.h,
                roi_fits(frame@.len() as int, gray@.len() as int, prev@.len() as int, w, roi),
                mask.len() == yy * roi.w + xx,
                mask@ == want.take(mask@.len() as int),
                mask@.len() <= want.len(),
            decreases roi.w - xx,
        {
            let x: i32 = roi.x + xx;
            let y: i32 = roi.y + yy;
            proof {
                blobs::lemma_pixel(xx as int, yy as int, roi.w as int, roi.h as int);
                let last = roi.y + roi.h - 1;
                assert((y + 1) * w <= (last + 1) * w) by (nonlinear_arith)
                    requires
                        y <= last,
                        0 <= w,
                ;
                pixels::lemma_offset(w, x as int, y as int);
                assert((y + 1) * w == y * w + w) by (nonlinear_arith);
            }
            let i: usize = (y * width + x) as usize;
            let now: i32 = gray[i] as i32;
            let before: i32 = prev[i] as i32;
            let moved: bool = now - before >= MOVED || before - now >= MOVED;
            let ghost n = mask@.len() as int;
            if moved && color::boot_color(frame, width, x, y) {
                mask.push(1);
            } else {
                mask.push(0);
            }
            assert(mask@[n] == want[n]);
            assert(mask@ =~= want.take(n + 1));
            xx = xx + 1;
        }
        proof {
            assert((yy + 1) * roi.w == yy * roi.w + roi.w) by (nonlinear_arith);
        }
        yy = yy + 1;
    }
    proof {
        assert(roi.h * roi.w == roi.w * roi.h) by (nonlinear_arith);
        assert(mask@ =~= want);
    }
    mask
}

/// 0.25 in single precision, in units of 2^-52: the least ratio of width to height.
pub const SLIMMEST: u128 = 1125899906842624;

/// 3.2 in single precision, in units of 2^-52: the greatest ratio of width to height.
pub const BROADEST: u128 = 14411519022333952;

/// 0.85 in single precision, in units of 2^-52: the usual ratio of width to height.
pub const USUAL_ASPECT: u128 = 3828059790639104;

/// 2.2 in single precision, in units of 2^-52: how far from the usual ratio nothing is left of the score.
pub const ASPECT_RANGE: u128 = 9907919394963456;

/// 0.40 in single precision, in units of 2^-52: the weight of how much of the box is filled.
pub const FILL_WEIGHT: u128 = 1801439877791744;

/// 0.45 in single precision, in units of 2^-52: the weight of the number of pixels.
pub const SIZE_WEIGHT: u128 = 2026619778629632;

/// 0.15 in single precision, in units of 2^-52: the weight of the shape.
pub const SHAPE_WEIGHT: u128 = 675539970949120;

/// The fewest pixels of a boot.
pub const FEWEST_PIXELS: usize = 35;

/// The number of pixels from which on the size counts fully.
pub const FULL_SIZE: u64 = 260;

/// The ratio of width to height of a box.
pub open spec fn aspect(c: Component) -> nat {
    single::quotient(c.spec_width() as nat, c.spec_height() as nat)
}

/// The most columns or rows of a boot: its usual size, enlarged, as far as 32-bit numbers go.
pub open spec fn size_limit(size: int, scale: u128) -> int {
    if size > 0 {
        let most = single::floor(single::scaled(size as nat, scale as nat)) as int;
        if most > i32::MAX {
            i32::MAX as int
        } else {
            most
        }
    } else {
        0
    }
}

/// A region can be the boot.
pub open spec fn boot_shaped(c: Component, max_w: int, max_h: int) -> bool {
    &&& c.area >= FEWEST_PIXELS
    &&& 8 <= c.spec_width() <= max_w
    &&& 8 <= c.spec_height() <= max_h
    &&& SLIMMEST <= aspect(c) <= BROADEST
}

/// At most one.
pub open spec fn capped(v: nat) -> nat {
    if v < single::ONE {
        v
    } else {
        single::ONE as nat
    }
}

/// How much a region looks like the boot: how much of its box it fills, how many pixels it has, and how
/// near its shape is to the usual one.
pub open spec fn boot_score(c: Component) -> nat {
    let fill = single::quotient(c.area as nat, (c.spec_width() * c.spec_height()) as nat);
    let size = capped(single::quotient(c.area as nat, FULL_SIZE as nat));
    let off = capped(single::ratio(single::distance(aspect(c), USUAL_ASPECT as nat), ASPECT_RANGE as nat));
    let shape = single::distance(single::ONE as nat, off);
    single::sum(
        single::sum(single::product(FILL_WEIGHT as nat, fill), single::product(SIZE_WEIGHT as nat, size)),
        single::product(SHAPE_WEIGHT as nat, shape),
    )
}

/// The position of the region that looks most like the boot, the first where several do.
pub open spec fn best_boot(cs: Seq<Component>, max_w: int, max_h: int) -> Option<int>
    decreases cs.len(),
{
    if cs.len() == 0 {
        None
    } else {
        let here = (cs.len() - 1) as int;
        match best_boot(cs.drop_last(), max_w, max_h) {
            None => if boot_shaped(cs.last(), max_w, max_h) {
                Some(here)
            } else {
                None
            },
            Some(m) => if boot_shaped(cs.last(), max_w, max_h) && boot_score(cs.last()) > boot_score(cs[m]) {
                Some(here)
            } else {
                Some(m)
            },
        }
    }
}

/// `best_boot` is what its name says: none where no region can be the boot, and otherwise the first of
/// the highest score among those that can.
pub proof fn lemma_best_boot(cs: Seq<Component>, max_w: int, max_h: int)
    ensures
        best_boot(cs, max_w, max_h) is None ==> forall|i: int|
            0 <= i < cs.len() ==> !boot_shaped(#[trigger] cs[i], max_w, max_h),
        best_boot(cs, max_w, max_h) matches Some(m) ==> {
            &&& 0 <= m < cs.len() && boot_shaped(cs[m], max_w, max_h)
            &&& forall|i: int|
                0 <= i < cs.len() && boot_shaped(#[trigger] cs[i], max_w, max_h) ==> boot_score(cs[i]) <= boot_score(
                    cs[m],
                )
            &&& forall|i: int|
                0 <= i < m && boot_shaped(#[trigger] cs[i], max_w, max_h) ==> boot_score(cs[i]) < boot_score(cs[m])
        },
    decreases cs.len(),
{
    if cs.len() > 0 {
        let t = cs.drop_last();
        lemma_best_boot(t, max_w, max_h);
        assert forall|i: int| 0 <= i < t.len() implies t[i] == #[trigger] cs[i] by {}
    }
}

/// The boot that a region is, in the frame.
pub open spec fn boot_at(c: Component, roi: Roi, source: Source) -> Detection {
    Detection {
        x: (roi.x + (c.x0 + c.x1) / 2) as i32,
        y: (roi.y + (c.y0 + c.y1) / 2) as i32,
        score: boot_score(c) as u128,
        bbox: Roi {
            x: (roi.x + c.x0) as i32,
            y: (roi.y + c.y0) as i32,
            w: c.spec_width() as i32,
            h: c.spec_height() as i32,
        },
        source,
    }
}

/// The boot in a part of the frame, among the regions of moving boot-coloured pixels that touch by
/// their edges. Without an earlier frame nothing has moved.
pub open spec fn boot_in(
    frame: Seq<u8>,
    gray: Seq<u8>,
    prev: Option<Seq<u8>>,
    width: int,
    roi: Roi,
    max_w: int,
    max_h: int,
    source: Source,
) -> Option<Detection> {
    match prev {
        None => None,
        Some(prev) => {
            let grid = blobs::Grid {
                mask: hot_mask(frame, gray, prev, width, roi),
                width: roi.w as int,
                diagonal: false,
            };
            let regions = grid.outline_list();
            match best_boot(regions, max_w, max_h) {
                Some(m) => Some(boot_at(regions[m], roi, source)),
                None => None,
            }
        },
    }
}

fn limit_of(size: i32, scale: u128) -> (m: u128)
    ensures
        m == size_limit(size as int, scale),
{
    if size <= 0 {
        return 0;
    }
    let whole: u128 = single::round_ratio(size as u128, 1);
    proof {
        single::lemma_nearest_size(size as nat);
        single::lemma_nearest_error(size as nat, 1);
        single::lemma_grain_positive(size as nat);
        assert((size as nat) / 1 == size as nat);
        assert(1 <= whole <= 0x1_0000_0000);
    }
    if scale >= 0x10_0000_0000_0000_0000_0000 {
        proof {
            assert(whole * scale >= scale) by (nonlinear_arith)
                requires
                    whole >= 1,
            ;
            single::lemma_nearest_error((whole * scale) as nat, 1);
            single::lemma_grain_positive((whole * scale) as nat);
            assert(((whole * scale) as nat) / 1 == (whole * scale) as nat);
        }
        return 0x7fff_ffff;
    }
    proof {
        assert(whole * scale <= 0x1_0000_0000 * 0x10_0000_0000_0000_0000_0000) by (nonlinear_arith)
            requires
                whole <= 0x1_0000_0000,
                scale <= 0x10_0000_0000_0000_0000_0000,
        ;
    }
    let limit: u128 = single::round_ratio(whole * scale, 1) / single::ONE;
    if limit > 0x7fff_ffff {
        0x7fff_ffff
    } else {
        limit
    }
}

fn shaped(c: Component, max_w: u128, max_h: u128) -> (yes: bool)
    requires
        c.valid(),
        c.x1 < 0x8000_0000,
        c.y1 < 0x8000_0000,
    ensures
        yes == boot_shaped(c, max_w as int, max_h as int),
{
    let w: usize = c.width();
    let h: usize = c.height();
    if c.area < FEWEST_PIXELS || w < 8 || h < 8 || w as u128 > max_w || h as u128 > max_h {
        return false;
    }
    let aspect: u128 = single::divide(w as u64, h as u64);
    SLIMMEST <= aspect && aspect <= BROADEST
}

fn cap(v: u128) -> (c: u128)
    ensures
        c == capped(v as nat),
        c <= single::ONE,
{
    if v < single::ONE {
        v
    } else {
        single::ONE
    }
}

fn score_of(c: Component, Ghost(max_w): Ghost<int>, Ghost(max_h): Ghost<int>) -> (s: u128)
    requires
        c.valid(),
        c.x1 < 0x8000_0000,
        c.y1 < 0x8000_0000,
        blobs::fills_box(c),
        c.spec_width() * c.spec_height() < 0x8000_0000,
        boot_shaped(c, max_w, max_h),
    ensures
        s == boot_score(c),
{
    let w: u64 = c.width() as u64;
    let h: u64 = c.height() as u64;
    let aspect: u128 = single::divide(w, h);
    let area: u64 = c.area as u64;
    let fill: u128 = single::divide(area, w * h);
    let size: u128 = cap(single::divide(area, FULL_SIZE));
    let apart: u128 = single::gap(aspect, USUAL_ASPECT);
    proof {
        single::lemma_quotient_small(area as nat, (w * h) as nat);
        let d = if aspect >= USUAL_ASPECT {
            (aspect - USUAL_ASPECT) as nat
        } else {
            (USUAL_ASPECT - aspect) as nat
        };
        single::lemma_nearest_size(d);
    }
    let off: u128 = cap(single::divide_values(apart, ASPECT_RANGE));
    let shape: u128 = single::gap(single::ONE, off);
    proof {
        single::lemma_nearest_size((single::ONE - off) as nat);
    }
    let a: u128 = single::multiply(FILL_WEIGHT, fill);
    let b: u128 = single::multiply(SIZE_WEIGHT, size);
    let e: u128 = single::multiply(SHAPE_WEIGHT, shape);
    proof {
        lemma_product_small(FILL_WEIGHT, fill);
        lemma_product_small(SIZE_WEIGHT, size);
        lemma_product_small(SHAPE_WEIGHT, shape);
    }
    let ab: u128 = single::plus(a, b);
    proof {
        single::lemma_nearest_size((a + b) as nat);
    }
    single::plus(ab, e)
}

proof fn lemma_product_small(a: u128, b: u128)
    requires
        a <= single::ONE,
        b < 0x1000_0000_0000_0000,
    ensures
        single::product(a as nat, b as nat) < 0x4000_0000_0000_0000,
{
    let n = (a * b) as nat;
    let q = n / 4503599627370496;
    assert(q <= b) by (nonlinear_arith)
        requires
            n == a * b,
            a <= 4503599627370496,
            q == n / 4503599627370496,
    ;
    single::lemma_nearest_at_most(n, 4503599627370496);
}

/// Finds the boot in a part of the frame by its motion and colour.
pub fn detect_boot_motion(
    frame: &[u8],
    gray: &[u8],
    prev_gray: Option<&[u8]>,
    width: i32,
    roi: Roi,
    boot_size: BootSize,
    max_scale: u128,
    source: Source,
) -> (r: Option<Detection>)
    requires
        prev_gray matches Some(prev) ==> roi_fits(
            frame@.len() as int,
            gray@.len() as int,
            prev@.len() as int,
            width as int,
            roi,
        ),
    ensures
        r == boot_in(
            frame@,
            gray@,
            match prev_gray {
                Some(prev) => Some(prev@),
                None => None,
            },
            width as int,
            roi,
            size_limit(boot_size.w as int, max_scale),
            size_limit(boot_size.h as int, max_scale),
            source,
        ),
        r matches Some(d) ==> holds(roi, d.x as int, d.y as int),
{
    let prev = match prev_gray {
        Some(prev) => prev,
        None => {
            return None;
        },
    };
    let max_w: u128 = limit_of(boot_size.w, max_scale);
    let max_h: u128 = limit_of(boot_size.h, max_scale);
    let mask = mark_hot(frame, gray, prev, width, roi);
    proof {
        lemma_roi_area(frame@.len() as int, gray@.len() as int, prev@.len() as int, width as int, roi);
    }
    let regions = blobs::outlines(mask.as_slice(), roi.w as usize, roi.h as usize, false);
    let ghost cs = regions@;
    let mut best: Option<(usize, u128)> = None;
    let mut i: usize = 0;
    assert(cs.take(0).len() == 0);
    while i < regions.len()
        invariant
            i <= regions.len(),
            cs == regions@,
            0 <= roi.w * roi.h < 0x8000_0000,
            forall|k: int|
                0 <= k < cs.len() ==> blobs::component_in(#[trigger] cs[k], roi.w as int, roi.h as int)
                    && blobs::fills_box(cs[k]),
            best is None <==> best_boot(cs.take(i as int), max_w as int, max_h as int) is None,
            best matches Some((m, score)) ==> {
                &&& m < i
                &&& best_boot(cs.take(i as int), max_w as int, max_h as int) == Some(m as int)
                &&& score == boot_score(cs[m as int])
            },
        decreases regions.len() - i,
    {
        let c = regions[i];
        proof {
            assert(cs.take(i + 1).drop_last() =~= cs.take(i as int));
            assert(cs.take(i + 1).last() == c);
            assert(blobs::component_in(cs[i as int], roi.w as int, roi.h as int));
            assert(c.spec_width() * c.spec_height() <= roi.w * roi.h) by (nonlinear_arith)
                requires
                    0 <= c.spec_width() <= roi.w,
                    0 <= c.spec_height() <= roi.h,
            ;
        }
        if shaped(c, max_w, max_h) {
            let score: u128 = score_of(c, Ghost(max_w as int), Ghost(max_h as int));
            let better: bool = match best {
                None => true,
                Some((_, most)) => score > most,
            };
            if better {
                best = Some((i, score));
            }
        }
        i = i + 1;
    }
    assert(cs.take(i as int) =~= cs);
    match best {
        Some((m, score)) => {
            let c = regions[m];
            assert(blobs::component_in(cs[m as int], roi.w as int, roi.h as int));
            let d = Detection {
                x: (roi.x as i64 + ((c.x0 + c.x1) / 2) as i64) as i32,
                y: (roi.y as i64 + ((c.y0 + c.y1) / 2) as i64) as i32,
                score,
                bbox: Roi {
                    x: (roi.x as i64 + c.x0 as i64) as i32,
                    y: (roi.y as i64 + c.y0 as i64) as i32,
                    w: c.width() as i32,
                    h: c.height() as i32,
                },
                source,
            };
            assert(d == boot_at(c, roi, source));
            proof {
                lemma_boot_inside(c, roi, source);
            }
            Some(d)
        },
        None => None,
    }
}

proof fn lemma_roi_area(frame: int, gray: int, prev: int, width: int, roi: Roi)
    requires
        roi_fits(frame, gray, prev, width, roi),
    ensures
        0 <= roi.w * roi.h < 0x8000_0000,
{
    if roi.w == 0 || roi.h == 0 {
        assert(roi.w * roi.h == 0) by (nonlinear_arith)
            requires
                roi.w == 0 || roi.h == 0,
        ;
    } else {
        let rows = roi.y + roi.h;
        assert(0 <= roi.w * roi.h <= rows * width) by (nonlinear_arith)
            requires
                0 < roi.h <= rows,
                0 < roi.w <= width,
        ;
        assert(rows * width * 4 <= i32::MAX);
    }
}

/// A boot that was found lies in the part that was searched.
pub proof fn lemma_boot_inside(c: Component, roi: Roi, source: Source)
    requires
        0 <= roi.x,
        0 <= roi.y,
        roi.x + roi.w <= i32::MAX,
        roi.y + roi.h <= i32::MAX,
        blobs::component_in(c, roi.w as int, roi.h as int),
    ensures
        holds(roi, boot_at(c, roi, source).x as int, boot_at(c, roi, source).y as int),
{
}

/// Motion has no direction: what has moved from one frame to another has moved the other way round too.
pub proof fn lemma_motion_symmetric(frame: Seq<u8>, gray: Seq<u8>, prev: Seq<u8>, width: int, roi: Roi)
    ensures
        forall|i: int| #[trigger] moving(gray, prev, i) == moving(prev, gray, i),
        hot_mask(frame, gray, prev, width, roi) == hot_mask(frame, prev, gray, width, roi),
{
}

/// A pixel of the part is in the mask exactly where its colour is one of the boot and its brightness has risen or
/// fallen by at least 18.
pub proof fn lemma_mask_pixel(frame: Seq<u8>, gray: Seq<u8>, prev: Seq<u8>, width: int, roi: Roi, x: int, y: int)
    requires
        holds(roi, x, y),
    ensures
        ({
            let mask = hot_mask(frame, gray, prev, width, roi);
            let at = (y - roi.y) * roi.w + (x - roi.x);
            let change = gray[y * width + x] - prev[y * width + x];
            &&& 0 <= at < mask.len()
            &&& mask[at] != 0 <==> color::boot_like(pixels::pixel(frame, width, x, y)) && (change >= 18 || change <= -18)
        }),
{
    blobs::lemma_pixel(x - roi.x, y - roi.y, roi.w as int, roi.h as int);
}

/// Nothing is found where the brightness of no pixel of the part has changed by 18, nor without an earlier
/// frame; and it does not matter which of two frames came first.
pub proof fn lemma_still_picture(
    frame: Seq<u8>,
    gray: Seq<u8>,
    prev: Seq<u8>,
    width: int,
    roi: Roi,
    max_w: int,
    max_h: int,
    source: Source,
)
    ensures
        boot_in(frame, gray, None, width, roi, max_w, max_h, source) is None,
        boot_in(frame, gray, Some(prev), width, roi, max_w, max_h, source) == boot_in(
            frame,
            prev,
            Some(gray),
            width,
            roi,
            max_w,
            max_h,
            source,
        ),
        (forall|i: int| -18 < #[trigger] gray[i] - #[trigger] prev[i] < 18) ==> boot_in(
            frame,
            gray,
            Some(prev),
            width,
            roi,
            max_w,
            max_h,
            source,
        ) is None,
{
    lemma_motion_symmetric(frame, gray, prev, width, roi);
    if forall|i: int| -18 < #[trigger] gray[i] - #[trigger] prev[i] < 18 {
        let mask = hot_mask(frame, gray, prev, width, roi);
        let grid = blobs::Grid { mask, width: roi.w as int, diagonal: false };
        assert forall|p: int| 0 <= p < mask.len() implies #[trigger] mask[p] == 0 by {
            let i = (roi.y + p / (roi.w as int)) * width + (roi.x + p % (roi.w as int));
            assert(-18 < gray[i] - prev[i] < 18);
        }
        lemma_no_roots(grid, mask.len() as int);
        lemma_best_boot(grid.outline_list(), max_w, max_h);
    }
}

proof fn lemma_no_roots(grid: blobs::Grid, n: int)
    requires
        forall|p: int| 0 <= p < grid.mask.len() ==> #[trigger] grid.mask[p] == 0,
    ensures
        grid.roots(n).len() == 0,
    decreases n,
{
    if n > 0 {
        lemma_no_roots(grid, n - 1);
        assert(!grid.set(n - 1));
    }
}

/// Two parts have a common part exactly where a block of nine by nine pixels lies in both.
pub proof fn lemma_common_exists(a: Roi, b: Roi)
    requires
        -0x4000_0000 <= a.x <= 0x4000_0000,
        -0x4000_0000 <= a.y <= 0x4000_0000,
        -0x4000_0000 <= b.x <= 0x4000_0000,
        -0x4000_0000 <= b.y <= 0x4000_0000,
    ensures
        common(a, b) is Some <==> exists|x: int, y: int|
            #[trigger] holds(a, x, y) && holds(a, x + 8, y + 8) && holds(b, x, y) && holds(b, x + 8, y + 8),
{
    let x = larger(a.x as int, b.x as int);
    let y = larger(a.y as int, b.y as int);
    if common(a, b) is Some {
        assert(holds(a, x, y) && holds(a, x + 8, y + 8) && holds(b, x, y) && holds(b, x + 8, y + 8));
    }
}

/// The search around the last place reaches at least 90 and at most 280 pixels, farther for a larger or faster boot
/// and with every lost frame.
pub proof fn lemma_search_radius(half: int, padding: int, speed: int, lost: int, grow: int, more: int)
    requires
        0 <= more,
    ensures
        ({
            let r = search_radius(half, padding, speed, lost, grow);
            &&& 90 <= r <= 280
            &&& r <= search_radius(half + more, padding, speed, lost, grow) <= r + more
            &&& r <= search_radius(half, padding + more, speed, lost, grow) <= r + more
            &&& r <= search_radius(half, padding, speed + more, lost, grow) <= r + more
            &&& 0 <= grow ==> r <= search_radius(half, padding, speed, lost + more, grow)
            &&& 90 <= half + padding + speed + lost * grow <= 280 ==> search_radius(half, padding, speed, lost + 1, grow) == (
            if r + grow < 90 {
                90
            } else if r + grow > 280 {
                280
            } else {
                r + grow
            })
        }),
{
    assert((lost + more) * grow == lost * grow + more * grow) by (nonlinear_arith);
    assert((lost + 1) * grow == lost * grow + grow) by (nonlinear_arith);
    assert(0 <= grow ==> more * grow >= 0) by (nonlinear_arith)
        requires
            0 <= more,
    ;
}

/// A boot that is lost for fewer than seven frames is searched around its last place: the first part holds every
/// pixel of the search area that is in the frame and less than 90 columns and rows off. One that is lost for
/// longer is searched in the whole search area.
pub proof fn lemma_search_holds(seen: LastSeen, width: int, height: int, base: Roi, s: SearchWidth, px: int, py: int)
    requires
        0 <= width <= i32::MAX,
        0 <= height <= i32::MAX,
        -0x40_0000 < seen.x < 0x40_0000,
        -0x40_0000 < seen.y < 0x40_0000,
        holds(base, px, py),
    ensures
        search_rois(seen, width, height, base, s).len() == 1,
        seen.lost_frames >= 7 ==> search_rois(seen, width, height, base, s)[0] == base,
        0 <= px < width && 0 <= py < height && -90 <= px - seen.x < 90 && -90 <= py - seen.y < 90 ==> holds(
            search_rois(seen, width, height, base, s)[0],
            px,
            py,
        ),
        seen.lost_frames < 7 && search_rois(seen, width, height, base, s)[0] != base && holds(
            search_rois(seen, width, height, base, s)[0],
            px,
            py,
        ) ==> 0 <= px < width && 0 <= py < height && -280 <= px - seen.x < 280 && -280 <= py - seen.y < 280,
{
    let r = search_radius(
        s.half_diagonal as int,
        s.padding as int,
        seen.speed_extra as int,
        seen.lost_frames as int,
        s.lost_grow as int,
    );
    lemma_corner_exact(seen.x as int, r);
    lemma_corner_exact(seen.y as int, r);
}

/// The box of a boot is that of its region, moved to where the part lies in the frame; the place of the boot is the
/// middle of its box, the left and the upper one of two.
pub proof fn lemma_boot_box(c: Component, roi: Roi, source: Source)
    requires
        0 <= roi.x,
        0 <= roi.y,
        roi.x + roi.w <= i32::MAX,
        roi.y + roi.h <= i32::MAX,
        blobs::component_in(c, roi.w as int, roi.h as int),
    ensures
        ({
            let d = boot_at(c, roi, source);
            &&& forall|x: int, y: int|
                #[trigger] holds(d.bbox, x, y) <==> c.x0 <= x - roi.x <= c.x1 && c.y0 <= y - roi.y <= c.y1
            &&& holds(d.bbox, d.x as int, d.y as int)
            &&& 0 <= (2 * d.bbox.x + d.bbox.w - 1) - 2 * d.x <= 1
            &&& 0 <= (2 * d.bbox.y + d.bbox.h - 1) - 2 * d.y <= 1
            &&& d.source == source
        }),
{
}

/// The ratio of width to height of a box is exact but for a small error.
proof fn lemma_aspect(c: Component)
    requires
        c.x0 <= c.x1 < 0x100_0000,
        c.y0 <= c.y1 < 0x100_0000,
    ensures
        ({
            let w = c.x1 - c.x0 + 1;
            let h = c.y1 - c.y0 + 1;
            let a = aspect(c) as int;
            &&& 0x100_0000 * (a * h) <= 0x100_0001 * (w * 4503599627370496) + 0x80_0000 * h
            &&& 0x100_0000 * (a * h) + 0x80_0000 * h >= 0xff_ffff * (w * 4503599627370496)
        }),
{
    let w = c.spec_width() as nat;
    let h = c.spec_height() as nat;
    single::lemma_whole_exact(w);
    single::lemma_whole_exact(h);
    single::lemma_ratio_close(w * 4503599627370496, h);
    assert(w * (single::ONE as nat) == w * 4503599627370496);
}

/// A boot has at least 35 pixels and is at least eight columns wide and eight rows high, at most as large as asked
/// for, and from a quarter to three and a fifth times as wide as high.
pub proof fn lemma_boot_shaped(c: Component, max_w: int, max_h: int)
    requires
        c.x0 <= c.x1 < 0x100_0000,
        c.y0 <= c.y1 < 0x100_0000,
    ensures
        ({
            let w = c.x1 - c.x0 + 1;
            let h = c.y1 - c.y0 + 1;
            let sized = c.area > 34 && 7 < w <= max_w && 7 < h <= max_h;
            &&& boot_shaped(c, max_w, max_h) ==> sized && 1_000_000 * w >= 249_999 * h && 1_000_000 * w <= 3_200_001 * h
            &&& sized && 1_000_000 * w >= 250_001 * h && 1_000_000 * w <= 3_199_999 * h ==> boot_shaped(c, max_w, max_h)
        }),
{
    let w = c.x1 - c.x0 + 1;
    let h = c.y1 - c.y0 + 1;
    let a = aspect(c) as int;
    lemma_aspect(c);
    let low = 1125899906842624int;
    let high = 14411519022333952int;
    assert((a >= low ==> a * h >= low * h) && (a < low ==> a * h <= (low - 1) * h) && (a <= high ==> a * h <= high * h) && (a
        > high ==> a * h >= (high + 1) * h)) by (nonlinear_arith)
        requires
            h > 0,
    ;
    assert((low - 1) * h == 1125899906842623 * h);
    assert((high + 1) * h == 14411519022333953 * h);
}

/// The most columns or rows of a boot are its usual number times the scale, but for the fraction and a small error.
pub proof fn lemma_size_limit(size: int, scale: u128)
    requires
        0 < size < 0x100_0000,
        scale <= 0x10_0000_0000_0000,
    ensures
        ({
            let most = size_limit(size, scale);
            &&& 0x100_0000 * (most * 4503599627370496) <= 0x100_0001 * (size * scale)
            &&& 0x100_0000 * ((most + 1) * 4503599627370496) > 0xff_ffff * (size * scale)
        }),
{
    single::lemma_scaled_close(size as nat, scale as nat);
    let v = single::scaled(size as nat, scale as nat);
    let f = single::floor(v) as int;
    assert(f * 4503599627370496 <= v < (f + 1) * 4503599627370496);
    assert(size * scale <= 0x100_0000 * 0x10_0000_0000_0000) by (nonlinear_arith)
        requires
            0 < size < 0x100_0000,
            0 <= scale <= 0x10_0000_0000_0000,
    ;
}

/// A weighted share is exact but for a small error.
proof fn lemma_weighted(weight: nat, share: nat)
    requires
        weight <= 4503599627370496,
        share <= 4503599627370496,
    ensures
        single::product(weight, share) * 4503599627370496 <= weight * share + 0x1000_0001 * 4503599627370496,
        single::product(weight, share) * 4503599627370496 + 0x1000_0001 * 4503599627370496 >= weight * share,
{
    let one = 4503599627370496nat;
    single::lemma_ratio_close(weight * share, one);
    assert(weight * share <= 4503599627370496 * 4503599627370496) by (nonlinear_arith)
        requires
            weight <= 4503599627370496,
            share <= 4503599627370496,
    ;
}

/// A weighted ratio of two numbers of pixels is exact but for a small error.
proof fn lemma_weighted_ratio(weight: nat, n: nat, d: nat)
    requires
        weight <= 4503599627370496,
        n <= d <= 0x100_0000,
        0 < d,
    ensures
        ({
            let t = single::product(weight, single::quotient(n, d));
            &&& t * d <= weight * n + 0x2000_0003 * d
            &&& t * d + 0x2000_0003 * d >= weight * n
        }),
{
    let one = 4503599627370496nat;
    let q = single::quotient(n, d);
    single::lemma_quotient_at_most_one(n, d);
    lemma_weighted(weight, q);
    single::lemma_whole_exact(n);
    single::lemma_whole_exact(d);
    single::lemma_ratio_close(n * one, d);
    assert(n * (single::ONE as nat) == n * one);
    let t = single::product(weight, q);
    assert(q * d <= n * one + 0x1000_0001 * d);
    assert(q * d + 0x1000_0001 * d >= n * one);
    assert(t * d * one <= weight * n * one + 0x2000_0002 * d * one) by (nonlinear_arith)
        requires
            t * one <= weight * q + 0x1000_0001 * one,
            q * d <= n * one + 0x1000_0001 * d,
            weight <= one,
            0 <= weight,
            0 < d,
    ;
    assert(t * d * one + 0x2000_0002 * d * one >= weight * n * one) by (nonlinear_arith)
        requires
            t * one + 0x1000_0001 * one >= weight * q,
            q * d + 0x1000_0001 * d >= n * one,
            weight <= one,
            0 <= weight,
            0 < d,
    ;
    assert(t * d <= weight * n + 0x2000_0003 * d) by (nonlinear_arith)
        requires
            t * d * one <= weight * n * one + 0x2000_0002 * d * one,
            one == 4503599627370496,
            0 < d,
    ;
    assert(t * d + 0x2000_0003 * d >= weight * n) by (nonlinear_arith)
        requires
            t * d * one + 0x2000_0002 * d * one >= weight * n * one,
            one == 4503599627370496,
            0 < d,
    ;
}

/// What the shape of a box adds to its score: at most 15 %, nearly all of that for a box 85 % as wide as high, and
/// nothing for one more than three times as wide as high.
proof fn lemma_shape_term(c: Component)
    requires
        c.x0 <= c.x1 < 0x100_0000,
        c.y0 <= c.y1 < 0x100_0000,
    ensures
        ({
            let w = c.x1 - c.x0 + 1;
            let h = c.y1 - c.y0 + 1;
            let off = capped(single::ratio(single::distance(aspect(c), USUAL_ASPECT as nat), ASPECT_RANGE as nat));
            let t = single::product(SHAPE_WEIGHT as nat, single::distance(single::ONE as nat, off)) as int;
            &&& 10_000 * t <= 1_501 * 4503599627370496
            &&& 849 * h <= 1000 * w <= 851 * h ==> 10_000 * t >= 1_495 * 4503599627370496
            &&& 100 * w >= 306 * h ==> t == 0
        }),
{
    let w = c.x1 - c.x0 + 1;
    let h = c.y1 - c.y0 + 1;
    let one = 4503599627370496nat;
    let a = aspect(c);
    let usual = USUAL_ASPECT as nat;
    let apart = single::distance(a, usual);
    let range = ASPECT_RANGE as nat;
    let v = single::ratio(apart, range);
    let off = capped(v);
    let shape = single::distance(one, off);
    lemma_rest((one - off) as nat);
    lemma_weighted(SHAPE_WEIGHT as nat, shape);
    assert((SHAPE_WEIGHT as nat) * shape <= 675539970949120 * 4503599627370496) by (nonlinear_arith)
        requires
            SHAPE_WEIGHT == 675539970949120,
            shape <= 4503599627370496,
    ;
    lemma_aspect(c);
    single::lemma_ratio_close(apart * one, range);
    if a >= usual {
        single::lemma_nearest_close((a - usual) as nat);
    } else {
        single::lemma_nearest_close((usual - a) as nat);
    }
    single::lemma_nearest_close((one - off) as nat);
    if 849 * h <= 1000 * w <= 851 * h {
        assert(a <= 3833000000000000 && a >= 3823000000000000) by (nonlinear_arith)
            requires
                0x100_0000 * (a * h) <= 0x100_0001 * (w * 4503599627370496) + 0x80_0000 * h,
                0x100_0000 * (a * h) + 0x80_0000 * h >= 0xff_ffff * (w * 4503599627370496),
                849 * h <= 1000 * w <= 851 * h,
                h > 0,
        ;
        assert(apart <= 5100000000000);
        assert(v <= 2400000000000) by (nonlinear_arith)
            requires
                0x100_0000 * (v * range) <= 0x100_0001 * (apart * 4503599627370496) + 0x80_0000 * range,
                apart <= 5100000000000,
                range == 9907919394963456,
        ;
        assert(shape >= 4500000000000000);
        assert((SHAPE_WEIGHT as nat) * shape >= 675539970949120 * 4500000000000000) by (nonlinear_arith)
            requires
                SHAPE_WEIGHT == 675539970949120,
                shape >= 4500000000000000,
        ;
    }
    if 100 * w >= 306 * h {
        assert(a >= 13781000000000000) by (nonlinear_arith)
            requires
                0x100_0000 * (a * h) + 0x80_0000 * h >= 0xff_ffff * (w * 4503599627370496),
                100 * w >= 306 * h,
                h > 0,
        ;
        assert(apart >= 9950000000000000);
        assert(v >= 4503599627370496) by (nonlinear_arith)
            requires
                0x100_0000 * (v * range) + 0x80_0000 * range >= 0xff_ffff * (apart * 4503599627370496),
                apart >= 9950000000000000,
                range == 9907919394963456,
        ;
        assert(off == one);
        assert(shape == 0);
        assert((SHAPE_WEIGHT as nat) * shape == 0);
        single::lemma_nearest_order(0, 0, one);
        assert(single::nearest(0, one) == 0) by {
            single::lemma_ratio_close(0, one);
        }
    }
}

/// The parts of a score add up.
proof fn lemma_score_sum(wh: int, area: int, counted: int, t1: int, t2: int, t3: int, score: int)
    requires
        0 <= area <= wh,
        1 <= wh,
        0 <= counted <= 260,
        0 <= t3,
        t1 * wh <= 1801439877791744 * area + 0x2000_0003 * wh,
        t1 * wh + 0x2000_0003 * wh >= 1801439877791744 * area,
        t2 * 260 <= 2026619778629632 * counted + 0x2000_0003 * 260,
        t2 * 260 + 0x2000_0003 * 260 >= 2026619778629632 * counted,
        10_000 * t3 <= 1_501 * 4503599627370496,
        t1 + t2 + t3 - 0x8000_0000 <= score <= t1 + t2 + t3 + 0x8000_0000,
    ensures
        ({
            let base = 40 * 260 * (4503599627370496 * area) + 45 * (4503599627370496 * (wh * counted));
            &&& 26_000 * (wh * score) >= base - 26 * (4503599627370496 * wh)
            &&& 26_000 * (wh * score) <= base + 15 * 260 * (4503599627370496 * wh) + 26 * (4503599627370496 * wh)
            &&& 10_000 * t3 >= 1_495 * 4503599627370496 ==> 26_000 * (wh * score) >= base + 14 * 260 * (4503599627370496 * wh)
            &&& t3 == 0 ==> 26_000 * (wh * score) <= base + 26 * (4503599627370496 * wh)
        }),
{
    let x = wh * t1;
    let y = wh * t2;
    let z = wh * t3;
    let all = wh * score;
    let p = wh * counted;
    assert(x == t1 * wh) by (nonlinear_arith)
        requires
            x == wh * t1,
    ;
    assert(x + y + z - 0x8000_0000 * wh <= all <= x + y + z + 0x8000_0000 * wh) by (nonlinear_arith)
        requires
            t1 + t2 + t3 - 0x8000_0000 <= score <= t1 + t2 + t3 + 0x8000_0000,
            x == wh * t1,
            y == wh * t2,
            z == wh * t3,
            all == wh * score,
            wh >= 1,
    ;
    assert(260 * y <= 2026619778629632 * p + 0x2000_0003 * 260 * wh && 260 * y + 0x2000_0003 * 260 * wh
        >= 2026619778629632 * p) by (nonlinear_arith)
        requires
            260 * t2 <= 2026619778629632 * counted + 0x2000_0003 * 260,
            260 * t2 + 0x2000_0003 * 260 >= 2026619778629632 * counted,
            y == wh * t2,
            p == wh * counted,
            wh >= 1,
    ;
    assert(0 <= p <= 260 * wh) by (nonlinear_arith)
        requires
            p == wh * counted,
            0 <= counted <= 260,
            wh >= 1,
    ;
    assert(10_000 * z <= 1_501 * 4503599627370496 * wh && z >= 0 && (t3 == 0 ==> z == 0)) by (nonlinear_arith)
        requires
            10_000 * t3 <= 1_501 * 4503599627370496,
            0 <= t3,
            z == wh * t3,
            wh >= 1,
    ;
    assert(wh * counted * 4503599627370496 == 4503599627370496 * p);
    assert(26_000 * x <= 10_400 * (area * 4503599627370496) + 100_000_000_000_000 * wh);
    assert(26_000 * x + 100_000_000_000_000 * wh >= 10_400 * (area * 4503599627370496));
    assert(26_000 * y <= 45 * (p * 4503599627370496) + 100_000_000_000_000 * wh);
    assert(26_000 * y + 100_000_000_000_000 * wh >= 45 * (p * 4503599627370496));
    assert(26_000 * z <= 3_903 * (4503599627370496 * wh));
    assert(26_000 * all <= 26_000 * (x + y + z) + 100_000_000_000_000 * wh);
    assert(26_000 * all + 100_000_000_000_000 * wh >= 26_000 * (x + y + z));
    let base = 10_400 * (4503599627370496 * area) + 45 * (4503599627370496 * p);
    assert(26_000 * all >= base - 26 * (4503599627370496 * wh));
    assert(26_000 * all <= base + 3900 * (4503599627370496 * wh) + 26 * (4503599627370496 * wh));
    if 10_000 * t3 >= 1_495 * 4503599627370496 {
        assert(10_000 * z >= 1_495 * (4503599627370496 * wh)) by (nonlinear_arith)
            requires
                10_000 * t3 >= 1_495 * 4503599627370496,
                z == wh * t3,
                wh >= 1,
        ;
        assert(26_000 * z >= 3_886 * (4503599627370496 * wh));
        assert(26_000 * all >= base + 3640 * (4503599627370496 * wh));
    }
    assert(t3 == 0 ==> 26_000 * all <= base + 26 * (4503599627370496 * wh));
}

/// The score of a region: 40 % for how much of its box it fills, 45 % for its number of pixels, in full from 260
/// on, and up to 15 % for its shape, nearly in full where it is about 85 % as wide as high and not at all where it
/// is more than three times as wide as high.
pub proof fn lemma_boot_score(c: Component)
    requires
        c.x0 <= c.x1 < 0x100_0000,
        c.y0 <= c.y1 < 0x100_0000,
        c.area <= (c.x1 - c.x0 + 1) * (c.y1 - c.y0 + 1) <= 0x100_0000,
    ensures
        ({
            let w = c.x1 - c.x0 + 1;
            let h = c.y1 - c.y0 + 1;
            let counted = if c.area < 260 {
                c.area as int
            } else {
                260
            };
            let score = boot_score(c) as int;
            let base = 40 * 260 * (4503599627370496 * c.area) + 45 * (4503599627370496 * (w * h * counted));
            &&& 26_000 * (w * h * score) >= base - 26 * (4503599627370496 * (w * h))
            &&& 26_000 * (w * h * score) <= base + 15 * 260 * (4503599627370496 * (w * h)) + 26 * (4503599627370496 * (w * h))
            &&& 849 * h <= 1000 * w <= 851 * h ==> 26_000 * (w * h * score) >= base + 14 * 260 * (4503599627370496 * (w * h))
            &&& 100 * w >= 306 * h ==> 26_000 * (w * h * score) <= base + 26 * (4503599627370496 * (w * h))
        }),
{
    let w = c.x1 - c.x0 + 1;
    let h = c.y1 - c.y0 + 1;
    let wh = w * h;
    assert(wh >= 1) by (nonlinear_arith)
        requires
            w >= 1,
            h >= 1,
            wh == w * h,
    ;
    let area = c.area as nat;
    let counted = if area < 260 {
        area
    } else {
        260nat
    };
    let fill = single::quotient(area, wh as nat);
    let size = capped(single::quotient(area, 260));
    let off = capped(single::ratio(single::distance(aspect(c), USUAL_ASPECT as nat), ASPECT_RANGE as nat));
    let t1 = single::product(FILL_WEIGHT as nat, fill) as int;
    let t2 = single::product(SIZE_WEIGHT as nat, size) as int;
    let t3 = single::product(SHAPE_WEIGHT as nat, single::distance(single::ONE as nat, off)) as int;
    let score = boot_score(c) as int;
    lemma_weighted_ratio(FILL_WEIGHT as nat, area, wh as nat);
    lemma_shape_term(c);
    single::lemma_quotient_at_most_one(260, 260);
    if area < 260 {
        single::lemma_quotient_below_one(area, 260);
    } else {
        single::lemma_whole_exact(260);
        single::lemma_nearest_order(260, area, 1);
        assert(260 * (single::ONE as nat) <= single::whole(area) * (single::ONE as nat)) by (nonlinear_arith)
            requires
                260 <= single::whole(area),
        ;
        single::lemma_nearest_order(260 * (single::ONE as nat), single::whole(area) * (single::ONE as nat), 260);
    }
    assert(size == single::quotient(counted, 260));
    lemma_weighted_ratio(SIZE_WEIGHT as nat, counted, 260);
    single::lemma_quotient_at_most_one(area, wh as nat);
    lemma_weighted(FILL_WEIGHT as nat, fill);
    assert((FILL_WEIGHT as nat) * fill <= 1801439877791744 * 4503599627370496) by (nonlinear_arith)
        requires
            FILL_WEIGHT == 1801439877791744,
            fill <= 4503599627370496,
    ;
    single::lemma_nearest_close((t1 + t2) as nat);
    let t12 = single::sum(t1 as nat, t2 as nat) as int;
    single::lemma_nearest_close((t12 + t3) as nat);
    assert(t1 + t2 + t3 - 0x8000_0000 <= score <= t1 + t2 + t3 + 0x8000_0000);
    assert((FILL_WEIGHT as nat) * area == 1801439877791744 * area);
    assert((SIZE_WEIGHT as nat) * counted == 2026619778629632 * counted);
    lemma_score_sum(wh, area as int, counted as int, t1, t2, t3, score);
}

/// Of two regions with the same box, the one with more pixels never scores less.
pub proof fn lemma_score_grows(a: Component, b: Component)
    requires
        a.valid(),
        a.x0 == b.x0 && a.y0 == b.y0 && a.x1 == b.x1 && a.y1 == b.y1,
        a.area <= b.area,
    ensures
        boot_score(a) <= boot_score(b),
{
    let d = (a.spec_width() * a.spec_height()) as nat;
    let fa = single::quotient(a.area as nat, d);
    let fb = single::quotient(b.area as nat, d);
    let sa = single::quotient(a.area as nat, FULL_SIZE as nat);
    let sb = single::quotient(b.area as nat, FULL_SIZE as nat);
    assert(d >= 1) by (nonlinear_arith)
        requires
            d == a.spec_width() * a.spec_height(),
            a.spec_width() >= 1,
            a.spec_height() >= 1,
    ;
    single::lemma_nearest_order(a.area as nat, b.area as nat, 1);
    let one = single::ONE as nat;
    assert(single::whole(a.area as nat) * one <= single::whole(b.area as nat) * one) by (nonlinear_arith)
        requires
            single::whole(a.area as nat) <= single::whole(b.area as nat),
    ;
    single::lemma_whole_exact(1);
    single::lemma_nearest_order(1, d, 1);
    single::lemma_whole_exact(260);
    single::lemma_nearest_order(single::whole(a.area as nat) * one, single::whole(b.area as nat) * one, single::whole(d));
    single::lemma_nearest_order(single::whole(a.area as nat) * one, single::whole(b.area as nat) * one, 260);
    lemma_product_order(FILL_WEIGHT as nat, fa, fb);
    lemma_product_order(SIZE_WEIGHT as nat, capped(sa), capped(sb));
    let a1 = single::product(FILL_WEIGHT as nat, fa);
    let b1 = single::product(FILL_WEIGHT as nat, fb);
    let a2 = single::product(SIZE_WEIGHT as nat, capped(sa));
    let b2 = single::product(SIZE_WEIGHT as nat, capped(sb));
    single::lemma_nearest_order(a1 + a2, b1 + b2, 1);
    let off = capped(single::ratio(single::distance(aspect(a), USUAL_ASPECT as nat), ASPECT_RANGE as nat));
    let e = single::product(SHAPE_WEIGHT as nat, single::distance(single::ONE as nat, off));
    single::lemma_nearest_order(single::sum(a1, a2) + e, single::sum(b1, b2) + e, 1);
}

proof fn lemma_product_order(w: nat, a: nat, b: nat)
    requires
        a <= b,
    ensures
        single::product(w, a) <= single::product(w, b),
{
    assert(w * a <= w * b) by (nonlinear_arith)
        requires
            a <= b,
    ;
    single::lemma_nearest_order(w * a, w * b, single::ONE as nat);
}

/// A boot is found exactly where some region of moving pixels, joined by their edges, has the shape of one; what is found
/// is the box of such a region with the highest score.
pub proof fn lemma_boot_found(
    frame: Seq<u8>,
    gray: Seq<u8>,
    prev: Seq<u8>,
    width: int,
    roi: Roi,
    max_w: int,
    max_h: int,
    source: Source,
    c: Component,
)
    ensures
        ({
            let mask = hot_mask(frame, gray, prev, width, roi);
            let regions = blobs::Grid { mask, width: roi.w as int, diagonal: false }.outline_list();
            let found = boot_in(frame, gray, Some(prev), width, roi, max_w, max_h, source);
            &&& regions.contains(c) && boot_shaped(c, max_w, max_h) ==> found is Some
            &&& found matches Some(d) ==> exists|b: Component|
                {
                    &&& #[trigger] regions.contains(b)
                    &&& boot_shaped(b, max_w, max_h)
                    &&& d == boot_at(b, roi, source)
                    &&& regions.contains(c) && boot_shaped(c, max_w, max_h) ==> boot_score(c) <= boot_score(b)
                }
        }),
{
    let mask = hot_mask(frame, gray, prev, width, roi);
    let regions = blobs::Grid { mask, width: roi.w as int, diagonal: false }.outline_list();
    lemma_best_boot(regions, max_w, max_h);
    if regions.contains(c) {
        let i = choose|i: int| 0 <= i < regions.len() && regions[i] == c;
        assert(regions[i] == c);
    }
    match best_boot(regions, max_w, max_h) {
        Some(m) => {
            assert(regions.contains(regions[m]));
        },
        None => {},
    }
}

/// The search area leaves the given share of the width on the left and on the right, and reaches from the upper to the
/// lower share of the height; shares are held to one part in a million and one pixel.
pub proof fn lemma_search_area(width: int, height: int, area: SearchArea)
    requires
        0 < width < 0x10_0000,
        0 < height < 0x10_0000,
        area.margin <= single::ONE,
        area.top <= single::ONE,
        area.bottom <= single::ONE,
    ensures
        ({
            let r = search_roi(width, height, area);
            let one = 4503599627370496int;
            &&& 1_000_000 * (4503599627370496 * r.x) <= 1_000_001 * (width * area.margin)
            &&& 1_000_000 * (4503599627370496 * (r.x + 1)) >= 999_999 * (width * area.margin)
            &&& 1_000_000 * (4503599627370496 * r.y) <= 1_000_001 * (height * area.top)
            &&& 1_000_000 * (4503599627370496 * (r.y + 1)) >= 999_999 * (height * area.top)
            &&& r.h > 1 ==> 1_000_000 * (4503599627370496 * (r.y + r.h)) <= 1_000_001 * (height * area.bottom)
            &&& r.h > 1 ==> 1_000_000 * (4503599627370496 * (r.y + r.h + 1)) >= 999_999 * (height * area.bottom)
            &&& r.w > 1 ==> 1_000_000 * (4503599627370496 * (r.x + r.w)) <= 1_000_001 * (width * (one - area.margin))
            &&& r.w > 1 ==> 1_000_000 * (4503599627370496 * (r.x + r.w + 1)) >= 999_999 * (width * (one - area.margin))
        }),
{
    let one = 4503599627370496int;
    let d = (one - area.margin) as nat;
    let rest = single::distance(single::ONE as nat, area.margin as nat) as int;
    assert(rest == single::nearest(d, 1));
    lemma_rest(d);
    single::lemma_nearest_close(d);
    cart::lemma_share_close(width, area.margin as int);
    cart::lemma_share_close(width, rest);
    cart::lemma_share_close(height, area.top as int);
    cart::lemma_share_close(height, area.bottom as int);
    single::lemma_scaled_at_most(width as nat, area.margin as nat);
    single::lemma_scaled_at_most(width as nat, rest as nat);
    single::lemma_scaled_at_most(height as nat, area.top as nat);
    single::lemma_scaled_at_most(height as nat, area.bottom as nat);
    let e = width * rest;
    let f = width * (one - area.margin);
    assert(0x100_0000 * e <= 0x100_0001 * f && 0x100_0000 * e >= 0xff_ffff * f) by (nonlinear_arith)
        requires
            0x100_0000 * rest <= 0x100_0001 * (one - area.margin),
            0x100_0000 * rest >= 0xff_ffff * (one - area.margin),
            e == width * rest,
            f == width * (one - area.margin),
            width > 0,
    ;
    assert(width * area.margin >= 0 && height * area.top >= 0 && height * area.bottom >= 0 && f >= 0) by (nonlinear_arith)
        requires
            width > 0,
            height > 0,
            f == width * (one - area.margin),
            area.margin <= one,
    ;
}

} // verus!
