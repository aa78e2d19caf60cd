//! What is known of the boot and the cart from frame to frame.
//!
//! Positions are kept here; speeds, which are measured against the clock, are kept by the caller, who
//! hands in what follows from them.

use crate::pixels;
use crate::single;
use crate::tools::boot_breaker::cart;
use crate::tools::boot_breaker::motion;
use crate::tools::boot_breaker::motion::{BootSize, Detection, LastSeen, Roi, SearchWidth, Source};
use vstd::prelude::*;

verus! {

/// A tracked boot: where it was seen last, for how many frames it has been lost, and in how many it
/// was seen.
#[derive(Clone, Copy, Debug, PartialEq, Eq, Structural)]
pub struct BootTrack {
    pub x: i32,
    pub y: i32,
    pub lost_frames: i32,
    pub seen_frames: i32,
}

/// A tracked cart. Its place is in units of 2^-52 of a pixel.
#[derive(Clone, Copy, Debug, PartialEq, Eq, Structural)]
pub struct CartTrack {
    pub x: u128,
    pub y: u128,
    pub lost_frames: i32,
    pub seen_frames: i32,
}

/// One more, as far as the numbers go.
pub open spec fn next(n: i32) -> i32 {
    if n < i32::MAX {
        (n + 1) as i32
    } else {
        n
    }
}

fn next_of(n: i32) -> (m: i32)
    ensures
        m == next(n),
{
    if n < i32::MAX {
        n + 1
    } else {
        n
    }
}

/// The boot after it was seen.
pub open spec fn boot_seen(track: Option<BootTrack>, det: Detection) -> BootTrack {
    BootTrack {
        x: det.x,
        y: det.y,
        lost_frames: 0,
        seen_frames: match track {
            Some(t) => next(t.seen_frames),
            None => 1,
        },
    }
}

/// The boot after it was not seen. What was never seen is not lost.
pub open spec fn boot_lost(track: Option<BootTrack>) -> Option<BootTrack> {
    match track {
        Some(t) => Some(BootTrack { lost_frames: next(t.lost_frames), ..t }),
        None => None,
    }
}

/// Takes in that the boot was seen.
pub fn update_boot(track: &mut Option<BootTrack>, det: Detection)
    ensures
        *final(track) == Some(boot_seen(*old(track), det)),
{
    let seen_frames: i32 = match *track {
        Some(t) => next_of(t.seen_frames),
        None => 1,
    };
    *track = Some(BootTrack { x: det.x, y: det.y, lost_frames: 0, seen_frames });
}

/// Takes in that the boot was not seen.
pub fn mark_lost(track: &mut Option<BootTrack>)
    ensures
        *final(track) == boot_lost(*old(track)),
{
    if let Some(t) = *track {
        *track = Some(
            BootTrack { x: t.x, y: t.y, lost_frames: next_of(t.lost_frames), seen_frames: t.seen_frames },
        );
    }
}

/// 0.82 in single precision, in units of 2^-52: from this score on, a boot is taken wherever it is.
pub const SURE_SCORE: u128 = 3692951662231552;

/// 0.70 in single precision, in units of 2^-52: the least score of a boot that is found again.
pub const REACQUIRE_SCORE: u128 = 3152519685472256;

/// A boot is taken: any where nothing is known yet or it was lost for long, and otherwise one that is
/// near the tracked one or looks like nothing else.
pub open spec fn acceptable(track: Option<BootTrack>, score: u128, near: bool) -> bool {
    match track {
        None => true,
        Some(t) => t.seen_frames < 2 || t.lost_frames > 6 || near || score >= SURE_SCORE,
    }
}

/// Is a boot taken? `near` says whether it lies within what the tracked one can have moved.
pub fn accept_boot_detection(track: Option<BootTrack>, score: u128, near: bool) -> (yes: bool)
    ensures
        yes == acceptable(track, score, near),
{
    match track {
        None => true,
        Some(t) => {
            if t.seen_frames < 2 || t.lost_frames > 6 {
                true
            } else {
                near || score >= SURE_SCORE
            }
        },
    }
}

/// What became of a boot that was found.
#[derive(Clone, Copy, Debug, PartialEq, Eq, Structural)]
pub enum Verdict {
    /// None was found.
    Nothing,
    Taken(Detection),
    /// Found again after a loss, but not clear enough.
    WeakReacquire(Detection),
    /// It lies below the line of the cart.
    BelowCart(Detection),
    /// It is too far from the tracked one.
    TrackerGate(Detection),
}

/// What becomes of a boot that was found, with the line of the cart at this share of the height.
pub open spec fn verdict(
    found: Option<Detection>,
    track: Option<BootTrack>,
    height: int,
    at: u128,
    near: bool,
) -> Verdict {
    match found {
        None => Verdict::Nothing,
        Some(d) => if d.source is Reacquire && d.score < REACQUIRE_SCORE {
            Verdict::WeakReacquire(d)
        } else if single::whole(d.y as nat) * single::ONE > single::scaled(height as nat, at as nat) {
            Verdict::BelowCart(d)
        } else if !acceptable(track, d.score, near) {
            Verdict::TrackerGate(d)
        } else {
            Verdict::Taken(d)
        },
    }
}

/// Judges a boot that was found.
pub fn judge(found: Option<Detection>, track: Option<BootTrack>, height: i32, at: u128, near: bool) -> (v: Verdict)
    requires
        found matches Some(d) ==> 0 <= d.y,
        0 <= height,
        at <= single::ONE,
    ensures
        v == verdict(found, track, height as int, at, near),
{
    match found {
        None => Verdict::Nothing,
        Some(d) => {
            if let Source::Reacquire = d.source {
                if d.score < REACQUIRE_SCORE {
                    return Verdict::WeakReacquire(d);
                }
            }
            proof {
                single::lemma_nearest_size(d.y as nat);
            }
            let line: u128 = single::scale(height as u64, at);
            if single::round_ratio(d.y as u128, 1) * single::ONE > line {
                return Verdict::BelowCart(d);
            }
            if accept_boot_detection(track, d.score, near) {
                Verdict::Taken(d)
            } else {
                Verdict::TrackerGate(d)
            }
        },
    }
}

/// The tracked boot after a frame.
pub open spec fn boot_after(track: Option<BootTrack>, v: Verdict) -> Option<BootTrack> {
    match v {
        Verdict::Taken(d) => Some(boot_seen(track, d)),
        _ => boot_lost(track),
    }
}

/// Takes in what became of the boot in a frame: it is seen where one was taken, and lost otherwise.
pub fn follow_boot(track: &mut Option<BootTrack>, v: Verdict)
    ensures
        *final(track) == boot_after(*old(track), v),
{
    match v {
        Verdict::Taken(d) => {
            update_boot(track, d);
        },
        _ => {
            mark_lost(track);
        },
    }
}

/// The tracked cart after a frame of this size in which it was seen, or not: it stays where it was last
/// and, where it was never seen, stands in the middle.
pub open spec fn cart_after(
    track: Option<CartTrack>,
    det: Option<(i32, i32)>,
    width: int,
    height: int,
    at: u128,
) -> CartTrack {
    match (det, track) {
        (Some((x, y)), t) => CartTrack {
            x: (single::whole(x as nat) * single::ONE) as u128,
            y: (single::whole(y as nat) * single::ONE) as u128,
            lost_frames: 0,
            seen_frames: match t {
                Some(t) => next(t.seen_frames),
                None => 1,
            },
        },
        (None, Some(t)) => CartTrack { lost_frames: next(t.lost_frames), ..t },
        (None, None) => CartTrack {
            x: (single::whole(width as nat) * single::HALF) as u128,
            y: single::scaled(height as nat, at as nat) as u128,
            lost_frames: 1,
            seen_frames: 0,
        },
    }
}

/// Takes in where the cart was seen in a frame, if it was.
pub fn update_cart(track: &mut Option<CartTrack>, det: Option<(i32, i32)>, width: i32, height: i32, at: u128) -> (c:
    CartTrack)
    requires
        det matches Some((x, y)) ==> 0 <= x && 0 <= y,
        0 <= width,
        0 <= height,
        at <= single::ONE,
    ensures
        c == cart_after(*old(track), det, width as int, height as int, at),
        *final(track) == Some(c),
{
    let next = match (det, *track) {
        (Some((x, y)), t) => {
            proof {
                single::lemma_nearest_size(x as nat);
                single::lemma_nearest_size(y as nat);
            }
            CartTrack {
                x: single::round_ratio(x as u128, 1) * single::ONE,
                y: single::round_ratio(y as u128, 1) * single::ONE,
                lost_frames: 0,
                seen_frames: match t {
                    Some(t) => next_of(t.seen_frames),
                    None => 1,
                },
            }
        },
        (None, Some(t)) => CartTrack {
            x: t.x,
            y: t.y,
            lost_frames: next_of(t.lost_frames),
            seen_frames: t.seen_frames,
        },
        (None, None) => {
            proof {
                single::lemma_nearest_size(width as nat);
            }
            CartTrack {
                x: single::round_ratio(width as u128, 1) * single::HALF,
                y: single::scale(height as u64, at),
                lost_frames: 1,
                seen_frames: 0,
            }
        },
    };
    *track = Some(next);
    next
}

/// A track counts frames from zero on.
pub proof fn lemma_tracks_count(track: Option<BootTrack>, v: Verdict)
    requires
        track matches Some(t) ==> t.lost_frames >= 0 && t.seen_frames >= 1,
    ensures
        boot_after(track, v) matches Some(t) ==> t.lost_frames >= 0 && t.seen_frames >= 1,
        v is Taken <==> (boot_after(track, v) matches Some(t) && t.lost_frames == 0),
{
}

/// 48 pixels in units of 2^-52.
pub const SETTLED_ACROSS: i128 = 216172782113783808;

/// 28 pixels in units of 2^-52.
pub const SETTLED_NEAREST: i128 = 126100789566373888;

/// 88 pixels in units of 2^-52.
pub const SETTLED_FARTHEST: i128 = 396316767208603648;

/// The boot lies on the cart: it was seen at least twice and is not lost, it stands over the cart at the
/// height where it comes to rest, and is calm.
pub open spec fn settled(boot: BootTrack, cart: CartTrack, calm: bool) -> bool {
    let bx = single::whole(boot.x as nat) * single::ONE;
    let by = single::whole(boot.y as nat) * single::ONE;
    let across = single::signed(bx - cart.x);
    let gap = single::signed(cart.y - by);
    &&& boot.lost_frames <= 2
    &&& boot.seen_frames >= 2
    &&& -SETTLED_ACROSS <= across <= SETTLED_ACROSS
    &&& SETTLED_NEAREST <= gap <= SETTLED_FARTHEST
    &&& calm
}

/// Does the boot lie on the cart? `calm` says whether it neither rises nor falls fast and moves along
/// with the cart.
pub fn boot_settled_on_cart(boot: BootTrack, cart: CartTrack, calm: bool) -> (yes: bool)
    requires
        0 <= boot.x,
        0 <= boot.y,
        cart.x < 0x10_0000_0000_0000_0000_0000_0000,
        cart.y < 0x10_0000_0000_0000_0000_0000_0000,
    ensures
        yes == settled(boot, cart, calm),
{
    if boot.lost_frames > 2 || boot.seen_frames < 2 {
        return false;
    }
    proof {
        single::lemma_nearest_size(boot.x as nat);
        single::lemma_nearest_size(boot.y as nat);
    }
    let bx: i128 = single::round_ratio(boot.x as u128, 1) as i128 * 4503599627370496;
    let by: i128 = single::round_ratio(boot.y as u128, 1) as i128 * 4503599627370496;
    let across: i128 = single::round_signed(bx - cart.x as i128);
    let gap: i128 = single::round_signed(cart.y as i128 - by);
    across >= -SETTLED_ACROSS && across <= SETTLED_ACROSS && gap >= SETTLED_NEAREST && gap <= SETTLED_FARTHEST && calm
}

/// What a search for the boot gave: where it was searched, how, and what was found.
pub struct BootSearch {
    pub rois: Vec<Roi>,
    pub source: Source,
    pub found: Option<Detection>,
}

/// How the boot is searched.
pub open spec fn search_source(seen: Option<LastSeen>) -> Source {
    match seen {
        None => Source::FullInit,
        Some(s) => if s.lost_frames >= motion::LOST_FOR_GOOD {
            Source::Reacquire
        } else {
            Source::LastKnown
        },
    }
}

/// Where the boot is searched.
pub open spec fn searched_rois(
    seen: Option<LastSeen>,
    width: int,
    height: int,
    base: Roi,
    s: SearchWidth,
) -> Seq<Roi> {
    match seen {
        None => seq![base],
        Some(seen) => motion::search_rois(seen, width, height, base, s),
    }
}

/// The search area lies in the frame.
pub open spec fn in_frame(r: Roi, width: int, height: int) -> bool {
    0 <= r.x && 0 <= r.y && 0 <= r.w && 0 <= r.h && r.x + r.w <= width && r.y + r.h <= height
}

/// A share of at most a half leaves at least one pixel of a length.
proof fn lemma_small_share(len: int, ratio: int)
    requires
        0 < len <= i32::MAX,
        0 <= ratio <= single::HALF,
    ensures
        0 <= cart::share(len, ratio) < len,
{
    let w = single::whole(len as nat);
    let n = w * (ratio as nat);
    assert(0 <= n <= w * 2251799813685248) by (nonlinear_arith)
        requires
            n == w * (ratio as nat),
            0 <= ratio <= 2251799813685248,
    ;
    single::lemma_nearest_size(len as nat);
    single::lemma_nearest_size(n);
}

/// Where the margins and the upper edge take at most half of the frame, the area that is searched for the boot
/// lies in the frame, and ends no lower than its lower edge or one row below its upper one. In a frame whose
/// size is rounded, something must be left of it on the right and below.
pub proof fn lemma_search_area_in_frame(width: int, height: int, area: motion::SearchArea)
    requires
        0 < width <= i32::MAX,
        0 < height <= i32::MAX,
        width < cart::EXACT || area.margin >= 0x800_0000_0000,
        height < cart::EXACT || area.bottom <= cart::NEARLY_ALL,
        area.margin <= single::HALF,
        area.top <= single::HALF,
        area.bottom <= single::ONE,
    ensures
        in_frame(motion::search_roi(width, height, area), width, height),
        ({
            let r = motion::search_roi(width, height, area);
            r.y + r.h <= cart::share(height, area.bottom as int) || r.h == 1
        }),
{
    lemma_small_share(width, area.margin as int);
    lemma_small_share(height, area.top as int);
    let rest = single::distance(single::ONE as nat, area.margin as nat);
    motion::lemma_rest((single::ONE - area.margin) as nat);
    if width >= cart::EXACT {
        single::lemma_nearest_size((single::ONE - area.margin) as nat);
    }
    cart::lemma_share_inside(width, rest as int);
    cart::lemma_share_inside(height, area.bottom as int);
}

/// One frame and the one before it, in colour and in gray.
pub struct Frames<'a> {
    pub frame: &'a [u8],
    pub gray: &'a [u8],
    pub prev_gray: Option<&'a [u8]>,
    pub width: i32,
    pub height: i32,
}

/// The frames have the bytes that their size asks for.
pub open spec fn frames_fit(f: Frames) -> bool {
    &&& 0 <= f.width
    &&& 0 <= f.height
    &&& pixels::frame_fits(f.frame@.len() as int, f.width as int, f.height as int)
    &&& f.gray@.len() == f.width * f.height
    &&& f.prev_gray matches Some(prev) ==> prev@.len() == f.width * f.height
}

/// The gray values of the earlier frame.
pub open spec fn earlier(f: Frames) -> Option<Seq<u8>> {
    match f.prev_gray {
        Some(prev) => Some(prev@),
        None => None,
    }
}

/// Searches the boot: in the whole search area before it was ever seen and after it was lost for good,
/// and around its last place otherwise.
pub fn search_boot(f: &Frames, seen: Option<LastSeen>, base: Roi, s: SearchWidth, size: BootSize, max_scale: u128) -> (r:
    BootSearch)
    requires
        frames_fit(*f),
        in_frame(base, f.width as int, f.height as int),
    ensures
        r.rois@ == searched_rois(seen, f.width as int, f.height as int, base, s),
        r.rois.len() == 1,
        r.source == search_source(seen),
        r.found == motion::boot_in(
            f.frame@,
            f.gray@,
            earlier(*f),
            f.width as int,
            r.rois@[0],
            motion::size_limit(size.w as int, max_scale),
            motion::size_limit(size.h as int, max_scale),
            r.source,
        ),
        r.found matches Some(d) ==> motion::holds(base, d.x as int, d.y as int),
{
    let source = match seen {
        None => Source::FullInit,
        Some(l) => if l.lost_frames >= motion::LOST_FOR_GOOD {
            Source::Reacquire
        } else {
            Source::LastKnown
        },
    };
    let rois = match seen {
        None => {
            let mut rois: Vec<Roi> = Vec::new();
            rois.push(base);
            rois
        },
        Some(l) => motion::boot_search_rois(l, f.width, f.height, base, s),
    };
    assert(rois@ =~= searched_rois(seen, f.width as int, f.height as int, base, s));
    let roi = rois[0];
    assert(in_frame(roi, f.width as int, f.height as int));
    proof {
        if let Some(prev) = f.prev_gray {
            motion::lemma_roi_fits(
                f.frame@.len() as int,
                f.gray@.len() as int,
                prev@.len() as int,
                f.width as int,
                f.height as int,
                roi,
            );
        }
    }
    let found = motion::detect_boot_motion(f.frame, f.gray, f.prev_gray, f.width, roi, size, max_scale, source);
    BootSearch { rois, source, found }
}

/// For whole pixels, the boot lies on the cart exactly where it was seen in two frames and lost in at most two, stands
/// at most 48 columns to either side of the cart and 28 to 88 rows above it, and is calm.
pub proof fn lemma_settled(boot: BootTrack, cart: CartTrack, column: int, row: int, calm: bool)
    requires
        0 <= boot.x < 0x80_0000,
        0 <= boot.y < 0x80_0000,
        0 <= column < 0x80_0000,
        0 <= row < 0x80_0000,
        cart.x == column * 4503599627370496,
        cart.y == row * 4503599627370496,
    ensures
        settled(boot, cart, calm) <==> {
            &&& boot.lost_frames < 3
            &&& boot.seen_frames > 1
            &&& -48 <= boot.x - column <= 48
            &&& 28 <= row - boot.y <= 88
            &&& calm
        },
{
    single::lemma_whole_exact(boot.x as nat);
    single::lemma_whole_exact(boot.y as nat);
    single::lemma_signed_whole(boot.x - column);
    single::lemma_signed_whole(row - boot.y);
}

/// A boot is always taken where none is tracked, where it was seen fewer than two times or lost for seven frames or
/// more, where it is near, and from a score of 82 % on; a far one with a lower score is not while the track is
/// fresh.
pub proof fn lemma_acceptable(track: Option<BootTrack>, score: u128, near: bool)
    ensures
        track is None || track->0.seen_frames <= 1 || track->0.lost_frames >= 7 || near ==> acceptable(track, score, near),
        100 * score >= 82 * 4503599627370496 ==> acceptable(track, score, near),
        track is Some && track->0.seen_frames >= 2 && track->0.lost_frames < 7 && !near && 1_000_000 * score < 819_999
            * 4503599627370496 ==> !acceptable(track, score, near),
{
}

/// Being nearer or clearer never makes a boot be left out.
pub proof fn lemma_acceptable_grows(track: Option<BootTrack>, score: u128, near: bool, better: u128, nearer: bool)
    requires
        score <= better,
        near ==> nearer,
        acceptable(track, score, near),
    ensures
        acceptable(track, better, nearer),
{
}

/// A boot that was found is taken exactly where it is above the line of the cart, acceptable and, after a loss, has a
/// score of at least 70 %. The line is held to one part in a million.
pub proof fn lemma_verdict(d: Detection, track: Option<BootTrack>, height: int, at: u128, near: bool)
    requires
        0 <= d.y < 0x100_0000,
        0 <= height < 0x100_0000,
    ensures
        ({
            let v = verdict(Some(d), track, height, at, near);
            let line = height * at;
            let row = 4503599627370496 * d.y;
            &&& verdict(None, track, height, at, near) is Nothing
            &&& v is Taken ==> v == Verdict::Taken(d) && 1_000_000 * row <= 1_000_001 * line && acceptable(track, d.score, near)
            &&& d.source is Reacquire && 1_000_000 * d.score < 699_999 * 4503599627370496 ==> v == Verdict::WeakReacquire(d)
            &&& d.source is Reacquire && 10 * d.score >= 7 * 4503599627370496 || !(d.source is Reacquire) ==> {
                &&& 1_000_000 * row > 1_000_001 * line ==> v == Verdict::BelowCart(d)
                &&& 1_000_000 * row < 999_999 * line && acceptable(track, d.score, near) ==> v == Verdict::Taken(d)
                &&& 1_000_000 * row < 999_999 * line && !acceptable(track, d.score, near) ==> v == Verdict::TrackerGate(d)
                &&& !(v is WeakReacquire)
            }
        }),
{
    single::lemma_whole_exact(d.y as nat);
    single::lemma_scaled_close(height as nat, at as nat);
}

/// A boot that is seen is tracked where it was seen, and its losses are forgotten; one that is not seen stays where it
/// was and is lost for one frame more. What was never seen is not tracked.
pub proof fn lemma_track_follows(track: Option<BootTrack>, v: Verdict)
    ensures
        v matches Verdict::Taken(d) ==> (boot_after(track, v) matches Some(t) && t.x == d.x && t.y == d.y && t.lost_frames == 0),
        v is Taken && track is None ==> boot_after(track, v)->0.seen_frames == 1,
        v is Taken && track is Some && track->0.seen_frames < i32::MAX ==> boot_after(track, v)->0.seen_frames
            == track->0.seen_frames + 1,
        !(v is Taken) && track is None ==> boot_after(track, v) is None,
        !(v is Taken) && track is Some ==> (boot_after(track, v) matches Some(t) && t.x == track->0.x && t.y == track->0.y
            && t.seen_frames == track->0.seen_frames),
        !(v is Taken) && track is Some && track->0.lost_frames < i32::MAX ==> boot_after(track, v)->0.lost_frames
            == track->0.lost_frames + 1,
{
}

/// A cart that is seen is tracked where it was seen; one that is not stays where it was and is lost for one frame more;
/// before it is ever seen it is taken to stand in the middle of the frame, at its usual height.
pub proof fn lemma_cart_follows(track: Option<CartTrack>, det: Option<(i32, i32)>, width: int, height: int, at: u128)
    requires
        0 <= width < 0x100_0000,
        0 <= height < 0x100_0000,
        at <= single::ONE,
        det matches Some((x, y)) ==> 0 <= x < 0x100_0000 && 0 <= y < 0x100_0000,
    ensures
        ({
            let c = cart_after(track, det, width, height, at);
            &&& det matches Some((x, y)) ==> c.x == x * 4503599627370496 && c.y == y * 4503599627370496 && c.lost_frames == 0
            &&& det is None && track is Some ==> c.x == track->0.x && c.y == track->0.y && c.seen_frames == track->0.seen_frames
            &&& det is None && track is Some && track->0.lost_frames < i32::MAX ==> c.lost_frames == track->0.lost_frames + 1
            &&& det is Some && track is None ==> c.seen_frames == 1
            &&& det is Some && track is Some && track->0.seen_frames < i32::MAX ==> c.seen_frames == track->0.seen_frames + 1
            &&& det is None && track is None ==> 2 * c.x == width * 4503599627370496 && c.lost_frames == 1 && c.seen_frames == 0
            &&& det is None && track is None ==> 1_000_000 * c.y <= 1_000_001 * (height * at)
            &&& det is None && track is None ==> 1_000_000 * c.y >= 999_999 * (height * at)
        }),
{
    single::lemma_whole_exact(width as nat);
    single::lemma_scaled_close(height as nat, at as nat);
    assert(0 <= height * at <= 0x100_0000 * 4503599627370496) by (nonlinear_arith)
        requires
            0 <= height < 0x100_0000,
            0 <= at <= 4503599627370496,
    ;
    if let Some((x, y)) = det {
        single::lemma_whole_exact(x as nat);
        single::lemma_whole_exact(y as nat);
    }
}

/// A boot that was never seen, or is lost for seven frames or more, is searched in the whole area; any other around its
/// last place.
pub proof fn lemma_search_source(seen: Option<LastSeen>, width: int, height: int, base: Roi, s: SearchWidth)
    ensures
        seen is None ==> search_source(seen) is FullInit,
        seen is Some && seen->0.lost_frames < 7 ==> search_source(seen) is LastKnown,
        seen is Some && seen->0.lost_frames >= 7 ==> search_source(seen) is Reacquire,
        !(search_source(seen) is LastKnown) ==> searched_rois(seen, width, height, base, s) == seq![base],
{
}

} // verus!
