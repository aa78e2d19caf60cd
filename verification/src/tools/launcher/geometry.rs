//! Rectangles of the captured area and of the screen.

use crate::platform::win32::Rect;
use crate::single;
use crate::text;
use vstd::prelude::*;
use vstd::string::*;

verus! {

/// Which minigame is launched.
#[derive(Clone, Copy, Debug, PartialEq, Eq, Structural)]
pub enum LaunchProfile {
    Standard,
    BootBreaker,
}

/// 0.10 in single precision, in units of 2^-52.
pub const STANDARD_PLAY_ZONE_HORIZONTAL_SHRINK_RATIO: u128 = 450359969447936;

/// 0.05 in single precision, in units of 2^-52.
pub const STANDARD_PLAY_ZONE_VERTICAL_SHRINK_RATIO: u128 = 225179984723968;

/// 0.15 in single precision, in units of 2^-52.
pub const BOOT_BREAKER_PLAY_ZONE_HORIZONTAL_SHRINK_RATIO: u128 = 675539970949120;

pub const BOOT_BREAKER_PLAY_ZONE_VERTICAL_SHRINK_RATIO: u128 = 0;

/// One quarter, in units of 2^-52.
pub const QUARTER: u128 = 1125899906842624;

/// Left, top, width and height, with commas between them.
pub open spec fn rect_text(rect: Rect) -> Seq<char> {
    text::decimal(rect.left as int) + seq![','] + text::decimal(rect.top as int) + seq![','] + text::decimal(
        rect.width as int,
    ) + seq![','] + text::decimal(rect.height as int)
}

/// Left, top, width and height, with commas between them.
pub fn format_rect(rect: Rect) -> (out: String)
    ensures
        out@ == rect_text(rect),
{
    let mut out = String::new();
    text::push_int(&mut out, rect.left as i64);
    out.push(',');
    text::push_int(&mut out, rect.top as i64);
    out.push(',');
    text::push_int(&mut out, rect.width as i64);
    out.push(',');
    text::push_int(&mut out, rect.height as i64);
    assert(out@ =~= rect_text(rect));
    out
}

/// A rectangle for people: `left,top widthxheight`.
pub open spec fn place_text(rect: Rect) -> Seq<char> {
    text::decimal(rect.left as int) + seq![','] + text::decimal(rect.top as int) + seq![' '] + text::decimal(
        rect.width as int,
    ) + seq!['x'] + text::decimal(rect.height as int)
}

/// A status line that ends with a rectangle.
pub fn place_line(label: &str, rect: Rect) -> (out: String)
    ensures
        out@ == label@ + place_text(rect),
{
    let mut out = text::copy(label);
    text::push_int(&mut out, rect.left as i64);
    out.push(',');
    text::push_int(&mut out, rect.top as i64);
    out.push(' ');
    text::push_int(&mut out, rect.width as i64);
    out.push('x');
    text::push_int(&mut out, rect.height as i64);
    assert(out@ =~= label@ + place_text(rect));
    out
}

/// Moving `rect` by `(dx, dy)` keeps its corner within the numbers of 32 bits.
pub open spec fn movable(rect: Rect, dx: int, dy: int) -> bool {
    i32::MIN <= rect.left + dx <= i32::MAX && i32::MIN <= rect.top + dy <= i32::MAX
}

/// A rectangle moved by `(dx, dy)`.
pub open spec fn moved(rect: Rect, dx: int, dy: int) -> Rect {
    Rect { left: (rect.left + dx) as i32, top: (rect.top + dy) as i32, width: rect.width, height: rect.height }
}

/// A rectangle of the captured area, on the screen.
pub fn absolute_rect(capture_rect: Rect, local_rect: Rect) -> (r: Rect)
    requires
        movable(local_rect, capture_rect.left as int, capture_rect.top as int),
    ensures
        r == moved(local_rect, capture_rect.left as int, capture_rect.top as int),
{
    Rect {
        left: capture_rect.left + local_rect.left,
        top: capture_rect.top + local_rect.top,
        width: local_rect.width,
        height: local_rect.height,
    }
}

/// A rectangle of the screen, in the captured area.
pub fn relative_rect(capture_rect: Rect, screen_rect: Rect) -> (r: Rect)
    requires
        movable(screen_rect, -capture_rect.left, -capture_rect.top),
    ensures
        r == moved(screen_rect, -capture_rect.left, -capture_rect.top),
{
    Rect {
        left: screen_rect.left - capture_rect.left,
        top: screen_rect.top - capture_rect.top,
        width: screen_rect.width,
        height: screen_rect.height,
    }
}

/// The way to the screen and back leads to the same rectangle.
pub proof fn lemma_relative_absolute(capture: Rect, local: Rect)
    requires
        movable(local, capture.left as int, capture.top as int),
    ensures
        ({
            let screen = moved(local, capture.left as int, capture.top as int);
            movable(screen, -capture.left, -capture.top) && moved(screen, -capture.left, -capture.top) == local
        }),
{
}

/// How many pixels a side of this length loses at each end: the ratio of it, rounded.
pub open spec fn inset(len: int, ratio: u128) -> int {
    single::rounded(single::scaled(len as nat, ratio as nat)) as int
}

/// The larger of a length and one.
pub open spec fn at_least_one(v: int) -> int {
    if v > 1 {
        v
    } else {
        1
    }
}

/// A rectangle without a margin on each side; it keeps at least one pixel.
pub open spec fn shrunk(rect: Rect, horizontal: u128, vertical: u128) -> Rect {
    let dx = inset(rect.width as int, horizontal);
    let dy = inset(rect.height as int, vertical);
    Rect {
        left: (rect.left + dx) as i32,
        top: (rect.top + dy) as i32,
        width: at_least_one(rect.width - dx * 2) as i32,
        height: at_least_one(rect.height - dy * 2) as i32,
    }
}

/// A ratio of at most a quarter takes no more than the length itself.
pub proof fn lemma_inset(len: int, ratio: u128)
    requires
        0 <= len <= i32::MAX,
        ratio <= QUARTER,
    ensures
        0 <= inset(len, ratio) <= len,
{
    let i = len as nat;
    let r = ratio as nat;
    single::lemma_nearest_size(i);
    let w = single::whole(i);
    let n = w * r;
    assert(n <= w * 1125899906842624) by (nonlinear_arith)
        requires
            n == w * r,
            r <= 1125899906842624,
    ;
    single::lemma_nearest_size(n);
    assert(w <= i + i / 0x100_0000 + 1);
    assert(single::scaled(i, r) <= n + n / 0x100_0000 + 1);
    if i == 0 {
        single::lemma_whole_exact(0);
        assert(n == 0) by (nonlinear_arith)
            requires
                n == w * r,
                w == 0,
        ;
    }
    let v = single::scaled(i, r);
    assert(v <= 4503599627370496 * i);
    assert(single::rounded(v) == (2 * v + 4503599627370496) / 9007199254740992nat);
    assert(single::rounded(v) <= i);
}

fn inset_of(len: i32, ratio: u128) -> (d: i64)
    requires
        0 <= len,
        ratio < 0x400_0000_0000_0000,
    ensures
        d == inset(len as int, ratio),
        0 <= d < 0x2_0000_0000_0000,
{
    let v: u128 = single::scale(len as u64, ratio);
    let d: u128 = (2 * v + single::ONE) / (2 * single::ONE);
    assert(d < 0x2_0000_0000_0000);
    d as i64
}

/// A rectangle without a margin on each side; it keeps at least one pixel. The margins are ratios of
/// the sides, in units of 2^-52.
pub fn shrink_rect(rect: Rect, horizontal_ratio: u128, vertical_ratio: u128) -> (r: Rect)
    requires
        0 <= rect.width,
        0 <= rect.height,
        horizontal_ratio < 0x400_0000_0000_0000,
        vertical_ratio < 0x400_0000_0000_0000,
        rect.left + inset(rect.width as int, horizontal_ratio) <= i32::MAX,
        rect.top + inset(rect.height as int, vertical_ratio) <= i32::MAX,
    ensures
        r == shrunk(rect, horizontal_ratio, vertical_ratio),
        rect.left <= r.left && rect.top <= r.top,
        1 <= r.width && 1 <= r.height,
{
    let dx: i64 = inset_of(rect.width, horizontal_ratio);
    let dy: i64 = inset_of(rect.height, vertical_ratio);
    let width: i64 = rect.width as i64 - dx * 2;
    let height: i64 = rect.height as i64 - dy * 2;
    Rect {
        left: (rect.left as i64 + dx) as i32,
        top: (rect.top as i64 + dy) as i32,
        width: if width > 1 {
            width as i32
        } else {
            1
        },
        height: if height > 1 {
            height as i32
        } else {
            1
        },
    }
}

/// The margins of the play zone, horizontal and vertical.
pub open spec fn shrink_ratios(profile: LaunchProfile) -> (u128, u128) {
    match profile {
        LaunchProfile::Standard => (
            STANDARD_PLAY_ZONE_HORIZONTAL_SHRINK_RATIO,
            STANDARD_PLAY_ZONE_VERTICAL_SHRINK_RATIO,
        ),
        LaunchProfile::BootBreaker => (
            BOOT_BREAKER_PLAY_ZONE_HORIZONTAL_SHRINK_RATIO,
            BOOT_BREAKER_PLAY_ZONE_VERTICAL_SHRINK_RATIO,
        ),
    }
}

/// The margins of the play zone, horizontal and vertical.
pub fn play_zone_shrink_ratios(profile: LaunchProfile) -> (r: (u128, u128))
    ensures
        r == shrink_ratios(profile),
        r.0 <= QUARTER && r.1 <= QUARTER,
{
    match profile {
        LaunchProfile::Standard => (
            STANDARD_PLAY_ZONE_HORIZONTAL_SHRINK_RATIO,
            STANDARD_PLAY_ZONE_VERTICAL_SHRINK_RATIO,
        ),
        LaunchProfile::BootBreaker => (
            BOOT_BREAKER_PLAY_ZONE_HORIZONTAL_SHRINK_RATIO,
            BOOT_BREAKER_PLAY_ZONE_VERTICAL_SHRINK_RATIO,
        ),
    }
}

/// The margins of the play zone in percent.
pub open spec fn shrink_percents(profile: LaunchProfile) -> (int, int) {
    match profile {
        LaunchProfile::Standard => (10, 5),
        LaunchProfile::BootBreaker => (15, 0),
    }
}

/// What the log says of a play zone: the frame it was cut from and the margins in percent.
pub open spec fn zone_details(profile: LaunchProfile, raw: Rect) -> Seq<char> {
    "raw_rect="@ + rect_text(raw) + " play_zone_shrink_horizontal_percent="@ + text::decimal(
        shrink_percents(profile).0,
    ) + " play_zone_shrink_vertical_percent="@ + text::decimal(shrink_percents(profile).1)
}

/// What the log says of a play zone: the frame it was cut from and the margins in percent.
pub fn zone_note(profile: LaunchProfile, raw: Rect) -> (out: String)
    ensures
        out@ == zone_details(profile, raw),
{
    let percents: (i64, i64) = match profile {
        LaunchProfile::Standard => (10, 5),
        LaunchProfile::BootBreaker => (15, 0),
    };
    let mut out = text::copy("raw_rect=");
    let raw_text = format_rect(raw);
    out.append(raw_text.as_str());
    out.append(" play_zone_shrink_horizontal_percent=");
    text::push_int(&mut out, percents.0);
    out.append(" play_zone_shrink_vertical_percent=");
    text::push_int(&mut out, percents.1);
    assert(out@ =~= zone_details(profile, raw));
    out
}

/// A play zone lies within the frame it was cut from, where that has at least one pixel left after
/// its margins.
pub proof fn lemma_shrunk_inside(rect: Rect, profile: LaunchProfile)
    requires
        0 <= rect.width,
        0 <= rect.height,
        rect.left + rect.width <= i32::MAX,
        rect.top + rect.height <= i32::MAX,
        rect.width - 2 * inset(rect.width as int, shrink_ratios(profile).0) >= 1,
        rect.height - 2 * inset(rect.height as int, shrink_ratios(profile).1) >= 1,
    ensures
        ({
            let r = shrunk(rect, shrink_ratios(profile).0, shrink_ratios(profile).1);
            &&& rect.left <= r.left && r.left + r.width <= rect.left + rect.width
            &&& rect.top <= r.top && r.top + r.height <= rect.top + rect.height
        }),
{
    lemma_inset(rect.width as int, shrink_ratios(profile).0);
    lemma_inset(rect.height as int, shrink_ratios(profile).1);
}

/// The margin at each end is the given share of the side, to the nearest pixel but for a small error.
proof fn lemma_inset_share(len: int, ratio: u128)
    requires
        0 <= len < 0x100_0000,
    ensures
        0x200_0000 * (inset(len, ratio) * 4503599627370496) <= 0x200_0002 * (len * ratio) + 0x100_0000 * 4503599627370496,
        0x200_0000 * (inset(len, ratio) * 4503599627370496) + 0x100_0000 * 4503599627370496 + 0x200_0000 >= 0x1ff_fffe * (len
            * ratio),
{
    single::lemma_scaled_close(len as nat, ratio as nat);
    let v = single::scaled(len as nat, ratio as nat);
    let d = single::rounded(v);
    assert(d == (2 * v + 4503599627370496) / 9007199254740992nat);
    assert(d * 9007199254740992 <= 2 * v + 4503599627370496 < (d + 1) * 9007199254740992);
}

/// A play zone has the same margin on the left as on the right, and above as below: a tenth of the width and a
/// twentieth of the height in the standard minigames, three twentieths of the width and nothing of the height in
/// boot breaker, to the nearest pixel.
pub proof fn lemma_play_zone(rect: Rect, profile: LaunchProfile)
    requires
        10 <= rect.width < 0x40_0000,
        10 <= rect.height < 0x40_0000,
        rect.left + rect.width <= i32::MAX,
        rect.top + rect.height <= i32::MAX,
    ensures
        ({
            let zone = shrunk(rect, shrink_ratios(profile).0, shrink_ratios(profile).1);
            let left = zone.left - rect.left;
            let above = zone.top - rect.top;
            &&& zone.width + 2 * left == rect.width
            &&& zone.height + 2 * above == rect.height
            &&& profile is Standard ==> -60 <= 100 * left - 10 * rect.width <= 60
            &&& profile is Standard ==> -60 <= 100 * above - 5 * rect.height <= 60
            &&& profile is BootBreaker ==> -60 <= 100 * left - 15 * rect.width <= 60
            &&& profile is BootBreaker ==> above == 0
        }),
{
    let (h, v) = shrink_ratios(profile);
    lemma_inset_share(rect.width as int, h);
    lemma_inset_share(rect.height as int, v);
    match profile {
        LaunchProfile::Standard => {
            assert(rect.width * h == 450359969447936 * rect.width);
            assert(rect.height * v == 225179984723968 * rect.height);
        },
        LaunchProfile::BootBreaker => {
            assert(rect.width * h == 675539970949120 * rect.width);
            assert(rect.height * v == 0);
        },
    }
    let dx = inset(rect.width as int, h);
    let dy = inset(rect.height as int, v);
    assert(0 <= dx <= rect.width) by {
        lemma_inset(rect.width as int, h);
    }
    assert(0 <= dy <= rect.height) by {
        lemma_inset(rect.height as int, v);
    }
}

/// However large the margins, a zone keeps at least one pixel and its middle stays put: it loses as much on the right
/// as on the left, and below as above, as long as there is something left.
pub proof fn lemma_shrunk_centered(rect: Rect, horizontal: u128, vertical: u128)
    requires
        0 <= rect.width,
        0 <= rect.height,
        rect.left + inset(rect.width as int, horizontal) <= i32::MAX,
        rect.top + inset(rect.height as int, vertical) <= i32::MAX,
    ensures
        ({
            let zone = shrunk(rect, horizontal, vertical);
            &&& 1 <= zone.width && 1 <= zone.height
            &&& zone.width > 1 ==> zone.left - rect.left == (rect.left + rect.width) - (zone.left + zone.width)
            &&& zone.height > 1 ==> zone.top - rect.top == (rect.top + rect.height) - (zone.top + zone.height)
        }),
{
}

/// Moving a frame moves its play zone.
pub proof fn lemma_shrunk_moved(rect: Rect, horizontal: u128, vertical: u128, dx: int, dy: int)
    requires
        movable(rect, dx, dy),
        movable(rect, dx + inset(rect.width as int, horizontal), dy + inset(rect.height as int, vertical)),
        movable(rect, inset(rect.width as int, horizontal), inset(rect.height as int, vertical)),
    ensures
        shrunk(moved(rect, dx, dy), horizontal, vertical) == moved(shrunk(rect, horizontal, vertical), dx, dy),
{
}

/// The margin grows with the side and with the share.
pub proof fn lemma_inset_grows(len: int, more: int, ratio: u128, larger: u128)
    requires
        0 <= len <= more,
        ratio <= larger,
    ensures
        inset(len, ratio) <= inset(more, larger),
{
    let v = single::scaled(len as nat, ratio as nat);
    let w = single::scaled(more as nat, larger as nat);
    single::lemma_scaled_order(len as nat, more as nat, ratio as nat, larger as nat);
    vstd::arithmetic::div_mod::lemma_div_is_ordered(
        (2 * v + single::ONE) as int,
        (2 * w + single::ONE) as int,
        2 * single::ONE as int,
    );
}

/// A rectangle of the captured area lies as far from the area's corner on the screen as in the area, and keeps its
/// size.
pub proof fn lemma_moved_corner(capture: Rect, local: Rect)
    requires
        movable(local, capture.left as int, capture.top as int),
    ensures
        ({
            let screen = moved(local, capture.left as int, capture.top as int);
            &&& screen.left - capture.left == local.left
            &&& screen.top - capture.top == local.top
            &&& screen.width == local.width && screen.height == local.height
        }),
{
}

/// The percentages that are logged are those that the margins are cut with.
pub proof fn lemma_shrink_percents(profile: LaunchProfile)
    ensures
        ({
            let (h, v) = shrink_ratios(profile);
            let (ph, pv) = shrink_percents(profile);
            &&& -4503599627 < 100 * h - ph * 4503599627370496 < 4503599627
            &&& -4503599627 < 100 * v - pv * 4503599627370496 < 4503599627
        }),
{
}

} // verus!
