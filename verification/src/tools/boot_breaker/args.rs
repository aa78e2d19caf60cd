//! The settings of the tool.

use crate::text;
use crate::tools::boot_breaker::motion::{BootSize, SearchArea};
use vstd::prelude::*;
use vstd::string::*;

verus! {

/// The settings. Shares and lengths are single-precision values in units of 2^-52, times are
/// double-precision seconds in units of 2^-82.
pub struct Args {
    pub log_file: String,
    pub template: String,
    /// 0.15: the upper edge of the search for the boot, as a share of the height.
    pub search_top: u128,
    /// 0.04: the side margin of the search for the boot, as a share of the width.
    pub search_margin: u128,
    /// 0.85: where the cart is looked for and the search for the boot ends, as a share of the height.
    pub cart_detection_y: u128,
    /// 18: how many pixels the cart may be off.
    pub deadzone: u128,
    /// For how many lost frames the boot still counts as being there.
    pub lost_keep_frames: i32,
    /// What is added around the boot when it is searched around its last place.
    pub roi_padding: i32,
    /// What each lost frame adds to that.
    pub lost_roi_grow: i32,
    /// 1.45: how much larger than usual the boot may look.
    pub boot_size_max_scale: u128,
    /// 2 seconds: how long the boot must be missing before the space bar is tapped.
    pub rescue_space_delay: u128,
    /// How many taps make a rescue.
    pub rescue_space_taps: i32,
    /// 0.35 seconds: the pause between two taps of a rescue.
    pub rescue_space_interval: u128,
    /// 3 seconds: the pause between two rescues.
    pub rescue_space_cooldown: u128,
    /// Whether there are no rescues.
    pub no_rescue_space: bool,
}

impl Default for Args {
    fn default() -> (a: Self)
        ensures
            a.log_file@ == "boot_breaker_debug.tsv"@,
            a.template@ == "boot_flying_template.png"@,
            a.search_top == 675539970949120,
            a.search_margin == 180143981068288,
            a.cart_detection_y == 3828059790639104,
            a.deadzone == 81064793292668928,
            a.lost_keep_frames == 12,
            a.roi_padding == 28,
            a.lost_roi_grow == 14,
            a.boot_size_max_scale == 6530219674435584,
            a.rescue_space_delay == 9671406556917033397649408,
            a.rescue_space_taps == 2,
            a.rescue_space_interval == 1692496147460480737214464,
            a.rescue_space_cooldown == 14507109835375550096474112,
            !a.no_rescue_space,
            -0x2_0000_0000 < 20 * a.search_top - 3 * 4503599627370496 < 0x2_0000_0000,
            -0x2_0000_0000 < 25 * a.search_margin - 4503599627370496 < 0x2_0000_0000,
            -0x2_0000_0000 < 20 * a.cart_detection_y - 17 * 4503599627370496 < 0x2_0000_0000,
            -0x2_0000_0000 < 20 * a.boot_size_max_scale - 29 * 4503599627370496 < 0x2_0000_0000,
            a.deadzone == 18 * 4503599627370496,
            a.rescue_space_delay == 2 * 4835703278458516698824704,
            -0x4_0000_0000 < 20 * a.rescue_space_interval - 7 * 4835703278458516698824704 < 0x4_0000_0000,
            a.rescue_space_cooldown == 3 * 4835703278458516698824704,
    {
        Args {
            log_file: text::copy("boot_breaker_debug.tsv"),
            template: text::copy("boot_flying_template.png"),
            search_top: 675539970949120,
            search_margin: 180143981068288,
            cart_detection_y: 3828059790639104,
            deadzone: 81064793292668928,
            lost_keep_frames: 12,
            roi_padding: 28,
            lost_roi_grow: 14,
            boot_size_max_scale: 6530219674435584,
            rescue_space_delay: 9671406556917033397649408,
            rescue_space_taps: 2,
            rescue_space_interval: 1692496147460480737214464,
            rescue_space_cooldown: 14507109835375550096474112,
            no_rescue_space: false,
        }
    }
}

impl Args {
    /// The area that is searched for the boot.
    pub fn search_area(&self) -> (a: SearchArea)
        ensures
            a == (SearchArea {
                margin: self.search_margin,
                top: self.search_top,
                bottom: self.cart_detection_y,
            }),
    {
        SearchArea { margin: self.search_margin, top: self.search_top, bottom: self.cart_detection_y }
    }
}

/// A four-byte number with the most significant byte first and a sign.
pub open spec fn big_endian(b: Seq<u8>) -> int {
    let v = b[0] * 0x100_0000 + b[1] * 0x1_0000 + b[2] * 0x100 + b[3];
    if v >= 0x8000_0000 {
        v - 0x1_0000_0000
    } else {
        v
    }
}

/// The first bytes of every PNG file.
pub open spec fn png_signature() -> Seq<u8> {
    seq![137u8, 80, 78, 71, 13, 10, 26, 10]
}

/// The first 24 bytes of a PNG file: its signature, a length, the chunk name `IHDR`, width and height.
pub open spec fn png_header(header: Seq<u8>) -> bool {
    &&& header.len() >= 24
    &&& header.subrange(0, 8) == png_signature()
    &&& header.subrange(12, 16) == seq![73u8, 72, 68, 82]
}

fn read_number(header: &[u8], at: usize) -> (n: i32)
    requires
        at + 4 <= header@.len(),
    ensures
        n == big_endian(header@.subrange(at as int, at + 4)),
{
    let v: i64 = header[at] as i64 * 0x100_0000 + header[at + 1] as i64 * 0x1_0000 + header[at + 2] as i64 * 0x100
        + header[at + 3] as i64;
    if v >= 0x8000_0000 {
        (v - 0x1_0000_0000) as i32
    } else {
        v as i32
    }
}

/// The size that the first bytes of a PNG file give, or none where they are not those of one.
pub fn parse_png_size(header: &[u8]) -> (size: Option<BootSize>)
    ensures
        size is Some <==> png_header(header@),
        size matches Some(s) ==> s.w == big_endian(header@.subrange(16, 20)) && s.h == big_endian(
            header@.subrange(20, 24),
        ),
{
    if header.len() < 24 {
        return None;
    }
    let signed: bool = header[0] == 137 && header[1] == 80 && header[2] == 78 && header[3] == 71 && header[4] == 13
        && header[5] == 10 && header[6] == 26 && header[7] == 10;
    let named: bool = header[12] == 73 && header[13] == 72 && header[14] == 68 && header[15] == 82;
    proof {
        let a = header@.subrange(0, 8);
        let b = header@.subrange(12, 16);
        if signed {
            assert(a =~= png_signature());
        } else {
            assert(a[0] == header@[0] && a[1] == header@[1] && a[2] == header@[2] && a[3] == header@[3]);
            assert(a[4] == header@[4] && a[5] == header@[5] && a[6] == header@[6] && a[7] == header@[7]);
        }
        if named {
            assert(b =~= seq![73u8, 72, 68, 82]);
        } else {
            assert(b[0] == header@[12] && b[1] == header@[13] && b[2] == header@[14] && b[3] == header@[15]);
        }
    }
    if signed && named {
        Some(BootSize { w: read_number(header, 16), h: read_number(header, 20) })
    } else {
        None
    }
}

/// A signed number of four bytes, the most significant first: the lower bytes count from zero up, and a set highest bit
/// makes it negative.
pub proof fn lemma_big_endian(b: Seq<u8>)
    requires
        b.len() == 4,
    ensures
        -0x8000_0000 <= big_endian(b) < 0x8000_0000,
        big_endian(b) < 0 <==> b[0] >= 128,
        (big_endian(b) - b[3]) % 0x100 == 0,
        (big_endian(b) - b[3] - 0x100 * b[2]) % 0x1_0000 == 0,
        (big_endian(b) - b[3] - 0x100 * b[2] - 0x1_0000 * b[1]) % 0x100_0000 == 0,
        b[0] == 0 && b[1] == 0 && b[2] == 0 ==> big_endian(b) == b[3],
        b[0] == 255 && b[1] == 255 && b[2] == 255 && b[3] == 255 ==> big_endian(b) == -1,
{
}

/// The head of a PNG file: a byte above ASCII, `PNG`, the two kinds of line ends around an end-of-file byte and, behind a
/// length, `IHDR`. The length is not looked at, nor what follows.
pub proof fn lemma_png_header(header: Seq<u8>, other: Seq<u8>)
    requires
        header.len() >= 24,
        other.len() >= 24,
    ensures
        png_header(header) ==> header[0] == 0x89 && header[1] == 0x50 && header[2] == 0x4e && header[3] == 0x47 && header[12] == 0x49
            && header[13] == 0x48 && header[14] == 0x44 && header[15] == 0x52,
        header.take(8) == other.take(8) && header.subrange(12, 16) == other.subrange(12, 16) ==> png_header(header) == png_header(other),
        header.take(8) == seq![0x89u8, 0x50, 0x4e, 0x47, 0x0d, 0x0a, 0x1a, 0x0a] && header.subrange(12, 16) == seq![
            0x49u8,
            0x48,
            0x44,
            0x52,
        ] ==> png_header(header),
{
    let a = header.subrange(0, 8);
    let b = header.subrange(12, 16);
    assert(header.take(8) =~= a);
    assert(other.take(8) =~= other.subrange(0, 8));
    if png_header(header) {
        assert(a[0] == header[0] && a[1] == header[1] && a[2] == header[2] && a[3] == header[3]);
        assert(b[0] == header[12] && b[1] == header[13] && b[2] == header[14] && b[3] == header[15]);
    }
}

} // verus!
