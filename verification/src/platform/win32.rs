//! The records that are exchanged with the windowing system.

use vstd::prelude::*;

verus! {

pub const BI_RGB: u32 = 0;

pub const INPUT_KEYBOARD: u32 = 1;

pub const KEYEVENTF_KEYUP: u32 = 0x0002;

pub const KEYEVENTF_SCANCODE: u32 = 0x0008;

/// A scan code key event that releases the key.
pub const KEYEVENTF_SCANCODE_UP: u32 = 0x000a;

pub const VK_A: u16 = 0x41;

pub const VK_D: u16 = 0x44;

pub const VK_SPACE: u16 = 0x20;

/// The size of a bitmap header in bytes.
pub const BITMAP_HEADER_SIZE: u32 = 40;

/// A position on the screen.
#[derive(Clone, Copy, Debug, PartialEq, Eq, Structural)]
pub struct Point {
    pub x: i32,
    pub y: i32,
}

/// A rectangle by its corner and its size.
#[derive(Clone, Copy, Debug, PartialEq, Eq, Structural)]
pub struct Rect {
    pub left: i32,
    pub top: i32,
    pub width: i32,
    pub height: i32,
}

/// The header of a device independent bitmap.
#[derive(Clone, Copy, Debug, PartialEq, Eq, Structural)]
pub struct BitmapInfoHeader {
    pub bi_size: u32,
    pub bi_width: i32,
    pub bi_height: i32,
    pub bi_planes: u16,
    pub bi_bit_count: u16,
    pub bi_compression: u32,
    pub bi_size_image: u32,
    pub bi_x_pels_per_meter: i32,
    pub bi_y_pels_per_meter: i32,
    pub bi_clr_used: u32,
    pub bi_clr_important: u32,
}

/// A bitmap header and its colour table.
#[derive(Clone, Copy, Debug)]
pub struct BitmapInfo {
    pub bmi_header: BitmapInfoHeader,
    pub bmi_colors: [u32; 1],
}

/// A keyboard event.
#[derive(Clone, Copy, Debug, PartialEq, Eq, Structural)]
pub struct KeyBdInput {
    pub w_vk: u16,
    pub w_scan: u16,
    pub dw_flags: u32,
    pub time: u32,
    pub dw_extra_info: usize,
}

/// An input event.
#[derive(Clone, Copy, Debug, PartialEq, Eq, Structural)]
pub struct Input {
    pub kind: u32,
    pub _pad: u32,
    pub ki: KeyBdInput,
    pub _union_pad: u64,
}

/// A rectangle by its edges, as the windowing system gives it.
#[derive(Clone, Copy, Debug, PartialEq, Eq, Structural, Default)]
pub struct WinRect {
    pub left: i32,
    pub top: i32,
    pub right: i32,
    pub bottom: i32,
}

/// A keyboard event with these three values and zeros elsewhere.
pub open spec fn keyboard_input(vk: u16, scan: u16, flags: u32) -> Input {
    Input {
        kind: INPUT_KEYBOARD,
        _pad: 0,
        ki: KeyBdInput { w_vk: vk, w_scan: scan, dw_flags: flags, time: 0, dw_extra_info: 0 },
        _union_pad: 0,
    }
}

/// A keyboard event with these three values and zeros elsewhere.
pub fn make_input(vk: u16, scan: u16, flags: u32) -> (input: Input)
    ensures
        input == keyboard_input(vk, scan, flags),
{
    Input {
        kind: INPUT_KEYBOARD,
        _pad: 0,
        ki: KeyBdInput { w_vk: vk, w_scan: scan, dw_flags: flags, time: 0, dw_extra_info: 0 },
        _union_pad: 0,
    }
}

/// The header of a bitmap of 32-bit pixels whose rows run from top to bottom, with this image size.
pub open spec fn pixel_header(width: int, height: int, image_bytes: int) -> BitmapInfoHeader {
    BitmapInfoHeader {
        bi_size: BITMAP_HEADER_SIZE,
        bi_width: width as i32,
        bi_height: (-height) as i32,
        bi_planes: 1,
        bi_bit_count: 32,
        bi_compression: BI_RGB,
        bi_size_image: image_bytes as u32,
        bi_x_pels_per_meter: 0,
        bi_y_pels_per_meter: 0,
        bi_clr_used: 0,
        bi_clr_important: 0,
    }
}

fn make_header(width: i32, height: i32, image_bytes: u32) -> (info: BitmapInfo)
    requires
        height > i32::MIN,
    ensures
        info.bmi_header == pixel_header(width as int, height as int, image_bytes as int),
        info.bmi_colors@ == seq![0u32],
{
    let info = BitmapInfo {
        bmi_header: BitmapInfoHeader {
            bi_size: BITMAP_HEADER_SIZE,
            bi_width: width,
            bi_height: -height,
            bi_planes: 1,
            bi_bit_count: 32,
            bi_compression: BI_RGB,
            bi_size_image: image_bytes,
            bi_x_pels_per_meter: 0,
            bi_y_pels_per_meter: 0,
            bi_clr_used: 0,
            bi_clr_important: 0,
        },
        bmi_colors: [0],
    };
    assert(info.bmi_colors@ =~= seq![0u32]);
    info
}

/// The bitmap that a capture of this size is read into. The image must fit into a signed 32-bit
/// number of bytes.
pub fn capture_info(width: i32, height: i32) -> (info: BitmapInfo)
    requires
        0 <= width,
        0 <= height,
        width * height * 4 <= i32::MAX,
    ensures
        info.bmi_header == pixel_header(width as int, height as int, width * height * 4),
        info.bmi_colors@ == seq![0u32],
{
    let bytes: u64 = (width as u64) * (height as u64) * 4;
    make_header(width, height, bytes as u32)
}

/// The least of a value and the largest unsigned 32-bit number.
pub open spec fn capped(v: int) -> int {
    if v > u32::MAX {
        u32::MAX as int
    } else {
        v
    }
}

/// The bitmap that a frame of this size is captured into. An image size beyond 32 bits is given as
/// the largest such number.
pub fn make_bitmap_info(width: i32, height: i32) -> (info: BitmapInfo)
    requires
        0 <= width,
        0 <= height,
    ensures
        info.bmi_header == pixel_header(width as int, height as int, capped(capped(width * height) * 4)),
        info.bmi_colors@ == seq![0u32],
{
    proof {
        assert(width * height <= 0x7fff_ffff * 0x7fff_ffff) by (nonlinear_arith)
            requires
                0 <= width <= 0x7fff_ffff,
                0 <= height <= 0x7fff_ffff,
        ;
    }
    let area: u64 = (width as u64) * (height as u64);
    let area: u64 = if area > 0xffff_ffff {
        0xffff_ffff
    } else {
        area
    };
    let bytes: u64 = if area * 4 > 0xffff_ffff {
        0xffff_ffff
    } else {
        area * 4
    };
    make_header(width, height, bytes as u32)
}

/// The rectangle of a window, where it has an area.
pub fn window_rect(rect: WinRect) -> (r: Option<Rect>)
    requires
        i32::MIN <= rect.right - rect.left <= i32::MAX,
        i32::MIN <= rect.bottom - rect.top <= i32::MAX,
    ensures
        r is Some <==> rect.right > rect.left && rect.bottom > rect.top,
        r matches Some(out) ==> out == (Rect {
            left: rect.left,
            top: rect.top,
            width: (rect.right - rect.left) as i32,
            height: (rect.bottom - rect.top) as i32,
        }),
{
    let width: i32 = rect.right - rect.left;
    let height: i32 = rect.bottom - rect.top;
    if width <= 0 || height <= 0 {
        None
    } else {
        Some(Rect { left: rect.left, top: rect.top, width, height })
    }
}

/// The rectangle of a screen of this size; never smaller than one pixel.
pub fn screen_rect(width: i32, height: i32) -> (r: Rect)
    ensures
        r.left == 0 && r.top == 0,
        r.width == if width > 1 {
            width
        } else {
            1
        },
        r.height == if height > 1 {
            height
        } else {
            1
        },
{
    Rect {
        left: 0,
        top: 0,
        width: if width > 1 {
            width
        } else {
            1
        },
        height: if height > 1 {
            height
        } else {
            1
        },
    }
}

/// A captured frame has four bytes for each pixel, with the first row on top.
pub proof fn lemma_pixel_header(width: int, height: int)
    requires
        0 <= width <= i32::MAX,
        0 <= height <= i32::MAX,
        0 <= width * height * 4 <= u32::MAX,
    ensures
        ({
            let h = pixel_header(width, height, width * height * 4);
            &&& h.bi_width == width
            &&& h.bi_height + height == 0
            &&& h.bi_bit_count == 8 * 4
            &&& h.bi_planes == 1
            &&& h.bi_compression == 0
            &&& h.bi_size_image == 4 * (width * height)
            &&& h.bi_size == 40
        }),
{
}

} // verus!
