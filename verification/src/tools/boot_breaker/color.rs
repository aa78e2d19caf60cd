//! The colours that tell the boot and the cart from their surroundings.

use crate::pixels;
use vstd::prelude::*;

verus! {

/// The brightness of a pixel: 77 parts red, 150 parts green and 29 parts blue of 256.
pub open spec fn luma(p: (u8, u8, u8)) -> u8 {
    ((77 * p.0 + 150 * p.1 + 29 * p.2) / 256) as u8
}

/// The brightness of every pixel of a frame, row by row.
pub open spec fn gray_image(frame: Seq<u8>, width: int, height: int) -> Seq<u8> {
    Seq::new((width * height) as nat, |p: int| luma((frame[4 * p + 2], frame[4 * p + 1], frame[4 * p])))
}

/// The brightness of the pixel in column `x` of row `y` stands at its place.
pub proof fn lemma_gray_pixel(frame: Seq<u8>, width: int, height: int, x: int, y: int)
    requires
        0 <= x < width,
        0 <= y < height,
    ensures
        0 <= y * width + x < width * height,
        gray_image(frame, width, height)[y * width + x] == luma(pixels::pixel(frame, width, x, y)),
{
    assert(0 <= y * width && y * width + width <= width * height) by (nonlinear_arith)
        requires
            0 <= y < height,
            0 < width,
    ;
}

/// Replaces `out` by the brightness of every pixel of a frame.
pub fn bgra_to_gray(frame: &[u8], width: i32, height: i32, out: &mut Vec<u8>)
    requires
        0 <= width,
        0 <= height,
        pixels::frame_fits(frame@.len() as int, width as int, height as int),
    ensures
        final(out)@ == gray_image(frame@, width as int, height as int),
{
    proof {
        assert(width * height >= 0) by (nonlinear_arith)
            requires
                0 <= width,
                0 <= height,
        ;
        if width == 0 || height == 0 {
            assert(width * height == 0) by (nonlinear_arith)
                requires
                    width == 0 || height == 0,
            ;
        }
    }
    let total: usize = (width * height) as usize;
    out.clear();
    let mut p: usize = 0;
    while p < total
        invariant
            p <= total,
            total == width * height,
            4 * total <= i32::MAX,
            4 * total <= frame@.len(),
            out@.len() == p,
            forall|i: int|
                0 <= i < p ==> #[trigger] out@[i] == luma((frame@[4 * i + 2], frame@[4 * i + 1], frame@[4 * i])),
        decreases total - p,
    {
        let b: u32 = frame[4 * p] as u32;
        let g: u32 = frame[4 * p + 1] as u32;
        let r: u32 = frame[4 * p + 2] as u32;
        out.push(((77 * r + 150 * g + 29 * b) / 256) as u8);
        p = p + 1;
    }
    assert(out@ =~= gray_image(frame@, width as int, height as int));
}

/// The largest of three numbers.
pub open spec fn most(r: int, g: int, b: int) -> int {
    let m = if r >= g {
        r
    } else {
        g
    };
    if m >= b {
        m
    } else {
        b
    }
}

/// The smallest of three numbers.
pub open spec fn fewest(r: int, g: int, b: int) -> int {
    let m = if r <= g {
        r
    } else {
        g
    };
    if m <= b {
        m
    } else {
        b
    }
}

/// A quotient without its fraction.
pub open spec fn toward_zero(n: int, d: int) -> int {
    if n >= 0 {
        n / d
    } else {
        -((-n) / d)
    }
}

/// The hue of a colour in steps of two degrees, before it is brought into a full turn.
pub open spec fn raw_hue(r: int, g: int, b: int) -> int {
    let max = most(r, g, b);
    let d = max - fewest(r, g, b);
    if d == 0 {
        0
    } else if max == r {
        toward_zero(30 * (g - b), d)
    } else if max == g {
        60 + toward_zero(30 * (b - r), d)
    } else {
        120 + toward_zero(30 * (r - g), d)
    }
}

/// Hue in steps of two degrees, saturation and value of a colour.
pub open spec fn hsv(p: (u8, u8, u8)) -> (int, int, int) {
    let r = p.0 as int;
    let g = p.1 as int;
    let b = p.2 as int;
    let max = most(r, g, b);
    let d = max - fewest(r, g, b);
    let h = raw_hue(r, g, b);
    (
        if h < 0 {
            h + 180
        } else {
            h
        },
        if max == 0 {
            0
        } else {
            d * 255 / max
        },
        max,
    )
}

proof fn lemma_turn(n: int, d: int)
    requires
        0 < d,
        -30 * d <= n <= 30 * d,
    ensures
        -30 <= toward_zero(n, d) <= 30,
{
    if n >= 0 {
        assert(0 <= n / d <= 30) by (nonlinear_arith)
            requires
                0 < d,
                0 <= n <= 30 * d,
        ;
    } else {
        let m = -n;
        assert(0 <= m / d <= 30) by (nonlinear_arith)
            requires
                0 < d,
                0 <= m <= 30 * d,
        ;
    }
}

/// Hues make one turn of 180 steps; saturation and value are at most 255.
pub proof fn lemma_hsv_range(p: (u8, u8, u8))
    ensures
        0 <= hsv(p).0 < 180,
        0 <= hsv(p).1 <= 255,
        0 <= hsv(p).2 <= 255,
{
    let r = p.0 as int;
    let g = p.1 as int;
    let b = p.2 as int;
    let max = most(r, g, b);
    let d = max - fewest(r, g, b);
    if d > 0 {
        lemma_turn(30 * (g - b), d);
        lemma_turn(30 * (b - r), d);
        lemma_turn(30 * (r - g), d);
    }
    if max > 0 {
        assert(0 <= d * 255 / max <= 255) by (nonlinear_arith)
            requires
                0 <= d <= max,
                0 < max,
        ;
    }
}

fn divide_toward_zero(n: i32, d: i32) -> (q: i32)
    requires
        0 < d,
        -0x1_0000_0000 < 2 * n < 0x1_0000_0000,
    ensures
        q == toward_zero(n as int, d as int),
        n >= 0 ==> 0 <= q <= n,
        n < 0 ==> n <= q <= 0,
{
    if n >= 0 {
        proof {
            assert(0 <= n / d <= n) by (nonlinear_arith)
                requires
                    0 < d,
                    0 <= n,
            ;
        }
        n / d
    } else {
        let m: i32 = -n;
        proof {
            assert(0 <= m / d <= m) by (nonlinear_arith)
                requires
                    0 < d,
                    0 <= m,
            ;
        }
        -(m / d)
    }
}

/// Hue in steps of two degrees, saturation and value of a colour.
pub fn hsv_like(r: u8, g: u8, b: u8) -> (c: (i32, i32, i32))
    ensures
        (c.0 as int, c.1 as int, c.2 as int) == hsv((r, g, b)),
        0 <= c.0 < 180,
        0 <= c.1 <= 255,
        0 <= c.2 <= 255,
{
    let ghost p = (r, g, b);
    let r: i32 = r as i32;
    let g: i32 = g as i32;
    let b: i32 = b as i32;
    let max: i32 = r.max(g).max(b);
    let min: i32 = r.min(g).min(b);
    let d: i32 = max - min;
    proof {
        lemma_hsv_range(p);
    }
    let s: i32 = if max == 0 {
        0
    } else {
        d * 255 / max
    };
    let h: i32 = if d == 0 {
        0
    } else if max == r {
        divide_toward_zero(30 * (g - b), d)
    } else if max == g {
        60 + divide_toward_zero(30 * (b - r), d)
    } else {
        120 + divide_toward_zero(30 * (r - g), d)
    };
    let h: i32 = if h < 0 {
        h + 180
    } else {
        h
    };
    (h, s, max)
}

/// A colour of the boot: brown, neither pale nor black nor glaring.
pub open spec fn boot_like(p: (u8, u8, u8)) -> bool {
    let (h, s, v) = hsv(p);
    3 <= h <= 36 && s >= 35 && 30 <= v <= 245
}

/// A colour of the cart: red, neither pale nor black.
pub open spec fn red_like(p: (u8, u8, u8)) -> bool {
    let (h, s, v) = hsv(p);
    (0 <= h <= 20 || 150 <= h <= 179) && s >= 45 && v >= 35
}

/// Does the pixel have a colour of the boot?
pub fn boot_color(frame: &[u8], width: i32, x: i32, y: i32) -> (yes: bool)
    requires
        0 <= x < width,
        pixels::row_fits(frame@.len() as int, width as int, y as int),
    ensures
        yes == boot_like(pixels::pixel(frame@, width as int, x as int, y as int)),
{
    let p = pixels::pixel_at(frame, width, x, y);
    let (h, s, v) = hsv_like(p.0, p.1, p.2);
    h >= 3 && h <= 36 && s >= 35 && v >= 30 && v <= 245
}

/// Does the pixel have a colour of the cart?
pub fn red_color(frame: &[u8], width: i32, x: i32, y: i32) -> (yes: bool)
    requires
        0 <= x < width,
        pixels::row_fits(frame@.len() as int, width as int, y as int),
    ensures
        yes == red_like(pixels::pixel(frame@, width as int, x as int, y as int)),
{
    let p = pixels::pixel_at(frame, width, x, y);
    let (h, s, v) = hsv_like(p.0, p.1, p.2);
    ((h >= 0 && h <= 20) || (h >= 150 && h <= 179)) && s >= 45 && v >= 35
}

proof fn lemma_quotient_reaches(n: int, d: int, k: int)
    requires
        0 < d,
        0 <= n,
        0 <= k,
    ensures
        n / d >= k <==> n >= k * d,
        n / d >= 0,
{
    let q = n / d;
    vstd::arithmetic::div_mod::lemma_fundamental_div_mod(n, d);
    assert(0 <= n % d < d);
    assert(q >= k ==> n >= k * d) by (nonlinear_arith)
        requires
            n == d * q + n % d,
            0 <= n % d,
            0 < d,
    ;
    assert(n >= k * d ==> q >= k) by (nonlinear_arith)
        requires
            n == d * q + n % d,
            n % d < d,
            0 < d,
    ;
    assert(q >= 0) by (nonlinear_arith)
        requires
            n == d * q + n % d,
            n % d < d,
            0 <= n,
            0 < d,
    ;
}

/// Brightness keeps greys as they are, lies between the darkest and the brightest channel, and never falls when a
/// channel rises.
pub proof fn lemma_luma(p: (u8, u8, u8), q: (u8, u8, u8))
    ensures
        p.0 == p.1 && p.1 == p.2 ==> luma(p) == p.0,
        luma(p) <= p.0 || luma(p) <= p.1 || luma(p) <= p.2,
        luma(p) >= p.0 || luma(p) >= p.1 || luma(p) >= p.2,
        p.0 <= q.0 && p.1 <= q.1 && p.2 <= q.2 ==> luma(p) <= luma(q),
{
}

/// Green weighs most and blue least: of two channels the heavier one makes the brighter colour.
pub proof fn lemma_luma_weights(a: u8, b: u8, c: u8)
    requires
        a >= b,
    ensures
        luma((b, a, c)) >= luma((a, b, c)),
        luma((a, c, b)) >= luma((b, c, a)),
        luma((c, a, b)) >= luma((c, b, a)),
        luma((0, a, 0)) - luma((a, 0, 0)) >= (a * 73) / 256 - 1,
        luma((a, 0, 0)) - luma((0, 0, a)) >= (a * 48) / 256 - 1,
        luma((0, a, 0)) - luma((a, 0, 0)) <= (a * 73) / 256 + 1,
        luma((a, 0, 0)) - luma((0, 0, a)) <= (a * 48) / 256 + 1,
{
}

/// The value of a colour is its greatest channel. Its saturation is the distance of the channels as a share of
/// that: none for a grey, all where a channel is dark.
pub proof fn lemma_saturation(p: (u8, u8, u8))
    ensures
        hsv(p).2 >= p.0 && hsv(p).2 >= p.1 && hsv(p).2 >= p.2,
        hsv(p).2 == p.0 || hsv(p).2 == p.1 || hsv(p).2 == p.2,
        hsv(p).1 == 0 <==> p.0 == p.1 && p.1 == p.2,
        hsv(p).1 == 255 <==> (p.0 == 0 || p.1 == 0 || p.2 == 0) && !(p.0 == 0 && p.1 == 0 && p.2 == 0),
{
    let r = p.0 as int;
    let g = p.1 as int;
    let b = p.2 as int;
    let max = most(r, g, b);
    let d = max - fewest(r, g, b);
    if max > 0 {
        lemma_quotient_reaches(d * 255, max, 1);
        lemma_quotient_reaches(d * 255, max, 255);
        lemma_hsv_range(p);
    }
}

/// Saturation does not depend on the order of the channels, and hue does not change when all channels are raised
/// alike.
pub proof fn lemma_hue_of_differences(p: (u8, u8, u8), by: int)
    requires
        0 <= p.0 + by <= 255,
        0 <= p.1 + by <= 255,
        0 <= p.2 + by <= 255,
    ensures
        hsv(((p.0 + by) as u8, (p.1 + by) as u8, (p.2 + by) as u8)).0 == hsv(p).0,
        hsv((p.1, p.2, p.0)).1 == hsv(p).1,
        hsv((p.1, p.0, p.2)).1 == hsv(p).1,
{
}

/// Hues go round: moving every channel on to the next one turns the hue by a third.
pub proof fn lemma_hue_turns(p: (u8, u8, u8))
    requires
        p.0 != p.1,
        p.1 != p.2,
        p.0 != p.2,
    ensures
        hsv((p.2, p.0, p.1)).0 == (hsv(p).0 + 60) % 180,
{
    lemma_hsv_range(p);
    lemma_hsv_range((p.2, p.0, p.1));
    let r = p.0 as int;
    let g = p.1 as int;
    let b = p.2 as int;
    let d = most(r, g, b) - fewest(r, g, b);
    lemma_turn(30 * (g - b), d);
    lemma_turn(30 * (b - r), d);
    lemma_turn(30 * (r - g), d);
}

/// Hues are mirrored at red: with green and blue exchanged, a hue is as far from red the other way.
pub proof fn lemma_hue_mirrored(p: (u8, u8, u8))
    requires
        p.0 >= p.1,
        p.0 >= p.2,
    ensures
        hsv((p.0, p.2, p.1)).0 == (180 - hsv(p).0) % 180,
        p.1 >= p.2 ==> hsv(p).0 <= 30,
{
    let r = p.0 as int;
    let g = p.1 as int;
    let b = p.2 as int;
    let d = most(r, g, b) - fewest(r, g, b);
    lemma_hsv_range(p);
    if d > 0 {
        lemma_turn(30 * (g - b), d);
        lemma_turn(30 * (b - g), d);
    }
}

/// Between red and yellow, hue grows from 0 to 30 with the share of green.
pub proof fn lemma_hue_of_green(p: (u8, u8, u8), k: int)
    requires
        p.0 >= p.1 >= p.2,
        p.0 > p.2,
        0 <= k,
    ensures
        hsv(p).0 >= k <==> 30 * (p.1 - p.2) >= k * (p.0 - p.2),
{
    lemma_quotient_reaches(30 * (p.1 - p.2), (p.0 - p.2) as int, k);
}

/// A colour is one of the boot exactly where blue is the darkest channel, the brightest channel is from 30 to 245,
/// blue is darker than it by at least 35 parts in 255, and the hue is orange or yellow: red is brightest and green
/// at least a tenth of the way from blue to red, or green is brightest and red at least four fifths of the way
/// from blue to green.
pub proof fn lemma_boot_color(p: (u8, u8, u8))
    ensures
        ({
            let r = p.0 as int;
            let g = p.1 as int;
            let b = p.2 as int;
            boot_like(p) <==> {
                ||| r >= g > b && 10 * (g - b) >= r - b && 30 <= r <= 245 && 255 * (r - b) >= 35 * r
                ||| g > r > b && 5 * (r - b) >= 4 * (g - b) && 30 <= g <= 245 && 255 * (g - b) >= 35 * g
            }
        }),
{
    let r = p.0 as int;
    let g = p.1 as int;
    let b = p.2 as int;
    let max = most(r, g, b);
    let d = max - fewest(r, g, b);
    if d > 0 {
        lemma_quotient_reaches(d * 255, max, 35);
        lemma_turn(30 * (g - b), d);
        lemma_turn(30 * (b - r), d);
        lemma_turn(30 * (r - g), d);
        if g >= b {
            lemma_quotient_reaches(30 * (g - b), d, 3);
        } else {
            lemma_quotient_reaches(30 * (b - g), d, 0);
        }
        if r >= b {
            lemma_quotient_reaches(30 * (r - b), d, 24);
        } else {
            lemma_quotient_reaches(30 * (b - r), d, 0);
        }
    }
}

/// A colour is one of the cart exactly where red is brightest, at 35 or more, the darkest channel is darker than it
/// by at least 45 parts in 255, and the hue is not yellow: green is less than seven tenths of the way from blue
/// to red.
pub proof fn lemma_red_color(p: (u8, u8, u8))
    ensures
        ({
            let r = p.0 as int;
            let g = p.1 as int;
            let b = p.2 as int;
            let least = if g < b {
                g
            } else {
                b
            };
            red_like(p) <==> {
                &&& r >= 35 && r >= g && r >= b
                &&& 255 * (r - least) >= 45 * r
                &&& g > b ==> 10 * (g - b) < 7 * (r - b)
            }
        }),
{
    let r = p.0 as int;
    let g = p.1 as int;
    let b = p.2 as int;
    let max = most(r, g, b);
    let d = max - fewest(r, g, b);
    if d > 0 {
        lemma_quotient_reaches(d * 255, max, 45);
        lemma_turn(30 * (g - b), d);
        lemma_turn(30 * (b - r), d);
        lemma_turn(30 * (r - g), d);
        if g >= b {
            lemma_quotient_reaches(30 * (g - b), d, 21);
        } else {
            lemma_quotient_reaches(30 * (b - g), d, 0);
        }
        if r >= g {
            lemma_quotient_reaches(30 * (r - g), d, 30);
        } else {
            lemma_quotient_reaches(30 * (g - r), d, 0);
        }
    }
}

} // verus!
