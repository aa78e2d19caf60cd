//! Taking the letters out of a text image.

use crate::blobs;
use crate::blobs::Component;
use crate::order;
use crate::single;
use crate::text;
use crate::tools::automation_attack::color;
use crate::tools::automation_attack::extract;
use crate::tools::automation_attack::extract::TextImage;
use vstd::prelude::*;
use vstd::string::*;

verus! {

pub const TEMPLATE_W: usize = 32;

pub const TEMPLATE_H: usize = 40;

pub const TEMPLATE_LEN: usize = 1280;

pub const TEMPLATE_INNER_W: usize = 28;

pub const TEMPLATE_INNER_H: usize = 36;

/// One letter of a text image, brought to the size of the templates.
pub struct Glyph {
    pub x0: usize,
    pub x1: usize,
    pub bits: Vec<u8>,
}

/// What a glyph holds.
pub struct GlyphView {
    pub x0: int,
    pub x1: int,
    pub bits: Seq<u8>,
}

impl View for Glyph {
    type V = GlyphView;

    open spec fn view(&self) -> GlyphView {
        GlyphView { x0: self.x0 as int, x1: self.x1 as int, bits: self.bits@ }
    }
}

/// One for each dark pixel, zero for the others.
pub open spec fn ink_mask(pixels: Seq<u8>) -> Seq<u8> {
    pixels.map_values(|px: u8| if px < 128 {
        1u8
    } else {
        0u8
    })
}

/// A region is large enough for a letter.
pub open spec fn glyph_sized(c: Component) -> bool {
    c.spec_height() >= 8 && c.spec_width() >= 2
}

/// The largest height among the boxes, zero where there is none.
pub open spec fn tallest(s: Seq<Component>) -> int
    decreases s.len(),
{
    if s.len() == 0 {
        0
    } else {
        let t = tallest(s.drop_last());
        if s.last().spec_height() > t {
            s.last().spec_height()
        } else {
            t
        }
    }
}

/// The boxes of the letters of a picture, from left to right: large enough, and at least 65 % as
/// tall as the tallest.
pub open spec fn letter_boxes(image: extract::ImageView) -> Seq<Component> {
    let sized = blobs::component_list(ink_mask(image.pixels), image.width, 12).filter(|c: Component| glyph_sized(c));
    let top = tallest(sized);
    order::sorted_by(
        sized.filter(|c: Component| c.spec_height() * 100 >= top * 65),
        |c: Component| c.x0 as int,
    )
}

/// The factor that brings a box of `sw` by `sh` pixels to the inner size of a template.
pub open spec fn fit_scale(sw: nat, sh: nat) -> nat {
    let a = single::quotient(TEMPLATE_INNER_W as nat, sw);
    let b = single::quotient(TEMPLATE_INNER_H as nat, sh);
    if b < a {
        b
    } else {
        a
    }
}

/// A side of `len` pixels after scaling, between one and `most`.
pub open spec fn fitted(len: nat, scale: nat, most: int) -> int {
    let r = single::rounded(single::scaled(len, scale)) as int;
    if r < 1 {
        1
    } else if r > most {
        most
    } else {
        r
    }
}

/// Bit `i` of the template of the letter in box `c`: the letter, scaled to fit, in the middle.
pub open spec fn normalized_at(image: extract::ImageView, c: Component, i: int) -> u8 {
    let sw = c.spec_width();
    let sh = c.spec_height();
    let scale = fit_scale(sw as nat, sh as nat);
    let dw = fitted(sw as nat, scale, TEMPLATE_INNER_W as int);
    let dh = fitted(sh as nat, scale, TEMPLATE_INNER_H as int);
    let dx = i % 32 - (32 - dw) / 2;
    let dy = i / 32 - (40 - dh) / 2;
    if 0 <= dx < dw && 0 <= dy < dh && image.pixels[(c.y0 + (dy * sh) / dh) * image.width + c.x0 + (dx * sw) / dw]
        < 128 {
        1u8
    } else {
        0u8
    }
}

/// The template bits of the letter in box `c`.
pub open spec fn normalized(image: extract::ImageView, c: Component) -> Seq<u8> {
    Seq::new(TEMPLATE_LEN as nat, |i: int| normalized_at(image, c, i))
}

/// The letters of a picture, from left to right.
pub open spec fn glyphs_of(image: extract::ImageView) -> Seq<GlyphView> {
    letter_boxes(image).map_values(
        |c: Component| GlyphView { x0: c.x0 as int, x1: c.x1 as int, bits: normalized(image, c) },
    )
}

/// The pictures of the letters have the size of a template.
pub proof fn lemma_glyph_size(image: extract::ImageView, i: int)
    requires
        0 <= i < glyphs_of(image).len(),
    ensures
        glyphs_of(image)[i].bits.len() == TEMPLATE_LEN,
{
}

/// A side after scaling.
fn fit(len: u64, scale: u128, most: usize) -> (r: usize)
    requires
        len < 0x100_0000_0000,
        scale < 0x400_0000_0000_0000,
        1 <= most,
    ensures
        r == fitted(len as nat, scale as nat, most as int),
        1 <= r <= most,
{
    let v: u128 = single::scale(len, scale);
    let r: u128 = (2 * v + single::ONE) / (2 * single::ONE);
    if r < 1 {
        1
    } else if r > most as u128 {
        most
    } else {
        r as usize
    }
}

proof fn lemma_sample(d: int, s: int, n: int)
    requires
        0 <= d < n,
        0 < s,
    ensures
        0 <= (d * s) / n < s,
        0 <= d * s,
{
    assert(0 <= d * s < n * s) by (nonlinear_arith)
        requires
            0 <= d < n,
            0 < s,
    ;
    assert(0 <= (d * s) / n < s) by (nonlinear_arith)
        requires
            0 <= d * s < n * s,
            0 < n,
    ;
}

proof fn lemma_quotient_small(n: nat, d: nat)
    requires
        n <= 36,
        0 < d < 0x1_0000_0000_0000,
    ensures
        single::quotient(n, d) < 0x400_0000_0000_0000,
{
    single::lemma_whole_exact(n);
    single::lemma_nearest_error(d, 1);
    single::lemma_grain_positive(d);
    assert(d / 1 == d);
    let wd = single::whole(d);
    let top = n * single::ONE as nat;
    single::lemma_nearest_error(top, wd);
    let q = top / wd;
    single::lemma_grain_positive(q);
    let v = single::nearest(top, wd);
    assert(top <= 36 * 4503599627370496);
    assert(q <= top) by (nonlinear_arith)
        requires
            q == top / wd,
            wd >= 1,
            top >= 0,
    ;
    let g = single::grain(q);
    assert(2 * (v * wd) <= 2 * top + wd * g);
    assert(g <= q || g == 1);
    assert(wd * g <= top + wd) by (nonlinear_arith)
        requires
            g <= q || g == 1,
            q == top / wd,
            wd >= 1,
            top >= 0,
    ;
    assert(2 * v <= 3 * top + 1) by (nonlinear_arith)
        requires
            2 * (v * wd) <= 2 * top + wd * g,
            wd * g <= top + wd,
            wd >= 1,
            top >= 0,
    ;
}

/// Brings the letter in box `c` to the size of the templates.
pub fn normalize_glyph(image: &TextImage, c: Component) -> (bits: Vec<u8>)
    requires
        image@.wf(),
        blobs::component_in(c, image.width as int, image.height as int),
    ensures
        bits@ == normalized(image@, c),
{
    let sw: u64 = (c.x1 - c.x0 + 1) as u64;
    let sh: u64 = (c.y1 - c.y0 + 1) as u64;
    proof {
        lemma_quotient_small(TEMPLATE_INNER_W as nat, sw as nat);
        lemma_quotient_small(TEMPLATE_INNER_H as nat, sh as nat);
    }
    let a: u128 = single::divide(TEMPLATE_INNER_W as u64, sw);
    let b: u128 = single::divide(TEMPLATE_INNER_H as u64, sh);
    let scale: u128 = if b < a {
        b
    } else {
        a
    };
    let dw: usize = fit(sw, scale, TEMPLATE_INNER_W);
    let dh: usize = fit(sh, scale, TEMPLATE_INNER_H);
    let ox: usize = (TEMPLATE_W - dw) / 2;
    let oy: usize = (TEMPLATE_H - dh) / 2;
    let total: usize = image.pixels.len();
    let mut bits: Vec<u8> = Vec::new();
    let mut i: usize = 0;
    while i < TEMPLATE_LEN
        invariant
            i <= TEMPLATE_LEN,
            image@.wf(),
            total == image.pixels@.len(),
            blobs::component_in(c, image.width as int, image.height as int),
            sw == c.spec_width(),
            sh == c.spec_height(),
            scale == fit_scale(sw as nat, sh as nat),
            dw == fitted(sw as nat, scale as nat, TEMPLATE_INNER_W as int),
            dh == fitted(sh as nat, scale as nat, TEMPLATE_INNER_H as int),
            1 <= dw <= TEMPLATE_INNER_W,
            1 <= dh <= TEMPLATE_INNER_H,
            ox == (32 - dw) / 2,
            oy == (40 - dh) / 2,
            bits@.len() == i,
            forall|k: int| 0 <= k < i ==> #[trigger] bits@[k] == normalized_at(image@, c, k),
        decreases TEMPLATE_LEN - i,
    {
        let tx: usize = i % 32;
        let ty: usize = i / 32;
        let mut bit: u8 = 0;
        if tx >= ox && ty >= oy && tx - ox < dw && ty - oy < dh {
            let dx: u64 = (tx - ox) as u64;
            let dy: u64 = (ty - oy) as u64;
            proof {
                lemma_sample(dx as int, sw as int, dw as int);
                lemma_sample(dy as int, sh as int, dh as int);
                assert(dx * sw <= 32 * sw && dy * sh <= 40 * sh) by (nonlinear_arith)
                    requires
                        dx <= 32,
                        dy <= 40,
                ;
            }
            let sx: usize = c.x0 + ((dx * sw) / (dw as u64)) as usize;
            let sy: usize = c.y0 + ((dy * sh) / (dh as u64)) as usize;
            proof {
                blobs::lemma_pixel(sx as int, sy as int, image.width as int, image.height as int);
                assert(sy * image.width <= sy * image.width + sx);
                assert((c.y0 + (dy * sh) / (dh as int)) * image.width + c.x0 + (dx * sw) / (dw as int) == sy
                    * image.width + sx);
            }
            if image.pixels[sy * image.width + sx] < 128 {
                bit = 1;
            }
        }
        bits.push(bit);
        i = i + 1;
    }
    assert(bits@ =~= normalized(image@, c));
    bits
}

/// The dark pixels of a picture.
fn mask_of(image: &TextImage) -> (mask: Vec<u8>)
    ensures
        mask@ == ink_mask(image@.pixels),
{
    let mut mask: Vec<u8> = Vec::new();
    let mut i: usize = 0;
    while i < image.pixels.len()
        invariant
            i <= image.pixels.len(),
            mask@.len() == i,
            forall|k: int| 0 <= k < i ==> #[trigger] mask@[k] == ink_mask(image@.pixels)[k],
        decreases image.pixels.len() - i,
    {
        mask.push(if image.pixels[i] < 128 {
            1
        } else {
            0
        });
        i = i + 1;
    }
    assert(mask@ =~= ink_mask(image@.pixels));
    mask
}

/// The boxes of the letters of a picture, from left to right.
pub fn find_letters(image: &TextImage) -> (out: Vec<Component>)
    requires
        image@.wf(),
    ensures
        out@ == letter_boxes(image@),
        forall|i: int|
            0 <= i < out.len() ==> blobs::component_in(#[trigger] out@[i], image.width as int, image.height as int),
{
    let mask = mask_of(image);
    let all = blobs::components(mask.as_slice(), image.width, image.height, 12);
    let ghost keep = |c: Component| glyph_sized(c);
    let mut sized: Vec<Component> = Vec::new();
    let mut top: usize = 0;
    let mut i: usize = 0;
    proof {
        blobs::lemma_filter_start(all@, keep);
    }
    while i < all.len()
        invariant
            i <= all.len(),
            image@.wf(),
            keep == (|c: Component| glyph_sized(c)),
            sized@ == all@.take(i as int).filter(keep),
            top == tallest(sized@),
            top <= image.height,
            forall|k: int|
                0 <= k < all.len() ==> blobs::component_in(#[trigger] all@[k], image.width as int, image.height as int),
            forall|k: int|
                0 <= k < sized.len() ==> blobs::component_in(
                    #[trigger] sized@[k],
                    image.width as int,
                    image.height as int,
                ),
        decreases all.len() - i,
    {
        let c = all[i];
        if c.height() >= 8 && c.width() >= 2 {
            let ghost before = sized@;
            sized.push(c);
            proof {
                assert(sized@.drop_last() =~= before);
            }
            if c.height() > top {
                top = c.height();
            }
        }
        proof {
            blobs::lemma_filter_step(all@, i as int, keep);
        }
        i = i + 1;
    }
    assert(all@.take(i as int) =~= all@);
    let ghost tall = |c: Component| c.spec_height() * 100 >= top as int * 65;
    let mut kept: Vec<Component> = Vec::new();
    let mut n: usize = 0;
    proof {
        blobs::lemma_filter_start(sized@, tall);
    }
    while n < sized.len()
        invariant
            n <= sized.len(),
            image@.wf(),
            top <= image.height,
            tall == (|c: Component| c.spec_height() * 100 >= top as int * 65),
            kept@ == sized@.take(n as int).filter(tall),
            forall|k: int|
                0 <= k < sized.len() ==> blobs::component_in(
                    #[trigger] sized@[k],
                    image.width as int,
                    image.height as int,
                ),
            forall|k: int|
                0 <= k < kept.len() ==> blobs::component_in(
                    #[trigger] kept@[k],
                    image.width as int,
                    image.height as int,
                ),
        decreases sized.len() - n,
    {
        let c = sized[n];
        if c.height() as u128 * 100 >= top as u128 * 65 {
            kept.push(c);
        }
        proof {
            blobs::lemma_filter_step(sized@, n as int, tall);
        }
        n = n + 1;
    }
    assert(sized@.take(n as int) =~= sized@);
    let out = blobs::sort_by_column(&kept);
    proof {
        assert forall|k: int| 0 <= k < out.len() implies blobs::component_in(
            #[trigger] out@[k],
            image.width as int,
            image.height as int,
        ) by {
            let j = choose|j: int| 0 <= j < kept@.len() && kept@[j] == out@[k];
            assert(blobs::component_in(kept@[j], image.width as int, image.height as int));
        }
    }
    out
}

/// The letters of a picture, from left to right, at the size of the templates.
pub fn segment_glyphs(image: &TextImage) -> (out: Vec<Glyph>)
    requires
        image@.wf(),
    ensures
        out@.map_values(|g: Glyph| g@) == glyphs_of(image@),
{
    let boxes = find_letters(image);
    let ghost views = |g: Glyph| g@;
    let mut out: Vec<Glyph> = Vec::new();
    let mut i: usize = 0;
    while i < boxes.len()
        invariant
            i <= boxes.len(),
            image@.wf(),
            boxes@ == letter_boxes(image@),
            forall|k: int|
                0 <= k < boxes.len() ==> blobs::component_in(
                    #[trigger] boxes@[k],
                    image.width as int,
                    image.height as int,
                ),
            out@.len() == i,
            forall|k: int| 0 <= k < i ==> (#[trigger] out@[k])@ == glyphs_of(image@)[k],
        decreases boxes.len() - i,
    {
        let c = boxes[i];
        assert(blobs::component_in(boxes@[i as int], image.width as int, image.height as int));
        let bits = normalize_glyph(image, c);
        out.push(Glyph { x0: c.x0, x1: c.x1, bits });
        i = i + 1;
    }
    assert(out@.map_values(views) =~= glyphs_of(image@));
    out
}

/// How many bits are set.
pub open spec fn ink(a: Seq<u8>) -> nat
    decreases a.len(),
{
    if a.len() == 0 {
        0
    } else {
        ink(a.drop_last()) + if a.last() != 0 {
            1nat
        } else {
            0nat
        }
    }
}

/// How many places are set in both of two sequences of the same length.
pub open spec fn shared_ink(a: Seq<u8>, b: Seq<u8>) -> nat
    decreases a.len(),
{
    if a.len() == 0 {
        0
    } else {
        shared_ink(a.drop_last(), b.drop_last()) + if a.last() != 0 && b.last() != 0 {
            1nat
        } else {
            0nat
        }
    }
}

/// The share of ink that two letters have in common (twice the common ink over all the ink), as a
/// single-precision value; zero where neither has any. The longer sequence is cut to the shorter.
pub open spec fn similarity(a: Seq<u8>, b: Seq<u8>) -> nat {
    let n = if a.len() <= b.len() {
        a.len()
    } else {
        b.len()
    };
    let x = a.take(n as int);
    let y = b.take(n as int);
    if ink(x) + ink(y) == 0 {
        0
    } else {
        single::quotient(2 * shared_ink(x, y), ink(x) + ink(y))
    }
}

proof fn lemma_ink(a: Seq<u8>, b: Seq<u8>)
    requires
        a.len() == b.len(),
    ensures
        shared_ink(a, b) == shared_ink(b, a),
        shared_ink(a, b) <= ink(a),
        shared_ink(a, b) <= ink(b),
        ink(a) <= a.len(),
        a == b ==> shared_ink(a, b) == ink(a),
    decreases a.len(),
{
    if a.len() > 0 {
        lemma_ink(a.drop_last(), b.drop_last());
    }
}

/// Similarity is symmetric.
pub proof fn lemma_similarity_symmetric(a: Seq<u8>, b: Seq<u8>)
    ensures
        similarity(a, b) == similarity(b, a),
{
    let n = if a.len() <= b.len() {
        a.len()
    } else {
        b.len()
    };
    lemma_ink(a.take(n as int), b.take(n as int));
}

/// Similarity is at most one, for letters of up to 2^23 bits.
pub proof fn lemma_similarity_bounded(a: Seq<u8>, b: Seq<u8>)
    requires
        a.len() <= 0x80_0000,
    ensures
        similarity(a, b) <= single::ONE,
{
    let n = if a.len() <= b.len() {
        a.len()
    } else {
        b.len()
    };
    let x = a.take(n as int);
    let y = b.take(n as int);
    lemma_ink(x, y);
    lemma_ink(y, x);
    if ink(x) + ink(y) > 0 {
        single::lemma_quotient_at_most_one(2 * shared_ink(x, y), ink(x) + ink(y));
    }
}

/// A letter with any ink is wholly similar to itself.
pub proof fn lemma_similarity_self(a: Seq<u8>)
    requires
        a.len() <= 0x80_0000,
        ink(a) > 0,
    ensures
        similarity(a, a) == single::ONE,
{
    assert(a.take(a.len() as int) =~= a);
    lemma_ink(a, a);
    single::lemma_quotient_at_most_one(2 * ink(a), 2 * ink(a));
}

/// The places that are set in a letter.
pub open spec fn set_places(a: Seq<u8>) -> Set<int> {
    Set::new(|i: int| 0 <= i < a.len() && a[i] != 0)
}

proof fn lemma_ink_places(a: Seq<u8>)
    ensures
        set_places(a).finite(),
        ink(a) == set_places(a).len(),
    decreases a.len(),
{
    if a.len() == 0 {
        assert(set_places(a) =~= Set::empty());
    } else {
        let t = a.drop_last();
        lemma_ink_places(t);
        if a.last() != 0 {
            assert(set_places(a) =~= set_places(t).insert(a.len() - 1));
            assert(!set_places(t).contains(a.len() - 1));
        } else {
            assert(set_places(a) =~= set_places(t));
        }
    }
}

proof fn lemma_shared_places(a: Seq<u8>, b: Seq<u8>)
    requires
        a.len() == b.len(),
    ensures
        set_places(a).intersect(set_places(b)).finite(),
        shared_ink(a, b) == set_places(a).intersect(set_places(b)).len(),
    decreases a.len(),
{
    let both = set_places(a).intersect(set_places(b));
    if a.len() == 0 {
        assert(both =~= Set::empty());
    } else {
        let s = a.drop_last();
        let t = b.drop_last();
        lemma_shared_places(s, t);
        let before = set_places(s).intersect(set_places(t));
        if a.last() != 0 && b.last() != 0 {
            assert(both =~= before.insert(a.len() - 1));
            assert(!before.contains(a.len() - 1));
        } else {
            assert(both =~= before);
        }
    }
}

/// The similarity of two letters of one size is a matter of their set places alone: it is zero where they share
/// none, one where they have the same, less than one where they differ, and otherwise within one part in two
/// million of twice the number of shared places over the sum of both numbers.
pub proof fn lemma_similarity_of_places(a: Seq<u8>, b: Seq<u8>)
    requires
        a.len() == b.len() <= 0x80_0000,
        set_places(a).len() > 0 || set_places(b).len() > 0,
    ensures
        ({
            let p = set_places(a);
            let q = set_places(b);
            let shared = p.intersect(q).len();
            let all = p.len() + q.len();
            let s = similarity(a, b);
            &&& shared == 0 <==> s == 0
            &&& p == q <==> s == single::ONE
            &&& 2_000_000 * (s * all) <= 2_000_001 * (2 * shared * single::ONE)
            &&& 2_000_000 * (2 * shared * single::ONE) <= 2_000_001 * (s * all)
        }),
{
    let p = set_places(a);
    let q = set_places(b);
    let both = p.intersect(q);
    lemma_ink_places(a);
    lemma_ink_places(b);
    lemma_shared_places(a, b);
    lemma_ink(a, b);
    lemma_ink(b, a);
    assert(a.take(a.len() as int) =~= a && b.take(a.len() as int) =~= b);
    let shared = both.len();
    let all = p.len() + q.len();
    single::lemma_whole_exact(2 * shared);
    single::lemma_whole_exact(all);
    let top = 2 * shared * 4503599627370496;
    let s = single::nearest(top, all);
    assert(s == similarity(a, b));
    let f = top / all;
    let g = single::grain(f);
    single::lemma_nearest_error(top, all);
    single::lemma_grain_positive(f);
    if shared > 0 {
        assert(f >= 0x80_0000) by (nonlinear_arith)
            requires
                f == top / all,
                top >= 2 * 4503599627370496,
                0 < all <= 0x100_0000,
        ;
        assert(0x80_0000 * (all * g) <= top) by (nonlinear_arith)
            requires
                0x80_0000 * g <= f,
                f == top / all,
                all > 0,
        ;
        assert(s * all > 0);
        assert(s > 0) by (nonlinear_arith)
            requires
                s * all > 0,
                all > 0,
                s >= 0,
        ;
        assert(2 * shared * single::ONE == top);
    } else {
        assert(top == 0);
        assert(f == 0) by (nonlinear_arith)
            requires
                f == top / all,
                top == 0,
                all > 0,
        ;
        assert(1 * all == all);
        assert(2 * (s * all) <= all);
        assert(s == 0) by (nonlinear_arith)
            requires
                2 * (s * all) <= all,
                all > 0,
                s >= 0,
        ;
        assert(s * all == 0) by (nonlinear_arith)
            requires
                s == 0,
        ;
    }
    if p == q {
        assert(both =~= p);
        single::lemma_quotient_at_most_one(2 * shared, all);
    } else {
        vstd::set_lib::lemma_len_subset(both, p);
        vstd::set_lib::lemma_len_subset(both, q);
        if 2 * shared == all {
            vstd::set_lib::lemma_subset_equality(both, p);
            vstd::set_lib::lemma_subset_equality(both, q);
        }
        single::lemma_quotient_below_one(2 * shared, all);
    }
}

/// The similarity of two letters.
pub fn glyph_similarity(a: &[u8], b: &[u8]) -> (s: u128)
    ensures
        s == similarity(a@, b@),
        a@.len() <= 0x80_0000 ==> s <= single::ONE,
{
    let n: usize = if a.len() <= b.len() {
        a.len()
    } else {
        b.len()
    };
    let mut both: u64 = 0;
    let mut a_count: u64 = 0;
    let mut b_count: u64 = 0;
    let mut i: usize = 0;
    while i < n
        invariant
            i <= n,
            n <= a@.len(),
            n <= b@.len(),
            both <= i,
            a_count <= i,
            b_count <= i,
            both == shared_ink(a@.take(i as int), b@.take(i as int)),
            a_count == ink(a@.take(i as int)),
            b_count == ink(b@.take(i as int)),
        decreases n - i,
    {
        let aa: u8 = a[i];
        let bb: u8 = b[i];
        proof {
            assert(a@.take(i + 1).drop_last() =~= a@.take(i as int));
            assert(b@.take(i + 1).drop_last() =~= b@.take(i as int));
        }
        if aa != 0 {
            a_count = a_count + 1;
        }
        if bb != 0 {
            b_count = b_count + 1;
        }
        if aa != 0 && bb != 0 {
            both = both + 1;
        }
        i = i + 1;
    }
    proof {
        if a@.len() <= 0x80_0000 {
            lemma_similarity_bounded(a@, b@);
        }
    }
    let all: u128 = a_count as u128 + b_count as u128;
    if all == 0 {
        0
    } else {
        proof {
            single::lemma_nearest_size((2 * both) as nat);
            single::lemma_nearest_error(all as nat, 1);
            single::lemma_grain_positive(all as nat);
            assert((all as nat) / 1 == all as nat);
        }
        let top: u128 = single::round_ratio(2 * both as u128, 1);
        let bottom: u128 = single::round_ratio(all, 1);
        single::round_ratio(top * single::ONE, bottom)
    }
}

/// How far column `x` is from the columns of a glyph, in single precision; zero inside them.
pub open spec fn off_glyph(x: int, g: GlyphView) -> nat {
    let x0 = single::whole(g.x0 as nat);
    let x1 = single::whole(g.x1 as nat);
    if x < x0 {
        single::nearest((x0 - x) as nat, 1)
    } else if x > x1 {
        single::nearest((x - x1) as nat, 1)
    } else {
        0
    }
}

/// The glyph nearest to column `x`: the leftmost of those equally near.
pub open spec fn nearest_glyph(x: int, glyphs: Seq<GlyphView>) -> Option<int> {
    if glyphs.len() == 0 {
        None
    } else {
        Some(extract::first_least(glyphs.map_values(|g: GlyphView| off_glyph(x, g))))
    }
}

/// The nearest glyph is one of the glyphs, and no other is nearer.
pub proof fn lemma_nearest_glyph(x: int, glyphs: Seq<GlyphView>)
    ensures
        nearest_glyph(x, glyphs) is None <==> glyphs.len() == 0,
        nearest_glyph(x, glyphs) matches Some(m) ==> {
            &&& 0 <= m < glyphs.len()
            &&& forall|i: int|
                0 <= i < glyphs.len() ==> off_glyph(x, glyphs[m]) <= off_glyph(x, #[trigger] glyphs[i])
        },
{
    if glyphs.len() > 0 {
        let offs = glyphs.map_values(|g: GlyphView| off_glyph(x, g));
        extract::lemma_first_least(offs);
        let m = extract::first_least(offs);
        assert forall|i: int| 0 <= i < glyphs.len() implies off_glyph(x, glyphs[m]) <= off_glyph(
            x,
            #[trigger] glyphs[i],
        ) by {
            assert(offs[i] == off_glyph(x, glyphs[i]));
            assert(offs[m] == off_glyph(x, glyphs[m]));
        }
    }
}

/// The index of the letter that is to be typed next.
pub fn current_glyph_index(image: &TextImage, glyphs: &Vec<Glyph>) -> (index: Option<usize>)
    ensures
        index is Some <==> glyphs.len() > 0,
        index matches Some(i) ==> i < glyphs.len() && Some(i as int) == nearest_glyph(
            image@.center,
            glyphs@.map_values(|g: Glyph| g@),
        ),
{
    let cx: i128 = image.current_center_x as i128;
    let ghost views = glyphs@.map_values(|g: Glyph| g@);
    let ghost offs = views.map_values(|g: GlyphView| off_glyph(cx as int, g));
    if glyphs.len() == 0 {
        return None;
    }
    let mut best: usize = 0;
    let mut least: u128 = 0;
    let mut i: usize = 0;
    while i < glyphs.len()
        invariant
            i <= glyphs.len(),
            0 < glyphs.len(),
            cx == image@.center,
            -0x8000_0000_0000_0000 <= cx <= 0x7fff_ffff_ffff_ffff,
            views == glyphs@.map_values(|g: Glyph| g@),
            offs == views.map_values(|g: GlyphView| off_glyph(cx as int, g)),
            i > 0 ==> best < i && best == extract::first_least(offs.take(i as int)) && least == offs[best as int],
        decreases glyphs.len() - i,
    {
        proof {
            single::lemma_nearest_size(glyphs@[i as int].x0 as nat);
            single::lemma_nearest_size(glyphs@[i as int].x1 as nat);
        }
        let x0: i128 = single::round_ratio(glyphs[i].x0 as u128, 1) as i128;
        let x1: i128 = single::round_ratio(glyphs[i].x1 as u128, 1) as i128;
        let off: u128 = if cx < x0 {
            single::round_ratio((x0 - cx) as u128, 1)
        } else if cx > x1 {
            single::round_ratio((cx - x1) as u128, 1)
        } else {
            0
        };
        proof {
            assert(off == offs[i as int]);
            assert(offs.take(i + 1).drop_last() =~= offs.take(i as int));
            assert(offs.take(i + 1).last() == offs[i as int]);
        }
        if i == 0 || off < least {
            best = i;
            least = off;
        }
        i = i + 1;
    }
    assert(offs.take(i as int) =~= offs);
    Some(best)
}

/// The hash of a picture: of one for each dark pixel and zero for the others.
pub fn text_image_hash(image: &TextImage) -> (hash: u64)
    ensures
        hash == color::fnv(ink_mask(image@.pixels)),
{
    let ghost mask = ink_mask(image@.pixels);
    let mut hash: u64 = 0xcbf29ce484222325;
    let mut i: usize = 0;
    assert(mask.take(0) =~= Seq::<u8>::empty());
    while i < image.pixels.len()
        invariant
            i <= image.pixels.len(),
            mask == ink_mask(image@.pixels),
            hash == color::fnv(mask.take(i as int)),
        decreases image.pixels.len() - i,
    {
        let bit: u8 = if image.pixels[i] < 128 {
            1
        } else {
            0
        };
        hash = color::fnv_step(hash, bit, Ghost(mask.take(i as int)));
        proof {
            assert(mask.take(i + 1) =~= mask.take(i as int).push(bit));
        }
        i = i + 1;
    }
    assert(mask.take(i as int) =~= mask);
    hash
}

/// Columns and rows of the part of the frame that a picture shows.
pub open spec fn source_size(image: extract::ImageView) -> (int, int) {
    (image.bounds.2 - image.bounds.0 + 1, image.bounds.3 - image.bounds.1 + 1)
}

/// The bounds of a picture are in order and leave room for one more.
pub open spec fn bounds_ok(image: extract::ImageView) -> bool {
    &&& image.bounds.0 <= image.bounds.2 < usize::MAX
    &&& image.bounds.1 <= image.bounds.3 < usize::MAX
}

pub fn text_image_source_size(image: &TextImage) -> (size: (usize, usize))
    requires
        bounds_ok(image@),
    ensures
        (size.0 as int, size.1 as int) == source_size(image@),
{
    let (x0, y0, x1, y1) = image.source_bounds;
    (x1 - x0 + 1, y1 - y0 + 1)
}

/// A prompt is 16 to 100 rows high and at least one and a half times as wide as high.
pub open spec fn prompt_shaped(image: extract::ImageView) -> bool {
    let (w, h) = source_size(image);
    16 <= h <= 100 && w >= (h * 3) / 2
}

pub fn likely_prompt_image(image: &TextImage) -> (likely: bool)
    requires
        bounds_ok(image@),
    ensures
        likely == prompt_shaped(image@),
{
    let (w, h) = text_image_source_size(image);
    h >= 16 && h <= 100 && w >= (h * 3) / 2
}

/// The area of the part of the frame that a picture shows, as far as it can be counted.
pub open spec fn shown_area(image: extract::ImageView) -> int {
    let (w, h) = source_size(image);
    if w * h <= usize::MAX {
        w * h
    } else {
        usize::MAX as int
    }
}

pub fn prompt_score(image: &TextImage) -> (score: usize)
    requires
        bounds_ok(image@),
    ensures
        score == shown_area(image@),
{
    let (w, h) = text_image_source_size(image);
    match w.checked_mul(h) {
        Some(area) => area,
        None => usize::MAX,
    }
}

/// The header of a picture in the binary PGM format.
pub open spec fn pgm_header(width: int, height: int) -> Seq<char> {
    "P5\n"@ + text::decimal(width) + " "@ + text::decimal(height) + "\n255\n"@
}

/// A picture in the binary PGM format.
pub fn make_pgm(image: &TextImage) -> (pgm: Vec<u8>)
    requires
        image@.wf(),
    ensures
        pgm@ == vstd::utf8::encode_utf8(pgm_header(image@.width, image@.height)) + image@.pixels,
{
    let mut header = String::new();
    header.append("P5\n");
    text::push_nat(&mut header, image.width as u64);
    header.append(" ");
    text::push_nat(&mut header, image.height as u64);
    header.append("\n255\n");
    assert(header@ =~= pgm_header(image@.width, image@.height));
    let mut pgm: Vec<u8> = Vec::new();
    pgm.extend_from_slice(header.as_str().as_bytes());
    pgm.extend_from_slice(image.pixels.as_slice());
    assert(pgm@ =~= vstd::utf8::encode_utf8(pgm_header(image@.width, image@.height)) + image@.pixels);
    pgm
}

/// The characters of a word from position `current_index` on.
pub fn suffix_from(word: &str, current_index: usize) -> (suffix: String)
    ensures
        suffix@ == (if current_index <= word@.len() {
            word@.skip(current_index as int)
        } else {
            Seq::empty()
        }),
{
    let chars = text::chars_of(word);
    let mut suffix = String::new();
    let mut i: usize = current_index;
    assert(current_index <= word@.len() ==> word@.skip(current_index as int).take(0) =~= Seq::<char>::empty());
    while i < chars.len()
        invariant
            chars@ == word@,
            current_index <= i,
            i <= word@.len() || i == current_index,
            i <= word@.len() ==> suffix@ == word@.subrange(current_index as int, i as int),
            i > word@.len() ==> suffix@ == Seq::<char>::empty(),
        decreases chars.len() - i,
    {
        suffix.push(chars[i]);
        i = i + 1;
        assert(word@.subrange(current_index as int, i as int) =~= word@.subrange(current_index as int, i - 1).push(
            word@[i - 1],
        ));
    }
    proof {
        if current_index <= word@.len() {
            assert(word@.subrange(current_index as int, word@.len() as int) =~= word@.skip(current_index as int));
        }
    }
    suffix
}

/// A side scaled by the factor that brings it to `n` pixels is `n` pixels long.
proof fn lemma_fit_exact(n: nat, len: nat)
    requires
        0 < n <= 36,
        0 < len < 0x1_0000,
    ensures
        single::rounded(single::scaled(len, single::quotient(n, len))) == n,
{
    let one = 4503599627370496nat;
    let q = single::quotient(n, len);
    single::lemma_whole_exact(n);
    single::lemma_whole_exact(len);
    single::lemma_ratio_close(n * one, len);
    assert(n * (single::ONE as nat) == n * one);
    assert(q * len == len * q) by (nonlinear_arith);
    single::lemma_scaled_close(len, q);
    let v = single::scaled(len, q);
    assert(v <= n * 4503599627370496 + 1_000_000_000_000);
    assert(v + 1_000_000_000_000 >= n * 4503599627370496);
    assert(single::rounded(v) == (2 * v + 4503599627370496) / 9007199254740992nat);
}

/// The other side, scaled by the same factor, keeps its proportion to within half a pixel.
proof fn lemma_fit_other(n: nat, len: nat, other: nat)
    requires
        0 < n <= 36,
        0 < len < 0x1_0000,
        0 < other < 0x1_0000,
    ensures
        ({
            let r = single::rounded(single::scaled(other, single::quotient(n, len))) as int;
            &&& 2 * (r * len) <= 2 * (n * other) + len + 1
            &&& 2 * (r * len) + len + 1 >= 2 * (n * other)
        }),
{
    let one = 4503599627370496nat;
    let q = single::quotient(n, len);
    single::lemma_whole_exact(n);
    single::lemma_whole_exact(len);
    single::lemma_ratio_close(n * one, len);
    assert(n * (single::ONE as nat) == n * one);
    single::lemma_scaled_close(other, q);
    let v = single::scaled(other, q);
    let r = single::rounded(v);
    assert(r == (2 * v + 4503599627370496) / 9007199254740992nat);
    assert(r * 9007199254740992 <= 2 * v + 4503599627370496 < (r + 1) * 9007199254740992);
    let p = q * len;
    assert(p <= n * 4503599627370496 + 10_000_000_000 && p + 10_000_000_000 >= n * 4503599627370496);
    let vl = v * len;
    let e = other * p;
    let f = other * n;
    assert(0x100_0000 * vl <= 0x100_0001 * e && 0x100_0000 * vl >= 0xff_ffff * e) by (nonlinear_arith)
        requires
            0x100_0000 * v <= 0x100_0001 * (other * q),
            0x100_0000 * v >= 0xff_ffff * (other * q),
            vl == v * len,
            e == other * p,
            p == q * len,
    ;
    assert(e <= f * 4503599627370496 + 10_000_000_000 * other && e + 10_000_000_000 * other >= f * 4503599627370496)
        by (nonlinear_arith)
        requires
            p <= n * 4503599627370496 + 10_000_000_000,
            p + 10_000_000_000 >= n * 4503599627370496,
            e == other * p,
            f == other * n,
    ;
    assert(f <= 36 * 0x1_0000) by (nonlinear_arith)
        requires
            f == other * n,
            n <= 36,
            other < 0x1_0000,
    ;
    let rl = r * len;
    assert(rl * 9007199254740992 <= 2 * vl + 4503599627370496 * len && 2 * vl + 4503599627370496 * len < rl
        * 9007199254740992 + 9007199254740992 * len) by (nonlinear_arith)
        requires
            r * 9007199254740992 <= 2 * v + 4503599627370496,
            2 * v + 4503599627370496 < (r + 1) * 9007199254740992,
            vl == v * len,
            rl == r * len,
            len > 0,
    ;
    assert(n * other == f) by (nonlinear_arith)
        requires
            f == other * n,
    ;
}

/// The letter in a box is brought to the inner size of a template, 28 by 36: one of both sides is filled, and the other
/// keeps its proportion to within half a pixel, but is at least one.
proof fn lemma_fit(sw: nat, sh: nat)
    requires
        0 < sw < 0x1_0000,
        0 < sh < 0x1_0000,
    ensures
        ({
            let scale = fit_scale(sw, sh);
            let dw = fitted(sw, scale, 28);
            let dh = fitted(sh, scale, 36);
            &&& 1 <= dw <= 28
            &&& 1 <= dh <= 36
            &&& {
                ||| dw == 28 && (dh == 1 || 2 * (dh * sw) <= 56 * sh + sw + 1) && 2 * (dh * sw) + sw + 1 >= 56 * sh
                ||| dh == 36 && (dw == 1 || 2 * (dw * sh) <= 72 * sw + sh + 1) && 2 * (dw * sh) + sh + 1 >= 72 * sw
            }
        }),
{
    let a = single::quotient(28, sw);
    let b = single::quotient(36, sh);
    lemma_fit_exact(28, sw);
    lemma_fit_exact(36, sh);
    lemma_fit_other(28, sw, sh);
    lemma_fit_other(36, sh, sw);
    if b < a {
        single::lemma_scaled_order(sw, sw, b, a);
        vstd::arithmetic::div_mod::lemma_div_is_ordered(
            (2 * single::scaled(sw, b) + single::ONE) as int,
            (2 * single::scaled(sw, a) + single::ONE) as int,
            2 * single::ONE as int,
        );
        let r = single::rounded(single::scaled(sw, b)) as int;
        assert(r <= 28);
        if r < 1 {
            assert(r * sh == 0) by (nonlinear_arith)
                requires
                    r == 0,
            ;
            assert(1 * sh == sh);
        }
    } else {
        single::lemma_scaled_order(sh, sh, a, b);
        vstd::arithmetic::div_mod::lemma_div_is_ordered(
            (2 * single::scaled(sh, a) + single::ONE) as int,
            (2 * single::scaled(sh, b) + single::ONE) as int,
            2 * single::ONE as int,
        );
        let r = single::rounded(single::scaled(sh, a)) as int;
        assert(r <= 36);
        if r < 1 {
            assert(r * sw == 0) by (nonlinear_arith)
                requires
                    r == 0,
            ;
            assert(1 * sw == sw);
        }
    }
}

/// The bit in column `x` of row `y` of a template.
pub open spec fn bit_at(bits: Seq<u8>, x: int, y: int) -> u8 {
    bits[y * 32 + x]
}

/// The pixel in column `x` of row `y` of a box is darker than 128.
pub open spec fn dark_in(image: extract::ImageView, c: Component, x: int, y: int) -> bool {
    image.pixels[(c.y0 + y) * image.width + c.x0 + x] < 128
}

/// A template shows the letter of its box in the middle, scaled to 28 columns or 36 rows with its proportions kept, and
/// nothing around it. Each bit in there is that of the pixel at the same part of the way through the box, set
/// where it is darker than 128.
pub proof fn lemma_normalized(image: extract::ImageView, c: Component) -> (size: (int, int))
    requires
        c.x0 <= c.x1 < 0xffff,
        c.y0 <= c.y1 < 0xffff,
    ensures
        ({
            let sw = c.x1 - c.x0 + 1;
            let sh = c.y1 - c.y0 + 1;
            let (dw, dh) = size;
            let bits = normalized(image, c);
            &&& bits.len() == 1280
            &&& 1 <= dw <= 28
            &&& 1 <= dh <= 36
            &&& {
                ||| dw == 28 && (dh == 1 || 2 * (dh * sw) <= 56 * sh + sw + 1) && 2 * (dh * sw) + sw + 1 >= 56 * sh
                ||| dh == 36 && (dw == 1 || 2 * (dw * sh) <= 72 * sw + sh + 1) && 2 * (dw * sh) + sh + 1 >= 72 * sw
            }
            &&& forall|x: int, y: int|
                #![trigger bit_at(bits, x, y)]
                0 <= x < 32 && 0 <= y < 40 && !(0 <= x - (32 - dw) / 2 < dw && 0 <= y - (40 - dh) / 2 < dh) ==> bit_at(bits, x, y)
                    == 0
            &&& forall|x: int, y: int, sx: int, sy: int|
                #![trigger bit_at(bits, x, y), dark_in(image, c, sx, sy)]
                0 <= x - (32 - dw) / 2 < dw && 0 <= y - (40 - dh) / 2 < dh && sx * dw <= (x - (32 - dw) / 2) * sw < (sx + 1) * dw
                    && sy * dh <= (y - (40 - dh) / 2) * sh < (sy + 1) * dh ==> bit_at(bits, x, y) == (
                if dark_in(image, c, sx, sy) {
                    1u8
                } else {
                    0u8
                })
        }),
{
    let sw = c.spec_width();
    let sh = c.spec_height();
    let scale = fit_scale(sw as nat, sh as nat);
    let dw = fitted(sw as nat, scale, 28);
    let dh = fitted(sh as nat, scale, 36);
    lemma_fit(sw as nat, sh as nat);
    let bits = normalized(image, c);
    assert forall|x: int, y: int|
        #![trigger bit_at(bits, x, y)]
        0 <= x < 32 && 0 <= y < 40 && !(0 <= x - (32 - dw) / 2 < dw && 0 <= y - (40 - dh) / 2 < dh) implies bit_at(bits, x, y)
        == 0 by {
        assert((y * 32 + x) % 32 == x && (y * 32 + x) / 32 == y);
    }
    assert forall|x: int, y: int, sx: int, sy: int|
        #![trigger bit_at(bits, x, y), dark_in(image, c, sx, sy)]
        0 <= x - (32 - dw) / 2 < dw && 0 <= y - (40 - dh) / 2 < dh && sx * dw <= (x - (32 - dw) / 2) * sw < (sx + 1) * dw && sy
            * dh <= (y - (40 - dh) / 2) * sh < (sy + 1) * dh implies bit_at(bits, x, y) == (if dark_in(image, c, sx, sy) {
        1u8
    } else {
        0u8
    }) by {
        assert((y * 32 + x) % 32 == x && (y * 32 + x) / 32 == y);
        let dx = x - (32 - dw) / 2;
        let dy = y - (40 - dh) / 2;
        lemma_part(dx * sw, dw, sx);
        lemma_part(dy * sh, dh, sy);
    }
    (dw, dh)
}

proof fn lemma_part(n: int, d: int, q: int)
    requires
        0 < d,
        q * d <= n < (q + 1) * d,
    ensures
        n / d == q,
{
    assert((q + 1) * d == q * d + d) by (nonlinear_arith);
    assert(q * d == d * q) by (nonlinear_arith);
    vstd::arithmetic::div_mod::lemma_fundamental_div_mod_converse(n, d, q, n - q * d);
}

/// A letter has one template wherever it stands: boxes of the same size that show the same give the same bits.
pub proof fn lemma_normalized_moved(image: extract::ImageView, c: Component, other: extract::ImageView, d: Component)
    requires
        c.x0 <= c.x1,
        c.y0 <= c.y1,
        d.x1 - d.x0 == c.x1 - c.x0,
        d.y1 - d.y0 == c.y1 - c.y0,
        forall|x: int, y: int|
            0 <= x <= c.x1 - c.x0 && 0 <= y <= c.y1 - c.y0 ==> #[trigger] dark_in(image, c, x, y) == dark_in(other, d, x, y),
    ensures
        normalized(image, c) == normalized(other, d),
{
    let sw = c.spec_width();
    let sh = c.spec_height();
    let scale = fit_scale(sw as nat, sh as nat);
    let dw = fitted(sw as nat, scale, 28);
    let dh = fitted(sh as nat, scale, 36);
    assert forall|i: int| 0 <= i < 1280 implies normalized_at(image, c, i) == normalized_at(other, d, i) by {
        let dx = i % 32 - (32 - dw) / 2;
        let dy = i / 32 - (40 - dh) / 2;
        if 0 <= dx < dw && 0 <= dy < dh {
            lemma_sample(dx, sw, dw);
            lemma_sample(dy, sh, dh);
            let x = (dx * sw) / dw;
            let y = (dy * sh) / dh;
            assert(dark_in(image, c, x, y) == dark_in(other, d, x, y));
        }
    }
    assert(normalized(image, c) =~= normalized(other, d));
}

/// `tallest` is what its name says.
pub proof fn lemma_tallest(s: Seq<Component>)
    requires
        forall|i: int| 0 <= i < s.len() ==> (#[trigger] s[i]).y0 <= s[i].y1,
    ensures
        forall|i: int| 0 <= i < s.len() ==> (#[trigger] s[i]).y1 - s[i].y0 + 1 <= tallest(s),
        s.len() > 0 ==> exists|i: int| 0 <= i < s.len() && (#[trigger] s[i]).y1 - s[i].y0 + 1 == tallest(s),
        s.len() == 0 ==> tallest(s) == 0,
    decreases s.len(),
{
    if s.len() > 0 {
        let t = s.drop_last();
        assert forall|i: int| 0 <= i < t.len() implies (#[trigger] t[i]).y0 <= t[i].y1 by {
            assert(t[i] == s[i]);
        }
        lemma_tallest(t);
        assert forall|i: int| 0 <= i < s.len() implies (#[trigger] s[i]).y1 - s[i].y0 + 1 <= tallest(s) by {
            if i < t.len() {
                assert(t[i] == s[i]);
            }
        }
        if s.last().spec_height() > tallest(t) {
            assert(s[s.len() - 1] == s.last());
        } else {
            if t.len() == 0 {
                assert(s[s.len() - 1].y0 <= s[s.len() - 1].y1);
            }
            let i = choose|i: int| 0 <= i < t.len() && (#[trigger] t[i]).y1 - t[i].y0 + 1 == tallest(t);
            assert(s[i] == t[i]);
        }
    }
}

/// A region of dark pixels, darker than 128, that is large enough for a letter: at least twelve pixels, eight rows and
/// two columns.
pub open spec fn letter_like(image: extract::ImageView, c: Component) -> bool {
    let dark = Seq::new(
        image.pixels.len(),
        |i: int|
            if image.pixels[i] < 128 {
                1u8
            } else {
                0u8
            },
    );
    &&& blobs::component_list(dark, image.width, 1).contains(c)
    &&& c.area >= 12
    &&& c.y1 - c.y0 >= 7
    &&& c.x1 - c.x0 >= 1
}

/// The letters of a picture are exactly the regions large enough for one that are at least 65 % as high as every other
/// such region, from left to right.
pub proof fn lemma_letter_boxes(image: extract::ImageView)
    ensures
        ({
            let boxes = letter_boxes(image);
            &&& forall|c: Component|
                boxes.contains(c) <==> letter_like(image, c) && forall|d: Component| #[trigger]
                    letter_like(image, d) ==> 100 * (c.y1 - c.y0 + 1) >= 65 * (d.y1 - d.y0 + 1)
            &&& forall|i: int, j: int| 0 <= i < j < boxes.len() ==> (#[trigger] boxes[i]).x0 <= (#[trigger] boxes[j]).x0
        }),
{
    let mask = ink_mask(image.pixels);
    let dark = Seq::new(
        image.pixels.len(),
        |i: int|
            if image.pixels[i] < 128 {
                1u8
            } else {
                0u8
            },
    );
    assert(mask =~= dark);
    let all = blobs::component_list(mask, image.width, 12);
    let g = blobs::Grid { mask, width: image.width, diagonal: true };
    let sized_by = |c: Component| glyph_sized(c);
    let sized = all.filter(sized_by);
    let top = tallest(sized);
    let tall = |c: Component| c.spec_height() * 100 >= top * 65;
    let key = |c: Component| c.x0 as int;
    let kept = sized.filter(tall);
    let boxes = letter_boxes(image);
    order::lemma_sorted_by(kept, key);
    assert forall|c: Component| sized.contains(c) <==> #[trigger] letter_like(image, c) by {
        order::lemma_filter_member(all, sized_by, c);
        order::lemma_filter_member(g.outline_list(), |c: Component| c.area >= 12, c);
        order::lemma_filter_member(g.outline_list(), |c: Component| c.area >= 1, c);
    }
    assert forall|i: int| 0 <= i < sized.len() implies (#[trigger] sized[i]).y0 <= sized[i].y1 by {
        assert(sized.contains(sized[i]));
        assert(letter_like(image, sized[i]));
    }
    lemma_tallest(sized);
    assert forall|c: Component|
        boxes.contains(c) <==> letter_like(image, c) && forall|d: Component| #[trigger]
            letter_like(image, d) ==> 100 * (c.y1 - c.y0 + 1) >= 65 * (d.y1 - d.y0 + 1) by {
        order::lemma_filter_member(sized, tall, c);
        assert(letter_like(image, c) == sized.contains(c));
        if boxes.contains(c) {
            assert forall|d: Component| #[trigger] letter_like(image, d) implies 100 * (c.y1 - c.y0 + 1) >= 65 * (d.y1 - d.y0
                + 1) by {
                assert(sized.contains(d));
                let i = choose|i: int| 0 <= i < sized.len() && sized[i] == d;
                assert(sized[i].y1 - sized[i].y0 + 1 <= top);
            }
        }
        if letter_like(image, c) && forall|d: Component| #[trigger]
            letter_like(image, d) ==> 100 * (c.y1 - c.y0 + 1) >= 65 * (d.y1 - d.y0 + 1) {
            assert(sized.contains(c));
            let i = choose|i: int| 0 <= i < sized.len() && (#[trigger] sized[i]).y1 - sized[i].y0 + 1 == top;
            assert(sized.contains(sized[i]));
            assert(letter_like(image, sized[i]));
        }
    }
    assert forall|i: int, j: int| 0 <= i < j < boxes.len() implies (#[trigger] boxes[i]).x0 <= (#[trigger] boxes[j]).x0 by {
        assert(key(boxes[i]) <= key(boxes[j]));
    }
}

/// Each letter of a picture keeps the columns of its box and has the template of it.
pub proof fn lemma_glyphs(image: extract::ImageView, i: int)
    requires
        0 <= i < letter_boxes(image).len(),
    ensures
        glyphs_of(image).len() == letter_boxes(image).len(),
        glyphs_of(image)[i].x0 == letter_boxes(image)[i].x0,
        glyphs_of(image)[i].x1 == letter_boxes(image)[i].x1,
        glyphs_of(image)[i].bits == normalized(image, letter_boxes(image)[i]),
{
}

/// The letter to type next is the first of those whose columns are nearest to the given one: a letter that has the
/// column among its own is taken before all others, and otherwise none is nearer on either side.
pub proof fn lemma_nearest_glyph_columns(x: int, glyphs: Seq<GlyphView>, m: int)
    requires
        nearest_glyph(x, glyphs) == Some(m),
        -0x40_0000 <= x <= 0x40_0000,
        forall|i: int|
            0 <= i < glyphs.len() ==> 0 <= (#[trigger] glyphs[i]).x0 <= glyphs[i].x1 < 0x40_0000,
    ensures
        0 <= m < glyphs.len(),
        forall|i: int|
            0 <= i < glyphs.len() && (#[trigger] glyphs[i]).x0 <= x <= glyphs[i].x1 ==> m <= i && glyphs[m].x0 <= x
                <= glyphs[m].x1,
        forall|i: int|
            #![trigger glyphs[i]]
            0 <= i < glyphs.len() ==> {
                ||| glyphs[m].x0 <= x <= glyphs[m].x1
                ||| x < glyphs[m].x0 && (x < glyphs[i].x0 ==> glyphs[m].x0 <= glyphs[i].x0) && (x > glyphs[i].x1 ==> glyphs[m].x0
                    - x <= x - glyphs[i].x1)
                ||| x > glyphs[m].x1 && (x > glyphs[i].x1 ==> glyphs[m].x1 >= glyphs[i].x1) && (x < glyphs[i].x0 ==> x
                    - glyphs[m].x1 <= glyphs[i].x0 - x)
            },
        forall|i: int|
            0 <= i < m ==> off_glyph(x, glyphs[m]) < off_glyph(x, #[trigger] glyphs[i]),
{
    let offs = glyphs.map_values(|g: GlyphView| off_glyph(x, g));
    extract::lemma_first_least(offs);
    assert forall|i: int| 0 <= i < glyphs.len() implies #[trigger] off_glyph(x, glyphs[i]) == offs[i] && offs[i] == (
    if x < glyphs[i].x0 {
        glyphs[i].x0 - x
    } else if x > glyphs[i].x1 {
        x - glyphs[i].x1
    } else {
        0
    }) by {
        let g = glyphs[i];
        single::lemma_whole_exact(g.x0 as nat);
        single::lemma_whole_exact(g.x1 as nat);
        if x < g.x0 {
            single::lemma_nearest_size((g.x0 - x) as nat);
        } else if x > g.x1 {
            single::lemma_nearest_size((x - g.x1) as nat);
        }
    }
    assert(off_glyph(x, glyphs[m]) == offs[m]);
    assert forall|i: int| 0 <= i < glyphs.len() implies offs[m] <= offs[i] && off_glyph(x, #[trigger] glyphs[i]) == offs[i] by {}
}

/// A prompt has from 16 to 100 rows, and at least three columns for two rows.
pub proof fn lemma_prompt_shaped(image: extract::ImageView)
    ensures
        ({
            let cols = image.bounds.2 - image.bounds.0 + 1;
            let rows = image.bounds.3 - image.bounds.1 + 1;
            prompt_shaped(image) <==> 15 < rows < 101 && 2 * cols + 1 >= 3 * rows
        }),
{
}

/// A picture that shows more of the frame in both directions never scores less.
pub proof fn lemma_shown_area(a: extract::ImageView, b: extract::ImageView)
    requires
        bounds_ok(a),
        bounds_ok(b),
        a.bounds.2 - a.bounds.0 <= b.bounds.2 - b.bounds.0,
        a.bounds.3 - a.bounds.1 <= b.bounds.3 - b.bounds.1,
    ensures
        shown_area(a) <= shown_area(b),
        a.bounds.2 == a.bounds.0 && a.bounds.3 - a.bounds.1 < usize::MAX ==> shown_area(a) == a.bounds.3 - a.bounds.1 + 1,
        a.bounds.3 == a.bounds.1 && a.bounds.2 - a.bounds.0 < usize::MAX ==> shown_area(a) == a.bounds.2 - a.bounds.0 + 1,
{
    let (aw, ah) = source_size(a);
    let (bw, bh) = source_size(b);
    assert(aw * ah <= bw * bh) by (nonlinear_arith)
        requires
            1 <= aw <= bw,
            1 <= ah <= bh,
    ;
    assert(1 * ah == ah && aw * 1 == aw);
}

} // verus!
