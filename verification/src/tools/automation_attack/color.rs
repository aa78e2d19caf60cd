//! Sorting the pixels of a captured frame into prompt colours.

use vstd::prelude::*;

verus! {

/// The colour of the letter that is to be typed next.
pub open spec fn orange(r: int, g: int, b: int) -> bool {
    &&& r >= 145 && g >= 105 && b <= 145
    &&& r - b >= 45 && g - b >= 35
    &&& -70 <= r - g <= 70
    &&& r + 25 >= g
}

/// The colour of the other letters: bright, with channels close together.
pub open spec fn white(r: int, g: int, b: int) -> bool {
    &&& r >= 140 && g >= 140 && b >= 140
    &&& -32 <= r - g <= 32 && -32 <= r - b <= 32 && -32 <= g - b <= 32
}

pub fn is_orange(r: u8, g: u8, b: u8) -> (hit: bool)
    ensures
        hit == orange(r as int, g as int, b as int),
{
    let r: i16 = r as i16;
    let g: i16 = g as i16;
    let b: i16 = b as i16;
    let diff: i16 = if r >= g {
        r - g
    } else {
        g - r
    };
    r >= 145 && g >= 105 && b <= 145 && r - b >= 45 && g - b >= 35 && diff <= 70 && r + 25 >= g
}

pub fn is_white(r: u8, g: u8, b: u8) -> (hit: bool)
    ensures
        hit == white(r as int, g as int, b as int),
{
    let max: u8 = r.max(g).max(b);
    let min: u8 = r.min(g).min(b);
    min >= 140 && max - min <= 32
}

/// Pixel `i` of a frame of four bytes per pixel, blue first, has the colour of the next letter.
pub open spec fn orange_at(bgra: Seq<u8>, i: int) -> bool {
    orange(bgra[4 * i + 2] as int, bgra[4 * i + 1] as int, bgra[4 * i] as int)
}

/// Pixel `i` has the colour of the other letters and not that of the next one.
pub open spec fn white_at(bgra: Seq<u8>, i: int) -> bool {
    !orange_at(bgra, i) && white(bgra[4 * i + 2] as int, bgra[4 * i + 1] as int, bgra[4 * i] as int)
}

/// How many of the first `n` pixels have the colour of the next letter.
pub open spec fn orange_among(bgra: Seq<u8>, n: int) -> nat
    decreases n,
{
    if n <= 0 {
        0
    } else {
        orange_among(bgra, n - 1) + if orange_at(bgra, n - 1) {
            1nat
        } else {
            0nat
        }
    }
}

/// How many of the first `n` pixels have the colour of the other letters.
pub open spec fn white_among(bgra: Seq<u8>, n: int) -> nat
    decreases n,
{
    if n <= 0 {
        0
    } else {
        white_among(bgra, n - 1) + if white_at(bgra, n - 1) {
            1nat
        } else {
            0nat
        }
    }
}

/// The 64-bit FNV-1a hash of a byte sequence.
pub open spec fn fnv(bytes: Seq<u8>) -> u64
    decreases bytes.len(),
{
    if bytes.len() == 0 {
        0xcbf29ce484222325
    } else {
        (fnv(bytes.drop_last()) ^ (bytes.last() as u64)).wrapping_mul(0x100000001b3)
    }
}

/// Appends one byte to a running FNV-1a hash.
pub(crate) fn fnv_step(hash: u64, byte: u8, Ghost(before): Ghost<Seq<u8>>) -> (next: u64)
    requires
        hash == fnv(before),
    ensures
        next == fnv(before.push(byte)),
{
    proof {
        assert(before.push(byte).drop_last() =~= before);
    }
    (hash ^ (byte as u64)).wrapping_mul(0x100000001b3)
}

/// The prompt-coloured pixels of the last frame.
pub struct ColorAnalyzer {
    pub width: usize,
    pub height: usize,
    /// One where a pixel has either prompt colour.
    pub combined: Vec<u8>,
    /// One where a pixel has the colour of the next letter.
    pub orange: Vec<u8>,
    pub white_count: usize,
    pub orange_count: usize,
}

impl ColorAnalyzer {
    pub open spec fn wf(self) -> bool {
        &&& self.width <= i32::MAX
        &&& self.height <= i32::MAX
        &&& self.combined@.len() == self.width * self.height
        &&& self.orange@.len() == self.width * self.height
    }

    /// An analyzer for frames of `width` by `height` pixels, with no pixel marked.
    pub fn new(width: usize, height: usize) -> (a: Self)
        requires
            width <= i32::MAX,
            height <= i32::MAX,
            width * height <= usize::MAX,
        ensures
            a.wf(),
            a.width == width,
            a.height == height,
            a.white_count == 0,
            a.orange_count == 0,
            a.combined@ == Seq::new((width * height) as nat, |i: int| 0u8),
            a.orange@ == Seq::new((width * height) as nat, |i: int| 0u8),
    {
        let len: usize = width * height;
        let a = ColorAnalyzer {
            width,
            height,
            combined: vec![0; len],
            orange: vec![0; len],
            white_count: 0,
            orange_count: 0,
        };
        proof {
            assert(a.combined@ =~= Seq::new((width * height) as nat, |i: int| 0u8));
            assert(a.orange@ =~= Seq::new((width * height) as nat, |i: int| 0u8));
        }
        a
    }

    /// Marks and counts the prompt-coloured pixels of a frame, and returns the hash of the marks.
    /// Pixels that the frame does not reach keep their marks.
    pub fn analyze(&mut self, bgra: &[u8]) -> (hash: u64)
        requires
            old(self).wf(),
            bgra@.len() / 4 <= old(self).width * old(self).height,
        ensures
            final(self).wf(),
            final(self).width == old(self).width,
            final(self).height == old(self).height,
            ({
                let n = (bgra@.len() / 4) as int;
                &&& forall|i: int|
                    0 <= i < n ==> #[trigger] final(self).orange@[i] == (if orange_at(bgra@, i) {
                        1u8
                    } else {
                        0u8
                    })
                &&& forall|i: int|
                    0 <= i < n ==> #[trigger] final(self).combined@[i] == (if orange_at(bgra@, i) || white_at(bgra@, i) {
                        1u8
                    } else {
                        0u8
                    })
                &&& forall|i: int|
                    n <= i < old(self).orange@.len() ==> #[trigger] final(self).orange@[i] == old(self).orange@[i]
                &&& forall|i: int|
                    n <= i < old(self).combined@.len() ==> #[trigger] final(self).combined@[i] == old(
                        self,
                    ).combined@[i]
                &&& final(self).orange_count == orange_among(bgra@, n)
                &&& final(self).white_count == white_among(bgra@, n)
                &&& hash == fnv(final(self).combined@.take(n))
            }),
    {
        self.white_count = 0;
        self.orange_count = 0;
        let mut hash: u64 = 0xcbf29ce484222325;
        let len: usize = bgra.len();
        let n: usize = len / 4;
        let mut i: usize = 0;
        let ghost start = *self;
        proof {
            assert(self.combined@.take(0) =~= Seq::<u8>::empty());
        }
        while i < n
            invariant
                i <= n,
                len == bgra@.len(),
                n == len / 4,
                start.wf(),
                n <= start.width * start.height,
                self.wf(),
                self.width == start.width,
                self.height == start.height,
                self.orange_count <= i,
                self.white_count <= i,
                self.orange_count == orange_among(bgra@, i as int),
                self.white_count == white_among(bgra@, i as int),
                forall|k: int|
                    0 <= k < i ==> #[trigger] self.orange@[k] == (if orange_at(bgra@, k) {
                        1u8
                    } else {
                        0u8
                    }),
                forall|k: int|
                    0 <= k < i ==> #[trigger] self.combined@[k] == (if orange_at(bgra@, k) || white_at(bgra@, k) {
                        1u8
                    } else {
                        0u8
                    }),
                forall|k: int| i <= k < start.orange@.len() ==> #[trigger] self.orange@[k] == start.orange@[k],
                forall|k: int| i <= k < start.combined@.len() ==> #[trigger] self.combined@[k] == start.combined@[k],
                hash == fnv(self.combined@.take(i as int)),
            decreases n - i,
        {
            let b: u8 = bgra[4 * i];
            let g: u8 = bgra[4 * i + 1];
            let r: u8 = bgra[4 * i + 2];
            let orange: bool = is_orange(r, g, b);
            let white: bool = !orange && is_white(r, g, b);
            let mark: u8 = if orange || white {
                1
            } else {
                0
            };
            let ghost marks = self.combined@;
            self.orange.set(i, if orange {
                1
            } else {
                0
            });
            self.combined.set(i, mark);
            if orange {
                self.orange_count = self.orange_count + 1;
            }
            if white {
                self.white_count = self.white_count + 1;
            }
            hash = fnv_step(hash, mark, Ghost(marks.take(i as int)));
            proof {
                assert(self.combined@.take(i + 1) =~= marks.take(i as int).push(mark));
            }
            i = i + 1;
        }
        hash
    }
}

/// The colour of the next letter: blue is darkest, at most 145 and well below the others, and red is from 25 below green
/// to 70 above it.
pub proof fn lemma_orange(r: u8, g: u8, b: u8)
    ensures
        orange(r as int, g as int, b as int) <==> {
            &&& r > 144 && g > 104 && b < 146
            &&& b + 44 < r && b + 34 < g
            &&& g - 26 < r < g + 71
        },
        orange(r as int, g as int, b as int) ==> b < r && b < g,
{
}

/// The colour of the other letters: no channel below 140 and no two more than 32 apart, in whatever order. A grey is
/// one from 140 on, and a colour of that kind stays one when all channels rise alike.
pub proof fn lemma_white(r: int, g: int, b: int, by: int)
    requires
        0 <= by,
    ensures
        white(r, r, r) <==> r > 139,
        white(r, g, b) == white(g, r, b),
        white(r, g, b) == white(r, b, g),
        white(r, g, b) ==> white(r + by, g + by, b + by),
        white(r, r, r + by) <==> r > 139 && by < 33,
        white(r, r + by, r + by) <==> r > 139 && by < 33,
{
}

/// No colour is both that of the next letter and that of the others.
pub proof fn lemma_colors_apart(bgra: Seq<u8>, i: int)
    ensures
        !(orange_at(bgra, i) && white_at(bgra, i)),
        white_at(bgra, i) <==> white(bgra[4 * i + 2] as int, bgra[4 * i + 1] as int, bgra[4 * i] as int),
{
}

/// The pixels of each colour are counted one by one, and none is counted for both.
pub proof fn lemma_colors_counted(bgra: Seq<u8>, n: int)
    requires
        0 <= n,
    ensures
        Set::new(|i: int| 0 <= i < n && orange_at(bgra, i)).finite(),
        Set::new(|i: int| 0 <= i < n && orange_at(bgra, i)).len() == orange_among(bgra, n),
        Set::new(|i: int| 0 <= i < n && white_at(bgra, i)).finite(),
        Set::new(|i: int| 0 <= i < n && white_at(bgra, i)).len() == white_among(bgra, n),
        orange_among(bgra, n) + white_among(bgra, n) <= n,
    decreases n,
{
    let o = Set::new(|i: int| 0 <= i < n && orange_at(bgra, i));
    let w = Set::new(|i: int| 0 <= i < n && white_at(bgra, i));
    if n == 0 {
        assert(o =~= Set::empty());
        assert(w =~= Set::empty());
    } else {
        let k = n - 1;
        let ob = Set::new(|i: int| 0 <= i < k && orange_at(bgra, i));
        let wb = Set::new(|i: int| 0 <= i < k && white_at(bgra, i));
        lemma_colors_counted(bgra, k);
        if orange_at(bgra, k) {
            assert(o =~= ob.insert(k));
        } else {
            assert(o =~= ob);
        }
        if white_at(bgra, k) {
            assert(w =~= wb.insert(k));
        } else {
            assert(w =~= wb);
        }
    }
}

/// One step of the hash loses nothing: from the byte and the result the hash before can be told, and from the hash
/// before the byte.
proof fn lemma_fnv_step(a: u64, b: u64)
    requires
        a != b,
    ensures
        a.wrapping_mul(0x100000001b3) != b.wrapping_mul(0x100000001b3),
{
    let m = 0x1_0000_0000_0000_0000int;
    let p = 0x100000001b3int;
    let inv = 0xce965057aff6957bint;
    let x = a as int;
    let y = b as int;
    assert(p * inv == 1 + 887285111055 * m);
    if (x * p) % m == (y * p) % m {
        let d = x - y;
        let qx = (x * p) / m;
        let qy = (y * p) / m;
        vstd::arithmetic::div_mod::lemma_fundamental_div_mod(x * p, m);
        vstd::arithmetic::div_mod::lemma_fundamental_div_mod(y * p, m);
        let k = qx - qy;
        assert(d * p == m * k) by (nonlinear_arith)
            requires
                x * p == m * qx + (x * p) % m,
                y * p == m * qy + (x * p) % m,
                d == x - y,
                k == qx - qy,
        ;
        assert(d * (p * inv) == m * (k * inv)) by (nonlinear_arith)
            requires
                d * p == m * k,
        ;
        let j = k * inv - 887285111055 * d;
        assert(d == m * j) by (nonlinear_arith)
            requires
                d * (p * inv) == m * (k * inv),
                p * inv == 1 + 887285111055 * m,
                j == k * inv - 887285111055 * d,
        ;
        assert(j == 0) by (nonlinear_arith)
            requires
                d == m * j,
                -m < d < m,
                m > 0,
        ;
        assert(d == 0);
    }
}

/// Two sequences of the same length that differ in a single byte never have the same hash.
pub proof fn lemma_hash_tells_apart(a: Seq<u8>, b: Seq<u8>, at: int)
    requires
        a.len() == b.len(),
        0 <= at < a.len(),
        a[at] != b[at],
        forall|i: int| 0 <= i < a.len() && i != at ==> a[i] == b[i],
    ensures
        fnv(a) != fnv(b),
    decreases a.len(),
{
    let x = fnv(a.drop_last());
    let y = fnv(b.drop_last());
    let c = a.last() as u64;
    let d = b.last() as u64;
    if at == a.len() - 1 {
        assert(a.drop_last() =~= b.drop_last());
        assert(x ^ c != x ^ d) by (bit_vector)
            requires
                c != d,
        ;
        lemma_fnv_step(x ^ c, x ^ d);
    } else {
        lemma_hash_tells_apart(a.drop_last(), b.drop_last(), at);
        assert(x ^ c != y ^ c) by (bit_vector)
            requires
                x != y,
        ;
        lemma_fnv_step(x ^ c, y ^ c);
    }
}

} // verus!
