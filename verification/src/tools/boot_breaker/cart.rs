//! Finding the cart: runs of reddish columns in a band of the screen.

use crate::pixels;
use crate::single;
use crate::tools::boot_breaker::color;
use vstd::prelude::*;

verus! {

/// 0.06 in single precision, in units of 2^-52: half of the band, as a share of the height.
pub const HALF_BAND: u128 = 270215971602432;

/// 0.08 in single precision, in units of 2^-52: the margin and the least width of a cart, as a share
/// of the width.
pub const NARROWEST: u128 = 360287962136576;

/// 0.34 in single precision, in units of 2^-52: the greatest width of a cart, as a share of the width.
pub const WIDEST: u128 = 1531223889412096;

/// 0.003 in single precision, in units of 2^-52: what a red pixel is worth against a pixel of distance.
pub const PIXEL_WORTH: u128 = 13510798999552;

/// Lengths below this number of pixels are single-precision values as they stand.
pub const EXACT: i32 = 0x100_0000;

/// A run of reddish columns that may be the cart: its middle, the row it is looked for in, and how
/// many red pixels it has.
#[derive(Clone, Copy, Debug, PartialEq, Eq, Structural)]
pub struct CartCandidate {
    pub x: i32,
    pub y: i32,
    pub score: i32,
}

/// A share of a length, without its fraction and as far as 32-bit numbers go.
pub open spec fn share(len: int, ratio: int) -> int {
    let v = single::floor(single::scaled(len as nat, ratio as nat)) as int;
    if v > i32::MAX {
        i32::MAX as int
    } else {
        v
    }
}

/// 1023 / 1024 in units of 2^-52.
pub const NEARLY_ALL: u128 = 4499201580859392;

/// A share that leaves something of a length is at most the length, also where the length is rounded.
pub proof fn lemma_share_inside(len: int, ratio: int)
    requires
        0 <= len <= i32::MAX,
        0 <= ratio <= NEARLY_ALL || (len < EXACT && 0 <= ratio <= single::ONE),
    ensures
        0 <= share(len, ratio) <= len,
{
    if len < EXACT {
        single::lemma_scaled_at_most(len as nat, ratio as nat);
    } else {
        let w = single::whole(len as nat);
        single::lemma_nearest_size(len as nat);
        let n = w * (ratio as nat);
        assert(n <= w * 4499201580859392) by (nonlinear_arith)
            requires
                n == w * (ratio as nat),
                0 <= ratio <= 4499201580859392,
        ;
        single::lemma_nearest_size(n);
    }
}

/// A share of a length, without its fraction.
pub fn share_of(len: i32, ratio: u128) -> (v: i32)
    requires
        0 <= len,
        ratio <= single::ONE,
    ensures
        v == share(len as int, ratio as int),
        0 <= v,
{
    let v: u128 = single::scale(len as u64, ratio) / single::ONE;
    if v > 0x7fff_ffff {
        i32::MAX
    } else {
        v as i32
    }
}

/// The band around the height `at` that is searched, as shares of the height.
pub open spec fn band(at: u128) -> (int, int) {
    let high = single::sum(at as nat, HALF_BAND as nat) as int;
    (
        if at > HALF_BAND {
            single::distance(at as nat, HALF_BAND as nat) as int
        } else {
            0
        },
        if high < single::ONE {
            high
        } else {
            single::ONE as int
        },
    )
}

/// The number of red pixels of column `x` from row `y0` to before row `y`.
pub open spec fn reds(frame: Seq<u8>, width: int, x: int, y0: int, y: int) -> nat
    decreases y - y0,
{
    if y <= y0 {
        0
    } else {
        reds(frame, width, x, y0, y - 1) + if color::red_like(pixels::pixel(frame, width, x, y - 1)) {
            1nat
        } else {
            0nat
        }
    }
}

/// The number of red pixels of every column within the band; none in the margins.
pub open spec fn column_reds(frame: Seq<u8>, width: int, height: int, at: u128) -> Seq<int> {
    let margin = share(width, NARROWEST as int);
    let y0 = share(height, band(at).0);
    let y1 = share(height, band(at).1);
    Seq::new(
        width as nat,
        |x: int|
            if margin <= x < width - margin {
                reds(frame, width, x, y0, y1) as int
            } else {
                0
            },
    )
}

/// Column `x` is reddish: it has at least three red pixels.
pub open spec fn reddish(counts: Seq<int>, x: int) -> bool {
    0 <= x < counts.len() && counts[x] >= 3
}

/// The start of the run of reddish columns that ends just before column `x`.
pub open spec fn run_start(counts: Seq<int>, x: int) -> int
    decreases x,
{
    if x > 0 && reddish(counts, x - 1) {
        run_start(counts, x - 1)
    } else {
        x
    }
}

/// A run starts where its columns do: all of them are reddish, and the one before is not.
pub proof fn lemma_run_start(counts: Seq<int>, x: int)
    requires
        0 <= x,
    ensures
        0 <= run_start(counts, x) <= x,
        forall|i: int| run_start(counts, x) <= i < x ==> reddish(counts, i),
        !reddish(counts, run_start(counts, x) - 1),
    decreases x,
{
    if x > 0 && reddish(counts, x - 1) {
        lemma_run_start(counts, x - 1);
    }
}

/// The sum of some numbers.
pub open spec fn total(s: Seq<int>) -> int
    decreases s.len(),
{
    if s.len() == 0 {
        0
    } else {
        total(s.drop_last()) + s.last()
    }
}

/// A run of this many columns can be the cart.
pub open spec fn cart_wide(len: int, width: int) -> bool {
    share(width, NARROWEST as int) <= len <= share(width, WIDEST as int)
}

/// The candidate for the columns from `s` to before `e`.
pub open spec fn candidate(counts: Seq<int>, s: int, e: int, y: int) -> CartCandidate {
    CartCandidate { x: ((s + e) / 2) as i32, y: y as i32, score: total(counts.subrange(s, e)) as i32 }
}

/// The candidates of the runs that end before column `n`, from left to right.
pub open spec fn candidates_before(counts: Seq<int>, n: int, y: int) -> Seq<CartCandidate>
    decreases n,
{
    if n <= 0 {
        Seq::empty()
    } else {
        let e = n - 1;
        let s = run_start(counts, e);
        let before = candidates_before(counts, e, y);
        if !reddish(counts, e) && s < e && cart_wide(e - s, counts.len() as int) {
            before.push(candidate(counts, s, e, y))
        } else {
            before
        }
    }
}

/// All candidates of a frame, from left to right.
pub open spec fn cart_candidates(frame: Seq<u8>, width: int, height: int, at: u128) -> Seq<CartCandidate> {
    candidates_before(column_reds(frame, width, height, at), width + 1, share(height, at as int))
}

fn count_reds(frame: &[u8], width: i32, height: i32, x: i32, y0: i32, y1: i32) -> (n: i32)
    requires
        0 <= x < width,
        0 <= y0,
        y1 <= height,
        pixels::frame_fits(frame@.len() as int, width as int, height as int),
    ensures
        n == reds(frame@, width as int, x as int, y0 as int, y1 as int),
        0 <= n,
        n <= height || n == 0,
{
    let mut n: i32 = 0;
    let mut y: i32 = y0;
    while y < y1
        invariant
            0 <= x < width,
            0 <= y0 <= y,
            y <= y1 || y == y0,
            y1 <= height,
            pixels::frame_fits(frame@.len() as int, width as int, height as int),
            n == reds(frame@, width as int, x as int, y0 as int, y as int),
            0 <= n <= y - y0,
        decreases y1 - y,
    {
        proof {
            pixels::lemma_row_fits(frame@.len() as int, width as int, height as int, y as int);
        }
        if color::red_color(frame, width, x, y) {
            n = n + 1;
        }
        y = y + 1;
    }
    n
}

/// The number of red pixels of every column within the band around the height `at`.
fn count_columns(frame: &[u8], width: i32, height: i32, at: u128) -> (counts: Vec<i32>)
    requires
        0 <= width,
        0 <= height,
        at <= single::ONE,
        pixels::frame_fits(frame@.len() as int, width as int, height as int),
        0 < width ==> share(height as int, band(at).1) <= height,
    ensures
        counts@.map_values(|c: i32| c as int) == column_reds(frame@, width as int, height as int, at),
        counts.len() == width,
        forall|x: int| 0 <= x < width ==> 0 <= #[trigger] counts@[x] <= height,
{
    let low: u128 = if at > HALF_BAND {
        single::gap(at, HALF_BAND)
    } else {
        0
    };
    proof {
        single::lemma_nearest_size((at - HALF_BAND) as nat);
        if at > HALF_BAND {
            lemma_low(at);
        }
    }
    let high: u128 = single::plus(at, HALF_BAND);
    let high: u128 = if high < single::ONE {
        high
    } else {
        single::ONE
    };
    let y0: i32 = share_of(height, low);
    let y1: i32 = share_of(height, high);
    let margin: i32 = share_of(width, NARROWEST);
    let ghost want = column_reds(frame@, width as int, height as int, at);
    let mut counts: Vec<i32> = Vec::new();
    let mut x: i32 = 0;
    while x < width
        invariant
            0 <= x <= width,
            0 <= margin,
            0 <= height,
            pixels::frame_fits(frame@.len() as int, width as int, height as int),
            want == column_reds(frame@, width as int, height as int, at),
            margin == share(width as int, NARROWEST as int),
            y0 == share(height as int, band(at).0),
            y1 == share(height as int, band(at).1),
            0 <= y0,
            0 < width ==> y1 <= height,
            counts.len() == x,
            forall|i: int| 0 <= i < x ==> #[trigger] counts@[i] == want[i] && 0 <= counts@[i] <= height,
        decreases width - x,
    {
        if x >= margin && x < width - margin {
            counts.push(count_reds(frame, width, height, x, y0, y1));
        } else {
            counts.push(0);
        }
        x = x + 1;
    }
    assert(counts@.map_values(|c: i32| c as int) =~= want);
    counts
}

proof fn lemma_low(at: u128)
    requires
        HALF_BAND < at <= single::ONE,
    ensures
        single::distance(at as nat, HALF_BAND as nat) <= single::ONE,
{
    let d = (at - HALF_BAND) as nat;
    single::lemma_nearest_size(d);
    assert(d <= 4503599627370496 - 270215971602432);
}

fn sum_columns(counts: &Vec<i32>, s: i32, e: i32, height: i32) -> (sum: i64)
    requires
        0 <= s <= e <= counts.len(),
        0 <= height,
        forall|x: int| 0 <= x < counts.len() ==> 0 <= #[trigger] counts@[x] <= height,
    ensures
        sum == total(counts@.map_values(|c: i32| c as int).subrange(s as int, e as int)),
        0 <= sum <= (e - s) * height,
{
    let ghost all = counts@.map_values(|c: i32| c as int);
    let mut sum: i64 = 0;
    let mut i: i32 = s;
    assert((s - s) * height == 0) by (nonlinear_arith);
    while i < e
        invariant
            0 <= s <= i <= e <= counts.len(),
            0 <= height,
            all == counts@.map_values(|c: i32| c as int),
            forall|x: int| 0 <= x < counts.len() ==> 0 <= #[trigger] counts@[x] <= height,
            sum == total(all.subrange(s as int, i as int)),
            0 <= sum <= (i - s) * height,
        decreases e - i,
    {
        proof {
            let t = all.subrange(s as int, i + 1);
            assert(t.drop_last() =~= all.subrange(s as int, i as int));
            assert(t.last() == counts@[i as int]);
            assert((i + 1 - s) * height == (i - s) * height + height) by (nonlinear_arith);
            assert((i - s) * height <= 0x8000_0000 * 0x8000_0000) by (nonlinear_arith)
                requires
                    0 <= i - s <= 0x8000_0000,
                    0 <= height <= 0x8000_0000,
            ;
        }
        sum = sum + counts[i as usize] as i64;
        i = i + 1;
    }
    sum
}

/// Finds the runs of reddish columns that may be the cart, in a band around the height `at`, a share
/// of the height in units of 2^-52.
pub fn find_cart_candidates(frame: &[u8], width: i32, height: i32, at: u128) -> (out: Vec<CartCandidate>)
    requires
        0 <= width,
        0 <= height,
        at <= single::ONE,
        pixels::frame_fits(frame@.len() as int, width as int, height as int),
        0 < width ==> share(height as int, band(at).1) <= height,
    ensures
        out@ == cart_candidates(frame@, width as int, height as int, at),
        forall|i: int| 0 <= i < out.len() ==> 0 <= (#[trigger] out@[i]).x <= width && 0 <= out@[i].score,
{
    let counts = count_columns(frame, width, height, at);
    let ghost all = counts@.map_values(|c: i32| c as int);
    let narrowest: i32 = share_of(width, NARROWEST);
    let widest: i32 = share_of(width, WIDEST);
    let y: i32 = share_of(height, at);
    let mut out: Vec<CartCandidate> = Vec::new();
    let mut start: Option<i32> = None;
    let mut x: i64 = 0;
    while x <= width as i64
        invariant
            0 <= x <= width + 1,
            0 <= width,
            0 <= height,
            pixels::frame_fits(frame@.len() as int, width as int, height as int),
            counts.len() == width,
            all == counts@.map_values(|c: i32| c as int),
            forall|i: int| 0 <= i < width ==> 0 <= #[trigger] counts@[i] <= height,
            narrowest == share(width as int, NARROWEST as int),
            widest == share(width as int, WIDEST as int),
            start is None ==> x == width + 1 || run_start(all, x as int) == x,
            start matches Some(s) ==> 0 <= s < x && run_start(all, x as int) == s,
            out@ == candidates_before(all, x as int, y as int),
            forall|i: int| 0 <= i < out.len() ==> 0 <= (#[trigger] out@[i]).x <= width && 0 <= out@[i].score,
        decreases width + 1 - x,
    {
        let active: bool = x < width as i64 && counts[x as usize] >= 3;
        assert(active == reddish(all, x as int));
        match (active, start) {
            (true, None) => {
                start = Some(x as i32);
            },
            (false, Some(s)) => {
                let len: i64 = x - s as i64;
                if len >= narrowest as i64 && len <= widest as i64 {
                    let sum: i64 = sum_columns(&counts, s, x as i32, height);
                    proof {
                        assert((x - s) * height <= width * height) by (nonlinear_arith)
                            requires
                                x - s <= width,
                                0 <= height,
                        ;
                        if height == 0 {
                            assert(width * height == 0) by (nonlinear_arith)
                                requires
                                    height == 0,
                            ;
                        }
                    }
                    out.push(CartCandidate { x: ((s as i64 + x) / 2) as i32, y, score: sum as i32 });
                }
                start = None;
            },
            _ => {},
        }
        x = x + 1;
    }
    out
}

/// The last position that holds the greatest number.
pub open spec fn last_greatest(s: Seq<int>) -> int
    decreases s.len(),
{
    if s.len() <= 1 {
        0
    } else {
        let m = last_greatest(s.drop_last());
        if s.last() >= s[m] {
            s.len() - 1
        } else {
            m
        }
    }
}

/// `last_greatest` is what its name says.
pub proof fn lemma_last_greatest(s: Seq<int>)
    requires
        s.len() > 0,
    ensures
        0 <= last_greatest(s) < s.len(),
        forall|i: int| 0 <= i < s.len() ==> #[trigger] s[i] <= s[last_greatest(s)],
        forall|i: int| last_greatest(s) < i < s.len() ==> #[trigger] s[i] < s[last_greatest(s)],
    decreases s.len(),
{
    if s.len() > 1 {
        let t = s.drop_last();
        lemma_last_greatest(t);
        assert forall|i: int| 0 <= i < s.len() implies #[trigger] s[i] <= s[last_greatest(s)] by {
            if i < t.len() {
                assert(t[i] == s[i]);
            }
        }
        assert forall|i: int| last_greatest(s) < i < s.len() implies #[trigger] s[i] < s[last_greatest(s)] by {
            if i < t.len() {
                assert(t[i] == s[i]);
            }
        }
    }
}

/// The scores of some candidates.
pub open spec fn scores(cs: Seq<CartCandidate>) -> Seq<int> {
    cs.map_values(|c: CartCandidate| c.score as int)
}

/// Where a cart is expected, in units of 2^-52: its column, and how far from it a candidate may be.
#[derive(Clone, Copy, Debug, PartialEq, Eq, Structural)]
pub struct Expectation {
    pub x: u128,
    pub reach: u128,
}

/// How far a candidate is from where the cart is expected.
pub open spec fn cart_offset(c: CartCandidate, e: Expectation) -> nat {
    single::distance(single::whole(c.x as nat) * single::ONE as nat, e.x as nat)
}

/// A candidate is close enough.
pub open spec fn in_reach(c: CartCandidate, e: Expectation) -> bool {
    cart_offset(c, e) <= e.reach
}

/// What counts against a candidate: its distance, less what its red pixels are worth.
pub open spec fn cart_cost(c: CartCandidate, e: Expectation) -> int {
    single::signed(cart_offset(c, e) - single::scaled(c.score as nat, PIXEL_WORTH as nat))
}

/// The position of the cheapest candidate in reach, the first where several are.
pub open spec fn cheapest(cs: Seq<CartCandidate>, e: Expectation) -> Option<int>
    decreases cs.len(),
{
    if cs.len() == 0 {
        None
    } else {
        let here = (cs.len() - 1) as int;
        match cheapest(cs.drop_last(), e) {
            None => if in_reach(cs.last(), e) {
                Some(here)
            } else {
                None
            },
            Some(m) => if in_reach(cs.last(), e) && cart_cost(cs.last(), e) < cart_cost(cs[m], e) {
                Some(here)
            } else {
                Some(m)
            },
        }
    }
}

/// `cheapest` is what its name says: none where no candidate is in reach, and otherwise the first of
/// the least cost among those in reach.
pub proof fn lemma_cheapest(cs: Seq<CartCandidate>, e: Expectation)
    ensures
        cheapest(cs, e) is None ==> forall|i: int| 0 <= i < cs.len() ==> !in_reach(#[trigger] cs[i], e),
        cheapest(cs, e) matches Some(m) ==> {
            &&& 0 <= m < cs.len() && in_reach(cs[m], e)
            &&& forall|i: int|
                0 <= i < cs.len() && in_reach(#[trigger] cs[i], e) ==> cart_cost(cs[m], e) <= cart_cost(cs[i], e)
            &&& forall|i: int|
                0 <= i < m && in_reach(#[trigger] cs[i], e) ==> cart_cost(cs[m], e) < cart_cost(cs[i], e)
        },
    decreases cs.len(),
{
    if cs.len() > 0 {
        let t = cs.drop_last();
        lemma_cheapest(t, e);
        assert forall|i: int| 0 <= i < t.len() implies t[i] == #[trigger] cs[i] by {}
    }
}

/// The cart among the candidates: where nothing is known of it yet, the last of the highest score;
/// otherwise the cheapest one in reach.
pub open spec fn chosen_cart(cs: Seq<CartCandidate>, expected: Option<Expectation>) -> Option<(i32, i32)> {
    if cs.len() == 0 {
        None
    } else {
        match expected {
            None => {
                let c = cs[last_greatest(scores(cs))];
                Some((c.x, c.y))
            },
            Some(e) => match cheapest(cs, e) {
                Some(m) => Some((cs[m].x, cs[m].y)),
                None => None,
            },
        }
    }
}

/// Picks the cart among the candidates.
pub fn choose_cart_candidate(candidates: &Vec<CartCandidate>, expected: Option<Expectation>) -> (r: Option<(i32, i32)>)
    requires
        forall|i: int|
            0 <= i < candidates.len() ==> 0 <= (#[trigger] candidates@[i]).x && 0 <= candidates@[i].score,
        expected matches Some(e) ==> e.x < 0x10_0000_0000_0000_0000_0000_0000,
    ensures
        r == chosen_cart(candidates@, expected),
{
    let ghost cs = candidates@;
    if candidates.len() == 0 {
        return None;
    }
    match expected {
        None => {
            let mut m: usize = 0;
            let mut i: usize = 1;
            assert(scores(cs).take(1).len() == 1);
            while i < candidates.len()
                invariant
                    1 <= i <= candidates.len(),
                    cs == candidates@,
                    m < i,
                    m == last_greatest(scores(cs).take(i as int)),
                decreases candidates.len() - i,
            {
                assert(scores(cs).take(i + 1).drop_last() =~= scores(cs).take(i as int));
                assert(scores(cs)[m as int] == cs[m as int].score);
                if candidates[i].score >= candidates[m].score {
                    m = i;
                }
                i = i + 1;
            }
            assert(scores(cs).take(i as int) =~= scores(cs));
            Some((candidates[m].x, candidates[m].y))
        },
        Some(e) => {
            let mut best: Option<(usize, i128)> = None;
            let mut i: usize = 0;
            assert(cs.take(0).len() == 0);
            while i < candidates.len()
                invariant
                    i <= candidates.len(),
                    cs == candidates@,
                    forall|k: int| 0 <= k < cs.len() ==> 0 <= (#[trigger] cs[k]).x && 0 <= cs[k].score,
                    e.x < 0x10_0000_0000_0000_0000_0000_0000,
                    best is None <==> cheapest(cs.take(i as int), e) is None,
                    best matches Some((m, cost)) ==> {
                        &&& m < i
                        &&& cheapest(cs.take(i as int), e) == Some(m as int)
                        &&& cost == cart_cost(cs[m as int], e)
                    },
                decreases candidates.len() - i,
            {
                let c = candidates[i];
                proof {
                    assert(cs.take(i + 1).drop_last() =~= cs.take(i as int));
                    assert(cs.take(i + 1).last() == c);
                    single::lemma_nearest_size(c.x as nat);
                }
                let place: u128 = single::round_ratio(c.x as u128, 1) * single::ONE;
                proof {
                    let d = if place >= e.x {
                        (place - e.x) as nat
                    } else {
                        (e.x - place) as nat
                    };
                    single::lemma_nearest_size(d);
                }
                let dx: u128 = single::gap(place, e.x);
                if dx <= e.reach {
                    let worth: u128 = single::scale(c.score as u64, PIXEL_WORTH);
                    let cost: i128 = single::round_signed(dx as i128 - worth as i128);
                    let cheaper: bool = match best {
                        None => true,
                        Some((_, least)) => cost < least,
                    };
                    if cheaper {
                        best = Some((i, cost));
                    }
                }
                i = i + 1;
            }
            assert(cs.take(i as int) =~= cs);
            match best {
                Some((m, _)) => Some((candidates[m].x, candidates[m].y)),
                None => None,
            }
        },
    }
}

/// What became of the search for the cart.
#[derive(Clone, Copy, Debug, PartialEq, Eq, Structural)]
pub enum CartChoice {
    NoRedCandidates,
    Selected,
    RejectedByCartGate,
}

/// The name of a choice in the log.
pub open spec fn choice_name(c: CartChoice) -> Seq<char> {
    match c {
        CartChoice::NoRedCandidates => "no_red_candidates"@,
        CartChoice::Selected => "selected"@,
        CartChoice::RejectedByCartGate => "rejected_by_cart_gate"@,
    }
}

impl CartChoice {
    /// What became of the search, by the number of candidates and whether one was chosen.
    pub fn of(candidates: usize, chosen: bool) -> (c: Self)
        ensures
            c == if candidates == 0 {
                CartChoice::NoRedCandidates
            } else if chosen {
                CartChoice::Selected
            } else {
                CartChoice::RejectedByCartGate
            },
    {
        if candidates == 0 {
            CartChoice::NoRedCandidates
        } else if chosen {
            CartChoice::Selected
        } else {
            CartChoice::RejectedByCartGate
        }
    }

    /// The name of a choice in the log.
    pub fn name(self) -> (name: &'static str)
        ensures
            name@ == choice_name(self),
    {
        match self {
            CartChoice::NoRedCandidates => "no_red_candidates",
            CartChoice::Selected => "selected",
            CartChoice::RejectedByCartGate => "rejected_by_cart_gate",
        }
    }
}

/// A share of a length is exact but for its fraction and a small error.
pub proof fn lemma_share_close(len: int, ratio: int)
    requires
        0 <= len < EXACT,
        0 <= ratio <= single::ONE,
    ensures
        0x100_0000 * (share(len, ratio) * 4503599627370496) <= 0x100_0001 * (len * ratio),
        0x100_0000 * ((share(len, ratio) + 1) * 4503599627370496) > 0xff_ffff * (len * ratio),
{
    single::lemma_scaled_close(len as nat, ratio as nat);
    single::lemma_scaled_at_most(len as nat, ratio as nat);
    let v = single::scaled(len as nat, ratio as nat);
    let f = single::floor(v) as int;
    assert(f * 4503599627370496 <= v < (f + 1) * 4503599627370496);
}

/// A share grows with the length and with the ratio.
pub proof fn lemma_share_grows(len: int, more: int, ratio: int, larger: int)
    requires
        0 <= len <= more,
        0 <= ratio <= larger,
    ensures
        share(len, ratio) <= share(more, larger),
{
    let v = single::scaled(len as nat, ratio as nat);
    let w = single::scaled(more as nat, larger as nat);
    single::lemma_scaled_order(len as nat, more as nat, ratio as nat, larger as nat);
    vstd::arithmetic::div_mod::lemma_div_is_ordered(v as int, w as int, single::ONE as int);
}

/// The band reaches six hundredths of the height above and below its middle, as far as the picture goes.
pub proof fn lemma_band(at: u128)
    requires
        at <= single::ONE,
    ensures
        0 <= band(at).0 <= at <= band(at).1 <= 4503599627370496,
        10_000 * (at - band(at).0) <= 601 * 4503599627370496,
        10_000 * (band(at).1 - at) <= 601 * 4503599627370496,
        band(at).0 == 0 || 10_000 * (at - band(at).0) >= 599 * 4503599627370496,
        band(at).1 == 4503599627370496 || 10_000 * (band(at).1 - at) >= 599 * 4503599627370496,
{
    single::lemma_nearest_close((at + HALF_BAND) as nat);
    if at > HALF_BAND {
        single::lemma_nearest_close((at - HALF_BAND) as nat);
    }
}

/// The red pixels of a column are counted one by one: the number is that of the rows whose pixel has a colour of the
/// cart.
pub proof fn lemma_reds(frame: Seq<u8>, width: int, x: int, y0: int, y: int)
    ensures
        ({
            let rows = Set::new(|r: int| y0 <= r < y && color::red_like(pixels::pixel(frame, width, x, r)));
            rows.finite() && rows.len() == reds(frame, width, x, y0, y)
        }),
    decreases y - y0,
{
    let rows = Set::new(|r: int| y0 <= r < y && color::red_like(pixels::pixel(frame, width, x, r)));
    if y <= y0 {
        assert(rows =~= Set::empty());
    } else {
        let before = Set::new(|r: int| y0 <= r < y - 1 && color::red_like(pixels::pixel(frame, width, x, r)));
        lemma_reds(frame, width, x, y0, y - 1);
        if color::red_like(pixels::pixel(frame, width, x, y - 1)) {
            assert(rows =~= before.insert(y - 1));
        } else {
            assert(rows =~= before);
        }
    }
}

/// Nothing is counted in the outer eight hundredths of the frame, and every column inside is counted over the band.
pub proof fn lemma_columns_counted(frame: Seq<u8>, width: int, height: int, at: u128, x: int)
    requires
        0 <= x < width < EXACT,
    ensures
        ({
            let counts = column_reds(frame, width, height, at);
            let y0 = share(height, band(at).0);
            let y1 = share(height, band(at).1);
            &&& counts.len() == width
            &&& 1_000_000 * (x + 1) < 79_999 * width ==> counts[x] == 0
            &&& 1_000_000 * (width - x) < 79_999 * width ==> counts[x] == 0
            &&& 1_000_000 * x >= 80_001 * width && 1_000_000 * (width - 1 - x) >= 80_001 * width ==> counts[x] == Set::new(
                |r: int| y0 <= r < y1 && color::red_like(pixels::pixel(frame, width, x, r)),
            ).len()
        }),
{
    lemma_share_close(width, NARROWEST as int);
    assert(width * (NARROWEST as int) == 360287962136576 * width);
    lemma_reds(frame, width, x, share(height, band(at).0), share(height, band(at).1));
}

/// The columns from `s` to before `e` are a run: each has at least three red pixels, and the ones next to it have
/// fewer.
pub open spec fn red_run(counts: Seq<int>, s: int, e: int) -> bool {
    &&& 0 <= s < e <= counts.len()
    &&& forall|i: int| s <= i < e ==> #[trigger] counts[i] >= 3
    &&& s > 0 ==> counts[s - 1] < 3
    &&& e < counts.len() ==> counts[e] < 3
}

/// A run of columns can be the cart where it is 8 % to 34 % as wide as the frame.
pub proof fn lemma_cart_wide(len: int, width: int)
    requires
        0 <= width < EXACT,
    ensures
        cart_wide(len, width) ==> 1_000_000 * (len + 1) > 79_999 * width && 1_000_000 * len <= 340_001 * width,
        1_000_000 * len >= 80_001 * width && 1_000_000 * (len + 1) <= 339_999 * width ==> cart_wide(len, width),
{
    lemma_share_close(width, NARROWEST as int);
    lemma_share_close(width, WIDEST as int);
    assert(width * (NARROWEST as int) == 360287962136576 * width);
    assert(width * (WIDEST as int) == 1531223889412096 * width);
}

/// The start of a run that ends just before `e`.
proof fn lemma_run_start_of(counts: Seq<int>, s: int, e: int)
    requires
        0 <= s <= e <= counts.len(),
        forall|i: int| s <= i < e ==> #[trigger] counts[i] >= 3,
        s > 0 ==> counts[s - 1] < 3,
    ensures
        run_start(counts, e) == s,
    decreases e,
{
    if e > s {
        assert(counts[e - 1] >= 3);
        lemma_run_start_of(counts, s, e - 1);
    }
}

/// Every run of the right width that ends before column `n` is a candidate, and every candidate is such a run: its
/// place is the middle of the run, its score the number of red pixels in it.
pub proof fn lemma_candidates(counts: Seq<int>, n: int, y: int, c: CartCandidate)
    requires
        n <= counts.len() + 1,
    ensures
        candidates_before(counts, n, y).contains(c) <==> exists|s: int, e: int|
            #[trigger] red_run(counts, s, e) && e < n && cart_wide(e - s, counts.len() as int) && c == candidate(
                counts,
                s,
                e,
                y,
            ),
    decreases n,
{
    let list = candidates_before(counts, n, y);
    if n > 0 {
        let e = n - 1;
        let s = run_start(counts, e);
        let before = candidates_before(counts, e, y);
        lemma_candidates(counts, e, y, c);
        lemma_run_start(counts, e);
        let added = !reddish(counts, e) && s < e && cart_wide(e - s, counts.len() as int);
        if added {
            assert forall|i: int| s <= i < e implies #[trigger] counts[i] >= 3 by {
                assert(reddish(counts, i));
            }
            assert(red_run(counts, s, e)) by {
                if s > 0 {
                    assert(!reddish(counts, s - 1));
                }
            }
        }
        if list.contains(c) {
            let k = choose|k: int| 0 <= k < list.len() && list[k] == c;
            if k < before.len() {
                assert(before[k] == c);
                assert(before.contains(c));
            } else {
                assert(red_run(counts, s, e) && c == candidate(counts, s, e, y));
            }
        }
        if exists|a: int, b: int|
            #[trigger] red_run(counts, a, b) && b < n && cart_wide(b - a, counts.len() as int) && c == candidate(
                counts,
                a,
                b,
                y,
            ) {
            let (a, b) = choose|a: int, b: int|
                #[trigger] red_run(counts, a, b) && b < n && cart_wide(b - a, counts.len() as int) && c == candidate(
                    counts,
                    a,
                    b,
                    y,
                );
            if b < e {
                assert(before.contains(c));
                let k = choose|k: int| 0 <= k < before.len() && before[k] == c;
                assert(list[k] == c);
            } else {
                lemma_run_start_of(counts, a, b);
                assert(!reddish(counts, e));
                assert(list[list.len() - 1] == c);
            }
        }
    } else {
        assert forall|s: int, e: int| #[trigger] red_run(counts, s, e) implies e >= n by {}
    }
}

/// A candidate stands in the middle of its run, the left one of two columns.
pub proof fn lemma_candidate_middle(counts: Seq<int>, s: int, e: int, y: int)
    requires
        0 <= s < e <= i32::MAX,
    ensures
        s <= candidate(counts, s, e, y).x < e,
        0 <= (s + e) - 2 * candidate(counts, s, e, y).x <= 1,
{
}

/// The sum of some numbers: that of two lists one behind the other is the sum of both sums.
pub proof fn lemma_total(a: Seq<int>, b: Seq<int>, x: int)
    ensures
        total(a + b) == total(a) + total(b),
        total(seq![x]) == x,
    decreases b.len(),
{
    reveal_with_fuel(total, 2);
    assert(seq![x].last() == x);
    assert(seq![x].drop_last().len() == 0);
    if b.len() == 0 {
        assert(a + b =~= a);
    } else {
        lemma_total(a, b.drop_last(), x);
        assert((a + b).drop_last() =~= a + b.drop_last());
    }
}

/// For whole columns the distance of a candidate is the number of columns to where the cart is expected, on either
/// side.
pub proof fn lemma_cart_offset(c: CartCandidate, e: Expectation, column: int)
    requires
        0 <= c.x < EXACT,
        0 <= column < EXACT,
        e.x == column * 4503599627370496,
    ensures
        c.x >= column ==> cart_offset(c, e) == (c.x - column) * 4503599627370496,
        c.x <= column ==> cart_offset(c, e) == (column - c.x) * 4503599627370496,
{
    single::lemma_whole_exact(c.x as nat);
    if c.x >= column {
        single::lemma_whole_value((c.x - column) as nat);
    } else {
        single::lemma_whole_value((column - c.x) as nat);
    }
}

/// Of two candidates with the same number of red pixels the nearer one never costs more, and of two at the same
/// distance the redder one.
pub proof fn lemma_cart_cost_ordered(a: CartCandidate, b: CartCandidate, e: Expectation)
    requires
        0 <= b.score <= a.score,
        cart_offset(a, e) <= cart_offset(b, e),
    ensures
        cart_cost(a, e) <= cart_cost(b, e),
{
    single::lemma_scaled_order(b.score as nat, a.score as nat, PIXEL_WORTH as nat, PIXEL_WORTH as nat);
    let va = cart_offset(a, e) - single::scaled(a.score as nat, PIXEL_WORTH as nat);
    let vb = cart_offset(b, e) - single::scaled(b.score as nat, PIXEL_WORTH as nat);
    lemma_signed_order(va, vb);
}

proof fn lemma_signed_order(a: int, b: int)
    requires
        a <= b,
    ensures
        single::signed(a) <= single::signed(b),
{
    if a >= 0 {
        single::lemma_nearest_order(a as nat, b as nat, 1);
    } else if b < 0 {
        single::lemma_nearest_order((-b) as nat, (-a) as nat, 1);
    }
}

/// A red pixel is worth three thousandths of a column: that much counts for a candidate, its distance against it.
pub proof fn lemma_cart_cost(c: CartCandidate, e: Expectation)
    requires
        0 <= c.score < EXACT,
    ensures
        ({
            let away = cart_offset(c, e) as int;
            let red = 4503599627370496 * c.score;
            &&& 1_000_000 * cart_cost(c, e) <= 1_000_001 * away - 2_999 * red + (away + red)
            &&& 1_000_000 * cart_cost(c, e) >= 999_999 * away - 3_001 * red - (away + red)
        }),
{
    single::lemma_scaled_close(c.score as nat, PIXEL_WORTH as nat);
    assert((c.score as nat) * (PIXEL_WORTH as nat) == 13510798999552 * c.score);
    let v = cart_offset(c, e) - single::scaled(c.score as nat, PIXEL_WORTH as nat);
    if v >= 0 {
        single::lemma_nearest_close(v as nat);
    } else {
        single::lemma_nearest_close((-v) as nat);
    }
}

/// The cart that is chosen is one of the candidates. Where none is expected anywhere, no candidate has more red pixels
/// and every later one fewer; otherwise it is in reach, and no candidate in reach costs less. None is chosen
/// only where there is no candidate or none in reach.
pub proof fn lemma_chosen_cart(cs: Seq<CartCandidate>, expected: Option<Expectation>)
    ensures
        chosen_cart(cs, expected) is None <==> forall|i: int|
            0 <= i < cs.len() ==> (expected matches Some(e) && cart_offset(#[trigger] cs[i], e) > e.reach),
        chosen_cart(cs, expected) matches Some((x, y)) ==> exists|m: int|
            {
                &&& 0 <= m < cs.len()
                &&& x == (#[trigger] cs[m]).x && y == cs[m].y
                &&& expected is None ==> forall|i: int|
                    0 <= i < cs.len() ==> (#[trigger] cs[i]).score <= cs[m].score && (i > m ==> cs[i].score < cs[m].score)
                &&& expected matches Some(e) ==> cart_offset(cs[m], e) <= e.reach && forall|i: int|
                    0 <= i < cs.len() && cart_offset(#[trigger] cs[i], e) <= e.reach ==> cart_cost(cs[m], e) <= cart_cost(cs[i], e)
            },
{
    if cs.len() > 0 {
        match expected {
            None => {
                let t = scores(cs);
                lemma_last_greatest(t);
                let m = last_greatest(t);
                assert forall|i: int| 0 <= i < cs.len() implies (#[trigger] cs[i]).score <= cs[m].score && (i > m
                    ==> cs[i].score < cs[m].score) by {
                    assert(t[i] <= t[m]);
                }
                assert(chosen_cart(cs, expected) == Some((cs[m].x, cs[m].y)));
            },
            Some(e) => {
                lemma_cheapest(cs, e);
                match cheapest(cs, e) {
                    Some(m) => {
                        assert(in_reach(cs[m], e));
                        assert(chosen_cart(cs, expected) == Some((cs[m].x, cs[m].y)));
                    },
                    None => {
                        assert forall|i: int| 0 <= i < cs.len() implies cart_offset(#[trigger] cs[i], e) > e.reach by {
                            assert(!in_reach(cs[i], e));
                        }
                    },
                }
            },
        }
    }
}

} // verus!
