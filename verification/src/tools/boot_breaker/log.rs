//! The tool's log: one row of tab-separated cells for each frame.

use crate::platform::input;
use crate::platform::input::HeldKey;
use crate::text;
use crate::tools::boot_breaker::cart;
use crate::tools::boot_breaker::cart::{CartCandidate, CartChoice};
use crate::tools::boot_breaker::control;
use crate::tools::boot_breaker::control::{Action, ControlReason};
use crate::tools::boot_breaker::motion;
use crate::tools::boot_breaker::motion::{BootSize, Detection, Roi, Source};
use vstd::prelude::*;
use vstd::string::*;

verus! {

/// A tracked thing. Numbers with decimals are given as text.
pub struct TrackCells {
    pub x: String,
    pub y: String,
    pub vx: String,
    pub vy: String,
    pub lost_frames: i32,
}

/// What is logged of a frame. Numbers with decimals are given as text.
pub struct LogEntry {
    pub frame: u64,
    pub time: String,
    /// The boot that was taken in this frame, its score and the target it gives.
    pub boot_det: Option<Detection>,
    pub boot_score: String,
    pub target: String,
    pub boot: Option<TrackCells>,
    pub cart_det: Option<(i32, i32)>,
    pub cart: TrackCells,
    pub candidates: Vec<CartCandidate>,
    pub choice: CartChoice,
    pub error: Option<String>,
    pub action: Action,
    pub held: HeldKey,
    pub reason: ControlReason,
    pub reject_reason: String,
    pub search: Source,
    pub loop_ms: String,
    pub fps: String,
    pub boot_size: BootSize,
    pub rois: Vec<Roi>,
    pub grab_ms: String,
    pub gray_ms: String,
    pub cart_ms: String,
    pub boot_search_ms: String,
    pub intercept_ms: String,
    pub control_ms: String,
    pub log_ms: String,
}

/// The names of the columns.
pub open spec fn columns() -> Seq<Seq<char>> {
    seq![
        "frame"@,
        "time"@,
        "boot_det_x"@,
        "boot_det_y"@,
        "boot_score"@,
        "boot_source"@,
        "boot_box"@,
        "boot_track_x"@,
        "boot_track_y"@,
        "boot_vx"@,
        "boot_vy"@,
        "boot_lost"@,
        "cart_det_x"@,
        "cart_det_y"@,
        "cart_track_x"@,
        "cart_track_y"@,
        "cart_vx"@,
        "cart_lost"@,
        "cart_candidate_count"@,
        "cart_candidates"@,
        "cart_choice_reason"@,
        "target_x"@,
        "target_source"@,
        "error"@,
        "action"@,
        "key"@,
        "control_reason"@,
        "reject_reason"@,
        "boot_search_mode"@,
        "loop_ms"@,
        "fps"@,
        "boot_expected_w"@,
        "boot_expected_h"@,
        "search_roi_count"@,
        "search_roi_area"@,
        "search_rois"@,
        "grab_ms"@,
        "gray_ms"@,
        "cart_ms"@,
        "boot_search_ms"@,
        "intercept_ms"@,
        "control_ms"@,
        "log_ms"@,
    ]
}

fn empty() -> (out: String)
    ensures
        out@ == Seq::<char>::empty(),
{
    let out = String::new();
    assert(out@ =~= Seq::empty());
    out
}

/// The head of the log: the names of the columns, with tabs between them.
pub fn header() -> (line: String)
    ensures
        line@ == text::joined(columns(), '\t'),
{
    let mut names: Vec<String> = Vec::new();
    names.push(text::copy("frame"));
    names.push(text::copy("time"));
    names.push(text::copy("boot_det_x"));
    names.push(text::copy("boot_det_y"));
    names.push(text::copy("boot_score"));
    names.push(text::copy("boot_source"));
    names.push(text::copy("boot_box"));
    names.push(text::copy("boot_track_x"));
    names.push(text::copy("boot_track_y"));
    names.push(text::copy("boot_vx"));
    names.push(text::copy("boot_vy"));
    names.push(text::copy("boot_lost"));
    names.push(text::copy("cart_det_x"));
    names.push(text::copy("cart_det_y"));
    names.push(text::copy("cart_track_x"));
    names.push(text::copy("cart_track_y"));
    names.push(text::copy("cart_vx"));
    names.push(text::copy("cart_lost"));
    names.push(text::copy("cart_candidate_count"));
    names.push(text::copy("cart_candidates"));
    names.push(text::copy("cart_choice_reason"));
    names.push(text::copy("target_x"));
    names.push(text::copy("target_source"));
    names.push(text::copy("error"));
    names.push(text::copy("action"));
    names.push(text::copy("key"));
    names.push(text::copy("control_reason"));
    names.push(text::copy("reject_reason"));
    names.push(text::copy("boot_search_mode"));
    names.push(text::copy("loop_ms"));
    names.push(text::copy("fps"));
    names.push(text::copy("boot_expected_w"));
    names.push(text::copy("boot_expected_h"));
    names.push(text::copy("search_roi_count"));
    names.push(text::copy("search_roi_area"));
    names.push(text::copy("search_rois"));
    names.push(text::copy("grab_ms"));
    names.push(text::copy("gray_ms"));
    names.push(text::copy("cart_ms"));
    names.push(text::copy("boot_search_ms"));
    names.push(text::copy("intercept_ms"));
    names.push(text::copy("control_ms"));
    names.push(text::copy("log_ms"));
    assert(text::values(names@) =~= columns());
    text::join(&names, '\t')
}

/// A part of the frame: its corner and size, with commas between them.
pub open spec fn roi_cell(r: Roi) -> Seq<char> {
    text::decimal(r.x as int) + seq![','] + text::decimal(r.y as int) + seq![','] + text::decimal(r.w as int) + seq![
        ',',
    ] + text::decimal(r.h as int)
}

fn roi_text(r: Roi) -> (out: String)
    ensures
        out@ == roi_cell(r),
{
    let mut out = String::new();
    text::push_int(&mut out, r.x as i64);
    out.push(',');
    text::push_int(&mut out, r.y as i64);
    out.push(',');
    text::push_int(&mut out, r.w as i64);
    out.push(',');
    text::push_int(&mut out, r.h as i64);
    assert(out@ =~= roi_cell(r));
    out
}

/// A candidate: its place and score, with commas between them.
pub open spec fn candidate_cell(c: CartCandidate) -> Seq<char> {
    text::decimal(c.x as int) + seq![','] + text::decimal(c.y as int) + seq![','] + text::decimal(c.score as int)
}

fn candidate_text(c: CartCandidate) -> (out: String)
    ensures
        out@ == candidate_cell(c),
{
    let mut out = String::new();
    text::push_int(&mut out, c.x as i64);
    out.push(',');
    text::push_int(&mut out, c.y as i64);
    out.push(',');
    text::push_int(&mut out, c.score as i64);
    assert(out@ =~= candidate_cell(c));
    out
}

/// The texts of some parts.
pub open spec fn roi_cells(rois: Seq<Roi>) -> Seq<Seq<char>> {
    rois.map_values(|r: Roi| roi_cell(r))
}

/// The texts of some candidates.
pub open spec fn candidate_cells(cs: Seq<CartCandidate>) -> Seq<Seq<char>> {
    cs.map_values(|c: CartCandidate| candidate_cell(c))
}

/// The area of some parts together.
pub open spec fn area(rois: Seq<Roi>) -> int
    decreases rois.len(),
{
    if rois.len() == 0 {
        0
    } else {
        area(rois.drop_last()) + rois.last().w * rois.last().h
    }
}

fn rois_text(rois: &Vec<Roi>) -> (out: String)
    ensures
        out@ == text::joined(roi_cells(rois@), ';'),
{
    let mut items: Vec<String> = Vec::new();
    let mut i: usize = 0;
    while i < rois.len()
        invariant
            i <= rois.len(),
            text::values(items@) == roi_cells(rois@.take(i as int)),
        decreases rois.len() - i,
    {
        let ghost before = items@;
        let item = roi_text(rois[i]);
        items.push(item);
        proof {
            assert(text::values(items@) =~= text::values(before).push(item@));
            assert(roi_cells(rois@.take(i + 1)) =~= roi_cells(rois@.take(i as int)).push(roi_cell(rois@[i as int])));
        }
        i = i + 1;
    }
    assert(rois@.take(i as int) =~= rois@);
    text::join(&items, ';')
}

fn candidates_text(cs: &Vec<CartCandidate>) -> (out: String)
    ensures
        out@ == text::joined(candidate_cells(cs@), ';'),
{
    let mut items: Vec<String> = Vec::new();
    let mut i: usize = 0;
    while i < cs.len()
        invariant
            i <= cs.len(),
            text::values(items@) == candidate_cells(cs@.take(i as int)),
        decreases cs.len() - i,
    {
        let ghost before = items@;
        let item = candidate_text(cs[i]);
        items.push(item);
        proof {
            assert(text::values(items@) =~= text::values(before).push(item@));
            assert(candidate_cells(cs@.take(i + 1)) =~= candidate_cells(cs@.take(i as int)).push(
                candidate_cell(cs@[i as int]),
            ));
        }
        i = i + 1;
    }
    assert(cs@.take(i as int) =~= cs@);
    text::join(&items, ';')
}

/// The areas of the first parts, taken one after the other, stay within 32-bit numbers.
pub open spec fn area_fits(rois: Seq<Roi>) -> bool {
    forall|n: int| 0 <= n <= rois.len() ==> i32::MIN < area(#[trigger] rois.take(n)) <= i32::MAX
}

fn area_text(rois: &Vec<Roi>) -> (out: String)
    requires
        area_fits(rois@),
    ensures
        out@ == text::decimal(area(rois@)),
{
    let mut sum: i64 = 0;
    let mut i: usize = 0;
    while i < rois.len()
        invariant
            i <= rois.len(),
            area_fits(rois@),
            sum == area(rois@.take(i as int)),
        decreases rois.len() - i,
    {
        let r = rois[i];
        proof {
            assert(rois@.take(i + 1).drop_last() =~= rois@.take(i as int));
            assert(i32::MIN < area(rois@.take(i as int)) <= i32::MAX);
            assert(i32::MIN < area(rois@.take(i + 1)) <= i32::MAX);
        }
        sum = sum + r.w as i64 * r.h as i64;
        i = i + 1;
    }
    assert(rois@.take(i as int) =~= rois@);
    assert(rois@.take(rois@.len() as int) =~= rois@);
    let mut out = String::new();
    text::push_int(&mut out, sum);
    assert(out@ =~= text::decimal(area(rois@)));
    out
}

fn letter_text(action: Action) -> (out: String)
    ensures
        out@ == seq![control::action_letter(action)],
{
    let mut out = String::new();
    out.push(action.letter());
    assert(out@ =~= seq![control::action_letter(action)]);
    out
}

/// The cells of the boot.
pub open spec fn boot_cells(e: LogEntry) -> Seq<Seq<char>> {
    seq![
        text::digits(e.frame as nat),
        e.time@,
        match e.boot_det {
            Some(d) => text::decimal(d.x as int),
            None => Seq::empty(),
        },
        match e.boot_det {
            Some(d) => text::decimal(d.y as int),
            None => Seq::empty(),
        },
        if e.boot_det is Some {
            e.boot_score@
        } else {
            Seq::empty()
        },
        match e.boot_det {
            Some(d) => motion::source_name(d.source),
            None => Seq::empty(),
        },
        match e.boot_det {
            Some(d) => roi_cell(d.bbox),
            None => Seq::empty(),
        },
        match e.boot {
            Some(b) => b.x@,
            None => Seq::empty(),
        },
        match e.boot {
            Some(b) => b.y@,
            None => Seq::empty(),
        },
        match e.boot {
            Some(b) => b.vx@,
            None => Seq::empty(),
        },
        match e.boot {
            Some(b) => b.vy@,
            None => Seq::empty(),
        },
        match e.boot {
            Some(b) => text::decimal(b.lost_frames as int),
            None => Seq::empty(),
        },
    ]
}

/// The cells of the cart and the target.
pub open spec fn cart_cells(e: LogEntry) -> Seq<Seq<char>> {
    seq![
        match e.cart_det {
            Some(p) => text::decimal(p.0 as int),
            None => Seq::empty(),
        },
        match e.cart_det {
            Some(p) => text::decimal(p.1 as int),
            None => Seq::empty(),
        },
        e.cart.x@,
        e.cart.y@,
        e.cart.vx@,
        text::decimal(e.cart.lost_frames as int),
        text::digits(e.candidates@.len()),
        text::joined(candidate_cells(e.candidates@), ';'),
        cart::choice_name(e.choice),
        if e.boot_det is Some {
            e.target@
        } else {
            Seq::empty()
        },
        if e.boot_det is Some {
            "boot_det"@
        } else {
            "none"@
        },
        match e.error {
            Some(v) => v@,
            None => Seq::empty(),
        },
    ]
}

/// The cells of the decision and the search.
pub open spec fn control_cells(e: LogEntry) -> Seq<Seq<char>> {
    seq![
        seq![control::action_letter(e.action)],
        input::key_name(e.held),
        control::reason_text(e.reason),
        e.reject_reason@,
        motion::search_name(e.search),
        e.loop_ms@,
        e.fps@,
        text::decimal(e.boot_size.w as int),
        text::decimal(e.boot_size.h as int),
        text::digits(e.rois@.len()),
        text::decimal(area(e.rois@)),
        text::joined(roi_cells(e.rois@), ';'),
    ]
}

/// The cells of the time it took.
pub open spec fn time_cells(e: LogEntry) -> Seq<Seq<char>> {
    seq![
        e.grab_ms@,
        e.gray_ms@,
        e.cart_ms@,
        e.boot_search_ms@,
        e.intercept_ms@,
        e.control_ms@,
        e.log_ms@,
    ]
}

/// The cells of a row.
pub open spec fn cells(e: LogEntry) -> Seq<Seq<char>> {
    boot_cells(e) + cart_cells(e) + control_cells(e) + time_cells(e)
}

/// Every row has one cell for each column.
pub proof fn lemma_row_width(e: LogEntry)
    ensures
        cells(e).len() == columns().len(),
{
}

fn add_boot_cells(row: &mut Vec<String>, e: &LogEntry)
    ensures
        text::values(final(row)@) == text::values(old(row)@) + boot_cells(*e),
{
    row.push(text::nat_text(e.frame));
    row.push(text::copy(e.time.as_str()));
    match e.boot_det {
        Some(d) => {
            row.push(text::int_text(d.x));
        },
        None => {
            row.push(empty());
        },
    }
    match e.boot_det {
        Some(d) => {
            row.push(text::int_text(d.y));
        },
        None => {
            row.push(empty());
        },
    }
    if e.boot_det.is_some() {
        row.push(text::copy(e.boot_score.as_str()));
    } else {
        row.push(empty());
    }
    match e.boot_det {
        Some(d) => {
            row.push(text::copy(d.source.name()));
        },
        None => {
            row.push(empty());
        },
    }
    match e.boot_det {
        Some(d) => {
            row.push(roi_text(d.bbox));
        },
        None => {
            row.push(empty());
        },
    }
    match &e.boot {
        Some(b) => {
            row.push(text::copy(b.x.as_str()));
        },
        None => {
            row.push(empty());
        },
    }
    match &e.boot {
        Some(b) => {
            row.push(text::copy(b.y.as_str()));
        },
        None => {
            row.push(empty());
        },
    }
    match &e.boot {
        Some(b) => {
            row.push(text::copy(b.vx.as_str()));
        },
        None => {
            row.push(empty());
        },
    }
    match &e.boot {
        Some(b) => {
            row.push(text::copy(b.vy.as_str()));
        },
        None => {
            row.push(empty());
        },
    }
    match &e.boot {
        Some(b) => {
            row.push(text::int_text(b.lost_frames));
        },
        None => {
            row.push(empty());
        },
    }
    assert(text::values(row@) =~= text::values(old(row)@) + boot_cells(*e));
}

fn add_cart_cells(row: &mut Vec<String>, e: &LogEntry)
    ensures
        text::values(final(row)@) == text::values(old(row)@) + cart_cells(*e),
{
    match e.cart_det {
        Some(p) => {
            row.push(text::int_text(p.0));
        },
        None => {
            row.push(empty());
        },
    }
    match e.cart_det {
        Some(p) => {
            row.push(text::int_text(p.1));
        },
        None => {
            row.push(empty());
        },
    }
    row.push(text::copy(e.cart.x.as_str()));
    row.push(text::copy(e.cart.y.as_str()));
    row.push(text::copy(e.cart.vx.as_str()));
    row.push(text::int_text(e.cart.lost_frames));
    row.push(text::nat_text(e.candidates.len() as u64));
    row.push(candidates_text(&e.candidates));
    row.push(text::copy(e.choice.name()));
    if e.boot_det.is_some() {
        row.push(text::copy(e.target.as_str()));
    } else {
        row.push(empty());
    }
    if e.boot_det.is_some() {
        row.push(text::copy("boot_det"));
    } else {
        row.push(text::copy("none"));
    }
    match &e.error {
        Some(v) => {
            row.push(text::copy(v.as_str()));
        },
        None => {
            row.push(empty());
        },
    }
    assert(text::values(row@) =~= text::values(old(row)@) + cart_cells(*e));
}

fn add_control_cells(row: &mut Vec<String>, e: &LogEntry)
    requires
        area_fits(e.rois@),
    ensures
        text::values(final(row)@) == text::values(old(row)@) + control_cells(*e),
{
    row.push(letter_text(e.action));
    row.push(text::copy(e.held.name()));
    row.push(e.reason.name());
    row.push(text::copy(e.reject_reason.as_str()));
    row.push(text::copy(e.search.search()));
    row.push(text::copy(e.loop_ms.as_str()));
    row.push(text::copy(e.fps.as_str()));
    row.push(text::int_text(e.boot_size.w));
    row.push(text::int_text(e.boot_size.h));
    row.push(text::nat_text(e.rois.len() as u64));
    row.push(area_text(&e.rois));
    row.push(rois_text(&e.rois));
    assert(text::values(row@) =~= text::values(old(row)@) + control_cells(*e));
}

fn add_time_cells(row: &mut Vec<String>, e: &LogEntry)
    ensures
        text::values(final(row)@) == text::values(old(row)@) + time_cells(*e),
{
    row.push(text::copy(e.grab_ms.as_str()));
    row.push(text::copy(e.gray_ms.as_str()));
    row.push(text::copy(e.cart_ms.as_str()));
    row.push(text::copy(e.boot_search_ms.as_str()));
    row.push(text::copy(e.intercept_ms.as_str()));
    row.push(text::copy(e.control_ms.as_str()));
    row.push(text::copy(e.log_ms.as_str()));
    assert(text::values(row@) =~= text::values(old(row)@) + time_cells(*e));
}

/// The row of a frame.
pub fn log_row(e: &LogEntry) -> (line: String)
    requires
        area_fits(e.rois@),
    ensures
        line@ == text::joined(cells(*e), '\t'),
{
    let mut row: Vec<String> = Vec::new();
    add_boot_cells(&mut row, e);
    add_cart_cells(&mut row, e);
    add_control_cells(&mut row, e);
    add_time_cells(&mut row, e);
    assert(text::values(row@) =~= cells(*e));
    text::join(&row, '\t')
}

/// The status line of the decision.
pub fn control_line(action: Action, held: HeldKey, reason: ControlReason) -> (line: String)
    ensures
        line@ == "control: action="@ + seq![control::action_letter(action)] + " key="@ + input::key_name(held) + seq![
            ' ',
        ] + control::reason_text(reason),
{
    let mut line = text::copy("control: action=");
    line.push(action.letter());
    line.append(" key=");
    line.append(held.name());
    line.push(' ');
    let why = reason.name();
    line.append(why.as_str());
    assert(line@ =~= "control: action="@ + seq![control::action_letter(action)] + " key="@ + input::key_name(held)
        + seq![' '] + control::reason_text(reason));
    line
}

/// The status line of what is amiss.
pub fn status_line(reject_reason: &str) -> (line: String)
    ensures
        line@ == if reject_reason@.len() == 0 {
            "status: running"@
        } else {
            "status: "@ + reject_reason@
        },
{
    let chars = text::chars_of(reject_reason);
    if chars.len() == 0 {
        text::copy("status: running")
    } else {
        let mut line = text::copy("status: ");
        line.append(reject_reason);
        line
    }
}

/// What is amiss in the end: a throw is always reported, anything else only where nothing was amiss before.
pub open spec fn final_reject(before: Seq<char>, notice: Option<ControlReason>) -> Seq<char> {
    match notice {
        Some(n) => if n is Thrown || before.len() == 0 {
            control::reason_text(n)
        } else {
            before
        },
        None => before,
    }
}

/// What is amiss in the end.
pub fn settle_reject(before: &str, notice: Option<ControlReason>) -> (out: String)
    ensures
        out@ == final_reject(before@, notice),
{
    let chars = text::chars_of(before);
    match notice {
        Some(n) => {
            let thrown: bool = match n {
                ControlReason::Thrown => true,
                _ => false,
            };
            if thrown || chars.len() == 0 {
                n.name()
            } else {
                text::copy(before)
            }
        },
        None => text::copy(before),
    }
}

/// The cells of a row stand under the names of what they say.
pub proof fn lemma_cells_under_names(e: LogEntry)
    ensures
        ({
            let names = columns();
            let row = cells(e);
            let none = Seq::<char>::empty();
            &&& names.len() == 43 && row.len() == 43
            &&& names[0] == "frame"@ && row[0] == text::digits(e.frame as nat)
            &&& names[2] == "boot_det_x"@ && row[2] == (if e.boot_det is Some {
                text::decimal(e.boot_det->0.x as int)
            } else {
                none
            })
            &&& names[3] == "boot_det_y"@ && row[3] == (if e.boot_det is Some {
                text::decimal(e.boot_det->0.y as int)
            } else {
                none
            })
            &&& names[11] == "boot_lost"@ && row[11] == (if e.boot is Some {
                text::decimal(e.boot->0.lost_frames as int)
            } else {
                none
            })
            &&& names[12] == "cart_det_x"@ && names[13] == "cart_det_y"@
            &&& e.cart_det matches Some((x, y)) ==> row[12] == text::decimal(x as int) && row[13] == text::decimal(y as int)
            &&& e.cart_det is None ==> row[12] == none && row[13] == none
            &&& names[17] == "cart_lost"@ && row[17] == text::decimal(e.cart.lost_frames as int)
            &&& names[18] == "cart_candidate_count"@ && row[18] == text::digits(e.candidates@.len())
            &&& names[24] == "action"@ && row[24] == seq![control::action_letter(e.action)]
            &&& names[25] == "key"@ && row[25] == input::key_name(e.held)
            &&& names[26] == "control_reason"@ && row[26] == control::reason_text(e.reason)
            &&& names[27] == "reject_reason"@ && row[27] == e.reject_reason@
            &&& names[33] == "search_roi_count"@ && row[33] == text::digits(e.rois@.len())
            &&& names[34] == "search_roi_area"@ && row[34] == text::decimal(area(e.rois@))
            &&& names[42] == "log_ms"@ && row[42] == e.log_ms@
        }),
{
}

/// The area of two lists of parts one behind the other is the sum of both, and that of one part its columns times its
/// rows.
pub proof fn lemma_area(a: Seq<Roi>, b: Seq<Roi>, r: Roi)
    ensures
        area(a + b) == area(a) + area(b),
        area(seq![r]) == r.w * r.h,
    decreases b.len(),
{
    reveal_with_fuel(area, 2);
    assert(seq![r].last() == r);
    assert(seq![r].drop_last().len() == 0);
    if b.len() == 0 {
        assert(a + b =~= a);
    } else {
        lemma_area(a, b.drop_last(), r);
        assert((a + b).drop_last() =~= a + b.drop_last());
        assert((a + b).last() == b.last());
    }
}

/// A throw is always reported, another notice only where nothing was amiss before, and without a notice nothing changes.
pub proof fn lemma_final_reject(before: Seq<char>, n: ControlReason)
    ensures
        final_reject(before, None) == before,
        final_reject(before, Some(ControlReason::Thrown)) == "boot_on_cart_relaunch"@,
        before.len() == 0 ==> final_reject(before, Some(n)) == control::reason_text(n),
        before.len() > 0 && !(n is Thrown) ==> final_reject(before, Some(n)) == before,
{
}

} // verus!
