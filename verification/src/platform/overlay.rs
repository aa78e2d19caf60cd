//! The overlay: what it shows and where it draws.

use crate::platform::win32::WinRect;
use crate::text;
use vstd::prelude::*;
use vstd::string::*;

verus! {

/// The least width of the overlay.
pub const WIDTH: i32 = 420;

/// The least height of the overlay.
pub const HEIGHT: i32 = 150;

pub const FALLBACK_X: i32 = 30;

pub const FALLBACK_Y: i32 = 30;

pub const WM_HOTKEY: u32 = 0x0312;

pub const WM_DESTROY: u32 = 0x0002;

pub const WM_PAINT: u32 = 0x000f;

pub const WM_ERASEBKGND: u32 = 0x0014;

pub const WM_TIMER: u32 = 0x0113;

pub const HOTKEY_ID: usize = 1;

/// How many lines a tool may show.
pub const TOOL_LINES: usize = 4;

/// How many lines are shown in all: four that are always there, and those of the tool.
pub const SHOWN_LINES: usize = 8;

/// How many click markers are kept.
pub const KEPT_MARKERS: usize = 64;

/// A drawing in screen coordinates.
#[derive(Clone, Copy, Debug, PartialEq, Eq, Structural)]
pub enum OverlayPrimitive {
    Rect { x: i32, y: i32, w: i32, h: i32, color: u32 },
    Line { x0: i32, y0: i32, x1: i32, y1: i32, color: u32 },
    Cross { x: i32, y: i32, radius: i32, color: u32 },
}

/// A line in window coordinates.
#[derive(Clone, Copy, Debug, PartialEq, Eq, Structural)]
pub struct Segment {
    pub x0: i64,
    pub y0: i64,
    pub x1: i64,
    pub y1: i64,
    pub color: u32,
    pub width: i32,
}

/// A place on the screen that was clicked.
#[derive(Clone, Copy, Debug, PartialEq, Eq, Structural)]
pub struct ClickMarker {
    pub x: i32,
    pub y: i32,
}

/// The pen width of debug drawings.
pub const PEN: i32 = 3;

/// A line from `(x0, y0)` to `(x1, y1)`.
pub open spec fn segment(x0: int, y0: int, x1: int, y1: int, color: u32) -> Segment {
    Segment { x0: x0 as i64, y0: y0 as i64, x1: x1 as i64, y1: y1 as i64, color, width: PEN }
}

/// The lines that draw a primitive in a window whose upper left corner is at `(left, top)`: the four
/// sides of a rectangle in clockwise order, a line, or the two strokes of a cross.
pub open spec fn strokes(p: OverlayPrimitive, left: int, top: int) -> Seq<Segment> {
    match p {
        OverlayPrimitive::Rect { x, y, w, h, color } => {
            let a = x - left;
            let b = y - top;
            seq![
                segment(a, b, a + w, b, color),
                segment(a + w, b, a + w, b + h, color),
                segment(a + w, b + h, a, b + h, color),
                segment(a, b + h, a, b, color),
            ]
        },
        OverlayPrimitive::Line { x0, y0, x1, y1, color } => seq![
            segment(x0 - left, y0 - top, x1 - left, y1 - top, color),
        ],
        OverlayPrimitive::Cross { x, y, radius, color } => {
            let a = x - left;
            let b = y - top;
            seq![
                segment(a - radius, b, a + radius, b, color),
                segment(a, b - radius, a, b + radius, color),
            ]
        },
    }
}

fn make_segment(x0: i64, y0: i64, x1: i64, y1: i64, color: u32) -> (s: Segment)
    ensures
        s == segment(x0 as int, y0 as int, x1 as int, y1 as int, color),
{
    Segment { x0, y0, x1, y1, color, width: PEN }
}

/// The lines that draw a primitive in a window.
pub fn draw_primitive(primitive: &OverlayPrimitive, window: WinRect) -> (lines: Vec<Segment>)
    ensures
        lines@ == strokes(*primitive, window.left as int, window.top as int),
{
    let left: i64 = window.left as i64;
    let top: i64 = window.top as i64;
    let mut lines: Vec<Segment> = Vec::new();
    match *primitive {
        OverlayPrimitive::Rect { x, y, w, h, color } => {
            let a: i64 = x as i64 - left;
            let b: i64 = y as i64 - top;
            let w: i64 = w as i64;
            let h: i64 = h as i64;
            lines.push(make_segment(a, b, a + w, b, color));
            lines.push(make_segment(a + w, b, a + w, b + h, color));
            lines.push(make_segment(a + w, b + h, a, b + h, color));
            lines.push(make_segment(a, b + h, a, b, color));
        },
        OverlayPrimitive::Line { x0, y0, x1, y1, color } => {
            lines.push(make_segment(x0 as i64 - left, y0 as i64 - top, x1 as i64 - left, y1 as i64 - top, color));
        },
        OverlayPrimitive::Cross { x, y, radius, color } => {
            let a: i64 = x as i64 - left;
            let b: i64 = y as i64 - top;
            let r: i64 = radius as i64;
            lines.push(make_segment(a - r, b, a + r, b, color));
            lines.push(make_segment(a, b - r, a, b + r, color));
        },
    }
    assert(lines@ =~= strokes(*primitive, window.left as int, window.top as int));
    lines
}

/// The outline of a rectangle is closed: each side starts where the one before it ends.
pub proof fn lemma_outline_closed(p: OverlayPrimitive, left: i32, top: i32, i: int)
    requires
        p is Rect,
        0 <= i < 4,
    ensures
        ({
            let s = strokes(p, left as int, top as int);
            let next = s[(i + 1) % 4];
            s.len() == 4 && s[i].x1 == next.x0 && s[i].y1 == next.y0
        }),
{
}

/// The larger of two numbers.
pub open spec fn larger(a: int, b: int) -> int {
    if a > b {
        a
    } else {
        b
    }
}

fn larger_of(a: i32, b: i32) -> (m: i32)
    ensures
        m == larger(a as int, b as int),
{
    if a > b {
        a
    } else {
        b
    }
}

/// The width and height of a window fit into signed 32-bit numbers.
pub open spec fn measurable(w: WinRect) -> bool {
    i32::MIN <= w.right - w.left <= i32::MAX && i32::MIN <= w.bottom - w.top <= i32::MAX
}

/// The size that is painted: that of the window, where it is known, and at least the least size.
pub open spec fn painted(window: Option<WinRect>) -> (int, int) {
    match window {
        Some(w) => (larger(w.right - w.left, WIDTH as int), larger(w.bottom - w.top, HEIGHT as int)),
        None => (WIDTH as int, HEIGHT as int),
    }
}

/// The size that is painted.
pub fn paint_size(window: Option<WinRect>) -> (size: (i32, i32))
    requires
        window matches Some(w) ==> measurable(w),
    ensures
        (size.0 as int, size.1 as int) == painted(window),
{
    match window {
        Some(w) => (larger_of(w.right - w.left, WIDTH), larger_of(w.bottom - w.top, HEIGHT)),
        None => (WIDTH, HEIGHT),
    }
}

/// Where the overlay is placed: over the game window, where it is found, and at a fixed place
/// otherwise. The result is the corner and the size.
pub fn default_bounds(window: Option<WinRect>) -> (bounds: (i32, i32, i32, i32))
    requires
        window matches Some(w) ==> measurable(w),
    ensures
        (bounds.2 as int, bounds.3 as int) == painted(window),
        (bounds.0, bounds.1) == match window {
            Some(w) => (w.left, w.top),
            None => (FALLBACK_X, FALLBACK_Y),
        },
{
    let size = paint_size(window);
    match window {
        Some(w) => (w.left, w.top, size.0, size.1),
        None => (FALLBACK_X, FALLBACK_Y, size.0, size.1),
    }
}

/// A marker lies inside the painted area.
pub open spec fn marker_shown(m: ClickMarker, w: WinRect) -> bool {
    let size = painted(Some(w));
    0 <= m.x - w.left < size.0 && 0 <= m.y - w.top < size.1
}

/// The box of the disc that marks a click, by its left, top, right and bottom edges: where the
/// marker lies inside the painted area, eleven pixels wide and high around it.
pub fn marker_box(marker: ClickMarker, window: WinRect) -> (r: Option<(i64, i64, i64, i64)>)
    requires
        measurable(window),
    ensures
        r is Some <==> marker_shown(marker, window),
        r matches Some(b) ==> (b.0 as int, b.1 as int, b.2 as int, b.3 as int) == disc_box(marker, window),
{
    let size = paint_size(Some(window));
    let x: i64 = marker.x as i64 - window.left as i64;
    let y: i64 = marker.y as i64 - window.top as i64;
    if x >= 0 && y >= 0 && x < size.0 as i64 && y < size.1 as i64 {
        Some((x - 5, y - 5, x + 6, y + 6))
    } else {
        None
    }
}

/// Where line `index` of the text is drawn.
pub fn line_place(index: usize) -> (place: (i32, i32))
    requires
        index < SHOWN_LINES,
    ensures
        place.0 == 15,
        place.1 == 12 + 18 * index,
{
    (15, 12 + 18 * (index as i32))
}

/// What the overlay shows. Rates are kept as text with one decimal.
pub struct OverlayState {
    pub title: String,
    pub script_fps: Option<String>,
    pub target_fps: Option<String>,
    pub lines: Vec<String>,
    pub click_markers: Vec<ClickMarker>,
    pub debug_primitives: Vec<OverlayPrimitive>,
}

/// What the overlay shows, as values.
#[verifier::ext_equal]
pub struct OverlayView {
    pub title: Seq<char>,
    pub script_fps: Option<Seq<char>>,
    pub target_fps: Option<Seq<char>>,
    pub lines: Seq<Seq<char>>,
    pub click_markers: Seq<ClickMarker>,
    pub debug_primitives: Seq<OverlayPrimitive>,
}

/// The value of an optional text.
pub open spec fn text_view(t: Option<String>) -> Option<Seq<char>> {
    match t {
        Some(s) => Some(s@),
        None => None,
    }
}

impl View for OverlayState {
    type V = OverlayView;

    open spec fn view(&self) -> OverlayView {
        OverlayView {
            title: self.title@,
            script_fps: text_view(self.script_fps),
            target_fps: text_view(self.target_fps),
            lines: text::values(self.lines@),
            click_markers: self.click_markers@,
            debug_primitives: self.debug_primitives@,
        }
    }
}

impl OverlayView {
    /// At most four tool lines and at most 64 click markers are kept.
    pub open spec fn wf(self) -> bool {
        self.lines.len() <= TOOL_LINES && self.click_markers.len() <= KEPT_MARKERS
    }
}

/// The first `n` items.
pub open spec fn first<A>(s: Seq<A>, n: nat) -> Seq<A> {
    if s.len() <= n {
        s
    } else {
        s.take(n as int)
    }
}

/// The last `n` items.
pub open spec fn last<A>(s: Seq<A>, n: nat) -> Seq<A> {
    if s.len() <= n {
        s
    } else {
        s.skip(s.len() - n)
    }
}

/// The line that shows how fast the tool runs.
pub open spec fn rate_line(script_fps: Option<Seq<char>>, target_fps: Option<Seq<char>>) -> Seq<char> {
    match (script_fps, target_fps) {
        (Some(actual), Some(target)) => "Script FPS: "@ + actual + " / "@ + target,
        (Some(actual), None) => "Script FPS: "@ + actual,
        (None, Some(target)) => "Script FPS: - / "@ + target,
        (None, None) => "Script FPS: -"@,
    }
}

/// The line that shows the processor load.
pub open spec fn load_line(cpu: Seq<char>) -> Seq<char> {
    "CPU: "@ + cpu + "%"@
}

/// The lines that are always there: title, rate, load and the way to exit.
pub open spec fn fixed_lines(v: OverlayView, cpu: Seq<char>) -> Seq<Seq<char>> {
    seq![v.title, rate_line(v.script_fps, v.target_fps), load_line(cpu), "Press Ctrl + Shift + Q to exit"@]
}

/// All lines: the fixed ones, then those of the tool.
pub open spec fn shown_lines(v: OverlayView, cpu: Seq<char>) -> Seq<Seq<char>> {
    fixed_lines(v, cpu) + first(v.lines, TOOL_LINES as nat)
}

/// Every line that a tool hands in, up to the four it may show, is shown behind the fixed ones, in order. A
/// tool that hands in its status as the fourth line has it shown.
pub proof fn lemma_tool_lines_shown(v: OverlayView, given: Seq<Seq<char>>, cpu: Seq<char>)
    requires
        v.lines == first(given, TOOL_LINES as nat),
    ensures
        given.len() <= TOOL_LINES ==> shown_lines(v, cpu) == fixed_lines(v, cpu) + given,
        forall|i: int|
            0 <= i < given.len() && i < TOOL_LINES ==> shown_lines(v, cpu)[4 + i] == #[trigger] given[i],
{
}

/// The line that shows the processor load, given with one decimal.
pub fn cpu_line(cpu: &str) -> (line: String)
    ensures
        line@ == load_line(cpu@),
{
    let mut line = text::copy("CPU: ");
    line.append(cpu);
    line.append("%");
    line
}

impl OverlayState {
    /// An overlay that shows its title and nothing else.
    pub fn new(title: &str) -> (state: Self)
        ensures
            state@ == (OverlayView {
                title: title@,
                script_fps: None,
                target_fps: None,
                lines: Seq::empty(),
                click_markers: Seq::empty(),
                debug_primitives: Seq::empty(),
            }),
            state@.wf(),
    {
        let state = OverlayState {
            title: text::copy(title),
            script_fps: None,
            target_fps: None,
            lines: Vec::new(),
            click_markers: Vec::new(),
            debug_primitives: Vec::new(),
        };
        assert(state@ =~= OverlayView {
            title: title@,
            script_fps: None,
            target_fps: None,
            lines: Seq::empty(),
            click_markers: Seq::empty(),
            debug_primitives: Seq::empty(),
        });
        state
    }

    /// Changes the title.
    pub fn set_title(&mut self, title: &str)
        ensures
            final(self)@ == (OverlayView { title: title@, ..old(self)@ }),
    {
        self.title = text::copy(title);
    }

    /// Sets the rate that the tool aims for.
    pub fn set_target_fps(&mut self, fps: String)
        ensures
            final(self)@ == (OverlayView { target_fps: Some(fps@), ..old(self)@ }),
    {
        self.target_fps = Some(fps);
    }

    /// Shows the first four of some lines.
    pub fn set_lines(&mut self, lines: Vec<String>)
        ensures
            final(self)@ == (OverlayView { lines: first(text::values(lines@), TOOL_LINES as nat), ..old(self)@ }),
            old(self)@.wf() ==> final(self)@.wf(),
    {
        let ghost given = lines@;
        let mut kept = lines;
        if kept.len() > TOOL_LINES {
            kept.truncate(TOOL_LINES);
        }
        self.lines = kept;
        assert(self@.lines =~= first(text::values(given), TOOL_LINES as nat));
    }

    /// Shows both rates and the first four of some lines.
    pub fn update(&mut self, script_fps: String, target_fps: String, lines: Vec<String>)
        ensures
            final(self)@ == (OverlayView {
                script_fps: Some(script_fps@),
                target_fps: Some(target_fps@),
                lines: first(text::values(lines@), TOOL_LINES as nat),
                ..old(self)@
            }),
            old(self)@.wf() ==> final(self)@.wf(),
    {
        self.script_fps = Some(script_fps);
        self.target_fps = Some(target_fps);
        self.set_lines(lines);
    }

    /// Marks a click. The last 64 are kept.
    pub fn mark_click(&mut self, x: i32, y: i32)
        ensures
            final(self)@ == (OverlayView {
                click_markers: last(old(self)@.click_markers.push(ClickMarker { x, y }), KEPT_MARKERS as nat),
                ..old(self)@
            }),
            old(self)@.wf() ==> final(self)@.wf(),
            final(self)@.click_markers.len() > 0,
            final(self)@.click_markers.last() == (ClickMarker { x, y }),
            old(self)@.click_markers.len() < 64 ==> final(self)@.click_markers == old(self)@.click_markers.push(
                ClickMarker { x, y },
            ),
    {
        let ghost all = self@.click_markers.push(ClickMarker { x, y });
        self.click_markers.push(ClickMarker { x, y });
        if self.click_markers.len() > KEPT_MARKERS {
            let excess: usize = self.click_markers.len() - KEPT_MARKERS;
            let mut kept: Vec<ClickMarker> = Vec::new();
            let mut i: usize = excess;
            while i < self.click_markers.len()
                invariant
                    excess <= i <= self.click_markers.len(),
                    kept@ == self.click_markers@.subrange(excess as int, i as int),
                decreases self.click_markers.len() - i,
            {
                kept.push(self.click_markers[i]);
                i = i + 1;
                assert(kept@ =~= self.click_markers@.subrange(excess as int, i as int));
            }
            assert(kept@ =~= last(all, KEPT_MARKERS as nat));
            self.click_markers = kept;
        }
    }

    /// Replaces the debug drawings.
    pub fn set_debug_primitives(&mut self, primitives: Vec<OverlayPrimitive>)
        ensures
            final(self)@ == (OverlayView { debug_primitives: primitives@, ..old(self)@ }),
    {
        self.debug_primitives = primitives;
    }

    /// The lines that are shown, for a processor load given with one decimal.
    pub fn telemetry_lines(&self, cpu: &str) -> (lines: Vec<String>)
        ensures
            text::values(lines@) == shown_lines(self@, cpu@),
            self@.wf() ==> text::values(lines@) == fixed_lines(self@, cpu@) + self@.lines,
            lines.len() <= SHOWN_LINES,
    {
        let mut rate = String::new();
        match (&self.script_fps, &self.target_fps) {
            (Some(actual), Some(target)) => {
                rate.append("Script FPS: ");
                rate.append(actual.as_str());
                rate.append(" / ");
                rate.append(target.as_str());
            },
            (Some(actual), None) => {
                rate.append("Script FPS: ");
                rate.append(actual.as_str());
            },
            (None, Some(target)) => {
                rate.append("Script FPS: - / ");
                rate.append(target.as_str());
            },
            (None, None) => {
                rate.append("Script FPS: -");
            },
        }
        assert(rate@ =~= rate_line(self@.script_fps, self@.target_fps));
        let ghost head = fixed_lines(self@, cpu@);
        let ghost all = head + self@.lines;
        let mut lines: Vec<String> = Vec::new();
        lines.push(text::copy(self.title.as_str()));
        lines.push(rate);
        lines.push(cpu_line(cpu));
        lines.push(text::copy("Press Ctrl + Shift + Q to exit"));
        assert(text::values(lines@) =~= all.take(4));
        let mut i: usize = 0;
        while i < self.lines.len() && i < TOOL_LINES
            invariant
                i <= self.lines.len(),
                i <= TOOL_LINES,
                lines.len() == 4 + i,
                head.len() == 4,
                all == head + self@.lines,
                text::values(lines@) == all.take(4 + i),
            decreases self.lines.len() - i,
        {
            let ghost before = lines@;
            let line = text::copy(self.lines[i].as_str());
            lines.push(line);
            assert(text::values(lines@) =~= text::values(before).push(line@));
            assert(all[4 + i] == line@);
            assert(all.take(5 + i) =~= all.take(4 + i).push(all[4 + i]));
            i = i + 1;
        }
        assert(text::values(lines@) =~= head + first(self@.lines, TOOL_LINES as nat));
        lines
    }
}

/// The lines that draw some primitives, one after the other.
pub open spec fn all_strokes(ps: Seq<OverlayPrimitive>, left: int, top: int) -> Seq<Segment>
    decreases ps.len(),
{
    if ps.len() == 0 {
        Seq::empty()
    } else {
        all_strokes(ps.drop_last(), left, top) + strokes(ps.last(), left, top)
    }
}

/// The box of a disc by its left, top, right and bottom edges.
pub open spec fn disc_box(m: ClickMarker, w: WinRect) -> (int, int, int, int) {
    (m.x - w.left - 5, m.y - w.top - 5, m.x - w.left + 6, m.y - w.top + 6)
}

/// The boxes of the discs of the markers that lie inside the painted area.
pub open spec fn disc_boxes(ms: Seq<ClickMarker>, w: WinRect) -> Seq<(int, int, int, int)>
    decreases ms.len(),
{
    if ms.len() == 0 {
        Seq::empty()
    } else {
        let before = disc_boxes(ms.drop_last(), w);
        if marker_shown(ms.last(), w) {
            before.push(disc_box(ms.last(), w))
        } else {
            before
        }
    }
}

/// What one repaint draws on a cleared area of this size: text lines, lines and discs.
pub struct PaintPlan {
    pub width: i32,
    pub height: i32,
    pub lines: Vec<String>,
    pub segments: Vec<Segment>,
    pub discs: Vec<(i64, i64, i64, i64)>,
}

/// The edges of some boxes.
pub open spec fn edges(boxes: Seq<(i64, i64, i64, i64)>) -> Seq<(int, int, int, int)> {
    boxes.map_values(|b: (i64, i64, i64, i64)| (b.0 as int, b.1 as int, b.2 as int, b.3 as int))
}

impl OverlayState {
    /// What a repaint draws. Debug drawings and click markers appear only where the window's place
    /// is known.
    pub fn paint(&self, cpu: &str, window: Option<WinRect>) -> (plan: PaintPlan)
        requires
            window matches Some(w) ==> measurable(w),
        ensures
            (plan.width as int, plan.height as int) == painted(window),
            text::values(plan.lines@) == shown_lines(self@, cpu@),
            self@.wf() ==> text::values(plan.lines@) == fixed_lines(self@, cpu@) + self@.lines,
            plan.lines.len() <= SHOWN_LINES,
            plan.segments@ == match window {
                Some(w) => all_strokes(self@.debug_primitives, w.left as int, w.top as int),
                None => Seq::empty(),
            },
            edges(plan.discs@) == match window {
                Some(w) => disc_boxes(self@.click_markers, w),
                None => Seq::empty(),
            },
    {
        let size = paint_size(window);
        let lines = self.telemetry_lines(cpu);
        let mut segments: Vec<Segment> = Vec::new();
        let mut discs: Vec<(i64, i64, i64, i64)> = Vec::new();
        assert(edges(discs@) =~= Seq::empty());
        if let Some(w) = window {
            let ghost ps = self@.debug_primitives;
            let ghost ms = self@.click_markers;
            let mut i: usize = 0;
            assert(ps.take(0).len() == 0);
            while i < self.debug_primitives.len()
                invariant
                    i <= self.debug_primitives.len(),
                    ps == self.debug_primitives@,
                    segments@ == all_strokes(ps.take(i as int), w.left as int, w.top as int),
                decreases self.debug_primitives.len() - i,
            {
                let ghost before = segments@;
                let mut more = draw_primitive(&self.debug_primitives[i], w);
                segments.append(&mut more);
                assert(ps.take(i + 1).drop_last() =~= ps.take(i as int));
                assert(segments@ =~= before + strokes(ps[i as int], w.left as int, w.top as int));
                i = i + 1;
            }
            assert(ps.take(i as int) =~= ps);
            let mut j: usize = 0;
            assert(ms.take(0).len() == 0);
            while j < self.click_markers.len()
                invariant
                    j <= self.click_markers.len(),
                    measurable(w),
                    ms == self.click_markers@,
                    edges(discs@) == disc_boxes(ms.take(j as int), w),
                decreases self.click_markers.len() - j,
            {
                let ghost before = discs@;
                assert(ms.take(j + 1).drop_last() =~= ms.take(j as int));
                if let Some(b) = marker_box(self.click_markers[j], w) {
                    discs.push(b);
                    assert(edges(discs@) =~= edges(before).push(disc_box(ms[j as int], w)));
                }
                j = j + 1;
            }
            assert(ms.take(j as int) =~= ms);
        }
        PaintPlan { width: size.0, height: size.1, lines, segments, discs }
    }
}

/// What the overlay window does with a message.
#[derive(Clone, Copy, Debug, PartialEq, Eq, Structural)]
pub enum WindowAction {
    /// Measure the processor load and ask for a repaint.
    Refresh,
    /// Ask the tool to stop and close the window.
    StopAndClose,
    /// Nothing, but the message is handled.
    Ignore,
    /// Paint the overlay.
    Paint,
    /// The background needs no erasing.
    SkipErase,
    /// Ask the tool to stop and end the message loop.
    StopAndQuit,
    /// Leave the message to the system.
    Default,
}

/// What the overlay window does with a message.
pub open spec fn reaction(message: u32, wparam: usize) -> WindowAction {
    if message == WM_TIMER {
        WindowAction::Refresh
    } else if message == WM_HOTKEY {
        if wparam == HOTKEY_ID {
            WindowAction::StopAndClose
        } else {
            WindowAction::Ignore
        }
    } else if message == WM_PAINT {
        WindowAction::Paint
    } else if message == WM_ERASEBKGND {
        WindowAction::SkipErase
    } else if message == WM_DESTROY {
        WindowAction::StopAndQuit
    } else {
        WindowAction::Default
    }
}

/// What the overlay window does with a message.
pub fn react(message: u32, wparam: usize) -> (action: WindowAction)
    ensures
        action == reaction(message, wparam),
{
    match message {
        WM_TIMER => WindowAction::Refresh,
        WM_HOTKEY => {
            if wparam == HOTKEY_ID {
                WindowAction::StopAndClose
            } else {
                WindowAction::Ignore
            }
        },
        WM_PAINT => WindowAction::Paint,
        WM_ERASEBKGND => WindowAction::SkipErase,
        WM_DESTROY => WindowAction::StopAndQuit,
        _ => WindowAction::Default,
    }
}

/// The tool is asked to stop exactly by its hot key and by the end of the window.
pub proof fn lemma_stop_requests(message: u32, wparam: usize)
    ensures
        (reaction(message, wparam) is StopAndClose || reaction(message, wparam) is StopAndQuit) <==> ((message
            == WM_HOTKEY && wparam == HOTKEY_ID) || message == WM_DESTROY),
{
}

/// A point in time in two halves.
#[derive(Clone, Copy, Debug, PartialEq, Eq, Structural, Default)]
pub struct FileTime {
    pub dw_low_date_time: u32,
    pub dw_high_date_time: u32,
}

/// The two halves as one number.
pub fn filetime_to_u64(time: FileTime) -> (t: u64)
    ensures
        t == time.dw_high_date_time * 0x1_0000_0000 + time.dw_low_date_time,
{
    (time.dw_high_date_time as u64) * 0x1_0000_0000 + time.dw_low_date_time as u64
}

/// How long the processors have been idle, in the kernel (idle time is counted there too) and in
/// programs.
#[derive(Clone, Copy, Debug, PartialEq, Eq, Structural)]
pub struct CpuTimes {
    pub idle: u64,
    pub kernel: u64,
    pub user: u64,
}

/// Measures the processor load.
#[derive(Clone, Copy, Debug, PartialEq, Eq, Structural)]
pub struct CpuMeter {
    pub frequency: i64,
    pub last_update: i64,
    pub previous: CpuTimes,
    /// Busy time and total time of the last measurement that saw time pass.
    pub busy: u128,
    pub total: u128,
}

/// The most ticks per second for which a quarter of a second is told exactly.
pub const MOST_TICKS: i64 = 0x20_0000_0000_0000;

/// What `a` is more than `b`.
pub open spec fn excess(a: int, b: int) -> int {
    if a > b {
        a - b
    } else {
        0
    }
}

/// Busy and total time between two readings.
pub open spec fn load_between(before: CpuTimes, now: CpuTimes) -> (int, int) {
    let total = excess(now.kernel as int, before.kernel as int) + excess(now.user as int, before.user as int);
    (excess(total, excess(now.idle as int, before.idle as int)), total)
}

impl CpuMeter {
    /// The clock has a rate, and there is no more busy time than time.
    pub open spec fn wf(self) -> bool {
        0 < self.frequency <= MOST_TICKS && self.busy <= self.total
    }

    /// A quarter of a second has passed since the last measurement.
    pub open spec fn due_at(self, now: int) -> bool {
        4 * (now - self.last_update) >= self.frequency
    }

    /// A meter that has measured nothing yet.
    pub fn new(frequency: i64, now: i64, times: CpuTimes) -> (m: Self)
        requires
            0 < frequency <= MOST_TICKS,
        ensures
            m == (CpuMeter { frequency, last_update: now, previous: times, busy: 0, total: 0 }),
            m.wf(),
    {
        CpuMeter { frequency, last_update: now, previous: times, busy: 0, total: 0 }
    }

    /// Is a measurement due? Then `update` takes it.
    pub fn due(&self, now: i64) -> (yes: bool)
        requires
            self.wf(),
        ensures
            yes == self.due_at(now as int),
    {
        let passed: i128 = now as i128 - self.last_update as i128;
        4 * passed >= self.frequency as i128
    }

    /// Takes a measurement that is due. Where the times could not be read, or none has passed, the
    /// load stays what it was.
    pub fn update(&mut self, now: i64, times: Option<CpuTimes>)
        requires
            old(self).wf(),
            old(self).due_at(now as int),
        ensures
            final(self).wf(),
            final(self).frequency == old(self).frequency,
            final(self).last_update == now,
            match times {
                None => {
                    &&& final(self).previous == old(self).previous
                    &&& final(self).busy == old(self).busy
                    &&& final(self).total == old(self).total
                },
                Some(t) => {
                    let load = load_between(old(self).previous, t);
                    &&& final(self).previous == t
                    &&& load.1 > 0 ==> final(self).busy == load.0 && final(self).total == load.1
                    &&& load.1 == 0 ==> final(self).busy == old(self).busy && final(self).total == old(self).total
                },
            },
    {
        self.last_update = now;
        match times {
            None => {},
            Some(t) => {
                let idle: u64 = t.idle.saturating_sub(self.previous.idle);
                let kernel: u64 = t.kernel.saturating_sub(self.previous.kernel);
                let user: u64 = t.user.saturating_sub(self.previous.user);
                self.previous = t;
                let total: u128 = kernel as u128 + user as u128;
                if total > 0 {
                    self.busy = total.saturating_sub(idle as u128);
                    self.total = total;
                }
            },
        }
    }
}

/// The code units of one character in UTF-16.
pub open spec fn utf16_units(c: char) -> Seq<u16> {
    let code = c as u32 as int;
    if code < 0x1_0000 {
        seq![code as u16]
    } else {
        seq![(0xd800 + (code - 0x1_0000) / 0x400) as u16, (0xdc00 + (code - 0x1_0000) % 0x400) as u16]
    }
}

/// A text in UTF-16.
pub open spec fn utf16(s: Seq<char>) -> Seq<u16>
    decreases s.len(),
{
    if s.len() == 0 {
        Seq::empty()
    } else {
        utf16(s.drop_last()) + utf16_units(s.last())
    }
}

/// A text in UTF-16.
pub fn encode(s: &str) -> (out: Vec<u16>)
    ensures
        out@ == utf16(s@),
{
    let chars = text::chars_of(s);
    let mut out: Vec<u16> = Vec::new();
    let mut i: usize = 0;
    assert(s@.take(0).len() == 0);
    while i < chars.len()
        invariant
            i <= chars.len(),
            chars@ == s@,
            out@ == utf16(s@.take(i as int)),
        decreases chars.len() - i,
    {
        let code: u32 = chars[i] as u32;
        let ghost before = out@;
        if code < 0x1_0000 {
            out.push(code as u16);
        } else {
            let above: u32 = code - 0x1_0000;
            out.push((0xd800 + above / 0x400) as u16);
            out.push((0xdc00 + above % 0x400) as u16);
        }
        proof {
            assert(s@.take(i + 1).drop_last() =~= s@.take(i as int));
            assert(out@ =~= before + utf16_units(s@[i as int]));
        }
        i = i + 1;
    }
    assert(s@.take(i as int) =~= s@);
    out
}

/// A text in UTF-16, with a zero at the end.
pub fn wide(s: &str) -> (out: Vec<u16>)
    ensures
        out@ == utf16(s@).push(0),
{
    let mut out = encode(s);
    out.push(0);
    out
}

/// A drawing moved on the screen.
pub open spec fn drawing_moved(p: OverlayPrimitive, dx: int, dy: int) -> OverlayPrimitive {
    match p {
        OverlayPrimitive::Rect { x, y, w, h, color } => OverlayPrimitive::Rect {
            x: (x + dx) as i32,
            y: (y + dy) as i32,
            w,
            h,
            color,
        },
        OverlayPrimitive::Line { x0, y0, x1, y1, color } => OverlayPrimitive::Line {
            x0: (x0 + dx) as i32,
            y0: (y0 + dy) as i32,
            x1: (x1 + dx) as i32,
            y1: (y1 + dy) as i32,
            color,
        },
        OverlayPrimitive::Cross { x, y, radius, color } => OverlayPrimitive::Cross {
            x: (x + dx) as i32,
            y: (y + dy) as i32,
            radius,
            color,
        },
    }
}

/// The place of a drawing stays within 32 bits when it is moved.
pub open spec fn drawing_movable(p: OverlayPrimitive, dx: int, dy: int) -> bool {
    match p {
        OverlayPrimitive::Rect { x, y, .. } => i32::MIN <= x + dx <= i32::MAX && i32::MIN <= y + dy <= i32::MAX,
        OverlayPrimitive::Line { x0, y0, x1, y1, .. } => i32::MIN <= x0 + dx <= i32::MAX && i32::MIN <= y0 + dy <= i32::MAX
            && i32::MIN <= x1 + dx <= i32::MAX && i32::MIN <= y1 + dy <= i32::MAX,
        OverlayPrimitive::Cross { x, y, .. } => i32::MIN <= x + dx <= i32::MAX && i32::MIN <= y + dy <= i32::MAX,
    }
}

/// A window that moves with what it shows shows it at the same place.
pub proof fn lemma_strokes_moved(p: OverlayPrimitive, left: i32, top: i32, dx: int, dy: int)
    requires
        drawing_movable(p, dx, dy),
    ensures
        strokes(drawing_moved(p, dx, dy), left + dx, top + dy) == strokes(p, left as int, top as int),
{
    assert(strokes(drawing_moved(p, dx, dy), left + dx, top + dy) =~= strokes(p, left as int, top as int));
}

/// Drawings are drawn three pixels wide in their colour, seen from the corner of the window: a rectangle from its corner
/// to the opposite one and back, a line from end to end, and a cross with its middle at its place and strokes of
/// twice its radius, one level and one upright.
pub proof fn lemma_strokes(p: OverlayPrimitive, left: i32, top: i32)
    ensures
        ({
            let s = strokes(p, left as int, top as int);
            &&& forall|i: int| 0 <= i < s.len() ==> (#[trigger] s[i]).width == 3
            &&& p matches OverlayPrimitive::Rect { x, y, w, h, color } ==> {
                &&& s.len() == 4
                &&& forall|i: int| 0 <= i < 4 ==> (#[trigger] s[i]).color == color
                &&& s[0].x0 + left == x && s[0].y0 + top == y
                &&& s[2].x0 - s[0].x0 == w && s[2].y0 - s[0].y0 == h
                &&& s[0].y0 == s[0].y1 && s[1].x0 == s[1].x1 && s[2].y0 == s[2].y1 && s[3].x0 == s[3].x1
            }
            &&& p matches OverlayPrimitive::Line { x0, y0, x1, y1, color } ==> {
                &&& s.len() == 1 && s[0].color == color
                &&& s[0].x0 + left == x0 && s[0].y0 + top == y0
                &&& s[0].x1 + left == x1 && s[0].y1 + top == y1
            }
            &&& p matches OverlayPrimitive::Cross { x, y, radius, color } ==> {
                &&& s.len() == 2 && s[0].color == color && s[1].color == color
                &&& s[0].y0 == s[0].y1 && s[0].y0 + top == y
                &&& s[1].x0 == s[1].x1 && s[1].x0 + left == x
                &&& s[0].x0 + s[0].x1 == 2 * (x - left) && s[1].y0 + s[1].y1 == 2 * (y - top)
                &&& s[0].x1 - s[0].x0 == 2 * radius && s[1].y1 - s[1].y0 == 2 * radius
            }
        }),
{
}

/// The drawings of two lists one behind the other are drawn one after the other.
pub proof fn lemma_all_strokes(a: Seq<OverlayPrimitive>, b: Seq<OverlayPrimitive>, p: OverlayPrimitive, left: int, top: int)
    ensures
        all_strokes(a + b, left, top) == all_strokes(a, left, top) + all_strokes(b, left, top),
        all_strokes(seq![p], left, top) == strokes(p, left, top),
    decreases b.len(),
{
    reveal_with_fuel(all_strokes, 2);
    assert(seq![p].drop_last() =~= Seq::empty());
    assert(seq![p].last() == p);
    assert(all_strokes(seq![p], left, top) =~= strokes(p, left, top));
    if b.len() == 0 {
        assert(a + b =~= a);
        assert(all_strokes(a, left, top) + all_strokes(b, left, top) =~= all_strokes(a, left, top));
    } else {
        lemma_all_strokes(a, b.drop_last(), p, left, top);
        assert((a + b).drop_last() =~= a + b.drop_last());
        assert((a + b).last() == b.last());
        assert(all_strokes(a + b, left, top) =~= all_strokes(a, left, top) + all_strokes(b, left, top));
    }
}

/// The disc of a click is eleven pixels wide and high with the click in its middle, wherever the window lies.
pub proof fn lemma_disc(m: ClickMarker, w: WinRect)
    ensures
        ({
            let b = disc_box(m, w);
            &&& b.2 - b.0 == 11 && b.3 - b.1 == 11
            &&& b.0 + (b.2 - 1) == 2 * (m.x - w.left)
            &&& b.1 + (b.3 - 1) == 2 * (m.y - w.top)
        }),
{
}

/// Exactly the clicks in the painted area have a disc, in their order.
pub proof fn lemma_disc_boxes(a: Seq<ClickMarker>, b: Seq<ClickMarker>, m: ClickMarker, w: WinRect)
    ensures
        disc_boxes(a + b, w) == disc_boxes(a, w) + disc_boxes(b, w),
        ({
            let wide = if w.right - w.left > 420 {
                w.right - w.left
            } else {
                420
            };
            let high = if w.bottom - w.top > 150 {
                w.bottom - w.top
            } else {
                150
            };
            disc_boxes(seq![m], w) == (if w.left <= m.x < w.left + wide && w.top <= m.y < w.top + high {
                seq![disc_box(m, w)]
            } else {
                Seq::empty()
            })
        }),
    decreases b.len(),
{
    reveal_with_fuel(disc_boxes, 2);
    assert(seq![m].drop_last() =~= Seq::empty());
    assert(seq![m].last() == m);
    assert(disc_boxes(seq![m], w) =~= if marker_shown(m, w) {
        seq![disc_box(m, w)]
    } else {
        Seq::empty()
    });
    if b.len() == 0 {
        assert(a + b =~= a);
        assert(disc_boxes(a, w) + disc_boxes(b, w) =~= disc_boxes(a, w));
    } else {
        lemma_disc_boxes(a, b.drop_last(), m, w);
        assert((a + b).drop_last() =~= a + b.drop_last());
        assert((a + b).last() == b.last());
        assert(disc_boxes(a + b, w) =~= disc_boxes(a, w) + disc_boxes(b, w));
    }
}

/// The painted area is as large as the window and never smaller than 420 by 150.
pub proof fn lemma_painted(w: WinRect)
    ensures
        painted(None) == (420int, 150int),
        painted(Some(w)).0 >= 420 && painted(Some(w)).0 >= w.right - w.left,
        painted(Some(w)).1 >= 150 && painted(Some(w)).1 >= w.bottom - w.top,
        painted(Some(w)).0 == 420 || painted(Some(w)).0 == w.right - w.left,
        painted(Some(w)).1 == 150 || painted(Some(w)).1 == w.bottom - w.top,
{
}

/// The first items are a beginning of the list and the last ones an end of it, as many as asked for where there are so
/// many.
pub proof fn lemma_first_last<A>(s: Seq<A>, n: nat, x: A)
    ensures
        first(s, n).len() <= n && last(s, n).len() <= n,
        s.len() >= n ==> first(s, n).len() == n && last(s, n).len() == n,
        s.len() <= n ==> first(s, n) == s && last(s, n) == s,
        forall|i: int| 0 <= i < first(s, n).len() ==> #[trigger] first(s, n)[i] == s[i],
        forall|i: int| 0 <= i < last(s, n).len() ==> #[trigger] last(s, n)[i] == s[s.len() - last(s, n).len() + i],
        n > 0 ==> last(s.push(x), n).last() == x,
        last(last(s, n).push(x), n) == last(s.push(x), n),
{
    assert(last(last(s, n).push(x), n) =~= last(s.push(x), n));
}

/// The load lies between nothing and everything: nothing where all the time was idle, everything where none was. More
/// idle time never makes it more.
pub proof fn lemma_load(before: CpuTimes, now: CpuTimes, idle: u64)
    ensures
        0 <= load_between(before, now).0 <= load_between(before, now).1,
        now.idle <= before.idle ==> load_between(before, now).0 == load_between(before, now).1,
        now.idle - before.idle >= load_between(before, now).1 ==> load_between(before, now).0 == 0,
        now.idle <= idle ==> load_between(before, CpuTimes { idle, ..now }).0 <= load_between(before, now).0,
        before.idle <= now.idle && before.kernel <= now.kernel && before.user <= now.user ==> load_between(before, now).1 == (
        now.kernel + now.user) - (before.kernel + before.user),
        before.idle <= now.idle && before.kernel <= now.kernel && before.user <= now.user && now.idle - before.idle <= now.kernel
            - before.kernel ==> load_between(before, now).0 == (now.kernel - before.kernel) - (now.idle - before.idle) + (now.user
            - before.user),
{
}

/// Of two texts one behind the other the code units follow each other; a character has one unit, its own code, up to
/// 0xffff, and two surrogates beyond, from which its code can be told.
pub proof fn lemma_utf16(a: Seq<char>, b: Seq<char>, c: char)
    ensures
        utf16(a + b) == utf16(a) + utf16(b),
        utf16(seq![c]) == utf16_units(c),
        c as u32 <= 0xffff ==> utf16_units(c).len() == 1 && utf16_units(c)[0] == c as u32,
        c as u32 > 0xffff ==> {
            let u = utf16_units(c);
            &&& u.len() == 2
            &&& 0xd800 <= u[0] <= 0xdbff
            &&& 0xdc00 <= u[1] <= 0xdfff
            &&& c as u32 == 0x1_0000 + (u[0] - 0xd800) * 0x400 + (u[1] - 0xdc00)
        },
    decreases b.len(),
{
    reveal_with_fuel(utf16, 2);
    assert(seq![c].drop_last() =~= Seq::empty());
    assert(seq![c].last() == c);
    assert(utf16(seq![c]) =~= utf16_units(c));
    if b.len() == 0 {
        assert(a + b =~= a);
        assert(utf16(a) + utf16(b) =~= utf16(a));
    } else {
        lemma_utf16(a, b.drop_last(), c);
        assert((a + b).drop_last() =~= a + b.drop_last());
        assert((a + b).last() == b.last());
        assert(utf16(a + b) =~= utf16(a) + utf16(b));
    }
}

/// The rate line shows the measured rate and behind it, where there is one, the rate that is aimed for; a rate that is not
/// known yet is shown as a dash. The load line shows the load in percent.
pub proof fn lemma_rate_line(actual: Seq<char>, target: Seq<char>)
    ensures
        rate_line(Some(actual), None).is_prefix_of(rate_line(Some(actual), Some(target))),
        rate_line(Some(actual), None).len() == 12 + actual.len(),
        rate_line(Some(actual), None).skip(12) == actual,
        rate_line(None, None) == rate_line(Some(seq!['-']), None),
        rate_line(None, Some(target)) == rate_line(Some(seq!['-']), Some(target)),
        rate_line(Some(actual), Some(target)).len() == 15 + actual.len() + target.len(),
        rate_line(Some(actual), Some(target)).skip(15 + actual.len() as int) == target,
        load_line(actual).len() == 6 + actual.len(),
        load_line(actual).subrange(5, 5 + actual.len() as int) == actual,
{
    reveal_strlit("Script FPS: ");
    reveal_strlit(" / ");
    reveal_strlit("Script FPS: - / ");
    reveal_strlit("Script FPS: -");
    reveal_strlit("CPU: ");
    reveal_strlit("%");
    assert(rate_line(Some(actual), None).skip(12) =~= actual);
    assert(rate_line(None, None) =~= rate_line(Some(seq!['-']), None));
    assert(rate_line(None, Some(target)) =~= rate_line(Some(seq!['-']), Some(target)));
    assert(rate_line(Some(actual), Some(target)).skip(15 + actual.len() as int) =~= target);
    assert(load_line(actual).subrange(5, 5 + actual.len() as int) =~= actual);
}

} // verus!
