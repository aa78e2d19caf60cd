//! What is drawn to show the tool at work: on the overlay and into saved frames.

use crate::pixels;
use crate::platform::overlay::OverlayPrimitive;
use crate::platform::win32::Rect;
use crate::text;
use crate::tools::boot_breaker::control::Action;
use crate::tools::boot_breaker::motion::{Detection, Roi};
use crate::tools::boot_breaker::paint;
use vstd::prelude::*;
use vstd::string::*;

verus! {

/// A place and the place it is heading for.
#[derive(Clone, Copy, Debug, PartialEq, Eq, Structural)]
pub struct Heading {
    pub x: i32,
    pub y: i32,
    pub to_x: i32,
    pub to_y: i32,
}

/// What is drawn of a frame.
pub struct Scene {
    pub width: i32,
    pub height: i32,
    /// The whole search area, and the parts of it that were searched.
    pub base: Roi,
    pub searched: Vec<Roi>,
    /// The row of the cart.
    pub line_y: i32,
    /// The boot and the cart that were seen in this frame.
    pub boot_det: Option<Detection>,
    pub cart_det: Option<(i32, i32)>,
    /// The tracked boot and cart.
    pub boot: Option<Heading>,
    pub cart: Heading,
    pub target: Option<i32>,
    pub action: Action,
    /// Something is amiss.
    pub rejected: bool,
}

/// A colour as one number: red in the lowest byte, then green and blue.
pub open spec fn rgb_value(r: u8, g: u8, b: u8) -> u32 {
    (r + 0x100 * g + 0x1_0000 * b) as u32
}

/// A colour as one number: red in the lowest byte, then green and blue.
pub fn rgb(r: u8, g: u8, b: u8) -> (c: u32)
    ensures
        c == rgb_value(r, g, b),
{
    r as u32 + 0x100 * (g as u32) + 0x1_0000 * (b as u32)
}

/// The sum of two numbers, as far as 32-bit numbers go.
pub open spec fn shifted(a: int, b: int) -> i32 {
    if a + b > i32::MAX {
        i32::MAX
    } else if a + b < i32::MIN {
        i32::MIN
    } else {
        (a + b) as i32
    }
}

fn shift(a: i32, b: i32) -> (c: i32)
    ensures
        c == shifted(a as int, b as int),
{
    let sum: i64 = a as i64 + b as i64;
    if sum > 0x7fff_ffff {
        i32::MAX
    } else if sum < -0x8000_0000 {
        i32::MIN
    } else {
        sum as i32
    }
}

/// A rectangle of the frame, on the screen.
pub open spec fn screen_rect(screen: Rect, r: Roi, color: u32) -> OverlayPrimitive {
    OverlayPrimitive::Rect {
        x: shifted(screen.left as int, r.x as int),
        y: shifted(screen.top as int, r.y as int),
        w: r.w,
        h: r.h,
        color,
    }
}

/// A line of the frame, on the screen.
pub open spec fn screen_line(screen: Rect, x0: i32, y0: i32, x1: i32, y1: i32, color: u32) -> OverlayPrimitive {
    OverlayPrimitive::Line {
        x0: shifted(screen.left as int, x0 as int),
        y0: shifted(screen.top as int, y0 as int),
        x1: shifted(screen.left as int, x1 as int),
        y1: shifted(screen.top as int, y1 as int),
        color,
    }
}

/// A cross of the frame, on the screen.
pub open spec fn screen_cross(screen: Rect, x: i32, y: i32, radius: i32, color: u32) -> OverlayPrimitive {
    OverlayPrimitive::Cross {
        x: shifted(screen.left as int, x as int),
        y: shifted(screen.top as int, y as int),
        radius,
        color,
    }
}

/// Adds a rectangle of the frame.
pub fn push_rect(items: &mut Vec<OverlayPrimitive>, screen: Rect, rect: Roi, color: u32)
    ensures
        final(items)@ == old(items)@.push(screen_rect(screen, rect, color)),
{
    items.push(
        OverlayPrimitive::Rect {
            x: shift(screen.left, rect.x),
            y: shift(screen.top, rect.y),
            w: rect.w,
            h: rect.h,
            color,
        },
    );
}

/// Adds a line of the frame.
pub fn push_line(items: &mut Vec<OverlayPrimitive>, screen: Rect, x0: i32, y0: i32, x1: i32, y1: i32, color: u32)
    ensures
        final(items)@ == old(items)@.push(screen_line(screen, x0, y0, x1, y1, color)),
{
    items.push(
        OverlayPrimitive::Line {
            x0: shift(screen.left, x0),
            y0: shift(screen.top, y0),
            x1: shift(screen.left, x1),
            y1: shift(screen.top, y1),
            color,
        },
    );
}

/// Adds a cross of the frame.
pub fn push_cross(items: &mut Vec<OverlayPrimitive>, screen: Rect, x: i32, y: i32, radius: i32, color: u32)
    ensures
        final(items)@ == old(items)@.push(screen_cross(screen, x, y, radius, color)),
{
    items.push(OverlayPrimitive::Cross { x: shift(screen.left, x), y: shift(screen.top, y), radius, color });
}

/// The whole frame.
pub open spec fn whole_frame(s: Scene) -> Roi {
    Roi { x: 0, y: 0, w: s.width, h: s.height }
}

/// A little box in the corner that shows the action by its colour.
pub open spec fn action_box() -> Roi {
    Roi { x: 8, y: 8, w: 54, h: 34 }
}

/// A border within the frame that shows that something is amiss.
pub open spec fn alarm_box(s: Scene) -> Roi {
    Roi { x: 4, y: 4, w: (s.width - 8) as i32, h: (s.height - 8) as i32 }
}

/// The colour of an action: red, green and blue.
pub open spec fn action_color(a: Action) -> (u8, u8, u8) {
    match a {
        Action::Left => (255, 80, 80),
        Action::Right => (80, 80, 255),
        Action::Space => (80, 255, 80),
        Action::Idle => (180, 180, 180),
    }
}

/// Rectangles of the frame, one for each part, in one colour.
pub open spec fn screen_rects(screen: Rect, parts: Seq<Roi>, color: u32) -> Seq<OverlayPrimitive> {
    parts.map_values(|r: Roi| screen_rect(screen, r, color))
}

/// The frame in white, the search area in gray.
pub open spec fn live_area(s: Scene, screen: Rect) -> Seq<OverlayPrimitive> {
    seq![
        screen_rect(screen, whole_frame(s), rgb_value(255, 255, 255)),
        screen_rect(screen, s.base, rgb_value(120, 120, 120)),
    ]
}

/// The lower end of the search in red, the cart's row in magenta.
pub open spec fn live_rows(s: Scene, screen: Rect) -> Seq<OverlayPrimitive> {
    let last_x = (s.width - 1) as i32;
    seq![
        screen_line(screen, 0, s.line_y, last_x, s.line_y, rgb_value(255, 0, 0)),
        screen_line(screen, 0, s.line_y, last_x, s.line_y, rgb_value(255, 0, 255)),
    ]
}

/// The boot as seen, in green.
pub open spec fn live_boot_seen(s: Scene, screen: Rect) -> Seq<OverlayPrimitive> {
    match s.boot_det {
        Some(d) => seq![
            screen_rect(screen, d.bbox, rgb_value(0, 255, 0)),
            screen_cross(screen, d.x, d.y, 16, rgb_value(0, 255, 0)),
        ],
        None => Seq::empty(),
    }
}

/// The boot as tracked, with its heading, in yellow.
pub open spec fn live_boot(s: Scene, screen: Rect) -> Seq<OverlayPrimitive> {
    match s.boot {
        Some(b) => seq![
            screen_cross(screen, b.x, b.y, 22, rgb_value(255, 255, 0)),
            screen_line(screen, b.x, b.y, b.to_x, b.to_y, rgb_value(255, 255, 0)),
        ],
        None => Seq::empty(),
    }
}

/// The cart as seen, in magenta.
pub open spec fn live_cart_seen(s: Scene, screen: Rect) -> Seq<OverlayPrimitive> {
    match s.cart_det {
        Some((x, y)) => seq![screen_cross(screen, x, y, 18, rgb_value(255, 0, 255))],
        None => Seq::empty(),
    }
}

/// The cart as tracked, with its heading, in blue.
pub open spec fn live_cart(s: Scene, screen: Rect) -> Seq<OverlayPrimitive> {
    seq![
        screen_cross(screen, s.cart.x, s.cart.y, 24, rgb_value(0, 0, 255)),
        screen_line(screen, s.cart.x, s.cart.y, s.cart.to_x, s.cart.to_y, rgb_value(0, 0, 255)),
    ]
}

/// The target column in yellow.
pub open spec fn live_target(s: Scene, screen: Rect) -> Seq<OverlayPrimitive> {
    match s.target {
        Some(x) => seq![screen_line(screen, x, 0, x, (s.height - 1) as i32, rgb_value(255, 255, 0))],
        None => Seq::empty(),
    }
}

/// The action's colour.
pub open spec fn live_action(s: Scene, screen: Rect) -> Seq<OverlayPrimitive> {
    let a = action_color(s.action);
    seq![screen_rect(screen, action_box(), rgb_value(a.0, a.1, a.2))]
}

/// Red where something is amiss.
pub open spec fn live_alarm(s: Scene, screen: Rect) -> Seq<OverlayPrimitive> {
    if s.rejected {
        seq![screen_rect(screen, alarm_box(s), rgb_value(255, 0, 0))]
    } else {
        Seq::empty()
    }
}

/// What the overlay shows of a scene, one over the other. The searched parts are light blue.
pub open spec fn live_drawings(s: Scene, screen: Rect) -> Seq<OverlayPrimitive> {
    live_area(s, screen) + screen_rects(screen, s.searched@, rgb_value(0, 180, 255)) + live_rows(s, screen)
        + live_boot_seen(s, screen) + live_boot(s, screen) + live_cart_seen(s, screen) + live_cart(s, screen)
        + live_target(s, screen) + live_action(s, screen) + live_alarm(s, screen)
}

fn color_of(action: Action) -> (c: (u8, u8, u8))
    ensures
        c == action_color(action),
{
    match action {
        Action::Left => (255, 80, 80),
        Action::Right => (80, 80, 255),
        Action::Space => (80, 255, 80),
        Action::Idle => (180, 180, 180),
    }
}

/// What the overlay shows of a scene.
pub fn live_debug_primitives(s: &Scene, screen: Rect) -> (items: Vec<OverlayPrimitive>)
    requires
        0 <= s.width,
        0 <= s.height,
    ensures
        items@ == live_drawings(*s, screen),
{
    let mut items: Vec<OverlayPrimitive> = Vec::new();
    push_rect(&mut items, screen, Roi { x: 0, y: 0, w: s.width, h: s.height }, rgb(255, 255, 255));
    push_rect(&mut items, screen, s.base, rgb(120, 120, 120));
    assert(items@ =~= live_area(*s, screen));
    let ghost head = items@;
    let light: u32 = rgb(0, 180, 255);
    let mut i: usize = 0;
    assert(items@ =~= head + screen_rects(screen, s.searched@.take(0), light));
    while i < s.searched.len()
        invariant
            i <= s.searched.len(),
            light == rgb_value(0, 180, 255),
            items@ == head + screen_rects(screen, s.searched@.take(i as int), light),
        decreases s.searched.len() - i,
    {
        push_rect(&mut items, screen, s.searched[i], light);
        assert(items@ =~= head + screen_rects(screen, s.searched@.take(i + 1), light));
        i = i + 1;
    }
    assert(s.searched@.take(i as int) =~= s.searched@);
    let ghost so_far = items@;
    push_line(&mut items, screen, 0, s.line_y, s.width - 1, s.line_y, rgb(255, 0, 0));
    push_line(&mut items, screen, 0, s.line_y, s.width - 1, s.line_y, rgb(255, 0, 255));
    assert(items@ =~= so_far + live_rows(*s, screen));
    add_boot(&mut items, s, screen);
    add_cart(&mut items, s, screen);
    add_frame_marks(&mut items, s, screen);
    items
}

fn add_boot(items: &mut Vec<OverlayPrimitive>, s: &Scene, screen: Rect)
    ensures
        final(items)@ == old(items)@ + live_boot_seen(*s, screen) + live_boot(*s, screen),
{
    let ghost so_far = items@;
    if let Some(d) = s.boot_det {
        push_rect(items, screen, d.bbox, rgb(0, 255, 0));
        push_cross(items, screen, d.x, d.y, 16, rgb(0, 255, 0));
    }
    assert(items@ =~= so_far + live_boot_seen(*s, screen));
    let ghost so_far = items@;
    if let Some(b) = s.boot {
        push_cross(items, screen, b.x, b.y, 22, rgb(255, 255, 0));
        push_line(items, screen, b.x, b.y, b.to_x, b.to_y, rgb(255, 255, 0));
    }
    assert(items@ =~= so_far + live_boot(*s, screen));
}

fn add_cart(items: &mut Vec<OverlayPrimitive>, s: &Scene, screen: Rect)
    ensures
        final(items)@ == old(items)@ + live_cart_seen(*s, screen) + live_cart(*s, screen),
{
    let ghost so_far = items@;
    if let Some((x, y)) = s.cart_det {
        push_cross(items, screen, x, y, 18, rgb(255, 0, 255));
    }
    assert(items@ =~= so_far + live_cart_seen(*s, screen));
    let ghost so_far = items@;
    push_cross(items, screen, s.cart.x, s.cart.y, 24, rgb(0, 0, 255));
    push_line(items, screen, s.cart.x, s.cart.y, s.cart.to_x, s.cart.to_y, rgb(0, 0, 255));
    assert(items@ =~= so_far + live_cart(*s, screen));
}

fn add_frame_marks(items: &mut Vec<OverlayPrimitive>, s: &Scene, screen: Rect)
    requires
        0 <= s.width,
        0 <= s.height,
    ensures
        final(items)@ == old(items)@ + live_target(*s, screen) + live_action(*s, screen) + live_alarm(*s, screen),
{
    let ghost so_far = items@;
    if let Some(x) = s.target {
        push_line(items, screen, x, 0, x, s.height - 1, rgb(255, 255, 0));
    }
    assert(items@ =~= so_far + live_target(*s, screen));
    let ghost so_far = items@;
    let c = color_of(s.action);
    push_rect(items, screen, Roi { x: 8, y: 8, w: 54, h: 34 }, rgb(c.0, c.1, c.2));
    assert(items@ =~= so_far + live_action(*s, screen));
    let ghost so_far = items@;
    if s.rejected {
        push_rect(items, screen, Roi { x: 4, y: 4, w: s.width - 8, h: s.height - 8 }, rgb(255, 0, 0));
    }
    assert(items@ =~= so_far + live_alarm(*s, screen));
}

/// A shape in a colour.
#[verifier::ext_equal]
pub struct Stroke {
    pub shape: Set<(int, int)>,
    pub color: Seq<u8>,
}

/// A frame after some strokes, one over the other.
pub open spec fn painted(image: Seq<u8>, width: int, height: int, strokes: Seq<Stroke>) -> Seq<u8>
    decreases strokes.len(),
{
    if strokes.len() == 0 {
        image
    } else {
        let s = strokes.last();
        paint::tint(painted(image, width, height, strokes.drop_last()), width, height, s.shape, s.color)
    }
}

/// The border of a part of the frame.
pub open spec fn border_stroke(s: Scene, r: Roi, color: Seq<u8>) -> Stroke {
    Stroke { shape: paint::border(s.width as int, s.height as int, r), color }
}

/// A line across the frame.
pub open spec fn row_stroke(s: Scene, y: int, color: Seq<u8>) -> Stroke {
    Stroke { shape: paint::hline(s.width as int, s.height as int, y, 0, s.width - 1), color }
}

/// A line down the frame.
pub open spec fn column_stroke(s: Scene, x: int, color: Seq<u8>) -> Stroke {
    Stroke { shape: paint::vline(s.width as int, s.height as int, x, 0, s.height - 1), color }
}

/// A cross.
pub open spec fn cross_stroke(s: Scene, x: i32, y: i32, radius: int, color: Seq<u8>) -> Stroke {
    Stroke { shape: paint::cross(s.width as int, s.height as int, x as int, y as int, radius), color }
}

/// A line from a place to where it is heading for.
pub open spec fn heading_stroke(h: Heading, color: Seq<u8>) -> Stroke {
    Stroke { shape: paint::line(h.x as int, h.y as int, h.to_x as int, h.to_y as int), color }
}

/// The frame in white, the search area in gray.
pub open spec fn saved_area(s: Scene) -> Seq<Stroke> {
    seq![border_stroke(s, whole_frame(s), seq![255u8, 255, 255]), border_stroke(s, s.base, seq![120u8, 120, 120])]
}

/// The searched parts in light blue.
pub open spec fn saved_parts(s: Scene, parts: Seq<Roi>) -> Seq<Stroke> {
    parts.map_values(|r: Roi| border_stroke(s, r, seq![0u8, 180, 255]))
}

/// The lower end of the search in blue, the cart's row over it in magenta.
pub open spec fn saved_rows(s: Scene) -> Seq<Stroke> {
    seq![
        row_stroke(s, s.line_y as int, seq![0u8, 0, 255]),
        row_stroke(s, s.line_y as int, seq![255u8, 0, 255]),
    ]
}

/// The boot as seen, in green.
pub open spec fn saved_boot_seen(s: Scene) -> Seq<Stroke> {
    match s.boot_det {
        Some(d) => seq![
            border_stroke(s, d.bbox, seq![0u8, 255, 0]),
            cross_stroke(s, d.x, d.y, 12, seq![0u8, 255, 0]),
        ],
        None => Seq::empty(),
    }
}

/// The boot as tracked, with its heading, in yellow.
pub open spec fn saved_boot(s: Scene) -> Seq<Stroke> {
    match s.boot {
        Some(b) => seq![
            cross_stroke(s, b.x, b.y, 18, seq![255u8, 255, 0]),
            heading_stroke(b, seq![255u8, 255, 0]),
        ],
        None => Seq::empty(),
    }
}

/// The cart as seen, in magenta.
pub open spec fn saved_cart_seen(s: Scene) -> Seq<Stroke> {
    match s.cart_det {
        Some((x, y)) => seq![cross_stroke(s, x, y, 16, seq![255u8, 0, 255])],
        None => Seq::empty(),
    }
}

/// The cart as tracked, with its heading, in red.
pub open spec fn saved_cart(s: Scene) -> Seq<Stroke> {
    seq![
        cross_stroke(s, s.cart.x, s.cart.y, 20, seq![255u8, 0, 0]),
        heading_stroke(s.cart, seq![255u8, 0, 0]),
    ]
}

/// The target column.
pub open spec fn saved_target(s: Scene) -> Seq<Stroke> {
    match s.target {
        Some(x) => seq![column_stroke(s, x as int, seq![0u8, 255, 255])],
        None => Seq::empty(),
    }
}

/// The action's colour.
pub open spec fn saved_action(s: Scene) -> Seq<Stroke> {
    let a = action_color(s.action);
    seq![border_stroke(s, action_box(), seq![a.0, a.1, a.2])]
}

/// Blue where something is amiss.
pub open spec fn saved_alarm(s: Scene) -> Seq<Stroke> {
    if s.rejected {
        seq![border_stroke(s, alarm_box(s), seq![0u8, 0, 255])]
    } else {
        Seq::empty()
    }
}

/// What a saved frame shows of a scene, one over the other.
pub open spec fn saved_strokes(s: Scene) -> Seq<Stroke> {
    saved_area(s) + saved_parts(s, s.searched@) + saved_rows(s) + saved_boot_seen(s) + saved_boot(s)
        + saved_cart_seen(s) + saved_cart(s) + saved_target(s) + saved_action(s) + saved_alarm(s)
}

proof fn lemma_painted_more(image: Seq<u8>, width: int, height: int, strokes: Seq<Stroke>, s: Stroke)
    ensures
        painted(image, width, height, strokes.push(s)) == paint::tint(
            painted(image, width, height, strokes),
            width,
            height,
            s.shape,
            s.color,
        ),
{
    assert(strokes.push(s).drop_last() =~= strokes);
}

/// A frame that is being painted.
struct Canvas {
    pub image: Vec<u8>,
    pub width: i32,
    pub height: i32,
    pub start: Ghost<Seq<u8>>,
    pub strokes: Ghost<Seq<Stroke>>,
}

impl Canvas {
    spec fn wf(self) -> bool {
        &&& paint::canvas(self.start@.len() as int, self.width as int, self.height as int)
        &&& self.image@ == painted(self.start@, self.width as int, self.height as int, self.strokes@)
        &&& self.image@.len() == self.start@.len()
    }

    spec fn with(self, s: Stroke) -> Seq<Stroke> {
        self.strokes@.push(s)
    }

    /// What stays the same over a stroke.
    spec fn same(self, other: Self) -> bool {
        self.width == other.width && self.height == other.height && self.start == other.start
    }

    fn rect(&mut self, r: Roi, color: [u8; 3])
        requires
            old(self).wf(),
        ensures
            final(self).wf(),
            final(self).same(*old(self)),
            final(self).strokes@ == old(self).with(
                Stroke {
                    shape: paint::border(old(self).width as int, old(self).height as int, r),
                    color: color@,
                },
            ),
    {
        let ghost s = Stroke { shape: paint::border(self.width as int, self.height as int, r), color: color@ };
        proof {
            lemma_painted_more(self.start@, self.width as int, self.height as int, self.strokes@, s);
        }
        paint::draw_rect(&mut self.image, self.width, self.height, r, color);
        self.strokes = Ghost(self.strokes@.push(s));
    }

    fn row(&mut self, y: i32, color: [u8; 3])
        requires
            old(self).wf(),
        ensures
            final(self).wf(),
            final(self).same(*old(self)),
            final(self).strokes@ == old(self).with(
                Stroke {
                    shape: paint::hline(
                        old(self).width as int,
                        old(self).height as int,
                        y as int,
                        0,
                        old(self).width - 1,
                    ),
                    color: color@,
                },
            ),
    {
        let ghost s = Stroke {
            shape: paint::hline(self.width as int, self.height as int, y as int, 0, self.width - 1),
            color: color@,
        };
        proof {
            lemma_painted_more(self.start@, self.width as int, self.height as int, self.strokes@, s);
        }
        let end: i64 = self.width as i64 - 1;
        paint::draw_hline(&mut self.image, self.width, self.height, y as i64, 0, end, color);
        self.strokes = Ghost(self.strokes@.push(s));
    }

    fn column(&mut self, x: i32, color: [u8; 3])
        requires
            old(self).wf(),
        ensures
            final(self).wf(),
            final(self).same(*old(self)),
            final(self).strokes@ == old(self).with(
                Stroke {
                    shape: paint::vline(
                        old(self).width as int,
                        old(self).height as int,
                        x as int,
                        0,
                        old(self).height - 1,
                    ),
                    color: color@,
                },
            ),
    {
        let ghost s = Stroke {
            shape: paint::vline(self.width as int, self.height as int, x as int, 0, self.height - 1),
            color: color@,
        };
        proof {
            lemma_painted_more(self.start@, self.width as int, self.height as int, self.strokes@, s);
        }
        let end: i64 = self.height as i64 - 1;
        paint::draw_vline(&mut self.image, self.width, self.height, x as i64, 0, end, color);
        self.strokes = Ghost(self.strokes@.push(s));
    }

    fn cross(&mut self, x: i32, y: i32, radius: i32, color: [u8; 3])
        requires
            old(self).wf(),
        ensures
            final(self).wf(),
            final(self).same(*old(self)),
            final(self).strokes@ == old(self).with(
                Stroke {
                    shape: paint::cross(
                        old(self).width as int,
                        old(self).height as int,
                        x as int,
                        y as int,
                        radius as int,
                    ),
                    color: color@,
                },
            ),
    {
        let ghost s = Stroke {
            shape: paint::cross(self.width as int, self.height as int, x as int, y as int, radius as int),
            color: color@,
        };
        proof {
            lemma_painted_more(self.start@, self.width as int, self.height as int, self.strokes@, s);
        }
        paint::draw_cross(&mut self.image, self.width, self.height, x, y, radius, color);
        self.strokes = Ghost(self.strokes@.push(s));
    }

    fn heading(&mut self, h: Heading, color: [u8; 3])
        requires
            old(self).wf(),
        ensures
            final(self).wf(),
            final(self).same(*old(self)),
            final(self).strokes@ == old(self).with(heading_stroke(h, color@)),
    {
        let ghost s = heading_stroke(h, color@);
        proof {
            lemma_painted_more(self.start@, self.width as int, self.height as int, self.strokes@, s);
        }
        paint::draw_vector(&mut self.image, self.width, self.height, h.x, h.y, h.to_x, h.to_y, color);
        self.strokes = Ghost(self.strokes@.push(s));
    }
}

/// Paints a scene over a copy of its frame.
pub fn paint_debug_frame(frame: &[u8], s: &Scene) -> (image: Vec<u8>)
    requires
        paint::canvas(frame@.len() as int, s.width as int, s.height as int),
    ensures
        image@ == painted(frame@, s.width as int, s.height as int, saved_strokes(*s)),
{
    let mut image: Vec<u8> = Vec::new();
    image.extend_from_slice(frame);
    assert(image@ =~= frame@);
    let mut c = Canvas {
        image,
        width: s.width,
        height: s.height,
        start: Ghost(frame@),
        strokes: Ghost(Seq::empty()),
    };
    c.add_area(s);
    c.add_boot(s);
    c.add_cart(s);
    c.add_frame_marks(s);
    assert(Seq::<Stroke>::empty() + saved_area(*s) =~= saved_area(*s));
    c.image
}

impl Canvas {
    fn add_area(&mut self, s: &Scene)
        requires
            old(self).wf(),
            old(self).width == s.width,
            old(self).height == s.height,
        ensures
            final(self).wf(),
            final(self).same(*old(self)),
            final(self).strokes@ == old(self).strokes@ + saved_area(*s) + saved_parts(*s, s.searched@) + saved_rows(
                *s,
            ),
    {
        let ghost so_far = self.strokes@;
        self.rect(Roi { x: 0, y: 0, w: s.width, h: s.height }, [255, 255, 255]);
        self.rect(s.base, [120, 120, 120]);
        proof {
            assert([255u8, 255, 255]@ =~= seq![255u8, 255, 255]);
            assert([120u8, 120, 120]@ =~= seq![120u8, 120, 120]);
            assert(self.strokes@ =~= so_far + saved_area(*s));
        }
        let ghost head = self.strokes@;
        let mut i: usize = 0;
        assert(head + saved_parts(*s, s.searched@.take(0)) =~= head);
        while i < s.searched.len()
            invariant
                i <= s.searched.len(),
                self.wf(),
                self.same(*old(self)),
                self.width == s.width,
                self.height == s.height,
                self.strokes@ == head + saved_parts(*s, s.searched@.take(i as int)),
            decreases s.searched.len() - i,
        {
            self.rect(s.searched[i], [0, 180, 255]);
            proof {
                assert([0u8, 180, 255]@ =~= seq![0u8, 180, 255]);
                assert(saved_parts(*s, s.searched@.take(i + 1)) =~= saved_parts(*s, s.searched@.take(i as int)).push(
                    border_stroke(*s, s.searched@[i as int], seq![0u8, 180, 255]),
                ));
                assert(self.strokes@ =~= head + saved_parts(*s, s.searched@.take(i + 1)));
            }
            i = i + 1;
        }
        assert(s.searched@.take(i as int) =~= s.searched@);
        let ghost so_far = self.strokes@;
        self.row(s.line_y, [0, 0, 255]);
        self.row(s.line_y, [255, 0, 255]);
        proof {
            assert([0u8, 0, 255]@ =~= seq![0u8, 0, 255]);
            assert([255u8, 0, 255]@ =~= seq![255u8, 0, 255]);
            assert(self.strokes@ =~= so_far + saved_rows(*s));
        }
    }

    fn add_boot(&mut self, s: &Scene)
        requires
            old(self).wf(),
            old(self).width == s.width,
            old(self).height == s.height,
        ensures
            final(self).wf(),
            final(self).same(*old(self)),
            final(self).strokes@ == old(self).strokes@ + saved_boot_seen(*s) + saved_boot(*s),
    {
        let ghost so_far = self.strokes@;
        assert([0u8, 255, 0]@ =~= seq![0u8, 255, 0]);
        assert([255u8, 255, 0]@ =~= seq![255u8, 255, 0]);
        if let Some(d) = s.boot_det {
            self.rect(d.bbox, [0, 255, 0]);
            self.cross(d.x, d.y, 12, [0, 255, 0]);
        }
        assert(self.strokes@ =~= so_far + saved_boot_seen(*s));
        let ghost so_far = self.strokes@;
        if let Some(b) = s.boot {
            self.cross(b.x, b.y, 18, [255, 255, 0]);
            self.heading(b, [255, 255, 0]);
        }
        assert(self.strokes@ =~= so_far + saved_boot(*s));
    }

    fn add_cart(&mut self, s: &Scene)
        requires
            old(self).wf(),
            old(self).width == s.width,
            old(self).height == s.height,
        ensures
            final(self).wf(),
            final(self).same(*old(self)),
            final(self).strokes@ == old(self).strokes@ + saved_cart_seen(*s) + saved_cart(*s),
    {
        let ghost so_far = self.strokes@;
        assert([255u8, 0, 255]@ =~= seq![255u8, 0, 255]);
        assert([255u8, 0, 0]@ =~= seq![255u8, 0, 0]);
        if let Some((x, y)) = s.cart_det {
            self.cross(x, y, 16, [255, 0, 255]);
        }
        assert(self.strokes@ =~= so_far + saved_cart_seen(*s));
        let ghost so_far = self.strokes@;
        self.cross(s.cart.x, s.cart.y, 20, [255, 0, 0]);
        self.heading(s.cart, [255, 0, 0]);
        assert(self.strokes@ =~= so_far + saved_cart(*s));
    }

    fn add_frame_marks(&mut self, s: &Scene)
        requires
            old(self).wf(),
            old(self).width == s.width,
            old(self).height == s.height,
        ensures
            final(self).wf(),
            final(self).same(*old(self)),
            final(self).strokes@ == old(self).strokes@ + saved_target(*s) + saved_action(*s) + saved_alarm(*s),
    {
        let ghost so_far = self.strokes@;
        assert([0u8, 255, 255]@ =~= seq![0u8, 255, 255]);
        assert([0u8, 0, 255]@ =~= seq![0u8, 0, 255]);
        if let Some(x) = s.target {
            self.column(x, [0, 255, 255]);
        }
        assert(self.strokes@ =~= so_far + saved_target(*s));
        let ghost so_far = self.strokes@;
        let a = color_of(s.action);
        self.rect(Roi { x: 8, y: 8, w: 54, h: 34 }, [a.0, a.1, a.2]);
        assert([a.0, a.1, a.2]@ =~= seq![a.0, a.1, a.2]);
        assert(self.strokes@ =~= so_far + saved_action(*s));
        let ghost so_far = self.strokes@;
        if s.rejected {
            self.rect(Roi { x: 4, y: 4, w: s.width - 8, h: s.height - 8 }, [0, 0, 255]);
        }
        assert(self.strokes@ =~= so_far + saved_alarm(*s));
    }
}

/// Is this frame saved under its own number? One in thirty is.
pub fn keeps_frame(frame_index: u64) -> (yes: bool)
    ensures
        yes == (frame_index % 30 == 0),
{
    frame_index % 30 == 0
}

/// A number with at least six digits.
pub open spec fn six_digits(n: nat) -> Seq<char> {
    let d = text::digits(n);
    if d.len() < 6 {
        Seq::new((6 - d.len()) as nat, |i: int| '0') + d
    } else {
        d
    }
}

/// The file that a frame is saved in.
pub fn frame_path(frame_index: u64) -> (path: String)
    ensures
        path@ == "boot_breaker_debug_frames/frame_"@ + six_digits(frame_index as nat) + ".bmp"@,
{
    let mut path = text::copy("boot_breaker_debug_frames/frame_");
    let number = text::nat_text(frame_index);
    let len: usize = text::chars_of(number.as_str()).len();
    let ghost head = path@;
    let mut i: usize = len;
    while i < 6
        invariant
            len <= i,
            i <= 6 || i == len,
            path@ == head + Seq::new((i - len) as nat, |k: int| '0'),
        decreases 6 - i,
    {
        path.push('0');
        i = i + 1;
        assert(path@ =~= head + Seq::new((i - len) as nat, |k: int| '0'));
    }
    path.append(number.as_str());
    path.append(".bmp");
    assert(path@ =~= head + six_digits(frame_index as nat) + ".bmp"@);
    path
}

/// The channels of a colour can be told from its number.
pub proof fn lemma_rgb(r: u8, g: u8, b: u8)
    ensures
        rgb_value(r, g, b) % 0x100 == r,
        rgb_value(r, g, b) / 0x100 % 0x100 == g,
        rgb_value(r, g, b) / 0x1_0000 == b,
{
}

/// Drawings move with the screen area of the frame, as far as 32-bit numbers go.
pub proof fn lemma_drawings_follow_screen(screen: Rect, r: Roi, x: i32, y: i32, color: u32)
    requires
        -0x4000_0000 <= screen.left <= 0x3fff_ffff,
        -0x4000_0000 <= screen.top <= 0x3fff_ffff,
        -0x4000_0000 <= r.x <= 0x3fff_ffff,
        -0x4000_0000 <= r.y <= 0x3fff_ffff,
        -0x4000_0000 <= x <= 0x3fff_ffff,
        -0x4000_0000 <= y <= 0x3fff_ffff,
    ensures
        screen_rect(screen, r, color) matches OverlayPrimitive::Rect { x: a, y: b, w, h, color: c } && a - screen.left == r.x && b
            - screen.top == r.y && w == r.w && h == r.h && c == color,
        screen_cross(screen, x, y, 5, color) matches OverlayPrimitive::Cross { x: a, y: b, radius, color: c } && a - screen.left
            == x && b - screen.top == y && radius == 5 && c == color,
        screen_line(screen, r.x, r.y, x, y, color) matches OverlayPrimitive::Line { x0, y0, x1, y1, color: c } && x0 - screen.left
            == r.x && y0 - screen.top == r.y && x1 - screen.left == x && y1 - screen.top == y && c == color,
{
}

/// The overlay shows the frame in white, the search area in gray, the searched parts in light blue, the row of the cart in
/// magenta, the boot as seen in green and as tracked in yellow, the cart as seen in magenta and as tracked in blue,
/// and a red border where something is amiss.
pub proof fn lemma_live_drawings(s: Scene, screen: Rect)
    ensures
        ({
            let d = live_drawings(s, screen);
            &&& d.contains(screen_rect(screen, Roi { x: 0, y: 0, w: s.width, h: s.height }, 0xffffff))
            &&& d.contains(screen_rect(screen, s.base, 0x787878))
            &&& forall|i: int|
                0 <= i < s.searched@.len() ==> d.contains(screen_rect(screen, #[trigger] s.searched@[i], 0xffb400))
            &&& d.contains(screen_line(screen, 0, s.line_y, (s.width - 1) as i32, s.line_y, 0xff00ff))
            &&& s.boot_det matches Some(b) ==> d.contains(screen_rect(screen, b.bbox, 0x00ff00)) && d.contains(
                screen_cross(screen, b.x, b.y, 16, 0x00ff00),
            )
            &&& s.boot matches Some(b) ==> d.contains(screen_cross(screen, b.x, b.y, 22, 0x00ffff)) && d.contains(
                screen_line(screen, b.x, b.y, b.to_x, b.to_y, 0x00ffff),
            )
            &&& s.cart_det matches Some((x, y)) ==> d.contains(screen_cross(screen, x, y, 18, 0xff00ff))
            &&& d.contains(screen_cross(screen, s.cart.x, s.cart.y, 24, 0xff0000))
            &&& d.contains(screen_line(screen, s.cart.x, s.cart.y, s.cart.to_x, s.cart.to_y, 0xff0000))
            &&& s.target matches Some(x) ==> d.contains(screen_line(screen, x, 0, x, (s.height - 1) as i32, 0x00ffff))
            &&& s.rejected ==> d.last() == screen_rect(
                screen,
                Roi { x: 4, y: 4, w: (s.width - 8) as i32, h: (s.height - 8) as i32 },
                0x0000ff,
            )
        }),
{
    let d = live_drawings(s, screen);
    let parts = screen_rects(screen, s.searched@, rgb_value(0, 180, 255));
    let a1 = live_area(s, screen);
    let a2 = a1 + parts;
    let a3 = a2 + live_rows(s, screen);
    let a4 = a3 + live_boot_seen(s, screen);
    let a5 = a4 + live_boot(s, screen);
    let a6 = a5 + live_cart_seen(s, screen);
    let a7 = a6 + live_cart(s, screen);
    let a8 = a7 + live_target(s, screen);
    let a9 = a8 + live_action(s, screen);
    assert(d == a9 + live_alarm(s, screen));
    assert(d[0] == a1[0] && d[1] == a1[1]);
    assert forall|i: int| 0 <= i < s.searched@.len() implies d.contains(
        screen_rect(screen, #[trigger] s.searched@[i], 0xffb400),
    ) by {
        assert(d[a1.len() + i] == parts[i]);
    }
    assert(d[a2.len() as int + 1] == live_rows(s, screen)[1]);
    if s.boot_det is Some {
        assert(d[a3.len() as int] == live_boot_seen(s, screen)[0]);
        assert(d[a3.len() as int + 1] == live_boot_seen(s, screen)[1]);
    }
    if s.boot is Some {
        assert(d[a4.len() as int] == live_boot(s, screen)[0]);
        assert(d[a4.len() as int + 1] == live_boot(s, screen)[1]);
    }
    if s.cart_det is Some {
        assert(d[a5.len() as int] == live_cart_seen(s, screen)[0]);
    }
    assert(d[a6.len() as int] == live_cart(s, screen)[0]);
    assert(d[a6.len() as int + 1] == live_cart(s, screen)[1]);
    if s.target is Some {
        assert(d[a7.len() as int] == live_target(s, screen)[0]);
    }
}

/// Each pixel of a painted frame has the colour of the last stroke over it, and where there is none the one it had.
pub proof fn lemma_painted_pixel(image: Seq<u8>, width: int, height: int, strokes: Seq<Stroke>, x: int, y: int, k: int)
    requires
        paint::canvas(image.len() as int, width, height),
        0 <= x < width,
        0 <= y < height,
        -1 <= k < strokes.len(),
        k >= 0 ==> strokes[k].shape.contains((x, y)),
        forall|i: int| k < i < strokes.len() ==> !(#[trigger] strokes[i]).shape.contains((x, y)),
    ensures
        painted(image, width, height, strokes).len() == image.len(),
        pixels::pixel(painted(image, width, height, strokes), width, x, y) == (if k >= 0 {
            (strokes[k].color[0], strokes[k].color[1], strokes[k].color[2])
        } else {
            pixels::pixel(image, width, x, y)
        }),
    decreases strokes.len(),
{
    if strokes.len() > 0 {
        let t = strokes.drop_last();
        let s = strokes.last();
        if k == strokes.len() - 1 {
            lemma_painted_len(image, width, height, t);
            paint::lemma_tinted_pixel(painted(image, width, height, t), width, height, s.shape, s.color, x, y);
        } else {
            assert(strokes[strokes.len() - 1] == s);
            assert(!s.shape.contains((x, y)));
            assert forall|i: int| k < i < t.len() implies !(#[trigger] t[i]).shape.contains((x, y)) by {
                assert(t[i] == strokes[i]);
            }
            lemma_painted_pixel(image, width, height, t, x, y, k);
            paint::lemma_tinted_pixel(painted(image, width, height, t), width, height, s.shape, s.color, x, y);
        }
    }
}

proof fn lemma_painted_len(image: Seq<u8>, width: int, height: int, strokes: Seq<Stroke>)
    ensures
        painted(image, width, height, strokes).len() == image.len(),
    decreases strokes.len(),
{
    if strokes.len() > 0 {
        lemma_painted_len(image, width, height, strokes.drop_last());
    }
}

/// Frames are numbered with at least six digits, of which those in front may be zeros; what follows these is the number.
pub proof fn lemma_six_digits(n: nat)
    ensures
        six_digits(n).len() >= 6,
        six_digits(n).len() == 6 || six_digits(n) == text::digits(n),
        six_digits(n).len() >= text::digits(n).len(),
        six_digits(n).skip(six_digits(n).len() - text::digits(n).len()) == text::digits(n),
        forall|i: int| 0 <= i < six_digits(n).len() - text::digits(n).len() ==> #[trigger] six_digits(n)[i] == '0',
{
    let d = text::digits(n);
    text::lemma_digits(n);
    assert(six_digits(n).skip(six_digits(n).len() - d.len()) =~= d);
}

/// A saved frame shows the frame in white, the search area in gray, the searched parts in light blue, the row of the cart
/// in magenta, the boot as seen in green and as tracked in yellow, the cart as seen in magenta and as tracked in red,
/// and over all a blue border where something is amiss.
pub proof fn lemma_saved_strokes(s: Scene)
    ensures
        ({
            let d = saved_strokes(s);
            let w = s.width as int;
            let h = s.height as int;
            &&& d[0].shape == paint::border(w, h, Roi { x: 0, y: 0, w: s.width, h: s.height }) && d[0].color == seq![255u8, 255, 255]
            &&& d[1].shape == paint::border(w, h, s.base) && d[1].color == seq![120u8, 120, 120]
            &&& forall|i: int|
                0 <= i < s.searched@.len() ==> {
                    &&& d[2 + i].shape == paint::border(w, h, #[trigger] s.searched@[i])
                    &&& d[2 + i].color == seq![0u8, 180, 255]
                }
            &&& d.contains(Stroke { shape: paint::hline(w, h, s.line_y as int, 0, w - 1), color: seq![255u8, 0, 255] })
            &&& s.boot_det matches Some(b) ==> d.contains(
                Stroke { shape: paint::border(w, h, b.bbox), color: seq![0u8, 255, 0] },
            ) && d.contains(Stroke { shape: paint::cross(w, h, b.x as int, b.y as int, 12), color: seq![0u8, 255, 0] })
            &&& s.boot matches Some(b) ==> d.contains(
                Stroke { shape: paint::cross(w, h, b.x as int, b.y as int, 18), color: seq![255u8, 255, 0] },
            ) && d.contains(
                Stroke {
                    shape: paint::line(b.x as int, b.y as int, b.to_x as int, b.to_y as int),
                    color: seq![255u8, 255, 0],
                },
            )
            &&& s.cart_det matches Some((x, y)) ==> d.contains(
                Stroke { shape: paint::cross(w, h, x as int, y as int, 16), color: seq![255u8, 0, 255] },
            )
            &&& d.contains(
                Stroke { shape: paint::cross(w, h, s.cart.x as int, s.cart.y as int, 20), color: seq![255u8, 0, 0] },
            )
            &&& d.contains(
                Stroke {
                    shape: paint::line(s.cart.x as int, s.cart.y as int, s.cart.to_x as int, s.cart.to_y as int),
                    color: seq![255u8, 0, 0],
                },
            )
            &&& s.target matches Some(x) ==> d.contains(
                Stroke { shape: paint::vline(w, h, x as int, 0, h - 1), color: seq![0u8, 255, 255] },
            )
            &&& s.rejected ==> d.last().shape == paint::border(
                w,
                h,
                Roi { x: 4, y: 4, w: (s.width - 8) as i32, h: (s.height - 8) as i32 },
            ) && d.last().color == seq![0u8, 0, 255]
        }),
{
    let d = saved_strokes(s);
    let parts = saved_parts(s, s.searched@);
    let a1 = saved_area(s);
    let a2 = a1 + parts;
    let a3 = a2 + saved_rows(s);
    let a4 = a3 + saved_boot_seen(s);
    let a5 = a4 + saved_boot(s);
    let a6 = a5 + saved_cart_seen(s);
    let a7 = a6 + saved_cart(s);
    let a8 = a7 + saved_target(s);
    let a9 = a8 + saved_action(s);
    assert(d == a9 + saved_alarm(s));
    assert(d[0] == a1[0] && d[1] == a1[1]);
    assert forall|i: int| 0 <= i < s.searched@.len() implies {
        &&& d[2 + i].shape == paint::border(s.width as int, s.height as int, #[trigger] s.searched@[i])
        &&& d[2 + i].color == seq![0u8, 180, 255]
    } by {
        assert(d[2 + i] == parts[i]);
    }
    assert(d[a2.len() as int + 1] == saved_rows(s)[1]);
    if s.boot_det is Some {
        assert(d[a3.len() as int] == saved_boot_seen(s)[0]);
        assert(d[a3.len() as int + 1] == saved_boot_seen(s)[1]);
    }
    if s.boot is Some {
        assert(d[a4.len() as int] == saved_boot(s)[0]);
        assert(d[a4.len() as int + 1] == saved_boot(s)[1]);
    }
    if s.cart_det is Some {
        assert(d[a5.len() as int] == saved_cart_seen(s)[0]);
    }
    assert(d[a6.len() as int] == saved_cart(s)[0]);
    assert(d[a6.len() as int + 1] == saved_cart(s)[1]);
    if s.target is Some {
        assert(d[a7.len() as int] == saved_target(s)[0]);
    }
}

/// The actions are told apart by their colours: reddish to the left, bluish to the right, greenish for a tap, gray for
/// nothing.
pub proof fn lemma_action_colors()
    ensures
        action_color(Action::Left).0 > action_color(Action::Left).1 && action_color(Action::Left).0 > action_color(Action::Left).2,
        action_color(Action::Right).2 > action_color(Action::Right).0 && action_color(Action::Right).2 > action_color(Action::Right).1,
        action_color(Action::Space).1 > action_color(Action::Space).0 && action_color(Action::Space).1 > action_color(Action::Space).2,
        action_color(Action::Idle).0 == action_color(Action::Idle).1 && action_color(Action::Idle).1 == action_color(Action::Idle).2,
{
}

} // verus!
