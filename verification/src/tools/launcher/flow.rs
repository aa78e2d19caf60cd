//! The steps of a launch: wait for the frame, click PLAY, wait for the play zone.

use crate::pixels;
use crate::platform::win32::Rect;
use crate::tools::launcher::detect;
use crate::tools::launcher::detect::{Detector, PlayClick};
use crate::tools::launcher::geometry;
use crate::tools::launcher::geometry::LaunchProfile;
use vstd::prelude::*;

verus! {

/// How long a frame is waited for, in nanoseconds.
pub const FRAME_TIMEOUT: u64 = 8_000_000_000;

/// How long the PLAY button is waited for, in nanoseconds.
pub const PLAY_TIMEOUT: u64 = 5_000_000_000;

/// The pause between two looks for a frame, in milliseconds.
pub const FRAME_PAUSE: u64 = 120;

/// The pause between two looks for the PLAY button, in milliseconds.
pub const PLAY_PAUSE: u64 = 100;

/// The pause after the click, in milliseconds.
pub const SETTLE_PAUSE: u64 = 900;

/// How far a launch has come.
#[derive(Clone, Copy, Debug, PartialEq, Eq, Structural)]
pub enum Stage {
    /// Waiting for the minigame frame.
    Frame,
    /// Waiting for the PLAY button.
    Play,
    /// Waiting for the frame of the running game.
    Zone,
    /// The play zone is known.
    Ready,
    /// Stopped, or nothing was seen in time.
    Ended,
}

/// The place of a stage on the way to the play zone.
pub open spec fn progress(stage: Stage) -> int {
    match stage {
        Stage::Frame => 0,
        Stage::Play => 1,
        Stage::Zone => 2,
        Stage::Ready => 3,
        Stage::Ended => 4,
    }
}

/// What to do next while waiting.
#[derive(Clone, Copy, Debug, PartialEq, Eq, Structural)]
pub enum Poll {
    /// Capture the screen and look at it.
    Look,
    /// A stop was asked for.
    Stopped,
    /// The time is over.
    Timeout,
}

/// What a look at the screen has shown.
#[derive(Clone, Copy, Debug, PartialEq, Eq, Structural)]
pub enum Look {
    /// A frame, in the captured area and on the screen.
    Found { local: Rect, screen: Rect },
    /// Where to click PLAY.
    Click { click: PlayClick },
    /// Nothing; look again after a pause of this many milliseconds.
    Nothing { pause: u64 },
}

/// A launch.
#[derive(Clone, Copy, Debug, PartialEq, Eq, Structural)]
pub struct Launch {
    pub profile: LaunchProfile,
    /// The captured area of the screen.
    pub capture: Rect,
    pub stage: Stage,
    /// The frame that was found last, on the screen.
    pub found: Rect,
}

/// The detector for the running game.
pub open spec fn zone_detector(profile: LaunchProfile) -> Detector {
    match profile {
        LaunchProfile::Standard => Detector::StandardFrame,
        LaunchProfile::BootBreaker => Detector::BootBreakerFrame,
    }
}

/// A captured area with pixels, whose edges are numbers of 32 bits and whose bytes can be numbered
/// in 32 bits.
pub open spec fn capturable(r: Rect) -> bool {
    &&& 0 < r.width
    &&& 0 < r.height
    &&& r.width * r.height * 4 <= i32::MAX
    &&& r.left + r.width <= i32::MAX
    &&& r.top + r.height <= i32::MAX
}

/// `r` lies inside of `outer`.
pub open spec fn inside(r: Rect, outer: Rect) -> bool {
    &&& outer.left <= r.left && r.left + r.width <= outer.left + outer.width
    &&& outer.top <= r.top && r.top + r.height <= outer.top + outer.height
}

impl Launch {
    /// The captured area can be captured. From the first stage on, a frame was found in it.
    pub open spec fn wf(self) -> bool {
        &&& capturable(self.capture)
        &&& self.stage is Play || self.stage is Zone || self.stage is Ready ==> {
            &&& inside(self.found, self.capture)
            &&& 220 <= self.found.width && 160 <= self.found.height
        }
    }

    /// How long the stage waits.
    pub open spec fn timeout(self) -> u64 {
        if self.stage is Play {
            PLAY_TIMEOUT
        } else {
            FRAME_TIMEOUT
        }
    }

    /// The detector that the stage looks with.
    pub open spec fn looks_for(self) -> Detector {
        if self.stage is Zone {
            zone_detector(self.profile)
        } else {
            Detector::StandardFrame
        }
    }

    /// The stage waits for something to be seen.
    pub open spec fn waiting(self) -> bool {
        self.stage is Frame || self.stage is Play || self.stage is Zone
    }

    /// What a look at the screen shows.
    pub open spec fn seen(self, frame: Seq<u8>) -> Look {
        let c = self.capture;
        if self.stage is Play {
            let local = geometry::moved(self.found, -c.left, -c.top);
            let place = detect::play_place(frame, c.width as int, c.height as int, local);
            Look::Click {
                click: PlayClick {
                    screen_x: (c.left + place.x) as i32,
                    screen_y: (c.top + place.y) as i32,
                    ..place
                },
            }
        } else {
            match detect::frame_rect(frame, c.width as int, c.height as int, self.looks_for()) {
                Some(local) => Look::Found { local, screen: geometry::moved(local, c.left as int, c.top as int) },
                None => Look::Nothing { pause: FRAME_PAUSE },
            }
        }
    }

    /// A launch at its beginning, on an area that can be captured.
    pub fn new(profile: LaunchProfile, capture: Rect) -> (l: Self)
        requires
            capturable(capture),
        ensures
            l == (Launch { profile, capture, stage: Stage::Frame, found: capture }),
            l.wf(),
    {
        Launch { profile, capture, stage: Stage::Frame, found: capture }
    }

    /// Says what to do, `elapsed` nanoseconds after the stage began. The time is over at the timeout,
    /// whether or not a stop was asked for; either ends the launch.
    pub fn poll(&mut self, elapsed: u64, stop: bool) -> (p: Poll)
        requires
            old(self).wf(),
            old(self).waiting(),
        ensures
            p == if elapsed >= old(self).timeout() {
                Poll::Timeout
            } else if stop {
                Poll::Stopped
            } else {
                Poll::Look
            },
            *final(self) == (Launch {
                stage: if p is Look {
                    old(self).stage
                } else {
                    Stage::Ended
                },
                ..*old(self)
            }),
            final(self).wf(),
            p is Timeout <==> elapsed >= (if old(self).stage is Play {
                5_000_000_000u64
            } else {
                8_000_000_000u64
            }),
            p is Stopped ==> stop,
            p is Look ==> !stop,
    {
        let timeout: u64 = match self.stage {
            Stage::Play => PLAY_TIMEOUT,
            _ => FRAME_TIMEOUT,
        };
        if elapsed >= timeout {
            self.stage = Stage::Ended;
            Poll::Timeout
        } else if stop {
            self.stage = Stage::Ended;
            Poll::Stopped
        } else {
            Poll::Look
        }
    }

    /// The detector that the stage looks with.
    pub fn detector(&self) -> (d: Detector)
        ensures
            d == self.looks_for(),
    {
        match (self.stage, self.profile) {
            (Stage::Zone, LaunchProfile::BootBreaker) => Detector::BootBreakerFrame,
            _ => Detector::StandardFrame,
        }
    }

    /// Looks at a captured screen. A frame that is found leads to the next stage; the place of the PLAY
    /// button does not, as it still has to be clicked.
    pub fn look(&mut self, frame: &[u8]) -> (l: Look)
        requires
            old(self).wf(),
            old(self).waiting(),
            pixels::frame_fits(frame@.len() as int, old(self).capture.width as int, old(self).capture.height as int),
        ensures
            l == old(self).seen(frame@),
            *final(self) == (match l {
                Look::Found { local, screen } => Launch {
                    stage: if old(self).stage is Frame {
                        Stage::Play
                    } else {
                        Stage::Ready
                    },
                    found: screen,
                    ..*old(self)
                },
                _ => *old(self),
            }),
            final(self).wf(),
            progress(final(self).stage) == progress(old(self).stage) + (if l is Found {
                1int
            } else {
                0int
            }),
    {
        let c = self.capture;
        if let Stage::Play = self.stage {
            let local = geometry::relative_rect(c, self.found);
            proof {
                lemma_found_usable(*self);
            }
            match detect::detect_play_button(frame, c.width, c.height, local) {
                Some(place) => {
                    proof {
                        lemma_place_on_screen(*self, frame@);
                    }
                    return Look::Click { click: place.with_screen(c) };
                },
                None => {
                    return Look::Nothing { pause: PLAY_PAUSE };
                },
            }
        }
        let detector = self.detector();
        match detect::detect_frame_rect(frame, c.width, c.height, detector) {
            Some(local) => {
                proof {
                    detect::lemma_frame_on_screen(frame@, c.width, c.height, detector);
                }
                let screen = geometry::absolute_rect(c, local);
                self.found = screen;
                self.stage = match self.stage {
                    Stage::Frame => Stage::Play,
                    _ => Stage::Ready,
                };
                Look::Found { local, screen }
            },
            None => Look::Nothing { pause: FRAME_PAUSE },
        }
    }

    /// The frame that the button is looked for in, seen from the captured area.
    pub fn local_frame(&self) -> (r: Rect)
        requires
            self.wf(),
            self.stage is Play,
        ensures
            r == geometry::moved(self.found, -self.capture.left, -self.capture.top),
    {
        geometry::relative_rect(self.capture, self.found)
    }

    /// PLAY has been clicked. After a pause of 900 milliseconds the running game is waited for.
    pub fn clicked(&mut self)
        requires
            old(self).wf(),
            old(self).stage is Play,
        ensures
            *final(self) == (Launch { stage: Stage::Zone, ..*old(self) }),
            final(self).wf(),
            progress(final(self).stage) == progress(old(self).stage) + 1,
    {
        self.stage = Stage::Zone;
    }

    /// The play zone: the frame of the running game without its margins.
    pub fn gameplay_rect(&self) -> (r: Rect)
        requires
            self.wf(),
            self.stage is Ready,
        ensures
            r == geometry::shrunk(
                self.found,
                geometry::shrink_ratios(self.profile).0,
                geometry::shrink_ratios(self.profile).1,
            ),
            1 <= r.width && 1 <= r.height,
            r.width + 2 * (r.left - self.found.left) == self.found.width,
            r.height + 2 * (r.top - self.found.top) == self.found.height,
            self.profile is Standard ==> -60 <= 100 * (r.left - self.found.left) - 10 * self.found.width <= 60,
            self.profile is Standard ==> -60 <= 100 * (r.top - self.found.top) - 5 * self.found.height <= 60,
            self.profile is BootBreaker ==> -60 <= 100 * (r.left - self.found.left) - 15 * self.found.width <= 60,
            self.profile is BootBreaker ==> r.top == self.found.top,
    {
        let ratios = geometry::play_zone_shrink_ratios(self.profile);
        proof {
            let c = self.capture;
            assert(c.width * c.height >= c.height * 220) by (nonlinear_arith)
                requires
                    c.width >= 220,
                    c.height > 0,
            ;
            assert(c.width * c.height >= c.width * 160) by (nonlinear_arith)
                requires
                    c.height >= 160,
                    c.width > 0,
            ;
            geometry::lemma_play_zone(self.found, self.profile);
            geometry::lemma_inset(self.found.width as int, ratios.0);
            geometry::lemma_inset(self.found.height as int, ratios.1);
        }
        geometry::shrink_rect(self.found, ratios.0, ratios.1)
    }
}

/// A launch only moves forward, and a stage that has ended is not left.
pub proof fn lemma_launch_forward(before: Launch, frame: Seq<u8>)
    requires
        before.wf(),
        before.waiting(),
    ensures
        before.seen(frame) is Found ==> !(before.stage is Play) && progress(
            if before.stage is Frame {
                Stage::Play
            } else {
                Stage::Ready
            },
        ) == progress(before.stage) + 1,
        before.stage is Play ==> before.seen(frame) is Click,
{
}

proof fn lemma_found_usable(l: Launch)
    requires
        l.wf(),
        l.stage is Play,
    ensures
        geometry::movable(l.found, -l.capture.left, -l.capture.top),
        detect::usable(geometry::moved(l.found, -l.capture.left, -l.capture.top)),
{
    let c = l.capture;
    assert(c.width * c.height >= c.height * 220) by (nonlinear_arith)
        requires
            c.width >= 220,
            c.height > 0,
    ;
    assert(c.width * c.height >= c.width * 160) by (nonlinear_arith)
        requires
            c.height >= 160,
            c.width > 0,
    ;
}

proof fn lemma_place_on_screen(l: Launch, frame: Seq<u8>)
    requires
        l.wf(),
        l.stage is Play,
        pixels::frame_fits(frame.len() as int, l.capture.width as int, l.capture.height as int),
    ensures
        ({
            let c = l.capture;
            let local = geometry::moved(l.found, -c.left, -c.top);
            let place = detect::play_place(frame, c.width as int, c.height as int, local);
            0 <= place.x < c.width && 0 <= place.y < c.height
        }),
{
    let c = l.capture;
    let local = geometry::moved(l.found, -c.left, -c.top);
    lemma_found_usable(l);
    detect::lemma_play_place(frame, c.width as int, c.height as int, local);
}

/// PLAY is clicked inside the frame that was found, and the place is the same seen from the captured area.
pub proof fn lemma_click_in_found(l: Launch, frame: Seq<u8>)
    requires
        l.wf(),
        l.stage is Play,
    ensures
        l.seen(frame) matches Look::Click { click } && {
            &&& l.found.left <= click.screen_x < l.found.left + l.found.width
            &&& l.found.top <= click.screen_y < l.found.top + l.found.height
            &&& click.screen_x - click.x == l.capture.left
            &&& click.screen_y - click.y == l.capture.top
        },
{
    let c = l.capture;
    let local = geometry::moved(l.found, -c.left, -c.top);
    lemma_found_usable(l);
    detect::lemma_click_in_frame(frame, c.width as int, c.height as int, local);
}

/// A frame that is found lies in the captured area, at the same place seen from there and on the screen.
pub proof fn lemma_found_in_capture(l: Launch, frame: Seq<u8>)
    requires
        l.wf(),
        l.stage is Frame || l.stage is Zone,
    ensures
        l.seen(frame) matches Look::Found { local, screen } ==> {
            &&& inside(screen, l.capture)
            &&& screen.left - local.left == l.capture.left
            &&& screen.top - local.top == l.capture.top
            &&& screen.width == local.width && screen.height == local.height
            &&& screen.width >= 220 && screen.height >= 160
        },
        l.seen(frame) matches Look::Nothing { pause } ==> pause == 120,
        !(l.seen(frame) is Click),
{
    let c = l.capture;
    let d = l.looks_for();
    if detect::frame_rect(frame, c.width as int, c.height as int, d) is Some {
        detect::lemma_frame_on_screen(frame, c.width, c.height, d);
    }
}

/// The boot breaker frame is looked for only after the click, and only in boot breaker.
pub proof fn lemma_looks_for(l: Launch)
    ensures
        l.looks_for() is BootBreakerFrame <==> l.stage is Zone && l.profile is BootBreaker,
{
}

} // verus!
