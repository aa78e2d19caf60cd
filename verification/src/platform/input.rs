//! Keys and clicks: which events to send, and in which order.

use crate::platform::win32;
use crate::platform::win32::{Input, Point};
use crate::text;
use vstd::prelude::*;
use vstd::string::*;

verus! {

/// Which of the two steering keys is held down.
#[derive(Clone, Copy, Debug, PartialEq, Eq, Structural)]
pub enum HeldKey {
    Neither,
    A,
    D,
}

/// The name of a held key in status lines and logs.
pub open spec fn key_name(held: HeldKey) -> Seq<char> {
    match held {
        HeldKey::Neither => "None"@,
        HeldKey::A => "A"@,
        HeldKey::D => "D"@,
    }
}

impl HeldKey {
    /// The name of a held key in status lines and logs.
    pub fn name(self) -> (name: &'static str)
        ensures
            name@ == key_name(self),
    {
        match self {
            HeldKey::Neither => "None",
            HeldKey::A => "A",
            HeldKey::D => "D",
        }
    }
}

/// The event that presses or releases a key.
pub open spec fn key_input(vk: u16, up: bool) -> Input {
    win32::keyboard_input(
        vk,
        0,
        if up {
            win32::KEYEVENTF_KEYUP
        } else {
            0
        },
    )
}

/// The event that presses or releases a key.
pub fn key_event(vk: u16, up: bool) -> (input: Input)
    ensures
        input == key_input(vk, up),
{
    let flags: u32 = if up {
        win32::KEYEVENTF_KEYUP
    } else {
        0
    };
    win32::make_input(vk, 0, flags)
}

/// The events that release the steering keys: the one that is held or, where none is known to be
/// held and `force_all` is set, both.
pub open spec fn releases(held: HeldKey, force_all: bool) -> Seq<Input> {
    match held {
        HeldKey::A => seq![key_input(win32::VK_A, true)],
        HeldKey::D => seq![key_input(win32::VK_D, true)],
        HeldKey::Neither => if force_all {
            seq![key_input(win32::VK_A, true), key_input(win32::VK_D, true)]
        } else {
            Seq::empty()
        },
    }
}

/// The events that press a steering key.
pub open spec fn presses(key: HeldKey) -> Seq<Input> {
    match key {
        HeldKey::A => seq![key_input(win32::VK_A, false)],
        HeldKey::D => seq![key_input(win32::VK_D, false)],
        HeldKey::Neither => Seq::empty(),
    }
}

/// The events that change from one held key to another.
pub open spec fn switches(held: HeldKey, key: HeldKey) -> Seq<Input> {
    if held == key {
        Seq::empty()
    } else {
        releases(held, false) + presses(key)
    }
}

/// Lets go of the steering keys. Returns the events to send.
pub fn release_keys(held: &mut HeldKey, force_all: bool) -> (events: Vec<Input>)
    ensures
        events@ == releases(*old(held), force_all),
        *final(held) == HeldKey::Neither,
{
    let mut events: Vec<Input> = Vec::new();
    match *held {
        HeldKey::A => {
            events.push(key_event(win32::VK_A, true));
        },
        HeldKey::D => {
            events.push(key_event(win32::VK_D, true));
        },
        HeldKey::Neither => {
            if force_all {
                events.push(key_event(win32::VK_A, true));
                events.push(key_event(win32::VK_D, true));
            }
        },
    }
    assert(events@ =~= releases(*held, force_all));
    *held = HeldKey::Neither;
    events
}

/// Holds down exactly the given steering key. Returns the events to send.
pub fn hold_key(held: &mut HeldKey, key: HeldKey) -> (events: Vec<Input>)
    ensures
        events@ == switches(*old(held), key),
        *final(held) == key,
{
    if *held == key {
        return Vec::new();
    }
    let mut events = release_keys(held, false);
    match key {
        HeldKey::A => {
            events.push(key_event(win32::VK_A, false));
        },
        HeldKey::D => {
            events.push(key_event(win32::VK_D, false));
        },
        HeldKey::Neither => {},
    }
    assert(events@ =~= switches(*old(held), key));
    *held = key;
    events
}

/// The keys that are down after some events, where `down` were down before.
pub open spec fn down_after(down: Set<u16>, events: Seq<Input>) -> Set<u16>
    decreases events.len(),
{
    if events.len() == 0 {
        down
    } else {
        let before = down_after(down, events.drop_last());
        let ki = events.last().ki;
        if ki.dw_flags == win32::KEYEVENTF_KEYUP {
            before.remove(ki.w_vk)
        } else {
            before.insert(ki.w_vk)
        }
    }
}

/// Events that follow one another act one after the other.
pub proof fn lemma_down_concat(down: Set<u16>, a: Seq<Input>, b: Seq<Input>)
    ensures
        down_after(down, a + b) == down_after(down_after(down, a), b),
    decreases b.len(),
{
    if b.len() == 0 {
        assert(a + b =~= a);
    } else {
        assert((a + b).drop_last() =~= a + b.drop_last());
        lemma_down_concat(down, a, b.drop_last());
    }
}

/// The steering keys that are down where `held` is held.
pub open spec fn keys_of(held: HeldKey) -> Set<u16> {
    match held {
        HeldKey::A => set![win32::VK_A],
        HeldKey::D => set![win32::VK_D],
        HeldKey::Neither => Set::empty(),
    }
}

/// Where the keyboard agrees with `held`, it agrees with the new value after a change of key. On the way
/// there, after each of the events, never more than one steering key is down.
pub proof fn lemma_switch_keeps_track(held: HeldKey, key: HeldKey)
    ensures
        down_after(keys_of(held), switches(held, key)) == keys_of(key),
        forall|n: int|
            0 <= n <= switches(held, key).len() ==> {
                let down = #[trigger] down_after(keys_of(held), switches(held, key).take(n));
                down == keys_of(held) || down == Set::<u16>::empty() || down == keys_of(key)
            },
        forall|n: int|
            0 <= n <= switches(held, key).len() ==> #[trigger] down_after(
                keys_of(held),
                switches(held, key).take(n),
            ).len() <= 1,
{
    reveal_with_fuel(down_after, 3);
    let down = keys_of(held);
    let events = switches(held, key);
    if held != key {
        if events.len() == 2 {
            assert(events.drop_last() =~= releases(held, false));
            assert(releases(held, false).drop_last() =~= Seq::<Input>::empty());
        } else if events.len() == 1 {
            assert(events.drop_last() =~= Seq::<Input>::empty());
        }
    }
    assert(down_after(down, events) =~= keys_of(key));
    assert forall|n: int| 0 <= n <= events.len() implies {
        let now = #[trigger] down_after(down, events.take(n));
        (now == down || now == Set::<u16>::empty() || now == keys_of(key)) && now.len() <= 1
    } by {
        let now = down_after(down, events.take(n));
        if n == events.len() {
            assert(events.take(n) =~= events);
        } else if n == 0 {
            assert(events.take(n) =~= Seq::<Input>::empty());
        } else {
            assert(events.take(n) =~= releases(held, false));
            assert(releases(held, false).drop_last() =~= Seq::<Input>::empty());
            assert(now =~= Set::<u16>::empty());
        }
        assert(set![win32::VK_A].len() == 1 && set![win32::VK_D].len() == 1);
    }
}

/// Where the keyboard agrees with `held`, no steering key is down after a release.
pub proof fn lemma_release_keeps_track(held: HeldKey, force_all: bool)
    ensures
        down_after(keys_of(held), releases(held, force_all)) == Set::<u16>::empty(),
{
    reveal_with_fuel(down_after, 3);
    let events = releases(held, force_all);
    if events.len() == 2 {
        assert(events.drop_last() =~= seq![key_input(win32::VK_A, true)]);
        assert(events.drop_last().drop_last() =~= Seq::<Input>::empty());
    } else if events.len() == 1 {
        assert(events.drop_last() =~= Seq::<Input>::empty());
    }
    assert(down_after(keys_of(held), events) =~= Set::<u16>::empty());
}

/// A forced release leaves no steering key down, whatever was down before, where none was known to
/// be held.
pub proof fn lemma_forced_release(down: Set<u16>)
    ensures
        down_after(down, releases(HeldKey::Neither, true)) == down.remove(win32::VK_A).remove(win32::VK_D),
{
    reveal_with_fuel(down_after, 3);
    let events = releases(HeldKey::Neither, true);
    assert(events.drop_last() =~= seq![key_input(win32::VK_A, true)]);
    assert(events.drop_last().drop_last() =~= Seq::<Input>::empty());
}

/// One step of a key script.
#[derive(Clone, Copy, Debug, PartialEq, Eq, Structural)]
pub enum KeyStep {
    Send(Input),
    Wait { millis: u64 },
}

/// Presses the space bar for 70 milliseconds.
pub fn tap_space() -> (steps: Vec<KeyStep>)
    ensures
        steps@ == seq![
            KeyStep::Send(key_input(win32::VK_SPACE, false)),
            KeyStep::Wait { millis: 70 },
            KeyStep::Send(key_input(win32::VK_SPACE, true)),
        ],
{
    let mut steps: Vec<KeyStep> = Vec::new();
    steps.push(KeyStep::Send(key_event(win32::VK_SPACE, false)));
    steps.push(KeyStep::Wait { millis: 70 });
    steps.push(KeyStep::Send(key_event(win32::VK_SPACE, true)));
    steps
}

/// What to do next in order to click.
#[derive(Clone, Copy, Debug, PartialEq, Eq, Structural)]
pub enum ClickAction {
    /// Move the cursor to the target, wait 40 milliseconds and read where it is.
    Move,
    /// The cursor is there: press the left button, release it after 30 milliseconds, wait 120.
    Press,
    /// The cursor cannot be moved there.
    GiveUp,
}

/// A click that is being tried.
#[derive(Clone, Copy, Debug, PartialEq, Eq, Structural)]
pub struct ClickAttempt {
    pub target: Point,
    pub moves: u32,
}

/// How often the cursor is moved before giving up.
pub const CLICK_MOVES: u32 = 3;

/// Two coordinates differ by at most two.
pub open spec fn close(a: int, b: int) -> bool {
    -2 <= a - b <= 2
}

/// The cursor is at most two pixels off the target on each axis.
pub open spec fn on_target(actual: Point, target: Point) -> bool {
    close(actual.x as int, target.x as int) && close(actual.y as int, target.y as int)
}

/// Is the cursor at the target?
pub fn at_target(actual: Point, target: Point) -> (yes: bool)
    ensures
        yes == on_target(actual, target),
{
    let dx: i64 = actual.x as i64 - target.x as i64;
    let dy: i64 = actual.y as i64 - target.y as i64;
    dx >= -2 && dx <= 2 && dy >= -2 && dy <= 2
}

impl ClickAttempt {
    /// A click that has not been tried yet. The cursor has to be moved first.
    pub fn new(x: i32, y: i32) -> (c: Self)
        ensures
            c == (ClickAttempt { target: Point { x, y }, moves: 0 }),
    {
        ClickAttempt { target: Point { x, y }, moves: 0 }
    }

    /// Takes the cursor position after a move, and says what to do next: the button is pressed
    /// exactly where the cursor is at the target, and after three moves that did not get it there
    /// the click is given up.
    pub fn moved(&mut self, actual: Point) -> (action: ClickAction)
        requires
            old(self).moves < CLICK_MOVES,
        ensures
            final(self).target == old(self).target,
            final(self).moves == old(self).moves + 1,
            action == if on_target(actual, old(self).target) {
                ClickAction::Press
            } else if old(self).moves + 1 < CLICK_MOVES {
                ClickAction::Move
            } else {
                ClickAction::GiveUp
            },
            action is Press <==> {
                let t = old(self).target;
                (actual.x - t.x < 3 && t.x - actual.x < 3) && (actual.y - t.y < 3 && t.y - actual.y < 3)
            },
            action is GiveUp ==> final(self).moves == 3,
            action is Move ==> final(self).moves < 3,
    {
        self.moves = self.moves + 1;
        if at_target(actual, self.target) {
            ClickAction::Press
        } else if self.moves < CLICK_MOVES {
            ClickAction::Move
        } else {
            ClickAction::GiveUp
        }
    }
}

/// The message for a click that was given up.
pub open spec fn click_failure(target: Point, actual: Point) -> Seq<char> {
    "cursor did not move to click target: target="@ + text::decimal(target.x as int) + seq![','] + text::decimal(
        target.y as int,
    ) + " actual="@ + text::decimal(actual.x as int) + seq![','] + text::decimal(actual.y as int)
}

/// The message for a click that was given up.
pub fn click_error(target: Point, actual: Point) -> (message: String)
    ensures
        message@ == click_failure(target, actual),
{
    let mut out = String::new();
    out.append("cursor did not move to click target: target=");
    text::push_int(&mut out, target.x as i64);
    out.push(',');
    text::push_int(&mut out, target.y as i64);
    out.append(" actual=");
    text::push_int(&mut out, actual.x as i64);
    out.push(',');
    text::push_int(&mut out, actual.y as i64);
    assert(out@ =~= click_failure(target, actual));
    out
}

/// What to do while waiting for some time that a stop may cut short.
#[derive(Clone, Copy, Debug, PartialEq, Eq, Structural)]
pub enum WaitAction {
    /// Sleep this many nanoseconds.
    Sleep { nanos: u64 },
    /// Waiting is over; `stopped` says whether a stop was asked for.
    Done { stopped: bool },
}

/// The longest sleep between two looks at the stop request, in nanoseconds.
pub const STOP_POLL: u64 = 20_000_000;

/// One step of waiting for `duration` nanoseconds, `elapsed` of which have passed. Sleeps are at most
/// 20 milliseconds and never beyond the end; a stop ends the waiting at once.
pub fn wait_or_stop(elapsed: u64, duration: u64, stop: bool) -> (action: WaitAction)
    ensures
        action == if elapsed < duration && !stop {
            WaitAction::Sleep {
                nanos: if duration - elapsed < STOP_POLL {
                    (duration - elapsed) as u64
                } else {
                    STOP_POLL
                },
            }
        } else {
            WaitAction::Done { stopped: stop }
        },
        action matches WaitAction::Sleep { nanos } ==> 0 < nanos <= 20_000_000 && elapsed + nanos <= duration && !stop,
        action matches WaitAction::Sleep { nanos } ==> nanos == 20_000_000 || elapsed + nanos == duration,
        action matches WaitAction::Done { stopped } ==> stopped == stop && (stop || elapsed >= duration),
{
    if elapsed < duration && !stop {
        let left: u64 = duration - elapsed;
        WaitAction::Sleep {
            nanos: if left < STOP_POLL {
                left
            } else {
                STOP_POLL
            },
        }
    } else {
        WaitAction::Done { stopped: stop }
    }
}

/// Being at a target goes both ways, and does not depend on where on the screen both are.
pub proof fn lemma_on_target(a: Point, b: Point, dx: int, dy: int)
    requires
        i32::MIN <= a.x + dx <= i32::MAX,
        i32::MIN <= a.y + dy <= i32::MAX,
        i32::MIN <= b.x + dx <= i32::MAX,
        i32::MIN <= b.y + dy <= i32::MAX,
    ensures
        on_target(a, b) == on_target(b, a),
        on_target(a, a),
        on_target(
            Point { x: (a.x + dx) as i32, y: (a.y + dy) as i32 },
            Point { x: (b.x + dx) as i32, y: (b.y + dy) as i32 },
        ) == on_target(a, b),
        on_target(a, b) <==> (a.x - b.x < 3 && b.x - a.x < 3) && (a.y - b.y < 3 && b.y - a.y < 3),
{
}

/// Steering uses the keys A and D: a change presses the key that is to be held, unless it is held already, after
/// letting go of the one that was.
pub proof fn lemma_switch_events(held: HeldKey, key: HeldKey)
    ensures
        held == key ==> switches(held, key).len() == 0,
        held != key && !(key is Neither) ==> {
            let e = switches(held, key).last();
            e.ki.w_vk == (if key is A {
                0x41u16
            } else {
                0x44u16
            }) && e.ki.dw_flags == 0
        },
        held != key && !(held is Neither) ==> {
            let e = switches(held, key)[0];
            e.ki.w_vk == (if held is A {
                0x41u16
            } else {
                0x44u16
            }) && e.ki.dw_flags == 2
        },
{
}

} // verus!
